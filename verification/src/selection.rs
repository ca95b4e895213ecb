//! Choosing among the connections of a pool.
use rand::rngs::OsRng;
use rand::seq::SliceRandom;
use vstd::prelude::*;

use crate::connection_pool::{
    connection_of, lists_connections, pool_wf, with_liveness, with_status, ConnectionPool,
    ConnectionStatus, PoolView,
};
use crate::node_id::{
    contains_id, distance_between, law_distance_injective, lemma_same_items, ordered_by_distance,
    sort_by_distance, Located, NodeId,
};
use crate::peer::PeerConnection;

verus! {

/// Which connections a caller asks for, none of them to an excluded peer.
#[derive(Debug, Clone)]
pub enum ConnectivitySelection {
    /// So many connections, taken at random.
    RandomNodes(usize, Vec<NodeId>),
    /// So many connections, those to the peers closest to a node.
    ClosestTo(Box<NodeId>, usize, Vec<NodeId>),
}

/// Whether a connection may be handed to a caller: it is open, it leads to a communication
/// node, and its peer is not excluded.
pub open spec fn selectable(conn: PeerConnection, exclude: Seq<NodeId>) -> bool {
    conn.connected && conn.peer_features.node && !exclude.contains(conn.peer_node_id)
}

/// The connections of the pool that may be handed to a caller, each of them once.
pub open spec fn lists_selectable(
    conns: Seq<PeerConnection>,
    pool: PoolView,
    exclude: Seq<NodeId>,
) -> bool {
    lists_connections(conns, pool, |conn: PeerConnection| selectable(conn, exclude))
}

/// The peers whose connection may be handed to a caller.
pub open spec fn selectable_peers(pool: PoolView, exclude: Seq<NodeId>) -> Set<NodeId> {
    pool.dom().filter(
        |id: NodeId|
            match pool[id].connection {
                Some(conn) => selectable(conn, exclude),
                None => false,
            },
    )
}

/// A list of the selectable connections has one item for each selectable peer.
pub proof fn lemma_selectable_len(conns: Seq<PeerConnection>, pool: PoolView, exclude: Seq<NodeId>)
    requires
        pool_wf(pool),
        lists_selectable(conns, pool, exclude),
    ensures
        conns.len() == selectable_peers(pool, exclude).len(),
{
    let ids = conns.map_values(|conn: PeerConnection| conn.peer_node_id);
    assert forall|i: int, j: int| 0 <= i < ids.len() && 0 <= j < ids.len() && i != j implies ids[i]
        != ids[j] by {
        assert(conns.contains(conns[i]) && conns.contains(conns[j]));
        assert(conns[i] != conns[j]);
    }
    assert forall|id: NodeId|
        ids.to_set().contains(id) <==> #[trigger] selectable_peers(pool, exclude).contains(id) by {
        if ids.contains(id) {
            let i = choose|i: int| 0 <= i < ids.len() && ids[i] == id;
            assert(conns.contains(conns[i]));
        }
        if selectable_peers(pool, exclude).contains(id) {
            let conn = pool[id].connection.unwrap();
            assert(connection_of(pool, conn.peer_node_id) == Some(conn));
            assert(conns.contains(conn));
            let i = choose|i: int| 0 <= i < conns.len() && conns[i] == conn;
            assert(ids[i] == id);
        }
    }
    assert(ids.to_set() =~= selectable_peers(pool, exclude));
    ids.unique_seq_to_set();
}

/// The connections of `pool` that may be handed to a caller.
fn selectable_connections<'a>(pool: &'a ConnectionPool, exclude: &[NodeId]) -> (r: Vec<
    &'a PeerConnection,
>)
    requires
        pool.wf(),
    ensures
        lists_selectable(r@.unref(), pool@, exclude@),
{
    let all: Vec<&'a PeerConnection> = pool.connections();
    let mut nodes: Vec<&'a PeerConnection> = Vec::new();
    let mut i: usize = 0;
    while i < all.len()
        invariant
            i <= all@.len(),
            lists_connections(all@.unref(), pool@, |conn: PeerConnection| true),
            forall|k: int|
                0 <= k < nodes@.len() ==> selectable(*#[trigger] nodes@[k], exclude@) && exists|j: int|
                    0 <= j < i && #[trigger] all@[j] == nodes@[k],
            forall|k: int, l: int|
                #![trigger nodes@[k], nodes@[l]]
                0 <= k < l < nodes@.len() ==> nodes@[k] != nodes@[l],
            forall|j: int|
                0 <= j < i && selectable(*#[trigger] all@[j], exclude@) ==> nodes@.contains(all@[j]),
        decreases all@.len() - i,
    {
        let conn: &'a PeerConnection = all[i];
        let ghost before = nodes@;
        if conn.is_connected() && conn.peer_features().is_node() && !contains_id(
            exclude,
            &conn.peer_node_id(),
        ) {
            nodes.push(conn);
            proof {
                assert forall|k: int| 0 <= k < before.len() implies before[k] != conn by {
                    let j = choose|j: int| 0 <= j < i && #[trigger] all@[j] == before[k];
                    assert(all@.unref()[j] != all@.unref()[i as int]);
                }
                assert(nodes@[before.len() as int] == all@[i as int]);
            }
        }
        proof {
            assert forall|j: int|
                0 <= j < i + 1 && selectable(*#[trigger] all@[j], exclude@) implies nodes@.contains(
                all@[j],
            ) by {
                if j < i {
                    let k = choose|k: int| 0 <= k < before.len() && before[k] == all@[j];
                    assert(nodes@[k] == all@[j]);
                }
            }
            assert forall|k: int| 0 <= k < nodes@.len() implies exists|j: int|
                0 <= j < i + 1 && #[trigger] all@[j] == #[trigger] nodes@[k] by {
                if k < before.len() {
                    let j = choose|j: int| 0 <= j < i && #[trigger] all@[j] == before[k];
                    assert(all@[j] == nodes@[k]);
                }
            }
        }
        i += 1;
    }
    proof {
        let chosen = |conn: PeerConnection| selectable(conn, exclude@);
        assert forall|conn: PeerConnection| #[trigger]
            nodes@.unref().contains(conn) <==> connection_of(pool@, conn.peer_node_id) == Some(conn)
                && chosen(conn) by {
            if nodes@.unref().contains(conn) {
                let k = choose|k: int| 0 <= k < nodes@.len() && nodes@.unref()[k] == conn;
                let j = choose|j: int| 0 <= j < all@.len() && #[trigger] all@[j] == nodes@[k];
                assert(all@.unref()[j] == conn);
                assert(all@.unref().contains(conn));
            }
            if connection_of(pool@, conn.peer_node_id) == Some(conn) && chosen(conn) {
                assert(all@.unref().contains(conn));
                let j = choose|j: int| 0 <= j < all@.len() && all@.unref()[j] == conn;
                assert(nodes@.contains(all@[j]));
                let k = choose|k: int| 0 <= k < nodes@.len() && nodes@[k] == all@[j];
                assert(nodes@.unref()[k] == conn);
            }
        }
    }
    nodes
}

/// The connections of `pool` that may be handed to a caller, the one to the peer closest to
/// `node_id` first.
pub fn select_closest<'a>(pool: &'a ConnectionPool, node_id: &NodeId, exclude: &[NodeId]) -> (r:
    Vec<&'a PeerConnection>)
    requires
        pool.wf(),
    ensures
        lists_selectable(r@.unref(), pool@, exclude@),
        ordered_by_distance(r@, *node_id),
        r@.len() == selectable_peers(pool@, exclude@).len(),
{
    let nodes: Vec<&'a PeerConnection> = selectable_connections(pool, exclude);
    let sorted: Vec<&'a PeerConnection> = sort_by_distance(nodes, node_id);
    proof {
        pool.lemma_wf();
        lemma_same_items(nodes@, sorted@);
        let chosen = |conn: PeerConnection| selectable(conn, exclude@);
        assert forall|conn: PeerConnection| #[trigger]
            sorted@.unref().contains(conn) <==> nodes@.unref().contains(conn) by {
            if sorted@.unref().contains(conn) {
                let i = choose|i: int| 0 <= i < sorted@.len() && sorted@.unref()[i] == conn;
                assert(sorted@.contains(sorted@[i]));
                let j = choose|j: int| 0 <= j < nodes@.len() && nodes@[j] == sorted@[i];
                assert(nodes@.unref()[j] == conn);
            }
            if nodes@.unref().contains(conn) {
                let i = choose|i: int| 0 <= i < nodes@.len() && nodes@.unref()[i] == conn;
                assert(nodes@.contains(nodes@[i]));
                let j = choose|j: int| 0 <= j < sorted@.len() && sorted@[j] == nodes@[i];
                assert(sorted@.unref()[j] == conn);
            }
        }
        assert(nodes@.no_duplicates()) by {
            assert forall|i: int, j: int|
                0 <= i < nodes@.len() && 0 <= j < nodes@.len() && i != j implies nodes@[i]
                != nodes@[j] by {
                assert(nodes@.unref()[i] != nodes@.unref()[j]);
            }
        }
        assert forall|i: int, j: int|
            0 <= i < sorted@.len() && 0 <= j < sorted@.len() && i
                != j implies sorted@.unref()[i] != sorted@.unref()[j] by {
            assert(sorted@[i] != sorted@[j]);
        }
        lemma_selectable_len(sorted@.unref(), pool@, exclude@);
    }
    sorted
}

/// `sample` holds `amount` items of `items`, or all of them if there are not so many, and
/// takes no place of `items` twice.
pub open spec fn is_sample<T>(sample: Seq<T>, items: Seq<T>, amount: nat) -> bool {
    &&& sample.len() == if amount <= items.len() {
        amount
    } else {
        items.len()
    }
    &&& exists|places: Seq<int>| #[trigger] draws(sample, items, places)
}

/// `sample` holds the items of `items` at `places`, which are all different.
pub open spec fn draws<T>(sample: Seq<T>, items: Seq<T>, places: Seq<int>) -> bool {
    &&& places.len() == sample.len()
    &&& places.no_duplicates()
    &&& forall|k: int|
        0 <= k < sample.len() ==> 0 <= #[trigger] places[k] < items.len() && sample[k]
            == items[places[k]]
}

/// Draws `amount` of `connections` at random, by `SliceRandom::choose_multiple` of the `rand`
/// crate with the random numbers of the operating system. That function promises that no item
/// is drawn twice, and it draws all items where there are fewer than `amount`. Which items come
/// out, and in which order, is left to chance. Its sampling does not provide for drawing all
/// items of a list of more than `u32::MAX`.
#[verifier::external_body]
fn choose_multiple<'a>(connections: &Vec<&'a PeerConnection>, amount: usize) -> (r: Vec<
    &'a PeerConnection,
>)
    requires
        connections@.len() <= u32::MAX || amount < connections@.len(),
    ensures
        is_sample(r@, connections@, amount as nat),
{
    connections.choose_multiple(&mut OsRng, amount).copied().collect()
}

/// `n` connections of `pool` that may be handed to a caller, taken at random; all of them if
/// there are not so many.
pub fn select_random_nodes<'a>(pool: &'a ConnectionPool, n: usize, excluding: &[NodeId]) -> (r: Vec<
    &'a PeerConnection,
>)
    requires
        pool.wf(),
        selectable_peers(pool@, excluding@).len() <= u32::MAX || n < selectable_peers(
            pool@,
            excluding@,
        ).len(),
    ensures
        random_choice(r@.unref(), pool@, n as nat, excluding@),
{
    let connections: Vec<&'a PeerConnection> = selectable_connections(pool, excluding);
    proof {
        pool.lemma_wf();
        lemma_selectable_len(connections@.unref(), pool@, excluding@);
    }
    let chosen: Vec<&'a PeerConnection> = choose_multiple(&connections, n);
    proof {
        let places = choose|places: Seq<int>| #[trigger] draws(chosen@, connections@, places);
        assert forall|i: int, j: int|
            0 <= i < chosen@.len() && 0 <= j < chosen@.len() && i
                != j implies chosen@.unref()[i] != chosen@.unref()[j] by {
            assert(places[i] != places[j]);
            assert(connections@.unref()[places[i]] != connections@.unref()[places[j]]);
        }
        assert forall|conn: PeerConnection| #[trigger]
            chosen@.unref().contains(conn) implies connection_of(pool@, conn.peer_node_id) == Some(
            conn,
        ) && selectable(conn, excluding@) by {
            let k = choose|k: int| 0 <= k < chosen@.len() && chosen@.unref()[k] == conn;
            assert(connections@.unref()[places[k]] == conn);
            assert(connections@.unref().contains(conn));
        }
    }
    chosen
}

/// `conns` holds `n` different connections of the pool that may be handed to a caller, or all
/// of them if there are not so many.
pub open spec fn random_choice(
    conns: Seq<PeerConnection>,
    pool: PoolView,
    n: nat,
    exclude: Seq<NodeId>,
) -> bool {
    &&& conns.no_duplicates()
    &&& forall|conn: PeerConnection| #[trigger]
        conns.contains(conn) ==> connection_of(pool, conn.peer_node_id) == Some(conn) && selectable(
            conn,
            exclude,
        )
    &&& conns.len() == if n <= selectable_peers(pool, exclude).len() {
        n
    } else {
        selectable_peers(pool, exclude).len()
    }
}

/// `conns` holds the `n` connections that may be handed to a caller whose peers are closest to
/// `node_id`, the closest first.
pub open spec fn closest_choice(
    conns: Seq<PeerConnection>,
    pool: PoolView,
    node_id: NodeId,
    n: nat,
    exclude: Seq<NodeId>,
) -> bool {
    &&& conns.len() == n
    &&& conns.no_duplicates()
    &&& forall|conn: PeerConnection| #[trigger]
        conns.contains(conn) ==> connection_of(pool, conn.peer_node_id) == Some(conn) && selectable(
            conn,
            exclude,
        )
    &&& forall|i: int, j: int|
        #![trigger conns[i], conns[j]]
        0 <= i <= j < conns.len() ==> distance_between(conns[i].peer_node_id, node_id)
            <= distance_between(conns[j].peer_node_id, node_id)
    &&& forall|conn: PeerConnection, i: int|
        #![trigger conns.contains(conn), conns[i]]
        connection_of(pool, conn.peer_node_id) == Some(conn) && selectable(conn, exclude)
            && !conns.contains(conn) && 0 <= i < conns.len() ==> distance_between(
            conns[i].peer_node_id,
            node_id,
        ) <= distance_between(conn.peer_node_id, node_id)
}

/// The first connections by distance are the closest ones.
pub proof fn lemma_closest_prefix(
    all: Seq<&PeerConnection>,
    pool: PoolView,
    node_id: NodeId,
    n: int,
    exclude: Seq<NodeId>,
)
    requires
        lists_selectable(all.unref(), pool, exclude),
        ordered_by_distance(all, node_id),
        0 <= n <= all.len(),
    ensures
        closest_choice(all.unref().take(n), pool, node_id, n as nat, exclude),
{
    let conns = all.unref().take(n);
    assert forall|i: int, j: int| 0 <= i < conns.len() && 0 <= j < conns.len() && i
        != j implies conns[i] != conns[j] by {
        assert(all.unref()[i] != all.unref()[j]);
    }
    assert forall|conn: PeerConnection| #[trigger] conns.contains(conn) implies connection_of(
        pool,
        conn.peer_node_id,
    ) == Some(conn) && selectable(conn, exclude) by {
        let i = choose|i: int| 0 <= i < conns.len() && conns[i] == conn;
        assert(all.unref()[i] == conn);
        assert(all.unref().contains(conn));
    }
    assert forall|i: int, j: int|
        #![trigger conns[i], conns[j]]
        0 <= i <= j < conns.len() implies distance_between(conns[i].peer_node_id, node_id)
        <= distance_between(conns[j].peer_node_id, node_id) by {
        assert(all[i] == conns[i] && all[j] == conns[j]);
    }
    assert forall|conn: PeerConnection, i: int|
        #![trigger conns.contains(conn), conns[i]]
        connection_of(pool, conn.peer_node_id) == Some(conn) && selectable(conn, exclude)
            && !conns.contains(conn) && 0 <= i < conns.len() implies distance_between(
        conns[i].peer_node_id,
        node_id,
    ) <= distance_between(conn.peer_node_id, node_id) by {
        assert(all.unref().contains(conn));
        let j = choose|j: int| 0 <= j < all.len() && all.unref()[j] == conn;
        if j < n {
            assert(conns[j] == conn);
        }
        assert(all[i] == conns[i] && all[j] == conn);
    }
}

proof fn lemma_order_decides(a: Seq<&PeerConnection>, b: Seq<&PeerConnection>, from: NodeId)
    requires
        ordered_by_distance(a, from),
        ordered_by_distance(b, from),
        a.no_duplicates(),
        b.no_duplicates(),
        forall|conn: &PeerConnection| a.contains(conn) <==> b.contains(conn),
        forall|x: &PeerConnection, y: &PeerConnection|
            a.contains(x) && a.contains(y) && x.peer_node_id == y.peer_node_id ==> x == y,
    ensures
        a == b,
    decreases a.len(),
{
    if a.len() == 0 {
        if b.len() > 0 {
            assert(b.contains(b[0]));
        }
        assert(a =~= b);
    } else {
        assert(a.contains(a[0]));
        assert(b.contains(a[0]));
        let j = choose|j: int| 0 <= j < b.len() && b[j] == a[0];
        assert(b.contains(b[0]));
        let i = choose|i: int| 0 <= i < a.len() && a[i] == b[0];
        law_distance_injective(a[0].peer_node_id, b[0].peer_node_id, from);
        assert(distance_between(a[0].peer_node_id, from) <= distance_between(
            a[i].peer_node_id,
            from,
        ));
        assert(distance_between(b[0].peer_node_id, from) <= distance_between(
            b[j].peer_node_id,
            from,
        ));
        assert(a[0] == b[0]);
        let x = a.drop_first();
        let y = b.drop_first();
        assert forall|conn: &PeerConnection| x.contains(conn) <==> y.contains(conn) by {
            if x.contains(conn) {
                let k = choose|k: int| 0 <= k < x.len() && x[k] == conn;
                assert(a[k + 1] == conn);
                assert(b.contains(conn));
                let l = choose|l: int| 0 <= l < b.len() && b[l] == conn;
                assert(y[l - 1] == conn);
            }
            if y.contains(conn) {
                let k = choose|k: int| 0 <= k < y.len() && y[k] == conn;
                assert(b[k + 1] == conn);
                assert(a.contains(conn));
                let l = choose|l: int| 0 <= l < a.len() && a[l] == conn;
                assert(x[l - 1] == conn);
            }
        }
        assert forall|p: &PeerConnection, q: &PeerConnection|
            x.contains(p) && x.contains(q) && p.peer_node_id == q.peer_node_id implies p == q by {
            let k = choose|k: int| 0 <= k < x.len() && x[k] == p;
            let l = choose|l: int| 0 <= l < x.len() && x[l] == q;
            assert(a[k + 1] == p && a[l + 1] == q);
            assert(a.contains(p) && a.contains(q));
        }
        lemma_order_decides(x, y, from);
        assert(a =~= seq![a[0]] + x);
        assert(b =~= seq![b[0]] + y);
    }
}

/// What is asked for decides the answer: there is only one way to list the selectable
/// connections by distance.
pub proof fn law_closest_unique(
    a: Seq<&PeerConnection>,
    b: Seq<&PeerConnection>,
    pool: PoolView,
    node_id: NodeId,
    exclude: Seq<NodeId>,
)
    requires
        lists_selectable(a.unref(), pool, exclude),
        lists_selectable(b.unref(), pool, exclude),
        ordered_by_distance(a, node_id),
        ordered_by_distance(b, node_id),
    ensures
        a == b,
{
    assert forall|s: Seq<&PeerConnection>|
        lists_selectable(s.unref(), pool, exclude) implies #[trigger] s.no_duplicates() && forall|
        conn: &PeerConnection,
    | #[trigger] s.contains(conn) <==> s.unref().contains(*conn) by {
        assert forall|i: int, j: int| 0 <= i < s.len() && 0 <= j < s.len() && i != j implies s[i]
            != s[j] by {
            assert(s.unref()[i] != s.unref()[j]);
        }
        assert forall|conn: &PeerConnection| #[trigger] s.contains(conn) <==> s.unref().contains(
            *conn,
        ) by {
            if s.contains(conn) {
                let i = choose|i: int| 0 <= i < s.len() && s[i] == conn;
                assert(s.unref()[i] == *conn);
            }
            if s.unref().contains(*conn) {
                let i = choose|i: int| 0 <= i < s.len() && s.unref()[i] == *conn;
                assert(s[i] == conn);
            }
        }
    }
    assert(a.no_duplicates() && b.no_duplicates());
    lemma_order_decides(a, b, node_id);
}

/// Asking for as many random connections as there are, or for more, gives every selectable
/// connection.
pub proof fn law_random_exhausts(
    conns: Seq<PeerConnection>,
    pool: PoolView,
    n: nat,
    exclude: Seq<NodeId>,
)
    requires
        pool_wf(pool),
        random_choice(conns, pool, n, exclude),
        n >= selectable_peers(pool, exclude).len(),
    ensures
        lists_selectable(conns, pool, exclude),
{
    let ids = conns.map_values(|conn: PeerConnection| conn.peer_node_id);
    let peers = selectable_peers(pool, exclude);
    assert forall|i: int, j: int| 0 <= i < ids.len() && 0 <= j < ids.len() && i != j implies ids[i]
        != ids[j] by {
        assert(conns.contains(conns[i]) && conns.contains(conns[j]));
        assert(conns[i] != conns[j]);
    }
    ids.unique_seq_to_set();
    assert(ids.to_set().subset_of(peers)) by {
        assert forall|id: NodeId| ids.to_set().contains(id) implies peers.contains(id) by {
            let i = choose|i: int| 0 <= i < ids.len() && ids[i] == id;
            assert(conns.contains(conns[i]));
        }
    }
    vstd::set_lib::lemma_subset_equality(ids.to_set(), peers);
    assert forall|conn: PeerConnection|
        connection_of(pool, conn.peer_node_id) == Some(conn) && selectable(
            conn,
            exclude,
        ) implies #[trigger] conns.contains(conn) by {
        assert(peers.contains(conn.peer_node_id));
        assert(ids.contains(conn.peer_node_id));
        let i = choose|i: int| 0 <= i < ids.len() && ids[i] == conn.peer_node_id;
        assert(conns.contains(conns[i]));
    }
}

/// A list by `select_closest` holds a connection exactly if the pool holds it, it is open, it leads
/// to a communication node, and its peer is not excluded. Nothing else decides: not the status of
/// the peer, nor whether anybody uses the connection. Each is listed once.
pub proof fn law_closest_members(
    conns: Seq<PeerConnection>,
    pool: PoolView,
    exclude: Seq<NodeId>,
    conn: PeerConnection,
)
    requires
        lists_selectable(conns, pool, exclude),
    ensures
        conns.contains(conn) <==> {
            &&& pool.contains_key(conn.peer_node_id)
            &&& pool[conn.peer_node_id].connection == Some(conn)
            &&& conn.connected
            &&& conn.peer_features.node
            &&& !exclude.contains(conn.peer_node_id)
        },
        conns.no_duplicates(),
{
}

/// A list by `select_closest` stands in the order of the distance of the peers.
pub proof fn law_closest_order(conns: Seq<&PeerConnection>, node_id: NodeId, i: int, j: int)
    requires
        ordered_by_distance(conns, node_id),
        0 <= i <= j < conns.len(),
    ensures
        (conns[i].peer_node_id.key ^ node_id.key) <= (conns[j].peer_node_id.key ^ node_id.key),
{
    assert(distance_between(conns[i].location(), node_id) <= distance_between(
        conns[j].location(),
        node_id,
    ));
}

/// A peer is selectable exactly if the pool holds an open connection to it, it is a communication
/// node, and it is not excluded.
pub proof fn law_selectable_peers(pool: PoolView, exclude: Seq<NodeId>, id: NodeId)
    requires
        pool_wf(pool),
    ensures
        selectable_peers(pool, exclude).contains(id) <==> {
            &&& pool.contains_key(id)
            &&& pool[id].connection is Some
            &&& pool[id].connection->0.connected
            &&& pool[id].connection->0.peer_features.node
            &&& !exclude.contains(id)
        },
{
}

/// Whether anybody uses a connection plays no part: if only that is reported anew, the same peers
/// can be selected.
pub proof fn law_usage_plays_no_part(
    pool: PoolView,
    id: NodeId,
    in_use: bool,
    exclude: Seq<NodeId>,
)
    requires
        pool_wf(pool),
        connection_of(pool, id) is Some,
    ensures
        selectable_peers(
            with_liveness(pool, id, connection_of(pool, id)->0.connected, in_use),
            exclude,
        ) == selectable_peers(pool, exclude),
{
    let after = with_liveness(pool, id, connection_of(pool, id)->0.connected, in_use);
    assert(selectable_peers(after, exclude) =~= selectable_peers(pool, exclude));
}

/// Nor does the status that the pool has for a peer.
pub proof fn law_status_plays_no_part(
    pool: PoolView,
    id: NodeId,
    status: ConnectionStatus,
    exclude: Seq<NodeId>,
)
    requires
        pool_wf(pool),
    ensures
        selectable_peers(with_status(pool, id, status), exclude) == selectable_peers(pool, exclude),
{
    assert(selectable_peers(with_status(pool, id, status), exclude) =~= selectable_peers(
        pool,
        exclude,
    ));
}

/// A peer that is excluded, or whose connection is closed, drops out, and no other does.
pub proof fn law_exclusion(pool: PoolView, exclude: Seq<NodeId>, id: NodeId)
    requires
        pool_wf(pool),
    ensures
        selectable_peers(pool, exclude.push(id)) == selectable_peers(pool, exclude).remove(id),
        selectable_peers(with_liveness(pool, id, false, false), exclude) == selectable_peers(
            pool,
            exclude,
        ).remove(id),
{
    assert forall|other: NodeId| #[trigger] exclude.push(id).contains(other) <==> other == id
        || exclude.contains(other) by {
        if exclude.contains(other) {
            let k = choose|k: int| 0 <= k < exclude.len() && exclude[k] == other;
            assert(exclude.push(id)[k] == other);
        }
        assert(exclude.push(id)[exclude.len() as int] == id);
    }
    assert(selectable_peers(pool, exclude.push(id)) =~= selectable_peers(pool, exclude).remove(id));
    assert(selectable_peers(with_liveness(pool, id, false, false), exclude) =~= selectable_peers(
        pool,
        exclude,
    ).remove(id));
}

/// A random selection holds only connections of the pool that are open, lead to a communication
/// node and to no excluded peer, each once; and as many as were asked for, or as many as there are.
pub proof fn law_random_members(
    conns: Seq<PeerConnection>,
    pool: PoolView,
    n: nat,
    exclude: Seq<NodeId>,
    conn: PeerConnection,
)
    requires
        random_choice(conns, pool, n, exclude),
    ensures
        conns.contains(conn) ==> {
            &&& pool.contains_key(conn.peer_node_id)
            &&& pool[conn.peer_node_id].connection == Some(conn)
            &&& conn.connected
            &&& conn.peer_features.node
            &&& !exclude.contains(conn.peer_node_id)
        },
        conns.no_duplicates(),
        n <= selectable_peers(pool, exclude).len() ==> conns.len() == n,
        n >= selectable_peers(pool, exclude).len() ==> conns.len() == selectable_peers(
            pool,
            exclude,
        ).len(),
{
}

/// A selection by distance holds as many connections as were asked for, of those of the pool that
/// are open, lead to a communication node and to no excluded peer; and no other such connection
/// leads to a closer peer.
pub proof fn law_closest_choice(
    conns: Seq<PeerConnection>,
    pool: PoolView,
    node_id: NodeId,
    n: nat,
    exclude: Seq<NodeId>,
    conn: PeerConnection,
    i: int,
    j: int,
)
    requires
        closest_choice(conns, pool, node_id, n, exclude),
    ensures
        conns.len() == n,
        conns.no_duplicates(),
        conns.contains(conn) ==> {
            &&& pool.contains_key(conn.peer_node_id)
            &&& pool[conn.peer_node_id].connection == Some(conn)
            &&& conn.connected
            &&& conn.peer_features.node
            &&& !exclude.contains(conn.peer_node_id)
        },
        0 <= i <= j < conns.len() ==> (conns[i].peer_node_id.key ^ node_id.key) <= (
        conns[j].peer_node_id.key ^ node_id.key),
        0 <= i < conns.len() && pool.contains_key(conn.peer_node_id) && pool[conn.peer_node_id].connection == Some(conn)
            && conn.connected && conn.peer_features.node && !exclude.contains(conn.peer_node_id)
            && !conns.contains(conn) ==> (conns[i].peer_node_id.key ^ node_id.key) <= (conn.peer_node_id.key ^ node_id.key),
{
    if 0 <= i <= j < conns.len() {
        assert(distance_between(conns[i].peer_node_id, node_id) <= distance_between(
            conns[j].peer_node_id,
            node_id,
        ));
    }
}

} // verus!
