//! What the operations of the pool do to it, entry by entry.
use vstd::prelude::*;

use crate::connection_pool::{
    connected_peers, connection_of, entry_of, failed_peers, lemma_entries, lists_connections,
    lists_entries, lists_unused, only_stale, pool_wf, status_of, with_connection, with_liveness,
    with_peer, with_status, without_stale, ConnectionStatus, PeerConnectionState, PoolView,
};
use crate::node_id::NodeId;
use crate::peer::PeerConnection;

verus! {

/// What is read of a peer is what its entry holds. A peer that the pool does not hold is not
/// connected, and has no connection.
pub proof fn law_read(pool: PoolView, id: NodeId)
    ensures
        pool.contains_key(id) ==> {
            &&& status_of(pool, id) == pool[id].status
            &&& connection_of(pool, id) == pool[id].connection
            &&& entry_of(pool, id) == pool[id]
        },
        !pool.contains_key(id) ==> {
            &&& status_of(pool, id) == ConnectionStatus::NotConnected
            &&& connection_of(pool, id) is None
            &&& entry_of(pool, id).node_id == id
            &&& entry_of(pool, id).connection is None
            &&& entry_of(pool, id).status == ConnectionStatus::NotConnected
        },
{
}

/// A peer that enters the pool is not connected yet. One that is there already keeps its entry, and
/// so does every other peer.
pub proof fn law_insert(pool: PoolView, id: NodeId, other: NodeId)
    ensures
        with_peer(pool, id).contains_key(id),
        pool.contains_key(id) ==> with_peer(pool, id)[id] == pool[id],
        !pool.contains_key(id) ==> with_peer(pool, id)[id] == (PeerConnectionState {
            node_id: id,
            connection: None,
            status: ConnectionStatus::NotConnected,
        }),
        other != id ==> with_peer(pool, id).contains_key(other) == pool.contains_key(other),
        other != id && pool.contains_key(other) ==> with_peer(pool, id)[other] == pool[other],
{
}

/// The status that is set is the one that is read afterwards; the connection to the peer stays, and
/// so does the entry of every other peer.
pub proof fn law_set_status(
    pool: PoolView,
    id: NodeId,
    status: ConnectionStatus,
    other: NodeId,
)
    ensures
        with_status(pool, id, status).contains_key(id),
        with_status(pool, id, status)[id].status == status,
        pool.contains_key(id) ==> with_status(pool, id, status)[id].node_id == pool[id].node_id
            && with_status(pool, id, status)[id].connection == pool[id].connection,
        !pool.contains_key(id) ==> with_status(pool, id, status)[id].node_id == id && with_status(
            pool,
            id,
            status,
        )[id].connection is None,
        other != id ==> with_status(pool, id, status).contains_key(other) == pool.contains_key(
            other,
        ),
        other != id && pool.contains_key(other) ==> with_status(pool, id, status)[other]
            == pool[other],
{
}

/// A connection that is put into the pool is the one that is read for its peer; the peer is then
/// connected if the connection is open, and disconnected otherwise. Every other entry stays.
pub proof fn law_insert_connection(pool: PoolView, conn: PeerConnection, other: NodeId)
    ensures
        ({
            let t = with_connection(pool, conn);
            let id = conn.peer_node_id;
            &&& t.contains_key(id)
            &&& t[id].node_id == id
            &&& t[id].connection == Some(conn)
            &&& conn.connected ==> t[id].status == ConnectionStatus::Connected
            &&& !conn.connected ==> t[id].status == ConnectionStatus::Disconnected
            &&& other != id ==> t.contains_key(other) == pool.contains_key(other)
            &&& other != id && pool.contains_key(other) ==> t[other] == pool[other]
        }),
{
}

/// What the transport reports of a connection replaces what was known of it, and nothing else: not
/// the status of the peer, and no other entry. Of a peer without a connection nothing is noted.
pub proof fn law_record_liveness(
    pool: PoolView,
    id: NodeId,
    connected: bool,
    in_use: bool,
    other: NodeId,
)
    ensures
        ({
            let t = with_liveness(pool, id, connected, in_use);
            &&& pool.contains_key(id) && pool[id].connection is Some ==> {
                &&& t.contains_key(id)
                &&& t[id].node_id == pool[id].node_id
                &&& t[id].status == pool[id].status
                &&& t[id].connection is Some
                &&& t[id].connection->0.id == pool[id].connection->0.id
                &&& t[id].connection->0.peer_node_id == pool[id].connection->0.peer_node_id
                &&& t[id].connection->0.peer_features == pool[id].connection->0.peer_features
                &&& t[id].connection->0.connected == connected
                &&& t[id].connection->0.in_use == in_use
            }
            &&& !(pool.contains_key(id) && pool[id].connection is Some) ==> t == pool
            &&& other != id ==> t.contains_key(other) == pool.contains_key(other)
            &&& other != id && pool.contains_key(other) ==> t[other] == pool[other]
        }),
{
}

/// A peer counts as connected exactly if it has that status and its connection is open, and as
/// failed exactly if it has that status.
pub proof fn law_counted(pool: PoolView, id: NodeId)
    ensures
        connected_peers(pool).contains(id) <==> {
            &&& pool.contains_key(id)
            &&& pool[id].status == ConnectionStatus::Connected
            &&& pool[id].connection is Some
            &&& pool[id].connection->0.connected
        },
        failed_peers(pool).contains(id) <==> pool.contains_key(id) && pool[id].status
            == ConnectionStatus::Failed,
{
}

/// An entry counts as connected exactly if it has that status and its connection is open.
pub proof fn law_entry_connected(state: PeerConnectionState)
    ensures
        state.connected() <==> state.status == ConnectionStatus::Connected && state.connection
            is Some && state.connection->0.connected,
{
}

/// Cleaning takes out exactly the peers that have failed or are disconnected and that nobody wants.
/// What is left, and what is taken out, is as it was.
pub proof fn law_drain(pool: PoolView, wanted: Seq<NodeId>, id: NodeId)
    requires
        pool_wf(pool),
    ensures
        only_stale(pool, wanted).contains_key(id) <==> {
            &&& pool.contains_key(id)
            &&& pool[id].status == ConnectionStatus::Failed || pool[id].status
                == ConnectionStatus::Disconnected
            &&& !wanted.contains(id)
        },
        without_stale(pool, wanted).contains_key(id) <==> pool.contains_key(id) && !only_stale(
            pool,
            wanted,
        ).contains_key(id),
        without_stale(pool, wanted).contains_key(id) ==> without_stale(pool, wanted)[id]
            == pool[id],
        only_stale(pool, wanted).contains_key(id) ==> only_stale(pool, wanted)[id] == pool[id],
{
}

/// A list of all entries holds the entry of every peer of the pool, and nothing else, each once.
pub proof fn law_all(states: Seq<PeerConnectionState>, pool: PoolView)
    requires
        lists_entries(states, pool),
    ensures
        forall|id: NodeId| #[trigger]
            pool.contains_key(id) <==> exists|i: int|
                0 <= i < states.len() && (#[trigger] states[i]).node_id == id,
        forall|i: int| 0 <= i < states.len() ==> pool[(#[trigger] states[i]).node_id] == states[i],
        forall|i: int, j: int|
            #![trigger states[i], states[j]]
            0 <= i < j < states.len() ==> states[i].node_id != states[j].node_id,
{
    lemma_entries(states);
}

/// The unused connections are exactly the connections of the pool that nobody uses, whether they
/// are open or not, each of them once.
pub proof fn law_unused(conns: Seq<PeerConnection>, pool: PoolView, conn: PeerConnection)
    requires
        lists_unused(conns, pool),
    ensures
        conns.contains(conn) <==> {
            &&& pool.contains_key(conn.peer_node_id)
            &&& pool[conn.peer_node_id].connection == Some(conn)
            &&& !conn.in_use
        },
        conns.no_duplicates(),
{
}

/// All connections are exactly the connections of the pool, each of them once.
pub proof fn law_connections(conns: Seq<PeerConnection>, pool: PoolView, conn: PeerConnection)
    requires
        lists_connections(conns, pool, |c: PeerConnection| true),
    ensures
        conns.contains(conn) <==> pool.contains_key(conn.peer_node_id)
            && pool[conn.peer_node_id].connection == Some(conn),
        conns.no_duplicates(),
{
}

} // verus!
