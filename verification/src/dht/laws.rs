//! What the steps of a node of the distributed hash table add up to.
use std::time::Instant;
use vstd::prelude::*;

use crate::dht::model::{
    advance, answers, can_handle, evicted, failure, finish, handle_event, initialize, is_managed,
    join_allowed, kept, known_peers, managed, nearest_known,
    new_peer_connected, peer_offline, random_peers, resume, view_wf, welcome, with_neighbour,
    ActionView, DhtView,
};
use crate::dht::query::{eligible_ids, lemma_eligible, lemma_eligible_distinct};
use crate::dht::{DhtConnectivityError, DhtReply, DhtTask};
use crate::node_id::{
    by_distance, distance_between, law_nearest, lemma_by_distance,
    lemma_same_items, nearest, ordered_by_distance, Located, NodeId,
};
use crate::peer::PeerConnection;
use crate::requester::{Cause, ConnectivityEvent};

verus! {

proof fn lemma_with_neighbour(s: DhtView, node_id: NodeId)
    requires
        view_wf(s),
        s.config.num_neighbouring_nodes > 0,
    ensures
        view_wf(with_neighbour(s, node_id)),
        with_neighbour(s, node_id).neighbours.len() == kept(s).len() + 1,
        forall|id: NodeId|
            #![trigger with_neighbour(s, node_id).neighbours.contains(id)]
            with_neighbour(s, node_id).neighbours.contains(id) <==> id == node_id || kept(
                s,
            ).contains(id),
        kept(s).no_duplicates() && !kept(s).contains(node_id) ==> with_neighbour(
            s,
            node_id,
        ).neighbours.no_duplicates(),
{
    let pushed = kept(s).push(node_id);
    let after = with_neighbour(s, node_id).neighbours;
    lemma_by_distance(pushed, s.node_id);
    lemma_same_items(pushed, after);
    assert forall|id: NodeId| #[trigger] after.contains(id) <==> id == node_id || kept(s).contains(
        id,
    ) by {
        if kept(s).contains(id) {
            let i = choose|i: int| 0 <= i < kept(s).len() && kept(s)[i] == id;
            assert(pushed[i] == id);
        }
        assert(pushed[kept(s).len() as int] == node_id);
        if pushed.contains(id) && id != node_id {
            let i = choose|i: int| 0 <= i < pushed.len() && pushed[i] == id;
            assert(kept(s)[i] == id);
        }
    }
    if kept(s).no_duplicates() && !kept(s).contains(node_id) {
        assert(pushed.no_duplicates());
    }
}

/// A peer that is welcome is a neighbour from then on. Where there was no room, the neighbour
/// that went was the farthest of all, and farther than the one that came; it stays managed if
/// there is room among the random nodes, and every other managed peer stays managed in any case.
pub proof fn law_new_neighbour(s: DhtView, conn: PeerConnection)
    requires
        view_wf(s),
        s.config.num_neighbouring_nodes > 0,
        welcome(s, conn),
    ensures
        ({
            let t = new_peer_connected(s, conn).0;
            &&& t.neighbours.contains(conn.peer_node_id)
            &&& s.neighbours.len() < s.config.num_neighbouring_nodes ==> t.neighbours.len()
                == s.neighbours.len() + 1
            &&& s.neighbours.len() == s.config.num_neighbouring_nodes ==> t.neighbours.len()
                == s.neighbours.len()
            &&& evicted(s) is Some <==> s.neighbours.len() == s.config.num_neighbouring_nodes
            &&& evicted(s) matches Some(old) ==> {
                &&& s.neighbours.contains(old)
                &&& distance_between(conn.peer_node_id, s.node_id) < distance_between(
                    old,
                    s.node_id,
                )
                &&& forall|id: NodeId| #[trigger]
                    s.neighbours.contains(id) ==> distance_between(id, s.node_id)
                        <= distance_between(old, s.node_id)
            }
            &&& forall|id: NodeId|
                #![trigger is_managed(s, id)]
                #![trigger is_managed(t, id)]
                is_managed(s, id) ==> is_managed(t, id) || (evicted(s) == Some(id)
                    && s.random_pool.len() >= s.config.num_random_nodes)
            &&& forall|id: NodeId| #[trigger]
                is_managed(t, id) ==> is_managed(s, id) || id == conn.peer_node_id
        }),
{
    let t = new_peer_connected(s, conn).0;
    lemma_with_neighbour(s, conn.peer_node_id);
    assert forall|id: NodeId| #[trigger] s.neighbours.contains(id) implies (kept(s).contains(id)
        || evicted(s) == Some(id)) && (evicted(s) is Some ==> distance_between(id, s.node_id)
        <= distance_between(s.neighbours.last(), s.node_id)) by {
        let i = choose|i: int| 0 <= i < s.neighbours.len() && s.neighbours[i] == id;
        let last = s.neighbours.len() - 1;
        if i < kept(s).len() {
            assert(kept(s)[i] == id);
        }
        assert(distance_between(s.neighbours[i].location(), s.node_id) <= distance_between(
            s.neighbours[last].location(),
            s.node_id,
        ));
    }
    assert forall|id: NodeId| #[trigger] kept(s).contains(id) implies s.neighbours.contains(id) by {
        let i = choose|i: int| 0 <= i < kept(s).len() && kept(s)[i] == id;
        assert(s.neighbours[i] == id);
    }
    if evicted(s) is Some {
        assert(s.neighbours[s.neighbours.len() - 1] == s.neighbours.last());
    }
    assert forall|id: NodeId| #[trigger] s.random_pool.contains(id) implies t.random_pool.contains(
        id,
    ) by {
        let i = choose|i: int| 0 <= i < s.random_pool.len() && s.random_pool[i] == id;
        assert(t.random_pool[i] == id);
    }
    assert forall|id: NodeId| #[trigger] t.random_pool.contains(id) implies s.random_pool.contains(
        id,
    ) || evicted(s) == Some(id) by {
        let i = choose|i: int| 0 <= i < t.random_pool.len() && t.random_pool[i] == id;
        if i < s.random_pool.len() {
            assert(s.random_pool[i] == id);
        }
    }
    if evicted(s) is Some && s.random_pool.len() < s.config.num_random_nodes {
        assert(t.random_pool[s.random_pool.len() as int] == s.neighbours.last());
    }
}

/// The connectivity manager is asked to keep a connection to a new neighbour in any case, and
/// before that not to keep one to the neighbour that went, exactly if there is no room for it
/// among the random nodes.
pub proof fn law_new_neighbour_managed(s: DhtView, conn: PeerConnection, sent_at: Instant)
    requires
        view_wf(s),
        welcome(s, conn),
    ensures
        ({
            let (t, action) = new_peer_connected(s, conn);
            let drop_old = evicted(s) is Some && s.random_pool.len() >= s.config.num_random_nodes;
            let (u, next) = if drop_old {
                advance(t, DhtReply::Completed, sent_at)
            } else {
                (t, action)
            };
            &&& drop_old ==> action == ActionView::RemovePeer(evicted(s)->0) && answers(
                t.task,
                DhtReply::Completed,
            )
            &&& next == ActionView::AddManagedPeers(seq![conn.peer_node_id]) && answers(
                u.task,
                DhtReply::Completed,
            )
            &&& advance(u, DhtReply::Completed, sent_at) == finish(u)
            &&& u.neighbours == t.neighbours && u.random_pool == t.random_pool
        }),
{
}

/// Whichever node connects, the neighbours are afterwards those nodes, of the neighbours and the
/// new node, that are closest to this node. (At the largest possible distance of all, a node is
/// left out even where there is room.)
pub proof fn law_keeps_nearest(s: DhtView, conn: PeerConnection)
    requires
        view_wf(s),
        s.config.num_neighbouring_nodes > 0,
        !conn.peer_features.client,
        !is_managed(s, conn.peer_node_id),
        distance_between(conn.peer_node_id, s.node_id) < u128::MAX,
    ensures
        new_peer_connected(s, conn).0.neighbours == nearest(
            s.neighbours.push(conn.peer_node_id),
            s.config.num_neighbouring_nodes as nat,
            s.node_id,
        ),
{
    let node_id = conn.peer_node_id;
    let cap = s.config.num_neighbouring_nodes as int;
    let all = s.neighbours.push(node_id);
    let t = new_peer_connected(s, conn).0;
    lemma_by_distance(all, s.node_id);
    if s.neighbours.len() < cap {
        assert(by_distance(all, s.node_id).take(all.len() as int) =~= by_distance(
            all,
            s.node_id,
        ));
    } else if !welcome(s, conn) {
        assert forall|i: int, j: int|
            #![trigger all[i], all[j]]
            0 <= i <= j < all.len() implies distance_between(all[i].location(), s.node_id)
            <= distance_between(all[j].location(), s.node_id) by {
            let last = s.neighbours.len() - 1;
            if j < s.neighbours.len() {
                assert(all[i] == s.neighbours[i] && all[j] == s.neighbours[j]);
            } else if i < s.neighbours.len() {
                assert(all[i] == s.neighbours[i]);
                assert(distance_between(s.neighbours[i].location(), s.node_id)
                    <= distance_between(s.neighbours[last].location(), s.node_id));
            }
        }
        assert(ordered_by_distance(all, s.node_id));
        assert(all.take(cap) =~= s.neighbours);
    } else {
        let last = s.neighbours.last();
        let pushed = kept(s).push(node_id);
        let near = by_distance(pushed, s.node_id);
        let whole = near.push(last);
        lemma_by_distance(pushed, s.node_id);
        lemma_same_items(pushed, near);
        assert forall|i: int, j: int|
            #![trigger whole[i], whole[j]]
            0 <= i <= j < whole.len() implies distance_between(whole[i].location(), s.node_id)
            <= distance_between(whole[j].location(), s.node_id) by {
            if j < near.len() {
                assert(whole[i] == near[i] && whole[j] == near[j]);
            } else if i < near.len() {
                assert(near.contains(near[i]));
                let k = choose|k: int| 0 <= k < pushed.len() && pushed[k] == near[i];
                if k < kept(s).len() {
                    assert(pushed[k] == s.neighbours[k]);
                    assert(distance_between(s.neighbours[k].location(), s.node_id)
                        <= distance_between(
                        s.neighbours[s.neighbours.len() - 1].location(),
                        s.node_id,
                    ));
                }
            }
        }
        assert(ordered_by_distance(whole, s.node_id));
        assert(s.neighbours =~= kept(s).push(last));
        vstd::seq_lib::to_multiset_insert(near, near.len() as int, last);
        vstd::seq_lib::to_multiset_insert(kept(s), kept(s).len() as int, last);
        vstd::seq_lib::to_multiset_insert(kept(s), kept(s).len() as int, node_id);
        vstd::seq_lib::to_multiset_insert(s.neighbours, s.neighbours.len() as int, node_id);
        assert(near.insert(near.len() as int, last) =~= whole);
        assert(kept(s).insert(kept(s).len() as int, last) =~= s.neighbours);
        assert(kept(s).insert(kept(s).len() as int, node_id) =~= pushed);
        assert(s.neighbours.insert(s.neighbours.len() as int, node_id) =~= all);
        assert(whole.to_multiset() =~= all.to_multiset());
        assert(whole.take(cap) =~= near);
    }
}

/// A client that connects, or a peer that is managed already, changes nothing.
pub proof fn law_known_peer_connects(s: DhtView, conn: PeerConnection)
    requires
        s.task is Idle,
        conn.peer_features.client || is_managed(s, conn.peer_node_id),
    ensures
        new_peer_connected(s, conn) == (s, ActionView::Done),
{
}

/// Whether no peer stands in the pools twice; and until the node has started there is nothing in
/// the pool of random nodes.
pub open spec fn distinct(s: DhtView) -> bool {
    &&& managed(s).no_duplicates()
    &&& s.task is InitNeighbours || s.task is InitRandom ==> s.random_pool.len() == 0
}

/// Whether a reply is as it should be: known peers have different ids, and random peers are
/// different and none of those that were to be left out.
pub open spec fn proper(s: DhtView, reply: DhtReply) -> bool {
    match reply {
        DhtReply::Peers(peers) => forall|i: int, j: int|
            #![trigger peers@[i], peers@[j]]
            0 <= i < j < peers@.len() ==> peers@[i].node_id != peers@[j].node_id,
        DhtReply::RandomPeers(ids) => ids@.no_duplicates() && forall|id: NodeId| #[trigger]
            ids@.contains(id) ==> !is_managed(s, id),
        _ => true,
    }
}

proof fn lemma_pools(s: DhtView)
    ensures
        managed(s).no_duplicates() <==> s.neighbours.no_duplicates()
            && s.random_pool.no_duplicates() && forall|id: NodeId|
            #![trigger s.neighbours.contains(id)]
            #![trigger s.random_pool.contains(id)]
            !(s.neighbours.contains(id) && s.random_pool.contains(id)),
        forall|id: NodeId| #[trigger] managed(s).contains(id) <==> is_managed(s, id),
{
    let all = managed(s);
    let n = s.neighbours.len() as int;
    assert forall|id: NodeId| #[trigger] all.contains(id) <==> is_managed(s, id) by {
        if all.contains(id) {
            let i = choose|i: int| 0 <= i < all.len() && all[i] == id;
            if i < n {
                assert(s.neighbours[i] == id);
            } else {
                assert(s.random_pool[i - n] == id);
            }
        }
        if s.neighbours.contains(id) {
            let i = choose|i: int| 0 <= i < n && s.neighbours[i] == id;
            assert(all[i] == id);
        }
        if s.random_pool.contains(id) {
            let i = choose|i: int| 0 <= i < s.random_pool.len() && s.random_pool[i] == id;
            assert(all[n + i] == id);
        }
    }
    if all.no_duplicates() {
        assert forall|i: int, j: int|
            0 <= i < n && 0 <= j < n && i != j implies s.neighbours[i] != s.neighbours[j] by {
            assert(all[i] == s.neighbours[i] && all[j] == s.neighbours[j]);
        }
        assert forall|i: int, j: int|
            0 <= i < s.random_pool.len() && 0 <= j < s.random_pool.len() && i
                != j implies s.random_pool[i] != s.random_pool[j] by {
            assert(all[n + i] == s.random_pool[i] && all[n + j] == s.random_pool[j]);
        }
        assert forall|id: NodeId|
            #![trigger s.neighbours.contains(id)]
            #![trigger s.random_pool.contains(id)]
            !(s.neighbours.contains(id) && s.random_pool.contains(id)) by {
            if s.neighbours.contains(id) && s.random_pool.contains(id) {
                let i = choose|i: int| 0 <= i < n && s.neighbours[i] == id;
                let j = choose|j: int| 0 <= j < s.random_pool.len() && s.random_pool[j] == id;
                assert(all[i] == id && all[n + j] == id);
            }
        }
    }
    if s.neighbours.no_duplicates() && s.random_pool.no_duplicates() && forall|id: NodeId|
        #![trigger s.neighbours.contains(id)]
        #![trigger s.random_pool.contains(id)]
        !(s.neighbours.contains(id) && s.random_pool.contains(id)) {
        assert forall|i: int, j: int|
            0 <= i < all.len() && 0 <= j < all.len() && i != j implies all[i] != all[j] by {
            if i < n {
                assert(s.neighbours.contains(all[i]));
            } else {
                assert(all[i] == s.random_pool[i - n]);
                assert(s.random_pool.contains(all[i]));
            }
            if j < n {
                assert(s.neighbours.contains(all[j]));
            } else {
                assert(all[j] == s.random_pool[j - n]);
                assert(s.random_pool.contains(all[j]));
            }
        }
    }
}

/// A peer that connects is never put into the pools a second time, nor is the neighbour that
/// makes room for it.
pub proof fn law_event_keeps_distinct(s: DhtView, event: ConnectivityEvent, can_join: bool)
    requires
        view_wf(s),
        s.task is Idle,
        can_handle(s, event),
        distinct(s),
    ensures
        distinct(handle_event(s, event, can_join).0),
{
    lemma_pools(s);
    if let ConnectivityEvent::PeerConnected(conn) = event {
        if welcome(s, conn) {
            let t = new_peer_connected(s, conn).0;
            let before = s.neighbours;
            lemma_with_neighbour(s, conn.peer_node_id);
            assert forall|id: NodeId| #[trigger] kept(s).contains(id) implies before.contains(id)
                && evicted(s) != Some(id) by {
                let i = choose|i: int| 0 <= i < kept(s).len() && kept(s)[i] == id;
                assert(before[i] == id);
                if evicted(s) is Some {
                    assert(before[before.len() - 1] != before[i]);
                }
            }
            assert(kept(s).no_duplicates()) by {
                assert forall|i: int, j: int|
                    0 <= i < kept(s).len() && 0 <= j < kept(s).len() && i != j implies kept(s)[i]
                    != kept(s)[j] by {
                    assert(kept(s)[i] == before[i] && kept(s)[j] == before[j]);
                }
            }
            if evicted(s) is Some {
                assert(before.contains(before[before.len() - 1]));
            }
            assert forall|id: NodeId| #[trigger] t.random_pool.contains(
                id,
            ) implies s.random_pool.contains(id) || evicted(s) == Some(id) by {
                let i = choose|i: int| 0 <= i < t.random_pool.len() && t.random_pool[i] == id;
                if i < s.random_pool.len() {
                    assert(s.random_pool[i] == id);
                }
            }
            assert(t.random_pool.no_duplicates());
            lemma_pools(t);
        } else {
            assert(managed(new_peer_connected(s, conn).0) =~= managed(s));
        }
    } else {
        assert(managed(handle_event(s, event, can_join).0) =~= managed(s));
    }
}

/// Nor do replies that are as they should be put a peer into the pools twice.
pub proof fn law_resume_keeps_distinct(s: DhtView, reply: DhtReply, sent_at: Instant)
    requires
        view_wf(s),
        answers(s.task, reply),
        proper(s, reply),
        distinct(s),
    ensures
        distinct(resume(s, reply, sent_at).0),
{
    let t = resume(s, reply, sent_at).0;
    lemma_pools(s);
    lemma_pools(t);
    match reply {
        DhtReply::Peers(peers) => {
            let excluded = if s.task is InitNeighbours {
                Seq::empty()
            } else {
                managed(s)
            };
            let n = if s.task is InitNeighbours {
                s.config.num_neighbouring_nodes as nat
            } else {
                1
            };
            let eligible = eligible_ids(peers@, s.config, excluded);
            let found = nearest_known(s, peers@, n, excluded);
            lemma_eligible_distinct(peers@, s.config, excluded);
            lemma_eligible(peers@, s.config, excluded);
            law_nearest(eligible, n, s.node_id);
            if s.task is OfflineNeighbour && found.len() > 0 {
                assert(found.contains(found[found.len() - 1]));
                assert(eligible.contains(found.last()));
                assert(!is_managed(s, found.last()));
                lemma_pushed(s, t, found.last());
            }
        },
        DhtReply::RandomPeers(ids) => {
            if s.task is InitRandom {
                assert forall|id: NodeId|
                    #![trigger t.neighbours.contains(id)]
                    #![trigger t.random_pool.contains(id)]
                    !(t.neighbours.contains(id) && t.random_pool.contains(id)) by {
                    if ids@.contains(id) {
                        assert(!is_managed(s, id));
                    }
                }
            } else if ids@.len() > 0 {
                assert(ids@.contains(ids@[ids@.len() - 1]));
                lemma_pushed(s, t, ids@.last());
            }
        },
        _ => {},
    }
}

proof fn lemma_pushed(s: DhtView, t: DhtView, node_id: NodeId)
    requires
        managed(s).no_duplicates(),
        !is_managed(s, node_id),
        t.neighbours == s.neighbours,
        t.random_pool == s.random_pool.push(node_id),
    ensures
        managed(t).no_duplicates(),
{
    lemma_pools(s);
    assert(managed(t) =~= managed(s).push(node_id));
    assert(!managed(s).contains(node_id));
}

/// How many replies the node still waits for at most, in the middle of something.
pub open spec fn replies_left(task: DhtTask) -> nat {
    match task {
        DhtTask::Idle => 0,
        DhtTask::AddManaged | DhtTask::OfflineRemove | DhtTask::Join(_) => 1,
        DhtTask::InitRandom | DhtTask::RemoveEvicted(_) | DhtTask::OfflineNeighbour(_) => 2,
        DhtTask::InitNeighbours | DhtTask::OfflineRandom(_) => 3,
    }
}

/// Every reply brings the node closer to the end of what it is in the middle of, and it is told
/// that nothing is left to do just when it is idle.
pub proof fn law_progress(s: DhtView, reply: DhtReply, sent_at: Instant)
    requires
        answers(s.task, reply),
    ensures
        replies_left(resume(s, reply, sent_at).0.task) < replies_left(s.task),
        resume(s, reply, sent_at).0.task is Idle <==> resume(s, reply, sent_at).1 is Err || resume(
            s,
            reply,
            sent_at,
        ).1 == Ok::<ActionView, DhtConnectivityError>(ActionView::Done),
{
}

/// A failure leaves the pools as they are, and the node ready for the next event; and the error
/// that comes out carries the cause.
pub proof fn law_failure(s: DhtView, reply: DhtReply, sent_at: Instant)
    requires
        failure(reply) is Some,
    ensures
        resume(s, reply, sent_at).0 == (DhtView { task: DhtTask::Idle, ..s }),
        resume(s, reply, sent_at).1 is Err,
        reply matches DhtReply::PeerManagerFailed(cause) ==> resume(s, reply, sent_at).1->Err_0
            == DhtConnectivityError::PeerManagerError(cause),
        reply matches DhtReply::ConnectivityFailed(error) ==> resume(s, reply, sent_at).1->Err_0
            == DhtConnectivityError::ConnectivityError(error),
        reply matches DhtReply::JoinFailed(cause) ==> resume(s, reply, sent_at).1->Err_0
            == DhtConnectivityError::SendJoinFailed(cause),
{
}

/// Where no replacement can be sought for a managed peer that is offline, the error carries the
/// cause, the pools stay as they are, and the peer is not removed.
pub proof fn law_replacement_fails(s: DhtView, node_id: NodeId, cause: Cause, sent_at: Instant)
    requires
        s.task is Idle,
        is_managed(s, node_id),
    ensures
        ({
            let t = peer_offline(s, node_id).0;
            &&& answers(t.task, DhtReply::PeerManagerFailed(cause))
            &&& resume(t, DhtReply::PeerManagerFailed(cause), sent_at) == (
                s,
                Err::<ActionView, DhtConnectivityError>(
                    DhtConnectivityError::PeerManagerError(cause),
                ),
            )
        }),
{
}

/// When the node starts, its neighbours become the closest known peers that there is nothing
/// against, its random nodes those that were found, none of them a neighbour; and all of them are
/// managed.
pub proof fn law_initialize(s: DhtView, known: DhtReply, random: DhtReply, sent_at: Instant)
    requires
        known is Peers,
        random is RandomPeers,
    ensures
        ({
            let (s1, a1) = initialize(s);
            let (s2, a2) = advance(s1, known, sent_at);
            let (s3, a3) = advance(s2, random, sent_at);
            &&& a1 is QueryPeers && answers(s1.task, known)
            &&& a2 == ActionView::FetchRandomPeers(
                s.config.num_random_nodes as nat,
                s2.neighbours,
            ) && answers(s2.task, random)
            &&& a3 == ActionView::AddManagedPeers(managed(s3)) && answers(
                s3.task,
                DhtReply::Completed,
            )
            &&& s3.neighbours == nearest_known(
                s,
                known_peers(known),
                s.config.num_neighbouring_nodes as nat,
                Seq::empty(),
            )
            &&& s3.random_pool == random_peers(random)
            &&& advance(s3, DhtReply::Completed, sent_at) == finish(s3)
        }),
{
}

/// Of a managed peer that goes offline, the node asks for one random peer in place of a random
/// node, and for the closest known peer in place of a neighbour; what it finds goes to the random
/// nodes, and in the end the peer is not managed by the connectivity manager any more.
pub proof fn law_peer_offline(
    s: DhtView,
    node_id: NodeId,
    random: DhtReply,
    known: DhtReply,
    sent_at: Instant,
)
    requires
        is_managed(s, node_id),
        random is RandomPeers,
        known is Peers,
    ensures
        ({
            let (s1, a1) = peer_offline(s, node_id);
            let (s2, a2) = if s.random_pool.contains(node_id) {
                advance(s1, random, sent_at)
            } else {
                (s1, a1)
            };
            let (s3, a3) = if s.neighbours.contains(node_id) {
                advance(s2, known, sent_at)
            } else {
                (s2, a2)
            };
            &&& s.random_pool.contains(node_id) ==> a1 == ActionView::FetchRandomPeers(
                1,
                managed(s),
            ) && answers(s1.task, random)
            &&& s.neighbours.contains(node_id) ==> a2 is QueryPeers && answers(s2.task, known)
            &&& a3 == ActionView::RemovePeer(node_id) && answers(s3.task, DhtReply::Completed)
            &&& s2.random_pool == if s.random_pool.contains(node_id) {
                s.random_pool + last_of(random_peers(random))
            } else {
                s.random_pool
            }
            &&& s3.random_pool == if s.neighbours.contains(node_id) {
                s2.random_pool + nearest_known(s2, known_peers(known), 1, managed(s2))
            } else {
                s2.random_pool
            }
            &&& s3.neighbours == s.neighbours
            &&& advance(s3, DhtReply::Completed, sent_at) == finish(s3)
        }),
{
    let (s1, a1) = peer_offline(s, node_id);
    let (s2, a2) = if s.random_pool.contains(node_id) {
        advance(s1, random, sent_at)
    } else {
        (s1, a1)
    };
    let ids = random_peers(random);
    if s.random_pool.contains(node_id) {
        assert(s2.random_pool =~= s.random_pool + last_of(ids));
    }
    if s.neighbours.contains(node_id) {
        let found = nearest_known(s2, known_peers(known), 1, managed(s2));
        law_nearest(
            eligible_ids(known_peers(known), s2.config, managed(s2)),
            1,
            s2.node_id,
        );
        assert(advance(s2, known, sent_at).0.random_pool =~= s2.random_pool + found);
    }
}

/// The last item, if there is one.
pub open spec fn last_of(ids: Seq<NodeId>) -> Seq<NodeId> {
    if ids.len() > 0 {
        seq![ids.last()]
    } else {
        Seq::empty()
    }
}

/// A peer that is not managed is of no concern when it goes offline.
pub proof fn law_stranger_offline(s: DhtView, node_id: NodeId)
    requires
        s.task is Idle,
        !is_managed(s, node_id),
    ensures
        peer_offline(s, node_id) == (s, ActionView::Done),
{
}

/// Only a peer that connects can change the neighbours, once the node has started.
pub proof fn law_neighbours_stay(
    s: DhtView,
    event: ConnectivityEvent,
    can_join: bool,
    reply: DhtReply,
    sent_at: Instant,
)
    ensures
        event !is PeerConnected ==> handle_event(s, event, can_join).0.neighbours == s.neighbours,
        s.task !is InitNeighbours ==> resume(s, reply, sent_at).0.neighbours == s.neighbours,
{
}

/// A join message is sent only if the node may join by itself and none was sent within the
/// interval; and then the network has just come up, whole or in part.
pub proof fn law_join(s: DhtView, event: ConnectivityEvent, elapsed: u128)
    ensures
        handle_event(s, event, join_allowed(s, elapsed)).1 is SendJoin <==> {
            &&& event is ConnectivityStateDegraded || event is ConnectivityStateOnline
            &&& s.config.auto_join
            &&& s.join_last_sent_at is None || elapsed > s.config.join_cooldown_interval
        },
{
}

/// Something that happens to the node: an event, so many nanoseconds after the last join message,
/// or a reply, at a point in time.
pub enum DhtStep {
    Event(ConnectivityEvent, u128),
    Reply(DhtReply, Instant),
}

/// The state after these steps, one after the other.
pub open spec fn after_steps(s: DhtView, steps: Seq<DhtStep>) -> DhtView
    decreases steps.len(),
{
    if steps.len() == 0 {
        s
    } else {
        let t = after_steps(s, steps.drop_last());
        match steps.last() {
            DhtStep::Event(event, elapsed) => handle_event(t, event, join_allowed(t, elapsed)).0,
            DhtStep::Reply(reply, at) => resume(t, reply, at).0,
        }
    }
}

/// Whether all events of these steps come before the interval between join messages has passed.
pub open spec fn within_interval(s: DhtView, steps: Seq<DhtStep>) -> bool {
    forall|i: int|
        0 <= i < steps.len() ==> match #[trigger] steps[i] {
            DhtStep::Event(_, elapsed) => elapsed <= s.config.join_cooldown_interval,
            DhtStep::Reply(_, _) => true,
        }
}

proof fn lemma_no_join_meanwhile(s: DhtView, steps: Seq<DhtStep>)
    requires
        s.join_last_sent_at is Some,
        s.task !is Join,
        within_interval(s, steps),
    ensures
        after_steps(s, steps).join_last_sent_at == s.join_last_sent_at,
        after_steps(s, steps).task !is Join,
        after_steps(s, steps).config == s.config,
    decreases steps.len(),
{
    if steps.len() > 0 {
        let front = steps.drop_last();
        assert forall|i: int| 0 <= i < front.len() implies match #[trigger] front[i] {
            DhtStep::Event(_, elapsed) => elapsed <= s.config.join_cooldown_interval,
            DhtStep::Reply(_, _) => true,
        } by {
            assert(front[i] == steps[i]);
        }
        lemma_no_join_meanwhile(s, front);
        assert(steps[steps.len() - 1] == steps.last());
    }
}

/// After a join message that went out with more than one peer connected, there is none until the
/// interval has passed, whatever else happens meanwhile; and the time of that message stays noted.
pub proof fn law_join_cooldown(
    s: DhtView,
    n: usize,
    sent_at: Instant,
    meanwhile: Seq<DhtStep>,
    event: ConnectivityEvent,
    elapsed: u128,
)
    requires
        s.task == DhtTask::Join(n),
        n > 1,
        within_interval(s, meanwhile),
        elapsed <= s.config.join_cooldown_interval,
    ensures
        ({
            let t = after_steps(resume(s, DhtReply::Completed, sent_at).0, meanwhile);
            &&& t.join_last_sent_at == Some(sent_at)
            &&& handle_event(t, event, join_allowed(t, elapsed)).1 !is SendJoin
        }),
{
    lemma_no_join_meanwhile(resume(s, DhtReply::Completed, sent_at).0, meanwhile);
}

/// With a single peer connected, or none, a join message does not count as sent, and one that
/// could not be sent does not either: another may be sent as soon as before.
pub proof fn law_join_not_noted(
    s: DhtView,
    n: usize,
    sent_at: Instant,
    elapsed: u128,
    cause: Cause,
)
    requires
        s.task == DhtTask::Join(n),
    ensures
        n <= 1 ==> join_allowed(resume(s, DhtReply::Completed, sent_at).0, elapsed)
            == join_allowed(s, elapsed),
        n <= 1 ==> resume(s, DhtReply::Completed, sent_at).0.join_last_sent_at
            == s.join_last_sent_at,
        resume(s, DhtReply::JoinFailed(cause), sent_at).0.join_last_sent_at
            == s.join_last_sent_at,
        resume(s, DhtReply::JoinFailed(cause), sent_at).1 == Err::<
            ActionView,
            DhtConnectivityError,
        >(DhtConnectivityError::SendJoinFailed(cause)),
{
}

/// Only a join message that was sent changes when the last one was.
pub proof fn law_join_time_kept(
    s: DhtView,
    event: ConnectivityEvent,
    can_join: bool,
    reply: DhtReply,
    sent_at: Instant,
)
    ensures
        handle_event(s, event, can_join).0.join_last_sent_at == s.join_last_sent_at,
        s.task !is Join ==> resume(s, reply, sent_at).0.join_last_sent_at == s.join_last_sent_at,
{
}

/// A peer that is put among the neighbours comes into its place; one neighbour goes for it exactly
/// if there was no room; the others stay, and nothing else changes.
pub proof fn law_insert_neighbour(s: DhtView, node_id: NodeId)
    requires
        view_wf(s),
        s.config.num_neighbouring_nodes > 0,
    ensures
        ({
            let t = with_neighbour(s, node_id);
            &&& ordered_by_distance(t.neighbours, s.node_id)
            &&& t.neighbours.to_multiset() == match evicted(s) {
                Some(old) => s.neighbours.to_multiset().remove(old).insert(node_id),
                None => s.neighbours.to_multiset().insert(node_id),
            }
            &&& evicted(s) matches Some(old) ==> s.neighbours.contains(old)
            &&& t.neighbours.len() == if s.neighbours.len() < s.config.num_neighbouring_nodes {
                s.neighbours.len() + 1
            } else {
                s.config.num_neighbouring_nodes as nat
            }
            &&& t == DhtView { neighbours: t.neighbours, ..s }
        }),
{
    let pushed = kept(s).push(node_id);
    lemma_by_distance(pushed, s.node_id);
    vstd::seq_lib::to_multiset_insert(kept(s), kept(s).len() as int, node_id);
    assert(kept(s).insert(kept(s).len() as int, node_id) =~= pushed);
    if evicted(s) is Some {
        let last = s.neighbours.len() - 1;
        vstd::seq_lib::to_multiset_remove(s.neighbours, last);
        assert(s.neighbours.remove(last) =~= kept(s));
        assert(s.neighbours[last] == s.neighbours.last());
    }
}

/// What holds of the pools from the start: the neighbours stand in order, neither pool holds more
/// peers than are to be kept, and no peer stands in them twice.
pub open spec fn pools_wf(s: DhtView) -> bool {
    &&& view_wf(s)
    &&& s.random_pool.len() <= s.config.num_random_nodes
    &&& managed(s).no_duplicates()
}

/// Whichever peer connects, and whatever comes of what is asked of the connectivity manager then,
/// the pools stay as they should be.
pub proof fn law_peer_connected_keeps_pools(
    s: DhtView,
    conn: PeerConnection,
    first: DhtReply,
    second: DhtReply,
    sent_at: Instant,
)
    requires
        s.config.num_neighbouring_nodes > 0,
        s.task is Idle,
        pools_wf(s),
    ensures
        ({
            let t = new_peer_connected(s, conn).0;
            let u = resume(t, first, sent_at).0;
            let v = resume(u, second, sent_at).0;
            &&& pools_wf(t)
            &&& answers(t.task, first) ==> pools_wf(u)
            &&& answers(t.task, first) && answers(u.task, second) ==> pools_wf(v)
        }),
{
    let t = new_peer_connected(s, conn).0;
    let u = resume(t, first, sent_at).0;
    let v = resume(u, second, sent_at).0;
    law_event_keeps_distinct(s, ConnectivityEvent::PeerConnected(conn), false);
    if welcome(s, conn) {
        lemma_with_neighbour(s, conn.peer_node_id);
    }
    assert(managed(u) =~= managed(t) || !answers(t.task, first));
    assert(managed(v) =~= managed(u) || !(answers(t.task, first) && answers(u.task, second)));
}

/// The pool of random nodes never grows beyond what is to be kept when a peer connects.
pub proof fn law_random_pool_bounded(s: DhtView, conn: PeerConnection)
    ensures
        s.random_pool.len() <= s.config.num_random_nodes ==> new_peer_connected(
            s,
            conn,
        ).0.random_pool.len() <= s.config.num_random_nodes,
{
}

} // verus!
