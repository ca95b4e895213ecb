//! What each step of a node of the distributed hash table does to its state, and what it asks for,
//! field by field.
use std::time::Instant;
use vstd::prelude::*;

use crate::dht::laws::law_insert_neighbour;
use crate::dht::model::{
    answers, can_handle, evicted, handle_event, initialize, is_managed, join_allowed, managed,
    nearest_known, neighbour_max_distance, new_peer_connected, resume, view_wf, ActionView, DhtView,
};
use crate::dht::query::{eligible_ids, unobjectionable};
use crate::dht::{outcome, DhtAction, DhtConnectivityError, DhtReply, DhtTask};
use crate::node_id::{law_nearest, law_ordered_ids, nearest, NodeId};
use crate::peer::{Peer, PeerConnection};
use crate::requester::ConnectivityEvent;

verus! {

/// What the node manages are its neighbours and its random nodes.
pub proof fn law_managed(s: DhtView, id: NodeId)
    ensures
        is_managed(s, id) <==> s.neighbours.contains(id) || s.random_pool.contains(id),
        managed(s) == s.neighbours + s.random_pool,
{
}

/// A peer has to be closer than the farthest neighbour if there is no room, and than the largest
/// distance otherwise.
pub proof fn law_max_distance(s: DhtView)
    ensures
        s.neighbours.len() < s.config.num_neighbouring_nodes ==> neighbour_max_distance(s)
            == u128::MAX,
        s.neighbours.len() >= s.config.num_neighbouring_nodes && s.neighbours.len() > 0
            ==> neighbour_max_distance(s) == s.neighbours.last().key ^ s.node_id.key,
{
}

/// A neighbour has to go for a new one exactly if there is no room, and then it is the last.
pub proof fn law_evicted(s: DhtView)
    ensures
        s.neighbours.len() < s.config.num_neighbouring_nodes ==> evicted(s) is None,
        s.neighbours.len() >= s.config.num_neighbouring_nodes && s.neighbours.len() > 0 ==> evicted(
            s,
        ) == Some(s.neighbours[s.neighbours.len() - 1]),
        s.neighbours.len() == 0 ==> evicted(s) is None,
{
}

/// What the surrounding program is handed says what it is to do, with all that belongs to it.
pub proof fn law_action_says_all(
    n: usize,
    exclude: Vec<NodeId>,
    id: NodeId,
    error: DhtConnectivityError,
    action: DhtAction,
)
    ensures
        DhtAction::Done@ == ActionView::Done,
        DhtAction::QueryPeers@ == ActionView::QueryPeers,
        DhtAction::SendJoin@ == ActionView::SendJoin,
        DhtAction::FetchRandomPeers(n, exclude)@ == ActionView::FetchRandomPeers(n as nat, exclude@),
        DhtAction::RemovePeer(id)@ == ActionView::RemovePeer(id),
        DhtAction::AddManagedPeers(exclude)@ == ActionView::AddManagedPeers(exclude@),
        outcome(Ok(action)) == Ok::<ActionView, DhtConnectivityError>(action@),
        outcome(Err(error)) == Err::<ActionView, DhtConnectivityError>(error),
{
}

/// A peer that connects is handled in one way, whether the event or the peer is handed over.
pub proof fn law_connects_either_way(s: DhtView, conn: PeerConnection, can_join: bool)
    ensures
        new_peer_connected(s, conn) == handle_event(
            s,
            ConnectivityEvent::PeerConnected(conn),
            can_join,
        ),
{
}

/// Only a peer that has connected, is no client and is not managed yet cannot be handled, and that
/// only where no neighbours are to be kept.
pub proof fn law_can_handle(s: DhtView, event: ConnectivityEvent)
    ensures
        !can_handle(s, event) <==> {
            &&& event is PeerConnected
            &&& !event->PeerConnected_0.peer_features.client
            &&& !s.neighbours.contains(event->PeerConnected_0.peer_node_id)
            &&& !s.random_pool.contains(event->PeerConnected_0.peer_node_id)
            &&& s.config.num_neighbouring_nodes == 0
        },
{
}

/// Whether a peer that has connected is to be a neighbour: it is no client, not managed yet, and
/// there is room for it, or it is closer than the farthest neighbour.
pub open spec fn fits_in(s: DhtView, conn: PeerConnection) -> bool {
    &&& !conn.peer_features.client
    &&& !s.neighbours.contains(conn.peer_node_id)
    &&& !s.random_pool.contains(conn.peer_node_id)
    &&& s.neighbours.len() < s.config.num_neighbouring_nodes && (conn.peer_node_id.key
        ^ s.node_id.key) < u128::MAX || s.neighbours.len() >= s.config.num_neighbouring_nodes && (
    conn.peer_node_id.key ^ s.node_id.key) < (s.neighbours.last().key ^ s.node_id.key)
}

/// A peer that has connected and does not fit in changes nothing. One that fits in joins the
/// neighbours, which stay in the order of their distance; with no room, the farthest of them goes,
/// and becomes the last of the random nodes if there is room among those. The connectivity manager
/// is asked to drop it otherwise, and to keep the new one in any case.
pub proof fn law_peer_connects(s: DhtView, conn: PeerConnection, can_join: bool)
    requires
        view_wf(s),
        s.task is Idle,
        s.config.num_neighbouring_nodes > 0 || conn.peer_features.client || s.neighbours.contains(
            conn.peer_node_id,
        ) || s.random_pool.contains(conn.peer_node_id),
    ensures
        ({
            let (t, action) = handle_event(s, ConnectivityEvent::PeerConnected(conn), can_join);
            let id = conn.peer_node_id;
            let full = s.neighbours.len() >= s.config.num_neighbouring_nodes;
            let room = s.random_pool.len() < s.config.num_random_nodes;
            &&& !fits_in(s, conn) ==> t == s && action is Done
            &&& fits_in(s, conn) ==> {
                &&& t == DhtView {
                    neighbours: t.neighbours,
                    random_pool: t.random_pool,
                    task: t.task,
                    ..s
                }
                &&& forall|i: int, j: int|
                    #![trigger t.neighbours[i], t.neighbours[j]]
                    0 <= i <= j < t.neighbours.len() ==> (t.neighbours[i].key ^ s.node_id.key) <= (
                    t.neighbours[j].key ^ s.node_id.key)
                &&& full ==> t.neighbours.to_multiset() == s.neighbours.to_multiset().remove(
                    s.neighbours.last(),
                ).insert(id)
                &&& !full ==> t.neighbours.to_multiset() == s.neighbours.to_multiset().insert(id)
                &&& t.random_pool == if full && room {
                    s.random_pool.push(s.neighbours.last())
                } else {
                    s.random_pool
                }
                &&& full && !room ==> action == ActionView::RemovePeer(s.neighbours.last())
                    && t.task == DhtTask::RemoveEvicted(id)
                &&& !(full && !room) ==> action == ActionView::AddManagedPeers(seq![id]) && t.task
                    is AddManaged
            }
        }),
{
    if fits_in(s, conn) {
        law_insert_neighbour(s, conn.peer_node_id);
        let t = handle_event(s, ConnectivityEvent::PeerConnected(conn), can_join).0;
        law_ordered_ids(t.neighbours, s.node_id);
    }
}

/// A peer that is banned is handled just as one that is offline. If it is not managed, nothing is
/// done. If it is a random node, one random peer is asked for that is not managed; otherwise it is
/// a neighbour, and the known peers are asked for. Nothing else changes yet.
pub proof fn law_peer_lost(s: DhtView, id: NodeId, can_join: bool)
    requires
        s.task is Idle,
    ensures
        handle_event(s, ConnectivityEvent::PeerBanned(id), can_join) == handle_event(
            s,
            ConnectivityEvent::PeerOffline(id),
            can_join,
        ),
        !s.neighbours.contains(id) && !s.random_pool.contains(id) ==> handle_event(
            s,
            ConnectivityEvent::PeerOffline(id),
            can_join,
        ) == (s, ActionView::Done),
        s.random_pool.contains(id) ==> handle_event(
            s,
            ConnectivityEvent::PeerOffline(id),
            can_join,
        ) == (
            DhtView { task: DhtTask::OfflineRandom(id), ..s },
            ActionView::FetchRandomPeers(1, s.neighbours + s.random_pool),
        ),
        s.neighbours.contains(id) && !s.random_pool.contains(id) ==> handle_event(
            s,
            ConnectivityEvent::PeerOffline(id),
            can_join,
        ) == (DhtView { task: DhtTask::OfflineNeighbour(id), ..s }, ActionView::QueryPeers),
{
}

/// When the connectivity comes up, whole or in part, a join message is sent if the node may join by
/// itself and the time has come; otherwise nothing is done.
pub proof fn law_network_up(s: DhtView, n: usize, can_join: bool)
    requires
        s.task is Idle,
    ensures
        handle_event(s, ConnectivityEvent::ConnectivityStateDegraded(n), can_join) == handle_event(
            s,
            ConnectivityEvent::ConnectivityStateOnline(n),
            can_join,
        ),
        s.config.auto_join && can_join ==> handle_event(
            s,
            ConnectivityEvent::ConnectivityStateOnline(n),
            can_join,
        ) == (DhtView { task: DhtTask::Join(n), ..s }, ActionView::SendJoin),
        !(s.config.auto_join && can_join) ==> handle_event(
            s,
            ConnectivityEvent::ConnectivityStateOnline(n),
            can_join,
        ) == (s, ActionView::Done),
{
}

/// No other event concerns the node.
pub proof fn law_unconcerned(s: DhtView, event: ConnectivityEvent, can_join: bool)
    requires
        s.task is Idle,
        !(event is PeerConnected || event is PeerOffline || event is PeerBanned || event
            is ConnectivityStateDegraded || event is ConnectivityStateOnline),
    ensures
        handle_event(s, event, can_join) == (s, ActionView::Done),
{
}

/// A join message may be sent if none was sent yet, or if more than the interval has passed.
pub proof fn law_join_allowed(s: DhtView, elapsed: u128)
    ensures
        s.join_last_sent_at is None ==> join_allowed(s, elapsed),
        s.join_last_sent_at is Some ==> join_allowed(s, elapsed) == (elapsed
            > s.config.join_cooldown_interval),
{
}

/// The node starts by asking for the known peers.
pub proof fn law_starts(s: DhtView)
    ensures
        initialize(s) == (DhtView { task: DhtTask::InitNeighbours, ..s }, ActionView::QueryPeers),
{
}

/// The known peers that are sought are the closest of those that there is nothing against.
pub proof fn law_nearest_known(s: DhtView, peers: Seq<Peer>, n: nat, excluded: Seq<NodeId>)
    ensures
        nearest_known(s, peers, n, excluded) == nearest(
            eligible_ids(peers, s.config, excluded),
            n,
            s.node_id,
        ),
{
}

/// Which replies answer what.
pub proof fn law_answers(task: DhtTask, reply: DhtReply)
    ensures
        task is Idle ==> !answers(task, reply),
        task is InitNeighbours || task is OfflineNeighbour ==> (answers(task, reply) <==> reply
            is Peers || reply is PeerManagerFailed),
        task is InitRandom || task is OfflineRandom ==> (answers(task, reply) <==> reply
            is RandomPeers || reply is PeerManagerFailed),
        task is AddManaged || task is RemoveEvicted || task is OfflineRemove ==> (answers(
            task,
            reply,
        ) <==> reply is Completed || reply is ConnectivityFailed),
        task is Join ==> (answers(task, reply) <==> reply is Completed || reply is JoinFailed),
{
}

/// What follows when the node gets the known peers. At the start, the closest of those that there is
/// nothing against become the neighbours, and random nodes that are none of them are asked for. In
/// place of a neighbour that is lost, the closest that is not managed joins the random nodes, and the
/// lost one is to be dropped.
pub proof fn law_peers_come(s: DhtView, reply: DhtReply, sent_at: Instant)
    requires
        reply is Peers,
        answers(s.task, reply),
    ensures
        s.task is InitNeighbours ==> ({
            let neighbours = nearest(
                eligible_ids(reply->Peers_0@, s.config, Seq::empty()),
                s.config.num_neighbouring_nodes as nat,
                s.node_id,
            );
            resume(s, reply, sent_at) == (
                DhtView { neighbours, task: DhtTask::InitRandom, ..s },
                Ok::<ActionView, DhtConnectivityError>(
                    ActionView::FetchRandomPeers(s.config.num_random_nodes as nat, neighbours),
                ),
            )
        }),
        s.task matches DhtTask::OfflineNeighbour(id) ==> resume(s, reply, sent_at) == (
            DhtView {
                random_pool: s.random_pool + nearest(
                    eligible_ids(reply->Peers_0@, s.config, s.neighbours + s.random_pool),
                    1,
                    s.node_id,
                ),
                task: DhtTask::OfflineRemove,
                ..s
            },
            Ok::<ActionView, DhtConnectivityError>(ActionView::RemovePeer(id)),
        ),
{
    if let DhtTask::OfflineNeighbour(id) = s.task {
        let ids = eligible_ids(reply->Peers_0@, s.config, s.neighbours + s.random_pool);
        let found = nearest(ids, 1, s.node_id);
        law_nearest(ids, 1, s.node_id);
        assert(resume(s, reply, sent_at).0.random_pool =~= s.random_pool + found);
    }
}

/// What follows when the node gets random peers. At the start they are the random nodes, and all
/// that is managed is to be kept. In place of a random node that is lost, the last of them joins the
/// random nodes; then the known peers are asked for if the lost one is a neighbour too, and it is to
/// be dropped otherwise.
pub proof fn law_random_peers_come(s: DhtView, reply: DhtReply, sent_at: Instant)
    requires
        reply is RandomPeers,
        answers(s.task, reply),
    ensures
        s.task is InitRandom ==> resume(s, reply, sent_at) == (
            DhtView { random_pool: reply->RandomPeers_0@, task: DhtTask::AddManaged, ..s },
            Ok::<ActionView, DhtConnectivityError>(
                ActionView::AddManagedPeers(s.neighbours + reply->RandomPeers_0@),
            ),
        ),
        s.task matches DhtTask::OfflineRandom(id) ==> ({
            let ids = reply->RandomPeers_0@;
            let random_pool = if ids.len() > 0 {
                s.random_pool.push(ids[ids.len() - 1])
            } else {
                s.random_pool
            };
            &&& s.neighbours.contains(id) ==> resume(s, reply, sent_at) == (
                DhtView { random_pool, task: DhtTask::OfflineNeighbour(id), ..s },
                Ok::<ActionView, DhtConnectivityError>(ActionView::QueryPeers),
            )
            &&& !s.neighbours.contains(id) ==> resume(s, reply, sent_at) == (
                DhtView { random_pool, task: DhtTask::OfflineRemove, ..s },
                Ok::<ActionView, DhtConnectivityError>(ActionView::RemovePeer(id)),
            )
        }),
{
}

/// What follows when something was carried out. After the neighbour that made room was dropped, the
/// new one is to be kept. A join message counts as sent if more than one peer was connected. Apart
/// from that, the node is done, and nothing changes.
pub proof fn law_completed(s: DhtView, sent_at: Instant)
    requires
        answers(s.task, DhtReply::Completed),
    ensures
        s.task is AddManaged || s.task is OfflineRemove ==> resume(s, DhtReply::Completed, sent_at)
            == (
            DhtView { task: DhtTask::Idle, ..s },
            Ok::<ActionView, DhtConnectivityError>(ActionView::Done),
        ),
        s.task matches DhtTask::RemoveEvicted(id) ==> resume(s, DhtReply::Completed, sent_at) == (
            DhtView { task: DhtTask::AddManaged, ..s },
            Ok::<ActionView, DhtConnectivityError>(ActionView::AddManagedPeers(seq![id])),
        ),
        s.task matches DhtTask::Join(n) ==> resume(s, DhtReply::Completed, sent_at) == (
            DhtView {
                task: DhtTask::Idle,
                join_last_sent_at: if n > 1 {
                    Some(sent_at)
                } else {
                    s.join_last_sent_at
                },
                ..s
            },
            Ok::<ActionView, DhtConnectivityError>(ActionView::Done),
        ),
{
}

/// What follows when something failed: the node gives up what it was in the middle of, nothing else
/// changes, and the error carries the cause.
pub proof fn law_failed(s: DhtView, reply: DhtReply, sent_at: Instant)
    ensures
        reply matches DhtReply::PeerManagerFailed(cause) ==> resume(s, reply, sent_at) == (
            DhtView { task: DhtTask::Idle, ..s },
            Err::<ActionView, DhtConnectivityError>(DhtConnectivityError::PeerManagerError(cause)),
        ),
        reply matches DhtReply::JoinFailed(cause) ==> resume(s, reply, sent_at) == (
            DhtView { task: DhtTask::Idle, ..s },
            Err::<ActionView, DhtConnectivityError>(DhtConnectivityError::SendJoinFailed(cause)),
        ),
        reply matches DhtReply::ConnectivityFailed(error) ==> resume(s, reply, sent_at) == (
            DhtView { task: DhtTask::Idle, ..s },
            Err::<ActionView, DhtConnectivityError>(
                DhtConnectivityError::ConnectivityError(error),
            ),
        ),
{
}

/// Whether a managed peer is banned or offline, and in whichever pool it is, the node ends by having
/// it dropped, once it got what it asked for; before that it has asked for a replacement; and what
/// it found for a neighbour is a known peer that there is nothing against and that it did not manage.
pub proof fn law_lost_peer_is_replaced(
    s: DhtView,
    id: NodeId,
    event: ConnectivityEvent,
    can_join: bool,
    random: DhtReply,
    known: DhtReply,
    sent_at: Instant,
)
    requires
        s.task is Idle,
        event == ConnectivityEvent::PeerBanned(id) || event == ConnectivityEvent::PeerOffline(id),
        s.neighbours.contains(id) || s.random_pool.contains(id),
        random is RandomPeers,
        known is Peers,
    ensures
        s.random_pool.contains(id) && !s.neighbours.contains(id) ==> ({
            let (t, asked) = handle_event(s, event, can_join);
            let (u, then) = resume(t, random, sent_at);
            &&& asked == ActionView::FetchRandomPeers(1, s.neighbours + s.random_pool)
            &&& answers(t.task, random)
            &&& then == Ok::<ActionView, DhtConnectivityError>(ActionView::RemovePeer(id))
            &&& u.neighbours == s.neighbours
        }),
        s.neighbours.contains(id) && !s.random_pool.contains(id) ==> ({
            let (t, asked) = handle_event(s, event, can_join);
            let (u, then) = resume(t, known, sent_at);
            &&& asked is QueryPeers
            &&& answers(t.task, known)
            &&& then == Ok::<ActionView, DhtConnectivityError>(ActionView::RemovePeer(id))
            &&& u.neighbours == s.neighbours
            &&& s.random_pool.len() <= u.random_pool.len() <= s.random_pool.len() + 1
            &&& u.random_pool.len() > s.random_pool.len() ==> exists|i: int|
                0 <= i < known->Peers_0@.len() && (#[trigger] known->Peers_0@[i]).node_id
                    == u.random_pool.last() && unobjectionable(
                    known->Peers_0@[i],
                    s.config,
                    s.neighbours + s.random_pool,
                )
            &&& u.random_pool.len() == s.random_pool.len() ==> forall|i: int|
                0 <= i < known->Peers_0@.len() ==> !unobjectionable(
                    #[trigger] known->Peers_0@[i],
                    s.config,
                    s.neighbours + s.random_pool,
                )
        }),
        s.neighbours.contains(id) && s.random_pool.contains(id) ==> ({
            let (t, asked) = handle_event(s, event, can_join);
            let (u, then) = resume(t, random, sent_at);
            let (v, last) = resume(u, known, sent_at);
            &&& asked == ActionView::FetchRandomPeers(1, s.neighbours + s.random_pool)
            &&& then == Ok::<ActionView, DhtConnectivityError>(ActionView::QueryPeers)
            &&& last == Ok::<ActionView, DhtConnectivityError>(ActionView::RemovePeer(id))
            &&& v.neighbours == s.neighbours
        }),
{
    law_peer_lost(s, id, can_join);
    let t = handle_event(s, event, can_join).0;
    if s.random_pool.contains(id) {
        law_random_peers_come(t, random, sent_at);
        if s.neighbours.contains(id) {
            law_peers_come(resume(t, random, sent_at).0, known, sent_at);
        }
    } else {
        law_peers_come(t, known, sent_at);
        let peers = known->Peers_0@;
        let excluded = s.neighbours + s.random_pool;
        let ids = eligible_ids(peers, s.config, excluded);
        let found = nearest(ids, 1, s.node_id);
        let u = resume(t, known, sent_at).0;
        law_nearest(ids, 1, s.node_id);
        crate::dht::query::law_selected(peers, s.config, excluded, 1, s.node_id);
        if found.len() > 0 {
            assert(u.random_pool.last() == found[0]);
            assert(found.contains(found[0]));
        }
        assert forall|i: int|
            found.len() == 0 && 0 <= i < peers.len() implies !unobjectionable(
            #[trigger] peers[i],
            s.config,
            excluded,
        ) by {
            if unobjectionable(peers[i], s.config, excluded) {
                assert(!found.contains(peers[i].node_id));
            }
        }
    }
}

} // verus!
