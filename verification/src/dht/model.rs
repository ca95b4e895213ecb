//! What a node of the distributed hash table does to keep connected, as functions from one state
//! to the next.
use std::time::Instant;
use vstd::prelude::*;

use crate::dht::query::eligible_ids;
use crate::dht::{DhtConfig, DhtConnectivityError, DhtReply, DhtTask};
use crate::node_id::{by_distance, distance_between, nearest, ordered_by_distance, NodeId};
use crate::peer::{Peer, PeerConnection};
use crate::requester::ConnectivityEvent;

verus! {

/// What the surrounding program is to do next.
pub enum ActionView {
    Done,
    QueryPeers,
    FetchRandomPeers(nat, Seq<NodeId>),
    RemovePeer(NodeId),
    AddManagedPeers(Seq<NodeId>),
    SendJoin,
}

/// The state of the node.
pub struct DhtView {
    pub config: DhtConfig,
    /// The id of this node.
    pub node_id: NodeId,
    pub neighbours: Seq<NodeId>,
    pub random_pool: Seq<NodeId>,
    pub join_last_sent_at: Option<Instant>,
    pub task: DhtTask,
}

/// What holds of every state: the neighbours stand in the order of their distance from this
/// node, and there are not more of them than are to be kept.
pub open spec fn view_wf(s: DhtView) -> bool {
    &&& ordered_by_distance(s.neighbours, s.node_id)
    &&& s.neighbours.len() <= s.config.num_neighbouring_nodes
}

/// All peers that the node has asked to be kept connected to: the neighbours, then the random
/// nodes.
pub open spec fn managed(s: DhtView) -> Seq<NodeId> {
    s.neighbours + s.random_pool
}

/// Whether the node keeps a peer in one of its pools.
pub open spec fn is_managed(s: DhtView, node_id: NodeId) -> bool {
    s.neighbours.contains(node_id) || s.random_pool.contains(node_id)
}

/// A peer has to be closer than this to become a neighbour.
pub open spec fn neighbour_max_distance(s: DhtView) -> u128 {
    if s.neighbours.len() < s.config.num_neighbouring_nodes {
        u128::MAX
    } else {
        distance_between(s.neighbours.last(), s.node_id)
    }
}

/// The neighbour that has to go if one is to come: the farthest, if there is no room.
pub open spec fn evicted(s: DhtView) -> Option<NodeId> {
    if s.neighbours.len() < s.config.num_neighbouring_nodes || s.neighbours.len() == 0 {
        None
    } else {
        Some(s.neighbours.last())
    }
}

/// The neighbours that stay if one is to come.
pub open spec fn kept(s: DhtView) -> Seq<NodeId> {
    if evicted(s) is Some {
        s.neighbours.drop_last()
    } else {
        s.neighbours
    }
}

/// The state with `node_id` among the neighbours, in its place.
pub open spec fn with_neighbour(s: DhtView, node_id: NodeId) -> DhtView {
    DhtView { neighbours: by_distance(kept(s).push(node_id), s.node_id), ..s }
}

/// Nothing is left to do.
pub open spec fn finish(s: DhtView) -> (DhtView, ActionView) {
    (DhtView { task: DhtTask::Idle, ..s }, ActionView::Done)
}

/// The peers are to be managed, and then nothing is left to do.
pub open spec fn add_managed(s: DhtView, peers: Seq<NodeId>) -> (DhtView, ActionView) {
    (DhtView { task: DhtTask::AddManaged, ..s }, ActionView::AddManagedPeers(peers))
}

/// Whether a peer that has connected becomes a neighbour: it is not a client, it is not managed
/// yet, and it is close enough.
pub open spec fn welcome(s: DhtView, conn: PeerConnection) -> bool {
    &&& !conn.peer_features.client
    &&& !is_managed(s, conn.peer_node_id)
    &&& distance_between(conn.peer_node_id, s.node_id) < neighbour_max_distance(s)
}

/// A peer has connected. If it becomes a neighbour, the neighbour that has to go becomes a random
/// node if there is room, and is not managed any more otherwise.
pub open spec fn new_peer_connected(s: DhtView, conn: PeerConnection) -> (DhtView, ActionView) {
    let node_id = conn.peer_node_id;
    if !welcome(s, conn) {
        finish(s)
    } else {
        let t = with_neighbour(s, node_id);
        match evicted(s) {
            None => add_managed(t, seq![node_id]),
            Some(old) => if s.random_pool.len() < s.config.num_random_nodes {
                add_managed(
                    DhtView { random_pool: s.random_pool.push(old), ..t },
                    seq![node_id],
                )
            } else {
                (
                    DhtView { task: DhtTask::RemoveEvicted(node_id), ..t },
                    ActionView::RemovePeer(old),
                )
            },
        }
    }
}

/// The state with a peer that was found in place of another, if one was found.
pub open spec fn with_replacement(s: DhtView, found: Seq<NodeId>) -> DhtView {
    if found.len() > 0 {
        DhtView { random_pool: s.random_pool.push(found.last()), ..s }
    } else {
        s
    }
}

/// A peer is offline: if it is managed, another is sought for each pool that it is in, and then
/// it is not managed any more.
pub open spec fn peer_offline(s: DhtView, node_id: NodeId) -> (DhtView, ActionView) {
    if !is_managed(s, node_id) {
        finish(s)
    } else if s.random_pool.contains(node_id) {
        (
            DhtView { task: DhtTask::OfflineRandom(node_id), ..s },
            ActionView::FetchRandomPeers(1, managed(s)),
        )
    } else {
        replace_neighbour(s, node_id)
    }
}

/// Goes on with a peer that is offline once the random pool has been seen to.
pub open spec fn replace_neighbour(s: DhtView, node_id: NodeId) -> (DhtView, ActionView) {
    if s.neighbours.contains(node_id) {
        (DhtView { task: DhtTask::OfflineNeighbour(node_id), ..s }, ActionView::QueryPeers)
    } else {
        remove_offline(s, node_id)
    }
}

/// Ends with a peer that is offline.
pub open spec fn remove_offline(s: DhtView, node_id: NodeId) -> (DhtView, ActionView) {
    (DhtView { task: DhtTask::OfflineRemove, ..s }, ActionView::RemovePeer(node_id))
}

/// Whether a join message may be sent, so many nanoseconds after the last one.
pub open spec fn join_allowed(s: DhtView, elapsed: u128) -> bool {
    s.join_last_sent_at is None || elapsed > s.config.join_cooldown_interval
}

/// The node hears of an event. `can_join` says whether a join message may be sent.
pub open spec fn handle_event(s: DhtView, event: ConnectivityEvent, can_join: bool) -> (
    DhtView,
    ActionView,
) {
    match event {
        ConnectivityEvent::PeerConnected(conn) => new_peer_connected(s, conn),
        ConnectivityEvent::PeerOffline(node_id) | ConnectivityEvent::PeerBanned(
            node_id,
        ) => peer_offline(s, node_id),
        ConnectivityEvent::ConnectivityStateDegraded(n)
        | ConnectivityEvent::ConnectivityStateOnline(n) => if s.config.auto_join && can_join {
            (DhtView { task: DhtTask::Join(n), ..s }, ActionView::SendJoin)
        } else {
            finish(s)
        },
        _ => finish(s),
    }
}

/// Whether the node can handle an event: where the distance of a peer that has connected is to
/// be judged, there has to be room for at least one neighbour.
pub open spec fn can_handle(s: DhtView, event: ConnectivityEvent) -> bool {
    event matches ConnectivityEvent::PeerConnected(conn) ==> conn.peer_features.client
        || is_managed(s, conn.peer_node_id) || s.config.num_neighbouring_nodes > 0
}

/// The node starts.
pub open spec fn initialize(s: DhtView) -> (DhtView, ActionView) {
    (DhtView { task: DhtTask::InitNeighbours, ..s }, ActionView::QueryPeers)
}

/// Whether a reply answers what the node is waiting for.
pub open spec fn answers(task: DhtTask, reply: DhtReply) -> bool {
    match reply {
        DhtReply::Peers(_) => task is InitNeighbours || task is OfflineNeighbour,
        DhtReply::RandomPeers(_) => task is InitRandom || task is OfflineRandom,
        DhtReply::PeerManagerFailed(_) => task is InitNeighbours || task is OfflineNeighbour || task
            is InitRandom || task is OfflineRandom,
        DhtReply::Completed => task is AddManaged || task is RemoveEvicted || task is OfflineRemove
            || task is Join,
        DhtReply::ConnectivityFailed(_) => task is AddManaged || task is RemoveEvicted || task
            is OfflineRemove,
        DhtReply::JoinFailed(_) => task is Join,
    }
}

/// The error that a reply stands for, if it stands for one.
pub open spec fn failure(reply: DhtReply) -> Option<DhtConnectivityError> {
    match reply {
        DhtReply::PeerManagerFailed(cause) => Some(DhtConnectivityError::PeerManagerError(cause)),
        DhtReply::ConnectivityFailed(error) => Some(DhtConnectivityError::ConnectivityError(error)),
        DhtReply::JoinFailed(cause) => Some(DhtConnectivityError::SendJoinFailed(cause)),
        _ => None,
    }
}

/// The peers that a reply names.
pub open spec fn known_peers(reply: DhtReply) -> Seq<Peer> {
    match reply {
        DhtReply::Peers(peers) => peers@,
        _ => Seq::empty(),
    }
}

/// The random peers that a reply names.
pub open spec fn random_peers(reply: DhtReply) -> Seq<NodeId> {
    match reply {
        DhtReply::RandomPeers(ids) => ids@,
        _ => Seq::empty(),
    }
}

/// The `n` known peers closest to this node that there is nothing against.
pub open spec fn nearest_known(
    s: DhtView,
    peers: Seq<Peer>,
    n: nat,
    excluded: Seq<NodeId>,
) -> Seq<NodeId> {
    nearest(eligible_ids(peers, s.config, excluded), n, s.node_id)
}

/// The node goes on with a reply that is not a failure. `sent_at` is when it notes that a join
/// message was sent.
pub open spec fn advance(s: DhtView, reply: DhtReply, sent_at: Instant) -> (DhtView, ActionView) {
    match s.task {
        DhtTask::Idle | DhtTask::AddManaged | DhtTask::OfflineRemove => finish(s),
        DhtTask::InitNeighbours => {
            let neighbours = nearest_known(
                s,
                known_peers(reply),
                s.config.num_neighbouring_nodes as nat,
                Seq::empty(),
            );
            (
                DhtView { neighbours, task: DhtTask::InitRandom, ..s },
                ActionView::FetchRandomPeers(s.config.num_random_nodes as nat, neighbours),
            )
        },
        DhtTask::InitRandom => {
            let t = DhtView { random_pool: random_peers(reply), ..s };
            add_managed(t, managed(t))
        },
        DhtTask::RemoveEvicted(node_id) => add_managed(s, seq![node_id]),
        DhtTask::OfflineRandom(node_id) => replace_neighbour(
            with_replacement(s, random_peers(reply)),
            node_id,
        ),
        DhtTask::OfflineNeighbour(node_id) => remove_offline(
            with_replacement(s, nearest_known(s, known_peers(reply), 1, managed(s))),
            node_id,
        ),
        // With a single peer connected, or none, another join message may be sent soon.
        DhtTask::Join(n) => if n > 1 {
            finish(DhtView { join_last_sent_at: Some(sent_at), ..s })
        } else {
            finish(s)
        },
    }
}

/// The node takes a reply. A failure ends what it was in the middle of.
pub open spec fn resume(s: DhtView, reply: DhtReply, sent_at: Instant) -> (
    DhtView,
    Result<ActionView, DhtConnectivityError>,
) {
    match failure(reply) {
        Some(error) => (DhtView { task: DhtTask::Idle, ..s }, Err(error)),
        None => {
            let (t, action) = advance(s, reply, sent_at);
            (t, Ok(action))
        },
    }
}

} // verus!
