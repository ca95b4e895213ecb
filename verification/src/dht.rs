//! The connectivity of a node of the distributed hash table: it keeps a pool of neighbours, which
//! are the known nodes closest to it, and a pool of random nodes.
//!
//! Queries, and what is asked of the connectivity manager, are done by the surrounding program.
//! An event that needs them gives out one action at a time; `DhtConnectivity::resume` takes the
//! reply to it and gives out the next one, until it is `Done`. A new event is handled only when
//! the node is idle.
use std::time::Instant;
use vstd::prelude::*;

use crate::node_id::{
    contains_id, copy_ids, distance_between, first_farther, law_nearest, lemma_by_distance,
    ordered_by_distance, Located, NodeDistance, NodeId,
};
use crate::peer::{Peer, PeerConnection};
use crate::requester::{Cause, ConnectivityError, ConnectivityEvent};

pub mod laws;
pub mod model;
pub mod query;
pub mod stats;
pub mod steps;

use laws::{
    law_event_keeps_distinct, law_insert_neighbour, law_random_pool_bounded, pools_wf,
};
use model::{view_wf, ActionView, DhtView};
use query::{eligible_ids, select_neighbours, with_verdict, NeighbourQuery, PeerVerdict};
use stats::{instant_now, nanos_since, Stats};

verus! {

/// What the node is configured with.
#[derive(Debug, Clone, Copy)]
pub struct DhtConfig {
    /// How many neighbours are kept.
    pub num_neighbouring_nodes: usize,
    /// How many random nodes are kept.
    pub num_random_nodes: usize,
    /// Whether the node joins the network without being asked to.
    pub auto_join: bool,
    /// How many nanoseconds pass between two join messages.
    pub join_cooldown_interval: u128,
    /// How often connecting to a peer may fail before the peer is left alone for a while.
    pub broadcast_cooldown_max_attempts: usize,
    /// For how many nanoseconds it is then left alone.
    pub broadcast_cooldown_period: u128,
}

/// Why the node could not do what it wanted to.
#[derive(Debug, Clone, Copy, PartialEq, Eq, Structural)]
pub enum DhtConnectivityError {
    ConnectivityError(ConnectivityError),
    /// The peer database failed, for this cause.
    PeerManagerError(Cause),
    /// Failed to send network Join message
    SendJoinFailed(Cause),
}

/// What the node is in the middle of.
#[derive(Debug, Clone, Copy)]
pub enum DhtTask {
    Idle,
    /// Waits for the known peers, to choose the first neighbours.
    InitNeighbours,
    /// Waits for the first random peers.
    InitRandom,
    /// Waits until peers are managed.
    AddManaged,
    /// Waits until the neighbour that made room for this one is not managed any more.
    RemoveEvicted(NodeId),
    /// Waits for a random peer in place of this one.
    OfflineRandom(NodeId),
    /// Waits for the known peers, to choose one in place of this neighbour.
    OfflineNeighbour(NodeId),
    /// Waits until a peer that is offline is not managed any more.
    OfflineRemove,
    /// Waits until a join message is sent, with so many peers connected.
    Join(usize),
}

/// What the surrounding program is to do next.
#[derive(Debug)]
pub enum DhtAction {
    /// Nothing more.
    Done,
    /// Read the known peers. Answered with `Peers` or `PeerManagerFailed`.
    QueryPeers,
    /// Choose so many known peers at random, none of these. Answered with `RandomPeers` or
    /// `PeerManagerFailed`.
    FetchRandomPeers(usize, Vec<NodeId>),
    /// Ask the connectivity manager not to keep a connection to a peer. Answered with `Completed`
    /// or `ConnectivityFailed`.
    RemovePeer(NodeId),
    /// Ask the connectivity manager to keep connections to peers. Answered with `Completed` or
    /// `ConnectivityFailed`.
    AddManagedPeers(Vec<NodeId>),
    /// Send a join message. Answered with `Completed` or `JoinFailed`.
    SendJoin,
}

impl View for DhtAction {
    type V = ActionView;

    open spec fn view(&self) -> ActionView {
        match self {
            DhtAction::Done => ActionView::Done,
            DhtAction::QueryPeers => ActionView::QueryPeers,
            DhtAction::FetchRandomPeers(n, exclude) => ActionView::FetchRandomPeers(
                *n as nat,
                exclude@,
            ),
            DhtAction::RemovePeer(node_id) => ActionView::RemovePeer(*node_id),
            DhtAction::AddManagedPeers(peers) => ActionView::AddManagedPeers(peers@),
            DhtAction::SendJoin => ActionView::SendJoin,
        }
    }
}

/// What came of an action.
#[derive(Debug)]
pub enum DhtReply {
    Peers(Vec<Peer>),
    RandomPeers(Vec<NodeId>),
    Completed,
    PeerManagerFailed(Cause),
    ConnectivityFailed(ConnectivityError),
    JoinFailed(Cause),
}

/// A node of the distributed hash table, as far as its connectivity goes.
#[derive(Debug)]
pub struct DhtConnectivity {
    config: DhtConfig,
    /// The id of this node.
    node_id: NodeId,
    /// List of neighbours managed by DhtConnectivity ordered by distance from this node
    neighbours: Vec<NodeId>,
    random_pool: Vec<NodeId>,
    stats: Stats,
    task: DhtTask,
}

impl View for DhtConnectivity {
    type V = DhtView;

    closed spec fn view(&self) -> DhtView {
        DhtView {
            config: self.config,
            node_id: self.node_id,
            neighbours: self.neighbours@,
            random_pool: self.random_pool@,
            join_last_sent_at: self.stats@,
            task: self.task,
        }
    }
}

impl DhtConnectivity {
    /// What holds of every node.
    pub open spec fn wf(&self) -> bool {
        view_wf(self@)
    }

    /// A node that has not started: it has no neighbours, and no random nodes.
    pub fn new(config: DhtConfig, node_id: NodeId) -> (r: DhtConnectivity)
        ensures
            r.wf(),
            r@ == (DhtView {
                config,
                node_id,
                neighbours: Seq::empty(),
                random_pool: Seq::empty(),
                join_last_sent_at: None,
                task: DhtTask::Idle,
            }),
    {
        DhtConnectivity {
            config,
            node_id,
            neighbours: Vec::new(),
            random_pool: Vec::new(),
            stats: Stats::new(),
            task: DhtTask::Idle,
        }
    }

    /// The neighbours, the closest first.
    pub fn neighbours(&self) -> (r: &[NodeId])
        ensures
            r@ == self@.neighbours,
    {
        self.neighbours.as_slice()
    }

    /// The random nodes.
    pub fn random_pool(&self) -> (r: &[NodeId])
        ensures
            r@ == self@.random_pool,
    {
        self.random_pool.as_slice()
    }

    /// Whether the node is not in the middle of anything.
    pub fn is_idle(&self) -> (r: bool)
        ensures
            r == (self@.task is Idle),
    {
        matches!(self.task, DhtTask::Idle)
    }

    /// Starts the node.
    pub fn initialize(&mut self) -> (r: DhtAction)
        requires
            old(self).wf(),
            old(self)@.task is Idle,
        ensures
            final(self).wf(),
            (final(self)@, r@) == model::initialize(old(self)@),
    {
        self.task = DhtTask::InitNeighbours;
        DhtAction::QueryPeers
    }

    /// Whether the node keeps a peer in one of its pools.
    pub fn is_managed(&self, node_id: &NodeId) -> (r: bool)
        ensures
            r == model::is_managed(self@, *node_id),
    {
        contains_id(self.neighbours.as_slice(), node_id) || contains_id(
            self.random_pool.as_slice(),
            node_id,
        )
    }

    /// The neighbours, then the random nodes.
    pub fn get_managed_peers(&self) -> (r: Vec<NodeId>)
        ensures
            r@ == model::managed(self@),
    {
        let mut peers: Vec<NodeId> = copy_ids(self.neighbours.as_slice());
        let mut random: Vec<NodeId> = copy_ids(self.random_pool.as_slice());
        peers.append(&mut random);
        peers
    }

    /// A peer has to be closer than this to become a neighbour.
    pub fn get_neighbour_max_distance(&self) -> (r: NodeDistance)
        requires
            self@.config.num_neighbouring_nodes > 0,
        ensures
            r.value == model::neighbour_max_distance(self@),
    {
        if self.neighbours.len() < self.config.num_neighbouring_nodes {
            return NodeDistance::max_distance();
        }
        self.neighbours[self.neighbours.len() - 1].distance(&self.node_id)
    }

    /// Puts a peer among the neighbours, in its place by distance. Returns the neighbour that had
    /// to go, if one had to: the farthest.
    pub fn insert_neighbour(&mut self, node_id: NodeId) -> (r: Option<NodeId>)
        requires
            old(self).wf(),
            old(self)@.config.num_neighbouring_nodes > 0,
        ensures
            final(self).wf(),
            final(self)@ == model::with_neighbour(old(self)@, node_id),
            r == model::evicted(old(self)@),
            final(self)@.neighbours.to_multiset() == match r {
                Some(old_id) => old(self)@.neighbours.to_multiset().remove(old_id).insert(node_id),
                None => old(self)@.neighbours.to_multiset().insert(node_id),
            },
            final(self)@.neighbours.len() == if old(self)@.neighbours.len()
                < old(self)@.config.num_neighbouring_nodes {
                old(self)@.neighbours.len() + 1
            } else {
                old(self)@.config.num_neighbouring_nodes as nat
            },
    {
        let dist: NodeDistance = node_id.distance(&self.node_id);
        let pos: usize = first_farther(&self.neighbours, &self.node_id, &dist);
        let mut removed_peer: Option<NodeId> = None;
        if self.neighbours.len() >= self.config.num_neighbouring_nodes {
            removed_peer = self.neighbours.pop();
        }
        let ghost kept = self.neighbours@;
        if pos < self.neighbours.len() {
            self.neighbours.insert(pos, node_id);
        } else {
            self.neighbours.push(node_id);
        }
        proof {
            let place: int = if pos < kept.len() {
                pos as int
            } else {
                kept.len() as int
            };
            assert(kept =~= model::kept(old(self)@));
            assert(self.neighbours@ =~= kept.insert(place, node_id));
            assert(kept.push(node_id) =~= kept.insert(kept.len() as int, node_id));
            vstd::seq_lib::to_multiset_insert(kept, place, node_id);
            vstd::seq_lib::to_multiset_insert(kept, kept.len() as int, node_id);
            let before = old(self).neighbours@;
            let after = self.neighbours@;
            assert forall|i: int, j: int|
                #![trigger after[i], after[j]]
                0 <= i <= j < after.len() implies distance_between(after[i], self.node_id)
                <= distance_between(after[j], self.node_id) by {
                let k: int = if i < place {
                    i
                } else {
                    i - 1
                };
                let l: int = if j < place {
                    j
                } else {
                    j - 1
                };
                if i != place {
                    assert(after[i] == before[k]);
                }
                if j != place {
                    assert(after[j] == before[l]);
                }
                if pos < before.len() {
                    assert(distance_between(before[pos as int].location(), self.node_id)
                        > dist.value);
                }
                if i == place && j > place {
                    assert(distance_between(before[pos as int], self.node_id)
                        <= distance_between(before[l], self.node_id));
                }
                if j == place && i < place {
                    assert(distance_between(before[i].location(), self.node_id) <= dist.value);
                }
            }
            assert(ordered_by_distance(after, self.node_id));
            lemma_by_distance(kept.push(node_id), self.node_id);
            law_insert_neighbour(old(self)@, node_id);
        }
        removed_peer
    }

    /// Whether a join message may be sent, so many nanoseconds after the last one.
    pub fn join_allowed(&self, elapsed: u128) -> (r: bool)
        ensures
            r == model::join_allowed(self@, elapsed),
    {
        match self.stats.join_last_sent_at() {
            Some(_) => elapsed > self.config.join_cooldown_interval,
            None => true,
        }
    }

    /// Whether a join message may be sent now. How much time has passed since the last one is
    /// for the clock to say.
    pub fn can_send_join(&self) -> (r: bool)
        ensures
            exists|elapsed: u128| r == #[trigger] model::join_allowed(self@, elapsed),
            self@.join_last_sent_at is None ==> r,
    {
        match self.stats.join_last_sent_at() {
            Some(at) => {
                let elapsed: u128 = nanos_since(&at);
                self.join_allowed(elapsed)
            },
            None => {
                assert(model::join_allowed(self@, 0));
                true
            },
        }
    }

    /// Which of the known peers are closest to this node, of those that there is nothing against.
    pub fn fetch_neighbouring_peers(
        &self,
        peers: &Vec<Peer>,
        n: usize,
        excluded: &[NodeId],
    ) -> (r: NeighbourQuery)
        ensures
            r.selected@ == model::nearest_known(self@, peers@, n as nat, excluded@),
            r.banned == with_verdict(peers@, self@.config, excluded@, PeerVerdict::Banned).len(),
            r.filtered_out == with_verdict(
                peers@,
                self@.config,
                excluded@,
                PeerVerdict::NotCommunicationNode,
            ).len(),
            r.not_connectable == with_verdict(
                peers@,
                self@.config,
                excluded@,
                PeerVerdict::NotConnectable,
            ).len(),
            r.excluded == with_verdict(
                peers@,
                self@.config,
                excluded@,
                PeerVerdict::Excluded,
            ).len(),
            r.banned + r.filtered_out + r.not_connectable + r.excluded <= peers@.len(),
    {
        select_neighbours(peers, &self.config, &self.node_id, n, excluded)
    }

    fn finish(&mut self) -> (r: DhtAction)
        requires
            old(self).wf(),
        ensures
            final(self).wf(),
            (final(self)@, r@) == model::finish(old(self)@),
    {
        self.task = DhtTask::Idle;
        DhtAction::Done
    }

    fn add_managed(&mut self, peers: Vec<NodeId>) -> (r: DhtAction)
        requires
            old(self).wf(),
        ensures
            final(self).wf(),
            (final(self)@, r@) == model::add_managed(old(self)@, peers@),
    {
        self.task = DhtTask::AddManaged;
        DhtAction::AddManagedPeers(peers)
    }

    /// Starts to handle a peer that has connected. The pools stay as they should be.
    pub fn handle_new_peer_connected(&mut self, conn: &PeerConnection) -> (r: DhtAction)
        requires
            old(self).wf(),
            old(self)@.task is Idle,
            model::can_handle(old(self)@, ConnectivityEvent::PeerConnected(*conn)),
        ensures
            final(self).wf(),
            (final(self)@, r@) == model::new_peer_connected(old(self)@, *conn),
            pools_wf(old(self)@) ==> pools_wf(final(self)@),
    {
        proof {
            if pools_wf(self@) {
                law_event_keeps_distinct(self@, ConnectivityEvent::PeerConnected(*conn), false);
                law_random_pool_bounded(self@, *conn);
            }
        }
        if conn.peer_features().is_client() {
            return self.finish();
        }
        let node_id: NodeId = conn.peer_node_id();
        if self.is_managed(&node_id) {
            return self.finish();
        }
        let current_dist: NodeDistance = node_id.distance(&self.node_id);
        let neighbour_distance: NodeDistance = self.get_neighbour_max_distance();
        if !current_dist.is_closer_than(&neighbour_distance) {
            return self.finish();
        }
        let removed: Option<NodeId> = self.insert_neighbour(node_id);
        let mut added: Vec<NodeId> = Vec::new();
        added.push(node_id);
        assert(added@ =~= seq![node_id]);
        match removed {
            None => self.add_managed(added),
            Some(evicted) => {
                if self.random_pool.len() < self.config.num_random_nodes {
                    self.random_pool.push(evicted);
                    self.add_managed(added)
                } else {
                    self.task = DhtTask::RemoveEvicted(node_id);
                    DhtAction::RemovePeer(evicted)
                }
            },
        }
    }

    fn handle_peer_offline(&mut self, node_id: &NodeId) -> (r: DhtAction)
        requires
            old(self).wf(),
        ensures
            final(self).wf(),
            (final(self)@, r@) == model::peer_offline(old(self)@, *node_id),
    {
        if !self.is_managed(node_id) {
            return self.finish();
        }
        if contains_id(self.random_pool.as_slice(), node_id) {
            self.task = DhtTask::OfflineRandom(*node_id);
            let exclude: Vec<NodeId> = self.get_managed_peers();
            return DhtAction::FetchRandomPeers(1, exclude);
        }
        self.replace_neighbour(*node_id)
    }

    fn replace_neighbour(&mut self, node_id: NodeId) -> (r: DhtAction)
        requires
            old(self).wf(),
        ensures
            final(self).wf(),
            (final(self)@, r@) == model::replace_neighbour(old(self)@, node_id),
    {
        if contains_id(self.neighbours.as_slice(), &node_id) {
            self.task = DhtTask::OfflineNeighbour(node_id);
            return DhtAction::QueryPeers;
        }
        self.remove_offline(node_id)
    }

    fn remove_offline(&mut self, node_id: NodeId) -> (r: DhtAction)
        requires
            old(self).wf(),
        ensures
            final(self).wf(),
            (final(self)@, r@) == model::remove_offline(old(self)@, node_id),
    {
        self.task = DhtTask::OfflineRemove;
        DhtAction::RemovePeer(node_id)
    }

    fn add_replacement(&mut self, found: Vec<NodeId>)
        requires
            old(self).wf(),
        ensures
            final(self).wf(),
            final(self)@ == model::with_replacement(old(self)@, found@),
    {
        let mut found = found;
        match found.pop() {
            Some(node_id) => {
                self.random_pool.push(node_id);
            },
            None => {},
        }
    }

    /// Whether `handle_connectivity_event` can take an event.
    pub fn can_handle(&self, event: &ConnectivityEvent) -> (r: bool)
        ensures
            r == model::can_handle(self@, *event),
    {
        match event {
            ConnectivityEvent::PeerConnected(conn) => conn.peer_features.client || self.is_managed(
                &conn.peer_node_id,
            ) || self.config.num_neighbouring_nodes > 0,
            _ => true,
        }
    }

    /// Starts to handle an event. `can_join` says whether a join message may be sent now.
    pub fn handle_event(&mut self, event: &ConnectivityEvent, can_join: bool) -> (r: DhtAction)
        requires
            old(self).wf(),
            old(self)@.task is Idle,
            model::can_handle(old(self)@, *event),
        ensures
            final(self).wf(),
            (final(self)@, r@) == model::handle_event(old(self)@, *event, can_join),
    {
        match event {
            ConnectivityEvent::PeerConnected(conn) => self.handle_new_peer_connected(conn),
            ConnectivityEvent::PeerOffline(node_id) | ConnectivityEvent::PeerBanned(
                node_id,
            ) => self.handle_peer_offline(node_id),
            ConnectivityEvent::ConnectivityStateDegraded(n)
            | ConnectivityEvent::ConnectivityStateOnline(n) => {
                if self.config.auto_join && can_join {
                    self.task = DhtTask::Join(*n);
                    DhtAction::SendJoin
                } else {
                    self.finish()
                }
            },
            _ => self.finish(),
        }
    }

    /// Starts to handle an event. Whether a join message may be sent is for the clock to say.
    pub fn handle_connectivity_event(&mut self, event: &ConnectivityEvent) -> (r: DhtAction)
        requires
            old(self).wf(),
            old(self)@.task is Idle,
            model::can_handle(old(self)@, *event),
        ensures
            final(self).wf(),
            exists|elapsed: u128|
                (final(self)@, r@) == model::handle_event(
                    old(self)@,
                    *event,
                    #[trigger] model::join_allowed(old(self)@, elapsed),
                ),
    {
        let can_join: bool = self.can_send_join();
        self.handle_event(event, can_join)
    }

    /// Whether a reply answers what the node is waiting for.
    pub fn accepts(&self, reply: &DhtReply) -> (r: bool)
        ensures
            r == model::answers(self@.task, *reply),
    {
        match reply {
            DhtReply::Peers(_) => matches!(
                self.task,
                DhtTask::InitNeighbours | DhtTask::OfflineNeighbour(_)
            ),
            DhtReply::RandomPeers(_) => matches!(
                self.task,
                DhtTask::InitRandom | DhtTask::OfflineRandom(_)
            ),
            DhtReply::PeerManagerFailed(_) => matches!(
                self.task,
                DhtTask::InitNeighbours | DhtTask::OfflineNeighbour(_) | DhtTask::InitRandom
                | DhtTask::OfflineRandom(_)
            ),
            DhtReply::Completed => matches!(
                self.task,
                DhtTask::AddManaged | DhtTask::RemoveEvicted(_) | DhtTask::OfflineRemove
                | DhtTask::Join(_)
            ),
            DhtReply::ConnectivityFailed(_) => matches!(
                self.task,
                DhtTask::AddManaged | DhtTask::RemoveEvicted(_) | DhtTask::OfflineRemove
            ),
            DhtReply::JoinFailed(_) => matches!(self.task, DhtTask::Join(_)),
        }
    }

    /// Goes on with the reply to the last action, up to the next action or the error that ends
    /// what the node was in the middle of. Where a join message counts as sent, it counts as sent
    /// at `sent_at`.
    pub fn resume_at(&mut self, reply: DhtReply, sent_at: Instant) -> (r: Result<
        DhtAction,
        DhtConnectivityError,
    >)
        requires
            old(self).wf(),
            model::answers(old(self)@.task, reply),
        ensures
            final(self).wf(),
            (final(self)@, outcome(r)) == model::resume(old(self)@, reply, sent_at),
    {
        let task: DhtTask = self.task;
        self.task = DhtTask::Idle;
        match reply {
            DhtReply::PeerManagerFailed(cause) => {
                Err(DhtConnectivityError::PeerManagerError(cause))
            },
            DhtReply::ConnectivityFailed(error) => {
                Err(DhtConnectivityError::ConnectivityError(error))
            },
            DhtReply::JoinFailed(cause) => {
                Err(DhtConnectivityError::SendJoinFailed(cause))
            },
            DhtReply::Peers(peers) => {
                let action: DhtAction = match task {
                    DhtTask::InitNeighbours => {
                        let n: usize = self.config.num_neighbouring_nodes;
                        let none: Vec<NodeId> = Vec::new();
                        self.neighbours =
                        self.fetch_neighbouring_peers(&peers, n, none.as_slice()).selected;
                        self.task = DhtTask::InitRandom;
                        DhtAction::FetchRandomPeers(
                            self.config.num_random_nodes,
                            copy_ids(self.neighbours.as_slice()),
                        )
                    },
                    DhtTask::OfflineNeighbour(node_id) => {
                        let exclude: Vec<NodeId> = self.get_managed_peers();
                        let found: Vec<NodeId> = self.fetch_neighbouring_peers(
                            &peers,
                            1,
                            exclude.as_slice(),
                        ).selected;
                        self.add_replacement(found);
                        self.remove_offline(node_id)
                    },
                    _ => DhtAction::Done,
                };
                proof {
                    let before = old(self)@;
                    let known = model::known_peers(reply);
                    law_nearest(
                        eligible_ids(known, before.config, Seq::empty()),
                        before.config.num_neighbouring_nodes as nat,
                        before.node_id,
                    );
                }
                Ok(action)
            },
            DhtReply::RandomPeers(ids) => {
                let action: DhtAction = match task {
                    DhtTask::InitRandom => {
                        self.random_pool = ids;
                        let peers: Vec<NodeId> = self.get_managed_peers();
                        self.add_managed(peers)
                    },
                    DhtTask::OfflineRandom(node_id) => {
                        self.add_replacement(ids);
                        self.replace_neighbour(node_id)
                    },
                    _ => DhtAction::Done,
                };
                Ok(action)
            },
            DhtReply::Completed => {
                let action: DhtAction = match task {
                    DhtTask::RemoveEvicted(node_id) => {
                        let mut added: Vec<NodeId> = Vec::new();
                        added.push(node_id);
                        assert(added@ =~= seq![node_id]);
                        self.add_managed(added)
                    },
                    DhtTask::Join(n) => {
                        // With a single peer connected, or none, another join message may be
                        // sent soon.
                        if n > 1 {
                            self.stats.mark_join_sent_at(sent_at);
                        }
                        self.finish()
                    },
                    _ => self.finish(),
                };
                Ok(action)
            },
        }
    }

    /// Goes on with the reply to the last action, as `resume_at` does. When a join message counts
    /// as sent is for the clock to say.
    pub fn resume(&mut self, reply: DhtReply) -> (r: Result<DhtAction, DhtConnectivityError>)
        requires
            old(self).wf(),
            model::answers(old(self)@.task, reply),
        ensures
            final(self).wf(),
            exists|sent_at: Instant|
                (final(self)@, outcome(r)) == #[trigger] model::resume(
                    old(self)@,
                    reply,
                    sent_at,
                ),
    {
        let now: Instant = instant_now();
        self.resume_at(reply, now)
    }
}

/// What came of taking a reply.
pub open spec fn outcome(r: Result<DhtAction, DhtConnectivityError>) -> Result<
    ActionView,
    DhtConnectivityError,
> {
    match r {
        Ok(action) => Ok(action@),
        Err(error) => Err(error),
    }
}

} // verus!
