//! The connectivity manager: it keeps connections to the peers that are eligible for one, and
//! tells others how well the node is connected.
//!
//! Dialling, closing and banning are done by the surrounding program. A request that needs them
//! gives out one action at a time; `ConnectivityManagerActor::resume` takes what came of the
//! action and gives out the next one, until it is `Done`. A new request is handled only when
//! the manager is idle.
use std::time::Duration;
use vstd::prelude::*;

use crate::connection_pool::{
    connection_of, lists_entries, lists_unused, with_liveness, without_stale, ConnectionPool,
    ConnectionStatus, PoolView,
};
use crate::node_id::{contains_id, NodeId};
use crate::peer::PeerConnection;
use crate::requester::{
    Cause, ConnectivityError, ConnectivityEvent, ConnectivityReply, ConnectivityRequest,
    ConnectivitySelection,
};
use crate::selection::{
    closest_choice, lemma_closest_prefix, random_choice, select_closest, select_random_nodes,
    selectable_peers,
};

pub mod laws;
pub mod model;
pub mod order;
pub mod steps;

use model::{view_wf, ManagerView, TaskView};

verus! {

/// What the manager is configured with.
#[derive(Debug)]
pub struct ConnectivityConfig {
    /// With so many connections the node is online.
    pub min_desired_peers: usize,
    /// How often the connection pool is refreshed.
    pub connection_pool_refresh_interval: Duration,
}

/// How well the node is connected.
#[derive(Debug, Clone, Copy, PartialEq, Eq, Structural)]
pub enum ConnectivityStatus {
    Initializing,
    Online,
    Degraded,
    Offline,
}

impl ConnectivityStatus {
    /// The name of the status.
    pub fn as_str(&self) -> (r: &'static str)
        ensures
            r@ == match *self {
                ConnectivityStatus::Initializing => "Initializing"@,
                ConnectivityStatus::Online => "Online"@,
                ConnectivityStatus::Degraded => "Degraded"@,
                ConnectivityStatus::Offline => "Offline"@,
            },
    {
        match self {
            ConnectivityStatus::Initializing => "Initializing",
            ConnectivityStatus::Online => "Online",
            ConnectivityStatus::Degraded => "Degraded",
            ConnectivityStatus::Offline => "Offline",
        }
    }
}

/// What the connection manager reports.
#[derive(Debug, Clone, Copy)]
pub enum ConnectionManagerEvent {
    PeerConnected(PeerConnection),
    PeerDisconnected(NodeId),
    PeerConnectFailed(NodeId),
    /// Something that does not concern the connectivity.
    Other,
}

/// What the surrounding program is to do next.
#[derive(Debug)]
pub enum ManagerAction {
    /// Nothing more: this is what came of the request.
    Done(Result<(), ConnectivityError>),
    /// Nothing more: this is the answer to the request.
    Reply(ConnectivityReply),
    /// Ask the connection manager to dial a peer.
    DialPeer(NodeId),
    /// Close a connection.
    Disconnect(PeerConnection),
    /// Mark a peer as banned in the peer database.
    BanPeer(NodeId, Duration),
    /// Ask the connection manager to close the connection to a peer.
    DisconnectPeer(NodeId),
}

/// What the manager is in the middle of.
#[derive(Debug)]
enum ManagerTask {
    Idle,
    AddPeers { node_ids: Vec<NodeId>, next: usize, dialled: NodeId, retry: bool },
    Disconnecting { conns: Vec<PeerConnection>, next: usize },
    Connecting { next: usize },
    Banning { node_id: NodeId },
    DroppingBanned { node_id: NodeId },
}

impl ManagerTask {
    spec fn view(&self) -> TaskView {
        match self {
            ManagerTask::Idle => TaskView::Idle,
            ManagerTask::AddPeers { node_ids, next, dialled, retry } => TaskView::AddPeers {
                rest: node_ids@.skip(*next as int),
                dialled: *dialled,
                retry: *retry,
            },
            ManagerTask::Disconnecting { conns, next } => TaskView::Disconnecting {
                conns: conns@.skip(*next as int),
            },
            ManagerTask::Connecting { next } => TaskView::Connecting { next: *next as int },
            ManagerTask::Banning { node_id } => TaskView::Banning { node_id: *node_id },
            ManagerTask::DroppingBanned { node_id } => TaskView::DroppingBanned {
                node_id: *node_id,
            },
        }
    }

    spec fn wf(&self) -> bool {
        match self {
            ManagerTask::AddPeers { node_ids, next, .. } => next <= node_ids@.len(),
            ManagerTask::Disconnecting { conns, next } => next <= conns@.len(),
            _ => true,
        }
    }
}

/// A connectivity manager that has not been created yet.
#[derive(Debug)]
pub struct ConnectivityManager {
    pub config: ConnectivityConfig,
}

impl ConnectivityManager {
    /// A manager that has not started: it knows no peers, and nothing is published.
    pub fn create(self) -> (r: ConnectivityManagerActor)
        ensures
            r.wf(),
            r@ == (ManagerView {
                config: self.config,
                status: ConnectivityStatus::Initializing,
                eligible: Seq::empty(),
                pool: Map::empty(),
                events: Seq::empty(),
                task: TaskView::Idle,
            }),
    {
        ConnectivityManagerActor {
            config: self.config,
            status: ConnectivityStatus::Initializing,
            eligible_peers: Vec::new(),
            pool: ConnectionPool::new(),
            events: Vec::new(),
            task: ManagerTask::Idle,
        }
    }
}

/// The connectivity manager.
#[derive(Debug)]
pub struct ConnectivityManagerActor {
    config: ConnectivityConfig,
    status: ConnectivityStatus,
    eligible_peers: Vec<NodeId>,
    pool: ConnectionPool,
    events: Vec<ConnectivityEvent>,
    task: ManagerTask,
}

impl View for ConnectivityManagerActor {
    type V = ManagerView;

    closed spec fn view(&self) -> ManagerView {
        ManagerView {
            config: self.config,
            status: self.status,
            eligible: self.eligible_peers@,
            pool: self.pool@,
            events: self.events@,
            task: self.task.view(),
        }
    }
}

impl ConnectivityManagerActor {
    /// What holds of every manager.
    pub closed spec fn wf(&self) -> bool {
        self.pool.wf() && self.task.wf() && view_wf(self@)
    }

    /// What `wf` says of the state.
    pub proof fn lemma_wf(&self)
        requires
            self.wf(),
        ensures
            view_wf(self@),
    {
    }

    fn publish_event(&mut self, event: ConnectivityEvent)
        requires
            old(self).wf(),
        ensures
            final(self).wf(),
            final(self)@ == model::publish(old(self)@, event),
    {
        self.events.push(event);
    }

    fn transition(&mut self, next_status: ConnectivityStatus, num_peers: usize)
        requires
            old(self).wf(),
            model::may_follow(old(self)@.status, next_status),
        ensures
            final(self).wf(),
            final(self)@ == model::transition(old(self)@, next_status, num_peers),
    {
        if self.status != next_status {
            match next_status {
                ConnectivityStatus::Online => {
                    self.publish_event(ConnectivityEvent::ConnectivityStateReady(num_peers));
                },
                ConnectivityStatus::Degraded => {
                    self.publish_event(ConnectivityEvent::ConnectivityStateDegraded(num_peers));
                },
                ConnectivityStatus::Offline => {
                    self.publish_event(ConnectivityEvent::ConnectivityStateOffline);
                },
                ConnectivityStatus::Initializing => {},
            }
            self.status = next_status;
        }
    }

    /// Brings the connectivity status up to date with the pool, and publishes a change. Doing so
    /// again changes nothing, and a node that has been initialized never initializes again.
    pub fn check_connectivity_status(&mut self)
        requires
            old(self).wf(),
        ensures
            final(self).wf(),
            final(self)@ == model::check_status(old(self)@),
            model::check_status(final(self)@) == final(self)@,
            old(self)@.status != ConnectivityStatus::Initializing ==> final(self)@.status
                != ConnectivityStatus::Initializing,
    {
        let min_peers: usize = self.config.min_desired_peers;
        let num_connected: usize = self.pool.count_connected();
        if num_connected >= min_peers {
            self.transition(ConnectivityStatus::Online, num_connected);
        } else if num_connected > 0 {
            if self.status != ConnectivityStatus::Initializing {
                self.transition(ConnectivityStatus::Degraded, num_connected);
            }
        } else if self.pool.count_failed() > 0 {
            self.transition(ConnectivityStatus::Offline, num_connected);
        }
    }

    /// Starts the manager: it publishes that it is there, and how well the node is connected.
    pub fn start(&mut self)
        requires
            old(self).wf(),
        ensures
            final(self).wf(),
            final(self)@ == model::start(old(self)@),
    {
        self.publish_event(ConnectivityEvent::ConnectivityStateInitialized);
        self.check_connectivity_status();
    }

    /// Takes note of an event of the connection manager, and publishes what it means.
    pub fn handle_connection_manager_event(&mut self, event: &ConnectionManagerEvent)
        requires
            old(self).wf(),
            old(self)@.task is Idle,
        ensures
            final(self).wf(),
            final(self)@ == model::handle_event(old(self)@, *event),
    {
        let (node_id, new_status): (NodeId, ConnectionStatus) = match event {
            ConnectionManagerEvent::PeerDisconnected(node_id) => (
                *node_id,
                ConnectionStatus::Disconnected,
            ),
            ConnectionManagerEvent::PeerConnected(conn) => {
                self.pool.insert_connection(*conn);
                proof {
                    self.pool.lemma_wf();
                }
                self.check_connectivity_status();
                (conn.peer_node_id(), ConnectionStatus::Connected)
            },
            ConnectionManagerEvent::PeerConnectFailed(node_id) => (
                *node_id,
                ConnectionStatus::Failed,
            ),
            ConnectionManagerEvent::Other => {
                return ;
            },
        };

        let old_status: ConnectionStatus = self.pool.set_status(&node_id, new_status);
        proof {
            self.pool.lemma_wf();
        }
        let is_eligible: bool = contains_id(self.eligible_peers.as_slice(), &node_id);

        match new_status {
            ConnectionStatus::Connected => {
                if let Some(conn) = self.pool.get_connection(&node_id) {
                    self.publish_event(ConnectivityEvent::PeerConnected(conn));
                }
            },
            ConnectionStatus::Disconnected => {
                if old_status == ConnectionStatus::Connected {
                    if is_eligible {
                        self.publish_event(ConnectivityEvent::EligiblePeerDisconnected(node_id));
                    } else {
                        self.publish_event(ConnectivityEvent::PeerDisconnected(node_id));
                    }
                }
            },
            ConnectionStatus::Failed => {
                if is_eligible {
                    self.publish_event(ConnectivityEvent::EligiblePeerConnectFailed(node_id));
                } else {
                    self.publish_event(ConnectivityEvent::PeerConnectFailed(node_id));
                }
            },
            _ => {},
        }

        self.check_connectivity_status();
    }

    /// Makes the peers of `node_ids` from `from` on eligible, up to the first that has to be
    /// dialled.
    fn add_eligible_peers(&mut self, node_ids: Vec<NodeId>, from: usize) -> (r: ManagerAction)
        requires
            old(self).wf(),
            old(self)@.task is Idle,
            from <= node_ids@.len(),
        ensures
            final(self).wf(),
            (final(self)@, r) == model::add_next(old(self)@, node_ids@.skip(from as int)),
    {
        let mut i: usize = from;
        while i < node_ids.len()
            invariant
                self.wf(),
                self@.task is Idle,
                i <= node_ids@.len(),
                model::add_next(self@, node_ids@.skip(i as int)) == model::add_next(
                    old(self)@,
                    node_ids@.skip(from as int),
                ),
            decreases node_ids@.len() - i,
        {
            let ghost before = self@;
            let node_id: NodeId = node_ids[i];
            if !contains_id(self.eligible_peers.as_slice(), &node_id) {
                self.eligible_peers.push(node_id);
            }
            let status: ConnectionStatus = self.pool.insert(node_id);
            proof {
                self.pool.lemma_wf();
                assert(node_ids@.skip(i as int).skip(1) =~= node_ids@.skip(i + 1));
                assert(self@ == model::enlist(before, node_id));
                lemma_enlisted(before, node_id);
            }
            i += 1;
            match status {
                ConnectionStatus::Failed => {
                    self.pool.set_status(&node_id, ConnectionStatus::Retrying);
                    proof {
                        self.pool.lemma_wf();
                    }
                    self.task = ManagerTask::AddPeers {
                        node_ids,
                        next: i,
                        dialled: node_id,
                        retry: true,
                    };
                    return ManagerAction::DialPeer(node_id);
                },
                ConnectionStatus::NotConnected | ConnectionStatus::Disconnected => {
                    self.pool.set_status(&node_id, ConnectionStatus::Connecting);
                    proof {
                        self.pool.lemma_wf();
                    }
                    self.task = ManagerTask::AddPeers {
                        node_ids,
                        next: i,
                        dialled: node_id,
                        retry: false,
                    };
                    return ManagerAction::DialPeer(node_id);
                },
                _ => {},
            }
        }
        ManagerAction::Done(Ok(()))
    }
}

impl ConnectivityManagerActor {
    /// Dials the eligible peers from `from` on, up to the first that has to be dialled. Where
    /// there is none, the pool is cleaned and the refresh is done.
    fn try_connect_eligible_peers(&mut self, from: usize) -> (r: ManagerAction)
        requires
            old(self).wf(),
            old(self)@.task is Idle,
            from <= old(self)@.eligible.len(),
            model::settled_until(old(self)@.eligible, old(self)@.pool, from as int),
        ensures
            final(self).wf(),
            (final(self)@, r) == model::connect_next(old(self)@, from as int),
    {
        let mut i: usize = from;
        while i < self.eligible_peers.len()
            invariant
                self.wf(),
                self@.task is Idle,
                self@ == old(self)@,
                i <= self@.eligible.len(),
                model::settled_until(self@.eligible, self@.pool, i as int),
                model::connect_next(self@, i as int) == model::connect_next(
                    old(self)@,
                    from as int,
                ),
            decreases self@.eligible.len() - i,
        {
            let node_id: NodeId = self.eligible_peers[i];
            let ghost pool = self@.pool;
            i += 1;
            match self.pool.get_connection_status(&node_id) {
                ConnectionStatus::Failed | ConnectionStatus::Disconnected => {
                    self.pool.set_status(&node_id, ConnectionStatus::Retrying);
                    proof {
                        self.pool.lemma_wf();
                    }
                    self.task = ManagerTask::Connecting { next: i };
                    return ManagerAction::DialPeer(node_id);
                },
                ConnectionStatus::NotConnected => {
                    self.pool.set_status(&node_id, ConnectionStatus::Connecting);
                    proof {
                        self.pool.lemma_wf();
                    }
                    self.task = ManagerTask::Connecting { next: i };
                    return ManagerAction::DialPeer(node_id);
                },
                _ => {},
            }
        }
        self.clean_connection_pool();
        ManagerAction::Done(Ok(()))
    }

    /// Takes the peers that are not connected any more, and not eligible, out of the pool.
    fn clean_connection_pool(&mut self)
        requires
            old(self).wf(),
            old(self)@.task is Idle,
        ensures
            final(self).wf(),
            final(self)@ == (ManagerView {
                pool: without_stale(old(self)@.pool, old(self)@.eligible),
                ..old(self)@
            }),
    {
        self.pool.drain_stale(self.eligible_peers.as_slice());
        proof {
            self.pool.lemma_wf();
        }
    }

    /// Closes the connections of `conns` from `from` on, and then goes on to dial.
    fn disconnect_unused_connections(&mut self, conns: Vec<PeerConnection>, from: usize) -> (r:
        ManagerAction)
        requires
            old(self).wf(),
            old(self)@.task is Idle,
            from <= conns@.len(),
        ensures
            final(self).wf(),
            (final(self)@, r) == model::disconnect_next(old(self)@, conns@.skip(from as int)),
    {
        if from < conns.len() {
            let conn: PeerConnection = conns[from];
            assert(conns@.skip(from as int).skip(1) =~= conns@.skip(from + 1));
            self.task = ManagerTask::Disconnecting { conns, next: from + 1 };
            ManagerAction::Disconnect(conn)
        } else {
            self.try_connect_eligible_peers(0)
        }
    }

    /// Refreshes the pool: closes the connections that nobody uses, dials the eligible peers
    /// that are not connected, and then forgets the peers that are neither connected nor
    /// eligible. The connections may be closed in any order.
    pub fn refresh_connection_pool(&mut self) -> (r: ManagerAction)
        requires
            old(self).wf(),
            old(self)@.task is Idle,
        ensures
            final(self).wf(),
            exists|unused: Seq<PeerConnection>| #[trigger]
                lists_unused(unused, old(self)@.pool) && (final(self)@, r)
                    == model::disconnect_next(old(self)@, unused),
    {
        let conns: Vec<PeerConnection> = self.pool.get_unused_connections();
        assert(conns@.skip(0) =~= conns@);
        self.disconnect_unused_connections(conns, 0)
    }

    /// Bans a peer: it is not eligible any more.
    fn ban_peer(&mut self, node_id: &NodeId, duration: Duration) -> (r: ManagerAction)
        requires
            old(self).wf(),
            old(self)@.task is Idle,
        ensures
            final(self).wf(),
            (final(self)@, r) == model::ban(old(self)@, *node_id, duration),
    {
        let mut i: usize = 0;
        while i < self.eligible_peers.len()
            invariant_except_break
                forall|j: int| 0 <= j < i ==> self.eligible_peers@[j] != *node_id,
            invariant
                *self == *old(self),
                i <= self.eligible_peers@.len(),
            ensures
                i < self.eligible_peers@.len() ==> self.eligible_peers@[i as int] == *node_id,
                forall|j: int| 0 <= j < i ==> self.eligible_peers@[j] != *node_id,
            decreases self.eligible_peers@.len() - i,
        {
            if self.eligible_peers[i] == *node_id {
                break ;
            }
            i += 1;
        }
        proof {
            lemma_removed(self@.eligible, *node_id);
            self@.eligible.index_of_first_ensures(*node_id);
        }
        if i < self.eligible_peers.len() {
            self.eligible_peers.remove(i);
        }
        self.task = ManagerTask::Banning { node_id: *node_id };
        ManagerAction::BanPeer(*node_id, duration)
    }

    /// Goes on once an action was carried out, or has failed for a cause.
    pub fn resume(&mut self, outcome: Result<(), Cause>) -> (r: ManagerAction)
        requires
            old(self).wf(),
        ensures
            final(self).wf(),
            (final(self)@, r) == model::resume(old(self)@, outcome),
    {
        let mut task: ManagerTask = ManagerTask::Idle;
        core::mem::swap(&mut task, &mut self.task);
        match task {
            ManagerTask::Idle => ManagerAction::Done(Ok(())),
            ManagerTask::AddPeers { node_ids, next, dialled, retry } => {
                if retry && outcome.is_err() {
                    self.pool.remove(&dialled);
                    proof {
                        self.pool.lemma_wf();
                    }
                }
                self.add_eligible_peers(node_ids, next)
            },
            ManagerTask::Disconnecting { conns, next } => self.disconnect_unused_connections(
                conns,
                next,
            ),
            ManagerTask::Connecting { next } => {
                match outcome {
                    Ok(()) => self.try_connect_eligible_peers(next),
                    Err(cause) => ManagerAction::Done(
                        Err(ConnectivityError::ConnectionManagerError(cause)),
                    ),
                }
            },
            ManagerTask::Banning { node_id } => {
                match outcome {
                    Ok(()) => {
                        self.publish_event(ConnectivityEvent::PeerBanned(node_id));
                        if self.pool.contains(&node_id) {
                            self.task = ManagerTask::DroppingBanned { node_id };
                            ManagerAction::DisconnectPeer(node_id)
                        } else {
                            ManagerAction::Done(Ok(()))
                        }
                    },
                    Err(cause) => ManagerAction::Done(
                        Err(ConnectivityError::PeerManagerError(cause)),
                    ),
                }
            },
            ManagerTask::DroppingBanned { node_id } => {
                match outcome {
                    Ok(()) => {
                        self.pool.set_status(&node_id, ConnectionStatus::Disconnected);
                        proof {
                            self.pool.lemma_wf();
                        }
                        ManagerAction::Done(Ok(()))
                    },
                    Err(cause) => ManagerAction::Done(
                        Err(ConnectivityError::ConnectionManagerError(cause)),
                    ),
                }
            },
        }
    }
}

/// Whether a selection can be answered: there are as many connections as are asked for by
/// distance, and the random choice is not from more than it can handle.
pub open spec fn can_select(pool: PoolView, selection: ConnectivitySelection) -> bool {
    match selection {
        ConnectivitySelection::RandomNodes(n, exclude) => selectable_peers(
            pool,
            exclude@,
        ).len() <= u32::MAX || n < selectable_peers(pool, exclude@).len(),
        ConnectivitySelection::ClosestTo(node_id, n) => n <= selectable_peers(
            pool,
            Seq::empty(),
        ).len(),
    }
}

/// Whether `conns` is an answer to a selection.
pub open spec fn answers_selection(
    conns: Seq<PeerConnection>,
    pool: PoolView,
    selection: ConnectivitySelection,
) -> bool {
    match selection {
        ConnectivitySelection::RandomNodes(n, exclude) => random_choice(
            conns,
            pool,
            n as nat,
            exclude@,
        ),
        ConnectivitySelection::ClosestTo(node_id, n) => closest_choice(
            conns,
            pool,
            *node_id,
            n as nat,
            Seq::empty(),
        ),
    }
}

/// The connection to a peer, if it is open.
pub open spec fn open_connection(pool: PoolView, node_id: NodeId) -> Option<PeerConnection> {
    match connection_of(pool, node_id) {
        Some(conn) => if conn.connected {
            Some(conn)
        } else {
            None
        },
        None => None,
    }
}

impl ConnectivityManagerActor {
    /// Whether the manager can answer a selection now.
    pub fn can_select(&self, selection: &ConnectivitySelection) -> (r: bool)
        requires
            self.wf(),
        ensures
            r == can_select(self@.pool, *selection),
    {
        let none: Vec<NodeId> = Vec::new();
        match selection {
            ConnectivitySelection::RandomNodes(n, exclude) => {
                let count: usize = select_closest(
                    &self.pool,
                    &NodeId { key: 0 },
                    exclude.as_slice(),
                ).len();
                count <= u32::MAX as usize || *n < count
            },
            ConnectivitySelection::ClosestTo(node_id, n) => {
                *n <= select_closest(&self.pool, &**node_id, none.as_slice()).len()
            },
        }
    }

    /// The connections that a selection asks for.
    pub fn select_connections(&self, selection: &ConnectivitySelection) -> (r: Vec<PeerConnection>)
        requires
            self.wf(),
            can_select(self@.pool, *selection),
        ensures
            answers_selection(r@, self@.pool, *selection),
    {
        match selection {
            ConnectivitySelection::RandomNodes(n, exclude) => {
                let conns: Vec<&PeerConnection> = select_random_nodes(
                    &self.pool,
                    *n,
                    exclude.as_slice(),
                );
                let r: Vec<PeerConnection> = first_connections(&conns, conns.len());
                assert(r@ =~= conns@.unref());
                r
            },
            ConnectivitySelection::ClosestTo(node_id, n) => {
                let none: Vec<NodeId> = Vec::new();
                let conns: Vec<&PeerConnection> = select_closest(
                    &self.pool,
                    &**node_id,
                    none.as_slice(),
                );
                proof {
                    lemma_closest_prefix(
                        conns@,
                        self.pool@,
                        **node_id,
                        *n as int,
                        Seq::<NodeId>::empty(),
                    );
                }
                first_connections(&conns, *n)
            },
        }
    }

    /// Handles a request. A selection must be one that can be answered.
    pub fn handle_request(&mut self, req: ConnectivityRequest) -> (r: ManagerAction)
        requires
            old(self).wf(),
            old(self)@.task is Idle,
            match req {
                ConnectivityRequest::SelectConnections(selection) => can_select(
                    old(self)@.pool,
                    selection,
                ),
                _ => true,
            },
        ensures
            final(self).wf(),
            match req {
                ConnectivityRequest::AddEligiblePeers(node_ids) => (final(self)@, r)
                    == model::add_next(old(self)@, node_ids@),
                ConnectivityRequest::SelectConnections(selection) => {
                    &&& final(self)@ == old(self)@
                    &&& r matches ManagerAction::Reply(ConnectivityReply::Connections(conns))
                    &&& answers_selection(conns@, old(self)@.pool, selection)
                },
                ConnectivityRequest::GetConnection(node_id) => {
                    &&& final(self)@ == old(self)@
                    &&& r == ManagerAction::Reply(
                        ConnectivityReply::Connection(
                            open_connection(old(self)@.pool, *node_id),
                        ),
                    )
                },
                ConnectivityRequest::GetAll => {
                    &&& final(self)@ == old(self)@
                    &&& r matches ManagerAction::Reply(ConnectivityReply::States(states))
                    &&& lists_entries(states@, old(self)@.pool)
                },
                ConnectivityRequest::BanPeer(node_id, duration) => (final(self)@, r) == model::ban(
                    old(self)@,
                    *node_id,
                    duration,
                ),
            },
    {
        match req {
            ConnectivityRequest::AddEligiblePeers(node_ids) => {
                assert(node_ids@.skip(0) =~= node_ids@);
                self.add_eligible_peers(node_ids, 0)
            },
            ConnectivityRequest::SelectConnections(selection) => {
                ManagerAction::Reply(
                    ConnectivityReply::Connections(self.select_connections(&selection)),
                )
            },
            ConnectivityRequest::GetConnection(node_id) => {
                let conn: Option<PeerConnection> = match self.pool.get_connection(&*node_id) {
                    Some(conn) => if conn.is_connected() {
                        Some(conn)
                    } else {
                        None
                    },
                    None => None,
                };
                ManagerAction::Reply(ConnectivityReply::Connection(conn))
            },
            ConnectivityRequest::GetAll => ManagerAction::Reply(
                ConnectivityReply::States(self.pool.all()),
            ),
            ConnectivityRequest::BanPeer(node_id, duration) => self.ban_peer(&*node_id, duration),
        }
    }

    /// Records what the transport reports of the connection to a peer: whether it is open, and
    /// whether anybody uses it. The surrounding program does so before it hands over an event,
    /// a request or a refresh.
    pub fn record_liveness(&mut self, node_id: &NodeId, connected: bool, in_use: bool)
        requires
            old(self).wf(),
        ensures
            final(self).wf(),
            final(self)@ == (ManagerView {
                pool: with_liveness(old(self)@.pool, *node_id, connected, in_use),
                ..old(self)@
            }),
    {
        self.pool.record_liveness(node_id, connected, in_use);
        proof {
            self.pool.lemma_wf();
        }
    }

    /// Takes the events that were published since the last time, the oldest first.
    pub fn take_events(&mut self) -> (r: Vec<ConnectivityEvent>)
        requires
            old(self).wf(),
        ensures
            final(self).wf(),
            r@ == old(self)@.events,
            final(self)@ == (ManagerView { events: Seq::empty(), ..old(self)@ }),
    {
        let mut events: Vec<ConnectivityEvent> = Vec::new();
        core::mem::swap(&mut events, &mut self.events);
        events
    }

    /// How well the node is connected.
    pub fn status(&self) -> (r: ConnectivityStatus)
        ensures
            r == self@.status,
    {
        self.status
    }

    /// Whether the manager can take the next request.
    pub fn is_idle(&self) -> (r: bool)
        ensures
            r == (self@.task is Idle),
    {
        match self.task {
            ManagerTask::Idle => true,
            _ => false,
        }
    }

    /// The peers that the manager keeps track of.
    pub fn pool(&self) -> (r: &ConnectionPool)
        requires
            self.wf(),
        ensures
            r.wf(),
            r@ == self@.pool,
    {
        &self.pool
    }

    /// The peers to which connections are to be kept.
    pub fn eligible_peers(&self) -> (r: &[NodeId])
        ensures
            r@ == self@.eligible,
    {
        self.eligible_peers.as_slice()
    }

    /// What the manager is configured with.
    pub fn config(&self) -> (r: &ConnectivityConfig)
        ensures
            *r == self@.config,
    {
        &self.config
    }
}

/// Copies of the first `n` connections.
fn first_connections(conns: &Vec<&PeerConnection>, n: usize) -> (r: Vec<PeerConnection>)
    requires
        n <= conns@.len(),
    ensures
        r@ == conns@.unref().take(n as int),
{
    let mut copies: Vec<PeerConnection> = Vec::new();
    let mut i: usize = 0;
    while i < n
        invariant
            i <= n <= conns@.len(),
            copies@ == conns@.unref().take(i as int),
        decreases n - i,
    {
        copies.push(*conns[i]);
        i += 1;
    }
    copies
}

pub(crate) proof fn lemma_removed(ids: Seq<NodeId>, id: NodeId)
    requires
        ids.no_duplicates(),
    ensures
        ids.remove_value(id).no_duplicates(),
        forall|other: NodeId| #[trigger]
            ids.remove_value(id).contains(other) <==> other != id && ids.contains(other),
{
    ids.index_of_first_ensures(id);
    let left = ids.remove_value(id);
    match ids.index_of_first(id) {
        Some(i) => {
            assert forall|other: NodeId| #[trigger]
                left.contains(other) <==> other != id && ids.contains(other) by {
                if left.contains(other) {
                    let j = choose|j: int| 0 <= j < left.len() && left[j] == other;
                    let k = if j < i {
                        j
                    } else {
                        j + 1
                    };
                    assert(ids[k] == other);
                }
                if other != id && ids.contains(other) {
                    let k = choose|k: int| 0 <= k < ids.len() && ids[k] == other;
                    let j = if k < i {
                        k
                    } else {
                        k - 1
                    };
                    assert(left[j] == other);
                }
            }
        },
        None => {},
    }
}

proof fn lemma_enlisted(s: ManagerView, node_id: NodeId)
    requires
        s.eligible.no_duplicates(),
    ensures
        model::enlist(s, node_id).eligible.no_duplicates(),
        model::enlist(s, node_id).eligible.contains(node_id),
{
    let t = model::enlist(s, node_id);
    if !s.eligible.contains(node_id) {
        assert(t.eligible[s.eligible.len() as int] == node_id);
    }
}

} // verus!
