//! What the connectivity manager does, as functions from one state to the next.
use std::time::Duration;
use vstd::prelude::*;

use crate::connection_pool::{
    connected_peers, connection_of, failed_peers, pool_wf, status_of, with_connection, with_peer,
    with_status, without_stale, ConnectionStatus, PoolView,
};
use crate::manager::{ConnectionManagerEvent, ConnectivityConfig, ConnectivityStatus, ManagerAction};
use crate::node_id::NodeId;
use crate::peer::PeerConnection;
use crate::requester::{Cause, ConnectivityError, ConnectivityEvent};

verus! {

/// What the manager is in the middle of.
pub enum TaskView {
    Idle,
    /// A peer is being dialled because it became eligible, with `rest` still to come. `retry`
    /// says whether connecting to it had failed before.
    AddPeers { rest: Seq<NodeId>, dialled: NodeId, retry: bool },
    /// A connection that nobody uses is being closed, with `conns` still to come.
    Disconnecting { conns: Seq<PeerConnection> },
    /// An eligible peer is being dialled, and those from `next` on are still to come.
    Connecting { next: int },
    /// A peer is being marked as banned.
    Banning { node_id: NodeId },
    /// The connection to a banned peer is being closed.
    DroppingBanned { node_id: NodeId },
}

/// The state of the manager.
pub struct ManagerView {
    pub config: ConnectivityConfig,
    pub status: ConnectivityStatus,
    /// The peers to which connections are to be kept.
    pub eligible: Seq<NodeId>,
    pub pool: PoolView,
    /// The events that were published and not taken yet.
    pub events: Seq<ConnectivityEvent>,
    pub task: TaskView,
}

/// What holds of every state of the manager: no peer is eligible twice, and a task has not lost
/// what it has achieved so far.
pub open spec fn view_wf(s: ManagerView) -> bool {
    &&& pool_wf(s.pool)
    &&& s.eligible.no_duplicates()
    &&& task_wf(s)
}

pub open spec fn task_wf(s: ManagerView) -> bool {
    match s.task {
        TaskView::Idle => true,
        TaskView::AddPeers { rest, dialled, retry } => {
            &&& s.eligible.contains(dialled)
            &&& status_of(s.pool, dialled) == if retry {
                ConnectionStatus::Retrying
            } else {
                ConnectionStatus::Connecting
            }
        },
        TaskView::Disconnecting { conns } => true,
        TaskView::Connecting { next } => {
            &&& 0 < next <= s.eligible.len()
            &&& settled_until(s.eligible, s.pool, next)
        },
        TaskView::Banning { node_id } => !s.eligible.contains(node_id),
        TaskView::DroppingBanned { node_id } => {
            &&& !s.eligible.contains(node_id)
            &&& s.pool.contains_key(node_id)
        },
    }
}

/// The first `n` eligible peers are connected, or on the way to it.
pub open spec fn settled_until(eligible: Seq<NodeId>, pool: PoolView, n: int) -> bool {
    forall|i: int| 0 <= i < n ==> refresh_status(status_of(pool, #[trigger] eligible[i])) is None
}

/// The state with an event published.
pub open spec fn publish(s: ManagerView, event: ConnectivityEvent) -> ManagerView {
    ManagerView { events: s.events.push(event), ..s }
}

/// The event that tells of a new connectivity status.
pub open spec fn status_event(status: ConnectivityStatus, n: usize) -> ConnectivityEvent {
    match status {
        ConnectivityStatus::Initializing => ConnectivityEvent::ConnectivityStateInitialized,
        ConnectivityStatus::Online => ConnectivityEvent::ConnectivityStateReady(n),
        ConnectivityStatus::Degraded => ConnectivityEvent::ConnectivityStateDegraded(n),
        ConnectivityStatus::Offline => ConnectivityEvent::ConnectivityStateOffline,
    }
}

/// Whether the connectivity can go from one status to another.
pub open spec fn may_follow(status: ConnectivityStatus, next: ConnectivityStatus) -> bool {
    &&& next != ConnectivityStatus::Initializing
    &&& !(status == ConnectivityStatus::Initializing && next == ConnectivityStatus::Degraded)
}

/// The state once the connectivity is `next`: a change is published.
pub open spec fn transition(s: ManagerView, next: ConnectivityStatus, n: usize) -> ManagerView {
    if s.status == next {
        s
    } else {
        ManagerView { status: next, ..publish(s, status_event(next, n)) }
    }
}

/// The connectivity status that the pool calls for, if it calls for one.
pub open spec fn called_for(s: ManagerView) -> Option<ConnectivityStatus> {
    let n = connected_peers(s.pool).len();
    if n >= s.config.min_desired_peers {
        Some(ConnectivityStatus::Online)
    } else if n > 0 {
        if s.status == ConnectivityStatus::Initializing {
            None
        } else {
            Some(ConnectivityStatus::Degraded)
        }
    } else if failed_peers(s.pool).len() > 0 {
        Some(ConnectivityStatus::Offline)
    } else {
        None
    }
}

/// The state after the connectivity status was brought up to date.
pub open spec fn check_status(s: ManagerView) -> ManagerView {
    match called_for(s) {
        Some(status) => transition(s, status, connected_peers(s.pool).len() as usize),
        None => s,
    }
}

/// The state once the manager has started.
pub open spec fn start(s: ManagerView) -> ManagerView {
    check_status(publish(s, ConnectivityEvent::ConnectivityStateInitialized))
}

/// The event that tells of a peer whose status goes from `old_status` to `new_status`, in the
/// state that it has then.
pub open spec fn peer_event(
    s: ManagerView,
    node_id: NodeId,
    old_status: ConnectionStatus,
    new_status: ConnectionStatus,
) -> Option<ConnectivityEvent> {
    let eligible = s.eligible.contains(node_id);
    match new_status {
        ConnectionStatus::Connected => match connection_of(s.pool, node_id) {
            Some(conn) => Some(ConnectivityEvent::PeerConnected(conn)),
            None => None,
        },
        ConnectionStatus::Disconnected => if old_status != ConnectionStatus::Connected {
            None
        } else if eligible {
            Some(ConnectivityEvent::EligiblePeerDisconnected(node_id))
        } else {
            Some(ConnectivityEvent::PeerDisconnected(node_id))
        },
        ConnectionStatus::Failed => if eligible {
            Some(ConnectivityEvent::EligiblePeerConnectFailed(node_id))
        } else {
            Some(ConnectivityEvent::PeerConnectFailed(node_id))
        },
        _ => None,
    }
}

/// The state once a peer has a new status: it is published, and the connectivity status is
/// brought up to date.
pub open spec fn peer_status_changed(
    s: ManagerView,
    node_id: NodeId,
    new_status: ConnectionStatus,
) -> ManagerView {
    let old_status = status_of(s.pool, node_id);
    let t = ManagerView { pool: with_status(s.pool, node_id, new_status), ..s };
    match peer_event(t, node_id, old_status, new_status) {
        Some(event) => check_status(publish(t, event)),
        None => check_status(t),
    }
}

/// The state after an event of the connection manager.
pub open spec fn handle_event(s: ManagerView, event: ConnectionManagerEvent) -> ManagerView {
    match event {
        ConnectionManagerEvent::PeerDisconnected(node_id) => peer_status_changed(
            s,
            node_id,
            ConnectionStatus::Disconnected,
        ),
        ConnectionManagerEvent::PeerConnected(conn) => peer_status_changed(
            check_status(ManagerView { pool: with_connection(s.pool, conn), ..s }),
            conn.peer_node_id,
            ConnectionStatus::Connected,
        ),
        ConnectionManagerEvent::PeerConnectFailed(node_id) => peer_status_changed(
            s,
            node_id,
            ConnectionStatus::Failed,
        ),
        ConnectionManagerEvent::Other => s,
    }
}

/// The status of a peer that is dialled because it became eligible; none if it is not dialled.
pub open spec fn add_status(status: ConnectionStatus) -> Option<ConnectionStatus> {
    match status {
        ConnectionStatus::Failed => Some(ConnectionStatus::Retrying),
        ConnectionStatus::NotConnected | ConnectionStatus::Disconnected => Some(
            ConnectionStatus::Connecting,
        ),
        _ => None,
    }
}

/// The state with `node_id` among the eligible peers, and in the pool.
pub open spec fn enlist(s: ManagerView, node_id: NodeId) -> ManagerView {
    ManagerView {
        eligible: if s.eligible.contains(node_id) {
            s.eligible
        } else {
            s.eligible.push(node_id)
        },
        pool: with_peer(s.pool, node_id),
        ..s
    }
}

/// The state with the first of `rest` that has to be dialled about to be dialled, and all up to
/// it eligible.
pub open spec fn add_next(s: ManagerView, rest: Seq<NodeId>) -> (ManagerView, ManagerAction)
    decreases rest.len(),
{
    if rest.len() == 0 {
        (ManagerView { task: TaskView::Idle, ..s }, ManagerAction::Done(Ok(())))
    } else {
        let node_id = rest[0];
        let t = enlist(s, node_id);
        match add_status(status_of(t.pool, node_id)) {
            Some(status) => (
                ManagerView {
                    pool: with_status(t.pool, node_id, status),
                    task: TaskView::AddPeers {
                        rest: rest.skip(1),
                        dialled: node_id,
                        retry: status == ConnectionStatus::Retrying,
                    },
                    ..t
                },
                ManagerAction::DialPeer(node_id),
            ),
            None => add_next(t, rest.skip(1)),
        }
    }
}

/// The status of an eligible peer that is dialled when the pool is refreshed; none if it is not
/// dialled.
pub open spec fn refresh_status(status: ConnectionStatus) -> Option<ConnectionStatus> {
    match status {
        ConnectionStatus::Failed | ConnectionStatus::Disconnected => Some(
            ConnectionStatus::Retrying,
        ),
        ConnectionStatus::NotConnected => Some(ConnectionStatus::Connecting),
        _ => None,
    }
}

/// The state with the first eligible peer from `next` on that has to be dialled about to be
/// dialled; with the pool cleaned if there is none.
pub open spec fn connect_next(s: ManagerView, next: int) -> (ManagerView, ManagerAction)
    decreases s.eligible.len() - next,
{
    if next >= s.eligible.len() {
        (
            ManagerView {
                pool: without_stale(s.pool, s.eligible),
                task: TaskView::Idle,
                ..s
            },
            ManagerAction::Done(Ok(())),
        )
    } else {
        let node_id = s.eligible[next];
        match refresh_status(status_of(s.pool, node_id)) {
            Some(status) => (
                ManagerView {
                    pool: with_status(s.pool, node_id, status),
                    task: TaskView::Connecting { next: next + 1 },
                    ..s
                },
                ManagerAction::DialPeer(node_id),
            ),
            None => connect_next(s, next + 1),
        }
    }
}

/// The state with the first of `conns` about to be closed; with the eligible peers being dialled
/// if there is none.
pub open spec fn disconnect_next(s: ManagerView, conns: Seq<PeerConnection>) -> (
    ManagerView,
    ManagerAction,
) {
    if conns.len() == 0 {
        connect_next(s, 0)
    } else {
        (
            ManagerView { task: TaskView::Disconnecting { conns: conns.skip(1) }, ..s },
            ManagerAction::Disconnect(conns[0]),
        )
    }
}

/// The state with a peer about to be banned: it is not eligible any more.
pub open spec fn ban(s: ManagerView, node_id: NodeId, duration: Duration) -> (
    ManagerView,
    ManagerAction,
) {
    (
        ManagerView {
            eligible: s.eligible.remove_value(node_id),
            task: TaskView::Banning { node_id },
            ..s
        },
        ManagerAction::BanPeer(node_id, duration),
    )
}

/// What came of an action: that it was carried out, or what made it fail.
pub type Outcome = Result<(), Cause>;

/// The end of a task.
pub open spec fn finish(s: ManagerView, result: Result<(), ConnectivityError>) -> (
    ManagerView,
    ManagerAction,
) {
    (ManagerView { task: TaskView::Idle, ..s }, ManagerAction::Done(result))
}

/// The state, and what is to be done next, once an action was carried out or has failed.
pub open spec fn resume(s: ManagerView, outcome: Outcome) -> (ManagerView, ManagerAction) {
    let idle = ManagerView { task: TaskView::Idle, ..s };
    match s.task {
        TaskView::Idle => finish(idle, Ok(())),
        TaskView::AddPeers { rest, dialled, retry } => if outcome is Err && retry {
            add_next(ManagerView { pool: s.pool.remove(dialled), ..idle }, rest)
        } else {
            add_next(idle, rest)
        },
        TaskView::Disconnecting { conns } => disconnect_next(idle, conns),
        TaskView::Connecting { next } => if outcome is Ok {
            connect_next(idle, next)
        } else {
            finish(idle, Err(ConnectivityError::ConnectionManagerError(outcome->Err_0)))
        },
        TaskView::Banning { node_id } => if outcome is Err {
            finish(idle, Err(ConnectivityError::PeerManagerError(outcome->Err_0)))
        } else if s.pool.contains_key(node_id) {
            (
                ManagerView {
                    task: TaskView::DroppingBanned { node_id },
                    ..publish(idle, ConnectivityEvent::PeerBanned(node_id))
                },
                ManagerAction::DisconnectPeer(node_id),
            )
        } else {
            finish(publish(idle, ConnectivityEvent::PeerBanned(node_id)), Ok(()))
        },
        TaskView::DroppingBanned { node_id } => if outcome is Ok {
            finish(
                ManagerView {
                    pool: with_status(s.pool, node_id, ConnectionStatus::Disconnected),
                    ..idle
                },
                Ok(()),
            )
        } else {
            finish(idle, Err(ConnectivityError::ConnectionManagerError(outcome->Err_0)))
        },
    }
}

} // verus!
