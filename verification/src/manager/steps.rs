//! What each step of the manager does to its state, and what it asks for, field by field.
use std::time::Duration;
use vstd::prelude::*;

use crate::connection_pool::{
    connected_peers, failed_peers, ConnectionStatus, PeerConnectionState, PoolView,
};
use crate::manager::laws::{actions, all_succeed, dials, law_refresh_dials, run};
use crate::manager::model::{
    add_next, ban, check_status, connect_next, disconnect_next, handle_event, resume, start,
    view_wf, ManagerView, Outcome, TaskView,
};
use crate::manager::order::{due, law_refresh_succeeds};
use crate::manager::{
    answers_selection, can_select, open_connection, ConnectionManagerEvent, ConnectivityStatus,
    ManagerAction,
};
use crate::node_id::NodeId;
use crate::peer::PeerConnection;
use crate::requester::{ConnectivityError, ConnectivityEvent, ConnectivitySelection};
use crate::selection::selectable_peers;

verus! {

/// What is published when the connectivity goes from one status to another, with `n` peers
/// connected: nothing if it stays.
pub open spec fn told(
    before: ConnectivityStatus,
    after: ConnectivityStatus,
    n: nat,
) -> Seq<ConnectivityEvent> {
    if before == after {
        Seq::empty()
    } else if after == ConnectivityStatus::Online {
        seq![ConnectivityEvent::ConnectivityStateReady(n as usize)]
    } else if after == ConnectivityStatus::Degraded {
        seq![ConnectivityEvent::ConnectivityStateDegraded(n as usize)]
    } else {
        seq![ConnectivityEvent::ConnectivityStateOffline]
    }
}

/// Bringing the connectivity status up to date looks at how many peers are connected: if there are
/// enough, the node is online; if there are some, it is degraded, unless it is initializing; if
/// there is none and some have failed, it is offline; otherwise the status stays. A change is
/// published, and nothing else changes.
pub proof fn law_status_by_count(s: ManagerView)
    ensures
        ({
            let t = check_status(s);
            let n = connected_peers(s.pool).len();
            let min = s.config.min_desired_peers;
            &&& n >= min ==> t.status == ConnectivityStatus::Online
            &&& 0 < n < min && s.status == ConnectivityStatus::Initializing ==> t.status == s.status
            &&& 0 < n < min && s.status != ConnectivityStatus::Initializing ==> t.status
                == ConnectivityStatus::Degraded
            &&& n == 0 && n < min && failed_peers(s.pool).len() > 0 ==> t.status
                == ConnectivityStatus::Offline
            &&& n == 0 && n < min && failed_peers(s.pool).len() == 0 ==> t.status == s.status
            &&& t.events == s.events + told(s.status, t.status, n)
            &&& t.pool == s.pool && t.eligible == s.eligible && t.task == s.task && t.config
                == s.config
        }),
{
    let t = check_status(s);
    assert(t.events =~= s.events + told(s.status, t.status, connected_peers(s.pool).len()));
}

/// Starting publishes that the manager is there, and then a change of the connectivity, if the pool
/// calls for one.
pub proof fn law_start(s: ManagerView)
    ensures
        ({
            let t = start(s);
            let n = connected_peers(s.pool).len();
            &&& t.events == s.events.push(ConnectivityEvent::ConnectivityStateInitialized) + told(
                s.status,
                t.status,
                n,
            )
            &&& status_fits(s.status, t)
            &&& t.pool == s.pool && t.eligible == s.eligible && t.task == s.task && t.config
                == s.config
        }),
{
    law_status_by_count(
        ManagerView {
            events: s.events.push(ConnectivityEvent::ConnectivityStateInitialized),
            ..s
        },
    );
}

/// Whether the pool has a peer down as connected.
pub open spec fn was_connected(s: ManagerView, id: NodeId) -> bool {
    s.pool.contains_key(id) && s.pool[id].status == ConnectionStatus::Connected
}

/// The pool of `t` differs from that of `s` in the status of one peer, which is `status` now.
pub open spec fn only_status_set(
    s: ManagerView,
    t: ManagerView,
    id: NodeId,
    status: ConnectionStatus,
) -> bool {
    &&& t.pool.contains_key(id)
    &&& t.pool[id].node_id == id
    &&& t.pool[id].status == status
    &&& s.pool.contains_key(id) ==> t.pool[id].connection == s.pool[id].connection
    &&& !s.pool.contains_key(id) ==> t.pool[id].connection is None
    &&& forall|other: NodeId|
        #![trigger t.pool.contains_key(other)]
        #![trigger s.pool.contains_key(other)]
        other != id ==> t.pool.contains_key(other) == s.pool.contains_key(other)
    &&& forall|other: NodeId|
        #![trigger t.pool[other]]
        #![trigger s.pool[other]]
        other != id && s.pool.contains_key(other) ==> t.pool[other] == s.pool[other]
}

/// The connectivity status is the one that the pool calls for: the pool of the same state.
pub open spec fn status_fits(before: ConnectivityStatus, t: ManagerView) -> bool {
    let n = connected_peers(t.pool).len();
    let min = t.config.min_desired_peers;
    &&& n >= min ==> t.status == ConnectivityStatus::Online
    &&& 0 < n < min && before == ConnectivityStatus::Initializing ==> t.status == before
    &&& 0 < n < min && before != ConnectivityStatus::Initializing ==> t.status
        == ConnectivityStatus::Degraded
    &&& n == 0 && n < min && failed_peers(t.pool).len() > 0 ==> t.status
        == ConnectivityStatus::Offline
    &&& n == 0 && n < min && failed_peers(t.pool).len() == 0 ==> t.status == before
}

/// A peer of which the connection manager reports that it is disconnected has that status from
/// then on, and only that. If it was connected, that is published, as of an eligible peer if it is
/// one, and then a change of the connectivity.
pub proof fn law_peer_disconnected(s: ManagerView, id: NodeId)
    requires
        view_wf(s),
    ensures
        ({
            let t = handle_event(s, ConnectionManagerEvent::PeerDisconnected(id));
            let n = connected_peers(t.pool).len();
            &&& only_status_set(s, t, id, ConnectionStatus::Disconnected)
            &&& status_fits(s.status, t)
            &&& !was_connected(s, id) ==> t.events == s.events + told(s.status, t.status, n)
            &&& was_connected(s, id) && s.eligible.contains(id) ==> t.events == s.events.push(
                ConnectivityEvent::EligiblePeerDisconnected(id),
            ) + told(s.status, t.status, n)
            &&& was_connected(s, id) && !s.eligible.contains(id) ==> t.events == s.events.push(
                ConnectivityEvent::PeerDisconnected(id),
            ) + told(s.status, t.status, n)
            &&& t.eligible == s.eligible && t.task == s.task && t.config == s.config
        }),
{
    let t = handle_event(s, ConnectionManagerEvent::PeerDisconnected(id));
    let e = if s.eligible.contains(id) {
        ConnectivityEvent::EligiblePeerDisconnected(id)
    } else {
        ConnectivityEvent::PeerDisconnected(id)
    };
    let before = if was_connected(s, id) {
        ManagerView { pool: t.pool, events: s.events.push(e), ..s }
    } else {
        ManagerView { pool: t.pool, ..s }
    };
    assert(t == check_status(before));
    law_status_by_count(before);
}

/// A peer of which the connection manager reports that it cannot be connected to has failed from
/// then on, and only that changes in the pool. It is always published, as of an eligible peer if it
/// is one, and then a change of the connectivity.
pub proof fn law_peer_connect_failed(s: ManagerView, id: NodeId)
    requires
        view_wf(s),
    ensures
        ({
            let t = handle_event(s, ConnectionManagerEvent::PeerConnectFailed(id));
            let n = connected_peers(t.pool).len();
            &&& only_status_set(s, t, id, ConnectionStatus::Failed)
            &&& status_fits(s.status, t)
            &&& s.eligible.contains(id) ==> t.events == s.events.push(
                ConnectivityEvent::EligiblePeerConnectFailed(id),
            ) + told(s.status, t.status, n)
            &&& !s.eligible.contains(id) ==> t.events == s.events.push(
                ConnectivityEvent::PeerConnectFailed(id),
            ) + told(s.status, t.status, n)
            &&& t.eligible == s.eligible && t.task == s.task && t.config == s.config
        }),
{
    let t = handle_event(s, ConnectionManagerEvent::PeerConnectFailed(id));
    let e = if s.eligible.contains(id) {
        ConnectivityEvent::EligiblePeerConnectFailed(id)
    } else {
        ConnectivityEvent::PeerConnectFailed(id)
    };
    let before = ManagerView { pool: t.pool, events: s.events.push(e), ..s };
    assert(t == check_status(before));
    law_status_by_count(before);
}

/// A peer that connects has its new connection and is down as connected; every other entry stays.
/// A change of the connectivity is published, and then the peer with its connection.
pub proof fn law_peer_connected(s: ManagerView, conn: PeerConnection)
    requires
        view_wf(s),
    ensures
        ({
            let t = handle_event(s, ConnectionManagerEvent::PeerConnected(conn));
            let n = connected_peers(t.pool).len();
            &&& t.pool == s.pool.insert(
                conn.peer_node_id,
                PeerConnectionState {
                    node_id: conn.peer_node_id,
                    connection: Some(conn),
                    status: ConnectionStatus::Connected,
                },
            )
            &&& status_fits(s.status, t)
            &&& t.events == (s.events + told(s.status, t.status, n)).push(
                ConnectivityEvent::PeerConnected(conn),
            )
            &&& t.eligible == s.eligible && t.task == s.task && t.config == s.config
        }),
{
    let id = conn.peer_node_id;
    let t = handle_event(s, ConnectionManagerEvent::PeerConnected(conn));
    let first = ManagerView {
        pool: s.pool.insert(
            id,
            PeerConnectionState {
                node_id: id,
                connection: Some(conn),
                status: if conn.connected {
                    ConnectionStatus::Connected
                } else {
                    ConnectionStatus::Disconnected
                },
            },
        ),
        ..s
    };
    let u = check_status(first);
    let second = ManagerView {
        pool: t.pool,
        events: u.events.push(ConnectivityEvent::PeerConnected(conn)),
        ..u
    };
    assert(t.pool =~= s.pool.insert(
        id,
        PeerConnectionState {
            node_id: id,
            connection: Some(conn),
            status: ConnectionStatus::Connected,
        },
    ));
    assert(t == check_status(second));
    assert(connected_peers(t.pool) =~= connected_peers(first.pool));
    assert(failed_peers(t.pool) =~= failed_peers(first.pool));
    law_status_by_count(first);
    law_status_by_count(second);
    assert(t.status == u.status);
    assert(t.events =~= second.events);
}

proof fn lemma_event_wf(s: ManagerView, event: ConnectionManagerEvent)
    requires
        view_wf(s),
        s.task is Idle,
    ensures
        view_wf(handle_event(s, event)),
        handle_event(s, event).task is Idle,
{
    match event {
        ConnectionManagerEvent::PeerDisconnected(id) => {
            law_peer_disconnected(s, id);
        },
        ConnectionManagerEvent::PeerConnectFailed(id) => {
            law_peer_connect_failed(s, id);
        },
        ConnectionManagerEvent::PeerConnected(conn) => {
            law_peer_connected(s, conn);
        },
        ConnectionManagerEvent::Other => {},
    }
}

/// An eligible peer whose connection is lost, or to which connecting has failed, is dialled again
/// by the next refresh; one that has connected is not.
pub proof fn law_lost_peer_is_dialled(
    s: ManagerView,
    id: NodeId,
    conn: PeerConnection,
    unused: Seq<PeerConnection>,
    outcomes: Seq<Outcome>,
)
    requires
        view_wf(s),
        s.task is Idle,
        s.eligible.contains(id),
        conn.peer_node_id == id,
        all_succeed(outcomes),
        outcomes.len() >= unused.len() + s.eligible.len(),
    ensures
        dials(
            actions(
                disconnect_next(
                    handle_event(s, ConnectionManagerEvent::PeerDisconnected(id)),
                    unused,
                ),
                outcomes,
            ),
            id,
        ),
        dials(
            actions(
                disconnect_next(
                    handle_event(s, ConnectionManagerEvent::PeerConnectFailed(id)),
                    unused,
                ),
                outcomes,
            ),
            id,
        ),
        !dials(
            actions(
                disconnect_next(
                    handle_event(s, ConnectionManagerEvent::PeerConnected(conn)),
                    unused,
                ),
                outcomes,
            ),
            id,
        ),
{
    law_peer_disconnected(s, id);
    law_peer_connect_failed(s, id);
    law_peer_connected(s, conn);
    lemma_event_wf(s, ConnectionManagerEvent::PeerDisconnected(id));
    lemma_event_wf(s, ConnectionManagerEvent::PeerConnectFailed(id));
    lemma_event_wf(s, ConnectionManagerEvent::PeerConnected(conn));
    law_refresh_dials(
        handle_event(s, ConnectionManagerEvent::PeerDisconnected(id)),
        unused,
        outcomes,
    );
    law_refresh_dials(
        handle_event(s, ConnectionManagerEvent::PeerConnectFailed(id)),
        unused,
        outcomes,
    );
    law_refresh_dials(
        handle_event(s, ConnectionManagerEvent::PeerConnected(conn)),
        unused,
        outcomes,
    );
}

/// An event that does not concern the connectivity changes nothing.
pub proof fn law_other_event(s: ManagerView)
    ensures
        handle_event(s, ConnectionManagerEvent::Other) == s,
{
}

/// A request to add peers that is out of peers is done. Otherwise its first peer becomes eligible,
/// after the others, if it is not. If connecting to it has failed, it is dialled as a retry; if it
/// was never connected, or is not any more, it is dialled as a new peer; and otherwise the request
/// goes on with the rest.
pub proof fn law_add_step(s: ManagerView, rest: Seq<NodeId>)
    requires
        view_wf(s),
        s.task is Idle,
    ensures
        rest.len() == 0 ==> add_next(s, rest) == (s, ManagerAction::Done(Ok(()))),
        rest.len() > 0 ==> ({
            let id = rest[0];
            let eligible = if s.eligible.contains(id) {
                s.eligible
            } else {
                s.eligible.push(id)
            };
            let connection = if s.pool.contains_key(id) {
                s.pool[id].connection
            } else {
                None
            };
            &&& s.pool.contains_key(id) && s.pool[id].status == ConnectionStatus::Failed
                ==> add_next(s, rest) == (
                ManagerView {
                    eligible,
                    pool: s.pool.insert(
                        id,
                        PeerConnectionState {
                            node_id: id,
                            connection,
                            status: ConnectionStatus::Retrying,
                        },
                    ),
                    task: TaskView::AddPeers { rest: rest.skip(1), dialled: id, retry: true },
                    ..s
                },
                ManagerAction::DialPeer(id),
            )
            &&& !s.pool.contains_key(id) || s.pool[id].status == ConnectionStatus::NotConnected
                || s.pool[id].status == ConnectionStatus::Disconnected ==> add_next(s, rest) == (
                ManagerView {
                    eligible,
                    pool: s.pool.insert(
                        id,
                        PeerConnectionState {
                            node_id: id,
                            connection,
                            status: ConnectionStatus::Connecting,
                        },
                    ),
                    task: TaskView::AddPeers { rest: rest.skip(1), dialled: id, retry: false },
                    ..s
                },
                ManagerAction::DialPeer(id),
            )
            &&& s.pool.contains_key(id) && (s.pool[id].status == ConnectionStatus::Connecting
                || s.pool[id].status == ConnectionStatus::Connected || s.pool[id].status
                == ConnectionStatus::Retrying) ==> add_next(s, rest) == add_next(
                ManagerView { eligible, ..s },
                rest.skip(1),
            )
        }),
{
    if rest.len() > 0 {
        let id = rest[0];
        let t = crate::manager::model::enlist(s, id);
        let connection = if s.pool.contains_key(id) {
            s.pool[id].connection
        } else {
            None
        };
        if s.pool.contains_key(id) {
            assert(s.pool[id].node_id == id);
            assert(t.pool =~= s.pool);
        }
        let retry = PeerConnectionState {
            node_id: id,
            connection,
            status: ConnectionStatus::Retrying,
        };
        let fresh = PeerConnectionState {
            node_id: id,
            connection,
            status: ConnectionStatus::Connecting,
        };
        assert(t.pool.insert(id, retry) =~= s.pool.insert(id, retry));
        assert(t.pool.insert(id, fresh) =~= s.pool.insert(id, fresh));
    }
}

/// A refresh that is out of eligible peers forgets those that have failed or are disconnected and
/// are not eligible, and is done. Otherwise its next peer is dialled: as a retry if it has failed or
/// is disconnected, as a new one if it was never connected; and if it is neither, the refresh goes
/// on with the one after it.
pub proof fn law_connect_step(s: ManagerView, next: int, other: NodeId)
    requires
        view_wf(s),
        s.task is Idle,
        0 <= next <= s.eligible.len(),
    ensures
        next == s.eligible.len() ==> ({
            let (t, action) = connect_next(s, next);
            &&& action == ManagerAction::Done(Ok(()))
            &&& t == ManagerView { pool: t.pool, ..s }
            &&& t.pool.contains_key(other) <==> s.pool.contains_key(other) && !((
            s.pool[other].status == ConnectionStatus::Failed || s.pool[other].status
                == ConnectionStatus::Disconnected) && !s.eligible.contains(other))
            &&& t.pool.contains_key(other) ==> t.pool[other] == s.pool[other]
        }),
        next < s.eligible.len() ==> ({
            let id = s.eligible[next];
            let connection = if s.pool.contains_key(id) {
                s.pool[id].connection
            } else {
                None
            };
            &&& s.pool.contains_key(id) && (s.pool[id].status == ConnectionStatus::Failed
                || s.pool[id].status == ConnectionStatus::Disconnected) ==> connect_next(s, next)
                == (
                ManagerView {
                    pool: s.pool.insert(
                        id,
                        PeerConnectionState {
                            node_id: id,
                            connection,
                            status: ConnectionStatus::Retrying,
                        },
                    ),
                    task: TaskView::Connecting { next: next + 1 },
                    ..s
                },
                ManagerAction::DialPeer(id),
            )
            &&& !s.pool.contains_key(id) || s.pool[id].status == ConnectionStatus::NotConnected
                ==> connect_next(s, next) == (
                ManagerView {
                    pool: s.pool.insert(
                        id,
                        PeerConnectionState {
                            node_id: id,
                            connection,
                            status: ConnectionStatus::Connecting,
                        },
                    ),
                    task: TaskView::Connecting { next: next + 1 },
                    ..s
                },
                ManagerAction::DialPeer(id),
            )
            &&& s.pool.contains_key(id) && (s.pool[id].status == ConnectionStatus::Connecting
                || s.pool[id].status == ConnectionStatus::Connected || s.pool[id].status
                == ConnectionStatus::Retrying) ==> connect_next(s, next) == connect_next(
                s,
                next + 1,
            )
        }),
{
    if next < s.eligible.len() {
        let id = s.eligible[next];
        if s.pool.contains_key(id) {
            assert(s.pool[id].node_id == id);
        }
    } else if s.pool.contains_key(other) {
        assert(s.pool[other].node_id == other);
    }
}

/// A refresh closes the unused connections one by one, without touching the pool, and then dials
/// from the first eligible peer on.
pub proof fn law_disconnect_step(s: ManagerView, conns: Seq<PeerConnection>)
    ensures
        conns.len() > 0 ==> disconnect_next(s, conns) == (
            ManagerView { task: TaskView::Disconnecting { conns: conns.skip(1) }, ..s },
            ManagerAction::Disconnect(conns[0]),
        ),
        conns.len() == 0 ==> disconnect_next(s, conns) == connect_next(s, 0),
{
}

/// What follows when the manager learns what came of an action.
pub proof fn law_resume(s: ManagerView, outcome: Outcome)
    ensures
        ({
            let idle = ManagerView { task: TaskView::Idle, ..s };
            match s.task {
                TaskView::Idle => resume(s, outcome) == (s, ManagerAction::Done(Ok(()))),
                // Only a retry that fails is forgotten.
                TaskView::AddPeers { rest, dialled, retry } => {
                    &&& outcome is Err && retry ==> resume(s, outcome) == add_next(
                        ManagerView { pool: s.pool.remove(dialled), ..idle },
                        rest,
                    )
                    &&& outcome is Ok || !retry ==> resume(s, outcome) == add_next(idle, rest)
                },
                // Whether a connection could be closed does not matter.
                TaskView::Disconnecting { conns } => resume(s, outcome) == disconnect_next(
                    idle,
                    conns,
                ),
                TaskView::Connecting { next } => {
                    &&& outcome is Ok ==> resume(s, outcome) == connect_next(idle, next)
                    &&& outcome matches Err(cause) ==> resume(s, outcome) == (
                        idle,
                        ManagerAction::Done(Err(ConnectivityError::ConnectionManagerError(cause))),
                    )
                },
                TaskView::Banning { node_id } => {
                    &&& outcome matches Err(cause) ==> resume(s, outcome) == (
                        idle,
                        ManagerAction::Done(Err(ConnectivityError::PeerManagerError(cause))),
                    )
                    &&& outcome is Ok && s.pool.contains_key(node_id) ==> resume(s, outcome) == (
                        ManagerView {
                            events: s.events.push(ConnectivityEvent::PeerBanned(node_id)),
                            task: TaskView::DroppingBanned { node_id },
                            ..s
                        },
                        ManagerAction::DisconnectPeer(node_id),
                    )
                    &&& outcome is Ok && !s.pool.contains_key(node_id) ==> resume(s, outcome) == (
                        ManagerView {
                            events: s.events.push(ConnectivityEvent::PeerBanned(node_id)),
                            ..idle
                        },
                        ManagerAction::Done(Ok(())),
                    )
                },
                TaskView::DroppingBanned { node_id } => {
                    &&& outcome matches Err(cause) ==> resume(s, outcome) == (
                        idle,
                        ManagerAction::Done(Err(ConnectivityError::ConnectionManagerError(cause))),
                    )
                    &&& outcome is Ok && s.pool.contains_key(node_id) ==> resume(s, outcome) == (
                        ManagerView {
                            pool: s.pool.insert(
                                node_id,
                                PeerConnectionState {
                                    status: ConnectionStatus::Disconnected,
                                    ..s.pool[node_id]
                                },
                            ),
                            ..idle
                        },
                        ManagerAction::Done(Ok(())),
                    )
                },
            }
        }),
{
}

/// Whichever peer is banned, and whether it is eligible or not, the peer database is the first to
/// be asked, with the peer and the time. From then on the peer is not eligible; the others are, in
/// their order; and nothing else changes before the database answers.
pub proof fn law_ban_starts(s: ManagerView, node_id: NodeId, duration: Duration)
    requires
        view_wf(s),
    ensures
        ban(s, node_id, duration).1 == ManagerAction::BanPeer(node_id, duration),
        ban(s, node_id, duration).0 == (ManagerView {
            eligible: s.eligible.filter(|id: NodeId| id != node_id),
            task: TaskView::Banning { node_id },
            ..s
        }),
{
    let others = |id: NodeId| id != node_id;
    let ids = s.eligible;
    ids.index_of_first_ensures(node_id);
    match ids.index_of_first(node_id) {
        Some(i) => {
            let front = ids.take(i);
            let back = ids.skip(i + 1);
            lemma_filter_all(front, others);
            assert forall|k: int| 0 <= k < back.len() implies others(#[trigger] back[k]) by {
                assert(back[k] == ids[i + 1 + k]);
            }
            lemma_filter_all(back, others);
            assert(ids =~= front.push(node_id) + back);
            Seq::filter_distributes_over_add(front.push(node_id), back, others);
            front.lemma_filter_push(node_id, others);
            assert(ids.remove_value(node_id) =~= front + back);
        },
        None => {
            assert forall|k: int| 0 <= k < ids.len() implies others(#[trigger] ids[k]) by {
                assert(ids.contains(ids[k]));
            }
            lemma_filter_all(ids, others);
        },
    }
}

proof fn lemma_filter_all(ids: Seq<NodeId>, pred: spec_fn(NodeId) -> bool)
    requires
        forall|k: int| 0 <= k < ids.len() ==> pred(#[trigger] ids[k]),
    ensures
        ids.filter(pred) == ids,
    decreases ids.len(),
{
    reveal(Seq::filter);
    if ids.len() > 0 {
        let front = ids.drop_last();
        assert forall|k: int| 0 <= k < front.len() implies pred(#[trigger] front[k]) by {
            assert(front[k] == ids[k]);
        }
        lemma_filter_all(front, pred);
        assert(pred(ids[ids.len() - 1]));
        assert(front.push(ids.last()) =~= ids);
    } else {
        assert(ids.filter(pred) =~= ids);
    }
}

/// All that a ban asks for: to mark the peer as banned for the time; then, if that was done and the
/// pool holds the peer, to close the connection to it; and then nothing more. A failure comes out
/// with its cause.
pub proof fn law_ban_actions(
    s: ManagerView,
    node_id: NodeId,
    duration: Duration,
    outcomes: Seq<Outcome>,
)
    requires
        view_wf(s),
        outcomes.len() >= 2,
    ensures
        ({
            let all = actions(ban(s, node_id, duration), outcomes);
            let first = ManagerAction::BanPeer(node_id, duration);
            let then_close = ManagerAction::DisconnectPeer(node_id);
            &&& outcomes[0] matches Err(cause) ==> all == seq![
                first,
                ManagerAction::Done(Err(ConnectivityError::PeerManagerError(cause))),
            ]
            &&& outcomes[0] is Ok && !s.pool.contains_key(node_id) ==> all == seq![
                first,
                ManagerAction::Done(Ok(())),
            ]
            &&& outcomes[0] is Ok && s.pool.contains_key(node_id) && outcomes[1] is Ok ==> all
                == seq![first, then_close, ManagerAction::Done(Ok(()))]
            &&& outcomes[0] is Ok && s.pool.contains_key(node_id) && outcomes[1] is Err ==> all
                == seq![
                first,
                then_close,
                ManagerAction::Done(
                    Err(ConnectivityError::ConnectionManagerError(outcomes[1]->Err_0)),
                ),
            ]
        }),
{
    reveal_with_fuel(actions, 4);
    let step = ban(s, node_id, duration);
    law_ban_starts(s, node_id, duration);
    law_resume(step.0, outcomes[0]);
    let second = resume(step.0, outcomes[0]);
    let rest = outcomes.skip(1);
    assert(rest[0] == outcomes[1]);
    law_resume(second.0, outcomes[1]);
    let all = actions(step, outcomes);
    if second.1 is Done {
        assert(actions(second, rest) == seq![second.1]);
        assert(all =~= seq![step.1, second.1]);
    } else {
        let third = resume(second.0, outcomes[1]);
        assert(actions(third, rest.skip(1)) == seq![third.1]);
        assert(actions(second, rest) == seq![second.1] + seq![third.1]);
        assert(all =~= seq![step.1, second.1, third.1]);
    }
}

/// What a ban that succeeds leaves: the peer is disconnected if the pool held it, and every other
/// entry is as it was; the ban is published.
pub proof fn law_ban_result(
    s: ManagerView,
    node_id: NodeId,
    duration: Duration,
    outcomes: Seq<Outcome>,
    other: NodeId,
)
    requires
        view_wf(s),
        outcomes.len() >= 2,
        outcomes[0] is Ok,
        outcomes[1] is Ok,
    ensures
        ({
            let t = run(ban(s, node_id, duration), outcomes).0;
            &&& t.events == s.events.push(ConnectivityEvent::PeerBanned(node_id))
            &&& t.pool.contains_key(other) == s.pool.contains_key(other)
            &&& other != node_id && s.pool.contains_key(other) ==> t.pool[other] == s.pool[other]
            &&& s.pool.contains_key(node_id) ==> t.pool[node_id] == (PeerConnectionState {
                status: ConnectionStatus::Disconnected,
                ..s.pool[node_id]
            })
            &&& t.eligible == s.eligible.filter(|id: NodeId| id != node_id)
            &&& t.status == s.status && t.config == s.config && t.task is Idle
        }),
{
    reveal_with_fuel(run, 4);
    let step = ban(s, node_id, duration);
    law_ban_starts(s, node_id, duration);
    law_resume(step.0, outcomes[0]);
    let second = resume(step.0, outcomes[0]);
    assert(outcomes.skip(1)[0] == outcomes[1]);
    law_resume(second.0, outcomes[1]);
}

/// What a refresh in which no dial fails leaves of a peer: if it is eligible and was never
/// connected, it is being connected to; if it is eligible and has failed or is disconnected, it is
/// being retried; if it is not eligible and has failed or is disconnected, it is forgotten; and
/// otherwise its entry is as it was.
pub proof fn law_refresh_result(
    s: ManagerView,
    unused: Seq<PeerConnection>,
    outcomes: Seq<Outcome>,
    id: NodeId,
)
    requires
        view_wf(s),
        s.task is Idle,
        outcomes.len() >= unused.len() + s.eligible.len(),
        all_succeed(outcomes),
    ensures
        ({
            let t = run(disconnect_next(s, unused), outcomes).0;
            let held = s.pool.contains_key(id);
            let inactive = held && (s.pool[id].status == ConnectionStatus::Failed
                || s.pool[id].status == ConnectionStatus::Disconnected);
            let fresh = !held || s.pool[id].status == ConnectionStatus::NotConnected;
            &&& s.eligible.contains(id) && fresh ==> {
                &&& t.pool.contains_key(id)
                &&& t.pool[id].status == ConnectionStatus::Connecting
                &&& held ==> t.pool[id].connection == s.pool[id].connection
                &&& !held ==> t.pool[id].connection is None
            }
            &&& s.eligible.contains(id) && inactive ==> {
                &&& t.pool.contains_key(id)
                &&& t.pool[id].status == ConnectionStatus::Retrying
                &&& t.pool[id].connection == s.pool[id].connection
            }
            &&& !s.eligible.contains(id) && inactive ==> !t.pool.contains_key(id)
            &&& !inactive && !(s.eligible.contains(id) && fresh) ==> t.pool.contains_key(id) == held
                && (held ==> t.pool[id] == s.pool[id])
            &&& t == ManagerView { pool: t.pool, ..s }
        }),
{
    let todo = s.eligible.filter(due(s.pool));
    crate::manager::order::lemma_filter_distinct(s.eligible, due(s.pool));
    s.eligible.lemma_filter_len(due(s.pool));
    let of_dials = outcomes.skip(unused.len() as int);
    assert forall|i: int| 0 <= i < of_dials.len() implies #[trigger] of_dials[i] is Ok by {
        assert(of_dials[i] == outcomes[unused.len() + i]);
    }
    law_refresh_succeeds(s, unused, outcomes, id);
    assert(todo.contains(id) <==> s.eligible.contains(id) && due(s.pool)(id));
}

/// The connection to a peer is handed out exactly if the pool holds one that is open.
pub proof fn law_get_connection(pool: PoolView, id: NodeId, conn: PeerConnection)
    ensures
        open_connection(pool, id) == Some(conn) <==> pool.contains_key(id) && pool[id].connection
            == Some(conn) && conn.connected,
        open_connection(pool, id) is None <==> !(pool.contains_key(id) && pool[id].connection
            is Some && pool[id].connection->0.connected),
{
}

/// A selection by distance can be answered exactly if there are as many connections as it asks for;
/// one at random always, unless it asks for all of more than can be drawn.
pub proof fn law_can_select(
    pool: PoolView,
    node_id: Box<NodeId>,
    n: usize,
    exclude: Vec<NodeId>,
)
    ensures
        can_select(pool, ConnectivitySelection::ClosestTo(node_id, n)) <==> n <= selectable_peers(
            pool,
            Seq::empty(),
        ).len(),
        can_select(pool, ConnectivitySelection::RandomNodes(n, exclude)) <==> selectable_peers(
            pool,
            exclude@,
        ).len() <= 0xffff_ffff || n < selectable_peers(pool, exclude@).len(),
{
}

/// The answer to a selection holds only open connections of the pool that lead to communication
/// nodes, each once. By distance it holds as many as were asked for, the closest first, and none
/// that was left out is closer; at random it holds none to an excluded peer, and as many as were
/// asked for, or all.
pub proof fn law_selection_answer(
    conns: Seq<PeerConnection>,
    pool: PoolView,
    node_id: Box<NodeId>,
    n: usize,
    exclude: Vec<NodeId>,
    conn: PeerConnection,
    i: int,
    j: int,
)
    ensures
        answers_selection(conns, pool, ConnectivitySelection::RandomNodes(n, exclude)) ==> {
            &&& conns.no_duplicates()
            &&& conns.contains(conn) ==> {
                &&& pool.contains_key(conn.peer_node_id)
                &&& pool[conn.peer_node_id].connection == Some(conn)
                &&& conn.connected
                &&& conn.peer_features.node
                &&& !exclude@.contains(conn.peer_node_id)
            }
            &&& n <= selectable_peers(pool, exclude@).len() ==> conns.len() == n
            &&& n >= selectable_peers(pool, exclude@).len() ==> conns.len() == selectable_peers(
                pool,
                exclude@,
            ).len()
        },
        answers_selection(conns, pool, ConnectivitySelection::ClosestTo(node_id, n)) ==> {
            &&& conns.no_duplicates()
            &&& conns.len() == n
            &&& conns.contains(conn) ==> {
                &&& pool.contains_key(conn.peer_node_id)
                &&& pool[conn.peer_node_id].connection == Some(conn)
                &&& conn.connected
                &&& conn.peer_features.node
            }
            &&& 0 <= i <= j < conns.len() ==> (conns[i].peer_node_id.key ^ node_id.key) <= (
            conns[j].peer_node_id.key ^ node_id.key)
            &&& 0 <= i < conns.len() && pool.contains_key(conn.peer_node_id)
                && pool[conn.peer_node_id].connection == Some(conn) && conn.connected
                && conn.peer_features.node && !conns.contains(conn) ==> (
            conns[i].peer_node_id.key ^ node_id.key) <= (conn.peer_node_id.key ^ node_id.key)
        },
{
    if answers_selection(conns, pool, ConnectivitySelection::ClosestTo(node_id, n)) {
        crate::selection::law_closest_choice(
            conns,
            pool,
            *node_id,
            n as nat,
            Seq::empty(),
            conn,
            i,
            j,
        );
    }
    if answers_selection(conns, pool, ConnectivitySelection::RandomNodes(n, exclude)) {
        crate::selection::law_random_members(conns, pool, n as nat, exclude@, conn);
    }
}

} // verus!
