//! What holds of the connectivity manager over several steps.
use std::time::Duration;
use vstd::prelude::*;

use crate::connection_pool::{
    connected_peers, failed_peers, pool_wf, stale, status_of, with_status, without_stale,
    ConnectionStatus,
};
use crate::manager::model::{
    add_next, add_status, ban, called_for, check_status, connect_next, disconnect_next, enlist,
    handle_event, refresh_status, resume, settled_until, start, status_event, view_wf, ManagerView,
    Outcome, TaskView,
};
use crate::manager::{
    open_connection, ConnectionManagerEvent, ConnectivityStatus, ManagerAction,
};
use crate::node_id::NodeId;
use crate::peer::PeerConnection;
use crate::requester::{Cause, ConnectivityError, ConnectivityEvent};

verus! {

/// A state of the manager, with what it wants to be done.
pub type Step = (ManagerView, ManagerAction);

/// Where the manager has got once its actions had these outcomes, one after the other.
pub open spec fn run(step: Step, outcomes: Seq<Outcome>) -> Step
    decreases outcomes.len(),
{
    if outcomes.len() == 0 || step.1 is Done {
        step
    } else {
        run(resume(step.0, outcomes[0]), outcomes.skip(1))
    }
}

/// The actions that the manager gives out meanwhile.
pub open spec fn actions(step: Step, outcomes: Seq<Outcome>) -> Seq<ManagerAction>
    decreases outcomes.len(),
{
    if outcomes.len() == 0 || step.1 is Done {
        seq![step.1]
    } else {
        seq![step.1] + actions(resume(step.0, outcomes[0]), outcomes.skip(1))
    }
}

/// What holds of every step of a task.
pub open spec fn step_wf(step: Step) -> bool {
    &&& view_wf(step.0)
    &&& step.1 is Done <==> step.0.task is Idle
    &&& step.1 !is Reply
    &&& step.1 matches ManagerAction::DialPeer(id) ==> {
        &&& step.0.eligible.contains(id)
        &&& status_of(step.0.pool, id) == ConnectionStatus::Connecting || status_of(
            step.0.pool,
            id,
        ) == ConnectionStatus::Retrying
    }
}

pub(crate) proof fn lemma_add_next(s: ManagerView, rest: Seq<NodeId>)
    requires
        view_wf(s),
        s.task is Idle,
    ensures
        step_wf(add_next(s, rest)),
        add_next(s, rest).1 is Done || add_next(s, rest).1 is DialPeer,
        add_next(s, rest).1 is Done ==> add_next(s, rest).1 == ManagerAction::Done(Ok(())),
        add_next(s, rest).0.task is Idle || add_next(s, rest).0.task is AddPeers,
        s.eligible.is_prefix_of(add_next(s, rest).0.eligible),
        add_next(s, rest).0.events == s.events,
        add_next(s, rest).0.status == s.status,
        add_next(s, rest).0.config == s.config,
        forall|id: NodeId| #[trigger]
            rest.contains(id) ==> add_next(s, rest).0.eligible.contains(id) || (add_next(
                s,
                rest,
            ).0.task matches TaskView::AddPeers { rest: later, .. } && later.contains(id)),
        add_next(s, rest).0.task matches TaskView::AddPeers { rest: later, .. } ==> later.len()
            < rest.len(),
        forall|id: NodeId|
            !rest.contains(id) ==> {
                &&& #[trigger] add_next(s, rest).0.pool.contains_key(id) == s.pool.contains_key(id)
                &&& s.pool.contains_key(id) ==> add_next(s, rest).0.pool[id] == s.pool[id]
            },
    decreases rest.len(),
{
    if rest.len() > 0 {
        let node_id = rest[0];
        let t = enlist(s, node_id);
        if !s.eligible.contains(node_id) {
            assert(t.eligible[s.eligible.len() as int] == node_id);
        }
        assert(t.eligible.contains(node_id));
        assert(view_wf(t));
        let (u, a) = add_next(s, rest);
        if add_status(status_of(t.pool, node_id)) is None {
            lemma_add_next(t, rest.skip(1));
            let i = choose|i: int| 0 <= i < t.eligible.len() && t.eligible[i] == node_id;
            assert(u.eligible[i] == node_id);
        }
        assert forall|id: NodeId| #[trigger] rest.contains(id) implies u.eligible.contains(id) || (
        u.task matches TaskView::AddPeers { rest: later, .. } && later.contains(id)) by {
            let k = choose|k: int| 0 <= k < rest.len() && rest[k] == id;
            if k > 0 {
                assert(rest.skip(1)[k - 1] == id);
                assert(rest.skip(1).contains(id));
            }
        }
        assert forall|id: NodeId| !rest.contains(id) implies {
            &&& #[trigger] u.pool.contains_key(id) == s.pool.contains_key(id)
            &&& s.pool.contains_key(id) ==> u.pool[id] == s.pool[id]
        } by {
            assert(rest.contains(rest[0]));
            if rest.skip(1).contains(id) {
                let k = choose|k: int| 0 <= k < rest.skip(1).len() && rest.skip(1)[k] == id;
                assert(rest[k + 1] == id);
            }
        }
        assert(u == add_next(s, rest).0);
    } else {
        assert(add_next(s, rest).0.pool == s.pool);
    }
}

pub(crate) proof fn lemma_connect_next(s: ManagerView, next: int)
    requires
        view_wf(s),
        s.task is Idle,
        0 <= next <= s.eligible.len(),
        settled_until(s.eligible, s.pool, next),
    ensures
        step_wf(connect_next(s, next)),
        connect_next(s, next).1 is Done || connect_next(s, next).1 is DialPeer,
        connect_next(s, next).1 is Done ==> connect_next(s, next).1 == ManagerAction::Done(Ok(())),
        connect_next(s, next).0.task is Idle || connect_next(s, next).0.task is Connecting,
        connect_next(s, next).0.task matches TaskView::Connecting { next: later } ==> next < later
            && forall|i: int|
            next <= i < later - 1 ==> refresh_status(status_of(s.pool, #[trigger] s.eligible[i]))
                is None,
        connect_next(s, next).0.eligible == s.eligible,
        connect_next(s, next).0.events == s.events,
        connect_next(s, next).0.status == s.status,
        connect_next(s, next).0.config == s.config,
        connect_next(s, next).1 is Done ==> {
            &&& settled_until(s.eligible, s.pool, s.eligible.len() as int)
            &&& connect_next(s, next).0.pool == without_stale(s.pool, s.eligible)
        },
        connect_next(s, next).1 matches ManagerAction::DialPeer(id) ==> {
            &&& connect_next(s, next).0.task matches TaskView::Connecting { next: later }
            &&& id == s.eligible[later - 1]
            &&& refresh_status(status_of(s.pool, id)) is Some
            &&& connect_next(s, next).0.pool == with_status(
                s.pool,
                id,
                refresh_status(status_of(s.pool, id)).unwrap(),
            )
        },
    decreases s.eligible.len() - next,
{
    if next < s.eligible.len() {
        let node_id = s.eligible[next];
        if refresh_status(status_of(s.pool, node_id)) is None {
            lemma_connect_next(s, next + 1);
        } else {
            let t = connect_next(s, next).0;
            assert(s.eligible.contains(node_id));
            assert forall|i: int| 0 <= i < next + 1 implies refresh_status(
                status_of(t.pool, #[trigger] t.eligible[i]),
            ) is None by {
                if i < next {
                    assert(s.eligible[i] != s.eligible[next]);
                }
            }
        }
    } else {
        let t = connect_next(s, next).0;
        assert(pool_wf(t.pool)) by {
            assert(t.pool.dom().subset_of(s.pool.dom()));
            vstd::set_lib::lemma_len_subset(t.pool.dom(), s.pool.dom());
        }
    }
}

/// Every action that the manager gives out leads to a state in which it is well-formed; it is
/// idle exactly when it is done; and it dials only peers that are eligible, which are then
/// noted as being connected to.
pub proof fn law_resume_step(s: ManagerView, outcome: Outcome)
    requires
        view_wf(s),
    ensures
        step_wf(resume(s, outcome)),
{
    let idle = ManagerView { task: TaskView::Idle, ..s };
    match s.task {
        TaskView::AddPeers { rest, dialled, retry } => {
            if outcome is Err && retry {
                lemma_add_next(ManagerView { pool: s.pool.remove(dialled), ..idle }, rest);
            } else {
                lemma_add_next(idle, rest);
            }
        },
        TaskView::Disconnecting { conns } => {
            if conns.len() == 0 {
                lemma_connect_next(idle, 0);
            }
        },
        TaskView::Connecting { next } => {
            lemma_connect_next(idle, next);
        },
        _ => {},
    }
}

/// How many outcomes an `AddPeers` step needs at most until it is done.
spec fn add_steps_left(step: Step) -> nat {
    match step.0.task {
        TaskView::AddPeers { rest, .. } => rest.len() + 1,
        _ => 0,
    }
}

proof fn lemma_add_run(step: Step, wanted: Seq<NodeId>, outcomes: Seq<Outcome>)
    requires
        step_wf(step),
        step.0.task is Idle || step.0.task is AddPeers,
        step.1 is Done ==> step.1 == ManagerAction::Done(Ok(())),
        forall|id: NodeId| #[trigger]
            wanted.contains(id) ==> step.0.eligible.contains(id) || (
            step.0.task matches TaskView::AddPeers { rest, .. } && rest.contains(id)),
    ensures
        step_wf(run(step, outcomes)),
        run(step, outcomes).1 is Done ==> {
            &&& run(step, outcomes).1 == ManagerAction::Done(Ok(()))
            &&& forall|id: NodeId| #[trigger]
                wanted.contains(id) ==> run(step, outcomes).0.eligible.contains(id)
        },
        step.0.eligible.is_prefix_of(run(step, outcomes).0.eligible),
        run(step, outcomes).0.events == step.0.events,
        run(step, outcomes).0.status == step.0.status,
        outcomes.len() >= add_steps_left(step) ==> run(step, outcomes).1 is Done,
    decreases outcomes.len(),
{
    if outcomes.len() > 0 && step.1 !is Done {
        match step.0.task {
            TaskView::AddPeers { rest, dialled, retry } => {
                let idle = ManagerView { task: TaskView::Idle, ..step.0 };
                let from = if outcomes[0] is Err && retry {
                    ManagerView { pool: idle.pool.remove(dialled), ..idle }
                } else {
                    idle
                };
                lemma_add_next(from, rest);
                let next = resume(step.0, outcomes[0]);
                assert(next == add_next(from, rest));
                assert forall|id: NodeId| #[trigger] wanted.contains(id) implies next.0.eligible.contains(
                    id,
                ) || (next.0.task matches TaskView::AddPeers { rest, .. } && rest.contains(id)) by {
                    if step.0.eligible.contains(id) {
                        let i = choose|i: int|
                            0 <= i < step.0.eligible.len() && step.0.eligible[i] == id;
                        assert(next.0.eligible[i] == id);
                    }
                }
                lemma_add_run(next, wanted, outcomes.skip(1));
            },
            _ => {},
        }
    }
}

/// A request to add eligible peers never fails, whatever comes of the dials, and it ends after at
/// most one dial for each of them. Then all of them are eligible, and the peers that were
/// eligible before still are.
pub proof fn law_add_eligible_peers(s: ManagerView, node_ids: Seq<NodeId>, outcomes: Seq<Outcome>)
    requires
        view_wf(s),
        s.task is Idle,
    ensures
        ({
            let (t, action) = run(add_next(s, node_ids), outcomes);
            &&& view_wf(t)
            &&& outcomes.len() >= node_ids.len() ==> action is Done
            &&& action is Done ==> action == ManagerAction::Done(Ok(())) && t.task is Idle
            &&& action is Done ==> forall|id: NodeId| #[trigger]
                node_ids.contains(id) ==> t.eligible.contains(id)
            &&& s.eligible.is_prefix_of(t.eligible)
            &&& t.events == s.events
            &&& t.status == s.status
        }),
{
    lemma_add_next(s, node_ids);
    lemma_add_run(add_next(s, node_ids), node_ids, outcomes);
}

/// A peer to which connecting has failed before, and which cannot be dialled again, is forgotten;
/// but it stays eligible, and so the next refresh dials it as one that was never connected. No
/// peer is touched that was not asked for.
pub proof fn law_failed_retry(s: ManagerView, other: NodeId, cause: Cause)
    requires
        view_wf(s),
        s.task matches TaskView::AddPeers { rest, dialled, retry } && retry && !rest.contains(
            dialled,
        ) && !rest.contains(other) && other != dialled,
    ensures
        ({
            let id = s.task->dialled;
            let t = resume(s, Err(cause)).0;
            &&& !t.pool.contains_key(id)
            &&& t.eligible.contains(id)
            &&& refresh_status(status_of(t.pool, id)) == Some(ConnectionStatus::Connecting)
            &&& t.pool.contains_key(other) == s.pool.contains_key(other)
            &&& s.pool.contains_key(other) ==> t.pool[other] == s.pool[other]
        }),
{
    let idle = ManagerView { task: TaskView::Idle, ..s };
    if let TaskView::AddPeers { rest, dialled, retry } = s.task {
        let from = ManagerView { pool: s.pool.remove(dialled), ..idle };
        let t = add_next(from, rest).0;
        lemma_add_next(from, rest);
        let i = choose|i: int| 0 <= i < s.eligible.len() && s.eligible[i] == dialled;
        assert(t.eligible[i] == dialled);
        assert(t.pool.contains_key(dialled) == from.pool.contains_key(dialled));
        assert(t.pool.contains_key(other) == from.pool.contains_key(other));
    }
}

/// Every eligible peer is connected, or on the way to it, and every peer that is neither is
/// forgotten, unless it is eligible.
pub open spec fn refreshed(s: ManagerView) -> bool {
    &&& forall|id: NodeId| #[trigger]
        s.eligible.contains(id) ==> refresh_status(status_of(s.pool, id)) is None
    &&& forall|id: NodeId| #[trigger]
        s.pool.contains_key(id) ==> !s.pool[id].inactive()
}

proof fn lemma_refreshed(s: ManagerView)
    requires
        view_wf(s),
        settled_until(s.eligible, s.pool, s.eligible.len() as int),
    ensures
        refreshed(ManagerView { pool: without_stale(s.pool, s.eligible), ..s }),
{
    let t = ManagerView { pool: without_stale(s.pool, s.eligible), ..s };
    assert forall|id: NodeId| #[trigger] t.eligible.contains(id) implies refresh_status(
        status_of(t.pool, id),
    ) is None by {
        let i = choose|i: int| 0 <= i < s.eligible.len() && s.eligible[i] == id;
        assert(refresh_status(status_of(s.pool, s.eligible[i])) is None);
        assert(s.pool.contains_key(id));
        assert(!stale(s.pool[id], s.eligible));
        assert(t.pool.contains_key(id));
    }
    assert forall|id: NodeId| #[trigger] t.pool.contains_key(id) implies !t.pool[id].inactive() by {
        assert(!stale(s.pool[id], s.eligible));
        if s.eligible.contains(id) {
            let i = choose|i: int| 0 <= i < s.eligible.len() && s.eligible[i] == id;
            assert(refresh_status(status_of(s.pool, s.eligible[i])) is None);
        }
    }
}

/// How many outcomes a step of a refresh needs at most until it is done.
spec fn refresh_steps_left(step: Step) -> int {
    match step.0.task {
        TaskView::Disconnecting { conns } => (conns.len() + 1 + step.0.eligible.len()) as int,
        TaskView::Connecting { next } => step.0.eligible.len() - next + 1,
        _ => 0,
    }
}

proof fn lemma_refresh_step(s: ManagerView, conns: Seq<PeerConnection>)
    requires
        view_wf(s),
        s.task is Idle,
    ensures
        step_wf(disconnect_next(s, conns)),
        disconnect_next(s, conns).0.task is Idle || disconnect_next(s, conns).0.task
            is Disconnecting || disconnect_next(s, conns).0.task is Connecting,
        disconnect_next(s, conns).0.eligible == s.eligible,
        disconnect_next(s, conns).0.events == s.events,
        disconnect_next(s, conns).0.status == s.status,
        disconnect_next(s, conns).0.config == s.config,
        refresh_steps_left(disconnect_next(s, conns)) <= conns.len() + s.eligible.len(),
        disconnect_next(s, conns).1 is Done ==> disconnect_next(s, conns).1 == ManagerAction::Done(
            Ok(()),
        ) && refreshed(disconnect_next(s, conns).0),
{
    if conns.len() == 0 {
        lemma_connect_next(s, 0);
        if connect_next(s, 0).1 is Done {
            lemma_refreshed(s);
        }
    }
}

/// Whether a sequence of outcomes holds no failure.
pub open spec fn all_succeed(outcomes: Seq<Outcome>) -> bool {
    forall|i: int| 0 <= i < outcomes.len() ==> #[trigger] outcomes[i] is Ok
}

/// Whether an action reports that the connection manager failed, for the cause of one of the
/// outcomes.
pub open spec fn reports_failure(action: ManagerAction, outcomes: Seq<Outcome>) -> bool {
    exists|i: int|
        0 <= i < outcomes.len() && #[trigger] outcomes[i] is Err && action == ManagerAction::Done(
            Err(ConnectivityError::ConnectionManagerError(outcomes[i]->Err_0)),
        )
}

proof fn lemma_refresh_run(step: Step, outcomes: Seq<Outcome>)
    requires
        step_wf(step),
        step.0.task is Idle || step.0.task is Disconnecting || step.0.task is Connecting,
        step.1 is Done ==> step.1 == ManagerAction::Done(Ok(())) && refreshed(step.0),
    ensures
        step_wf(run(step, outcomes)),
        run(step, outcomes).0.eligible == step.0.eligible,
        run(step, outcomes).0.events == step.0.events,
        run(step, outcomes).0.status == step.0.status,
        run(step, outcomes).1 is Done ==> (run(step, outcomes).1 == ManagerAction::Done(Ok(()))
            && refreshed(run(step, outcomes).0)) || reports_failure(
            run(step, outcomes).1,
            outcomes,
        ),
        outcomes.len() >= refresh_steps_left(step) ==> run(step, outcomes).1 is Done,
    decreases outcomes.len(),
{
    if outcomes.len() > 0 && step.1 !is Done {
        let idle = ManagerView { task: TaskView::Idle, ..step.0 };
        let next = resume(step.0, outcomes[0]);
        law_resume_step(step.0, outcomes[0]);
        match step.0.task {
            TaskView::Disconnecting { conns } => {
                lemma_refresh_step(idle, conns);
                if conns.len() == 0 {
                    lemma_connect_next(idle, 0);
                }
            },
            TaskView::Connecting { next } => {
                lemma_connect_next(idle, next);
                if connect_next(idle, next).1 is Done {
                    lemma_refreshed(idle);
                }
            },
            _ => {},
        }
        let rest = outcomes.skip(1);
        let last = run(next, rest);
        if next.1 is Done {
            assert(last == next);
            if step.0.task is Connecting && outcomes[0] is Err {
                assert(reports_failure(last.1, outcomes));
            }
        }
        if !(step.0.task is Connecting && outcomes[0] is Err) {
            lemma_refresh_run(next, rest);
            if reports_failure(last.1, rest) {
                let i = choose|i: int|
                    0 <= i < rest.len() && #[trigger] rest[i] is Err && last.1
                        == ManagerAction::Done(
                        Err(ConnectivityError::ConnectionManagerError(rest[i]->Err_0)),
                    );
                assert(outcomes[i + 1] == rest[i]);
                assert(reports_failure(last.1, outcomes));
            }
        }
    }
}

/// A refresh ends after at most one action for each unused connection and each eligible peer. It
/// fails only if a dial does. Otherwise every eligible peer is then connected or on the way to
/// it, and the pool holds no peer that has failed or is disconnected. It changes neither who is
/// eligible nor the connectivity status, and it publishes nothing.
pub proof fn law_refresh(s: ManagerView, unused: Seq<PeerConnection>, outcomes: Seq<Outcome>)
    requires
        view_wf(s),
        s.task is Idle,
    ensures
        ({
            let (t, action) = run(disconnect_next(s, unused), outcomes);
            &&& view_wf(t)
            &&& outcomes.len() >= unused.len() + s.eligible.len() ==> action is Done
            &&& action is Done ==> (action == ManagerAction::Done(Ok(())) && refreshed(t))
                || reports_failure(action, outcomes)
            &&& all_succeed(outcomes) && action is Done ==> action == ManagerAction::Done(Ok(()))
            &&& t.eligible == s.eligible
            &&& t.events == s.events
            &&& t.status == s.status
        }),
{
    lemma_refresh_step(s, unused);
    lemma_refresh_run(disconnect_next(s, unused), outcomes);
}

/// Banning a peer ends after at most two actions. From the start the peer is not eligible any
/// more, and the other eligible peers stay. The ban is published if the peer database took it
/// up, and then only. If all went well, the peer is disconnected, if it was in the pool. A failure
/// comes out with its cause, and leaves the pool as it is.
pub proof fn law_ban(s: ManagerView, node_id: NodeId, duration: Duration, outcomes: Seq<Outcome>)
    requires
        view_wf(s),
        s.task is Idle,
    ensures
        ({
            let (t, action) = run(ban(s, node_id, duration), outcomes);
            &&& view_wf(t)
            &&& outcomes.len() >= 2 ==> action is Done
            &&& action is Done ==> t.task is Idle
            &&& forall|id: NodeId| #[trigger]
                t.eligible.contains(id) <==> id != node_id && s.eligible.contains(id)
            &&& t.events == if outcomes.len() > 0 && outcomes[0] is Ok {
                s.events.push(ConnectivityEvent::PeerBanned(node_id))
            } else {
                s.events
            }
            &&& t.status == s.status
            &&& outcomes.len() > 0 && outcomes[0] is Err ==> action == ManagerAction::Done(
                Err(ConnectivityError::PeerManagerError(outcomes[0]->Err_0)),
            ) && t.pool == s.pool
            &&& outcomes.len() > 1 && outcomes[0] is Ok && outcomes[1] is Err
                && s.pool.contains_key(node_id) ==> action == ManagerAction::Done(
                Err(ConnectivityError::ConnectionManagerError(outcomes[1]->Err_0)),
            ) && t.pool == s.pool
            &&& action == ManagerAction::Done(Ok(())) ==> t.pool == if s.pool.contains_key(
                node_id,
            ) {
                with_status(s.pool, node_id, ConnectionStatus::Disconnected)
            } else {
                s.pool
            }
        }),
{
    reveal_with_fuel(run, 3);
    crate::manager::lemma_removed(s.eligible, node_id);
    let step = ban(s, node_id, duration);
    assert(view_wf(step.0));
    if outcomes.len() > 0 {
        law_resume_step(step.0, outcomes[0]);
        let second = resume(step.0, outcomes[0]);
        if outcomes.len() > 1 {
            assert(outcomes.skip(1)[0] == outcomes[1]);
            law_resume_step(second.0, outcomes[1]);
        }
    }
}

/// Whether the actions hold a dial of a peer.
pub open spec fn dials(all: Seq<ManagerAction>, id: NodeId) -> bool {
    all.contains(ManagerAction::DialPeer(id))
}

proof fn lemma_connect_actions(s: ManagerView, next: int, outcomes: Seq<Outcome>)
    requires
        view_wf(s),
        s.task is Idle,
        0 <= next <= s.eligible.len(),
        settled_until(s.eligible, s.pool, next),
        all_succeed(outcomes),
        outcomes.len() >= s.eligible.len() - next,
    ensures
        forall|id: NodeId| #[trigger]
            dials(actions(connect_next(s, next), outcomes), id)
                <==> s.eligible.contains(id) && refresh_status(status_of(s.pool, id)) is Some,
    decreases outcomes.len(),
{
    lemma_connect_next(s, next);
    let step = connect_next(s, next);
    let all = actions(step, outcomes);
    if step.1 is Done {
        assert(all == seq![step.1]);
        assert forall|id: NodeId| #[trigger]
            dials(all, id) <==> s.eligible.contains(id)
                && refresh_status(status_of(s.pool, id)) is Some by {
            if s.eligible.contains(id) {
                let i = choose|i: int| 0 <= i < s.eligible.len() && s.eligible[i] == id;
                assert(refresh_status(status_of(s.pool, s.eligible[i])) is None);
            }
        }
    } else {
        let dialled = step.1->DialPeer_0;
        let later = step.0.task->Connecting_next;
        assert(later <= s.eligible.len());
        assert(outcomes.len() > 0);
        assert(outcomes[0] is Ok);
        let t = ManagerView { task: TaskView::Idle, ..step.0 };
        let rest = outcomes.skip(1);
        assert(all_succeed(rest)) by {
            assert forall|i: int| 0 <= i < rest.len() implies #[trigger] rest[i] is Ok by {
                assert(rest[i] == outcomes[i + 1]);
            }
        }
        lemma_connect_actions(t, later, rest);
        let after = actions(connect_next(t, later), rest);
        assert(all == seq![step.1] + after);
        assert forall|id: NodeId| #[trigger]
            dials(all, id) <==> s.eligible.contains(id)
                && refresh_status(status_of(s.pool, id)) is Some by {
            assert(dials(after, id) <==> t.eligible.contains(id) && refresh_status(
                status_of(t.pool, id),
            ) is Some);
            if dials(all, id) {
                let k = choose|k: int| 0 <= k < all.len() && all[k] == ManagerAction::DialPeer(id);
                if k > 0 {
                    assert(after[k - 1] == ManagerAction::DialPeer(id));
                    assert(dials(after, id));
                } else {
                    assert(id == dialled);
                }
            }
            if s.eligible.contains(id) && refresh_status(status_of(s.pool, id)) is Some {
                if id == dialled {
                    assert(all[0] == ManagerAction::DialPeer(id));
                } else {
                    assert(dials(after, id));
                    let k = choose|k: int|
                        0 <= k < after.len() && after[k] == ManagerAction::DialPeer(id);
                    assert(all[k + 1] == ManagerAction::DialPeer(id));
                }
            }
        }
    }
}

proof fn lemma_refresh_actions(s: ManagerView, conns: Seq<PeerConnection>, outcomes: Seq<Outcome>)
    requires
        view_wf(s),
        s.task is Idle,
        all_succeed(outcomes),
        outcomes.len() >= conns.len() + s.eligible.len(),
    ensures
        forall|id: NodeId| #[trigger]
            dials(actions(disconnect_next(s, conns), outcomes), id)
                <==> s.eligible.contains(id) && refresh_status(status_of(s.pool, id)) is Some,
        forall|i: int|
            0 <= i < conns.len() ==> actions(disconnect_next(s, conns), outcomes)[i]
                == ManagerAction::Disconnect(#[trigger] conns[i]),
        actions(disconnect_next(s, conns), outcomes).len() > conns.len(),
    decreases conns.len(),
{
    let step = disconnect_next(s, conns);
    let all = actions(step, outcomes);
    if conns.len() == 0 {
        lemma_connect_actions(s, 0, outcomes);
    } else {
        let t = ManagerView { task: TaskView::Idle, ..step.0 };
        assert(t == s);
        let rest = outcomes.skip(1);
        assert(all_succeed(rest)) by {
            assert forall|i: int| 0 <= i < rest.len() implies #[trigger] rest[i] is Ok by {
                assert(rest[i] == outcomes[i + 1]);
            }
        }
        lemma_refresh_actions(s, conns.skip(1), rest);
        let after = actions(disconnect_next(s, conns.skip(1)), rest);
        assert(all == seq![step.1] + after);
        assert forall|id: NodeId| #[trigger] dials(all, id) <==> dials(after, id) by {
            if dials(all, id) {
                let k = choose|k: int| 0 <= k < all.len() && all[k] == ManagerAction::DialPeer(id);
                assert(after[k - 1] == ManagerAction::DialPeer(id));
            }
            if dials(after, id) {
                let k = choose|k: int|
                    0 <= k < after.len() && after[k] == ManagerAction::DialPeer(id);
                assert(all[k + 1] == ManagerAction::DialPeer(id));
            }
        }
        assert forall|i: int| 0 <= i < conns.len() implies all[i] == ManagerAction::Disconnect(
            #[trigger] conns[i],
        ) by {
            if i > 0 {
                assert(conns.skip(1)[i - 1] == conns[i]);
            }
        }
    }
}

/// A refresh in which every action succeeds closes every unused connection, and dials exactly
/// the eligible peers that have failed, are disconnected, or were never connected.
pub proof fn law_refresh_dials(s: ManagerView, unused: Seq<PeerConnection>, outcomes: Seq<Outcome>)
    requires
        view_wf(s),
        s.task is Idle,
        all_succeed(outcomes),
        outcomes.len() >= unused.len() + s.eligible.len(),
    ensures
        ({
            let all = actions(disconnect_next(s, unused), outcomes);
            &&& forall|id: NodeId| #[trigger]
                dials(all, id) <==> s.eligible.contains(id) && (
                status_of(s.pool, id) == ConnectionStatus::Failed || status_of(s.pool, id)
                    == ConnectionStatus::Disconnected || status_of(s.pool, id)
                    == ConnectionStatus::NotConnected)
            &&& all.len() > unused.len()
            &&& forall|i: int|
                0 <= i < unused.len() ==> all[i] == ManagerAction::Disconnect(#[trigger] unused[i])
        }),
{
    lemma_refresh_actions(s, unused, outcomes);
}

proof fn lemma_dials_after(first: ManagerAction, after: Seq<ManagerAction>, id: NodeId)
    ensures
        dials(seq![first] + after, id) <==> first == ManagerAction::DialPeer(id) || dials(
            after,
            id,
        ),
{
    let all = seq![first] + after;
    if dials(all, id) {
        let k = choose|k: int| 0 <= k < all.len() && all[k] == ManagerAction::DialPeer(id);
        if k > 0 {
            assert(after[k - 1] == ManagerAction::DialPeer(id));
        }
    }
    if first == ManagerAction::DialPeer(id) {
        assert(all[0] == first);
    }
    if dials(after, id) {
        let k = choose|k: int| 0 <= k < after.len() && after[k] == ManagerAction::DialPeer(id);
        assert(all[k + 1] == ManagerAction::DialPeer(id));
    }
}

/// Of the peers that are to be eligible, exactly those are dialled that have failed, are
/// disconnected, or were never connected, whatever comes of the dials.
pub proof fn law_add_dials(
    s: ManagerView,
    node_ids: Seq<NodeId>,
    outcomes: Seq<Outcome>,
    id: NodeId,
)
    requires
        view_wf(s),
        s.task is Idle,
        outcomes.len() >= node_ids.len(),
    ensures
        dials(actions(add_next(s, node_ids), outcomes), id) <==> node_ids.contains(id) && (
        status_of(s.pool, id) == ConnectionStatus::Failed || status_of(s.pool, id)
            == ConnectionStatus::Disconnected || status_of(s.pool, id)
            == ConnectionStatus::NotConnected),
    decreases node_ids.len(),
{
    let step = add_next(s, node_ids);
    let all = actions(step, outcomes);
    if node_ids.len() == 0 {
        assert(all == seq![step.1]);
        lemma_dials_after(step.1, Seq::empty(), id);
        assert(seq![step.1] + Seq::<ManagerAction>::empty() =~= all);
    } else {
        let node_id = node_ids[0];
        let rest = node_ids.skip(1);
        let t = enlist(s, node_id);
        if !s.eligible.contains(node_id) {
            assert(t.eligible[s.eligible.len() as int] == node_id);
        }
        assert(t.eligible.contains(node_id));
        assert(node_ids.contains(id) <==> id == node_id || rest.contains(id)) by {
            assert(node_ids =~= seq![node_id] + rest);
            if rest.contains(id) {
                let k = choose|k: int| 0 <= k < rest.len() && rest[k] == id;
                assert(node_ids[k + 1] == id);
            }
            if node_ids.contains(id) && id != node_id {
                let k = choose|k: int| 0 <= k < node_ids.len() && node_ids[k] == id;
                assert(rest[k - 1] == id);
            }
        }
        match add_status(status_of(t.pool, node_id)) {
            None => {
                law_add_dials(t, rest, outcomes, id);
            },
            Some(status) => {
                let retry = status == ConnectionStatus::Retrying;
                let idle = ManagerView { task: TaskView::Idle, ..step.0 };
                let from = if outcomes[0] is Err && retry {
                    ManagerView { pool: idle.pool.remove(node_id), ..idle }
                } else {
                    idle
                };
                assert(resume(step.0, outcomes[0]) == add_next(from, rest));
                law_add_dials(from, rest, outcomes.skip(1), id);
                let after = actions(add_next(from, rest), outcomes.skip(1));
                assert(all == seq![step.1] + after);
                lemma_dials_after(step.1, after, id);
            },
        }
    }
}

proof fn lemma_dials_eligible(step: Step, outcomes: Seq<Outcome>, id: NodeId)
    requires
        step_wf(step),
        step.0.task is Idle || step.0.task is Disconnecting || step.0.task is Connecting,
    ensures
        dials(actions(step, outcomes), id) ==> step.0.eligible.contains(id),
    decreases outcomes.len(),
{
    let all = actions(step, outcomes);
    if outcomes.len() == 0 || step.1 is Done {
        assert(all == seq![step.1]);
        lemma_dials_after(step.1, Seq::empty(), id);
        assert(seq![step.1] + Seq::<ManagerAction>::empty() =~= all);
    } else {
        let idle = ManagerView { task: TaskView::Idle, ..step.0 };
        let next = resume(step.0, outcomes[0]);
        law_resume_step(step.0, outcomes[0]);
        match step.0.task {
            TaskView::Disconnecting { conns } => {
                lemma_refresh_step(idle, conns);
            },
            TaskView::Connecting { next } => {
                lemma_connect_next(idle, next);
            },
            _ => {},
        }
        lemma_dials_eligible(next, outcomes.skip(1), id);
        lemma_dials_after(step.1, actions(next, outcomes.skip(1)), id);
    }
}

/// A refresh dials no peer that is not eligible, whatever comes of its actions.
pub proof fn law_refresh_dials_eligible(
    s: ManagerView,
    unused: Seq<PeerConnection>,
    outcomes: Seq<Outcome>,
    id: NodeId,
)
    requires
        view_wf(s),
        s.task is Idle,
    ensures
        dials(actions(disconnect_next(s, unused), outcomes), id) ==> s.eligible.contains(id),
{
    lemma_refresh_step(s, unused);
    lemma_dials_eligible(disconnect_next(s, unused), outcomes, id);
}

/// A peer that was banned is not dialled by a refresh, even if the ban did not go through.
pub proof fn law_banned_not_dialled(
    s: ManagerView,
    node_id: NodeId,
    duration: Duration,
    ban_outcomes: Seq<Outcome>,
    unused: Seq<PeerConnection>,
    outcomes: Seq<Outcome>,
)
    requires
        view_wf(s),
        s.task is Idle,
        run(ban(s, node_id, duration), ban_outcomes).1 is Done,
    ensures
        ({
            let t = run(ban(s, node_id, duration), ban_outcomes).0;
            !dials(actions(disconnect_next(t, unused), outcomes), node_id)
        }),
{
    law_ban(s, node_id, duration, ban_outcomes);
    law_refresh_dials_eligible(
        run(ban(s, node_id, duration), ban_outcomes).0,
        unused,
        outcomes,
        node_id,
    );
}

/// The connection that a peer connected with is the one that is handed out for it, if it is open;
/// and the peer then counts as connected.
pub proof fn law_connection_handed_out(s: ManagerView, conn: PeerConnection)
    ensures
        ({
            let t = handle_event(s, ConnectionManagerEvent::PeerConnected(conn));
            &&& open_connection(t.pool, conn.peer_node_id) == if conn.connected {
                Some(conn)
            } else {
                None
            }
            &&& status_of(t.pool, conn.peer_node_id) == ConnectionStatus::Connected
            &&& connected_peers(t.pool).contains(conn.peer_node_id) == conn.connected
        }),
{
}

/// The connectivity status is the one that the pool calls for, if it calls for one.
pub open spec fn status_up_to_date(s: ManagerView) -> bool {
    match called_for(s) {
        Some(status) => s.status == status,
        None => true,
    }
}

/// Bringing the connectivity status up to date publishes one event if the status changes, and
/// none otherwise; the status is then the one that the pool calls for.
pub proof fn law_check_status(s: ManagerView)
    ensures
        status_up_to_date(check_status(s)),
        check_status(s).pool == s.pool && check_status(s).eligible == s.eligible
            && check_status(s).task == s.task && check_status(s).config == s.config,
        check_status(s).events == if check_status(s).status == s.status {
            s.events
        } else {
            s.events.push(
                status_event(check_status(s).status, connected_peers(s.pool).len() as usize),
            )
        },
{
}

/// Doing it twice in a row is the same as doing it once.
pub proof fn law_check_status_idempotent(s: ManagerView)
    ensures
        check_status(check_status(s)) == check_status(s),
{
}

/// The connectivity status never goes back to `Initializing`, and no node that is still
/// initializing becomes degraded.
pub proof fn law_status_order(s: ManagerView)
    ensures
        check_status(s).status != s.status ==> crate::manager::model::may_follow(
            s.status,
            check_status(s).status,
        ),
{
}

/// The state after these events of the connection manager, one after the other.
pub open spec fn after_events(s: ManagerView, events: Seq<ConnectionManagerEvent>) -> ManagerView
    decreases events.len(),
{
    if events.len() == 0 {
        s
    } else {
        handle_event(after_events(s, events.drop_last()), events.last())
    }
}

/// Once the node has been initialized, no sequence of events makes it initialize again, nor does
/// starting the manager or bringing its status up to date.
pub proof fn law_initialized_for_good(s: ManagerView, events: Seq<ConnectionManagerEvent>)
    requires
        s.status != ConnectivityStatus::Initializing,
    ensures
        after_events(s, events).status != ConnectivityStatus::Initializing,
        check_status(after_events(s, events)).status != ConnectivityStatus::Initializing,
        start(after_events(s, events)).status != ConnectivityStatus::Initializing,
    decreases events.len(),
{
    if events.len() > 0 {
        law_initialized_for_good(s, events.drop_last());
    }
}

/// What an action comes to does not change the connectivity status either.
pub proof fn law_resume_keeps_status(s: ManagerView, outcome: Outcome)
    requires
        view_wf(s),
    ensures
        resume(s, outcome).0.status == s.status,
{
    let idle = ManagerView { task: TaskView::Idle, ..s };
    match s.task {
        TaskView::AddPeers { rest, dialled, retry } => {
            if outcome is Err && retry {
                lemma_add_next(ManagerView { pool: s.pool.remove(dialled), ..idle }, rest);
            } else {
                lemma_add_next(idle, rest);
            }
        },
        TaskView::Disconnecting { conns } => {
            lemma_refresh_step(idle, conns);
        },
        TaskView::Connecting { next } => {
            lemma_connect_next(idle, next);
        },
        _ => {},
    }
}

/// With enough connected peers the node is online; with some, but not enough, it is degraded if
/// it has been initialized; with none, and connecting to some having failed, it is offline.
pub proof fn law_status_after_event(s: ManagerView, event: ConnectionManagerEvent)
    requires
        event !is Other,
    ensures
        ({
            let t = handle_event(s, event);
            let n = connected_peers(t.pool).len();
            &&& n >= t.config.min_desired_peers ==> t.status == ConnectivityStatus::Online
            &&& 0 < n < t.config.min_desired_peers ==> t.status == ConnectivityStatus::Degraded
                || t.status == ConnectivityStatus::Initializing
            &&& 0 < n < t.config.min_desired_peers && s.status != ConnectivityStatus::Initializing
                ==> t.status == ConnectivityStatus::Degraded
            &&& n == 0 < t.config.min_desired_peers && failed_peers(t.pool).len() > 0 ==> t.status
                == ConnectivityStatus::Offline
            &&& t.config == s.config
        }),
{
}

/// An event is only ever added to those that were published before, and an event of the
/// connection manager changes neither who is eligible nor the entry of any other peer.
pub proof fn law_event_is_local(s: ManagerView, event: ConnectionManagerEvent, other: NodeId)
    requires
        match event {
            ConnectionManagerEvent::PeerConnected(conn) => conn.peer_node_id != other,
            ConnectionManagerEvent::PeerDisconnected(node_id) => node_id != other,
            ConnectionManagerEvent::PeerConnectFailed(node_id) => node_id != other,
            ConnectionManagerEvent::Other => true,
        },
    ensures
        s.events.is_prefix_of(handle_event(s, event).events),
        handle_event(s, event).eligible == s.eligible,
        handle_event(s, event).pool.contains_key(other) == s.pool.contains_key(other),
        s.pool.contains_key(other) ==> handle_event(s, event).pool[other] == s.pool[other],
{
}

/// A peer that connects is announced with its connection; a peer that was connected and is not
/// any more, or that cannot be connected to, is announced as eligible exactly if it is.
pub proof fn law_peer_announced(s: ManagerView, event: ConnectionManagerEvent)
    ensures
        ({
            let events = handle_event(s, event).events;
            match event {
                ConnectionManagerEvent::PeerConnected(conn) => events.contains(
                    ConnectivityEvent::PeerConnected(conn),
                ),
                ConnectionManagerEvent::PeerDisconnected(id) => status_of(s.pool, id)
                    == ConnectionStatus::Connected ==> events.contains(
                    if s.eligible.contains(id) {
                        ConnectivityEvent::EligiblePeerDisconnected(id)
                    } else {
                        ConnectivityEvent::PeerDisconnected(id)
                    },
                ),
                ConnectionManagerEvent::PeerConnectFailed(id) => events.contains(
                    if s.eligible.contains(id) {
                        ConnectivityEvent::EligiblePeerConnectFailed(id)
                    } else {
                        ConnectivityEvent::PeerConnectFailed(id)
                    },
                ),
                ConnectionManagerEvent::Other => handle_event(s, event) == s,
            }
        }),
{
    match event {
        ConnectionManagerEvent::PeerConnected(conn) => {
            let t = check_status(
                ManagerView {
                    pool: crate::connection_pool::with_connection(s.pool, conn),
                    ..s
                },
            );
            assert(handle_event(s, event).events[t.events.len() as int]
                == ConnectivityEvent::PeerConnected(conn));
        },
        ConnectionManagerEvent::PeerDisconnected(id) => {
            let e = if s.eligible.contains(id) {
                ConnectivityEvent::EligiblePeerDisconnected(id)
            } else {
                ConnectivityEvent::PeerDisconnected(id)
            };
            if status_of(s.pool, id) == ConnectionStatus::Connected {
                assert(handle_event(s, event).events[s.events.len() as int] == e);
            }
        },
        ConnectionManagerEvent::PeerConnectFailed(id) => {
            let e = if s.eligible.contains(id) {
                ConnectivityEvent::EligiblePeerConnectFailed(id)
            } else {
                ConnectivityEvent::PeerConnectFailed(id)
            };
            assert(handle_event(s, event).events[s.events.len() as int] == e);
        },
        ConnectionManagerEvent::Other => {},
    }
}

} // verus!
