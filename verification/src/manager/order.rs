//! In which order the manager works through a whole request, and what the pool holds then.
use vstd::prelude::*;

use crate::connection_pool::{
    entry_of, status_of, with_status, without_stale, ConnectionStatus,
    PeerConnectionState, PoolView,
};
use crate::manager::laws::{actions, all_succeed, lemma_connect_next, run};
use crate::manager::model::{
    add_next, add_status, connect_next, disconnect_next, enlist, refresh_status, resume,
    settled_until, view_wf, ManagerView, Outcome, TaskView,
};
use crate::manager::ManagerAction;
use crate::node_id::NodeId;
use crate::peer::PeerConnection;
use crate::requester::ConnectivityError;

verus! {

/// The peers that are dialled when the pool is refreshed.
pub open spec fn due(pool: PoolView) -> spec_fn(NodeId) -> bool {
    |id: NodeId| refresh_status(status_of(pool, id)) is Some
}

/// The peers that are dialled when they become eligible.
pub open spec fn wanting(pool: PoolView) -> spec_fn(NodeId) -> bool {
    |id: NodeId| add_status(status_of(pool, id)) is Some
}

/// A dial of each of these peers, in order.
pub open spec fn dial_each(ids: Seq<NodeId>) -> Seq<ManagerAction> {
    ids.map_values(|id: NodeId| ManagerAction::DialPeer(id))
}

/// A closing of each of these connections, in order.
pub open spec fn close_each(conns: Seq<PeerConnection>) -> Seq<ManagerAction> {
    conns.map_values(|conn: PeerConnection| ManagerAction::Disconnect(conn))
}

/// The pool once these peers are being dialled by a refresh.
pub open spec fn redialled(pool: PoolView, ids: Seq<NodeId>) -> PoolView
    decreases ids.len(),
{
    if ids.len() == 0 {
        pool
    } else {
        redialled(
            with_status(pool, ids[0], refresh_status(status_of(pool, ids[0])).unwrap()),
            ids.skip(1),
        )
    }
}

/// The eligible peers once these were made eligible: those that are new follow, in the order in
/// which they first occur.
pub open spec fn extended(eligible: Seq<NodeId>, ids: Seq<NodeId>) -> Seq<NodeId>
    decreases ids.len(),
{
    if ids.len() == 0 {
        eligible
    } else if eligible.contains(ids[0]) {
        extended(eligible, ids.skip(1))
    } else {
        extended(eligible.push(ids[0]), ids.skip(1))
    }
}

proof fn lemma_filter_head(ids: Seq<NodeId>, pred: spec_fn(NodeId) -> bool)
    requires
        ids.len() > 0,
    ensures
        ids.filter(pred) == if pred(ids[0]) {
            seq![ids[0]] + ids.skip(1).filter(pred)
        } else {
            ids.skip(1).filter(pred)
        },
{
    let first = seq![ids[0]];
    assert(ids =~= first + ids.skip(1));
    Seq::filter_distributes_over_add(first, ids.skip(1), pred);
    reveal(Seq::filter);
    assert(first.drop_last() =~= Seq::empty());
    assert(first.drop_last().filter(pred) =~= Seq::empty());
    if pred(ids[0]) {
        assert(first.filter(pred) =~= first);
    } else {
        assert(first.filter(pred) =~= Seq::empty());
        assert(Seq::empty() + ids.skip(1).filter(pred) =~= ids.skip(1).filter(pred));
    }
}

proof fn lemma_filter_same(
    ids: Seq<NodeId>,
    one: spec_fn(NodeId) -> bool,
    other: spec_fn(NodeId) -> bool,
)
    requires
        forall|i: int| 0 <= i < ids.len() ==> one(#[trigger] ids[i]) == other(ids[i]),
    ensures
        ids.filter(one) == ids.filter(other),
    decreases ids.len(),
{
    reveal(Seq::filter);
    if ids.len() > 0 {
        let front = ids.drop_last();
        assert forall|i: int| 0 <= i < front.len() implies one(#[trigger] front[i]) == other(
            front[i],
        ) by {
            assert(front[i] == ids[i]);
        }
        lemma_filter_same(front, one, other);
        assert(ids[ids.len() - 1] == ids.last());
    }
}

pub(crate) proof fn lemma_filter_distinct(ids: Seq<NodeId>, pred: spec_fn(NodeId) -> bool)
    requires
        ids.no_duplicates(),
    ensures
        ids.filter(pred).no_duplicates(),
        forall|id: NodeId| #[trigger]
            ids.filter(pred).contains(id) <==> ids.contains(id) && pred(id),
    decreases ids.len(),
{
    if ids.len() == 0 {
        reveal(Seq::filter);
        assert(ids.filter(pred) =~= Seq::empty());
    } else {
        let rest = ids.skip(1);
        let after = rest.filter(pred);
        let all = ids.filter(pred);
        lemma_filter_head(ids, pred);
        assert(rest.no_duplicates()) by {
            assert forall|i: int, j: int|
                0 <= i < rest.len() && 0 <= j < rest.len() && i != j implies rest[i] != rest[j] by {
                assert(rest[i] == ids[i + 1] && rest[j] == ids[j + 1]);
            }
        }
        lemma_filter_distinct(rest, pred);
        assert(!rest.contains(ids[0])) by {
            if rest.contains(ids[0]) {
                let k = choose|k: int| 0 <= k < rest.len() && rest[k] == ids[0];
                assert(ids[k + 1] == ids[0]);
            }
        }
        if pred(ids[0]) {
            assert(!after.contains(ids[0]));
            assert forall|i: int, j: int|
                0 <= i < all.len() && 0 <= j < all.len() && i != j implies all[i] != all[j] by {
                if i > 0 {
                    assert(all[i] == after[i - 1]);
                    assert(after.contains(all[i]));
                }
                if j > 0 {
                    assert(all[j] == after[j - 1]);
                    assert(after.contains(all[j]));
                }
            }
        }
        assert forall|id: NodeId| #[trigger] all.contains(id) <==> ids.contains(id) && pred(id) by {
            lemma_member(ids, id);
            if pred(ids[0]) {
                lemma_member(all, id);
                assert(all.skip(1) =~= after);
            }
        }
    }
}

proof fn lemma_member(ids: Seq<NodeId>, id: NodeId)
    requires
        ids.len() > 0,
    ensures
        ids.contains(id) <==> ids[0] == id || ids.skip(1).contains(id),
{
    if ids.contains(id) {
        let k = choose|k: int| 0 <= k < ids.len() && ids[k] == id;
        if k > 0 {
            assert(ids.skip(1)[k - 1] == id);
        }
    }
    if ids.skip(1).contains(id) {
        let k = choose|k: int| 0 <= k < ids.skip(1).len() && ids.skip(1)[k] == id;
        assert(ids[k + 1] == id);
    }
}

/// What the pool holds once peers are being dialled by a refresh: each of them has its new status,
/// and keeps its connection; the entries of all other peers stay.
pub proof fn law_redialled(pool: PoolView, ids: Seq<NodeId>, id: NodeId)
    requires
        ids.no_duplicates(),
        forall|i: int| 0 <= i < ids.len() ==> due(pool)(#[trigger] ids[i]),
    ensures
        ids.contains(id) ==> redialled(pool, ids).contains_key(id) && redialled(pool, ids)[id] == (
        PeerConnectionState {
            status: refresh_status(status_of(pool, id)).unwrap(),
            ..entry_of(pool, id)
        }),
        !ids.contains(id) ==> redialled(pool, ids).contains_key(id) == pool.contains_key(id),
        !ids.contains(id) && pool.contains_key(id) ==> redialled(pool, ids)[id] == pool[id],
    decreases ids.len(),
{
    if ids.len() > 0 {
        let rest = ids.skip(1);
        let next = with_status(pool, ids[0], refresh_status(status_of(pool, ids[0])).unwrap());
        lemma_member(ids, id);
        assert forall|i: int| 0 <= i < rest.len() implies due(next)(#[trigger] rest[i]) by {
            assert(rest[i] == ids[i + 1]);
            assert(ids[0] != ids[i + 1]);
            assert(due(pool)(ids[i + 1]));
        }
        assert(rest.no_duplicates()) by {
            assert forall|i: int, j: int|
                0 <= i < rest.len() && 0 <= j < rest.len() && i != j implies rest[i] != rest[j] by {
                assert(rest[i] == ids[i + 1] && rest[j] == ids[j + 1]);
            }
        }
        law_redialled(next, rest, id);
        if rest.contains(id) {
            let k = choose|k: int| 0 <= k < rest.len() && rest[k] == id;
            assert(ids[k + 1] == id);
        }
    }
}

/// How many of these outcomes come before the first failure.
pub open spec fn before_failure(outcomes: Seq<Outcome>) -> nat
    decreases outcomes.len(),
{
    if outcomes.len() == 0 || outcomes[0] is Err {
        0
    } else {
        1 + before_failure(outcomes.skip(1))
    }
}

/// The state and the last action of a refresh that has these peers to dial, given what comes of
/// the dials. After the first dial that fails nothing more is done, and nothing is undone.
pub open spec fn dials_done(s: ManagerView, todo: Seq<NodeId>, outcomes: Seq<Outcome>) -> (
    ManagerView,
    ManagerAction,
) {
    let k = before_failure(outcomes) as int;
    if k < todo.len() {
        (
            ManagerView { pool: redialled(s.pool, todo.take(k + 1)), task: TaskView::Idle, ..s },
            ManagerAction::Done(
                Err(ConnectivityError::ConnectionManagerError(outcomes[k]->Err_0)),
            ),
        )
    } else {
        (
            ManagerView {
                pool: without_stale(redialled(s.pool, todo), s.eligible),
                task: TaskView::Idle,
                ..s
            },
            ManagerAction::Done(Ok(())),
        )
    }
}

/// The peers that are dialled of those that are to be, given what comes of the dials: those up to
/// the first dial that fails.
pub open spec fn dialled(todo: Seq<NodeId>, outcomes: Seq<Outcome>) -> Seq<NodeId> {
    let k = before_failure(outcomes) as int;
    if k < todo.len() {
        todo.take(k + 1)
    } else {
        todo
    }
}

proof fn lemma_connect_order(s: ManagerView, next: int, outcomes: Seq<Outcome>)
    requires
        view_wf(s),
        s.task is Idle,
        0 <= next <= s.eligible.len(),
        settled_until(s.eligible, s.pool, next),
        outcomes.len() >= s.eligible.skip(next).filter(due(s.pool)).len(),
    ensures
        ({
            let todo = s.eligible.skip(next).filter(due(s.pool));
            let step = connect_next(s, next);
            &&& run(step, outcomes) == dials_done(s, todo, outcomes)
            &&& actions(step, outcomes) == dial_each(dialled(todo, outcomes)).push(
                dials_done(s, todo, outcomes).1,
            )
        }),
    decreases s.eligible.len() - next,
{
    let left = s.eligible.skip(next);
    let todo = left.filter(due(s.pool));
    let step = connect_next(s, next);
    if next == s.eligible.len() {
        reveal(Seq::filter);
        assert(left =~= Seq::empty());
        assert(todo =~= Seq::empty());
        assert(dial_each(todo) =~= Seq::empty());
        assert(dial_each(todo).push(step.1) =~= seq![step.1]);
    } else {
        let node_id = s.eligible[next];
        let later = s.eligible.skip(next + 1);
        assert(left[0] == node_id);
        assert(left.skip(1) =~= later);
        lemma_filter_head(left, due(s.pool));
        if !due(s.pool)(node_id) {
            lemma_connect_order(s, next + 1, outcomes);
        } else {
            lemma_connect_next(s, next);
            let t = ManagerView { task: TaskView::Idle, ..step.0 };
            let rest = outcomes.skip(1);
            let after = later.filter(due(s.pool));
            assert(todo == seq![node_id] + after);
            assert forall|i: int| 0 <= i < later.len() implies due(s.pool)(#[trigger] later[i])
                == due(t.pool)(later[i]) by {
                assert(later[i] == s.eligible[next + 1 + i]);
                assert(later[i] != node_id);
            }
            lemma_filter_same(later, due(s.pool), due(t.pool));
            assert(todo.skip(1) =~= after);
            if outcomes[0] is Err {
                assert(todo.take(1) =~= seq![node_id]);
                assert(seq![node_id].skip(1) =~= Seq::<NodeId>::empty());
                assert(redialled(t.pool, seq![node_id].skip(1)) == t.pool);
                assert(redialled(s.pool, todo.take(1)) == t.pool);
                let end = resume(step.0, outcomes[0]);
                assert(run(end, rest) == end);
                assert(actions(end, rest) == seq![end.1]);
                assert(dial_each(todo.take(1)).push(end.1) =~= seq![step.1] + seq![end.1]);
            } else {
                lemma_connect_order(t, next + 1, rest);
                let k = before_failure(rest) as int;
                assert(before_failure(outcomes) == k + 1);
                if k < after.len() {
                    assert(todo.take(k + 2).skip(1) =~= after.take(k + 1));
                    assert(todo.take(k + 2)[0] == node_id);
                    lemma_before_failure(rest);
                    assert(outcomes[k + 1] == rest[k]);
                    assert(redialled(s.pool, todo.take(k + 2)) == redialled(
                        t.pool,
                        after.take(k + 1),
                    ));
                    assert(dial_each(todo.take(k + 2)) =~= seq![step.1] + dial_each(
                        after.take(k + 1),
                    ));
                } else {
                    assert(redialled(s.pool, todo) == redialled(t.pool, after));
                    assert(dial_each(todo) =~= seq![step.1] + dial_each(after));
                }
                let end = dials_done(s, todo, outcomes);
                assert(end == dials_done(t, after, rest));
                assert((seq![step.1] + dial_each(dialled(after, rest))).push(end.1) =~= seq![step.1]
                    + dial_each(dialled(after, rest)).push(end.1));
            }
        }
    }
}

proof fn lemma_before_failure(outcomes: Seq<Outcome>)
    ensures
        before_failure(outcomes) <= outcomes.len(),
        before_failure(outcomes) < outcomes.len() ==> outcomes[before_failure(outcomes) as int]
            is Err,
        forall|i: int| 0 <= i < before_failure(outcomes) ==> #[trigger] outcomes[i] is Ok,
        all_succeed(outcomes) ==> before_failure(outcomes) == outcomes.len(),
    decreases outcomes.len(),
{
    if outcomes.len() > 0 && outcomes[0] is Ok {
        let rest = outcomes.skip(1);
        lemma_before_failure(rest);
        let k = before_failure(rest) as int;
        if k < rest.len() {
            assert(outcomes[k + 1] == rest[k]);
        }
        assert forall|i: int| 0 <= i < k + 1 implies #[trigger] outcomes[i] is Ok by {
            if i > 0 {
                assert(rest[i - 1] == outcomes[i]);
            }
        }
        if all_succeed(outcomes) {
            assert forall|i: int| 0 <= i < rest.len() implies #[trigger] rest[i] is Ok by {
                assert(rest[i] == outcomes[i + 1]);
            }
        }
    }
}

/// A refresh closes the unused connections in order, and then dials the eligible peers that are
/// due, in the order in which they are eligible, each of them once, up to the first dial that
/// fails. What it comes to is `dials_done`.
pub proof fn law_refresh_in_order(
    s: ManagerView,
    unused: Seq<PeerConnection>,
    outcomes: Seq<Outcome>,
)
    requires
        view_wf(s),
        s.task is Idle,
        outcomes.len() >= unused.len() + s.eligible.filter(due(s.pool)).len(),
    ensures
        ({
            let todo = s.eligible.filter(due(s.pool));
            let of_dials = outcomes.skip(unused.len() as int);
            let step = disconnect_next(s, unused);
            &&& todo.no_duplicates()
            &&& run(step, outcomes) == dials_done(s, todo, of_dials)
            &&& actions(step, outcomes) == close_each(unused) + dial_each(
                dialled(todo, of_dials),
            ).push(dials_done(s, todo, of_dials).1)
        }),
    decreases unused.len(),
{
    let todo = s.eligible.filter(due(s.pool));
    let step = disconnect_next(s, unused);
    lemma_filter_distinct(s.eligible, due(s.pool));
    if unused.len() == 0 {
        assert(s.eligible.skip(0) =~= s.eligible);
        assert(outcomes.skip(0) =~= outcomes);
        lemma_connect_order(s, 0, outcomes);
        assert(close_each(unused) =~= Seq::empty());
        assert(close_each(unused) + actions(step, outcomes) =~= actions(step, outcomes));
    } else {
        let rest = outcomes.skip(1);
        let later = unused.skip(1);
        assert(ManagerView { task: TaskView::Idle, ..step.0 } == s);
        assert(resume(step.0, outcomes[0]) == disconnect_next(s, later));
        law_refresh_in_order(s, later, rest);
        assert(rest.skip(later.len() as int) =~= outcomes.skip(unused.len() as int));
        assert(close_each(unused) =~= seq![step.1] + close_each(later));
        let of_dials = outcomes.skip(unused.len() as int);
        let dials = dial_each(dialled(todo, of_dials)).push(dials_done(s, todo, of_dials).1);
        assert(seq![step.1] + (close_each(later) + dials) =~= close_each(unused) + dials);
    }
}

/// At the first dial of a refresh that fails, the refresh ends with the cause. The peers up to that
/// one keep the status of a peer that is dialled; every other entry is as it was, and none is
/// forgotten.
pub proof fn law_refresh_stops(
    s: ManagerView,
    unused: Seq<PeerConnection>,
    outcomes: Seq<Outcome>,
    k: int,
    id: NodeId,
)
    requires
        view_wf(s),
        s.task is Idle,
        outcomes.len() >= unused.len() + s.eligible.filter(due(s.pool)).len(),
        0 <= k < s.eligible.filter(due(s.pool)).len(),
        all_succeed(outcomes.skip(unused.len() as int).take(k)),
        outcomes[unused.len() + k] is Err,
    ensures
        ({
            let todo = s.eligible.filter(due(s.pool));
            let (t, action) = run(disconnect_next(s, unused), outcomes);
            &&& action == ManagerAction::Done(
                Err(
                    ConnectivityError::ConnectionManagerError(outcomes[unused.len() + k]->Err_0),
                ),
            )
            &&& dialled(todo, outcomes.skip(unused.len() as int)) == todo.take(k + 1)
            &&& t == ManagerView { pool: t.pool, task: TaskView::Idle, ..s }
            &&& todo.take(k + 1).contains(id) ==> t.pool.contains_key(id) && t.pool[id] == (
            PeerConnectionState {
                status: refresh_status(status_of(s.pool, id)).unwrap(),
                ..entry_of(s.pool, id)
            })
            &&& !todo.take(k + 1).contains(id) ==> t.pool.contains_key(id) == s.pool.contains_key(
                id,
            ) && (s.pool.contains_key(id) ==> t.pool[id] == s.pool[id])
        }),
{
    let todo = s.eligible.filter(due(s.pool));
    let of_dials = outcomes.skip(unused.len() as int);
    law_refresh_in_order(s, unused, outcomes);
    lemma_before_failure(of_dials);
    let first = before_failure(of_dials) as int;
    assert(of_dials[k] == outcomes[unused.len() + k]);
    if first < k {
        assert(of_dials.take(k)[first] == of_dials[first]);
    }
    assert(first == k);
    lemma_filter_distinct(s.eligible, due(s.pool));
    lemma_taken(todo, k + 1, s.pool, s.eligible);
    law_redialled(s.pool, todo.take(k + 1), id);
}

proof fn lemma_taken(todo: Seq<NodeId>, n: int, pool: PoolView, eligible: Seq<NodeId>)
    requires
        0 <= n <= todo.len(),
        todo.no_duplicates(),
        forall|id: NodeId| #[trigger]
            todo.contains(id) <==> eligible.contains(id) && due(pool)(id),
    ensures
        todo.take(n).no_duplicates(),
        forall|i: int| 0 <= i < n ==> due(pool)(#[trigger] todo.take(n)[i]),
{
    let part = todo.take(n);
    assert forall|i: int, j: int| 0 <= i < n && 0 <= j < n && i != j implies part[i] != part[j] by {
        assert(part[i] == todo[i] && part[j] == todo[j]);
    }
    assert forall|i: int| 0 <= i < n implies due(pool)(#[trigger] part[i]) by {
        assert(todo.contains(todo[i]));
    }
}

/// If no dial of a refresh fails, every peer that was due has its new status, and every other entry
/// is as it was, but for the inactive peers that are not eligible, which are forgotten.
pub proof fn law_refresh_succeeds(
    s: ManagerView,
    unused: Seq<PeerConnection>,
    outcomes: Seq<Outcome>,
    id: NodeId,
)
    requires
        view_wf(s),
        s.task is Idle,
        outcomes.len() >= unused.len() + s.eligible.filter(due(s.pool)).len(),
        all_succeed(outcomes.skip(unused.len() as int)),
    ensures
        ({
            let todo = s.eligible.filter(due(s.pool));
            let (t, action) = run(disconnect_next(s, unused), outcomes);
            &&& action == ManagerAction::Done(Ok(()))
            &&& dialled(todo, outcomes.skip(unused.len() as int)) == todo
            &&& t == ManagerView { pool: t.pool, task: TaskView::Idle, ..s }
            &&& todo.contains(id) ==> t.pool.contains_key(id) && t.pool[id] == (
            PeerConnectionState {
                status: refresh_status(status_of(s.pool, id)).unwrap(),
                ..entry_of(s.pool, id)
            })
            &&& !todo.contains(id) ==> t.pool.contains_key(id) == (s.pool.contains_key(id)
                && !s.pool[id].inactive())
            &&& !todo.contains(id) && t.pool.contains_key(id) ==> t.pool[id] == s.pool[id]
        }),
{
    let todo = s.eligible.filter(due(s.pool));
    let of_dials = outcomes.skip(unused.len() as int);
    law_refresh_in_order(s, unused, outcomes);
    lemma_before_failure(of_dials);
    lemma_filter_distinct(s.eligible, due(s.pool));
    lemma_taken(todo, todo.len() as int, s.pool, s.eligible);
    assert(todo.take(todo.len() as int) =~= todo);
    law_redialled(s.pool, todo, id);
    assert(todo.contains(id) <==> s.eligible.contains(id) && due(s.pool)(id));
}

/// After a request to add eligible peers, the eligible peers are those of before, followed by the
/// new ones in the order in which they first occur, whatever comes of the dials.
pub proof fn law_eligible_in_order(s: ManagerView, ids: Seq<NodeId>, outcomes: Seq<Outcome>)
    requires
        s.task is Idle,
        outcomes.len() >= ids.len(),
    ensures
        run(add_next(s, ids), outcomes).0.eligible == extended(s.eligible, ids),
        run(add_next(s, ids), outcomes).1 == ManagerAction::Done(Ok(())),
    decreases ids.len(),
{
    if ids.len() > 0 {
        let node_id = ids[0];
        let rest = ids.skip(1);
        let t = enlist(s, node_id);
        let step = add_next(s, ids);
        match add_status(status_of(t.pool, node_id)) {
            None => {
                law_eligible_in_order(t, rest, outcomes);
            },
            Some(status) => {
                let idle = ManagerView { task: TaskView::Idle, ..step.0 };
                let from = if outcomes[0] is Err && status == ConnectionStatus::Retrying {
                    ManagerView { pool: idle.pool.remove(node_id), ..idle }
                } else {
                    idle
                };
                assert(resume(step.0, outcomes[0]) == add_next(from, rest));
                law_eligible_in_order(from, rest, outcomes.skip(1));
            },
        }
    }
}

/// The entry of a peer that was dialled because it became eligible, given what came of the dial:
/// none if the dial failed and connecting to the peer had failed before.
pub open spec fn entry_after_dial(pool: PoolView, id: NodeId, outcome: Outcome) -> Option<
    PeerConnectionState,
> {
    let status = add_status(status_of(pool, id)).unwrap();
    if outcome is Err && status == ConnectionStatus::Retrying {
        None
    } else {
        Some(PeerConnectionState { status, ..entry_of(pool, id) })
    }
}

/// The entry of a peer in the pool, if it has one.
pub open spec fn entry_in(pool: PoolView, id: NodeId) -> Option<PeerConnectionState> {
    if pool.contains_key(id) {
        Some(pool[id])
    } else {
        None
    }
}

/// A request to add different peers dials those that want it, in the order in which they are
/// given, each of them once, whatever comes of the dials. What becomes of each of them depends on
/// its own dial alone, and every other entry is as it was.
pub proof fn law_add_in_order(
    s: ManagerView,
    ids: Seq<NodeId>,
    outcomes: Seq<Outcome>,
    j: int,
    other: NodeId,
)
    requires
        s.task is Idle,
        ids.no_duplicates(),
        outcomes.len() >= ids.filter(wanting(s.pool)).len(),
    ensures
        ({
            let todo = ids.filter(wanting(s.pool));
            let step = add_next(s, ids);
            let t = run(step, outcomes).0;
            &&& todo.no_duplicates()
            &&& actions(step, outcomes) == dial_each(todo).push(ManagerAction::Done(Ok(())))
            &&& run(step, outcomes).1 == ManagerAction::Done(Ok(()))
            &&& 0 <= j < todo.len() ==> entry_in(t.pool, todo[j]) == entry_after_dial(
                s.pool,
                todo[j],
                outcomes[j],
            )
            &&& !todo.contains(other) ==> entry_in(t.pool, other) == entry_in(s.pool, other)
        }),
    decreases ids.len(),
{
    let todo = ids.filter(wanting(s.pool));
    let step = add_next(s, ids);
    lemma_filter_distinct(ids, wanting(s.pool));
    if ids.len() == 0 {
        reveal(Seq::filter);
        assert(todo =~= Seq::empty());
        assert(dial_each(todo).push(step.1) =~= seq![step.1]);
    } else {
        let node_id = ids[0];
        let rest = ids.skip(1);
        let t = enlist(s, node_id);
        lemma_filter_head(ids, wanting(s.pool));
        assert(rest.no_duplicates()) by {
            assert forall|i: int, k: int|
                0 <= i < rest.len() && 0 <= k < rest.len() && i != k implies rest[i] != rest[k] by {
                assert(rest[i] == ids[i + 1] && rest[k] == ids[k + 1]);
            }
        }
        assert(status_of(t.pool, node_id) == status_of(s.pool, node_id));
        match add_status(status_of(t.pool, node_id)) {
            None => {
                assert(t.pool =~= s.pool);
                law_add_in_order(t, rest, outcomes, j, other);
            },
            Some(status) => {
                let idle = ManagerView { task: TaskView::Idle, ..step.0 };
                let from = if outcomes[0] is Err && status == ConnectionStatus::Retrying {
                    ManagerView { pool: idle.pool.remove(node_id), ..idle }
                } else {
                    idle
                };
                let after = rest.filter(wanting(s.pool));
                assert forall|i: int| 0 <= i < rest.len() implies wanting(s.pool)(
                    #[trigger] rest[i],
                ) == wanting(from.pool)(rest[i]) && rest[i] != node_id by {
                    assert(rest[i] == ids[i + 1]);
                }
                lemma_filter_same(rest, wanting(s.pool), wanting(from.pool));
                lemma_filter_distinct(rest, wanting(s.pool));
                assert(resume(step.0, outcomes[0]) == add_next(from, rest));
                assert(todo.skip(1) =~= after);
                lemma_member(todo, other);
                assert(!after.contains(node_id)) by {
                    if rest.contains(node_id) {
                        let k = choose|k: int| 0 <= k < rest.len() && rest[k] == node_id;
                        assert(ids[k + 1] == ids[0]);
                    }
                }
                law_add_in_order(from, rest, outcomes.skip(1), j - 1, node_id);
                law_add_in_order(from, rest, outcomes.skip(1), j - 1, other);
                assert(dial_each(todo) =~= seq![step.1] + dial_each(after));
                let done = ManagerAction::Done(Ok(()));
                assert((seq![step.1] + dial_each(after)).push(done) =~= seq![step.1] + dial_each(
                    after,
                ).push(done));
                if 0 < j < todo.len() {
                    assert(todo[j] == after[j - 1]);
                    assert(after.contains(after[j - 1]));
                    assert(outcomes[j] == outcomes.skip(1)[j - 1]);
                }
            },
        }
    }
}

} // verus!
