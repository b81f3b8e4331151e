//! Tasks and their jobs: a task that is pending or acquired has a job, and only
//! the jobs of other tasks end.

use vstd::prelude::*;
use crate::calls::World;
use crate::records::{PromiseView, StoredTaskView, TaskState, Text};
use crate::settlement::all_unblocked;
use crate::txn::{AfterView, EnqueueView, PayloadView, TxnView};

verus! {

/// Whether a task has work to do: it waits for its delivery or is acquired.
pub open spec fn works(task: StoredTaskView) -> bool {
    task.state == TaskState::Pending || task.state == TaskState::Acquired
}

/// Whether a task has no work until it is continued, or for good.
pub open spec fn rests(task: StoredTaskView) -> bool {
    task.state == TaskState::Halted || task.state == TaskState::Fulfilled
}

/// Whether `enqueue` is the dispatch of the task of `id` as `job`.
pub open spec fn dispatches(enqueue: EnqueueView, id: Text, job: Option<Text>) -> bool {
    job is Some && enqueue.job == job && enqueue.payload == PayloadView::Execute(id)
}

/// Whether a request dispatched the task of `id` as `job`.
pub open spec fn dispatched(t: TxnView, id: Text, job: Option<Text>) -> bool {
    exists|i: int| 0 <= i < t.enqueues.len() && dispatches(#[trigger] t.enqueues[i], id, job)
}

/// Whether one point of a request has the jobs and the later work of an earlier
/// one, and maybe more.
pub open spec fn extends(from: TxnView, to: TxnView) -> bool {
    &&& from.enqueues.len() <= to.enqueues.len()
    &&& forall|i: int|
        0 <= i < from.enqueues.len() ==> #[trigger] to.enqueues[i] == from.enqueues[i]
    &&& from.after.len() <= to.after.len()
    &&& forall|i: int| 0 <= i < from.after.len() ==> #[trigger] to.after[i] == from.after[i]
}

/// Whether no claim is released between two points of a request.
pub open spec fn quiet(from: TxnView, to: TxnView) -> bool {
    &&& extends(from, to)
    &&& forall|i: int|
        from.after.len() <= i < to.after.len() ==> !((#[trigger] to.after[i]) is Release)
}

/// Whether the task of `id` keeps its job between two points of a request, or
/// is dispatched as a new one; where it comes to work, its job is dispatched or
/// exists.
pub open spec fn carried(w: World, from: TxnView, to: TxnView, id: Text) -> bool {
    to.task(w, id) matches Some(task) ==> {
        &&& task.job is Some ==> dispatched(to, id, task.job) || (from.task(w, id) matches Some(
            before,
        ) && before.job == task.job)
        &&& works(task) ==> dispatched(to, id, task.job) || (task.job is Some && w.jobs.contains(
            task.job->0,
        )) || (from.task(w, id) matches Some(before) && works(before) && before.job == task.job)
    }
}

/// Whether every task is carried between two points of a request.
#[verifier::opaque]
pub open spec fn carries(w: World, from: TxnView, to: TxnView) -> bool {
    extends(from, to) && forall|id: Text| #[trigger] carried(w, from, to, id)
}

/// Whether the claims released between two points of a request are of fulfilled
/// tasks.
#[verifier::opaque]
pub open spec fn frees(w: World, from: TxnView, to: TxnView) -> bool {
    forall|i: int|
        from.after.len() <= i < to.after.len() ==> ((#[trigger] to.after[i]) matches AfterView::Release(
            id,
        ) ==> to.task(w, id) matches Some(task) && task.state == TaskState::Fulfilled)
}

/// Whether the claims released between two points of a request are of tasks
/// without work.
pub open spec fn releases(w: World, from: TxnView, to: TxnView) -> bool {
    forall|i: int|
        from.after.len() <= i < to.after.len() ==> ((#[trigger] to.after[i]) matches AfterView::Release(
            id,
        ) ==> to.task(w, id) matches Some(task) && rests(task))
}

/// Fulfilled tasks have no work.
pub proof fn frees_releases(w: World, from: TxnView, to: TxnView)
    requires
        frees(w, from, to),
    ensures
        releases(w, from, to),
{
    reveal(frees);
}

/// A dispatch stays.
proof fn dispatched_stays(from: TxnView, to: TxnView, id: Text, job: Option<Text>)
    requires
        extends(from, to),
        dispatched(from, id, job),
    ensures
        dispatched(to, id, job),
{
    let i = choose|i: int|
        0 <= i < from.enqueues.len() && dispatches(#[trigger] from.enqueues[i], id, job);
    assert(to.enqueues[i] == from.enqueues[i]);
}

/// Two steps after each other carry what each does.
pub proof fn steps_carry(w: World, a: TxnView, b: TxnView, c: TxnView)
    requires
        carries(w, a, b),
        carries(w, b, c),
    ensures
        carries(w, a, c),
{
    reveal(carries);
    assert forall|i: int| 0 <= i < a.enqueues.len() implies #[trigger] c.enqueues[i]
        == a.enqueues[i] by {
        assert(b.enqueues[i] == a.enqueues[i]);
    }
    assert forall|i: int| 0 <= i < a.after.len() implies #[trigger] c.after[i] == a.after[i] by {
        assert(b.after[i] == a.after[i]);
    }
    assert forall|id: Text| #[trigger] carried(w, a, c, id) by {
        assert(carried(w, a, b, id));
        assert(carried(w, b, c, id));
        if let Some(task) = c.task(w, id) {
            if let Some(before) = b.task(w, id) {
                if dispatched(b, id, before.job) {
                    dispatched_stays(b, c, id, before.job);
                }
            }
        }
    }
}

/// Two steps after each other free what each does, where fulfilled tasks stay
/// fulfilled.
pub proof fn steps_free(w: World, a: TxnView, b: TxnView, c: TxnView)
    requires
        frees(w, a, b),
        frees(w, b, c),
        carries(w, b, c),
        forall|id: Text|
            (#[trigger] b.task(w, id)) matches Some(before) ==> before.state == TaskState::Fulfilled
                ==> c.task(w, id) == b.task(w, id),
    ensures
        frees(w, a, c),
{
    reveal(carries);
    reveal(frees);
    assert forall|i: int| a.after.len() <= i < c.after.len() implies ((
    #[trigger] c.after[i]) matches AfterView::Release(id) ==> c.task(w, id) matches Some(task)
        && task.state == TaskState::Fulfilled) by {
        if i < b.after.len() {
            assert(c.after[i] == b.after[i]);
            if let AfterView::Release(id) = b.after[i] {
                assert(b.task(w, id) is Some);
            }
        }
    }
}

/// A step that writes no task and releases no claim carries and frees.
pub proof fn quiet_steps_carry(w: World, from: TxnView, to: TxnView)
    requires
        quiet(from, to),
        forall|id: Text| #[trigger] to.task(w, id) == from.task(w, id),
    ensures
        carries(w, from, to),
        frees(w, from, to),
{
    reveal(carries);
    reveal(frees);
    assert forall|id: Text| #[trigger] carried(w, from, to, id) by {
        assert(to.task(w, id) == from.task(w, id));
    }
}

/// A step that writes one task, which keeps its job or is dispatched, carries.
pub proof fn task_writes_carry(w: World, from: TxnView, to: TxnView, id: Text)
    requires
        extends(from, to),
        forall|other: Text| other != id ==> #[trigger] to.task(w, other) == from.task(w, other),
        carried(w, from, to, id),
    ensures
        carries(w, from, to),
{
    reveal(carries);
    assert forall|other: Text| #[trigger] carried(w, from, to, other) by {
        if other != id {
            assert(to.task(w, other) == from.task(w, other));
        }
    }
}

/// A step that releases no claim frees none.
pub proof fn quiet_steps_free(w: World, from: TxnView, to: TxnView)
    requires
        quiet(from, to),
    ensures
        frees(w, from, to),
{
    reveal(frees);
}

/// Unblock messages release no claim.
pub proof fn unblocks_are_quiet(t: TxnView, listeners: Seq<Text>, promise: PromiseView)
    ensures
        quiet(t, all_unblocked(t, listeners, promise)),
    decreases listeners.len(),
{
    if listeners.len() > 0 {
        unblocks_are_quiet(t, listeners.drop_last(), promise);
    }
}

} // verus!
