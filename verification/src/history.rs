//! What holds from request to request: the records a request commits are the
//! ones the next request reads, they stay in agreement, and nothing that is
//! settled changes.

use vstd::prelude::*;
use crate::agreement::{
    a_settled_claim_has_no_work, agree, created_keeps, deadlines_are_applied,
    deliveries_keep_agreement, goes_on, operations_keep_agreement, promise_goes_on,
    same_promise, same_writes_keep, settled_chain_settles, task_goes_on,
    timers_keep_agreement, valid,
};
use crate::awaiting::{awaits, minded_steps_forget_none, none_forgotten, sleeps, will_wake};
use crate::calls::{at, World};
use crate::commit::EffectsView;
use crate::creation::ModeView;
use crate::data::{CreateView, SettleView};
use crate::envelope::{ReplyDataView, ReplyView};
use crate::index::{files, has_entry, in_branch};
use crate::jobs::{
    carried, carries, dispatched, dispatches, frees_releases, releases, works,
};
use crate::kernel::{delivered, performed, DeliveryView, OperationData};
use crate::keys::KeyView;
use crate::laws::same_effects;
use crate::outcome::OutcomeView;
use crate::promises::{
    creation, due, heard_by, listener_registration, promise_settlement, with_promise,
};
use crate::records::{ScheduleView, StoredPromiseView, StoredTaskView, TaskState, Text};
use crate::settlement::{
    all_called_back, all_timed_out, all_unblocked_keeps, cleared, expired, is_overdue, settled,
    task_ended, timed_out,
};
use crate::timers::{acts, fired_timer, TimerView};
use crate::txn::{AfterView, RowView, TxnView};

verus! {

/// Whether `next` holds the records that the request `t` over `w` sees at its
/// end: it has committed.
pub open spec fn committed(w: World, t: TxnView, next: World) -> bool {
    &&& forall|id: Text| #[trigger] at(next.promises, id) == t.promise(w, id)
    &&& forall|id: Text| #[trigger] at(next.tasks, id) == t.task(w, id)
    &&& forall|id: Text| #[trigger] at(next.schedules, id) == t.schedule(w, id)
    &&& forall|branch: Text, id: Text| #[trigger]
        next.index.contains((branch, id)) == has_entry(w, t, branch, id)
}

/// Whether `next` holds the records of `w`.
pub open spec fn unchanged(w: World, next: World) -> bool {
    &&& next.promises == w.promises
    &&& next.tasks == w.tasks
    &&& next.schedules == w.schedules
    &&& next.index == w.index
}

/// Whether `next` is the queue after a request over `w` that ended at `t`.
pub open spec fn ended(w: World, t: TxnView, outcome: OutcomeView, next: World) -> bool {
    match outcome {
        OutcomeView::Commit(_) => committed(w, t, next),
        OutcomeView::Settle(_, _) => committed(w, t, next) || unchanged(w, next),
        OutcomeView::Reply(_) => unchanged(w, next),
        OutcomeView::Orphan(_) => unchanged(w, next),
    }
}

/// Whether the stored records agree with each other.
pub open spec fn in_agreement(w: World) -> bool {
    forall|id: Text|
        #![trigger at(w.promises, id)]
        #![trigger at(w.tasks, id)]
        agree(id, at(w.promises, id), at(w.tasks, id))
}

/// Whether the stored records go on from `w` to `next`: no promise or task is
/// lost, and none that is settled or fulfilled changes.
pub open spec fn stays(w: World, next: World) -> bool {
    &&& forall|id: Text|
        #![trigger at(next.promises, id)]
        promise_goes_on(at(w.promises, id), at(next.promises, id))
    &&& forall|id: Text|
        #![trigger at(next.tasks, id)]
        task_goes_on(at(w.tasks, id), at(next.tasks, id))
}

/// A request that has done nothing sees the stored records.
pub proof fn a_new_request_sees_the_store(w: World, preload_limit: usize, now: i64, id: Text)
    ensures
        TxnView::start(preload_limit, now).promise(w, id) == at(w.promises, id),
        TxnView::start(preload_limit, now).task(w, id) == at(w.tasks, id),
        TxnView::start(preload_limit, now).schedule(w, id) == at(w.schedules, id),
{
}

/// The records that a request has written are the ones it reads back.
pub proof fn a_request_reads_its_writes(w: World, t: TxnView)
    ensures
        forall|row: StoredPromiseView| #[trigger]
            t.put_promise(row).promise(w, row.record.id) == Some(row),
        forall|task: StoredTaskView| #[trigger]
            t.put_task(task).task(w, task.id) == Some(task),
        forall|schedule: ScheduleView| #[trigger]
            t.put_schedule(schedule).schedule(w, schedule.id) == Some(schedule),
        forall|id: Text| #[trigger] t.delete_schedule(id).schedule(w, id) is None,
{
}

/// Records in agreement are so for a request that has done nothing.
pub proof fn start_valid(w: World, preload_limit: usize, now: i64)
    requires
        in_agreement(w),
    ensures
        valid(w, TxnView::start(preload_limit, now)),
{
    let t = TxnView::start(preload_limit, now);
    assert forall|id: Text|
        #![trigger t.promise(w, id)]
        #![trigger t.task(w, id)]
        agree(id, t.promise(w, id), t.task(w, id)) by {
        a_new_request_sees_the_store(w, preload_limit, now, id);
        assert(agree(id, at(w.promises, id), at(w.tasks, id)));
    }
}

/// A request that ends with its records in agreement leaves them so.
proof fn end_in_agreement(w: World, preload_limit: usize, now: i64, t: TxnView, next: World)
    requires
        in_agreement(w),
        valid(w, t),
        goes_on(w, TxnView::start(preload_limit, now), t),
        committed(w, t, next) || unchanged(w, next),
    ensures
        in_agreement(next),
        stays(w, next),
{
    let start = TxnView::start(preload_limit, now);
    if committed(w, t, next) {
        assert forall|id: Text|
            #![trigger at(next.promises, id)]
            #![trigger at(next.tasks, id)]
            agree(id, at(next.promises, id), at(next.tasks, id)) by {
            assert(at(next.promises, id) == t.promise(w, id));
            assert(at(next.tasks, id) == t.task(w, id));
            assert(agree(id, t.promise(w, id), t.task(w, id)));
        }
        assert forall|id: Text|
            #![trigger at(next.promises, id)]
            promise_goes_on(at(w.promises, id), at(next.promises, id)) by {
            a_new_request_sees_the_store(w, preload_limit, now, id);
            assert(at(next.promises, id) == t.promise(w, id));
            assert(promise_goes_on(start.promise(w, id), t.promise(w, id)));
        }
        assert forall|id: Text|
            #![trigger at(next.tasks, id)]
            task_goes_on(at(w.tasks, id), at(next.tasks, id)) by {
            a_new_request_sees_the_store(w, preload_limit, now, id);
            assert(at(next.tasks, id) == t.task(w, id));
            assert(task_goes_on(start.task(w, id), t.task(w, id)));
        }
    } else {
        assert forall|id: Text|
            #![trigger at(next.promises, id)]
            #![trigger at(next.tasks, id)]
            agree(id, at(next.promises, id), at(next.tasks, id)) by {
            assert(agree(id, at(w.promises, id), at(w.tasks, id)));
        }
    }
}

/// The stored records are in agreement after every request, and every promise
/// and task stays: none is lost, and none that is settled or fulfilled changes.
pub proof fn requests_keep_the_store(
    w: World,
    preload_limit: usize,
    now: i64,
    corr_id: Text,
    data: OperationData,
    next: World,
)
    requires
        in_agreement(w),
        ({
            let end = performed(w, TxnView::start(preload_limit, now), corr_id, data);
            ended(w, end.0, end.1, next)
        }),
    ensures
        in_agreement(next),
        stays(w, next),
{
    let start = TxnView::start(preload_limit, now);
    start_valid(w, preload_limit, now);
    operations_keep_agreement(w, start, corr_id, data);
    end_in_agreement(w, preload_limit, now, performed(w, start, corr_id, data).0, next);
}

/// The stored records are in agreement after every timer, and every promise and
/// task stays.
pub proof fn timers_keep_the_store(
    w: World,
    preload_limit: usize,
    now: i64,
    timer: TimerView,
    next: World,
)
    requires
        in_agreement(w),
        committed(w, fired_timer(w, TxnView::start(preload_limit, now), timer), next),
    ensures
        in_agreement(next),
        stays(w, next),
{
    let start = TxnView::start(preload_limit, now);
    start_valid(w, preload_limit, now);
    timers_keep_agreement(w, start, timer);
    end_in_agreement(w, preload_limit, now, fired_timer(w, start, timer), next);
}

/// The stored records are in agreement after every delivery, and every promise
/// and task stays.
pub proof fn deliveries_keep_the_store(
    w: World,
    preload_limit: usize,
    now: i64,
    delivery: DeliveryView,
    next: World,
)
    requires
        in_agreement(w),
        committed(w, delivered(w, TxnView::start(preload_limit, now), delivery).0, next),
    ensures
        in_agreement(next),
        stays(w, next),
{
    let start = TxnView::start(preload_limit, now);
    start_valid(w, preload_limit, now);
    deliveries_keep_agreement(w, start, delivery);
    end_in_agreement(w, preload_limit, now, delivered(w, start, delivery).0, next);
}

/// Whether `id` is registered with `awaited`, which is pending.
pub open spec fn registered(w: World, id: Text, awaited: Text) -> bool {
    at(w.promises, awaited) matches Some(row) && row.record.is_pending() && row.callbacks.contains(
        id,
    )
}

/// Whether the task of `id` is suspended, and the deadline of its promise has
/// not passed at `now`.
pub open spec fn asleep(w: World, now: i64, id: Text) -> bool {
    &&& at(w.tasks, id) matches Some(task) && task.state == TaskState::Suspended
    &&& at(w.promises, id) matches Some(row) ==> now < row.record.timeout_at
}

/// Whether no suspended task is forgotten at `now`: within the deadline of its
/// promise, each is registered with a promise that is pending, whose settlement
/// will wake it.
pub open spec fn remembers(w: World, now: i64) -> bool {
    forall|id: Text| #[trigger]
        asleep(w, now, id) ==> exists|awaited: Text| registered(w, id, awaited)
}

/// A request that has done nothing forgets no task that the store remembers at
/// an earlier time.
proof fn start_forgets_none(w: World, before: i64, preload_limit: usize, now: i64)
    requires
        remembers(w, before),
        before <= now,
    ensures
        none_forgotten(w, TxnView::start(preload_limit, now)),
{
    let t = TxnView::start(preload_limit, now);
    assert forall|id: Text| #[trigger] sleeps(w, t, id) implies will_wake(w, t, id) by {
        a_new_request_sees_the_store(w, preload_limit, now, id);
        assert(asleep(w, before, id));
        let awaited = choose|awaited: Text| registered(w, id, awaited);
        a_new_request_sees_the_store(w, preload_limit, now, awaited);
        assert(awaits(w, t, id, awaited));
    }
}

/// A request that forgets no task leaves the store so.
proof fn end_remembers(
    w: World,
    before: i64,
    preload_limit: usize,
    now: i64,
    t: TxnView,
    next: World,
)
    requires
        remembers(w, before),
        before <= now,
        valid(w, t),
        goes_on(w, TxnView::start(preload_limit, now), t),
        committed(w, t, next) || unchanged(w, next),
    ensures
        remembers(next, now),
{
    start_forgets_none(w, before, preload_limit, now);
    minded_steps_forget_none(w, TxnView::start(preload_limit, now), t);
    assert forall|id: Text| #[trigger] asleep(next, now, id) implies exists|awaited: Text|
        registered(next, id, awaited) by {
        if committed(w, t, next) {
            assert(at(next.promises, id) == t.promise(w, id));
            assert(at(next.tasks, id) == t.task(w, id));
            assert(sleeps(w, t, id));
            let awaited = choose|awaited: Text| awaits(w, t, id, awaited);
            assert(at(next.promises, awaited) == t.promise(w, awaited));
            assert(registered(next, id, awaited));
        } else {
            assert(asleep(w, before, id));
            let awaited = choose|awaited: Text| registered(w, id, awaited);
            assert(registered(next, id, awaited));
        }
    }
}

/// No request forgets a suspended task: within the deadline of its promise, each
/// stays registered with a pending promise until a settlement wakes it.
pub proof fn requests_forget_no_suspended_task(
    w: World,
    before: i64,
    preload_limit: usize,
    now: i64,
    corr_id: Text,
    data: OperationData,
    next: World,
)
    requires
        in_agreement(w),
        remembers(w, before),
        before <= now,
        ({
            let end = performed(w, TxnView::start(preload_limit, now), corr_id, data);
            ended(w, end.0, end.1, next)
        }),
    ensures
        remembers(next, now),
{
    let start = TxnView::start(preload_limit, now);
    start_valid(w, preload_limit, now);
    operations_keep_agreement(w, start, corr_id, data);
    end_remembers(w, before, preload_limit, now, performed(w, start, corr_id, data).0, next);
}

/// No timer forgets a suspended task.
pub proof fn timers_forget_no_suspended_task(
    w: World,
    before: i64,
    preload_limit: usize,
    now: i64,
    timer: TimerView,
    next: World,
)
    requires
        in_agreement(w),
        remembers(w, before),
        before <= now,
        committed(w, fired_timer(w, TxnView::start(preload_limit, now), timer), next),
    ensures
        remembers(next, now),
{
    let start = TxnView::start(preload_limit, now);
    start_valid(w, preload_limit, now);
    timers_keep_agreement(w, start, timer);
    end_remembers(w, before, preload_limit, now, fired_timer(w, start, timer), next);
}

/// No delivery forgets a suspended task.
pub proof fn deliveries_forget_no_suspended_task(
    w: World,
    before: i64,
    preload_limit: usize,
    now: i64,
    delivery: DeliveryView,
    next: World,
)
    requires
        in_agreement(w),
        remembers(w, before),
        before <= now,
        committed(w, delivered(w, TxnView::start(preload_limit, now), delivery).0, next),
    ensures
        remembers(next, now),
{
    let start = TxnView::start(preload_limit, now);
    start_valid(w, preload_limit, now);
    deliveries_keep_agreement(w, start, delivery);
    end_remembers(w, before, preload_limit, now, delivered(w, start, delivery).0, next);
}

/// Whether the index names the stored promises of each branch and no others.
pub open spec fn indexed(w: World) -> bool {
    forall|branch: Text, id: Text| #[trigger]
        w.index.contains((branch, id)) <==> in_branch(at(w.promises, id), branch)
}

/// A request that keeps the index leaves the store so.
proof fn end_indexed(w: World, preload_limit: usize, now: i64, t: TxnView, next: World)
    requires
        indexed(w),
        goes_on(w, TxnView::start(preload_limit, now), t),
        committed(w, t, next) || unchanged(w, next),
    ensures
        indexed(next),
{
    let start = TxnView::start(preload_limit, now);
    reveal(files);
    assert forall|branch: Text, id: Text| #[trigger] has_entry(w, start, branch, id) <==> in_branch(
        start.promise(w, id),
        branch,
    ) by {
        a_new_request_sees_the_store(w, preload_limit, now, id);
        assert(w.index.contains((branch, id)) <==> in_branch(at(w.promises, id), branch));
    }
    assert forall|branch: Text, id: Text| #[trigger]
        next.index.contains((branch, id)) <==> in_branch(at(next.promises, id), branch) by {
        if committed(w, t, next) {
            assert(at(next.promises, id) == t.promise(w, id));
            assert(next.index.contains((branch, id)) == has_entry(w, t, branch, id));
        } else {
            assert(w.index.contains((branch, id)) <==> in_branch(at(w.promises, id), branch));
        }
    }
}

/// After every request the index names the stored promises of each branch and
/// no others.
pub proof fn requests_keep_the_index(
    w: World,
    preload_limit: usize,
    now: i64,
    corr_id: Text,
    data: OperationData,
    next: World,
)
    requires
        in_agreement(w),
        indexed(w),
        ({
            let end = performed(w, TxnView::start(preload_limit, now), corr_id, data);
            ended(w, end.0, end.1, next)
        }),
    ensures
        indexed(next),
{
    let start = TxnView::start(preload_limit, now);
    start_valid(w, preload_limit, now);
    operations_keep_agreement(w, start, corr_id, data);
    end_indexed(w, preload_limit, now, performed(w, start, corr_id, data).0, next);
}

/// After every timer the index names the stored promises of each branch and no
/// others.
pub proof fn timers_keep_the_index(
    w: World,
    preload_limit: usize,
    now: i64,
    timer: TimerView,
    next: World,
)
    requires
        in_agreement(w),
        indexed(w),
        committed(w, fired_timer(w, TxnView::start(preload_limit, now), timer), next),
    ensures
        indexed(next),
{
    let start = TxnView::start(preload_limit, now);
    start_valid(w, preload_limit, now);
    timers_keep_agreement(w, start, timer);
    end_indexed(w, preload_limit, now, fired_timer(w, start, timer), next);
}

/// After every delivery the index names the stored promises of each branch and
/// no others.
pub proof fn deliveries_keep_the_index(
    w: World,
    preload_limit: usize,
    now: i64,
    delivery: DeliveryView,
    next: World,
)
    requires
        in_agreement(w),
        indexed(w),
        committed(w, delivered(w, TxnView::start(preload_limit, now), delivery).0, next),
    ensures
        indexed(next),
{
    let start = TxnView::start(preload_limit, now);
    start_valid(w, preload_limit, now);
    deliveries_keep_agreement(w, start, delivery);
    end_indexed(w, preload_limit, now, delivered(w, start, delivery).0, next);
}

/// Whether a request enqueued `job`.
pub open spec fn enqueued(t: TxnView, job: Text) -> bool {
    exists|i: int| 0 <= i < t.enqueues.len() && (#[trigger] t.enqueues[i]).job == Some(job)
}

/// Whether `owner` gives the task that each dispatch of a request names.
pub open spec fn names_tasks(t: TxnView, owner: spec_fn(Text) -> Text) -> bool {
    forall|i: int, id: Text, job: Text|
        0 <= i < t.enqueues.len() && #[trigger] dispatches(t.enqueues[i], id, Some(job)) ==> owner(job)
            == id
}

/// Whether every task with work has a job in the queue, where `owner` gives the
/// task that a job's payload names: a pending task will be delivered, and an
/// acquired one whose lease is lost comes back.
pub open spec fn employs(w: World, owner: spec_fn(Text) -> Text) -> bool {
    forall|id: Text|
        (#[trigger] at(w.tasks, id)) matches Some(task) ==> {
            &&& task.job is Some ==> owner(task.job->0) == id
            &&& works(task) ==> task.job is Some && w.jobs.contains(task.job->0)
        }
}

/// Whether `next` holds the jobs of `w` and those that the request `t`
/// enqueued, up to those of `gone`.
pub open spec fn jobs_stay(w: World, t: TxnView, gone: spec_fn(Text) -> bool, next: World) -> bool {
    forall|job: Text|
        (w.jobs.contains(job) || enqueued(t, job)) && !gone(job) ==> #[trigger] next.jobs.contains(
            job,
        )
}

/// A request that carries every task, and ends no job of a task with work,
/// leaves every task with work a job.
proof fn end_employs(
    w: World,
    owner: spec_fn(Text) -> Text,
    preload_limit: usize,
    now: i64,
    t: TxnView,
    gone: spec_fn(Text) -> bool,
    next: World,
)
    requires
        employs(w, owner),
        names_tasks(t, owner),
        goes_on(w, TxnView::start(preload_limit, now), t),
        committed(w, t, next),
        jobs_stay(w, t, gone, next),
        forall|id: Text|
            (#[trigger] t.task(w, id)) matches Some(task) ==> works(task) && task.job is Some
                && owner(task.job->0) == id ==> !gone(task.job->0),
    ensures
        employs(next, owner),
{
    let start = TxnView::start(preload_limit, now);
    reveal(carries);
    assert forall|id: Text| (#[trigger] at(next.tasks, id)) matches Some(task) ==> {
        &&& task.job is Some ==> owner(task.job->0) == id
        &&& works(task) ==> task.job is Some && next.jobs.contains(task.job->0)
    } by {
        a_new_request_sees_the_store(w, preload_limit, now, id);
        assert(carried(w, start, t, id));
        assert(at(next.tasks, id) == t.task(w, id));
        if let Some(task) = t.task(w, id) {
            if let Some(before) = at(w.tasks, id) {
                assert(before.job is Some ==> owner(before.job->0) == id);
            }
            if dispatched(t, id, task.job) {
                let i = choose|i: int|
                    0 <= i < t.enqueues.len() && dispatches(
                        #[trigger] t.enqueues[i],
                        id,
                        task.job,
                    );
                assert(dispatches(t.enqueues[i], id, Some(task.job->0)));
                assert(enqueued(t, task.job->0));
            }
        }
    }
}

/// The jobs that may end with a request: those of the tasks whose claims it
/// releases, or acknowledges with its commit.
pub open spec fn ended_jobs(
    t: TxnView,
    outcome: OutcomeView,
    owner: spec_fn(Text) -> Text,
) -> spec_fn(Text) -> bool {
    |job: Text|
        t.after.contains(AfterView::Release(owner(job))) || (outcome matches OutcomeView::Settle(
            _,
            id,
        ) && id == owner(job))
}

/// Whether `next` holds the jobs left by a request over `w` that ended at `t`.
pub open spec fn jobs_left(
    w: World,
    t: TxnView,
    outcome: OutcomeView,
    owner: spec_fn(Text) -> Text,
    next: World,
) -> bool {
    if committed(w, t, next) {
        jobs_stay(w, t, ended_jobs(t, outcome, owner), next)
    } else {
        w.jobs.subset_of(next.jobs)
    }
}

/// A task is a job: after every request each task that is pending or acquired
/// has a job in the queue, so that it is delivered, or delivered again.
pub proof fn requests_keep_the_jobs_of_tasks(
    w: World,
    owner: spec_fn(Text) -> Text,
    preload_limit: usize,
    now: i64,
    corr_id: Text,
    data: OperationData,
    next: World,
)
    requires
        in_agreement(w),
        employs(w, owner),
        ({
            let end = performed(w, TxnView::start(preload_limit, now), corr_id, data);
            &&& names_tasks(end.0, owner)
            &&& ended(w, end.0, end.1, next)
            &&& jobs_left(w, end.0, end.1, owner, next)
        }),
    ensures
        employs(next, owner),
{
    let start = TxnView::start(preload_limit, now);
    let end = performed(w, start, corr_id, data);
    let t = end.0;
    let gone = ended_jobs(t, end.1, owner);
    start_valid(w, preload_limit, now);
    operations_keep_agreement(w, start, corr_id, data);
    a_settled_claim_has_no_work(w, start, corr_id, data);
    if committed(w, t, next) {
        released_rest(w, start, t);
        end_employs(w, owner, preload_limit, now, t, gone, next);
    } else {
        assert forall|id: Text| (#[trigger] at(next.tasks, id)) matches Some(task) ==> {
            &&& task.job is Some ==> owner(task.job->0) == id
            &&& works(task) ==> task.job is Some && next.jobs.contains(task.job->0)
        } by {
            assert(at(next.tasks, id) == at(w.tasks, id));
        }
    }
}

/// A task whose claim a request releases has no work.
proof fn released_rest(w: World, start: TxnView, t: TxnView)
    requires
        start.after.len() == 0,
        releases(w, start, t),
    ensures
        forall|id: Text| #[trigger]
            t.after.contains(AfterView::Release(id)) ==> (t.task(w, id) matches Some(task)
                && !works(task)),
{
    assert forall|id: Text| #[trigger] t.after.contains(AfterView::Release(id)) implies (t.task(
        w,
        id,
    ) matches Some(task) && !works(task)) by {
        let i = t.after.index_of(AfterView::Release(id));
        assert(t.after[i] == AfterView::Release(id));
    }
}

/// After every timer each task that is pending or acquired has a job in the
/// queue.
pub proof fn timers_keep_the_jobs_of_tasks(
    w: World,
    owner: spec_fn(Text) -> Text,
    preload_limit: usize,
    now: i64,
    timer: TimerView,
    next: World,
)
    requires
        in_agreement(w),
        employs(w, owner),
        ({
            let t = fired_timer(w, TxnView::start(preload_limit, now), timer);
            &&& names_tasks(t, owner)
            &&& committed(w, t, next)
            &&& jobs_stay(
                w,
                t,
                |job: Text| t.after.contains(AfterView::Release(owner(job))),
                next,
            )
        }),
    ensures
        employs(next, owner),
{
    let start = TxnView::start(preload_limit, now);
    let t = fired_timer(w, start, timer);
    start_valid(w, preload_limit, now);
    timers_keep_agreement(w, start, timer);
    frees_releases(w, start, t);
    released_rest(w, start, t);
    end_employs(
        w,
        owner,
        preload_limit,
        now,
        t,
        |job: Text| t.after.contains(AfterView::Release(owner(job))),
        next,
    );
}

/// Callbacks leave nothing to do after the commit.
proof fn callbacks_leave_no_work(w: World, t: TxnView, callbacks: Seq<Text>, awaited: Text)
    ensures
        all_called_back(w, t, callbacks, awaited).after == t.after,
    decreases callbacks.len(),
{
    if callbacks.len() > 0 {
        callbacks_leave_no_work(w, t, callbacks.drop_last(), awaited);
    }
}

/// A deadline acknowledges no delivered job.
proof fn deadlines_ack_nothing(w: World, t: TxnView, id: Text)
    requires
        t.after.len() == 0,
    ensures
        !due(w, t, id).after.contains(AfterView::Ack),
{
    due_is_one_deadline(w, t, id);
    if let Some(row) = t.promise(w, id) {
        if is_overdue(row, t.now) {
            let row = expired(row);
            let read = t.read_promise(id);
            let start = task_ended(w, read, row.record.id).put_promise(cleared(row));
            let told = all_called_back(w, start, row.callbacks, row.record.id);
            callbacks_leave_no_work(w, start, row.callbacks, row.record.id);
            all_unblocked_keeps(told, row.listeners, row.record);
        }
    }
}

/// The jobs that may end with the delivery of `delivered`: those of the tasks
/// whose claims it releases, and its own where it is acknowledged.
pub open spec fn jobs_ended_by_delivery(
    t: TxnView,
    delivered: Text,
    owner: spec_fn(Text) -> Text,
) -> spec_fn(Text) -> bool {
    |job: Text|
        t.after.contains(AfterView::Release(owner(job))) || (t.after.contains(AfterView::Ack) && job
            == delivered)
}

/// After every delivery each task that is pending or acquired has a job in the
/// queue: an execute job ends only where its task waits for no delivery.
pub proof fn deliveries_keep_the_jobs_of_tasks(
    w: World,
    owner: spec_fn(Text) -> Text,
    preload_limit: usize,
    now: i64,
    delivery: DeliveryView,
    job: Text,
    next: World,
)
    requires
        in_agreement(w),
        employs(w, owner),
        match delivery {
            DeliveryView::Execute(id) => owner(job) == id,
            DeliveryView::Unblock(_) => forall|id: Text|
                (#[trigger] at(w.tasks, id)) matches Some(task) ==> task.job != Some(job),
        },
        ({
            let t = delivered(w, TxnView::start(preload_limit, now), delivery).0;
            &&& names_tasks(t, owner)
            &&& committed(w, t, next)
            &&& jobs_stay(w, t, jobs_ended_by_delivery(t, job, owner), next)
        }),
    ensures
        employs(next, owner),
{
    let start = TxnView::start(preload_limit, now);
    let t = delivered(w, start, delivery).0;
    let gone = jobs_ended_by_delivery(t, job, owner);
    start_valid(w, preload_limit, now);
    deliveries_keep_agreement(w, start, delivery);
    frees_releases(w, start, t);
    released_rest(w, start, t);
    assert forall|id: Text| (#[trigger] t.task(w, id)) matches Some(task) ==> works(task)
        && task.job is Some && owner(task.job->0) == id ==> !gone(task.job->0) by {
        match delivery {
            DeliveryView::Execute(executed) => {
                let timed = due(w, start, executed);
                deadlines_are_applied(w, start, seq![executed]);
                assert(agree(executed, timed.promise(w, executed), timed.task(w, executed)));
                deadlines_ack_nothing(w, start, executed);
            },
            DeliveryView::Unblock(_) => {
                a_new_request_sees_the_store(w, preload_limit, now, id);
                assert(t.task(w, id) == at(w.tasks, id));
            },
        }
    }
    end_employs(w, owner, preload_limit, now, t, gone, next);
}

/// An empty store is in agreement, and there is no task to forget.
pub proof fn an_empty_store_is_in_agreement(w: World, now: i64, owner: spec_fn(Text) -> Text)
    requires
        w.promises == Map::<Text, StoredPromiseView>::empty(),
        w.tasks == Map::<Text, StoredTaskView>::empty(),
        w.index == Set::<(Text, Text)>::empty(),
    ensures
        in_agreement(w),
        indexed(w),
        remembers(w, now),
        employs(w, owner),
{
}

/// A timer that outlived its transition ends without effect: it writes,
/// enqueues and settles nothing.
pub proof fn stale_timers_have_no_effect(w: World, t: TxnView, timer: TimerView)
    requires
        !acts(w, t, timer),
    ensures
        fired_timer(w, t, timer).writes == t.writes,
        fired_timer(w, t, timer).enqueues == t.enqueues,
        fired_timer(w, t, timer).after == t.after,
{
}

/// The record that `effects` leave under a promise's key, where there was
/// `before`.
pub open spec fn promise_after(
    effects: EffectsView,
    id: Text,
    before: Option<StoredPromiseView>,
) -> Option<StoredPromiseView> {
    let key = KeyView::Promise(id);
    if effects.puts.contains_key(key) {
        match effects.puts[key] {
            RowView::Promise(row) => Some(row),
            _ => None,
        }
    } else if effects.deletes.contains(key) {
        None
    } else {
        before
    }
}

/// The record that `effects` leave under a task's key, where there was `before`.
pub open spec fn task_after(
    effects: EffectsView,
    id: Text,
    before: Option<StoredTaskView>,
) -> Option<StoredTaskView> {
    let key = KeyView::Task(id);
    if effects.puts.contains_key(key) {
        match effects.puts[key] {
            RowView::Task(row) => Some(row),
            _ => None,
        }
    } else if effects.deletes.contains(key) {
        None
    } else {
        before
    }
}

/// The record that `effects` leave under a schedule's key, where there was
/// `before`.
pub open spec fn schedule_after(
    effects: EffectsView,
    id: Text,
    before: Option<ScheduleView>,
) -> Option<ScheduleView> {
    let key = KeyView::Schedule(id);
    if effects.puts.contains_key(key) {
        match effects.puts[key] {
            RowView::Schedule(row) => Some(row),
            _ => None,
        }
    } else if effects.deletes.contains(key) {
        None
    } else {
        before
    }
}

/// Whether `effects` leave an index entry, where there was one or not `before`.
pub open spec fn entry_after(effects: EffectsView, branch: Text, id: Text, before: bool) -> bool {
    let key = KeyView::Branch(branch, id);
    effects.puts.contains_key(key) || (before && !effects.deletes.contains(key))
}

/// What a request commits is what it saw: the records that its effects leave in
/// the queue are the ones it would read at its end.
pub proof fn effects_commit_what_the_request_sees(w: World, t: TxnView, next: World)
    requires
        forall|id: Text| #[trigger]
            at(next.promises, id) == promise_after(t.effects(), id, at(w.promises, id)),
        forall|id: Text| #[trigger]
            at(next.tasks, id) == task_after(t.effects(), id, at(w.tasks, id)),
        forall|id: Text| #[trigger]
            at(next.schedules, id) == schedule_after(t.effects(), id, at(w.schedules, id)),
        forall|branch: Text, id: Text| #[trigger]
            next.index.contains((branch, id)) == entry_after(
                t.effects(),
                branch,
                id,
                w.index.contains((branch, id)),
            ),
    ensures
        committed(w, t, next),
{
}

/// A request without effects has nothing to commit: it leaves the store as it
/// was.
pub proof fn a_request_without_effects_changes_nothing(w: World, t: TxnView)
    requires
        !t.has_effects(),
    ensures
        committed(w, t, w),
{
}

/// The deadline of one promise is all that a request applies to one id.
pub proof fn due_is_one_deadline(w: World, t: TxnView, id: Text)
    ensures
        due(w, t, id) == timed_out(w, t, id),
{
    assert(seq![id].drop_last() =~= Seq::<Text>::empty());
    assert(all_timed_out(w, t, Seq::<Text>::empty()) == t);
}

/// The promise of `id` as a request at `now` finds it once its deadline is
/// applied: it is the same promise, unchanged unless its deadline has passed.
proof fn found_after_deadline(w: World, preload_limit: usize, now: i64, id: Text)
    requires
        in_agreement(w),
    ensures
        ({
            let timed = due(w, TxnView::start(preload_limit, now), id);
            at(w.promises, id) matches Some(row) ==> timed.promise(w, id) matches Some(found)
                && same_promise(row.record, found.record) && (!is_overdue(row, now) ==> found
                == row)
        }),
{
    let start = TxnView::start(preload_limit, now);
    let timed = due(w, start, id);
    start_valid(w, preload_limit, now);
    deadlines_are_applied(w, start, seq![id]);
    a_new_request_sees_the_store(w, preload_limit, now, id);
    if let Some(row) = at(w.promises, id) {
        assert(promise_goes_on(start.promise(w, id), timed.promise(w, id)));
        if !is_overdue(row, now) {
            due_is_one_deadline(w, start, id);
        }
    }
}

/// A promise that exists is not created again: a request to create it gives the
/// promise that is there, whatever else it asks for.
pub proof fn creation_is_idempotent(
    w: World,
    preload_limit: usize,
    now: i64,
    data: CreateView,
    row: StoredPromiseView,
)
    requires
        in_agreement(w),
        at(w.promises, data.id) == Some(row),
    ensures
        ({
            let end = creation(w, TxnView::start(preload_limit, now), data);
            end.1 matches OutcomeView::Commit(ReplyView::Data(200, ReplyDataView::Promise(found)))
                && same_promise(row.record, found) && (!is_overdue(row, now) ==> found
                == row.record)
        }),
{
    found_after_deadline(w, preload_limit, now, data.id);
}

/// A created promise is in the store once the request has committed, with the
/// record of the reply.
pub proof fn a_created_promise_is_stored(
    w: World,
    preload_limit: usize,
    now: i64,
    data: CreateView,
    next: World,
)
    requires
        in_agreement(w),
        committed(w, creation(w, TxnView::start(preload_limit, now), data).0, next),
    ensures
        ({
            let end = creation(w, TxnView::start(preload_limit, now), data);
            end.1 matches OutcomeView::Commit(ReplyView::Data(200, ReplyDataView::Promise(found)))
                && at(next.promises, data.id) matches Some(row) && row.record == found
        }),
{
    let start = TxnView::start(preload_limit, now);
    let timed = due(w, start, data.id);
    let read = timed.read_promise(data.id);
    start_valid(w, preload_limit, now);
    deadlines_are_applied(w, start, seq![data.id]);
    assert(at(next.promises, data.id) == creation(w, start, data).0.promise(w, data.id));
    if timed.promise(w, data.id) is None {
        same_writes_keep(w, timed, read);
        assert(read.promise(w, data.id) is None);
        created_keeps(w, read, data, None, ModeView::Dispatch);
    }
}

/// A settled promise is not settled again: a request to settle it gives the
/// promise as it is, whatever state and value it asks for, and changes nothing.
pub proof fn settlement_is_idempotent(
    w: World,
    preload_limit: usize,
    now: i64,
    data: SettleView,
    row: StoredPromiseView,
)
    requires
        at(w.promises, data.id) == Some(row),
        !row.record.is_pending(),
    ensures
        ({
            let start = TxnView::start(preload_limit, now);
            let end = promise_settlement(w, start, data);
            end.1 == with_promise(row.record) && same_effects(end.0, start)
        }),
{
    let start = TxnView::start(preload_limit, now);
    a_new_request_sees_the_store(w, preload_limit, now, data.id);
    due_is_one_deadline(w, start, data.id);
}

/// A settlement is repeated without effect: once a request that settled a
/// promise has committed, every later one for its id, whatever state, value and
/// time it has, gives the reply of the first and changes nothing.
pub proof fn a_repeated_settlement_changes_nothing(
    w: World,
    preload_limit: usize,
    now: i64,
    data: SettleView,
    next: World,
    later: i64,
    again: SettleView,
)
    requires
        at(w.promises, data.id) matches Some(row) ==> row.record.id == data.id,
        committed(w, promise_settlement(w, TxnView::start(preload_limit, now), data).0, next),
        again.id == data.id,
    ensures
        ({
            let first = promise_settlement(w, TxnView::start(preload_limit, now), data);
            let start = TxnView::start(preload_limit, later);
            let second = promise_settlement(next, start, again);
            first.1 matches OutcomeView::Commit(
                ReplyView::Data(200, ReplyDataView::Promise(found)),
            ) ==> !found.is_pending() && second.1 == first.1 && same_effects(second.0, start)
        }),
{
    let start = TxnView::start(preload_limit, now);
    let timed = due(w, start, data.id);
    let read = timed.read_promise(data.id);
    let first = promise_settlement(w, start, data);
    a_new_request_sees_the_store(w, preload_limit, now, data.id);
    due_is_one_deadline(w, start, data.id);
    assert(at(next.promises, data.id) == first.0.promise(w, data.id));
    if let Some(stored) = at(w.promises, data.id) {
        if is_overdue(stored, now) {
            settled_chain_settles(w, start.read_promise(data.id), expired(stored));
        }
        let row = timed.promise(w, data.id)->0;
        assert(row.record.id == data.id);
        assert(read.promise(w, data.id) == timed.promise(w, data.id));
        if row.record.is_pending() {
            settled_chain_settles(w, read, settled(row, data.state, data.value, read.now));
        }
        settlement_is_idempotent(
            next,
            preload_limit,
            later,
            again,
            at(next.promises, data.id)->0,
        );
    }
}

/// A listener is registered once: a second registration of an address gives the
/// promise, leaves the stored promise as it is and changes nothing.
pub proof fn listener_registration_is_idempotent(
    w: World,
    preload_limit: usize,
    now: i64,
    awaited: Text,
    address: Text,
    row: StoredPromiseView,
)
    requires
        at(w.promises, awaited) == Some(row),
        row.record.is_external(),
        row.listeners.contains(address),
        !is_overdue(row, now),
    ensures
        ({
            let start = TxnView::start(preload_limit, now);
            let end = listener_registration(w, start, awaited, address, true);
            end.1 == with_promise(row.record) && same_effects(end.0, start)
        }),
{
    let start = TxnView::start(preload_limit, now);
    a_new_request_sees_the_store(w, preload_limit, now, awaited);
    due_is_one_deadline(w, start, awaited);
}

/// However often an address is registered on a pending promise, the stored
/// listeners hold it once, in the place of its first registration: the first
/// registration adds it after the others unless it is there, and one that
/// follows, before the deadline, changes nothing.
pub proof fn a_repeated_listener_is_kept_once(
    w: World,
    preload_limit: usize,
    now: i64,
    awaited: Text,
    address: Text,
    row: StoredPromiseView,
    next: World,
    later: i64,
)
    requires
        at(w.promises, awaited) == Some(row),
        row.record.id == awaited,
        row.record.is_external(),
        row.record.is_pending(),
        row.listeners.no_duplicates(),
        now < row.record.timeout_at,
        later < row.record.timeout_at,
        committed(
            w,
            listener_registration(
                w,
                TxnView::start(preload_limit, now),
                awaited,
                address,
                true,
            ).0,
            next,
        ),
    ensures
        ({
            let start = TxnView::start(preload_limit, later);
            let second = listener_registration(next, start, awaited, address, true);
            let heard = if row.listeners.contains(address) {
                row
            } else {
                heard_by(row, address)
            };
            &&& at(next.promises, awaited) == Some(heard)
            &&& heard.listeners.no_duplicates()
            &&& heard.listeners.contains(address)
            &&& second.1 == with_promise(row.record)
            &&& same_effects(second.0, start)
        }),
{
    let start = TxnView::start(preload_limit, now);
    a_new_request_sees_the_store(w, preload_limit, now, awaited);
    due_is_one_deadline(w, start, awaited);
    let end = listener_registration(w, start, awaited, address, true);
    assert(at(next.promises, awaited) == end.0.promise(w, awaited));
    let heard = at(next.promises, awaited)->0;
    if !row.listeners.contains(address) {
        assert(heard.listeners[row.listeners.len() as int] == address);
    }
    listener_registration_is_idempotent(next, preload_limit, later, awaited, address, heard);
}

/// A settled promise is in the store once the request has committed, with the
/// record of the reply.
pub proof fn a_settled_promise_is_stored(
    w: World,
    preload_limit: usize,
    now: i64,
    data: SettleView,
    next: World,
)
    requires
        in_agreement(w),
        at(w.promises, data.id) is Some,
        committed(w, promise_settlement(w, TxnView::start(preload_limit, now), data).0, next),
    ensures
        ({
            let end = promise_settlement(w, TxnView::start(preload_limit, now), data);
            end.1 matches OutcomeView::Commit(ReplyView::Data(200, ReplyDataView::Promise(found)))
                && !found.is_pending() && (at(next.promises, data.id) matches Some(row)
                && row.record == found && row.callbacks.len() == 0 && row.listeners.len() == 0)
        }),
{
    let start = TxnView::start(preload_limit, now);
    let timed = due(w, start, data.id);
    let read = timed.read_promise(data.id);
    start_valid(w, preload_limit, now);
    a_new_request_sees_the_store(w, preload_limit, now, data.id);
    deadlines_are_applied(w, start, seq![data.id]);
    assert(promise_goes_on(start.promise(w, data.id), timed.promise(w, data.id)));
    assert(agree(data.id, timed.promise(w, data.id), timed.task(w, data.id)));
    assert(at(next.promises, data.id) == promise_settlement(w, start, data).0.promise(w, data.id));
    let row = timed.promise(w, data.id)->0;
    if row.record.is_pending() {
        assert(read.promise(w, data.id) == Some(row));
        settled_chain_settles(w, read, settled(row, data.state, data.value, read.now));
    }
}

} // verus!
