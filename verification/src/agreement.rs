//! What every operation keeps: the records of the store agree with each other,
//! promises and tasks are never lost, and what is settled stays as it is.

use vstd::prelude::*;
use crate::awaiting::{
    awaits, callbacks_noticed, callbacks_write_no_promise, minded, minds, promise_writes_mind, sleeps,
    callbacks_keep_keys, steps_mind, task_writes_mind, tasks_keyed, will_wake,
};
use crate::calls::{CallView, World};
use crate::creation::{created, created_row, fired, fired_data, fired_id, fired_promise, ModeView};
use crate::data::{
    CreateView, SettleView, TaskAcquireData, TaskCreateData, TaskFenceData, TaskSuspendData,
    TaskVersionView,
};
use crate::envelope::{json_string_at, viewed, ReplyDataView, ReplyView};
use crate::fence::{decoded, fence_replied, fence_target_parses, fenced_action, fencing};
use crate::index::{
    entry_written, files, has_entry, in_branch, index_agrees, kept_branches_file, steps_file,
};
use crate::jobs::{
    carries, dispatched, dispatches, frees, frees_releases, quiet, quiet_steps_carry, quiet_steps_free,
    releases, rests, steps_carry, steps_free, task_writes_carry, unblocks_are_quiet, works,
};
use crate::keys::branch_prefix_of;
use crate::kernel::{delivered, performed, DeliveryView, OperationData};
use crate::outcome::OutcomeView;
use crate::promises::{
    awaited_by, callback, callback_registered, creation, due, heard_by, listener_registration,
    promise_settlement, settling,
};
use crate::records::{
    PromiseView, ScheduleView, StoredPromiseView, StoredTaskView, TaskState, Text, TAG_BRANCH,
};
use crate::settlement::{
    all_called_back, all_timed_out, all_unblocked, all_unblocked_keeps, called_back, cleared, ended,
    expired, is_overdue, notified, resumed, settled, settled_chain, task_ended, timed_out, woken,
    Wake,
};
use crate::suspension::{
    all_registered, any_settled, awaited_ids, gathered, gathered_keeps, observed, rows_of,
    suspended_on, suspending,
};
use crate::tasks::{
    all_beaten, claiming, fulfilling, lease, pending_taken, taken, task_acquisition,
    task_continuing, task_create_refusal, task_halting, task_releasing, task_taking, task_viewed,
    waiting,
};
use crate::rules::{target_parses, url_parses};
use crate::timers::{acts, fired_timer, TimerView};
use crate::txn::{
    after_preload, after_scan, after_scan_keeps, overdue_ids, promises_listed, read_all,
    read_all_keeps, siblings, tasks_listed, unfulfilled_ids, AfterView, RowView, TxnView,
    SCAN_PAGE,
};

verus! {

/// Whether a stored promise agrees with itself: a settled one has a settlement
/// time and no registrations, and nobody is registered twice.
pub open spec fn row_valid(row: StoredPromiseView) -> bool {
    &&& row.record.is_pending() <==> row.record.settled_at is None
    &&& !row.record.is_pending() ==> row.callbacks.len() == 0 && row.listeners.len() == 0
    &&& row.callbacks.no_duplicates()
    &&& row.listeners.no_duplicates()
}

/// Whether a stored task agrees with itself: it has a holder exactly while it
/// is acquired, a job unless its promise was settled with its creation, and a
/// suspended or fulfilled one has observed everything.
pub open spec fn task_valid(task: StoredTaskView) -> bool {
    &&& task.state == TaskState::Acquired <==> task.pid is Some
    &&& task.state == TaskState::Acquired <==> task.ttl is Some
    &&& task.state != TaskState::Fulfilled ==> task.job is Some
    &&& task.state == TaskState::Suspended || task.state == TaskState::Fulfilled ==> task.resumes
        == Set::<Text>::empty()
}

/// Whether the promise and the task of `id` agree: a promise with a target has
/// a task for it and no other does, no task is without its promise, and a task
/// is fulfilled exactly when its promise is settled.
pub open spec fn agree(
    id: Text,
    promise: Option<StoredPromiseView>,
    task: Option<StoredTaskView>,
) -> bool {
    match promise {
        None => task is None,
        Some(row) => {
            &&& row.record.id == id
            &&& row_valid(row)
            &&& match task {
                None => row.record.target() is None,
                Some(task) => {
                    &&& task.id == id
                    &&& task_valid(task)
                    &&& row.record.target() == Some(task.target)
                    &&& task.state == TaskState::Fulfilled <==> !row.record.is_pending()
                },
            }
        },
    }
}

/// Whether the records that a request sees agree with each other.
pub open spec fn valid(w: World, t: TxnView) -> bool {
    forall|id: Text|
        #![trigger t.promise(w, id)]
        #![trigger t.task(w, id)]
        agree(id, t.promise(w, id), t.task(w, id))
}

/// Whether two records are of the same promise.
pub open spec fn same_promise(a: PromiseView, b: PromiseView) -> bool {
    &&& a.id == b.id
    &&& a.param == b.param
    &&& a.tags == b.tags
    &&& a.timeout_at == b.timeout_at
    &&& a.created_at == b.created_at
}

/// Whether a promise goes on from `a` to `b`: it stays, and once settled it
/// does not change.
pub open spec fn promise_goes_on(a: Option<StoredPromiseView>, b: Option<StoredPromiseView>) -> bool {
    a matches Some(a) ==> b matches Some(b) && same_promise(a.record, b.record) && (
    a.record.is_pending() || a == b)
}

/// Whether a task goes on from `a` to `b`: it stays at its target, and once
/// fulfilled it does not change.
pub open spec fn task_goes_on(a: Option<StoredTaskView>, b: Option<StoredTaskView>) -> bool {
    a matches Some(a) ==> b matches Some(b) && a.target == b.target && (a.state
        != TaskState::Fulfilled || a == b)
}

/// Whether the records go on from one point of a request to a later one.
pub open spec fn records_go_on(w: World, from: TxnView, to: TxnView) -> bool {
    &&& from.now == to.now
    &&& forall|id: Text|
        #![trigger to.promise(w, id)]
        #![trigger from.promise(w, id)]
        promise_goes_on(from.promise(w, id), to.promise(w, id))
    &&& forall|id: Text|
        #![trigger to.task(w, id)]
        #![trigger from.task(w, id)]
        task_goes_on(from.task(w, id), to.task(w, id))
}

/// Whether the records go on from one point of a request to a later one, every
/// suspended task is minded, every task is carried by its job, and the index
/// agrees with the promises as it did.
pub open spec fn goes_on(w: World, from: TxnView, to: TxnView) -> bool {
    records_go_on(w, from, to) && minds(w, from, to) && carries(w, from, to) && files(w, from, to)
}

/// Whether every task keeps its version.
pub open spec fn versions_kept(w: World, from: TxnView, to: TxnView) -> bool {
    forall|id: Text|
        #![trigger to.task(w, id)]
        #![trigger from.task(w, id)]
        from.task(w, id) matches Some(a) ==> to.task(w, id) matches Some(b) && a.version
            == b.version
}

/// Whether no promise is added.
pub open spec fn adds_nothing(w: World, from: TxnView, to: TxnView) -> bool {
    forall|id: Text|
        #![trigger to.promise(w, id)]
        #![trigger from.promise(w, id)]
        from.promise(w, id) is None ==> to.promise(w, id) is None
}

/// What a step of a request keeps.
pub open spec fn grows(w: World, from: TxnView, to: TxnView) -> bool {
    &&& valid(w, to)
    &&& goes_on(w, from, to)
    &&& versions_kept(w, from, to)
    &&& frees(w, from, to)
}

/// What a step of a request that creates nothing keeps.
pub open spec fn keeps(w: World, from: TxnView, to: TxnView) -> bool {
    grows(w, from, to) && adds_nothing(w, from, to)
}

/// A step that writes nothing keeps everything.
pub proof fn same_writes_keep(w: World, from: TxnView, to: TxnView)
    requires
        valid(w, from),
        from.writes == to.writes,
        from.now == to.now,
        quiet(from, to),
    ensures
        keeps(w, from, to),
{
    assert forall|id: Text| #[trigger] to.promise(w, id) == from.promise(w, id) by {}
    assert forall|id: Text| #[trigger] to.task(w, id) == from.task(w, id) by {}
    task_writes_mind(w, from, to);
    quiet_steps_carry(w, from, to);
    kept_branches_file(w, from, to);
}

/// Two steps after each other that create nothing keep what each keeps.
proof fn steps_keep(w: World, a: TxnView, b: TxnView, c: TxnView)
    requires
        keeps(w, a, b),
        keeps(w, b, c),
    ensures
        keeps(w, a, c),
{
    steps_grow(w, a, b, c);
    assert forall|id: Text| a.promise(w, id) is None implies #[trigger] c.promise(w, id) is None by {
        assert(b.promise(w, id) is None);
    }
}

/// Records that go on in two steps after each other go on.
proof fn records_go_on_twice(w: World, a: TxnView, b: TxnView, c: TxnView)
    requires
        records_go_on(w, a, b),
        records_go_on(w, b, c),
    ensures
        records_go_on(w, a, c),
{
    assert forall|id: Text| promise_goes_on(a.promise(w, id), #[trigger] c.promise(w, id)) by {
        assert(promise_goes_on(a.promise(w, id), b.promise(w, id)));
        assert(promise_goes_on(b.promise(w, id), c.promise(w, id)));
    }
    assert forall|id: Text| task_goes_on(a.task(w, id), #[trigger] c.task(w, id)) by {
        assert(task_goes_on(a.task(w, id), b.task(w, id)));
        assert(task_goes_on(b.task(w, id), c.task(w, id)));
    }
}

/// A fulfilled task stays as it is.
proof fn fulfilled_stays(w: World, from: TxnView, to: TxnView)
    requires
        records_go_on(w, from, to),
    ensures
        forall|id: Text|
            (#[trigger] from.task(w, id)) matches Some(before) ==> before.state
                == TaskState::Fulfilled ==> to.task(w, id) == from.task(w, id),
{
    assert forall|id: Text| (#[trigger] from.task(w, id)) matches Some(before) ==> before.state
        == TaskState::Fulfilled ==> to.task(w, id) == from.task(w, id) by {
        assert(task_goes_on(from.task(w, id), to.task(w, id)));
    }
}

/// Versions that are kept in two steps after each other are kept.
proof fn versions_kept_twice(w: World, a: TxnView, b: TxnView, c: TxnView)
    requires
        versions_kept(w, a, b),
        versions_kept(w, b, c),
    ensures
        versions_kept(w, a, c),
{
    assert forall|id: Text| (a.task(w, id) matches Some(x) ==> (#[trigger] c.task(w, id)) matches Some(
        y,
    ) && x.version == y.version) by {
        assert(a.task(w, id) matches Some(x) ==> b.task(w, id) matches Some(y) && x.version
            == y.version);
        assert(b.task(w, id) matches Some(x) ==> c.task(w, id) matches Some(y) && x.version
            == y.version);
    }
}

/// Two steps after each other keep what each keeps.
pub proof fn steps_grow(w: World, a: TxnView, b: TxnView, c: TxnView)
    requires
        grows(w, a, b),
        grows(w, b, c),
    ensures
        grows(w, a, c),
{
    records_go_on_twice(w, a, b, c);
    versions_kept_twice(w, a, b, c);
    steps_mind(w, a, b, c);
    steps_carry(w, a, b, c);
    steps_file(w, a, b, c);
    fulfilled_stays(w, b, c);
    steps_free(w, a, b, c);
}

/// A step that writes one task, which agrees with its promise and has a job,
/// and releases no claim keeps everything.
proof fn task_written_keeps(
    w: World,
    t: TxnView,
    after: TxnView,
    from: StoredTaskView,
    to: StoredTaskView,
)
    requires
        valid(w, t),
        quiet(t, after),
        after.now == t.now,
        after.writes == t.put_task(to).writes,
        t.task(w, from.id) == Some(from),
        to.id == from.id,
        to.target == from.target,
        to.version == from.version,
        task_valid(to),
        from.state != TaskState::Fulfilled,
        to.state != TaskState::Fulfilled,
        to.state == TaskState::Suspended ==> from.state == TaskState::Suspended || will_wake(
            w,
            t,
            from.id,
        ),
        to.job == from.job || dispatched(after, to.id, to.job),
        works(to) ==> works(from) || dispatched(after, to.id, to.job) || (to.job is Some
            && w.jobs.contains(to.job->0)),
    ensures
        keeps(w, t, after),
{
    assert(agree(from.id, t.promise(w, from.id), t.task(w, from.id)));
    assert forall|id: Text| #[trigger] after.promise(w, id) == t.promise(w, id) by {}
    assert forall|id: Text| id != from.id implies #[trigger] after.task(w, id) == t.task(w, id) by {}
    assert(after.task(w, from.id) == Some(to));
    task_writes_mind(w, t, after);
    task_writes_carry(w, t, after, from.id);
    quiet_steps_free(w, t, after);
    kept_branches_file(w, t, after);
}

/// Writing a task that agrees with its promise and keeps its job keeps
/// everything.
pub proof fn put_task_keeps(w: World, t: TxnView, from: StoredTaskView, to: StoredTaskView)
    requires
        valid(w, t),
        t.task(w, from.id) == Some(from),
        to.id == from.id,
        to.target == from.target,
        to.version == from.version,
        to.job == from.job,
        task_valid(to),
        from.state != TaskState::Fulfilled,
        to.state != TaskState::Fulfilled,
        to.state == TaskState::Suspended ==> from.state == TaskState::Suspended || will_wake(
            w,
            t,
            from.id,
        ),
        works(to) ==> works(from),
    ensures
        keeps(w, t, t.put_task(to)),
{
    task_written_keeps(w, t, t.put_task(to), from, to);
}

/// The dispatch of a task, in a state that it may come to, keeps everything.
proof fn dispatch_keeps(
    w: World,
    t: TxnView,
    from: StoredTaskView,
    to: StoredTaskView,
    run_at: Option<i64>,
)
    requires
        valid(w, t),
        t.task(w, from.id) == Some(from),
        to.id == from.id,
        to.target == from.target,
        to.version == from.version,
        task_valid(t.with_job(w, to)),
        from.state != TaskState::Fulfilled,
        to.state == TaskState::Pending,
    ensures
        keeps(w, t, t.dispatch(w, to, run_at)),
{
    let next = t.with_job(w, to);
    let after = t.dispatch(w, to, run_at);
    assert(dispatches(after.enqueues[t.enqueues.len() as int], to.id, next.job));
    task_written_keeps(w, t, after, from, next);
}

/// The record of a settled promise against its awaiter's task keeps everything.
proof fn resumed_keeps(w: World, t: TxnView, awaiter: Text, awaited: Text, wake: Wake)
    requires
        valid(w, t),
    ensures
        keeps(w, t, resumed(w, t, awaiter, awaited, wake)),
{
    let read = t.read_task(awaiter);
    let after = resumed(w, t, awaiter, awaited, wake);
    same_writes_keep(w, t, read);
    assert(agree(awaiter, t.promise(w, awaiter), t.task(w, awaiter)));
    assert(read.task(w, awaiter) == t.task(w, awaiter));
    if let Some(task) = t.task(w, awaiter) {
        if task.state == TaskState::Suspended {
            dispatch_keeps(w, read, task, woken(task, awaited), None);
            steps_keep(w, t, read, after);
        } else if task.state == TaskState::Pending || task.state == TaskState::Acquired || (
        task.state == TaskState::Halted && wake == Wake::Fanout) {
            put_task_keeps(w, read, task, notified(task, awaited));
            steps_keep(w, t, read, after);
        }
    }
}

/// A callback keeps everything.
proof fn called_back_keeps(w: World, t: TxnView, awaiter: Text, awaited: Text)
    requires
        valid(w, t),
    ensures
        keeps(w, t, called_back(w, t, awaiter, awaited)),
{
    let read = t.read_promise(awaiter);
    same_writes_keep(w, t, read);
    resumed_keeps(w, read, awaiter, awaited, Wake::Fanout);
    steps_keep(w, t, read, resumed(w, read, awaiter, awaited, Wake::Fanout));
}

/// Callbacks keep everything.
proof fn all_called_back_keep(w: World, t: TxnView, callbacks: Seq<Text>, awaited: Text)
    requires
        valid(w, t),
    ensures
        keeps(w, t, all_called_back(w, t, callbacks, awaited)),
    decreases callbacks.len(),
{
    if callbacks.len() == 0 {
        same_writes_keep(w, t, t);
    } else {
        let before = all_called_back(w, t, callbacks.drop_last(), awaited);
        all_called_back_keep(w, t, callbacks.drop_last(), awaited);
        called_back_keeps(w, before, callbacks.last(), awaited);
        steps_keep(w, t, before, called_back(w, before, callbacks.last(), awaited));
    }
}

/// Whether `row` is how a pending promise that the request sees is settled.
pub open spec fn settles(w: World, t: TxnView, row: StoredPromiseView) -> bool {
    &&& !row.record.is_pending()
    &&& row.record.settled_at is Some
    &&& t.promise(w, row.record.id) matches Some(before) && before.record.is_pending()
        && same_promise(before.record, row.record) && before.callbacks == row.callbacks
}

/// The settlement of a promise and the end of its task keep everything but the
/// registrations with the promise.
proof fn settlement_keeps(w: World, t: TxnView, row: StoredPromiseView)
    requires
        valid(w, t),
        settles(w, t, row),
    ensures
        ({
            let after = task_ended(w, t, row.record.id).put_promise(cleared(row));
            &&& valid(w, after)
            &&& records_go_on(w, t, after)
            &&& versions_kept(w, t, after)
            &&& adds_nothing(w, t, after)
            &&& carries(w, t, after)
            &&& frees(w, t, after)
            &&& files(w, t, after)
        }),
{
    let id = row.record.id;
    let after = task_ended(w, t, id).put_promise(cleared(row));
    assert(agree(id, t.promise(w, id), t.task(w, id)));
    if let Some(task) = t.task(w, id) {
        assert(after.task(w, id) == Some(ended(task)));
    } else {
        assert(after.task(w, id) is None);
    }
    assert(after.promise(w, id) == Some(cleared(row)));
    assert forall|other: Text| other != id implies #[trigger] after.promise(w, other) == t.promise(
        w,
        other,
    ) && after.task(w, other) == t.task(w, other) by {}
    assert forall|other: Text| other != id implies #[trigger] after.task(w, other) == t.task(
        w,
        other,
    ) by {}
    task_writes_carry(w, t, after, id);
    reveal(frees);
    assert forall|branch: Text, other: Text| #[trigger] in_branch(after.promise(w, other), branch)
        == in_branch(t.promise(w, other), branch) by {
        if other != id {
            assert(after.promise(w, other) == t.promise(w, other));
        }
    }
    kept_branches_file(w, t, after);
}

/// A settlement and its consequences keep everything.
pub proof fn settled_chain_keeps_all(w: World, t: TxnView, row: StoredPromiseView)
    requires
        valid(w, t),
        settles(w, t, row),
    ensures
        keeps(w, t, settled_chain(w, t, row)),
{
    let id = row.record.id;
    let start = task_ended(w, t, id).put_promise(cleared(row));
    let told = all_called_back(w, start, row.callbacks, id);
    settlement_keeps(w, t, row);
    all_called_back_keep(w, start, row.callbacks, id);
    records_go_on_twice(w, t, start, told);
    versions_kept_twice(w, t, start, told);
    steps_carry(w, t, start, told);
    steps_file(w, t, start, told);
    fulfilled_stays(w, start, told);
    steps_free(w, t, start, told);
    assert forall|other: Text| t.promise(w, other) is None implies #[trigger] told.promise(w, other)
        is None by {
        assert(start.promise(w, other) is None);
    }
    settlement_minds(w, t, row);
    all_unblocked_keeps(told, row.listeners, row.record);
    unblocks_are_quiet(told, row.listeners, row.record);
    same_writes_keep(w, told, all_unblocked(told, row.listeners, row.record));
    steps_keep(w, t, told, all_unblocked(told, row.listeners, row.record));
}

/// Once the callbacks of a settled promise are called, every task is minded:
/// those that were registered with it do not sleep any more.
proof fn settlement_minds(w: World, t: TxnView, row: StoredPromiseView)
    requires
        valid(w, t),
        settles(w, t, row),
    ensures
        minds(
            w,
            t,
            all_called_back(
                w,
                task_ended(w, t, row.record.id).put_promise(cleared(row)),
                row.callbacks,
                row.record.id,
            ),
        ),
{
    let settled = row.record.id;
    let start = task_ended(w, t, settled).put_promise(cleared(row));
    let told = all_called_back(w, start, row.callbacks, settled);
    settlement_keeps(w, t, row);
    all_called_back_keep(w, start, row.callbacks, settled);
    reveal(minds);
    assert forall|id: Text| #[trigger] minded(w, t, told, id) by {
        assert(minded(w, start, told, id));
        if sleeps(w, told, id) && !will_wake(w, told, id) {
            callbacks_write_no_promise(w, start, row.callbacks, settled, id);
            assert(agree(id, start.promise(w, id), start.task(w, id)));
            assert(agree(id, t.promise(w, id), t.task(w, id)));
            assert(id != settled);
            assert(start.promise(w, id) == t.promise(w, id));
            assert(start.task(w, id) == t.task(w, id));
            assert forall|awaited: Text| #[trigger] awaits(w, t, id, awaited) implies awaits(
                w,
                told,
                id,
                awaited,
            ) by {
                callbacks_write_no_promise(w, start, row.callbacks, settled, awaited);
                if awaited == settled {
                    let i = row.callbacks.index_of(id);
                    assert(row.callbacks[i] == id);
                    assert(tasks_keyed(w, start)) by {
                        assert forall|other: Text| (#[trigger] start.task(w, other)) matches Some(
                            task,
                        ) ==> task.id == other by {
                            assert(agree(other, start.promise(w, other), start.task(w, other)));
                        }
                    }
                    callbacks_noticed(w, start, row.callbacks, settled, i);
                } else {
                    assert(start.promise(w, awaited) == t.promise(w, awaited));
                }
            }
        }
    }
}

/// After its settlement a promise is settled, without registrations.
pub proof fn settled_chain_settles(w: World, t: TxnView, row: StoredPromiseView)
    ensures
        settled_chain(w, t, row).promise(w, row.record.id) == Some(cleared(row)),
{
    let id = row.record.id;
    let start = task_ended(w, t, id).put_promise(cleared(row));
    let told = all_called_back(w, start, row.callbacks, id);
    callbacks_write_no_promise(w, start, row.callbacks, id, id);
    all_unblocked_keeps(told, row.listeners, row.record);
    assert(start.promise(w, id) == Some(cleared(row)));
    assert(settled_chain(w, t, row).promise(w, id) == told.promise(w, id));
}

/// The deadline of one promise keeps everything, and leaves it not overdue.
proof fn timed_out_keeps(w: World, t: TxnView, id: Text)
    requires
        valid(w, t),
    ensures
        keeps(w, t, timed_out(w, t, id)),
        timed_out(w, t, id).promise(w, id) matches Some(row) ==> !is_overdue(row, t.now),
{
    let read = t.read_promise(id);
    same_writes_keep(w, t, read);
    assert(agree(id, t.promise(w, id), t.task(w, id)));
    assert(read.promise(w, id) == t.promise(w, id));
    if let Some(row) = t.promise(w, id) {
        if is_overdue(row, t.now) {
            settled_chain_keeps_all(w, read, expired(row));
            settled_chain_settles(w, read, expired(row));
            steps_keep(w, t, read, settled_chain(w, read, expired(row)));
        }
    }
}

/// A promise that is not overdue stays so within a request.
proof fn not_overdue_stays(w: World, from: TxnView, to: TxnView, id: Text)
    requires
        goes_on(w, from, to),
        from.promise(w, id) is Some,
        from.promise(w, id) matches Some(row) ==> !is_overdue(row, from.now),
    ensures
        to.promise(w, id) matches Some(row) ==> !is_overdue(row, to.now),
{
    assert(promise_goes_on(from.promise(w, id), to.promise(w, id)));
}

/// A request never observes an expired promise as pending: once the deadlines
/// of the promises it names are applied, none of them is pending past its
/// deadline. Everything else is kept.
pub proof fn deadlines_are_applied(w: World, t: TxnView, ids: Seq<Text>)
    requires
        valid(w, t),
    ensures
        keeps(w, t, all_timed_out(w, t, ids)),
        forall|i: int|
            0 <= i < ids.len() ==> (all_timed_out(w, t, ids).promise(
                w,
                #[trigger] ids[i],
            ) matches Some(row) ==> !is_overdue(row, t.now)),
    decreases ids.len(),
{
    if ids.len() == 0 {
        same_writes_keep(w, t, t);
    } else {
        let before = all_timed_out(w, t, ids.drop_last());
        let after = all_timed_out(w, t, ids);
        deadlines_are_applied(w, t, ids.drop_last());
        timed_out_keeps(w, before, ids.last());
        steps_keep(w, t, before, after);
        assert forall|i: int| 0 <= i < ids.len() implies (after.promise(w, #[trigger] ids[i]) matches Some(
            row,
        ) ==> !is_overdue(row, t.now)) by {
            if i < ids.len() - 1 {
                assert(ids.drop_last()[i] == ids[i]);
                if before.promise(w, ids[i]) is Some {
                    not_overdue_stays(w, before, after, ids[i]);
                }
            }
        }
    }
}

/// Writes that are no promises or tasks keep everything.
proof fn other_writes_keep(w: World, from: TxnView, to: TxnView)
    requires
        valid(w, from),
        from.now == to.now,
        forall|id: Text| #[trigger] to.promise(w, id) == from.promise(w, id),
        forall|id: Text| #[trigger] to.task(w, id) == from.task(w, id),
        forall|branch: Text, id: Text| #[trigger]
            entry_written(to, branch, id) == entry_written(from, branch, id),
        quiet(from, to),
    ensures
        keeps(w, from, to),
{
    task_writes_mind(w, from, to);
    quiet_steps_carry(w, from, to);
    assert forall|branch: Text, id: Text| #[trigger] in_branch(to.promise(w, id), branch)
        == in_branch(from.promise(w, id), branch) by {
        assert(to.promise(w, id) == from.promise(w, id));
    }
    kept_branches_file(w, from, to);
}

/// The creation of a promise that does not exist keeps everything else.
pub proof fn created_keeps(
    w: World,
    t: TxnView,
    data: CreateView,
    created_at: Option<i64>,
    mode: ModeView,
)
    requires
        valid(w, t),
        t.promise(w, data.id) is None,
    ensures
        grows(w, t, created(w, t, data, created_at, mode)),
        created(w, t, data, created_at, mode).promise(w, data.id) == Some(
            created_row(data, created_at, t.now),
        ),
{
    let row = created_row(data, created_at, t.now);
    let after = created(w, t, data, created_at, mode);
    assert(agree(data.id, t.promise(w, data.id), t.task(w, data.id)));
    let written = t.index_branch(row.record).put_promise(row);
    assert(written.task(w, data.id) is None);
    assert(after.promise(w, data.id) == Some(row));
    assert forall|id: Text| id != data.id implies #[trigger] after.promise(w, id) == t.promise(
        w,
        id,
    ) by {}
    assert forall|id: Text| id != data.id implies #[trigger] after.task(w, id) == t.task(w, id) by {}
    assert(agree(data.id, after.promise(w, data.id), after.task(w, data.id)));
    assert(valid(w, after)) by {
        assert forall|id: Text|
            #![trigger after.promise(w, id)]
            #![trigger after.task(w, id)]
            agree(id, after.promise(w, id), after.task(w, id)) by {
            if id != data.id {
                assert(agree(id, t.promise(w, id), t.task(w, id)));
            }
        }
    }
    if let Some(task) = after.task(w, data.id) {
        if task.job is Some {
            let dispatch = after.enqueues[t.enqueues.len() as int];
            assert(dispatches(dispatch, data.id, task.job));
        }
    }
    task_writes_carry(w, t, after, data.id);
    quiet_steps_free(w, t, after);
    reveal(files);
    if index_agrees(w, t) {
        assert forall|branch: Text, id: Text| #[trigger] has_entry(w, after, branch, id)
            <==> in_branch(after.promise(w, id), branch) by {
            assert(has_entry(w, t, branch, id) <==> in_branch(t.promise(w, id), branch));
            assert(entry_written(t, branch, id) != Some(None::<RowView>));
            if id != data.id {
                assert(after.promise(w, id) == t.promise(w, id));
            }
        }
        assert forall|branch: Text, id: Text| #[trigger] entry_written(after, branch, id) != Some(
            None::<RowView>,
        ) by {
            assert(entry_written(t, branch, id) != Some(None::<RowView>));
        }
    }
    reveal(minds);
    assert forall|id: Text| #[trigger] minded(w, t, after, id) by {
        if sleeps(w, after, id) {
            assert(id != data.id);
            assert(after.task(w, id) == t.task(w, id));
            assert(after.promise(w, id) == t.promise(w, id));
            assert forall|awaited: Text| #[trigger] awaits(w, t, id, awaited) implies awaits(
                w,
                after,
                id,
                awaited,
            ) by {
                assert(awaited != data.id);
                assert(after.promise(w, awaited) == t.promise(w, awaited));
            }
        }
    }
}

/// The deadline of one promise keeps everything.
pub proof fn due_keeps_all(w: World, t: TxnView, id: Text)
    requires
        valid(w, t),
    ensures
        keeps(w, t, due(w, t, id)),
        due(w, t, id).promise(w, id) matches Some(row) ==> !is_overdue(row, t.now),
{
    deadlines_are_applied(w, t, seq![id]);
    assert(seq![id][0] == id);
}

/// A promise to create keeps everything else.
proof fn creation_keeps(w: World, t: TxnView, data: CreateView)
    requires
        valid(w, t),
    ensures
        grows(w, t, creation(w, t, data).0),
{
    let timed = due(w, t, data.id);
    let read = timed.read_promise(data.id);
    due_keeps_all(w, t, data.id);
    same_writes_keep(w, timed, read);
    steps_keep(w, t, timed, read);
    if timed.promise(w, data.id) is None {
        assert(read.promise(w, data.id) is None);
        created_keeps(w, read, data, None, ModeView::Dispatch);
        steps_grow(w, t, read, created(w, read, data, None, ModeView::Dispatch));
    }
}

/// A promise to settle keeps everything else.
proof fn settling_keeps(w: World, t: TxnView, row: StoredPromiseView, data: SettleView)
    requires
        valid(w, t),
        t.promise(w, row.record.id) == Some(row),
    ensures
        keeps(w, t, settling(w, t, row, data).0),
{
    if row.record.is_pending() {
        settled_chain_keeps_all(w, t, settled(row, data.state, data.value, t.now));
    } else {
        same_writes_keep(w, t, t);
    }
}

/// The registration of a callback on a pending promise keeps everything.
proof fn callback_registered_keeps(w: World, t: TxnView, row: StoredPromiseView, awaiter: Text)
    requires
        valid(w, t),
        row.record.is_pending(),
        t.promise(w, row.record.id) == Some(row) || t.promise(w, row.record.id) == Some(
            awaited_by(row, awaiter),
        ),
    ensures
        keeps(w, t, callback_registered(t, row, awaiter)),
{
    let id = row.record.id;
    let after = callback_registered(t, row, awaiter);
    assert(agree(id, t.promise(w, id), t.task(w, id)));
    assert forall|other: Text| other != id implies #[trigger] after.promise(w, other) == t.promise(
        w,
        other,
    ) by {}
    assert forall|other: Text| #[trigger] after.task(w, other) == t.task(w, other) by {}
    assert(row_valid(awaited_by(row, awaiter)));
    assert forall|other: Text| #[trigger] row.callbacks.contains(other) implies awaited_by(
        row,
        awaiter,
    ).callbacks.contains(other) by {
        let i = row.callbacks.index_of(other);
        assert(awaited_by(row, awaiter).callbacks[i] == other);
    }
    promise_writes_mind(w, t, after);
    quiet_steps_carry(w, t, after);
    assert forall|branch: Text, other: Text| #[trigger] in_branch(after.promise(w, other), branch)
        == in_branch(t.promise(w, other), branch) by {
        if other != id {
            assert(after.promise(w, other) == t.promise(w, other));
        }
    }
    kept_branches_file(w, t, after);
}

/// The registration of a listener on a pending promise keeps everything.
proof fn heard_keeps(w: World, t: TxnView, row: StoredPromiseView, address: Text)
    requires
        valid(w, t),
        row.record.is_pending(),
        !row.listeners.contains(address),
        t.promise(w, row.record.id) == Some(row),
    ensures
        keeps(w, t, t.put_promise(heard_by(row, address))),
{
    let id = row.record.id;
    let after = t.put_promise(heard_by(row, address));
    assert(agree(id, t.promise(w, id), t.task(w, id)));
    assert forall|other: Text| other != id implies #[trigger] after.promise(w, other) == t.promise(
        w,
        other,
    ) by {}
    assert forall|other: Text| #[trigger] after.task(w, other) == t.task(w, other) by {}
    assert(row_valid(heard_by(row, address)));
    promise_writes_mind(w, t, after);
    quiet_steps_carry(w, t, after);
    assert forall|branch: Text, other: Text| #[trigger] in_branch(after.promise(w, other), branch)
        == in_branch(t.promise(w, other), branch) by {
        if other != id {
            assert(after.promise(w, other) == t.promise(w, other));
        }
    }
    kept_branches_file(w, t, after);
}

/// A callback to register keeps everything.
proof fn callback_keeps(w: World, t: TxnView, awaited: Text, awaiter: Text)
    requires
        valid(w, t),
    ensures
        keeps(w, t, callback(w, t, awaited, awaiter).0),
{
    let timed = all_timed_out(w, t, seq![awaited, awaiter]);
    let one = timed.read_promise(awaited);
    let both = one.read_promise(awaiter);
    let after = callback(w, t, awaited, awaiter).0;
    deadlines_are_applied(w, t, seq![awaited, awaiter]);
    same_writes_keep(w, timed, one);
    steps_keep(w, t, timed, one);
    same_writes_keep(w, one, both);
    steps_keep(w, t, one, both);
    assert(agree(awaited, timed.promise(w, awaited), timed.task(w, awaited)));
    assert(both.promise(w, awaited) == timed.promise(w, awaited));
    if let Some(row) = timed.promise(w, awaited) {
        if row.record.is_pending() {
            callback_registered_keeps(w, both, row, awaiter);
            steps_keep(w, t, both, callback_registered(both, row, awaiter));
        } else {
            resumed_keeps(w, both, awaiter, awaited, Wake::Registration);
            steps_keep(w, t, both, resumed(w, both, awaiter, awaited, Wake::Registration));
        }
    }
}

/// What a request keeps, up to the versions of tasks.
pub open spec fn advances(w: World, from: TxnView, to: TxnView) -> bool {
    valid(w, to) && goes_on(w, from, to) && frees(w, from, to)
}

/// Two steps after each other advance as each does.
proof fn steps_advance(w: World, a: TxnView, b: TxnView, c: TxnView)
    requires
        advances(w, a, b),
        advances(w, b, c),
    ensures
        advances(w, a, c),
{
    records_go_on_twice(w, a, b, c);
    steps_mind(w, a, b, c);
    steps_carry(w, a, b, c);
    steps_file(w, a, b, c);
    fulfilled_stays(w, b, c);
    steps_free(w, a, b, c);
}

/// A request for the settlement of a promise keeps everything.
proof fn promise_settlement_keeps(w: World, t: TxnView, data: SettleView)
    requires
        valid(w, t),
    ensures
        keeps(w, t, promise_settlement(w, t, data).0),
{
    let timed = due(w, t, data.id);
    let read = timed.read_promise(data.id);
    due_keeps_all(w, t, data.id);
    same_writes_keep(w, timed, read);
    steps_keep(w, t, timed, read);
    assert(agree(data.id, timed.promise(w, data.id), timed.task(w, data.id)));
    assert(read.promise(w, data.id) == timed.promise(w, data.id));
    if let Some(row) = timed.promise(w, data.id) {
        settling_keeps(w, read, row, data);
        steps_keep(w, t, read, settling(w, read, row, data).0);
    }
}

/// A listener to register keeps everything.
proof fn listener_keeps(w: World, t: TxnView, awaited: Text, address: Text, address_is_url: bool)
    requires
        valid(w, t),
    ensures
        keeps(w, t, listener_registration(w, t, awaited, address, address_is_url).0),
{
    let timed = due(w, t, awaited);
    let read = timed.read_promise(awaited);
    same_writes_keep(w, t, t);
    due_keeps_all(w, t, awaited);
    same_writes_keep(w, timed, read);
    steps_keep(w, t, timed, read);
    assert(agree(awaited, timed.promise(w, awaited), timed.task(w, awaited)));
    assert(read.promise(w, awaited) == timed.promise(w, awaited));
    if let Some(row) = timed.promise(w, awaited) {
        if row.record.is_pending() && !row.listeners.contains(address) {
            heard_keeps(w, read, row, address);
            steps_keep(w, t, read, read.put_promise(heard_by(row, address)));
        }
    }
}

/// Writing a pending task as it is acquired keeps everything but its version,
/// which increments.
proof fn put_taken_advances(w: World, t: TxnView, task: StoredTaskView, pid: Text, ttl: i64)
    requires
        valid(w, t),
        t.task(w, task.id) == Some(task),
        task.state == TaskState::Pending,
    ensures
        advances(w, t, t.put_task(taken(task, pid, ttl))),
        adds_nothing(w, t, t.put_task(taken(task, pid, ttl))),
{
    let after = t.put_task(taken(task, pid, ttl));
    assert(agree(task.id, t.promise(w, task.id), t.task(w, task.id)));
    assert forall|id: Text| #[trigger] after.promise(w, id) == t.promise(w, id) by {}
    assert forall|id: Text| id != task.id implies #[trigger] after.task(w, id) == t.task(w, id) by {}
    assert(after.task(w, task.id) == Some(taken(task, pid, ttl)));
    task_writes_mind(w, t, after);
    task_writes_carry(w, t, after, task.id);
    quiet_steps_free(w, t, after);
    kept_branches_file(w, t, after);
}

/// Loading siblings keeps everything.
proof fn preload_keeps(w: World, t: TxnView, promise: PromiseView)
    requires
        valid(w, t),
    ensures
        keeps(w, t, after_preload(w, t, promise)),
{
    same_writes_keep(w, t, t);
    if promise.tags.contains_key(TAG_BRANCH@) {
        let branch = promise.tags[TAG_BRANCH@];
        let prefix = branch_prefix_of(branch);
        let scanned = after_scan(w, t, prefix, promise.id, t.preload_limit, SCAN_PAGE);
        let ids = siblings(w, t, promise, branch);
        let timed = all_timed_out(w, scanned, ids);
        after_scan_keeps(w, t, prefix, promise.id, t.preload_limit, SCAN_PAGE);
        same_writes_keep(w, t, scanned);
        deadlines_are_applied(w, scanned, ids);
        steps_keep(w, t, scanned, timed);
        read_all_keeps(timed, ids);
        same_writes_keep(w, timed, read_all(timed, ids));
        steps_keep(w, t, timed, read_all(timed, ids));
    }
}

/// A listing of the promises keeps everything.
proof fn listing_keeps(w: World, t: TxnView)
    requires
        valid(w, t),
    ensures
        keeps(w, t, promises_listed(w, t)),
{
    let read = t.ask(CallView::Promises);
    same_writes_keep(w, t, read);
    deadlines_are_applied(w, read, overdue_ids(w.all_promises(), t.now));
    steps_keep(w, t, read, promises_listed(w, t));
}

/// Whether `to` is `from`, but for what it has not observed.
pub open spec fn only_notified(from: Option<StoredTaskView>, to: Option<StoredTaskView>) -> bool {
    from matches Some(a) && to matches Some(b) && b == (StoredTaskView { resumes: b.resumes, ..a })
}

/// A callback leaves a task with work to do as it is, but for what it has not
/// observed.
proof fn callbacks_leave_working(
    w: World,
    t: TxnView,
    callbacks: Seq<Text>,
    awaited: Text,
    id: Text,
)
    requires
        tasks_keyed(w, t),
        t.task(w, id) matches Some(task) && works(task),
    ensures
        only_notified(t.task(w, id), all_called_back(w, t, callbacks, awaited).task(w, id)),
    decreases callbacks.len(),
{
    if callbacks.len() > 0 {
        let before = all_called_back(w, t, callbacks.drop_last(), awaited);
        callbacks_leave_working(w, t, callbacks.drop_last(), awaited, id);
        callbacks_keep_keys(w, t, callbacks.drop_last(), awaited);
        assert(before.task(w, callbacks.last()) matches Some(task) ==> task.id == callbacks.last());
    }
}

/// Deadlines leave a task with work to do within the deadline of its promise as
/// it is, but for what it has not observed.
proof fn deadlines_leave_working(w: World, t: TxnView, ids: Seq<Text>, id: Text)
    requires
        valid(w, t),
        t.promise(w, id) matches Some(row) && !is_overdue(row, t.now),
        t.task(w, id) matches Some(task) && works(task),
    ensures
        only_notified(t.task(w, id), all_timed_out(w, t, ids).task(w, id)),
    decreases ids.len(),
{
    if ids.len() > 0 {
        let short = ids.drop_last();
        let last = ids.last();
        let before = all_timed_out(w, t, short);
        deadlines_leave_working(w, t, short, id);
        deadlines_are_applied(w, t, short);
        not_overdue_stays(w, t, before, id);
        assert(agree(last, before.promise(w, last), before.task(w, last)));
        if let Some(row) = before.promise(w, last) {
            if is_overdue(row, before.now) {
                let read = before.read_promise(last);
                let settled = expired(row);
                let start = task_ended(w, read, last).put_promise(cleared(settled));
                let told = all_called_back(w, start, row.callbacks, last);
                same_writes_keep(w, before, read);
                assert(read.promise(w, last) == Some(row));
                settlement_keeps(w, read, settled);
                assert(start.task(w, id) == before.task(w, id));
                assert forall|other: Text| (#[trigger] start.task(w, other)) matches Some(task)
                    ==> task.id == other by {
                    assert(agree(other, start.promise(w, other), start.task(w, other)));
                }
                callbacks_leave_working(w, start, row.callbacks, last, id);
                all_unblocked_keeps(told, row.listeners, settled.record);
            }
        }
    }
}

/// Loading siblings leaves a task with work to do within the deadline of its
/// promise as it is, but for what it has not observed.
proof fn preload_leaves_working(w: World, t: TxnView, promise: PromiseView, id: Text)
    requires
        valid(w, t),
        t.promise(w, id) matches Some(row) && !is_overdue(row, t.now),
        t.task(w, id) matches Some(task) && works(task),
    ensures
        only_notified(t.task(w, id), after_preload(w, t, promise).task(w, id)),
{
    if promise.tags.contains_key(TAG_BRANCH@) {
        let branch = promise.tags[TAG_BRANCH@];
        let prefix = branch_prefix_of(branch);
        let scanned = after_scan(w, t, prefix, promise.id, t.preload_limit, SCAN_PAGE);
        let ids = siblings(w, t, promise, branch);
        after_scan_keeps(w, t, prefix, promise.id, t.preload_limit, SCAN_PAGE);
        same_writes_keep(w, t, scanned);
        assert(scanned.task(w, id) == t.task(w, id));
        assert(scanned.promise(w, id) == t.promise(w, id));
        deadlines_leave_working(w, scanned, ids, id);
        read_all_keeps(all_timed_out(w, scanned, ids), ids);
    }
}

/// A task that is sent as it is keeps everything.
proof fn task_viewed_keeps(w: World, t: TxnView, task: StoredTaskView)
    requires
        valid(w, t),
        t.task(w, task.id) == Some(task),
        works(task) || task.state == TaskState::Fulfilled,
        t.promise(w, task.id) matches Some(row) ==> !is_overdue(row, t.now),
    ensures
        keeps(w, t, task_viewed(w, t, task).0),
{
    let id = task.id;
    let read = t.read_promise(id);
    same_writes_keep(w, t, read);
    assert(read.promise(w, id) == t.promise(w, id));
    assert(read.task(w, id) == t.task(w, id));
    assert(agree(id, t.promise(w, id), t.task(w, id)));
    if let Some(row) = t.promise(w, id) {
        if works(task) {
            let loaded = after_preload(w, read, row.record);
            preload_keeps(w, read, row.record);
            steps_keep(w, t, read, loaded);
            preload_leaves_working(w, read, row.record, id);
            put_task_keeps(w, loaded, loaded.task(w, id)->0, task);
            steps_keep(w, t, loaded, loaded.put_task(task));
        }
    }
}

/// A pending task that is sent as it is acquired keeps everything but its
/// version, and comes to be as it is sent.
proof fn task_taken_advances(w: World, t: TxnView, task: StoredTaskView, pid: Text, ttl: i64)
    requires
        valid(w, t),
        t.task(w, task.id) == Some(task),
        task.state == TaskState::Pending,
        t.promise(w, task.id) matches Some(row) ==> !is_overdue(row, t.now),
    ensures
        ({
            let end = task_viewed(w, t, taken(task, pid, ttl));
            &&& advances(w, t, end.0)
            &&& adds_nothing(w, t, end.0)
            &&& !(end.1 is Orphan)
            &&& end.0.task(w, task.id) == Some(taken(task, pid, ttl))
            &&& forall|other: Text|
                other != task.id ==> (t.task(w, other) matches Some(a) ==> (
                #[trigger] end.0.task(w, other)) matches Some(b) && a.version == b.version)
        }),
{
    let id = task.id;
    let read = t.read_promise(id);
    same_writes_keep(w, t, read);
    assert(read.promise(w, id) == t.promise(w, id));
    assert(read.task(w, id) == t.task(w, id));
    assert(agree(id, t.promise(w, id), t.task(w, id)));
    let row = t.promise(w, id)->0;
    let loaded = after_preload(w, read, row.record);
    preload_keeps(w, read, row.record);
    steps_keep(w, t, read, loaded);
    preload_leaves_working(w, read, row.record, id);
    let before = loaded.task(w, id)->0;
    let after = loaded.put_task(taken(task, pid, ttl));
    assert(taken(before, pid, ttl) == taken(task, pid, ttl));
    put_taken_advances(w, loaded, before, pid, ttl);
    steps_advance(w, t, loaded, after);
    assert forall|other: Text| other != id && t.task(w, other) is Some implies (#[trigger] after.task(
        w,
        other,
    )) matches Some(b) && t.task(w, other)->0.version == b.version by {
        assert(after.task(w, other) == loaded.task(w, other));
    }
}

/// A pending task to acquire keeps everything but its version.
proof fn pending_taken_advances(w: World, t: TxnView, task: StoredTaskView, pid: Text, ttl: i64)
    requires
        valid(w, t),
        t.task(w, task.id) == Some(task),
        task.state == TaskState::Pending,
        t.promise(w, task.id) matches Some(row) ==> !is_overdue(row, t.now),
    ensures
        advances(w, t, pending_taken(w, t, task, pid, ttl).0),
        !(pending_taken(w, t, task, pid, ttl).1 is Orphan),
{
    let claimed = claiming(w, t, task, ttl);
    let tried = claimed.renew(w, task.id, lease(ttl));
    same_writes_keep(w, t, claimed);
    same_writes_keep(w, t, tried);
    assert(tried.task(w, task.id) == t.task(w, task.id));
    assert(tried.promise(w, task.id) == t.promise(w, task.id));
    task_taken_advances(w, tried, task, pid, ttl);
    steps_advance(w, t, tried, task_viewed(w, tried, taken(task, pid, ttl)).0);
}

/// A task to create keeps everything but the version of one that is acquired.
proof fn task_taking_advances(w: World, t: TxnView, create: CreateView, pid: Text, ttl: i64)
    requires
        valid(w, t),
    ensures
        advances(w, t, task_taking(w, t, create, pid, ttl).0),
{
    let id = create.id;
    let timed = due(w, t, id);
    let read = timed.read_task(id);
    due_keeps_all(w, t, id);
    same_writes_keep(w, timed, read);
    steps_keep(w, t, timed, read);
    assert(agree(id, timed.promise(w, id), timed.task(w, id)));
    assert(read.task(w, id) == timed.task(w, id));
    assert(read.promise(w, id) == timed.promise(w, id));
    match timed.task(w, id) {
        Some(task) => {
            if task.state == TaskState::Pending {
                pending_taken_advances(w, read, task, pid, ttl);
                steps_advance(w, t, read, pending_taken(w, read, task, pid, ttl).0);
            } else if task.state == TaskState::Fulfilled {
                task_viewed_keeps(w, read, task);
                steps_advance(w, t, read, task_viewed(w, read, task).0);
            }
        },
        None => {
            let both = read.read_promise(id);
            same_writes_keep(w, read, both);
            steps_keep(w, t, read, both);
            if read.promise(w, id) is None {
                let made = created(w, both, create, None, ModeView::Acquire(pid, ttl));
                assert(both.promise(w, id) is None);
                created_keeps(w, both, create, None, ModeView::Acquire(pid, ttl));
                steps_grow(w, t, both, made);
                same_writes_keep(w, made, made.read_task(id));
                steps_advance(w, t, made, made.read_task(id));
                assert(made.read_task(id).task(w, id) == made.task(w, id));
                assert(made.read_task(id).promise(w, id) == made.promise(w, id));
                assert(agree(id, made.promise(w, id), made.task(w, id)));
                if let Some(task) = made.task(w, id) {
                    task_viewed_keeps(w, made.read_task(id), task);
                    steps_advance(
                        w,
                        t,
                        made.read_task(id),
                        task_viewed(w, made.read_task(id), task).0,
                    );
                }
            }
        },
    }
}

/// The task of an id after its promise's deadline was applied.
pub proof fn read_after_deadline(w: World, t: TxnView, id: Text)
    requires
        valid(w, t),
    ensures
        keeps(w, t, due(w, t, id).read_task(id)),
        due(w, t, id).read_task(id).task(w, id) == due(w, t, id).task(w, id),
        due(w, t, id).read_task(id).promise(w, id) == due(w, t, id).promise(w, id),
        agree(id, due(w, t, id).promise(w, id), due(w, t, id).task(w, id)),
        due(w, t, id).promise(w, id) matches Some(row) ==> !is_overdue(row, t.now),
{
    let timed = due(w, t, id);
    due_keeps_all(w, t, id);
    same_writes_keep(w, timed, timed.read_task(id));
    steps_keep(w, t, timed, timed.read_task(id));
}

/// An acquire increments the version of its task by one, and changes no other
/// version; its task is acquired by the worker, with nothing left unobserved. An
/// acquire that is refused changes no version.
pub proof fn an_acquire_increments_the_version(
    w: World,
    t: TxnView,
    id: Text,
    version: i64,
    pid: Text,
    ttl: i64,
)
    requires
        valid(w, t),
    ensures
        ({
            let end = task_acquisition(w, t, id, version, pid, ttl);
            let after = end.0;
            &&& forall|other: Text|
                other != id ==> (t.task(w, other) matches Some(a) ==> (#[trigger] after.task(
                    w,
                    other,
                )) matches Some(b) && a.version == b.version)
            &&& match end.1 {
                OutcomeView::Commit(ReplyView::Data(200, ReplyDataView::Work(sent, _, _))) => {
                    &&& t.task(w, id) matches Some(a) && a.version == version
                    &&& due(w, t, id).task(w, id) matches Some(task) && task.state
                        == TaskState::Pending && task.version == version && after.task(w, id)
                        == Some(taken(task, pid, ttl)) && sent == taken(task, pid, ttl).record()
                },
                _ => versions_kept(w, t, after),
            }
        }),
{
    let read = due(w, t, id).read_task(id);
    read_after_deadline(w, t, id);
    if let Some(task) = due(w, t, id).task(w, id) {
        assert(read.task(w, id) == Some(task));
        if task.state == TaskState::Pending && task.version == version {
            let tried = read.renew(w, task.id, lease(ttl));
            same_writes_keep(w, read, tried);
            steps_keep(w, t, read, tried);
            assert(tried.task(w, id) == Some(task));
            assert(tried.promise(w, id) == read.promise(w, id));
            task_taken_advances(w, tried, task, pid, ttl);
        }
    }
}

/// A task that a request to create it sends is stored as it is sent: acquired by
/// the worker or fulfilled, with nothing left unobserved.
pub proof fn a_created_task_is_stored_as_it_is_sent(
    w: World,
    t: TxnView,
    create: CreateView,
    pid: Text,
    ttl: i64,
)
    requires
        valid(w, t),
    ensures
        ({
            let end = task_taking(w, t, create, pid, ttl);
            end.1 matches OutcomeView::Commit(ReplyView::Data(200, ReplyDataView::Work(sent, _, _)))
                ==> end.0.task(w, create.id) matches Some(task) && task.record() == sent
                && task.resumes == Set::<Text>::empty() && (task.state == TaskState::Fulfilled
                || task.state == TaskState::Acquired && task.pid == Some(pid) && task.ttl == Some(
                ttl,
            ))
        }),
{
    let id = create.id;
    let timed = due(w, t, id);
    let read = timed.read_task(id);
    read_after_deadline(w, t, id);
    match timed.task(w, id) {
        Some(task) => {
            if task.state == TaskState::Pending {
                let claimed = claiming(w, read, task, ttl);
                let tried = claimed.renew(w, task.id, lease(ttl));
                same_writes_keep(w, read, tried);
                assert(tried.task(w, id) == read.task(w, id));
                assert(tried.promise(w, id) == read.promise(w, id));
                task_taken_advances(w, tried, task, pid, ttl);
            }
        },
        None => {
            let both = read.read_promise(id);
            same_writes_keep(w, read, both);
            if read.promise(w, id) is None {
                let made = created(w, both, create, None, ModeView::Acquire(pid, ttl));
                assert(both.promise(w, id) is None);
                created_keeps(w, both, create, None, ModeView::Acquire(pid, ttl));
                assert(agree(id, made.promise(w, id), made.task(w, id)));
                assert(made.read_task(id).promise(w, id) == made.promise(w, id));
                assert(made.read_task(id).task(w, id) == made.task(w, id));
            }
        },
    }
}

/// A task to acquire keeps everything but its version.
proof fn task_acquisition_advances(
    w: World,
    t: TxnView,
    id: Text,
    version: i64,
    pid: Text,
    ttl: i64,
)
    requires
        valid(w, t),
    ensures
        advances(w, t, task_acquisition(w, t, id, version, pid, ttl).0),
{
    let read = due(w, t, id).read_task(id);
    read_after_deadline(w, t, id);
    if let Some(task) = due(w, t, id).task(w, id) {
        if task.state == TaskState::Pending && task.version == version {
            let tried = read.renew(w, task.id, lease(ttl));
            same_writes_keep(w, read, tried);
            steps_keep(w, t, read, tried);
            assert(tried.task(w, id) == Some(task));
            assert(tried.promise(w, id) == read.promise(w, id));
            task_taken_advances(w, tried, task, pid, ttl);
            steps_advance(w, t, tried, task_viewed(w, tried, taken(task, pid, ttl)).0);
        }
    }
}

/// A task that moves to a state without a holder keeps everything, where it has
/// a job if it comes to work.
proof fn move_keeps(w: World, t: TxnView, task: StoredTaskView, state: TaskState, to: TxnView)
    requires
        valid(w, t),
        t.task(w, task.id) == Some(task),
        task.state != TaskState::Fulfilled,
        state == TaskState::Pending || state == TaskState::Halted,
        state == TaskState::Pending ==> works(task) || (task.job is Some && w.jobs.contains(
            task.job->0,
        )),
        to.writes == t.put_task(task.moved(state)).writes,
        to.now == t.now,
        quiet(t, to),
    ensures
        keeps(w, t, to),
{
    assert(agree(task.id, t.promise(w, task.id), t.task(w, task.id)));
    task_written_keeps(w, t, to, task, task.moved(state));
}

/// A task to release keeps everything.
proof fn task_releasing_keeps(w: World, t: TxnView, id: Text, version: i64)
    requires
        valid(w, t),
    ensures
        keeps(w, t, task_releasing(w, t, id, version).0),
{
    let read = due(w, t, id).read_task(id);
    let after = task_releasing(w, t, id, version).0;
    read_after_deadline(w, t, id);
    if let Some(task) = due(w, t, id).task(w, id) {
        if task.is_acquired_at(version) {
            move_keeps(w, read, task, TaskState::Pending, after);
            steps_keep(w, t, read, after);
        }
    }
}

/// A task to fulfil keeps everything else.
proof fn fulfilling_keeps(w: World, t: TxnView, id: Text, version: i64, settle: SettleView)
    requires
        valid(w, t),
    ensures
        keeps(w, t, fulfilling(w, t, id, version, settle).0),
{
    let read = due(w, t, id).read_task(id);
    let after = fulfilling(w, t, id, version, settle).0;
    read_after_deadline(w, t, id);
    if let Some(task) = due(w, t, id).task(w, id) {
        if task.is_acquired_at(version) {
            let both = read.read_promise(id);
            same_writes_keep(w, read, both);
            steps_keep(w, t, read, both);
            if let Some(row) = read.promise(w, id) {
                let looked = both.after_holds(w, task.id);
                same_writes_keep(w, both, looked);
                steps_keep(w, t, both, looked);
                assert(looked.promise(w, id) == Some(row));
                settling_keeps(w, looked, row, settle);
                let ended = settling(w, looked, row, settle).0;
                steps_keep(w, t, looked, ended);
                same_writes_keep(w, ended, ended.after_holds(w, task.id));
                steps_keep(w, t, ended, ended.after_holds(w, task.id));
            }
        }
    }
}

/// A task to halt keeps everything, and releases only the claims of tasks
/// without work.
proof fn task_halting_keeps(w: World, t: TxnView, id: Text)
    requires
        valid(w, t),
    ensures
        ({
            let after = task_halting(w, t, id).0;
            &&& valid(w, after)
            &&& goes_on(w, t, after)
            &&& versions_kept(w, t, after)
            &&& releases(w, t, after)
        }),
{
    let read = due(w, t, id).read_task(id);
    let after = task_halting(w, t, id).0;
    read_after_deadline(w, t, id);
    frees_releases(w, t, read);
    if let Some(task) = due(w, t, id).task(w, id) {
        if task.state != TaskState::Fulfilled && task.state != TaskState::Halted {
            let written = read.put_task(task.moved(TaskState::Halted));
            move_keeps(w, read, task, TaskState::Halted, written);
            steps_keep(w, t, read, written);
            frees_releases(w, t, written);
            assert(after == written.later(AfterView::Release(task.id)));
            assert forall|other: Text| #[trigger] after.promise(w, other) == written.promise(
                w,
                other,
            ) by {}
            assert forall|other: Text| #[trigger] after.task(w, other) == written.task(w, other) by {}
            task_writes_mind(w, written, after);
            task_writes_carry(w, written, after, id);
            steps_mind(w, t, written, after);
            steps_carry(w, t, written, after);
            kept_branches_file(w, written, after);
            steps_file(w, t, written, after);
            assert forall|i: int| t.after.len() <= i < after.after.len() implies ((
            #[trigger] after.after[i]) matches AfterView::Release(released) ==> after.task(
                w,
                released,
            ) matches Some(task) && rests(task)) by {
                if i < written.after.len() {
                    assert(after.after[i] == written.after[i]);
                }
            }
        }
    }
}

/// A task to continue keeps everything.
proof fn task_continuing_keeps(w: World, t: TxnView, id: Text)
    requires
        valid(w, t),
    ensures
        keeps(w, t, task_continuing(w, t, id).0),
{
    let read = due(w, t, id).read_task(id);
    let after = task_continuing(w, t, id).0;
    read_after_deadline(w, t, id);
    if let Some(task) = due(w, t, id).task(w, id) {
        if task.state == TaskState::Halted {
            let pending = task.moved(TaskState::Pending);
            let written = read.put_task(pending);
            let looked = if task.job is Some {
                written.ask(CallView::Job(task.job->0))
            } else {
                written
            };
            if waiting(w, task) {
                move_keeps(w, read, task, TaskState::Pending, looked);
            } else {
                let next = looked.with_job(w, pending);
                let dispatch = after.enqueues[read.enqueues.len() as int];
                assert(dispatches(dispatch, id, next.job));
                assert(after.writes =~= read.put_task(next).writes);
                task_written_keeps(w, read, after, task, next);
            }
            steps_keep(w, t, read, after);
        }
    }
}

/// Heartbeats write nothing: they change neither a record nor a job.
pub proof fn heartbeats_write_nothing(
    w: World,
    t: TxnView,
    pid: Text,
    entries: Seq<TaskVersionView>,
)
    ensures
        all_beaten(w, t, pid, entries).writes == t.writes,
        all_beaten(w, t, pid, entries).enqueues == t.enqueues,
        all_beaten(w, t, pid, entries).after == t.after,
        all_beaten(w, t, pid, entries).now == t.now,
    decreases entries.len(),
{
    if entries.len() > 0 {
        heartbeats_write_nothing(w, t, pid, entries.drop_last());
    }
}

/// The registration of a task on pending promises keeps everything.
proof fn all_registered_keep(w: World, t: TxnView, rows: Seq<StoredPromiseView>, awaiter: Text)
    requires
        valid(w, t),
        forall|i: int|
            0 <= i < rows.len() ==> (#[trigger] rows[i]).record.is_pending() && t.promise(
                w,
                rows[i].record.id,
            ) == Some(rows[i]),
    ensures
        keeps(w, t, all_registered(t, rows, awaiter)),
        forall|id: Text|
            t.promise(w, id) matches Some(row) ==> {
                let after = #[trigger] all_registered(t, rows, awaiter).promise(w, id);
                after == Some(row) || after == Some(awaited_by(row, awaiter))
            },
        forall|id: Text| #[trigger]
            all_registered(t, rows, awaiter).task(w, id) == t.task(w, id),
    decreases rows.len(),
{
    if rows.len() == 0 {
        same_writes_keep(w, t, t);
    } else {
        let short = rows.drop_last();
        let row = rows.last();
        let before = all_registered(t, short, awaiter);
        let after = all_registered(t, rows, awaiter);
        assert forall|i: int| 0 <= i < short.len() implies (#[trigger] short[i]).record.is_pending()
            && t.promise(w, short[i].record.id) == Some(short[i]) by {
            assert(short[i] == rows[i]);
        }
        all_registered_keep(w, t, short, awaiter);
        assert(rows[rows.len() - 1] == row);
        assert(t.promise(w, row.record.id) == Some(row));
        assert(before.promise(w, row.record.id) == Some(row) || before.promise(w, row.record.id)
            == Some(awaited_by(row, awaiter)));
        callback_registered_keeps(w, before, row, awaiter);
        steps_keep(w, t, before, after);
        assert forall|id: Text| #[trigger] after.task(w, id) == t.task(w, id) by {
            assert(before.task(w, id) == t.task(w, id));
        }
        assert forall|id: Text| t.promise(w, id) matches Some(row) ==> {
            let after = #[trigger] after.promise(w, id);
            after == Some(row) || after == Some(awaited_by(row, awaiter))
        } by {
            if t.promise(w, id) is Some {
                let old_row = t.promise(w, id)->0;
                assert(before.promise(w, id) == Some(old_row) || before.promise(w, id) == Some(
                    awaited_by(old_row, awaiter),
                ));
            }
        }
    }
}

/// Promises that a suspension gathered exist and can be awaited.
proof fn gathered_exist(w: World, t: TxnView, ids: Seq<Text>)
    requires
        gathered(w, t, ids).1 is None,
    ensures
        forall|i: int|
            0 <= i < ids.len() ==> (t.promise(w, #[trigger] ids[i]) matches Some(row)
                && row.record.is_external()),
    decreases ids.len(),
{
    if ids.len() > 0 {
        let short = ids.drop_last();
        gathered_exist(w, t, short);
        gathered_keeps(w, t, short);
        assert forall|i: int| 0 <= i < ids.len() implies (t.promise(w, #[trigger] ids[i]) matches Some(
            row,
        ) && row.record.is_external()) by {
            if i < short.len() {
                assert(short[i] == ids[i]);
            } else {
                assert(gathered(w, t, short).0.promise(w, ids[i]) == t.promise(w, ids[i]));
            }
        }
    }
}

/// A task to suspend keeps everything.
proof fn suspending_keeps(w: World, t: TxnView, id: Text, version: i64, ids: Seq<Text>)
    requires
        valid(w, t),
        ids.len() > 0,
    ensures
        keeps(w, t, suspending(w, t, id, version, ids).0),
{
    let timed = all_timed_out(w, t, seq![id] + ids);
    let read = timed.read_task(id);
    let after = suspending(w, t, id, version, ids).0;
    deadlines_are_applied(w, t, seq![id] + ids);
    same_writes_keep(w, timed, read);
    steps_keep(w, t, timed, read);
    assert(agree(id, timed.promise(w, id), timed.task(w, id)));
    if let Some(task) = timed.task(w, id) {
        if task.is_acquired_at(version) {
            let looked = read.after_holds(w, task.id);
            let got = gathered(w, looked, ids);
            same_writes_keep(w, read, looked);
            steps_keep(w, t, read, looked);
            gathered_keeps(w, looked, ids);
            same_writes_keep(w, looked, got.0);
            steps_keep(w, t, looked, got.0);
            if read.holds(w) && got.1 is None {
                assert(got.0.task(w, id) == Some(task));
                assert((seq![id] + ids)[0] == id);
                assert(got.0.promise(w, id) == timed.promise(w, id));
                suspended_on_keeps(w, looked, got.0, id, task, ids);
                steps_keep(w, t, got.0, after);
            }
        }
    }
}

/// A held task that is suspended, or goes on, keeps everything.
proof fn suspended_on_keeps(
    w: World,
    looked: TxnView,
    t: TxnView,
    id: Text,
    task: StoredTaskView,
    ids: Seq<Text>,
)
    requires
        valid(w, t),
        looked.writes == t.writes,
        gathered(w, looked, ids).1 is None,
        valid(w, looked),
        t.task(w, id) == Some(task),
        task.state == TaskState::Acquired,
        t.promise(w, id) matches Some(row) ==> !is_overdue(row, t.now),
        ids.len() > 0,
    ensures
        keeps(w, t, suspended_on(w, t, id, task, rows_of(w, looked, ids)).0),
{
    let rows = rows_of(w, looked, ids);
    let after = suspended_on(w, t, id, task, rows).0;
    assert(agree(id, t.promise(w, id), t.task(w, id)));
    if any_settled(rows) {
        let read = t.read_promise(id);
        same_writes_keep(w, t, read);
        assert(read.task(w, id) == Some(task));
        assert(read.promise(w, id) == t.promise(w, id));
        if let Some(own) = t.promise(w, id) {
            let loaded = after_preload(w, read, own.record);
            preload_keeps(w, read, own.record);
            steps_keep(w, t, read, loaded);
            preload_leaves_working(w, read, own.record, id);
            put_task_keeps(w, loaded, loaded.task(w, id)->0, observed(task));
            steps_keep(w, t, loaded, after);
        }
    } else {
        gathered_exist(w, looked, ids);
        assert forall|i: int| 0 <= i < rows.len() implies (#[trigger] rows[i]).record.is_pending()
            && t.promise(w, rows[i].record.id) == Some(rows[i]) by {
            assert(looked.promise(w, ids[i]) == Some(rows[i]));
            assert(agree(ids[i], looked.promise(w, ids[i]), looked.task(w, ids[i])));
            assert(t.promise(w, ids[i]) == looked.promise(w, ids[i]));
        }
        let registered = all_registered(t, rows, id);
        let next = observed(task).moved(TaskState::Suspended);
        all_registered_keep(w, t, rows, id);
        assert(registered.task(w, id) == Some(task));
        registered_all(w, t, rows, id, 0);
        assert(awaits(w, registered, id, rows[0].record.id));
        put_task_keeps(w, registered, task, next);
        steps_keep(w, t, registered, registered.put_task(next));
        same_writes_keep(w, registered.put_task(next), after);
        steps_keep(w, t, registered.put_task(next), after);
    }
}

/// A fenced action keeps everything else.
pub proof fn fenced_action_keeps(
    w: World,
    t: TxnView,
    kind: Text,
    create: Result<CreateView, Text>,
    settle: Result<SettleView, Text>,
    target_is_url: bool,
)
    requires
        valid(w, t),
    ensures
        grows(w, t, fenced_action(w, t, kind, create, settle, target_is_url).0),
{
    let after = fenced_action(w, t, kind, create, settle, target_is_url).0;
    same_writes_keep(w, t, t);
    if kind == "promise.create"@ {
        if let Ok(create) = create {
            let read = t.read_promise(create.id);
            same_writes_keep(w, t, read);
            if t.promise(w, create.id) is None {
                assert(read.promise(w, create.id) is None);
                created_keeps(w, read, create, None, ModeView::Dispatch);
                steps_grow(w, t, read, created(w, read, create, None, ModeView::Dispatch));
            }
        }
    } else if kind == "promise.settle"@ {
        if let Ok(settle) = settle {
            let read = t.read_promise(settle.id);
            same_writes_keep(w, t, read);
            assert(agree(settle.id, t.promise(w, settle.id), t.task(w, settle.id)));
            assert(read.promise(w, settle.id) == t.promise(w, settle.id));
            if let Some(row) = t.promise(w, settle.id) {
                settling_keeps(w, read, row, settle);
                steps_grow(w, t, read, settling(w, read, row, settle).0);
            }
        }
    }
}

/// A fence keeps everything else.
proof fn fencing_keeps(
    w: World,
    t: TxnView,
    data: TaskFenceData,
    corr_id: Text,
    action_id: Text,
    target_is_url: bool,
)
    requires
        valid(w, t),
    ensures
        grows(w, t, fencing(w, t, data, corr_id, action_id, target_is_url).0),
{
    let id = data.id@;
    let timed = all_timed_out(w, t, seq![id, action_id]);
    let read = timed.read_task(id);
    deadlines_are_applied(w, t, seq![id, action_id]);
    same_writes_keep(w, timed, read);
    steps_keep(w, t, timed, read);
    if let Some(task) = timed.task(w, id) {
        if task.is_acquired_at(data.version) {
            let kind = data.action.kind@;
            let create = decoded(data.action.data.create);
            let settle = decoded(data.action.data.settle);
            let acted = fenced_action(w, read, kind, create, settle, target_is_url);
            let after = fence_replied(w, acted.0, id, kind, corr_id, acted.1).0;
            fenced_action_keeps(w, read, kind, create, settle, target_is_url);
            steps_grow(w, t, read, acted.0);
            let own = acted.0.read_promise(id);
            same_writes_keep(w, acted.0, own);
            steps_grow(w, t, acted.0, own);
            if let Some(row) = acted.0.promise(w, id) {
                preload_keeps(w, own, row.record);
                steps_grow(w, t, own, after_preload(w, own, row.record));
            }
        }
    }
}

/// The firing of a schedule keeps everything else.
proof fn fired_keeps(w: World, t: TxnView, schedule: ScheduleView)
    requires
        valid(w, t),
    ensures
        grows(w, t, fired(w, t, schedule)),
{
    let id = fired_id(schedule);
    let read = t.read_promise(id);
    let made = fired_promise(w, t, schedule);
    let after = fired(w, t, schedule);
    same_writes_keep(w, t, read);
    if t.promise(w, id) is None {
        assert(read.promise(w, id) is None);
        created_keeps(
            w,
            read,
            fired_data(schedule),
            Some(schedule.next_run_at),
            ModeView::Dispatch,
        );
        steps_grow(w, t, read, made);
    }
    assert forall|id: Text| #[trigger] after.promise(w, id) == made.promise(w, id) by {}
    assert forall|id: Text| #[trigger] after.task(w, id) == made.task(w, id) by {}
    other_writes_keep(w, made, after);
    steps_grow(w, t, made, after);
}

/// A fired timer keeps everything else.
pub proof fn timers_keep_agreement(w: World, t: TxnView, timer: TimerView)
    requires
        valid(w, t),
    ensures
        grows(w, t, fired_timer(w, t, timer)),
{
    match timer {
        TimerView::PromiseTimeout(id) => {
            let read = t.read_promise(id);
            same_writes_keep(w, t, read);
            assert(agree(id, t.promise(w, id), t.task(w, id)));
            assert(read.promise(w, id) == t.promise(w, id));
            if acts(w, t, timer) {
                let row = expired(t.promise(w, id)->0);
                settled_chain_keeps_all(w, read, row);
                steps_grow(w, t, read, settled_chain(w, read, row));
            }
        },
        TimerView::Schedule(id, at) => {
            let read = t.read_schedule(id);
            same_writes_keep(w, t, read);
            if acts(w, t, timer) {
                let schedule = t.schedule(w, id)->0;
                fired_keeps(w, read, schedule);
                steps_grow(w, t, read, fired(w, read, schedule));
            }
        },
    }
}

/// A delivery keeps everything: a task whose lease was lost returns to pending
/// with its version unchanged.
pub proof fn deliveries_keep_agreement(w: World, t: TxnView, delivery: DeliveryView)
    requires
        valid(w, t),
    ensures
        grows(w, t, delivered(w, t, delivery).0),
{
    let after = delivered(w, t, delivery).0;
    match delivery {
        DeliveryView::Unblock(_) => {
            same_writes_keep(w, t, after);
        },
        DeliveryView::Execute(id) => {
            let read = due(w, t, id).read_task(id);
            read_after_deadline(w, t, id);
            match due(w, t, id).task(w, id) {
                Some(task) => {
                    if task.state == TaskState::Acquired {
                        move_keeps(w, read, task, TaskState::Pending, after);
                    } else {
                        same_writes_keep(w, read, after);
                    }
                },
                None => {
                    same_writes_keep(w, read, after);
                },
            }
            steps_grow(w, t, read, after);
        },
    }
}

/// Every operation keeps the records in agreement: a promise with a target has
/// a task and no other does, a task is fulfilled exactly when its promise is
/// settled, and it has a holder exactly while it is acquired. No promise or task
/// is lost, and none that is settled or fulfilled changes. Every suspended task
/// is minded, every task is carried by its job, and only the claims of tasks
/// without work are released. Only the operations that acquire a task change a
/// version.
pub proof fn operations_keep_agreement(w: World, t: TxnView, corr_id: Text, data: OperationData)
    requires
        valid(w, t),
    ensures
        valid(w, performed(w, t, corr_id, data).0),
        goes_on(w, t, performed(w, t, corr_id, data).0),
        releases(w, t, performed(w, t, corr_id, data).0),
        !(data is TaskCreate || data is TaskAcquire) ==> versions_kept(
            w,
            t,
            performed(w, t, corr_id, data).0,
        ),
{
    let after = performed(w, t, corr_id, data).0;
    same_writes_keep(w, t, t);
    match data {
        OperationData::PromiseCreate(data) => {
            creation_keeps(w, t, data@);
        },
        OperationData::PromiseGet(data) => {
            let timed = due(w, t, data.id@);
            due_keeps_all(w, t, data.id@);
            same_writes_keep(w, timed, after);
            steps_keep(w, t, timed, after);
        },
        OperationData::PromiseSettle(data) => {
            promise_settlement_keeps(w, t, data@);
        },
        OperationData::PromiseRegisterCallback(data) => {
            callback_keeps(w, t, data.awaited@, data.awaiter@);
        },
        OperationData::PromiseRegisterListener(data) => {
            listener_keeps(w, t, data.awaited@, data.address@, url_parses(data.address@));
        },
        OperationData::PromiseSearch(_) => {
            listing_keeps(w, t);
        },
        OperationData::TaskCreate(data) => {
            task_taking_advances(w, t, data.action.data@, data.pid@, data.ttl);
        },
        OperationData::TaskAcquire(data) => {
            task_acquisition_advances(w, t, data.id@, data.version, data.pid@, data.ttl);
        },
        OperationData::TaskRelease(data) => {
            task_releasing_keeps(w, t, data.id@, data.version);
        },
        OperationData::TaskFulfill(data) => {
            fulfilling_keeps(w, t, data.id@, data.version, data.action.data@);
        },
        OperationData::TaskSuspend(data) => {
            let ids = awaited_ids(viewed(data.actions@));
            if ids.len() > 0 {
                suspending_keeps(w, t, data.id@, data.version, ids);
            }
        },
        OperationData::TaskFence(data) => {
            let action_id = json_string_at(data.action.data.raw@, "/id"@);
            if action_id is Some {
                fencing_keeps(w, t, data, corr_id, action_id->0, fence_target_parses(data));
            }
        },
        OperationData::TaskHeartbeat(data) => {
            heartbeats_write_nothing(w, t, data.pid@, viewed(data.tasks@));
            same_writes_keep(w, t, after);
        },
        OperationData::TaskGet(data) => {
            read_after_deadline(w, t, data.id@);
        },
        OperationData::TaskHalt(data) => {
            task_halting_keeps(w, t, data.id@);
        },
        OperationData::TaskContinue(data) => {
            task_continuing_keeps(w, t, data.id@);
        },
        OperationData::TaskSearch(_) => {
            let asked = t.ask(CallView::Tasks);
            same_writes_keep(w, t, asked);
            deadlines_are_applied(w, asked, unfulfilled_ids(w.all_tasks()));
            steps_keep(w, t, asked, tasks_listed(w, t));
        },
        OperationData::ScheduleCreate(_) => {
            assert forall|id: Text| #[trigger] after.promise(w, id) == t.promise(w, id) by {}
            assert forall|id: Text| #[trigger] after.task(w, id) == t.task(w, id) by {}
            other_writes_keep(w, t, after);
        },
        OperationData::ScheduleGet(_) => {
            same_writes_keep(w, t, after);
        },
        OperationData::ScheduleDelete(_) => {
            assert forall|id: Text| #[trigger] after.promise(w, id) == t.promise(w, id) by {}
            assert forall|id: Text| #[trigger] after.task(w, id) == t.task(w, id) by {}
            other_writes_keep(w, t, after);
        },
        OperationData::ScheduleSearch(_) => {
            same_writes_keep(w, t, after);
        },
    }
    if !(data is TaskHalt) {
        frees_releases(w, t, after);
    }
}

/// A task to create does not miss its promise, nor a targeted promise its task.
proof fn task_create_finds(w: World, t: TxnView, corr_id: Text, data: TaskCreateData)
    requires
        valid(w, t),
    ensures
        !(performed(w, t, corr_id, OperationData::TaskCreate(data)).1 is Orphan),
{
    let create = data.action.data@;
    let id = create.id;
    let refusal = task_create_refusal(
        data.action.kind@,
        data.pid@,
        data.ttl,
        create,
        target_parses(create.tags),
    );
    let read = due(w, t, id).read_task(id);
    read_after_deadline(w, t, id);
    if refusal is None {
        match due(w, t, id).task(w, id) {
            Some(task) => {
                if task.state == TaskState::Pending {
                    pending_taken_advances(w, read, task, data.pid@, data.ttl);
                }
            },
            None => {
                let both = read.read_promise(id);
                same_writes_keep(w, read, both);
                if read.promise(w, id) is None {
                    let mode = ModeView::Acquire(data.pid@, data.ttl);
                    let made = created(w, both, create, None, mode);
                    assert(both.promise(w, id) is None);
                    created_keeps(w, both, create, None, mode);
                    assert(agree(id, made.promise(w, id), made.task(w, id)));
                    assert(made.read_task(id).promise(w, id) == made.promise(w, id));
                }
            },
        }
    }
}

/// A task to acquire does not miss its promise.
proof fn task_acquire_finds(w: World, t: TxnView, corr_id: Text, data: TaskAcquireData)
    requires
        valid(w, t),
    ensures
        !(performed(w, t, corr_id, OperationData::TaskAcquire(data)).1 is Orphan),
{
    let id = data.id@;
    let read = due(w, t, id).read_task(id);
    read_after_deadline(w, t, id);
    if let Some(task) = due(w, t, id).task(w, id) {
        if task.state == TaskState::Pending {
            let tried = read.renew(w, task.id, lease(data.ttl));
            assert(tried.promise(w, id) == read.promise(w, id));
        }
    }
}

/// A task to suspend does not miss its promise.
proof fn task_suspend_finds(w: World, t: TxnView, corr_id: Text, data: TaskSuspendData)
    requires
        valid(w, t),
    ensures
        !(performed(w, t, corr_id, OperationData::TaskSuspend(data)).1 is Orphan),
{
    let id = data.id@;
    let ids = awaited_ids(viewed(data.actions@));
    let timed = all_timed_out(w, t, seq![id] + ids);
    let read = timed.read_task(id);
    deadlines_are_applied(w, t, seq![id] + ids);
    assert(agree(id, timed.promise(w, id), timed.task(w, id)));
    if let Some(task) = timed.task(w, id) {
        let looked = read.after_holds(w, task.id);
        gathered_keeps(w, looked, ids);
        assert(gathered(w, looked, ids).0.promise(w, id) == timed.promise(w, id));
    }
}

/// A fence does not miss the promise of its task.
proof fn task_fence_finds(w: World, t: TxnView, corr_id: Text, data: TaskFenceData)
    requires
        valid(w, t),
    ensures
        !(performed(w, t, corr_id, OperationData::TaskFence(data)).1 is Orphan),
{
    let id = data.id@;
    let action_id = json_string_at(data.action.data.raw@, "/id"@);
    if action_id is Some {
        let timed = all_timed_out(w, t, seq![id, action_id->0]);
        let read = timed.read_task(id);
        deadlines_are_applied(w, t, seq![id, action_id->0]);
        assert(agree(id, timed.promise(w, id), timed.task(w, id)));
        same_writes_keep(w, timed, read);
        assert(read.promise(w, id) == timed.promise(w, id));
        let acted = fenced_action(
            w,
            read,
            data.action.kind@,
            decoded(data.action.data.create),
            decoded(data.action.data.settle),
            fence_target_parses(data),
        );
        fenced_action_keeps(
            w,
            read,
            data.action.kind@,
            decoded(data.action.data.create),
            decoded(data.action.data.settle),
            fence_target_parses(data),
        );
        if timed.task(w, id) is Some {
            assert(promise_goes_on(read.promise(w, id), acted.0.promise(w, id)));
        }
    }
}

/// No operation finds a task without its promise, nor a targeted promise without
/// its task.
pub proof fn no_task_is_without_its_promise(w: World, t: TxnView, corr_id: Text, data: OperationData)
    requires
        valid(w, t),
    ensures
        !(performed(w, t, corr_id, data).1 is Orphan),
{
    match data {
        OperationData::TaskCreate(data) => {
            task_create_finds(w, t, corr_id, data);
        },
        OperationData::TaskAcquire(data) => {
            task_acquire_finds(w, t, corr_id, data);
        },
        OperationData::TaskSuspend(data) => {
            task_suspend_finds(w, t, corr_id, data);
        },
        OperationData::TaskFence(data) => {
            task_fence_finds(w, t, corr_id, data);
        },
        _ => {},
    }
}

/// A task whose suspension commits is suspended, and registered with every
/// promise it awaits; all of them are pending.
pub proof fn a_suspended_task_is_registered(
    w: World,
    t: TxnView,
    id: Text,
    version: i64,
    ids: Seq<Text>,
)
    requires
        valid(w, t),
        suspending(w, t, id, version, ids).1 is Settle,
    ensures
        ({
            let after = suspending(w, t, id, version, ids).0;
            &&& after.task(w, id) matches Some(task) && task.state == TaskState::Suspended
                && task.version == version
            &&& forall|i: int|
                0 <= i < ids.len() ==> (after.promise(w, #[trigger] ids[i]) matches Some(row)
                    && row.record.is_pending() && row.callbacks.contains(id))
        }),
{
    let timed = all_timed_out(w, t, seq![id] + ids);
    let read = timed.read_task(id);
    let after = suspending(w, t, id, version, ids).0;
    deadlines_are_applied(w, t, seq![id] + ids);
    same_writes_keep(w, timed, read);
    assert(agree(id, timed.promise(w, id), timed.task(w, id)));
    let task = timed.task(w, id)->0;
    let looked = read.after_holds(w, task.id);
    let got = gathered(w, looked, ids).0;
    let rows = rows_of(w, looked, ids);
    same_writes_keep(w, read, looked);
    gathered_keeps(w, looked, ids);
    gathered_exist(w, looked, ids);
    same_writes_keep(w, looked, got);
    assert forall|i: int| 0 <= i < rows.len() implies (#[trigger] rows[i]).record.is_pending()
        && got.promise(w, rows[i].record.id) == Some(rows[i]) by {
        assert(looked.promise(w, ids[i]) == Some(rows[i]));
        assert(agree(ids[i], looked.promise(w, ids[i]), looked.task(w, ids[i])));
        assert(got.promise(w, ids[i]) == looked.promise(w, ids[i]));
    }
    let registered = all_registered(got, rows, id);
    all_registered_keep(w, got, rows, id);
    assert forall|i: int| 0 <= i < ids.len() implies (after.promise(w, #[trigger] ids[i]) matches Some(
        row,
    ) && row.record.is_pending() && row.callbacks.contains(id)) by {
        assert(looked.promise(w, ids[i]) == Some(rows[i]));
        assert(agree(ids[i], looked.promise(w, ids[i]), looked.task(w, ids[i])));
        assert(rows[i].record.is_pending());
        assert(got.promise(w, ids[i]) == Some(rows[i]));
        registered_all(w, got, rows, id, i);
        assert(after.promise(w, ids[i]) == registered.promise(w, ids[i]));
    }
}

/// A task that is fulfilled with the settlement of its claim has no work left.
proof fn a_fulfilled_task_has_no_work(
    w: World,
    t: TxnView,
    id: Text,
    version: i64,
    settle: SettleView,
)
    requires
        valid(w, t),
        fulfilling(w, t, id, version, settle).1 is Settle,
    ensures
        fulfilling(w, t, id, version, settle).0.task(w, id) matches Some(task) && !works(task),
{
    let after = fulfilling(w, t, id, version, settle).0;
    let read = due(w, t, id).read_task(id);
    read_after_deadline(w, t, id);
    let row = read.promise(w, id)->0;
    let looked = read.read_promise(id).after_holds(w, id);
    fulfilling_keeps(w, t, id, version, settle);
    same_writes_keep(w, read, looked);
    assert(looked.promise(w, id) == Some(row));
    settled_chain_settles(w, looked, settled(row, settle.state, settle.value, looked.now));
    assert(agree(id, after.promise(w, id), after.task(w, id)));
    settling_keeps(w, looked, row, settle);
    let chain = settling(w, looked, row, settle).0;
    assert(looked.task(w, id) == read.task(w, id));
    assert(task_goes_on(looked.task(w, id), chain.task(w, id)));
    assert(after.task(w, id) == chain.task(w, id));
    assert(after.promise(w, id) == chain.promise(w, id));
}

/// A request acknowledges the claim of a task with its commit only where the
/// task has no work left: it is fulfilled or suspended.
pub proof fn a_settled_claim_has_no_work(w: World, t: TxnView, corr_id: Text, data: OperationData)
    requires
        valid(w, t),
    ensures
        performed(w, t, corr_id, data).1 matches OutcomeView::Settle(_, id) ==> performed(
            w,
            t,
            corr_id,
            data,
        ).0.task(w, id) matches Some(task) && !works(task),
{
    match data {
        OperationData::TaskFulfill(data) => {
            read_after_deadline(w, t, data.id@);
            if performed(w, t, corr_id, OperationData::TaskFulfill(data)).1 is Settle {
                a_fulfilled_task_has_no_work(w, t, data.id@, data.version, data.action.data@);
            }
        },
        OperationData::TaskSuspend(data) => {
            let ids = awaited_ids(viewed(data.actions@));
            if performed(w, t, corr_id, OperationData::TaskSuspend(data)).1 is Settle {
                a_suspended_task_is_registered(w, t, data.id@, data.version, ids);
            }
        },
        _ => {},
    }
}

/// A registration with pending promises is recorded in each of them.
proof fn registered_all(w: World, t: TxnView, rows: Seq<StoredPromiseView>, awaiter: Text, i: int)
    requires
        valid(w, t),
        forall|i: int|
            0 <= i < rows.len() ==> (#[trigger] rows[i]).record.is_pending() && t.promise(
                w,
                rows[i].record.id,
            ) == Some(rows[i]),
        0 <= i < rows.len(),
    ensures
        all_registered(t, rows, awaiter).promise(w, rows[i].record.id) == Some(
            awaited_by(rows[i], awaiter),
        ),
        awaited_by(rows[i], awaiter).callbacks.contains(awaiter),
    decreases rows.len(),
{
    let short = rows.drop_last();
    let before = all_registered(t, short, awaiter);
    let row = rows[i];
    if !row.callbacks.contains(awaiter) {
        let pushed = row.callbacks.push(awaiter);
        assert(pushed[row.callbacks.len() as int] == awaiter);
    }
    assert forall|j: int| 0 <= j < short.len() implies (#[trigger] short[j]).record.is_pending()
        && t.promise(w, short[j].record.id) == Some(short[j]) by {
        assert(short[j] == rows[j]);
    }
    all_registered_keep(w, t, short, awaiter);
    let last = rows[rows.len() - 1];
    assert(t.promise(w, last.record.id) == Some(last));
    if i < short.len() {
        assert(short[i] == rows[i]);
        registered_all(w, t, short, awaiter, i);
    } else {
        assert(before.promise(w, row.record.id) == Some(row) || before.promise(w, row.record.id)
            == Some(awaited_by(row, awaiter)));
    }
}

} // verus!
