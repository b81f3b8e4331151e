//! What a request observes: promises and tasks as they are once every deadline
//! that has passed is applied.

use vstd::prelude::*;
use crate::agreement::{
    agree, created_keeps, deadlines_are_applied, due_keeps_all,
    fenced_action_keeps, promise_goes_on, read_after_deadline,
    same_writes_keep, task_goes_on, valid,
};
use crate::awaiting::callbacks_write_no_promise;
use crate::calls::{at, view_opt, CallView, World};
use crate::creation::{created, created_row, ModeView};
use crate::data::{
    CallbackActionView, CreateView, PromiseSearchData, SettleView, TaskCreateData, TaskFenceData,
    TaskSearchData,
};
use crate::envelope::{json_string_at, viewed, ActionDataView, ReplyDataView, ReplyView};
use crate::fence::{decoded, fence_target_parses, fenced_action, fencing, task_fencing};
use crate::history::{a_new_request_sees_the_store, in_agreement, start_valid};
use crate::keys::branch_prefix_of;
use crate::kernel::{performed, OperationData};
use crate::outcome::OutcomeView;
use crate::preload::ordered;
use crate::promises::{
    callback_registration, due, listener_registration, promise_creation, promise_id,
    promise_reading, promise_settlement, promises_found, promises_search, sought,
};
use crate::records::{PromiseView, StoredPromiseView, StoredTaskView, TaskState, Text, TAG_BRANCH};
use crate::rules::{create_refusal, target_parses, url_parses};
use crate::search::{follows, limit_of, page_of, remaining, DEFAULT_SEARCH_LIMIT};
use crate::settlement::{
    all_called_back, all_timed_out, all_unblocked_keeps, cleared, expired, is_overdue, task_ended,
};
use crate::suspension::{
    actions_refusal, awaited_ids, gathered, gathered_keeps, suspending,
    task_suspension,
};
use crate::tags::ascending;
use crate::text::text_opt;
use crate::tasks::{
    claiming, done, lease, pending_taken, taken, task_acquisition, task_continuing,
    task_create_refusal, task_creation, task_fulfillment, task_halting, task_reading,
    task_releasing, task_taking, task_viewed, tasks_search,
};
use crate::txn::{
    after_scan, after_scan_keeps, in_order, overdue_ids, preloaded, promises_listed, record_at,
    records_at, records_of, siblings, siblings_timed_out, tasks_at, tasks_listed,
    unfulfilled_ids, TxnView, SCAN_PAGE,
};

verus! {

/// Whether a promise is pending past its deadline at `now`.
pub open spec fn is_expired(promise: PromiseView, now: i64) -> bool {
    promise.is_pending() && promise.timeout_at <= now
}

/// Deadlines expire those of the promises they name that are pending past them,
/// and leave the records of all others as they are.
proof fn deadlines_expire(w: World, t: TxnView, ids: Seq<Text>, id: Text)
    requires
        valid(w, t),
    ensures
        match t.promise(w, id) {
            None => all_timed_out(w, t, ids).promise(w, id) is None,
            Some(row) => all_timed_out(w, t, ids).promise(w, id) matches Some(after)
                && after.record == (if ids.contains(id) {
                record_at(row, t.now)
            } else {
                row.record
            }),
        },
    decreases ids.len(),
{
    if ids.len() > 0 {
        let short = ids.drop_last();
        let last = ids.last();
        let before = all_timed_out(w, t, short);
        let after = all_timed_out(w, t, ids);
        deadlines_expire(w, t, short, id);
        deadlines_are_applied(w, t, short);
        assert(ids[ids.len() - 1] == last);
        assert(ids.contains(id) <==> short.contains(id) || id == last) by {
            if short.contains(id) {
                let i = short.index_of(id);
                assert(ids[i] == id);
            }
            if ids.contains(id) && id != last {
                let i = ids.index_of(id);
                assert(short[i] == id);
            }
        }
        assert(agree(last, before.promise(w, last), before.task(w, last)));
        if let Some(row) = before.promise(w, last) {
            if is_overdue(row, before.now) {
                let read = before.read_promise(last);
                let settled = expired(row);
                let start = task_ended(w, read, last).put_promise(cleared(settled));
                let told = all_called_back(w, start, row.callbacks, last);
                callbacks_write_no_promise(w, start, row.callbacks, last, id);
                all_unblocked_keeps(told, row.listeners, settled.record);
                assert(after.promise(w, id) == start.promise(w, id));
            } else {
                assert(after.promise(w, id) == before.promise(w, id));
            }
        }
    }
}

/// The ids of overdue promises are those of listed rows that are overdue.
proof fn overdue_ids_are(rows: Seq<StoredPromiseView>, now: i64, id: Text)
    ensures
        overdue_ids(rows, now).contains(id) <==> exists|i: int|
            0 <= i < rows.len() && is_overdue(#[trigger] rows[i], now) && rows[i].record.id == id,
    decreases rows.len(),
{
    if rows.len() > 0 {
        let short = rows.drop_last();
        let last = rows.last();
        let ids = overdue_ids(rows, now);
        let fewer = overdue_ids(short, now);
        overdue_ids_are(short, now, id);
        assert(rows[rows.len() - 1] == last);
        if fewer.contains(id) {
            let k = fewer.index_of(id);
            assert(ids[k] == id);
            let i = choose|i: int|
                0 <= i < short.len() && is_overdue(#[trigger] short[i], now) && short[i].record.id
                    == id;
            assert(rows[i] == short[i]);
        }
        if is_overdue(last, now) {
            assert(ids[fewer.len() as int] == last.record.id);
        }
        if ids.contains(id) && !fewer.contains(id) {
            let k = ids.index_of(id);
            assert(k == fewer.len());
        }
        if exists|i: int|
            0 <= i < rows.len() && is_overdue(#[trigger] rows[i], now) && rows[i].record.id == id {
            let i = choose|i: int|
                0 <= i < rows.len() && is_overdue(#[trigger] rows[i], now) && rows[i].record.id
                    == id;
            if i < short.len() {
                assert(short[i] == rows[i]);
            }
        }
    }
}

/// A search looks through every promise of the store, in id order and as it is
/// once its deadline is applied: the records are those that the request commits.
pub proof fn a_search_sees_every_promise(w: World, preload_limit: usize, now: i64)
    requires
        in_agreement(w),
        w.promises.dom().finite(),
    ensures
        ({
            let listed = records_at(w.all_promises(), now);
            let after = promises_listed(w, TxnView::start(preload_limit, now));
            let ids = in_order(w.promises.dom());
            &&& ascending(ids)
            &&& ids.to_set() == w.promises.dom()
            &&& listed.len() == ids.len()
            &&& forall|i: int|
                0 <= i < listed.len() ==> (#[trigger] listed[i]).id == ids[i] && (after.promise(
                    w,
                    ids[i],
                ) matches Some(row) && row.record == listed[i])
            &&& forall|id: Text| #[trigger]
                after.promise(w, id) is Some <==> w.promises.contains_key(id)
        }),
{
    let start = TxnView::start(preload_limit, now);
    let read = start.ask(CallView::Promises);
    let rows = w.all_promises();
    let listed = records_at(rows, now);
    let ids = ordered(w.promises.dom());
    let overdue = overdue_ids(rows, now);
    let after = promises_listed(w, start);
    start_valid(w, preload_limit, now);
    same_writes_keep(w, start, read);
    assert forall|i: int| 0 <= i < rows.len() implies (#[trigger] rows[i]).record.id == ids[i]
        && at(w.promises, ids[i]) == Some(rows[i]) by {
        assert(ids.to_set().contains(ids[i]));
        assert(agree(ids[i], at(w.promises, ids[i]), at(w.tasks, ids[i])));
    }
    assert forall|i: int| 0 <= i < listed.len() implies (#[trigger] listed[i]).id == ids[i] && (
    after.promise(w, ids[i]) matches Some(row) && row.record == listed[i]) by {
        let id = ids[i];
        assert(rows[i].record.id == id);
        a_new_request_sees_the_store(w, preload_limit, now, id);
        assert(read.promise(w, id) == Some(rows[i]));
        deadlines_expire(w, read, overdue, id);
        overdue_ids_are(rows, now, id);
        if overdue.contains(id) {
            let k = choose|k: int|
                0 <= k < rows.len() && is_overdue(#[trigger] rows[k], now) && rows[k].record.id
                    == id;
            assert(at(w.promises, ids[k]) == Some(rows[k]));
        } else {
            assert(!is_overdue(rows[i], now));
        }
    }
    assert forall|id: Text| #[trigger] after.promise(w, id) is Some <==> w.promises.contains_key(
        id,
    ) by {
        a_new_request_sees_the_store(w, preload_limit, now, id);
        assert(read.promise(w, id) == start.promise(w, id));
        deadlines_expire(w, read, overdue, id);
    }
}

/// No promise that a search looks through is pending past its deadline.
pub proof fn a_search_sees_no_expired_promise(rows: Seq<StoredPromiseView>, now: i64, i: int)
    requires
        0 <= i < rows.len(),
    ensures
        !is_expired(records_at(rows, now)[i], now),
{
}

/// The ids of unfulfilled tasks are those of listed rows that are not fulfilled.
proof fn unfulfilled_ids_are(rows: Seq<StoredTaskView>, id: Text)
    ensures
        unfulfilled_ids(rows).contains(id) <==> exists|i: int|
            0 <= i < rows.len() && (#[trigger] rows[i]).state != TaskState::Fulfilled && rows[i].id
                == id,
    decreases rows.len(),
{
    if rows.len() > 0 {
        let short = rows.drop_last();
        let last = rows.last();
        let ids = unfulfilled_ids(rows);
        let fewer = unfulfilled_ids(short);
        unfulfilled_ids_are(short, id);
        assert(rows[rows.len() - 1] == last);
        if fewer.contains(id) {
            let k = fewer.index_of(id);
            assert(ids[k] == id);
            let i = choose|i: int|
                0 <= i < short.len() && (#[trigger] short[i]).state != TaskState::Fulfilled
                    && short[i].id == id;
            assert(rows[i] == short[i]);
        }
        if last.state != TaskState::Fulfilled {
            assert(ids[fewer.len() as int] == last.id);
        }
        if ids.contains(id) && !fewer.contains(id) {
            let k = ids.index_of(id);
            assert(k == fewer.len());
        }
        if exists|i: int|
            0 <= i < rows.len() && (#[trigger] rows[i]).state != TaskState::Fulfilled && rows[i].id
                == id {
            let i = choose|i: int|
                0 <= i < rows.len() && (#[trigger] rows[i]).state != TaskState::Fulfilled
                    && rows[i].id == id;
            if i < short.len() {
                assert(short[i] == rows[i]);
            }
        }
    }
}

/// A search looks through every task of the store, in id order and as it is once
/// the deadline of its promise is applied: the records are those that the
/// request commits, and a task whose promise is past its deadline is fulfilled.
/// A promise without a task is left as it is.
pub proof fn a_search_sees_every_task(w: World, preload_limit: usize, now: i64)
    requires
        in_agreement(w),
        w.tasks.dom().finite(),
    ensures
        ({
            let after = tasks_listed(w, TxnView::start(preload_limit, now));
            let listed = tasks_at(after, w.all_tasks());
            let ids = in_order(w.tasks.dom());
            &&& ascending(ids)
            &&& ids.to_set() == w.tasks.dom()
            &&& listed.len() == ids.len()
            &&& forall|i: int|
                0 <= i < listed.len() ==> {
                    let task = #[trigger] listed[i];
                    &&& task.id == ids[i]
                    &&& after.task(w, ids[i]) == Some(task)
                    &&& at(w.promises, ids[i]) matches Some(row) && (now
                        >= row.record.timeout_at ==> task.state == TaskState::Fulfilled)
                }
            &&& forall|id: Text| #[trigger] after.task(w, id) is Some <==> w.tasks.contains_key(id)
            &&& forall|id: Text|
                at(w.promises, id) is Some && !w.tasks.contains_key(id) ==> ((
                #[trigger] after.promise(w, id)) matches Some(kept) && kept.record == at(
                    w.promises,
                    id,
                )->0.record)
        }),
{
    let start = TxnView::start(preload_limit, now);
    let read = start.ask(CallView::Tasks);
    let after = tasks_listed(w, start);
    let rows = w.all_tasks();
    let listed = tasks_at(after, rows);
    let ids = ordered(w.tasks.dom());
    let unfulfilled = unfulfilled_ids(rows);
    start_valid(w, preload_limit, now);
    same_writes_keep(w, start, read);
    deadlines_are_applied(w, read, unfulfilled);
    assert forall|i: int| 0 <= i < rows.len() implies (#[trigger] rows[i]).id == ids[i]
        && at(w.tasks, ids[i]) == Some(rows[i]) by {
        assert(ids.to_set().contains(ids[i]));
        assert(agree(ids[i], at(w.promises, ids[i]), at(w.tasks, ids[i])));
    }
    assert forall|id: Text| #[trigger] after.task(w, id) is Some <==> w.tasks.contains_key(id) by {
        a_new_request_sees_the_store(w, preload_limit, now, id);
        assert(read.task(w, id) == start.task(w, id));
        assert(read.promise(w, id) == start.promise(w, id));
        assert(task_goes_on(read.task(w, id), after.task(w, id)));
        assert(agree(id, read.promise(w, id), read.task(w, id)));
        assert(agree(id, after.promise(w, id), after.task(w, id)));
        deadlines_expire(w, read, unfulfilled, id);
        assert(promise_goes_on(read.promise(w, id), after.promise(w, id)));
    }
    assert forall|i: int| 0 <= i < listed.len() implies {
        let task = #[trigger] listed[i];
        &&& task.id == ids[i]
        &&& after.task(w, ids[i]) == Some(task)
        &&& at(w.promises, ids[i]) matches Some(row) && (now >= row.record.timeout_at
            ==> task.state == TaskState::Fulfilled)
    } by {
        let id = ids[i];
        assert(ids.to_set().contains(id));
        assert(agree(id, at(w.promises, id), at(w.tasks, id)));
        assert(rows[i].id == id);
        assert(after.task(w, id) is Some);
        a_new_request_sees_the_store(w, preload_limit, now, id);
        assert(read.promise(w, id) == start.promise(w, id));
        assert(agree(id, after.promise(w, id), after.task(w, id)));
        assert(promise_goes_on(read.promise(w, id), after.promise(w, id)));
        unfulfilled_ids_are(rows, id);
        if rows[i].state != TaskState::Fulfilled {
            let k = unfulfilled.index_of(id);
            assert(unfulfilled[k] == id);
        }
    }
    assert forall|id: Text|
        at(w.promises, id) is Some && !w.tasks.contains_key(id) implies ((#[trigger] after.promise(
        w,
        id,
    )) matches Some(kept) && kept.record == at(w.promises, id)->0.record) by {
        a_new_request_sees_the_store(w, preload_limit, now, id);
        assert(read.promise(w, id) == start.promise(w, id));
        unfulfilled_ids_are(rows, id);
        if unfulfilled.contains(id) {
            let k = choose|k: int|
                0 <= k < rows.len() && (#[trigger] rows[k]).state != TaskState::Fulfilled
                    && rows[k].id == id;
            assert(at(w.tasks, ids[k]) == Some(rows[k]));
        }
        deadlines_expire(w, read, unfulfilled, id);
    }
}

/// Whether a reply shows a promise.
pub open spec fn shows(reply: ReplyView, promise: PromiseView) -> bool {
    match reply {
        ReplyView::Error(..) => false,
        ReplyView::Data(_, data) => match data {
            ReplyDataView::Promise(shown) => shown == promise,
            ReplyDataView::Work(_, shown, preload) => shown == promise || preload.contains(promise),
            ReplyDataView::Preload(preload) => preload.contains(promise),
            ReplyDataView::Action(_, _, data, preload) => data == ActionDataView::Promise(promise)
                || preload.contains(promise),
            ReplyDataView::Promises(promises, _) => promises.contains(promise),
            _ => false,
        },
    }
}

/// The reply of an outcome that has one.
pub open spec fn reply_of(outcome: OutcomeView) -> Option<ReplyView> {
    match outcome {
        OutcomeView::Reply(reply) => Some(reply),
        OutcomeView::Commit(reply) => Some(reply),
        OutcomeView::Settle(reply, _) => Some(reply),
        OutcomeView::Orphan(_) => None,
    }
}

/// Whether an outcome shows no promise that is pending past its deadline.
#[verifier::opaque]
pub open spec fn shows_none_expired(outcome: OutcomeView, now: i64) -> bool {
    reply_of(outcome) matches Some(reply) ==> forall|promise: PromiseView| #[trigger]
        shows(reply, promise) ==> !is_expired(promise, now)
}

/// Whether the id that a fence's action names is that of the promise it creates
/// or settles.
pub open spec fn names_its_promise(data: TaskFenceData) -> bool {
    let id = json_string_at(data.action.data.raw@, "/id"@);
    &&& decoded(data.action.data.create) matches Ok(create) ==> id == Some(create.id)
    &&& decoded(data.action.data.settle) matches Ok(settle) ==> id == Some(settle.id)
}

/// The records of promises that are not overdue are not expired.
proof fn records_unexpired(w: World, t: TxnView, ids: Seq<Text>, now: i64)
    requires
        forall|i: int|
            0 <= i < ids.len() ==> (t.promise(w, #[trigger] ids[i]) matches Some(row)
                ==> !is_overdue(row, now)),
    ensures
        forall|promise: PromiseView| #[trigger]
            records_of(w, t, ids).contains(promise) ==> !is_expired(promise, now),
    decreases ids.len(),
{
    if ids.len() > 0 {
        let short = ids.drop_last();
        assert forall|i: int| 0 <= i < short.len() implies (t.promise(
            w,
            #[trigger] short[i],
        ) matches Some(row) ==> !is_overdue(row, now)) by {
            assert(short[i] == ids[i]);
        }
        records_unexpired(w, t, short, now);
        assert(ids[ids.len() - 1] == ids.last());
        let before = records_of(w, t, short);
        assert forall|promise: PromiseView| #[trigger]
            records_of(w, t, ids).contains(promise) implies !is_expired(promise, now) by {
            let k = records_of(w, t, ids).index_of(promise);
            if k < before.len() {
                assert(before[k] == promise);
                assert(before.contains(promise));
            }
        }
    }
}

/// No sibling that a task is sent with is pending past its deadline.
pub proof fn no_sibling_is_expired(w: World, t: TxnView, promise: PromiseView)
    requires
        valid(w, t),
    ensures
        forall|sibling: PromiseView| #[trigger]
            preloaded(w, t, promise).contains(sibling) ==> !is_expired(sibling, t.now),
{
    if promise.tags.contains_key(TAG_BRANCH@) {
        let branch = promise.tags[TAG_BRANCH@];
        let prefix = branch_prefix_of(branch);
        let scanned = after_scan(w, t, prefix, promise.id, t.preload_limit, SCAN_PAGE);
        let ids = siblings(w, t, promise, branch);
        after_scan_keeps(w, t, prefix, promise.id, t.preload_limit, SCAN_PAGE);
        same_writes_keep(w, t, scanned);
        deadlines_are_applied(w, scanned, ids);
        records_unexpired(w, siblings_timed_out(w, t, promise), ids, t.now);
    }
}

/// The view of a task within the deadline of its promise shows none expired.
proof fn task_viewed_unexpired(w: World, t: TxnView, task: StoredTaskView)
    requires
        valid(w, t),
        t.promise(w, task.id) matches Some(row) ==> !is_overdue(row, t.now),
    ensures
        shows_none_expired(task_viewed(w, t, task).1, t.now),
{
    reveal(shows_none_expired);
    let read = t.read_promise(task.id);
    same_writes_keep(w, t, read);
    if let Some(row) = t.promise(w, task.id) {
        no_sibling_is_expired(w, read, row.record);
    }
}

/// A pending task to acquire shows none expired.
proof fn pending_taken_unexpired(w: World, t: TxnView, task: StoredTaskView, pid: Text, ttl: i64)
    requires
        valid(w, t),
        t.task(w, task.id) == Some(task),
        task.state == TaskState::Pending,
        t.promise(w, task.id) matches Some(row) ==> !is_overdue(row, t.now),
    ensures
        shows_none_expired(pending_taken(w, t, task, pid, ttl).1, t.now),
{
    reveal(shows_none_expired);
    let claimed = claiming(w, t, task, ttl);
    let tried = claimed.renew(w, task.id, lease(ttl));
    same_writes_keep(w, t, tried);
    assert(tried.promise(w, task.id) == t.promise(w, task.id));
    task_viewed_unexpired(w, tried, taken(task, pid, ttl));
}

/// A task to create shows none expired.
proof fn task_taking_unexpired(w: World, t: TxnView, create: CreateView, pid: Text, ttl: i64)
    requires
        valid(w, t),
    ensures
        shows_none_expired(task_taking(w, t, create, pid, ttl).1, t.now),
{
    reveal(shows_none_expired);
    let id = create.id;
    let timed = due(w, t, id);
    let read = timed.read_task(id);
    read_after_deadline(w, t, id);
    match timed.task(w, id) {
        Some(task) => {
            if task.state == TaskState::Pending {
                pending_taken_unexpired(w, read, task, pid, ttl);
            } else if task.state == TaskState::Fulfilled {
                task_viewed_unexpired(w, read, task);
            }
        },
        None => {
            let both = read.read_promise(id);
            same_writes_keep(w, read, both);
            if read.promise(w, id) is None {
                let mode = ModeView::Acquire(pid, ttl);
                let made = created(w, both, create, None, mode);
                let seen = made.read_task(id);
                assert(both.promise(w, id) is None);
                created_keeps(w, both, create, None, mode);
                same_writes_keep(w, made, seen);
                assert(agree(id, made.promise(w, id), made.task(w, id)));
                assert(made.promise(w, id) == Some(created_row(create, None, t.now)));
                if let Some(task) = made.task(w, id) {
                    task_viewed_unexpired(w, seen, task);
                }
            }
        },
    }
}

/// An acquire shows none expired.
proof fn task_acquisition_unexpired(
    w: World,
    t: TxnView,
    id: Text,
    version: i64,
    pid: Text,
    ttl: i64,
)
    requires
        valid(w, t),
    ensures
        shows_none_expired(task_acquisition(w, t, id, version, pid, ttl).1, t.now),
{
    reveal(shows_none_expired);
    let read = due(w, t, id).read_task(id);
    read_after_deadline(w, t, id);
    if let Some(task) = due(w, t, id).task(w, id) {
        if task.state == TaskState::Pending && task.version == version {
            let tried = read.renew(w, task.id, lease(ttl));
            same_writes_keep(w, read, tried);
            assert(tried.promise(w, id) == read.promise(w, id));
            task_viewed_unexpired(w, tried, taken(task, pid, ttl));
        }
    }
}

/// A suspension shows none expired.
proof fn suspending_unexpired(w: World, t: TxnView, id: Text, version: i64, ids: Seq<Text>)
    requires
        valid(w, t),
    ensures
        shows_none_expired(suspending(w, t, id, version, ids).1, t.now),
{
    reveal(shows_none_expired);
    let timed = all_timed_out(w, t, seq![id] + ids);
    let read = timed.read_task(id);
    deadlines_are_applied(w, t, seq![id] + ids);
    same_writes_keep(w, timed, read);
    assert(agree(id, timed.promise(w, id), timed.task(w, id)));
    if let Some(task) = timed.task(w, id) {
        let looked = read.after_holds(w, task.id);
        let got = gathered(w, looked, ids);
        same_writes_keep(w, read, looked);
        gathered_keeps(w, looked, ids);
        same_writes_keep(w, looked, got.0);
        if task.is_acquired_at(version) && read.holds(w) && got.1 is None {
            let seen = got.0.read_promise(id);
            same_writes_keep(w, got.0, seen);
            if let Some(own) = got.0.promise(w, id) {
                no_sibling_is_expired(w, seen, own.record);
            }
        }
    }
}

/// A fence shows none expired.
proof fn fencing_unexpired(
    w: World,
    t: TxnView,
    data: TaskFenceData,
    corr_id: Text,
    action_id: Text,
    target_is_url: bool,
)
    requires
        valid(w, t),
        decoded(data.action.data.create) matches Ok(create) ==> create.id == action_id,
        decoded(data.action.data.settle) matches Ok(settle) ==> settle.id == action_id,
    ensures
        shows_none_expired(fencing(w, t, data, corr_id, action_id, target_is_url).1, t.now),
{
    reveal(shows_none_expired);
    let id = data.id@;
    let ids = seq![id, action_id];
    let timed = all_timed_out(w, t, ids);
    let read = timed.read_task(id);
    deadlines_are_applied(w, t, ids);
    same_writes_keep(w, timed, read);
    assert(ids[1] == action_id);
    assert(read.promise(w, action_id) == timed.promise(w, action_id));
    if let Some(task) = timed.task(w, id) {
        let kind = data.action.kind@;
        let create = decoded(data.action.data.create);
        let settle = decoded(data.action.data.settle);
        let acted = fenced_action(w, read, kind, create, settle, target_is_url);
        fenced_action_keeps(w, read, kind, create, settle, target_is_url);
        let own = acted.0.read_promise(id);
        same_writes_keep(w, acted.0, own);
        if let Some(row) = acted.0.promise(w, id) {
            no_sibling_is_expired(w, own, row.record);
        }
    }
}

/// A search of the promises shows none expired.
proof fn promises_search_unexpired(w: World, t: TxnView, data: PromiseSearchData)
    ensures
        shows_none_expired(promises_search(w, t, data).1, t.now),
{
    reveal(shows_none_expired);
    if let Ok(limit) = limit_of(data.limit, DEFAULT_SEARCH_LIMIT) {
        let listed = records_at(w.all_promises(), t.now);
        let found = promises_found(listed, data.state, view_opt(data.tags));
        let part = page_of(found, promise_id(), text_opt(data.cursor), limit);
        assert forall|promise: PromiseView| #[trigger]
            part.0.contains(promise) implies !is_expired(promise, t.now) by {
            let rest = remaining(found, promise_id(), text_opt(data.cursor));
            let k = part.0.index_of(promise);
            assert(rest[k] == promise);
            found.lemma_filter_contains_rev(
                |promise: PromiseView| follows(text_opt(data.cursor), promise_id()(promise)),
                promise,
            );
            listed.lemma_filter_contains_rev(
                |promise: PromiseView| sought(promise, data.state, view_opt(data.tags)),
                promise,
            );
            let i = listed.index_of(promise);
            a_search_sees_no_expired_promise(w.all_promises(), t.now, i);
        }
    }
}

/// A promise to create shows none expired.
proof fn promise_creation_unexpired(w: World, t: TxnView, data: CreateView, target_is_url: bool)
    requires
        valid(w, t),
    ensures
        shows_none_expired(
            promise_creation(w, t, data, create_refusal(data, target_is_url)).1,
            t.now,
        ),
{
    reveal(shows_none_expired);
    due_keeps_all(w, t, data.id);
}

/// A promise to read shows none expired.
proof fn promise_reading_unexpired(w: World, t: TxnView, id: Text)
    requires
        valid(w, t),
    ensures
        shows_none_expired(promise_reading(w, t, id).1, t.now),
{
    reveal(shows_none_expired);
    due_keeps_all(w, t, id);
}

/// A promise to settle shows none expired.
proof fn promise_settlement_unexpired(w: World, t: TxnView, data: SettleView)
    requires
        valid(w, t),
    ensures
        shows_none_expired(promise_settlement(w, t, data).1, t.now),
{
    reveal(shows_none_expired);
    due_keeps_all(w, t, data.id);
}

/// A callback to register shows none expired.
proof fn callback_registration_unexpired(w: World, t: TxnView, awaited: Text, awaiter: Text)
    requires
        valid(w, t),
    ensures
        shows_none_expired(callback_registration(w, t, awaited, awaiter).1, t.now),
{
    reveal(shows_none_expired);
    let ids = seq![awaited, awaiter];
    deadlines_are_applied(w, t, ids);
    assert(ids[0] == awaited);
}

/// A listener to register shows none expired.
proof fn listener_unexpired(
    w: World,
    t: TxnView,
    awaited: Text,
    address: Text,
    address_is_url: bool,
)
    requires
        valid(w, t),
    ensures
        shows_none_expired(
            listener_registration(w, t, awaited, address, address_is_url).1,
            t.now,
        ),
{
    reveal(shows_none_expired);
    due_keeps_all(w, t, awaited);
}

/// A task to fulfil shows none expired.
proof fn task_fulfillment_unexpired(
    w: World,
    t: TxnView,
    id: Text,
    version: i64,
    kind: Text,
    settle: SettleView,
)
    requires
        valid(w, t),
    ensures
        shows_none_expired(task_fulfillment(w, t, id, version, kind, settle).1, t.now),
{
    reveal(shows_none_expired);
    read_after_deadline(w, t, id);
}

/// A suspension that is refused is answered with an error.
proof fn suspend_refusals_are_errors(id: Text, actions: Seq<CallbackActionView>, n: nat)
    ensures
        actions_refusal(id, actions, n) matches Some(reply) ==> reply is Error,
    decreases n,
{
    if n > 0 {
        suspend_refusals_are_errors(id, actions, (n - 1) as nat);
    }
}

/// A task to create, refused or not, shows none expired.
proof fn task_creation_unexpired(w: World, t: TxnView, data: TaskCreateData, target_is_url: bool)
    requires
        valid(w, t),
    ensures
        shows_none_expired(
            task_creation(
                w,
                t,
                data.action.data@,
                data.pid@,
                data.ttl,
                task_create_refusal(
                    data.action.kind@,
                    data.pid@,
                    data.ttl,
                    data.action.data@,
                    target_is_url,
                ),
            ).1,
            t.now,
        ),
{
    reveal(shows_none_expired);
    task_taking_unexpired(w, t, data.action.data@, data.pid@, data.ttl);
}

/// A suspension, refused or not, shows none expired.
proof fn task_suspension_unexpired(
    w: World,
    t: TxnView,
    id: Text,
    version: i64,
    actions: Seq<CallbackActionView>,
)
    requires
        valid(w, t),
    ensures
        shows_none_expired(task_suspension(w, t, id, version, actions).1, t.now),
{
    reveal(shows_none_expired);
    suspend_refusals_are_errors(id, actions, actions.len());
    suspending_unexpired(w, t, id, version, awaited_ids(actions));
}

/// A fence, refused or not, shows none expired.
proof fn task_fencing_unexpired(
    w: World,
    t: TxnView,
    data: TaskFenceData,
    corr_id: Text,
    target_is_url: bool,
)
    requires
        valid(w, t),
        names_its_promise(data),
    ensures
        ({
            let action_id = json_string_at(data.action.data.raw@, "/id"@);
            shows_none_expired(
                task_fencing(w, t, data, corr_id, action_id, target_is_url).1,
                t.now,
            )
        }),
{
    reveal(shows_none_expired);
    let action_id = json_string_at(data.action.data.raw@, "/id"@);
    if action_id is Some {
        fencing_unexpired(w, t, data, corr_id, action_id->0, target_is_url);
    }
}

/// The operations on a task that show no promise show none expired.
proof fn task_operations_show_no_promise(w: World, t: TxnView, id: Text, version: i64)
    ensures
        shows_none_expired(task_releasing(w, t, id, version).1, t.now),
        shows_none_expired(task_reading(w, t, id).1, t.now),
        shows_none_expired(task_halting(w, t, id).1, t.now),
        shows_none_expired(task_continuing(w, t, id).1, t.now),
        shows_none_expired(done(), t.now),
{
    reveal(shows_none_expired);
}

/// A search of the tasks shows no promise.
proof fn tasks_search_shows_no_promise(w: World, t: TxnView, data: TaskSearchData)
    ensures
        shows_none_expired(tasks_search(w, t, data).1, t.now),
{
    reveal(shows_none_expired);
}

/// The operations on a schedule show no promise.
proof fn schedules_show_no_promise(w: World, t: TxnView, corr_id: Text, data: OperationData)
    requires
        data is ScheduleCreate || data is ScheduleGet || data is ScheduleDelete
            || data is ScheduleSearch,
    ensures
        shows_none_expired(performed(w, t, corr_id, data).1, t.now),
{
    reveal(shows_none_expired);
}

/// No request observes a promise that is pending past its deadline: none is in
/// its reply. A fence's action names the promise that it creates or settles.
pub proof fn no_reply_shows_an_expired_promise(
    w: World,
    t: TxnView,
    corr_id: Text,
    data: OperationData,
)
    requires
        valid(w, t),
    ensures
        (data matches OperationData::TaskFence(data) ==> names_its_promise(data))
            ==> shows_none_expired(performed(w, t, corr_id, data).1, t.now),
{
    match data {
        OperationData::PromiseCreate(data) => {
            promise_creation_unexpired(w, t, data@, target_parses(data@.tags));
        },
        OperationData::PromiseGet(data) => {
            promise_reading_unexpired(w, t, data.id@);
        },
        OperationData::PromiseSettle(data) => {
            promise_settlement_unexpired(w, t, data@);
        },
        OperationData::PromiseRegisterCallback(data) => {
            callback_registration_unexpired(w, t, data.awaited@, data.awaiter@);
        },
        OperationData::PromiseRegisterListener(data) => {
            listener_unexpired(w, t, data.awaited@, data.address@, url_parses(data.address@));
        },
        OperationData::PromiseSearch(data) => {
            promises_search_unexpired(w, t, data);
        },
        OperationData::TaskCreate(data) => {
            task_creation_unexpired(w, t, data, target_parses(data.action.data@.tags));
        },
        OperationData::TaskAcquire(data) => {
            task_acquisition_unexpired(w, t, data.id@, data.version, data.pid@, data.ttl);
        },
        OperationData::TaskRelease(data) => {
            task_operations_show_no_promise(w, t, data.id@, data.version);
        },
        OperationData::TaskFulfill(data) => {
            task_fulfillment_unexpired(
                w,
                t,
                data.id@,
                data.version,
                data.action.kind@,
                data.action.data@,
            );
        },
        OperationData::TaskSuspend(data) => {
            task_suspension_unexpired(w, t, data.id@, data.version, viewed(data.actions@));
        },
        OperationData::TaskFence(data) => {
            if names_its_promise(data) {
                task_fencing_unexpired(w, t, data, corr_id, fence_target_parses(data));
            }
        },
        OperationData::TaskHeartbeat(data) => {
            task_operations_show_no_promise(w, t, data.pid@, 0);
        },
        OperationData::TaskGet(data) => {
            task_operations_show_no_promise(w, t, data.id@, 0);
        },
        OperationData::TaskHalt(data) => {
            task_operations_show_no_promise(w, t, data.id@, 0);
        },
        OperationData::TaskContinue(data) => {
            task_operations_show_no_promise(w, t, data.id@, 0);
        },
        OperationData::TaskSearch(data) => {
            tasks_search_shows_no_promise(w, t, data);
        },
        _ => {
            schedules_show_no_promise(w, t, corr_id, data);
        },
    }
}

} // verus!
