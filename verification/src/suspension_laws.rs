//! What the suspension of a task does, told by the stored records and the
//! callbacks of the request.

use vstd::prelude::*;
use crate::agreement::{deadlines_are_applied, grows, same_writes_keep, steps_grow};
use crate::awaiting::tasks_keyed;
use crate::calls::{at, CallView, World};
use crate::consequences::{
    by_deadline, deadlines_let_go_on, deadlines_settle_what_is_late, late, open_at, orderly,
    sent_stays, settles_if_late, untouched, writes_promise, writes_task,
};
use crate::data::{CallbackActionView, TaskSuspendData};
use crate::envelope::{viewed, ReplyDataView, ReplyView};
use crate::fence_laws::alone;
use crate::history::{in_agreement, start_valid};
use crate::index::in_branch;
use crate::kernel::{performed, OperationData};
use crate::keys::KeyView;
use crate::outcome::OutcomeView;
use crate::promise_laws::{
    a_callback_is_refused_for_a_fault, awaitable, callback_in_order, fails_with,
    names_a_callback_fault,
};
use crate::records::{PromiseView, StoredPromiseView, StoredTaskView, TaskState, Text};
use crate::search_laws::deadlines_to_come_do_nothing;
use crate::settlement::all_timed_out;
use crate::sibling_laws::{
    deadlines_keep_the_limit, deadlines_write_finitely, is_preload,
    sending_siblings_changes_nothing, shown_with, siblings_are_left_as_sent,
    siblings_as_they_are_left, siblings_settled,
};
use crate::suspension::{
    actions_refusal, all_registered, all_registered_keeps, any_settled, awaited_ids, gathered,
    gathered_grows, gathered_keeps, observed, rows_of, suspend_refusal, suspended_on,
    suspended_on_grows,
};
use crate::task_laws::{
    drops_ended, held_at, is_late, nobody_late, only_task_then, paired, preload_adds, preload_only_adds,
    settled_siblings_stay,
};
use crate::text::text_lt;
use crate::txn::{after_preload, preloaded, AfterView, EnqueueView, RowView, TxnView};

verus! {

/// The callbacks of a suspension.
pub open spec fn callbacks_of(data: TaskSuspendData) -> Seq<CallbackActionView> {
    Seq::new(data.actions@.len(), |i: int| data.actions@[i]@)
}

/// Whether a task can be suspended with `actions`: each is a callback of the task
/// that can be registered, and no two await one promise.
pub open spec fn suspension_in_order(id: Text, actions: Seq<CallbackActionView>) -> bool {
    &&& actions.len() > 0
    &&& forall|i: int|
        0 <= i < actions.len() ==> (#[trigger] actions[i]).kind == "promise.register_callback"@
            && actions[i].awaiter == id && callback_in_order(actions[i].awaited, id)
    &&& forall|i: int, j: int|
        0 <= i < j < actions.len() ==> (#[trigger] actions[i]).awaited != (
        #[trigger] actions[j]).awaited
}

/// Whether the first `n` callbacks of a suspension are in order.
pub open spec fn in_order_up_to(id: Text, actions: Seq<CallbackActionView>, n: int) -> bool {
    &&& forall|i: int|
        0 <= i < n ==> (#[trigger] actions[i]).kind == "promise.register_callback"@
            && actions[i].awaiter == id && callback_in_order(actions[i].awaited, id)
    &&& forall|i: int, j: int|
        0 <= i < j < n ==> (#[trigger] actions[i]).awaited != (#[trigger] actions[j]).awaited
}

/// Whether `message` names the first rule that the `i`-th callback of a suspension
/// breaks.
pub open spec fn names_an_action_fault(
    id: Text,
    actions: Seq<CallbackActionView>,
    i: int,
    message: Text,
) -> bool {
    if actions[i].kind != "promise.register_callback"@ {
        message == "Invalid action kind"@
    } else if actions[i].awaiter != id {
        message == "Action awaiter must be the task"@
    } else if !callback_in_order(actions[i].awaited, id) {
        names_a_callback_fault(actions[i].awaited, id, message)
    } else {
        message == "Awaited promises must be unique"@ && exists|j: int|
            0 <= j < i && (#[trigger] actions[j]).awaited == actions[i].awaited
    }
}

/// Whether `message` names the first rule that a suspension breaks, in its first
/// callback that breaks one.
pub open spec fn names_a_suspension_fault(
    id: Text,
    actions: Seq<CallbackActionView>,
    message: Text,
) -> bool {
    ||| message == "Actions are required"@ && actions.len() == 0
    ||| exists|i: int|
        0 <= i < actions.len() && in_order_up_to(id, actions, i) && #[trigger]
        names_an_action_fault(id, actions, i, message)
}

/// The first callbacks of a suspension are refused where they are not in order.
proof fn actions_are_refused_for_a_fault(id: Text, actions: Seq<CallbackActionView>, n: nat)
    requires
        n <= actions.len(),
    ensures
        actions_refusal(id, actions, n) is None <==> in_order_up_to(id, actions, n as int),
        actions_refusal(id, actions, n) matches Some(reply) ==> (reply matches ReplyView::Error(
            status,
            message,
        ) && status == 400 && exists|i: int|
            0 <= i < n && in_order_up_to(id, actions, i) && #[trigger] names_an_action_fault(
                id,
                actions,
                i,
                message,
            )),
    decreases n,
{
    if n > 0 {
        let i = n - 1;
        let action = actions[i];
        actions_are_refused_for_a_fault(id, actions, (n - 1) as nat);
        a_callback_is_refused_for_a_fault(action.awaited, action.awaiter);
        let before = awaited_ids(actions).take(i);
        if before.contains(action.awaited) {
            let j = before.index_of(action.awaited);
            assert(actions[j].awaited == action.awaited);
        } else {
            assert forall|j: int| 0 <= j < i implies (#[trigger] actions[j]).awaited
                != action.awaited by {
                assert(before[j] == actions[j].awaited);
            }
        }
        if let Some(ReplyView::Error(_, message)) = actions_refusal(id, actions, n) {
            if actions_refusal(id, actions, (n - 1) as nat) is None {
                assert(names_an_action_fault(id, actions, i, message));
            }
        }
    }
}

/// A suspension that is in order has no refusal, and a refusal names the first rule
/// that is broken.
pub proof fn a_suspension_is_refused_for_a_fault(id: Text, actions: Seq<CallbackActionView>)
    ensures
        suspend_refusal(id, actions) is None <==> suspension_in_order(id, actions),
        suspend_refusal(id, actions) matches Some(reply) ==> (reply matches ReplyView::Error(
            status,
            message,
        ) && status == 400 && names_a_suspension_fault(id, actions, message)),
{
    actions_are_refused_for_a_fault(id, actions, actions.len());
}

/// Whether a task can await the stored promise of `id`.
pub open spec fn can_be_awaited(w: World, id: Text) -> bool {
    at(w.promises, id) matches Some(row) && awaitable(row.record.tags)
}

/// Whether `message` says why a task cannot await the first of `ids` that it
/// cannot.
pub open spec fn tells_of_the_first(w: World, ids: Seq<Text>, message: Text) -> bool {
    exists|i: int|
        0 <= i < ids.len() && !can_be_awaited(w, #[trigger] ids[i]) && (forall|j: int|
            0 <= j < i ==> can_be_awaited(w, #[trigger] ids[j])) && message == (if at(
            w.promises,
            ids[i],
        ) is None {
            "Awaited promise not found"@
        } else {
            "Awaited promise is not awaitable"@
        })
}

/// Whether one of the stored promises of `ids` is settled, by its deadline or
/// before.
pub open spec fn one_settled(w: World, ids: Seq<Text>, now: i64) -> bool {
    exists|i: int| 0 <= i < ids.len() && !open_at(w, #[trigger] ids[i], now)
}

/// Whether a request suspends `task` on the promises of `ids`: the task is added to
/// the callbacks of each, after the others and unless it is there, it waits with
/// nothing to observe and no holder, and nothing else changes.
pub open spec fn suspends(w: World, t: TxnView, task: StoredTaskView, ids: Seq<Text>) -> bool {
    &&& writes_task(
        t,
        task.id,
        StoredTaskView {
            id: task.id,
            state: TaskState::Suspended,
            version: task.version,
            target: task.target,
            job: task.job,
            pid: None,
            ttl: None,
            resumes: Set::empty(),
        },
    )
    &&& forall|i: int| 0 <= i < ids.len() ==> calls_back(w, t, #[trigger] ids[i], task.id)
    &&& forall|key: KeyView| #[trigger]
        t.writes.contains_key(key) ==> key == KeyView::Task(task.id) || (
        key matches KeyView::Promise(id) && ids.contains(id))
    &&& t.enqueues == Seq::<EnqueueView>::empty()
    &&& t.after == Seq::<AfterView>::empty()
}

/// Whether a request adds `awaiter` to the callbacks of the stored promise of `id`.
pub open spec fn calls_back(w: World, t: TxnView, id: Text, awaiter: Text) -> bool {
    at(w.promises, id) matches Some(row) && (if row.callbacks.contains(awaiter) {
        !t.writes.contains_key(KeyView::Promise(id))
    } else {
        writes_promise(
            t,
            id,
            StoredPromiseView {
                record: row.record,
                callbacks: row.callbacks.push(awaiter),
                listeners: row.listeners,
            },
        )
    })
}

/// Whether the deadlines of the promises that a suspension names are applied.
pub open spec fn named_are_settled(
    w: World,
    t: TxnView,
    now: i64,
    id: Text,
    ids: Seq<Text>,
) -> bool {
    settles_if_late(w, t, now, id) && forall|i: int|
        0 <= i < ids.len() ==> settles_if_late(w, t, now, #[trigger] ids[i])
}

/// Whether none of the promises that a suspension names is past its deadline.
pub open spec fn none_named_late(w: World, now: i64, id: Text, ids: Seq<Text>) -> bool {
    !is_late(w, id, now) && forall|i: int| 0 <= i < ids.len() ==> !is_late(w, #[trigger] ids[i], now)
}

/// What becomes of a suspension that ends with a reply `outcome` and does nothing
/// but apply deadlines.
pub open spec fn ends_without(
    w: World,
    end: (TxnView, OutcomeView),
    now: i64,
    id: Text,
    ids: Seq<Text>,
    outcome: OutcomeView,
) -> bool {
    &&& end.1 == outcome
    &&& named_are_settled(w, end.0, now, id, ids)
    &&& none_named_late(w, now, id, ids) ==> untouched(end.0)
}

/// What becomes of a suspension whose task is acquired at its version, with its
/// claim held.
pub open spec fn suspension_of_held(
    w: World,
    end: (TxnView, OutcomeView),
    now: i64,
    task: StoredTaskView,
    own: PromiseView,
    ids: Seq<Text>,
) -> bool {
    let id = task.id;
    if exists|i: int| 0 <= i < ids.len() && !can_be_awaited(w, #[trigger] ids[i]) {
        &&& end.1 matches OutcomeView::Commit(ReplyView::Error(status, message)) && status == 422
            && tells_of_the_first(w, ids, message)
        &&& named_are_settled(w, end.0, now, id, ids)
        &&& none_named_late(w, now, id, ids) ==> untouched(end.0)
    } else if one_settled(w, ids, now) {
        let seen = StoredTaskView {
            id: task.id,
            state: TaskState::Acquired,
            version: task.version,
            target: task.target,
            job: task.job,
            pid: task.pid,
            ttl: task.ttl,
            resumes: Set::empty(),
        };
        &&& end.1 matches OutcomeView::Commit(
            ReplyView::Data(status, ReplyDataView::Preload(preload)),
        ) && status == 300 && shown_with(w, end.0, own, preload) && siblings_settled(
            w,
            end.0,
            now,
            preload,
        )
        &&& writes_task(end.0, id, seen)
        &&& named_are_settled(w, end.0, now, id, ids)
        &&& none_named_late(w, now, id, ids) && alone(w, own, now) ==> only_task_then(
            end.0,
            id,
            seen,
            Seq::empty(),
        )
    } else if held_at(w, 1, now) {
        &&& end.1 == OutcomeView::Settle(ReplyView::Data(200, ReplyDataView::Empty), id)
        &&& suspends(w, end.0, task, ids)
    } else {
        end.1 == OutcomeView::Reply(
            ReplyView::Error(409, "Task version mismatch or invalid state"@),
        )
    }
}

/// A request to suspend a task that is acquired at its version, while its claim is
/// held, registers it with every promise it awaits and lets it wait, where all of
/// them are pending; it is committed as the claim is acknowledged. Where one of
/// them is settled the task goes on at once, with nothing left to observe. Where
/// it cannot await one of them, or is not held, it is refused.
pub proof fn suspending_a_task(
    w: World,
    preload_limit: usize,
    now: i64,
    corr_id: Text,
    data: TaskSuspendData,
)
    requires
        orderly(w),
        paired(w, data.id@),
    ensures
        ({
            let end = performed(
                w,
                TxnView::start(preload_limit, now),
                corr_id,
                OperationData::TaskSuspend(data),
            );
            let id = data.id@;
            let actions = callbacks_of(data);
            let ids = Seq::new(actions.len(), |i: int| actions[i].awaited);
            let conflict = fails_with(409, "Task is not acquired or version mismatch"@);
            if !suspension_in_order(id, actions) {
                &&& untouched(end.0)
                &&& end.1 matches OutcomeView::Reply(ReplyView::Error(status, message)) && status
                    == 400 && names_a_suspension_fault(id, actions, message)
            } else {
                match at(w.tasks, id) {
                    None => ends_without(
                        w,
                        end,
                        now,
                        id,
                        ids,
                        fails_with(404, "Task not found"@),
                    ),
                    Some(task) => if is_late(w, id, now) || task.state != TaskState::Acquired
                        || task.version != data.version {
                        ends_without(w, end, now, id, ids, conflict)
                    } else {
                        &&& end.0.asked.contains(CallView::Lease(id, 0))
                        &&& if !held_at(w, 0, now) {
                            ends_without(w, end, now, id, ids, conflict) && drops_ended(
                                w,
                                end.0,
                                now,
                                id,
                                0,
                            )
                        } else {
                            suspension_of_held(
                                w,
                                end,
                                now,
                                task,
                                at(w.promises, id)->0.record,
                                ids,
                            )
                        }
                    },
                }
            }
        }),
{
    let t = TxnView::start(preload_limit, now);
    let id = data.id@;
    let actions = callbacks_of(data);
    let ids = Seq::new(actions.len(), |i: int| actions[i].awaited);
    let end = performed(w, t, corr_id, OperationData::TaskSuspend(data));
    assert(actions =~= viewed(data.actions@));
    assert(ids =~= awaited_ids(actions));
    a_suspension_is_refused_for_a_fault(id, actions);
    if suspension_in_order(id, actions) {
        let all = seq![id] + ids;
        let timed = all_timed_out(w, t, all);
        let read = timed.read_task(id);
        assert forall|x: Text| #[trigger] t.promise(w, x) == at(w.promises, x) by {}
        assert forall|x: Text| #[trigger] t.task(w, x) == at(w.tasks, x) by {}
        assert(tasks_keyed(w, t)) by {
            assert forall|x: Text| (#[trigger] t.task(w, x)) matches Some(task) ==> task.id == x by {
                assert(at(w.tasks, x) matches Some(task) ==> task.id == x);
            }
        }
        named_deadlines(w, t, id, ids);
        assert(all[0] == id);
        assert(all.contains(id));
        deadlines_let_go_on(w, t, all, id);
        deadlines_settle_what_is_late(w, t, all, id);
        settled_goes_on(w, timed, read, now, id, ids);
        if let Some(task) = at(w.tasks, id) {
            if !is_late(w, id, now) && task.state == TaskState::Acquired && task.version
                == data.version {
                let found = timed.task(w, id)->0;
                let looked = read.after_holds(w, found.id);
                assert(read.holds(w) == held_at(w, 0, now));
                assert(looked.asked.contains(CallView::Lease(id, 0)));
                settled_goes_on(w, timed, looked, now, id, ids);
                if held_at(w, 0, now) {
                    a_held_task_is_suspended(w, t, task, ids, end);
                }
            }
        }
    }
}

/// What a request has applied of deadlines stays as it goes on.
proof fn settled_goes_on(w: World, a: TxnView, b: TxnView, now: i64, id: Text, ids: Seq<Text>)
    requires
        named_are_settled(w, a, now, id, ids),
        a.enqueues.is_prefix_of(b.enqueues) || a.enqueues == b.enqueues,
        forall|x: Text| (x == id || ids.contains(x)) && is_late(w, x, now) ==> #[trigger] b.promise(
            w,
            x,
        ) == a.promise(w, x),
    ensures
        named_are_settled(w, b, now, id, ids),
{
    if a.enqueues == b.enqueues {
        assert(a.enqueues =~= b.enqueues.subrange(0, a.enqueues.len() as int));
    }
    if is_late(w, id, now) {
        let row = at(w.promises, id)->0;
        assert(b.promise(w, id) == a.promise(w, id));
        sent_stays(a, b, row, by_deadline(row.record));
    }
    assert forall|i: int| 0 <= i < ids.len() implies settles_if_late(
        w,
        b,
        now,
        #[trigger] ids[i],
    ) by {
        assert(settles_if_late(w, a, now, ids[i]));
        if is_late(w, ids[i], now) {
            let row = at(w.promises, ids[i])->0;
            assert(ids.contains(ids[i]));
            assert(b.promise(w, ids[i]) == a.promise(w, ids[i]));
            sent_stays(a, b, row, by_deadline(row.record));
        }
    }
}

/// The deadlines of the promises that a suspension names.
proof fn named_deadlines(w: World, t: TxnView, id: Text, ids: Seq<Text>)
    requires
        orderly(w),
        t == TxnView::start(t.preload_limit, t.now),
    ensures
        ({
            let all = seq![id] + ids;
            let timed = all_timed_out(w, t, all);
            &&& named_are_settled(w, timed, t.now, id, ids)
            &&& timed.now == t.now
            &&& timed.preload_limit == t.preload_limit
            &&& timed.writes.dom().finite()
            &&& forall|x: Text|
                (#[trigger] timed.promise(w, x)) matches Some(row) ==> row.record.id == x
            &&& forall|x: Text|
                match at(w.promises, x) {
                    None => (#[trigger] timed.promise(w, x)) is None,
                    Some(row) => if late(row, t.now) && all.contains(x) {
                        timed.promise(w, x) == Some(
                            StoredPromiseView {
                                record: by_deadline(row.record),
                                callbacks: Seq::empty(),
                                listeners: Seq::empty(),
                            },
                        )
                    } else {
                        timed.promise(w, x) == Some(row)
                    },
                }
            &&& none_named_late(w, t.now, id, ids) ==> timed == (TxnView {
                asked: timed.asked,
                ..t
            })
            &&& in_agreement(w) ==> grows(w, t, timed)
        }),
{
    let all = seq![id] + ids;
    let timed = all_timed_out(w, t, all);
    assert forall|x: Text| #[trigger] t.promise(w, x) == at(w.promises, x) by {}
    assert(t.writes.dom() =~= Set::empty());
    deadlines_write_finitely(w, t, all);
    deadlines_keep_the_limit(w, t, all);
    deadlines_settle_what_is_late(w, t, all, id);
    assert(all[0] == id);
    assert(all.contains(id));
    assert forall|i: int| 0 <= i < ids.len() implies settles_if_late(
        w,
        timed,
        t.now,
        #[trigger] ids[i],
    ) by {
        assert(all[i + 1] == ids[i]);
        assert(all.contains(ids[i]));
        deadlines_settle_what_is_late(w, t, all, ids[i]);
    }
    assert forall|x: Text|
        match at(w.promises, x) {
            None => (#[trigger] timed.promise(w, x)) is None,
            Some(row) => if late(row, t.now) && all.contains(x) {
                timed.promise(w, x) == Some(
                    StoredPromiseView {
                        record: by_deadline(row.record),
                        callbacks: Seq::empty(),
                        listeners: Seq::empty(),
                    },
                )
            } else {
                timed.promise(w, x) == Some(row)
            },
        } by {
        deadlines_settle_what_is_late(w, t, all, x);
    }
    if none_named_late(w, t.now, id, ids) {
        assert forall|i: int| 0 <= i < all.len() implies (t.promise(
            w,
            #[trigger] all[i],
        ) matches Some(row) ==> !late(row, t.now)) by {
            if i > 0 {
                assert(all[i] == ids[i - 1]);
                assert(!is_late(w, ids[i - 1], t.now));
            }
        }
        deadlines_to_come_do_nothing(w, t, all);
    }
    if in_agreement(w) {
        start_valid(w, t.preload_limit, t.now);
        deadlines_are_applied(w, t, all);
    }
}

/// What a suspension gathers: a promise that the task cannot await is told of, the
/// first one.
proof fn gathering_tells_of_the_first(w: World, t: TxnView, ids: Seq<Text>)
    requires
        forall|x: Text|
            match at(w.promises, x) {
                None => (#[trigger] t.promise(w, x)) is None,
                Some(row) => t.promise(w, x) matches Some(found) && found.record.tags
                    == row.record.tags,
            },
    ensures
        match gathered(w, t, ids).1 {
            None => forall|i: int| 0 <= i < ids.len() ==> can_be_awaited(w, #[trigger] ids[i]),
            Some(message) => tells_of_the_first(w, ids, message),
        },
    decreases ids.len(),
{
    if ids.len() > 0 {
        let short = ids.drop_last();
        let last = ids.last();
        gathering_tells_of_the_first(w, t, short);
        gathered_keeps(w, t, short);
        assert(gathered(w, t, short).0.promise(w, last) == t.promise(w, last));
        assert(ids[ids.len() - 1] == last);
        assert forall|i: int| 0 <= i < short.len() implies short[i] == ids[i] by {}
        match gathered(w, t, short).1 {
            Some(message) => {
                let i = choose|i: int|
                    0 <= i < short.len() && !can_be_awaited(w, #[trigger] short[i]) && (forall|
                        j: int,
                    |
                        0 <= j < i ==> can_be_awaited(w, #[trigger] short[j])) && message == (if at(
                        w.promises,
                        short[i],
                    ) is None {
                        "Awaited promise not found"@
                    } else {
                        "Awaited promise is not awaitable"@
                    });
                assert(ids[i] == short[i]);
                assert forall|j: int| 0 <= j < i implies can_be_awaited(w, #[trigger] ids[j]) by {
                    assert(short[j] == ids[j]);
                }
                assert(tells_of_the_first(w, ids, message));
            },
            None => {
                assert forall|i: int| 0 <= i < short.len() implies can_be_awaited(
                    w,
                    #[trigger] ids[i],
                ) by {
                    assert(can_be_awaited(w, short[i]));
                }
                if let Some(message) = gathered(w, t, ids).1 {
                    assert(!can_be_awaited(w, ids[ids.len() - 1]));
                    assert(tells_of_the_first(w, ids, message));
                }
            },
        }
    }
}

/// The registration of a task with promises as they are stored.
proof fn registration_is_written(
    w: World,
    t: TxnView,
    looked: TxnView,
    ids: Seq<Text>,
    awaiter: Text,
)
    requires
        orderly(w),
        untouched(t),
        ids.no_duplicates(),
        forall|i: int|
            0 <= i < ids.len() ==> looked.promise(w, #[trigger] ids[i]) == at(w.promises, ids[i])
                && at(w.promises, ids[i]) is Some,
    ensures
        ({
            let after = all_registered(t, rows_of(w, looked, ids), awaiter);
            &&& forall|i: int|
                0 <= i < ids.len() ==> calls_back(w, after, #[trigger] ids[i], awaiter)
            &&& forall|key: KeyView| #[trigger]
                after.writes.contains_key(key) ==> (key matches KeyView::Promise(id)
                    && ids.contains(id))
        }),
    decreases ids.len(),
{
    let rows = rows_of(w, looked, ids);
    let after = all_registered(t, rows, awaiter);
    if ids.len() > 0 {
        let short = ids.drop_last();
        let last = ids.last();
        assert(rows.drop_last() =~= rows_of(w, looked, short));
        assert(ids[ids.len() - 1] == last);
        assert(looked.promise(w, last) == at(w.promises, last));
        assert(rows.last() == at(w.promises, last)->0);
        assert forall|i: int| 0 <= i < short.len() implies looked.promise(w, #[trigger] short[i])
            == at(w.promises, short[i]) && at(w.promises, short[i]) is Some by {
            assert(short[i] == ids[i]);
        }
        assert forall|i: int, j: int| 0 <= i < short.len() && 0 <= j < short.len() && i != j implies short[i]
            != short[j] by {
            assert(short[i] == ids[i] && short[j] == ids[j]);
        }
        registration_is_written(w, t, looked, short, awaiter);
        let before = all_registered(t, rows.drop_last(), awaiter);
        assert(!short.contains(last)) by {
            if short.contains(last) {
                assert(ids[short.index_of(last)] == last);
            }
        }
        assert(!before.writes.contains_key(KeyView::Promise(last)));
        assert forall|x: Text| short.contains(x) implies ids.contains(x) by {
            assert(ids[short.index_of(x)] == x);
        }
        assert(ids.contains(last));
        assert forall|i: int| 0 <= i < ids.len() implies calls_back(
            w,
            after,
            #[trigger] ids[i],
            awaiter,
        ) by {
            if i < short.len() {
                assert(short[i] == ids[i]);
                assert(calls_back(w, before, short[i], awaiter));
            }
        }
    }
}

/// The suspension of a task that is held.
proof fn a_held_task_is_suspended(
    w: World,
    t: TxnView,
    task: StoredTaskView,
    ids: Seq<Text>,
    end: (TxnView, OutcomeView),
)
    requires
        orderly(w),
        t == TxnView::start(t.preload_limit, t.now),
        paired(w, task.id),
        at(w.tasks, task.id) == Some(task),
        task.state == TaskState::Acquired,
        !is_late(w, task.id, t.now),
        ids.no_duplicates(),
        ({
            let timed = all_timed_out(w, t, seq![task.id] + ids);
            let looked = timed.read_task(task.id).after_holds(w, task.id);
            let got = gathered(w, looked, ids);
            &&& timed.read_task(task.id).holds(w)
            &&& end == (if got.1 is Some {
                (got.0, fails_with(422, got.1->0))
            } else {
                suspended_on(
                    w,
                    got.0,
                    task.id,
                    timed.task(w, task.id)->0,
                    rows_of(w, looked, ids),
                )
            })
        }),
    ensures
        end.0.asked.contains(CallView::Lease(task.id, 0)),
        suspension_of_held(w, end, t.now, task, at(w.promises, task.id)->0.record, ids),
{
    let id = task.id;
    let now = t.now;
    let all = seq![id] + ids;
    let timed = all_timed_out(w, t, all);
    let read = timed.read_task(id);
    let looked = read.after_holds(w, id);
    let got = gathered(w, looked, ids);
    let here = got.0;
    let rows = rows_of(w, looked, ids);
    let own = at(w.promises, id)->0;
    assert forall|x: Text| #[trigger] t.promise(w, x) == at(w.promises, x) by {}
    assert forall|x: Text| #[trigger] t.task(w, x) == at(w.tasks, x) by {}
    assert(tasks_keyed(w, t)) by {
        assert forall|x: Text| (#[trigger] t.task(w, x)) matches Some(found) ==> found.id == x by {
            assert(at(w.tasks, x) matches Some(found) ==> found.id == x);
        }
    }
    named_deadlines(w, t, id, ids);
    deadlines_let_go_on(w, t, all, id);
    gathered_keeps(w, looked, ids);
    gathered_grows(w, looked, ids, CallView::Lease(id, 0));
    assert(looked.asked.contains(CallView::Lease(id, 0)));
    assert forall|x: Text| #[trigger] looked.promise(w, x) == timed.promise(w, x) by {}
    assert forall|x: Text| #[trigger] here.promise(w, x) == timed.promise(w, x) by {}
    assert forall|x: Text|
        match at(w.promises, x) {
            None => (#[trigger] looked.promise(w, x)) is None,
            Some(row) => looked.promise(w, x) matches Some(found) && found.record.tags
                == row.record.tags,
        } by {
        assert(looked.promise(w, x) == timed.promise(w, x));
    }
    gathering_tells_of_the_first(w, looked, ids);
    settled_goes_on(w, timed, here, now, id, ids);
    if got.1 is Some {
        assert(exists|i: int| 0 <= i < ids.len() && !can_be_awaited(w, #[trigger] ids[i]));
    } else {
        let found = timed.task(w, id)->0;
        assert forall|i: int| 0 <= i < ids.len() implies rows[i].record.is_pending() == open_at(
            w,
            #[trigger] ids[i],
            now,
        ) by {
            assert(all[i + 1] == ids[i]);
            assert(all.contains(ids[i]));
            assert(can_be_awaited(w, ids[i]));
            assert(looked.promise(w, ids[i]) == timed.promise(w, ids[i]));
        }
        suspended_on_grows(w, here, id, found, rows, CallView::Lease(id, 0));
        if one_settled(w, ids, now) {
            let i = choose|i: int| 0 <= i < ids.len() && !open_at(w, #[trigger] ids[i], now);
            assert(!rows[i].record.is_pending());
            assert(any_settled(rows));
            assert(here.promise(w, id) == Some(own));
            let last = here.read_promise(id);
            let loaded = after_preload(w, last, own.record);
            assert forall|x: Text| #[trigger] last.promise(w, x) == timed.promise(w, x) by {}
            if in_agreement(w) {
                same_writes_keep(w, timed, last);
                steps_grow(w, t, timed, last);
            }
            assert forall|x: Text| (#[trigger] last.promise(w, x)) is Some implies x == id || at(
                w.promises,
                x,
            ) is Some by {
                assert(last.promise(w, x) == timed.promise(w, x));
            }
            siblings_as_they_are_left(w, last, own.record, id);
            settled_goes_on(w, timed, last, now, id, ids);
            assert forall|x: Text| #[trigger]
                last.promise(w, x) == at(w.promises, x) || settles_if_late(w, last, now, x) by {
                assert(last.promise(w, x) == timed.promise(w, x));
                if last.promise(w, x) != at(w.promises, x) {
                    assert(all.contains(x));
                    let k = all.index_of(x);
                    if k > 0 {
                        assert(ids[k - 1] == x);
                    }
                }
            }
            siblings_are_left_as_sent(w, last, own.record);
            preload_adds(w, last, own.record);
            assert forall|x: Text| #[trigger] end.0.promise(w, x) == loaded.promise(w, x) by {}
            assert forall|x: Text| (x == id || ids.contains(x)) && is_late(
                w,
                x,
                now,
            ) implies #[trigger] end.0.promise(w, x) == here.promise(w, x) by {
                if x == id {
                    assert(all[0] == id);
                } else {
                    assert(all[ids.index_of(x) + 1] == x);
                }
                assert(all.contains(x));
                assert(last.promise(w, x) == timed.promise(w, x));
                preload_only_adds(w, last, own.record, x);
            }
            settled_goes_on(w, here, end.0, now, id, ids);
            settled_siblings_stay(w, loaded, end.0, now, preloaded(w, last, own.record));
            shown_stays(w, loaded, end.0, own.record, preloaded(w, last, own.record));
            if none_named_late(w, now, id, ids) && alone(w, own.record, now) {
                if nobody_late(w, now) {
                    assert forall|x: Text| (#[trigger] last.promise(w, x)) matches Some(row)
                        ==> !late(row, last.now) by {
                        assert(last.promise(w, x) == timed.promise(w, x));
                    }
                    sending_siblings_changes_nothing(w, last, own.record);
                }
                assert(end.0.writes =~= map![
                    KeyView::Task(id) => Some(RowView::Task(observed(found))),
                ]);
            }
        } else {
            assert(!any_settled(rows)) by {
                if any_settled(rows) {
                    let i = choose|i: int|
                        0 <= i < rows.len() && !(#[trigger] rows[i]).record.is_pending();
                    assert(!open_at(w, ids[i], now));
                }
            }
            assert forall|i: int| 0 <= i < ids.len() implies !is_late(w, #[trigger] ids[i], now) by {
                assert(open_at(w, ids[i], now));
            }
            assert(untouched(here));
            assert forall|i: int| 0 <= i < ids.len() implies looked.promise(w, #[trigger] ids[i])
                == at(w.promises, ids[i]) && at(w.promises, ids[i]) is Some by {
                assert(can_be_awaited(w, ids[i]));
                assert(looked.promise(w, ids[i]) == timed.promise(w, ids[i]));
            }
            registration_is_written(w, here, looked, ids, id);
            all_registered_keeps(here, rows, id);
            let registered = all_registered(here, rows, id);
            assert(here.turn == 1);
            assert forall|i: int| 0 <= i < ids.len() implies calls_back(
                w,
                end.0,
                #[trigger] ids[i],
                id,
            ) by {
                assert(calls_back(w, registered, ids[i], id));
            }
        }
    }
}

/// What is shown stays as a request goes on with its promises as they are.
proof fn shown_stays(
    w: World,
    a: TxnView,
    b: TxnView,
    promise: PromiseView,
    preload: Seq<PromiseView>,
)
    requires
        shown_with(w, a, promise, preload),
        a.now == b.now,
        a.preload_limit == b.preload_limit,
        forall|x: Text| #[trigger] b.promise(w, x) == a.promise(w, x),
    ensures
        shown_with(w, b, promise, preload),
{
    let branch = promise.tags["resonate:branch"@];
    if is_preload(w, a, preload, branch, promise.id, a.preload_limit) {
        assert forall|id: Text| #[trigger] in_branch(b.promise(w, id), branch) && id
            != promise.id implies (exists|i: int|
            0 <= i < preload.len() && (#[trigger] preload[i]).id == id) || (preload.len()
            == b.preload_limit && (b.preload_limit > 0 ==> text_lt(preload.last().id, id))) by {
            assert(in_branch(a.promise(w, id), branch));
        }
        assert(is_preload(w, b, preload, branch, promise.id, b.preload_limit));
    }
}

} // verus!
