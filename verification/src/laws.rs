//! What the protocol promises of a request as a whole.

use vstd::prelude::*;
use crate::agreement::{agree, created_keeps, deadlines_are_applied, same_writes_keep, valid};
use crate::awaiting::{callbacks_noticed, notices};
use crate::calls::{Call, CallView, World};
use crate::creation::{
    created, created_row, fired, fired_data, fired_id, fired_promise, ModeView,
};
use crate::cron::cron_next;
use crate::data::{CreateView, ScheduleCreateView, SettleView, TaskFenceData};
use crate::envelope::{ReplyDataView, ReplyView};
use crate::fence::fencing;
use crate::kernel::{delivered, DeliveryView, MessageView};
use crate::keys::TIMER_QUEUE;
use crate::outcome::{ends, Outcome, OutcomeView};
use crate::promises::due;
use crate::records::{PromiseView, ScheduleView, StoredPromiseView, TaskState, Text, TAG_TARGET};
use crate::schedules::{schedule_reply, scheduling};
use crate::search::{follows, page_of, remaining};
use crate::settlement::{
    all_called_back, all_timed_out, all_unblocked, all_unblocked_keeps, cleared, settled_chain,
    task_ended,
};
use crate::suspension::{gathered_keeps, observed, suspending};
use crate::tasks::{fulfilling, stale_version, task_releasing};
use crate::text::{text_lt, text_lt_irreflexive, text_lt_transitive};
use crate::time::at_least_zero;
use crate::timers::TimerView;
use crate::txn::{AfterView, EnqueueView, PayloadView, Txn, TxnView};

verus! {

/// A request whose calls are all answered ends: it stops only at a call it
/// depends on whose answer is not known.
pub proof fn answered_requests_end(
    before: Txn,
    after: Txn,
    r: Result<Outcome, Call>,
    run: spec_fn(World) -> (TxnView, OutcomeView),
    w: World,
)
    requires
        ends(before, after, r, run),
        before.facts.describe(w),
        forall|call: CallView| #[trigger]
            run(w).0.asked.contains(call) ==> before.facts.answer(call),
    ensures
        r is Ok,
{
    if let Err(call) = r {
        assert(run(w).0.asked.contains(call@));
    }
}

/// The job of an unblock message for `promise`.
pub open spec fn unblock(address: Text, promise: PromiseView) -> EnqueueView {
    EnqueueView { queue: address, payload: PayloadView::Unblock(promise), job: None, run_at: None }
}

/// Every listener receives one unblock message, in the order of registration.
pub proof fn every_listener_is_unblocked_once(t: TxnView, listeners: Seq<Text>, promise: PromiseView)
    ensures
        all_unblocked(t, listeners, promise).enqueues == t.enqueues + Seq::new(
            listeners.len(),
            |i: int| unblock(listeners[i], promise),
        ),
    decreases listeners.len(),
{
    let jobs = Seq::new(listeners.len(), |i: int| unblock(listeners[i], promise));
    if listeners.len() == 0 {
        assert(t.enqueues + jobs =~= t.enqueues);
    } else {
        let short = listeners.drop_last();
        let fewer = Seq::new(short.len(), |i: int| unblock(short[i], promise));
        every_listener_is_unblocked_once(t, short, promise);
        assert(jobs =~= fewer.push(unblock(listeners.last(), promise)));
        assert(t.enqueues + jobs =~= (t.enqueues + fewer).push(
            unblock(listeners.last(), promise),
        ));
    }
}

/// No awaiter misses a settlement: once a promise is settled, the task of every
/// registered awaiter whose promise is pending within its deadline is not
/// suspended any more and counts the settled promise among those it has not
/// observed, unless it is fulfilled.
pub proof fn every_awaiter_is_resumed(w: World, t: TxnView, row: StoredPromiseView, i: int)
    requires
        valid(w, t),
        0 <= i < row.callbacks.len(),
        row.callbacks[i] != row.record.id,
        t.promise(w, row.callbacks[i]) matches Some(awaiting) && awaiting.record.is_pending()
            && t.now < awaiting.record.timeout_at,
    ensures
        notices(settled_chain(w, t, row).task(w, row.callbacks[i]), row.record.id),
{
    let id = row.record.id;
    let start = task_ended(w, t, id).put_promise(cleared(row));
    let told = all_called_back(w, start, row.callbacks, id);
    assert forall|other: Text| (#[trigger] start.task(w, other)) matches Some(task) ==> task.id
        == other by {
        assert(agree(other, t.promise(w, other), t.task(w, other)));
        assert(agree(id, t.promise(w, id), t.task(w, id)));
    }
    assert(start.promise(w, row.callbacks[i]) == t.promise(w, row.callbacks[i]));
    callbacks_noticed(w, start, row.callbacks, id, i);
    all_unblocked_keeps(told, row.listeners, row.record);
    assert(settled_chain(w, t, row).task(w, row.callbacks[i]) == told.task(w, row.callbacks[i]));
}

/// A promise created past its deadline is in its timeout state, with its
/// creation and its settlement at the deadline; any other is pending.
pub proof fn a_promise_past_its_deadline_is_created_settled(
    data: CreateView,
    created_at: Option<i64>,
    now: i64,
)
    ensures
        ({
            let promise = created_row(data, created_at, now).record;
            if now >= data.timeout_at {
                &&& promise.state == promise.timeout_state()
                &&& !promise.is_pending()
                &&& promise.created_at == data.timeout_at
                &&& promise.settled_at == Some(data.timeout_at)
            } else {
                promise.is_pending() && promise.settled_at is None
            }
        }),
{
}

/// Whether one point of a request has the same effects as another.
pub open spec fn same_effects(a: TxnView, b: TxnView) -> bool {
    a.writes == b.writes && a.enqueues == b.enqueues && a.after == b.after
}

/// A fulfil that is refused settles nothing: it ends in the settlement of the
/// task's claim, or without a commit, or with no effect but that of the
/// deadline of the task's promise.
pub proof fn a_refused_fulfil_settles_nothing(
    w: World,
    t: TxnView,
    id: Text,
    version: i64,
    settle: SettleView,
)
    ensures
        ({
            let end = fulfilling(w, t, id, version, settle);
            end.1 is Settle || end.1 is Reply || same_effects(end.0, due(w, t, id))
        }),
{
}

/// A fulfil after a lost lease is answered with a version conflict, and settles
/// nothing.
pub proof fn a_fulfil_after_a_lost_lease_is_refused(
    w: World,
    t: TxnView,
    id: Text,
    version: i64,
    settle: SettleView,
)
    requires
        valid(w, t),
        ({
            let read = due(w, t, id).read_task(id);
            read.task(w, id) is Some && !read.read_promise(id).holds(w)
        }),
    ensures
        ({
            let end = fulfilling(w, t, id, version, settle);
            end.1 == OutcomeView::Commit(stale_version()) && same_effects(end.0, due(w, t, id))
        }),
{
    let timed = due(w, t, id);
    let read = timed.read_task(id);
    deadlines_are_applied(w, t, seq![id]);
    assert(agree(id, timed.promise(w, id), timed.task(w, id)));
    assert(read.task(w, id) == timed.task(w, id));
    assert(read.promise(w, id) == timed.promise(w, id));
}

/// A fulfil settles the claim of its task only while the task is acquired at
/// the worker's version.
pub proof fn only_the_holder_fulfils(
    w: World,
    t: TxnView,
    id: Text,
    version: i64,
    settle: SettleView,
)
    requires
        fulfilling(w, t, id, version, settle).1 is Settle,
    ensures
        due(w, t, id).task(w, id) matches Some(task) && task.is_acquired_at(version),
{
}

/// The items before the end of a filter are those that its predicate keeps.
proof fn filter_split<T>(items: Seq<T>, n: int, keep: spec_fn(T) -> bool, narrow: spec_fn(T) -> bool)
    requires
        0 <= n <= items.filter(keep).len(),
        forall|item: T| #[trigger] narrow(item) ==> keep(item),
        forall|i: int|
            0 <= i < items.filter(keep).len() ==> narrow(#[trigger] items.filter(keep)[i]) == (n
                <= i),
    ensures
        items.filter(narrow) == items.filter(keep).skip(n),
{
    filter_twice(items, keep, narrow);
    let kept = items.filter(keep);
    assert(kept =~= kept.take(n) + kept.skip(n));
    Seq::filter_distributes_over_add(kept.take(n), kept.skip(n), narrow);
    filter_none(kept.take(n), narrow);
    filter_all(kept.skip(n), narrow);
    assert(Seq::<T>::empty() + kept.skip(n) =~= kept.skip(n));
}

/// Filtering by a narrower predicate after a wider one is filtering by the
/// narrower one.
proof fn filter_twice<T>(items: Seq<T>, keep: spec_fn(T) -> bool, narrow: spec_fn(T) -> bool)
    requires
        forall|item: T| #[trigger] narrow(item) ==> keep(item),
    ensures
        items.filter(keep).filter(narrow) == items.filter(narrow),
    decreases items.len(),
{
    reveal(Seq::filter);
    if items.len() > 0 {
        let short = items.drop_last();
        let last = items.last();
        filter_twice(short, keep, narrow);
        if keep(last) {
            let kept = short.filter(keep).push(last);
            assert(kept.drop_last() =~= short.filter(keep));
            assert(kept.last() == last);
        }
    }
}

/// A filter that keeps nothing is empty.
proof fn filter_none<T>(items: Seq<T>, keep: spec_fn(T) -> bool)
    requires
        forall|i: int| 0 <= i < items.len() ==> !keep(#[trigger] items[i]),
    ensures
        items.filter(keep) == Seq::<T>::empty(),
    decreases items.len(),
{
    reveal(Seq::filter);
    if items.len() > 0 {
        assert forall|i: int| 0 <= i < items.drop_last().len() implies !keep(
            #[trigger] items.drop_last()[i],
        ) by {
            assert(items.drop_last()[i] == items[i]);
        }
        filter_none(items.drop_last(), keep);
        assert(items[items.len() - 1] == items.last());
    } else {
        assert(items =~= Seq::<T>::empty());
    }
}

/// A filter that keeps everything changes nothing.
pub proof fn filter_all<T>(items: Seq<T>, keep: spec_fn(T) -> bool)
    requires
        forall|i: int| 0 <= i < items.len() ==> keep(#[trigger] items[i]),
    ensures
        items.filter(keep) == items,
    decreases items.len(),
{
    reveal(Seq::filter);
    if items.len() > 0 {
        assert forall|i: int| 0 <= i < items.drop_last().len() implies keep(
            #[trigger] items.drop_last()[i],
        ) by {
            assert(items.drop_last()[i] == items[i]);
        }
        filter_all(items.drop_last(), keep);
        assert(items[items.len() - 1] == items.last());
        assert(items =~= items.drop_last().push(items.last()));
    }
}

/// A filter keeps the order of what it keeps.
pub proof fn filter_ordered<T>(items: Seq<T>, id: spec_fn(T) -> Text, keep: spec_fn(T) -> bool)
    requires
        forall|i: int, j: int|
            0 <= i < j < items.len() ==> text_lt(id(#[trigger] items[i]), id(#[trigger] items[j])),
    ensures
        forall|i: int, j: int|
            0 <= i < j < items.filter(keep).len() ==> text_lt(
                id(#[trigger] items.filter(keep)[i]),
                id(#[trigger] items.filter(keep)[j]),
            ),
        forall|i: int|
            0 <= i < items.filter(keep).len() ==> items.contains(#[trigger] items.filter(keep)[i]),
    decreases items.len(),
{
    reveal(Seq::filter);
    if items.len() > 0 {
        let short = items.drop_last();
        let last = items.last();
        assert forall|i: int, j: int| 0 <= i < j < short.len() implies text_lt(
            id(#[trigger] short[i]),
            id(#[trigger] short[j]),
        ) by {
            assert(short[i] == items[i] && short[j] == items[j]);
        }
        filter_ordered(short, id, keep);
        let kept = items.filter(keep);
        let fewer = short.filter(keep);
        assert forall|i: int| 0 <= i < kept.len() implies items.contains(#[trigger] kept[i]) by {
            if i < fewer.len() {
                assert(short.contains(fewer[i]));
                let k = short.index_of(fewer[i]);
                assert(items[k] == fewer[i]);
            } else {
                assert(items[items.len() - 1] == last);
            }
        }
        assert forall|i: int, j: int| 0 <= i < j < kept.len() implies text_lt(
            id(#[trigger] kept[i]),
            id(#[trigger] kept[j]),
        ) by {
            if j == fewer.len() {
                assert(short.contains(fewer[i]));
                let k = short.index_of(fewer[i]);
                assert(items[k] == fewer[i]);
                assert(items[items.len() - 1] == last);
            } else {
                assert(kept[i] == fewer[i] && kept[j] == fewer[j]);
            }
        }
    }
}

/// The pages of a search partition its results: over items in id order, what
/// remains after a page is exactly what the next page's cursor leaves, so that
/// walking the cursors gives every item once and in order.
pub proof fn pages_partition_the_results<T>(
    items: Seq<T>,
    id: spec_fn(T) -> Text,
    cursor: Option<Text>,
    limit: usize,
)
    requires
        limit > 0,
        forall|i: int, j: int|
            0 <= i < j < items.len() ==> text_lt(id(#[trigger] items[i]), id(#[trigger] items[j])),
    ensures
        ({
            let (page, next) = page_of(items, id, cursor, limit);
            &&& next is Some ==> remaining(items, id, cursor) == page + remaining(items, id, next)
                && page.len() == limit
            &&& next is None ==> remaining(items, id, cursor) == page
        }),
{
    let keep = |item: T| follows(cursor, id(item));
    let rest = items.filter(keep);
    let (page, next) = page_of(items, id, cursor, limit);
    filter_ordered(items, id, keep);
    if rest.len() > limit {
        let last = id(rest[limit - 1]);
        let narrow = |item: T| follows(Some(last), id(item));
        assert(next == Some(last));
        items.lemma_filter_pred(keep, limit - 1);
        assert forall|item: T| #[trigger] narrow(item) implies keep(item) by {
            assert(keep(rest[limit - 1]));
            if cursor is Some {
                text_lt_transitive(cursor->0, last, id(item));
            }
        }
        assert forall|i: int| 0 <= i < rest.len() implies narrow(#[trigger] rest[i]) == (limit
            <= i) by {
            if i < limit - 1 {
                assert(text_lt(id(rest[i]), id(rest[limit - 1])));
                if narrow(rest[i]) {
                    text_lt_transitive(last, id(rest[i]), last);
                    text_lt_irreflexive(last);
                }
            } else if i == limit - 1 {
                text_lt_irreflexive(last);
            } else {
                assert(text_lt(id(rest[limit - 1]), id(rest[i])));
            }
        }
        filter_split(items, limit as int, keep, narrow);
        assert(rest =~= rest.take(limit as int) + rest.skip(limit as int));
    }
}

/// A fence whose task is not acquired at the worker's version does nothing but
/// apply the deadlines of the promises it names.
pub proof fn a_stale_fence_does_nothing(
    w: World,
    t: TxnView,
    data: TaskFenceData,
    corr_id: Text,
    action_id: Text,
    target_is_url: bool,
)
    requires
        ({
            let timed = all_timed_out(w, t, seq![data.id@, action_id]);
            timed.task(w, data.id@) matches Some(task) ==> !task.is_acquired_at(data.version)
        }),
    ensures
        ({
            let end = fencing(w, t, data, corr_id, action_id, target_is_url);
            &&& end.1 matches OutcomeView::Commit(ReplyView::Error(status, _)) && (status == 404
                || status == 409)
            &&& same_effects(end.0, all_timed_out(w, t, seq![data.id@, action_id]))
        }),
{
}

/// A suspension that is refused suspends nothing: unless it settles the claim
/// of its task or lets it go on, it has no effect but that of the deadlines of
/// the promises it names, or is not committed.
pub proof fn a_refused_suspension_suspends_nothing(
    w: World,
    t: TxnView,
    id: Text,
    version: i64,
    ids: Seq<Text>,
)
    ensures
        ({
            let end = suspending(w, t, id, version, ids);
            match end.1 {
                OutcomeView::Commit(ReplyView::Error(_, _)) => same_effects(
                    end.0,
                    all_timed_out(w, t, seq![id] + ids),
                ),
                _ => true,
            }
        }),
{
    let read = all_timed_out(w, t, seq![id] + ids).read_task(id);
    if let Some(task) = all_timed_out(w, t, seq![id] + ids).task(w, id) {
        gathered_keeps(w, read.after_holds(w, task.id), ids);
    }
}

/// A task that goes on, because a promise it would await is settled, stays
/// acquired as it is, with nothing left unobserved.
pub proof fn a_task_that_goes_on_has_observed_everything(
    w: World,
    t: TxnView,
    id: Text,
    version: i64,
    ids: Seq<Text>,
)
    requires
        valid(w, t),
    ensures
        ({
            let end = suspending(w, t, id, version, ids);
            end.1 matches OutcomeView::Commit(ReplyView::Data(300, _)) ==> all_timed_out(
                w,
                t,
                seq![id] + ids,
            ).task(w, id) matches Some(task) && task.is_acquired_at(version) && end.0.task(w, id)
                == Some(observed(task))
        }),
{
    let timed = all_timed_out(w, t, seq![id] + ids);
    deadlines_are_applied(w, t, seq![id] + ids);
    assert(agree(id, timed.promise(w, id), timed.task(w, id)));
}

/// The dispatch of a pending promise's new task is one job on the queue of its
/// target, under the id that the task records.
pub proof fn a_new_task_is_dispatched_to_its_target(
    w: World,
    t: TxnView,
    data: CreateView,
    created_at: Option<i64>,
    mode: ModeView,
)
    requires
        data.tags.contains_key(TAG_TARGET@),
        t.now < data.timeout_at,
    ensures
        ({
            let after = created(w, t, data, created_at, mode);
            let job = after.enqueues[t.enqueues.len() as int];
            &&& after.enqueues.len() > t.enqueues.len()
            &&& job.queue == data.tags[TAG_TARGET@]
            &&& job.payload == PayloadView::Execute(data.id)
            &&& after.task(w, data.id) matches Some(task) && task.job == job.job && task.job
                is Some && task.target == job.queue
        }),
{
}

/// The job of a timer that fires at `time`.
pub open spec fn timer_job(timer: TimerView, time: i64) -> EnqueueView {
    EnqueueView {
        queue: TIMER_QUEUE@,
        payload: PayloadView::Timer(timer),
        job: None,
        run_at: Some(at_least_zero(time)),
    }
}

/// The deadline of every new promise that a task can await is a timer.
pub proof fn a_new_promise_has_its_deadline_scheduled(
    w: World,
    t: TxnView,
    data: CreateView,
    created_at: Option<i64>,
    mode: ModeView,
)
    requires
        created_row(data, created_at, t.now).record.is_external(),
        t.now < data.timeout_at,
    ensures
        created(w, t, data, created_at, mode).enqueues.last() == timer_job(
            TimerView::PromiseTimeout(data.id),
            data.timeout_at,
        ),
{
}

/// The next firing of a schedule is a timer, from its creation on and after
/// every firing, as long as it fires again.
pub proof fn a_schedule_has_its_next_firing_scheduled(
    w: World,
    t: TxnView,
    data: ScheduleCreateView,
    next: i64,
    schedule: ScheduleView,
)
    ensures
        t.schedule(w, data.id) is None ==> {
            let after = scheduling(w, t, data, Some(next)).0;
            &&& after.schedule(w, data.id) matches Some(made) && made.next_run_at == next
            &&& after.enqueues == t.enqueues.push(
                timer_job(TimerView::Schedule(data.id, next), next),
            )
        },
        cron_next(schedule.cron, schedule.next_run_at) matches Some(later) ==> {
            let after = fired(w, t, schedule);
            &&& after.schedule(w, schedule.id) matches Some(kept) && kept.next_run_at == later
            &&& after.enqueues.last() == timer_job(TimerView::Schedule(schedule.id, later), later)
        },
{
}

/// A delivered execute message carries the stored version of a pending task,
/// and the job's claim is held for the task.
pub proof fn a_delivery_sends_the_stored_version(w: World, t: TxnView, id: Text, version: i64)
    requires
        valid(w, t),
        delivered(w, t, DeliveryView::Execute(id)).1 == Some(MessageView::Execute(id, version)),
    ensures
        ({
            let after = delivered(w, t, DeliveryView::Execute(id)).0;
            &&& after.task(w, id) matches Some(task) && task.state == TaskState::Pending
                && task.version == version
            &&& after.after.len() > 0 && after.after.last() == AfterView::Hold(id)
        }),
{
    let timed = due(w, t, id);
    deadlines_are_applied(w, t, seq![id]);
    assert(agree(id, timed.promise(w, id), timed.task(w, id)));
}

/// The job of a task that waits for no delivery is stale: its delivery sends
/// nothing, changes no record and acknowledges the job.
pub proof fn a_stale_job_is_dropped_at_its_delivery(w: World, t: TxnView, id: Text)
    requires
        due(w, t, id).task(w, id) matches Some(task) ==> task.state != TaskState::Pending
            && task.state != TaskState::Acquired,
    ensures
        ({
            let end = delivered(w, t, DeliveryView::Execute(id));
            &&& end.1 is None
            &&& end.0.writes == due(w, t, id).writes
            &&& end.0.enqueues == due(w, t, id).enqueues
            &&& end.0.after == due(w, t, id).after.push(AfterView::Ack)
        }),
{
}

/// A released task is pending at its version, and its job is delivered again.
pub proof fn a_released_task_is_delivered_again(w: World, t: TxnView, id: Text, version: i64)
    requires
        valid(w, t),
        due(w, t, id).task(w, id) matches Some(task) && task.is_acquired_at(version),
    ensures
        ({
            let end = task_releasing(w, t, id, version);
            &&& end.1 == OutcomeView::Commit(ReplyView::Data(200, ReplyDataView::Empty))
            &&& end.0.task(w, id) matches Some(task) && task.state == TaskState::Pending
                && task.version == version && task.pid is None
            &&& end.0.after.len() > 0 && end.0.after.last() == AfterView::Nack(id)
        }),
{
    let timed = due(w, t, id);
    deadlines_are_applied(w, t, seq![id]);
    assert(agree(id, timed.promise(w, id), timed.task(w, id)));
}

/// A fired schedule's promise exists after the firing, whether the firing or an
/// earlier one created it, and the schedule records the firing.
pub proof fn a_firing_leaves_its_promise(w: World, t: TxnView, schedule: ScheduleView)
    requires
        valid(w, t),
    ensures
        ({
            let after = fired(w, t, schedule);
            &&& after.promise(w, fired_id(schedule)) is Some
            &&& t.promise(w, fired_id(schedule)) matches Some(row) ==> after.promise(
                w,
                fired_id(schedule),
            ) == Some(row)
            &&& after.schedule(w, schedule.id) matches Some(next) && next.last_run_at == Some(
                schedule.next_run_at,
            ) && next.cron == schedule.cron
        }),
{
    let id = fired_id(schedule);
    let made = fired_promise(w, t, schedule);
    if t.promise(w, id) is None {
        let read = t.read_promise(id);
        same_writes_keep(w, t, read);
        created_keeps(
            w,
            read,
            fired_data(schedule),
            Some(schedule.next_run_at),
            ModeView::Dispatch,
        );
    }
    assert(fired(w, t, schedule).promise(w, id) == made.promise(w, id));
}

/// A schedule that exists is not created again: a request to create it gives
/// the schedule that is there and commits nothing.
pub proof fn schedule_creation_is_idempotent(
    w: World,
    t: TxnView,
    data: ScheduleCreateView,
    next: Option<i64>,
    schedule: ScheduleView,
)
    requires
        t.schedule(w, data.id) == Some(schedule),
    ensures
        scheduling(w, t, data, next).1 == OutcomeView::Reply(schedule_reply(schedule)),
        same_effects(scheduling(w, t, data, next).0, t),
{
}

} // verus!
