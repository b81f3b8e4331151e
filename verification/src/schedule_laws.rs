//! What the operations on schedules and the timers do, told by the stored records
//! and the fields of the request.

use vstd::prelude::*;
use crate::calls::{at, World};
use crate::consequences::{
    a_settlement_has_its_consequences, by_deadline, orderly, settles_to, untouched,
};
use crate::creation::{created, fired_data, ModeView};
use crate::cron::cron_next;
use crate::data::{CreateView, IdData, ScheduleCreateData, ScheduleCreateView};
use crate::envelope::{ReplyDataView, ReplyView};
use crate::kernel::{performed, OperationData};
use crate::keys::KeyView;
use crate::outcome::OutcomeView;
use crate::promise_laws::{a_creation_has_its_effects, creates, new_promise, target_in_order};
use crate::records::{
    PromiseState, PromiseView, ScheduleView, StoredPromiseView, TagMap, Text, ValueView,
};

use crate::text::{decimal, replaced};
use crate::timers::{acts, fired_timer, TimerView};
use crate::txn::{EnqueueView, PayloadView, RowView, TxnView};

verus! {

/// Whether a schedule can be created.
pub open spec fn schedule_acceptable(data: ScheduleCreateView) -> bool {
    &&& data.id.len() > 0
    &&& !data.id.contains(':')
    &&& data.promise_tags.contains_key("resonate:target"@)
    &&& target_in_order(data.promise_tags)
    &&& data.promise_timeout >= 0
}

/// Whether `message` names the first rule that a schedule to create breaks.
pub open spec fn names_a_schedule_fault(data: ScheduleCreateView, message: Text) -> bool {
    if data.id.len() == 0 {
        message == "Schedule ID is required"@
    } else if data.id.contains(':') {
        message == "Schedule ID must not contain ':'"@
    } else if !data.promise_tags.contains_key("resonate:target"@) {
        message == "resonate:target tag is required"@
    } else if !target_in_order(data.promise_tags) {
        message == "Invalid resonate:target address"@
    } else {
        message == "Promise timeout must not be negative"@ && data.promise_timeout < 0
    }
}

/// The timer of a firing of the schedule `id` at `time`.
pub open spec fn firing_job(id: Text, time: i64) -> EnqueueView {
    EnqueueView {
        queue: "resonate/timers"@,
        payload: PayloadView::Timer(TimerView::Schedule(id, time)),
        job: None,
        run_at: Some(
            if time < 0 {
                0
            } else {
                time as u64
            },
        ),
    }
}

/// A reply with one schedule.
pub open spec fn with_schedule(schedule: ScheduleView) -> ReplyView {
    ReplyView::Data(200, ReplyDataView::Schedule(schedule))
}

/// A request to create a schedule that can be created gives the schedule that
/// exists, or creates one with the fields of the request, the time of the request
/// as its creation and the expression's first time after it as its next firing,
/// whose timer is enqueued. An expression that never fires again is refused, as is
/// a schedule that cannot be created, and then nothing changes.
pub proof fn creating_a_schedule(
    w: World,
    preload_limit: usize,
    now: i64,
    corr_id: Text,
    data: ScheduleCreateData,
)
    ensures
        ({
            let end = performed(
                w,
                TxnView::start(preload_limit, now),
                corr_id,
                OperationData::ScheduleCreate(data),
            );
            if !schedule_acceptable(data@) {
                &&& untouched(end.0)
                &&& end.1 matches OutcomeView::Reply(ReplyView::Error(status, message)) && status
                    == 400 && names_a_schedule_fault(data@, message)
            } else {
                match at(w.schedules, data.id@) {
                    Some(existing) => untouched(end.0) && end.1 == OutcomeView::Reply(
                        with_schedule(existing),
                    ),
                    None => match cron_next(data.cron@, now) {
                        None => untouched(end.0) && end.1 == OutcomeView::Reply(
                            ReplyView::Error(400, "Invalid cron expression"@),
                        ),
                        Some(next) => {
                            let schedule = ScheduleView {
                                id: data.id@,
                                cron: data.cron@,
                                promise_id: data.promise_id@,
                                promise_timeout: data.promise_timeout,
                                promise_param: data.promise_param@,
                                promise_tags: data.promise_tags@,
                                created_at: now,
                                next_run_at: next,
                                last_run_at: None,
                            };
                            &&& end.1 == OutcomeView::Commit(with_schedule(schedule))
                            &&& end.0.writes == map![
                                KeyView::Schedule(data.id@) => Some(RowView::Schedule(schedule)),
                            ]
                            &&& end.0.enqueues == seq![firing_job(data.id@, next)]
                            &&& end.0.after.len() == 0
                        },
                    },
                }
            }
        }),
{
    let t = TxnView::start(preload_limit, now);
    let end = performed(w, t, corr_id, OperationData::ScheduleCreate(data));
    if schedule_acceptable(data@) && at(w.schedules, data.id@) is None {
        if let Some(next) = cron_next(data.cron@, now) {
            assert(end.0.enqueues =~= seq![firing_job(data.id@, next)]);
        }
    }
}

/// A request for a schedule gives its record and changes nothing.
pub proof fn getting_a_schedule(
    w: World,
    preload_limit: usize,
    now: i64,
    corr_id: Text,
    data: IdData,
)
    ensures
        ({
            let end = performed(
                w,
                TxnView::start(preload_limit, now),
                corr_id,
                OperationData::ScheduleGet(data),
            );
            &&& untouched(end.0)
            &&& end.1 == OutcomeView::Reply(
                match at(w.schedules, data.id@) {
                    Some(schedule) => with_schedule(schedule),
                    None => ReplyView::Error(404, "Schedule not found"@),
                },
            )
        }),
{
}

/// A request to delete a schedule deletes its record and nothing else.
pub proof fn deleting_a_schedule(
    w: World,
    preload_limit: usize,
    now: i64,
    corr_id: Text,
    data: IdData,
)
    ensures
        ({
            let end = performed(
                w,
                TxnView::start(preload_limit, now),
                corr_id,
                OperationData::ScheduleDelete(data),
            );
            match at(w.schedules, data.id@) {
                None => untouched(end.0) && end.1 == OutcomeView::Reply(
                    ReplyView::Error(404, "Schedule not found"@),
                ),
                Some(_) => {
                    &&& end.1 == OutcomeView::Commit(ReplyView::Data(200, ReplyDataView::Empty))
                    &&& end.0.writes == map![
                        KeyView::Schedule(data.id@) => None::<RowView>,
                    ]
                    &&& end.0.enqueues.len() == 0
                    &&& end.0.after.len() == 0
                },
            }
        }),
{
}

/// A timer acts where its promise is pending, or where its firing is the next of
/// its schedule.
pub proof fn a_timer_acts_in_its_time(w: World, preload_limit: usize, now: i64, id: Text, time: i64)
    ensures
        acts(w, TxnView::start(preload_limit, now), TimerView::PromiseTimeout(id)) <==> (at(
            w.promises,
            id,
        ) matches Some(row) && row.record.state == PromiseState::Pending),
        acts(w, TxnView::start(preload_limit, now), TimerView::Schedule(id, time)) <==> (at(
            w.schedules,
            id,
        ) matches Some(schedule) && schedule.next_run_at == time),
{
}

/// The timer of a promise's deadline settles a pending promise by its deadline,
/// with all that the settlement brings about. Where the promise is settled, or
/// does not exist, the timer does nothing.
pub proof fn a_deadline_fires(w: World, preload_limit: usize, now: i64, id: Text)
    requires
        orderly(w),
    ensures
        ({
            let end = fired_timer(
                w,
                TxnView::start(preload_limit, now),
                TimerView::PromiseTimeout(id),
            );
            match at(w.promises, id) {
                Some(row) => if row.record.state == PromiseState::Pending {
                    settles_to(w, end, now, row, by_deadline(row.record))
                } else {
                    untouched(end)
                },
                None => untouched(end),
            }
        }),
{
    let t = TxnView::start(preload_limit, now);
    if let Some(row) = at(w.promises, id) {
        if row.record.state == PromiseState::Pending {
            a_settlement_has_its_consequences(
                w,
                t.read_promise(id),
                row,
                by_deadline(row.record),
            );
        }
    }
}

/// The time `ms` after `time`, kept within the numbers.
pub open spec fn time_after(time: i64, ms: i64) -> i64 {
    if time + ms > i64::MAX {
        i64::MAX
    } else if time + ms < i64::MIN {
        i64::MIN
    } else {
        (time + ms) as i64
    }
}

/// The id of the promise of a firing at `time`: the template with the id of the
/// schedule and the time in their places.
pub open spec fn firing_id(schedule: ScheduleView, time: i64) -> Text {
    replaced(
        replaced(schedule.promise_id, "{{.id}}"@, schedule.id),
        "{{.timestamp}}"@,
        decimal(time as int),
    )
}

/// Whether `tags` are those of the promise `id` that a firing of a schedule
/// creates: the schedule's id and the promise's own as its lineage, and besides
/// them the tags of the schedule.
pub open spec fn firing_tags(tags: TagMap, schedule: ScheduleView, id: Text) -> bool {
    let lineage = set![
        "resonate:origin"@,
        "resonate:branch"@,
        "resonate:parent"@,
        "resonate:prefix"@,
    ];
    &&& tags.contains_key("resonate:schedule"@) && tags["resonate:schedule"@] == schedule.id
    &&& forall|tag: Text| #[trigger]
        lineage.contains(tag) ==> tags.contains_key(tag) && tags[tag] == id
    &&& forall|tag: Text|
        tag != "resonate:schedule"@ && !lineage.contains(tag) ==> (#[trigger] tags.contains_key(
            tag,
        ) <==> schedule.promise_tags.contains_key(tag)) && (schedule.promise_tags.contains_key(tag)
            ==> tags[tag] == schedule.promise_tags[tag])
}

/// Whether `promise` is the promise that a firing of `schedule` at `time` creates
/// at `now`, before its deadline or past it.
pub open spec fn firing_record(
    promise: PromiseView,
    schedule: ScheduleView,
    time: i64,
    now: i64,
) -> bool {
    let deadline = time_after(time, schedule.promise_timeout);
    &&& promise.id == firing_id(schedule, time)
    &&& promise.param == schedule.promise_param
    &&& promise.value == (ValueView { headers: None, data: None })
    &&& firing_tags(promise.tags, schedule, promise.id)
    &&& promise.timeout_at == deadline
    &&& if now < deadline {
        promise.state == PromiseState::Pending && promise.created_at == time
            && promise.settled_at is None
    } else {
        promise.created_at == deadline && promise.settled_at == Some(deadline) && promise.state
            == (if promise.tags.contains_key("resonate:timer"@) && promise.tags["resonate:timer"@]
            == "true"@ {
            PromiseState::Resolved
        } else {
            PromiseState::RejectedTimedout
        })
    }
}

/// Whether the timer of the firing of `schedule` at its next time advances it: the
/// schedule has fired at that time, fires next at the expression's first time
/// after it, if there is one, and is otherwise as it was.
pub open spec fn advances(t: TxnView, schedule: ScheduleView) -> bool {
    let next = cron_next(schedule.cron, schedule.next_run_at);
    t.writes.contains_pair(
        KeyView::Schedule(schedule.id),
        Some(
            RowView::Schedule(
                ScheduleView {
                    last_run_at: Some(schedule.next_run_at),
                    next_run_at: match next {
                        Some(next) => next,
                        None => schedule.next_run_at,
                    },
                    ..schedule
                },
            ),
        ),
    )
}

/// The timers that the firing of `schedule` at its next time enqueues.
pub open spec fn next_firing(schedule: ScheduleView) -> Seq<EnqueueView> {
    match cron_next(schedule.cron, schedule.next_run_at) {
        Some(next) => seq![firing_job(schedule.id, next)],
        None => Seq::empty(),
    }
}

/// The timer of the next firing of a schedule advances the schedule, enqueues the
/// timer of the firing that follows, and creates the promise of the firing unless
/// it exists: with the schedule's parameter, its tags, the promise's lineage, the
/// time of the firing as its creation, and the schedule's timeout after that time
/// as its deadline. Its task is dispatched as that of a promise that a request
/// creates. A timer of another firing does nothing.
pub proof fn a_schedule_fires(w: World, preload_limit: usize, now: i64, id: Text, time: i64)
    requires
        orderly(w),
        at(w.schedules, id) matches Some(schedule) ==> schedule.id == id,
    ensures
        ({
            let end = fired_timer(
                w,
                TxnView::start(preload_limit, now),
                TimerView::Schedule(id, time),
            );
            match at(w.schedules, id) {
                None => untouched(end),
                Some(schedule) => if schedule.next_run_at != time {
                    untouched(end)
                } else {
                    let own = KeyView::Schedule(id);
                    let named = firing_id(schedule, time);
                    &&& advances(end, schedule)
                    &&& end.after.len() == 0
                    &&& if at(w.promises, named) is Some {
                        &&& end.promise(w, named) == at(w.promises, named)
                        &&& end.writes.dom() =~= set![own]
                        &&& end.enqueues =~= next_firing(schedule)
                    } else {
                        &&& end.promise(w, named) matches Some(row) && firing_record(
                            row.record,
                            schedule,
                            time,
                            now,
                        ) && row.callbacks.len() == 0 && row.listeners.len() == 0 && fires_with(
                            w,
                            end,
                            schedule,
                            row.record,
                            now,
                        )
                    }
                },
            }
        }),
{
    let t = TxnView::start(preload_limit, now);
    let end = fired_timer(w, t, TimerView::Schedule(id, time));
    if let Some(schedule) = at(w.schedules, id) {
        if schedule.next_run_at == time {
            let data = fired_data(schedule);
            let named = firing_id(schedule, time);
            let read = t.read_schedule(id).read_promise(named);
            assert(data.id == named);
            if at(w.promises, named) is None {
                let made = created(w, read, data, Some(time), ModeView::Dispatch);
                a_creation_has_its_effects(w, read, data, Some(time));
                let promise = new_promise(data, time, now);
                assert(end.writes.remove(KeyView::Schedule(id)) =~= made.writes);
                assert(end.enqueues =~= made.enqueues + next_firing(schedule));
                assert(end.promise(w, named) == Some(
                    StoredPromiseView {
                        record: promise,
                        callbacks: Seq::empty(),
                        listeners: Seq::empty(),
                    },
                ));
                assert(firing_tags(promise.tags, schedule, promise.id)) by {
                    reveal_strlit("resonate:schedule");
                    reveal_strlit("resonate:origin");
                    reveal_strlit("resonate:branch");
                    reveal_strlit("resonate:parent");
                    reveal_strlit("resonate:prefix");
                    assert("resonate:schedule"@.len() == 17);
                    assert("resonate:origin"@.len() == 15);
                    assert("resonate:branch"@.len() == 15);
                    assert("resonate:parent"@.len() == 15);
                    assert("resonate:prefix"@.len() == 15);
                    assert(promise.tags == data.tags);
                    assert(promise.tags["resonate:schedule"@] == schedule.id);
                }
                let rest = TxnView {
                    writes: end.writes.remove(KeyView::Schedule(id)),
                    enqueues: made.enqueues,
                    ..end
                };
                assert(creates(w, rest, data, time, now));
                assert(end.enqueues.take(made.enqueues.len() as int) =~= made.enqueues);
                let asked_for = CreateView {
                    id: promise.id,
                    timeout_at: promise.timeout_at,
                    param: promise.param,
                    tags: promise.tags,
                };
                assert(asked_for == data);
            }
        }
    }
}

/// Whether a request that fired `schedule` created `promise` as a request for it
/// would, and but for that only advanced the schedule.
pub open spec fn fires_with(
    w: World,
    t: TxnView,
    schedule: ScheduleView,
    promise: PromiseView,
    now: i64,
) -> bool {
    let jobs = next_firing(schedule);
    let data = CreateView {
        id: promise.id,
        timeout_at: promise.timeout_at,
        param: promise.param,
        tags: promise.tags,
    };
    &&& t.enqueues.len() >= jobs.len()
    &&& t.enqueues == t.enqueues.take(t.enqueues.len() - jobs.len()) + jobs
    &&& creates(
        w,
        TxnView {
            writes: t.writes.remove(KeyView::Schedule(schedule.id)),
            enqueues: t.enqueues.take(t.enqueues.len() - jobs.len()),
            ..t
        },
        data,
        schedule.next_run_at,
        now,
    )
}

} // verus!
