//! The creation of promises, by a request or by the firing of a schedule.

use vstd::prelude::*;
use crate::calls::{Call, CallView, World};
use crate::cron::{cron_next, next_after, searchable};
use crate::data::{CreateView, PromiseCreateData};
use crate::records::{
    PromiseRecord, PromiseState, PromiseValue, PromiseView, ScheduleRecord, ScheduleView,
    StoredPromise, StoredPromiseView, StoredTask, StoredTaskView, TagMap, TaskState, Text, no_value,
    TAG_DELAY,
};
use crate::text::{copied, decimal, i64_text, parse_decimal, parse_i64, replace_text, replaced};
use crate::time::{at_least_zero, later_by, lease_of, millis, saturated};
use crate::timers::{Timer, TimerView};
use crate::txn::{steps, AfterView, Txn, TxnView};

verus! {

/// How a created promise's task starts.
#[derive(Debug, PartialEq, Eq)]
pub enum CreateMode {
    /// A targeted promise's task is pending and its dispatch enqueued, after
    /// `resonate:delay` when the tag's time is in the future.
    Dispatch,
    /// A targeted promise's task is acquired by the caller, by process and
    /// lease in milliseconds: its job is enqueued scheduled at the end of the
    /// lease and claimed after the commit.
    Acquire(String, i64),
}

/// How a created promise's task starts, in contracts.
pub enum ModeView {
    Dispatch,
    Acquire(Text, i64),
}

impl View for CreateMode {
    type V = ModeView;

    open spec fn view(&self) -> ModeView {
        match self {
            CreateMode::Dispatch => ModeView::Dispatch,
            CreateMode::Acquire(pid, ttl) => ModeView::Acquire(pid@, *ttl),
        }
    }
}

/// The promise that `data` creates at `now`. A promise whose deadline has
/// passed is created in its timeout state, with `createdAt` equal to the
/// deadline.
pub open spec fn created_row(data: CreateView, created_at: Option<i64>, now: i64) -> StoredPromiseView {
    let pending = PromiseView {
        id: data.id,
        state: PromiseState::Pending,
        param: data.param,
        value: no_value(),
        tags: data.tags,
        timeout_at: data.timeout_at,
        created_at: if now >= data.timeout_at {
            data.timeout_at
        } else if created_at is Some {
            created_at->0
        } else {
            now
        },
        settled_at: None,
    };
    StoredPromiseView {
        record: if now >= data.timeout_at {
            pending.expired()
        } else {
            pending
        },
        callbacks: Seq::empty(),
        listeners: Seq::empty(),
    }
}

/// The time of a `resonate:delay` tag, where it is in the future.
pub open spec fn delay_of(tags: TagMap, now: i64) -> Option<i64> {
    if tags.contains_key(TAG_DELAY@) {
        match parse_decimal(tags[TAG_DELAY@]) {
            Some(delay) => if now < delay {
                Some(delay)
            } else {
                None
            },
            None => None,
        }
    } else {
        None
    }
}

/// A task acquired with its creation.
pub open spec fn acquired_task(id: Text, target: Text, pid: Text, ttl: i64) -> StoredTaskView {
    StoredTaskView {
        version: 1,
        pid: Some(pid),
        ttl: Some(ttl),
        ..StoredTaskView::fresh(id, target, TaskState::Acquired)
    }
}

/// The request after it created the task of a pending promise with `target`.
pub open spec fn task_created(
    w: World,
    t: TxnView,
    promise: PromiseView,
    target: Text,
    mode: ModeView,
) -> TxnView {
    match mode {
        ModeView::Acquire(pid, ttl) => {
            let task = acquired_task(promise.id, target, pid, ttl);
            t.dispatch(w, task, Some(saturated(t.now, ttl))).later(
                AfterView::Claim(promise.id, (w.job_ids)(t.jobs), millis(at_least_zero(ttl))),
            )
        },
        ModeView::Dispatch => t.dispatch(
            w,
            StoredTaskView::fresh(promise.id, target, TaskState::Pending),
            delay_of(promise.tags, t.now),
        ),
    }
}

/// The request after it created the promise of `data`: the promise is written
/// and indexed, the task of a targeted promise is created, and the deadline of
/// a promise that a task can await is scheduled.
pub open spec fn created(
    w: World,
    t: TxnView,
    data: CreateView,
    created_at: Option<i64>,
    mode: ModeView,
) -> TxnView {
    let row = created_row(data, created_at, t.now);
    let promise = row.record;
    let written = t.index_branch(promise).put_promise(row);
    let tasked = match promise.target() {
        Some(target) => if promise.is_pending() {
            task_created(w, written, promise, target, mode)
        } else {
            written.put_task(StoredTaskView::fresh(promise.id, target, TaskState::Fulfilled))
        },
        None => written,
    };
    if promise.is_pending() && promise.is_external() {
        tasked.schedule_timer(TimerView::PromiseTimeout(promise.id), promise.timeout_at)
    } else {
        tasked
    }
}

/// Create the task of a pending promise.
fn create_task(txn: &mut Txn, promise: &PromiseRecord, target: &str, mode: &CreateMode) -> (r:
    Result<(), Call>)
    requires
        old(txn).wf(),
    ensures
        steps(
            *old(txn),
            *final(txn),
            r,
            |w: World| task_created(w, old(txn)@, promise@, target@, mode@),
        ),
{
    let mut task = StoredTask::new(copied(&promise.id), copied(target), TaskState::Pending);
    match mode {
        CreateMode::Acquire(pid, ttl) => {
            task.state = TaskState::Acquired;
            task.version = 1;
            task.pid = Some(copied(pid));
            task.ttl = Some(*ttl);
            txn.dispatch(&mut task, Some(later_by(txn.now, *ttl)))?;
            txn.claim_after_commit(&task, lease_of(*ttl));
        },
        CreateMode::Dispatch => {
            let delay = match promise.tags.get(TAG_DELAY) {
                Some(delay) => match parse_i64(delay) {
                    Some(delay) => if txn.now < delay {
                        Some(delay)
                    } else {
                        None
                    },
                    None => None,
                },
                None => None,
            };
            txn.dispatch(&mut task, delay)?;
        },
    }
    Ok(())
}

/// Create a promise that does not exist. A promise whose deadline has passed is
/// created in its timeout state, with `createdAt` equal to the deadline.
pub fn create_promise(
    txn: &mut Txn,
    data: &PromiseCreateData,
    created_at: Option<i64>,
    mode: &CreateMode,
) -> (r: Result<StoredPromise, Call>)
    requires
        old(txn).wf(),
    ensures
        steps(
            *old(txn),
            *final(txn),
            r,
            |w: World| created(w, old(txn)@, data@, created_at, mode@),
        ),
        r matches Ok(promise) ==> promise@ == created_row(data@, created_at, old(txn)@.now),
{
    let now: i64 = txn.now;
    let already = now >= data.timeout_at;
    let mut promise = StoredPromise {
        record: PromiseRecord {
            id: copied(&data.id),
            state: PromiseState::Pending,
            param: data.param.clone(),
            value: PromiseValue::default(),
            tags: data.tags.clone(),
            timeout_at: data.timeout_at,
            created_at: if already {
                data.timeout_at
            } else {
                match created_at {
                    Some(created_at) => created_at,
                    None => now,
                }
            },
            settled_at: None,
        },
        callbacks: Vec::new(),
        listeners: Vec::new(),
    };
    if already {
        promise.record.state = promise.record.timeout_state();
        promise.record.settled_at = Some(data.timeout_at);
    }
    assert(promise@.callbacks =~= Seq::<Text>::empty());
    assert(promise@.listeners =~= Seq::<Text>::empty());
    txn.index_branch(&promise.record);
    txn.put_promise(&promise);
    if let Some(target) = promise.record.target() {
        if already {
            let task = StoredTask::new(
                copied(&promise.record.id),
                copied(target),
                TaskState::Fulfilled,
            );
            txn.put_task(&task);
        } else {
            create_task(txn, &promise.record, target, mode)?;
        }
    }
    if promise.record.is_pending() && promise.record.is_external() {
        txn.schedule_timer(
            Timer::PromiseTimeout(copied(&promise.record.id)),
            promise.record.timeout_at,
        );
    }
    Ok(promise)
}

/// A creation keeps the calls a request depends on.
pub broadcast proof fn created_grows(
    w: World,
    t: TxnView,
    data: CreateView,
    created_at: Option<i64>,
    mode: ModeView,
    call: CallView,
)
    requires
        t.asked.contains(call),
    ensures
        #[trigger] created(w, t, data, created_at, mode).asked.contains(call),
{
}

/// The id of the promise that a schedule creates with a firing: its template
/// with the schedule's id and the time of the firing in their places.
pub open spec fn fired_id(schedule: ScheduleView) -> Text {
    replaced(
        replaced(schedule.promise_id, "{{.id}}"@, schedule.id),
        "{{.timestamp}}"@,
        decimal(schedule.next_run_at as int),
    )
}

/// The tags of the promise that a schedule creates with a firing: those of the
/// schedule, the schedule's id, and the promise's own id as its lineage.
pub open spec fn fired_tags(schedule: ScheduleView) -> TagMap {
    let id = fired_id(schedule);
    schedule.promise_tags.insert("resonate:schedule"@, schedule.id).insert(
        "resonate:origin"@,
        id,
    ).insert("resonate:branch"@, id).insert("resonate:parent"@, id).insert("resonate:prefix"@, id)
}

/// The promise that a schedule creates with a firing.
pub open spec fn fired_data(schedule: ScheduleView) -> CreateView {
    CreateView {
        id: fired_id(schedule),
        timeout_at: saturated(schedule.next_run_at, schedule.promise_timeout),
        param: schedule.promise_param,
        tags: fired_tags(schedule),
    }
}

/// The request after it created the promise of a firing, unless it exists.
pub open spec fn fired_promise(w: World, t: TxnView, schedule: ScheduleView) -> TxnView {
    let read = t.read_promise(fired_id(schedule));
    if t.promise(w, fired_id(schedule)) is None {
        created(
            w,
            read,
            fired_data(schedule),
            Some(schedule.next_run_at),
            ModeView::Dispatch,
        )
    } else {
        read
    }
}

/// A schedule after a firing, where `next` is the firing that follows.
pub open spec fn advanced(schedule: ScheduleView, next: Option<i64>) -> ScheduleView {
    ScheduleView {
        last_run_at: Some(schedule.next_run_at),
        next_run_at: if next is Some {
            next->0
        } else {
            schedule.next_run_at
        },
        ..schedule
    }
}

/// The request after it advanced `schedule` by one firing.
pub open spec fn schedule_advanced(t: TxnView, schedule: ScheduleView, next: Option<i64>) -> TxnView {
    let timed = match next {
        Some(next) => t.schedule_timer(TimerView::Schedule(schedule.id, next), next),
        None => t,
    };
    timed.put_schedule(advanced(schedule, next))
}

/// The request after it fired `schedule`.
pub open spec fn fired(w: World, t: TxnView, schedule: ScheduleView) -> TxnView {
    schedule_advanced(
        fired_promise(w, t, schedule),
        schedule,
        cron_next(schedule.cron, schedule.next_run_at),
    )
}

/// Create the promise of a schedule's firing, unless it exists.
pub fn fire_promise(txn: &mut Txn, schedule: &ScheduleRecord) -> (r: Result<(), Call>)
    requires
        old(txn).wf(),
    ensures
        steps(*old(txn), *final(txn), r, |w: World| fired_promise(w, old(txn)@, schedule@)),
{
    broadcast use created_grows;

    proof {
        reveal_strlit("{{.id}}");
        reveal_strlit("{{.timestamp}}");
    }
    let fired_at: i64 = schedule.next_run_at;
    let named = replace_text(&schedule.promise_id, "{{.id}}", &schedule.id);
    let promise_id = replace_text(&named, "{{.timestamp}}", &i64_text(fired_at));
    if txn.get_promise(&promise_id)?.is_none() {
        let mut tags = schedule.promise_tags.clone();
        tags.insert(copied("resonate:schedule"), copied(&schedule.id));
        tags.insert(copied("resonate:origin"), copied(&promise_id));
        tags.insert(copied("resonate:branch"), copied(&promise_id));
        tags.insert(copied("resonate:parent"), copied(&promise_id));
        tags.insert(copied("resonate:prefix"), copied(&promise_id));
        let data = PromiseCreateData {
            id: promise_id,
            timeout_at: later_by(fired_at, schedule.promise_timeout),
            param: schedule.promise_param.clone(),
            tags,
        };
        create_promise(txn, &data, Some(fired_at), &CreateMode::Dispatch)?;
    }
    Ok(())
}

/// Advance a schedule by one firing, where `next` is the firing that follows.
pub fn advance_schedule(txn: &mut Txn, schedule: &ScheduleRecord, next: Option<i64>)
    requires
        old(txn).wf(),
    ensures
        final(txn).facts == old(txn).facts,
        final(txn).wf(),
        final(txn)@ == schedule_advanced(old(txn)@, schedule@, next),
{
    let mut schedule = schedule.clone();
    schedule.last_run_at = Some(schedule.next_run_at);
    if let Some(next) = next {
        schedule.next_run_at = next;
        txn.schedule_timer(Timer::Schedule(copied(&schedule.id), next), next);
    }
    txn.put_schedule(&schedule);
}

/// Fire a schedule at its `nextRunAt`: create the schedule's promise, unless it
/// exists, and advance the schedule by one firing, which is later.
pub fn fire_schedule(txn: &mut Txn, schedule: &ScheduleRecord) -> (r: Result<(), Call>)
    requires
        old(txn).wf(),
        searchable(schedule@.cron, schedule.next_run_at),
    ensures
        steps(*old(txn), *final(txn), r, |w: World| fired(w, old(txn)@, schedule@)),
        r is Ok ==> (cron_next(schedule@.cron, schedule.next_run_at) matches Some(next) ==> next
            > schedule.next_run_at),
{
    fire_promise(txn, schedule)?;
    let next = next_after(&schedule.cron, schedule.next_run_at);
    advance_schedule(txn, schedule, next);
    Ok(())
}

} // verus!
