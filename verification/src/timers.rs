//! The store's timers: scheduled jobs on the timer queue, one per promise
//! deadline and one per schedule firing. A promise timer acts only while its
//! promise is pending, and a schedule timer only while the schedule's next
//! firing is the one the timer was scheduled for, so a timer that outlived its
//! transition ends without effect. Task deadlines are not timers: a task's retry
//! and lease deadlines are the lease of its job.

use vstd::prelude::*;
use crate::calls::{Call, World};
use crate::creation::{created_grows, fire_schedule, fired};
use crate::cron::{is_searchable, searchable};
use crate::records::{ScheduleView, Text};
use crate::settlement::{expire_promise, expired, settled_chain, settled_chain_grows};
use crate::txn::{steps, Txn, TxnView};

verus! {

/// One scheduled deadline.
#[derive(Debug, PartialEq, Eq)]
pub enum Timer {
    /// The `timeoutAt` of a pending promise.
    PromiseTimeout(String),
    /// The firing of a schedule at a time.
    Schedule(String, i64),
}

/// A timer in contracts.
pub enum TimerView {
    PromiseTimeout(Text),
    Schedule(Text, i64),
}

impl View for Timer {
    type V = TimerView;

    open spec fn view(&self) -> TimerView {
        match self {
            Timer::PromiseTimeout(id) => TimerView::PromiseTimeout(id@),
            Timer::Schedule(id, at) => TimerView::Schedule(id@, *at),
        }
    }
}

/// Whether a fired timer acts.
pub open spec fn acts(w: World, t: TxnView, timer: TimerView) -> bool {
    match timer {
        TimerView::PromiseTimeout(id) => match t.promise(w, id) {
            Some(row) => row.record.is_pending(),
            None => false,
        },
        TimerView::Schedule(id, at) => match t.schedule(w, id) {
            Some(schedule) => schedule.next_run_at == at,
            None => false,
        },
    }
}

/// The request after a timer fired.
pub open spec fn fired_timer(w: World, t: TxnView, timer: TimerView) -> TxnView {
    match timer {
        TimerView::PromiseTimeout(id) => {
            let read = t.read_promise(id);
            if acts(w, t, timer) {
                settled_chain(w, read, expired(t.promise(w, id)->0))
            } else {
                read
            }
        },
        TimerView::Schedule(id, at) => {
            let read = t.read_schedule(id);
            if acts(w, t, timer) {
                fired(w, read, t.schedule(w, id)->0)
            } else {
                read
            }
        },
    }
}

/// Whether the schedule of `id` is known to fire at `at`, and the firing after it
/// would be searched for where no search can start.
pub open spec fn schedule_beyond(txn: Txn, id: Text, at: i64) -> bool {
    exists|schedule: ScheduleView| #[trigger]
        txn.knows_schedule(id, Some(schedule)) && schedule.next_run_at == at && !searchable(
            schedule.cron,
            at,
        )
}

/// Whether a timer would search for the firing after its own where no search can
/// start.
pub open spec fn fires_beyond(txn: Txn, timer: TimerView) -> bool {
    match timer {
        TimerView::Schedule(id, at) => schedule_beyond(txn, id, at),
        TimerView::PromiseTimeout(_) => false,
    }
}

/// Whether a timer would search for the firing after its own where no search can
/// start.
pub fn is_beyond(txn: &Txn, timer: &Timer) -> (r: bool)
    ensures
        r == fires_beyond(*txn, timer@),
{
    match timer {
        Timer::Schedule(id, at) => match txn.known_schedule(id) {
            Some(schedule) => {
                assert(txn.knows_schedule(id@, Some(schedule@)));
                schedule.next_run_at == *at && !is_searchable(&schedule.cron, *at)
            },
            None => false,
        },
        Timer::PromiseTimeout(_) => false,
    }
}

/// Apply a fired timer. Returns whether there is anything to commit: a timer
/// that outlived its transition ends without effect.
pub fn fire(txn: &mut Txn, timer: &Timer) -> (r: Result<bool, Call>)
    requires
        old(txn).wf(),
        !fires_beyond(*old(txn), timer@),
    ensures
        steps(*old(txn), *final(txn), r, |w: World| fired_timer(w, old(txn)@, timer@)),
        r matches Ok(acted) ==> forall|w: World| #[trigger]
            old(txn).facts.describe(w) ==> acted == acts(w, old(txn)@, timer@),
{
    broadcast use {settled_chain_grows, created_grows};

    match timer {
        Timer::PromiseTimeout(id) => {
            let mut promise = match txn.get_promise(id)? {
                Some(promise) => promise,
                None => {
                    return Ok(false);
                },
            };
            if !promise.record.is_pending() {
                return Ok(false);
            }
            expire_promise(txn, &mut promise)?;
        },
        Timer::Schedule(id, at) => {
            let schedule = match txn.get_schedule(id)? {
                Some(schedule) => schedule,
                None => {
                    return Ok(false);
                },
            };
            if schedule.next_run_at != *at {
                return Ok(false);
            }
            assert(old(txn).knows_schedule(id@, Some(schedule@)));
            fire_schedule(txn, &schedule)?;
        },
    }
    Ok(true)
}

/// Apply a fired timer. `None` where the next firing of its schedule would be
/// searched for from a time at which no search can start.
pub fn fire_in_calendar(txn: &mut Txn, timer: &Timer) -> (r: Result<Option<bool>, Call>)
    requires
        old(txn).wf(),
    ensures
        r matches Ok(None) <==> fires_beyond(*old(txn), timer@),
        !(r matches Ok(None)) ==> steps(
            *old(txn),
            *final(txn),
            r,
            |w: World| fired_timer(w, old(txn)@, timer@),
        ),
        r matches Ok(Some(acted)) ==> forall|w: World| #[trigger]
            old(txn).facts.describe(w) ==> acted == acts(w, old(txn)@, timer@),
{
    if is_beyond(txn, timer) {
        return Ok(None);
    }
    let acted = fire(txn, timer)?;
    Ok(Some(acted))
}

} // verus!
