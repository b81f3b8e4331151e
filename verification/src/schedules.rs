//! The operations on schedules.

use vstd::prelude::*;
use crate::calls::{view_opt, Call, CallView, World};
use crate::cron::{cron_next, next_after, searchable};
use crate::data::{IdData, ScheduleCreateData, ScheduleCreateView, ScheduleSearchData};
use crate::envelope::{viewed, Reply, ReplyData, ReplyDataView, ReplyView};
use crate::outcome::{ends, reject, rejected, Outcome, OutcomeView};
use crate::records::{ScheduleRecord, ScheduleView, TagMap, Text};
use crate::rules::{schedule_refusal, target_parses, validate_schedule};
use crate::search::{
    gives, has_tags, limit_of, page, page_of, page_viewed, search_limit, tags_match,
    DEFAULT_SCHEDULE_SEARCH_LIMIT,
};
use crate::text::{copied, text_opt};
use crate::timers::{Timer, TimerView};
use crate::txn::{Txn, TxnView};

verus! {

/// A reply with a schedule.
pub open spec fn schedule_reply(schedule: ScheduleView) -> ReplyView {
    ReplyView::Data(200, ReplyDataView::Schedule(schedule))
}

/// The schedule that `data` creates at `now`, with its first firing.
pub open spec fn new_schedule(data: ScheduleCreateView, now: i64, next_run_at: i64) -> ScheduleView {
    ScheduleView {
        id: data.id,
        cron: data.cron,
        promise_id: data.promise_id,
        promise_timeout: data.promise_timeout,
        promise_param: data.promise_param,
        promise_tags: data.promise_tags,
        created_at: now,
        next_run_at,
        last_run_at: None,
    }
}

/// What becomes of a valid schedule to create, where `next` is its first
/// firing.
pub open spec fn scheduling(w: World, t: TxnView, data: ScheduleCreateView, next: Option<i64>) -> (
    TxnView,
    OutcomeView,
) {
    let read = t.read_schedule(data.id);
    match t.schedule(w, data.id) {
        Some(existing) => (read, OutcomeView::Reply(schedule_reply(existing))),
        None => first_scheduling(read, data, next),
    }
}

/// What becomes of a schedule to create, where `refusal` is its refusal and
/// `next` its first firing.
pub open spec fn schedule_creation(
    w: World,
    t: TxnView,
    data: ScheduleCreateView,
    refusal: Option<ReplyView>,
    next: Option<i64>,
) -> (TxnView, OutcomeView) {
    match refusal {
        Some(reply) => (t, OutcomeView::Reply(reply)),
        None => scheduling(w, t, data, next),
    }
}

/// What becomes of a schedule to create that does not exist.
pub open spec fn first_scheduling(t: TxnView, data: ScheduleCreateView, next: Option<i64>) -> (
    TxnView,
    OutcomeView,
) {
    match next {
        None => (t, rejected(400, "Invalid cron expression"@)),
        Some(next) => {
            let schedule = new_schedule(data, t.now, next);
            (
                t.put_schedule(schedule).schedule_timer(TimerView::Schedule(data.id, next), next),
                OutcomeView::Commit(schedule_reply(schedule)),
            )
        },
    }
}

/// Create a schedule that is valid and does not exist, given its first firing.
pub fn create_schedule(txn: &mut Txn, data: &ScheduleCreateData, next: Option<i64>) -> (r: Outcome)
    requires
        old(txn).wf(),
    ensures
        final(txn).facts == old(txn).facts,
        final(txn).wf(),
        (final(txn)@, r@) == first_scheduling(old(txn)@, data@, next),
{
    let next_run_at: i64 = match next {
        Some(next) => next,
        None => {
            return reject(400, "Invalid cron expression");
        },
    };
    let schedule = ScheduleRecord {
        id: copied(&data.id),
        cron: copied(&data.cron),
        promise_id: copied(&data.promise_id),
        promise_timeout: data.promise_timeout,
        promise_param: data.promise_param.clone(),
        promise_tags: data.promise_tags.clone(),
        created_at: txn.now,
        next_run_at,
        last_run_at: None,
    };
    txn.put_schedule(&schedule);
    txn.schedule_timer(Timer::Schedule(copied(&schedule.id), next_run_at), next_run_at);
    Outcome::Commit(Reply::ok(ReplyData::Schedule(schedule)))
}

/// Whether a request to create a schedule searches for its first firing: the
/// schedule is valid and known not to exist.
pub open spec fn searches(txn: Txn, data: ScheduleCreateView) -> bool {
    schedule_refusal(data, target_parses(data.promise_tags)) is None && txn.knows_schedule(
        data.id,
        None,
    )
}

/// Create a schedule, or give the one that exists. The first firing of a new
/// one is later than its creation.
pub fn schedule_create(txn: &mut Txn, data: &ScheduleCreateData) -> (r: Result<Outcome, Call>)
    requires
        old(txn).wf(),
        searches(*old(txn), data@) ==> searchable(data@.cron, old(txn)@.now),
    ensures
        ends(
            *old(txn),
            *final(txn),
            r,
            |w: World|
                schedule_creation(
                    w,
                    old(txn)@,
                    data@,
                    schedule_refusal(data@, target_parses(data@.promise_tags)),
                    cron_next(data@.cron, old(txn)@.now),
                ),
        ),
        r matches Ok(Outcome::Commit(_)) ==> (cron_next(data@.cron, old(txn)@.now) matches Some(
            next,
        ) ==> next > old(txn)@.now),
{
    if let Some(reply) = validate_schedule(data) {
        return Ok(Outcome::Reply(reply));
    }
    if let Some(existing) = txn.get_schedule(&data.id)? {
        return Ok(Outcome::Reply(Reply::ok(ReplyData::Schedule(existing))));
    }
    let next = next_after(&data.cron, txn.now);
    Ok(create_schedule(txn, data, next))
}

/// Whether a request to create a schedule searches for its first firing.
pub fn will_search(txn: &Txn, data: &ScheduleCreateData) -> (r: bool)
    ensures
        r == searches(*txn, data@),
{
    validate_schedule(data).is_none() && txn.lacks_schedule(&data.id)
}

/// What becomes of a request for a schedule.
pub open spec fn schedule_reading(w: World, t: TxnView, id: Text) -> (TxnView, OutcomeView) {
    (
        t.read_schedule(id),
        match t.schedule(w, id) {
            Some(schedule) => OutcomeView::Reply(schedule_reply(schedule)),
            None => rejected(404, "Schedule not found"@),
        },
    )
}

/// Give a schedule.
pub fn schedule_get(txn: &mut Txn, data: &IdData) -> (r: Result<Outcome, Call>)
    requires
        old(txn).wf(),
    ensures
        ends(*old(txn), *final(txn), r, |w: World| schedule_reading(w, old(txn)@, data.id@)),
{
    match txn.get_schedule(&data.id)? {
        Some(schedule) => Ok(Outcome::Reply(Reply::ok(ReplyData::Schedule(schedule)))),
        None => Ok(reject(404, "Schedule not found")),
    }
}

/// What becomes of a schedule to delete.
pub open spec fn schedule_deletion(w: World, t: TxnView, id: Text) -> (TxnView, OutcomeView) {
    let read = t.read_schedule(id);
    match t.schedule(w, id) {
        None => (read, rejected(404, "Schedule not found"@)),
        Some(_) => (
            read.delete_schedule(id),
            OutcomeView::Commit(ReplyView::Data(200, ReplyDataView::Empty)),
        ),
    }
}

/// Delete a schedule.
pub fn schedule_delete(txn: &mut Txn, data: &IdData) -> (r: Result<Outcome, Call>)
    requires
        old(txn).wf(),
    ensures
        ends(*old(txn), *final(txn), r, |w: World| schedule_deletion(w, old(txn)@, data.id@)),
{
    if txn.get_schedule(&data.id)?.is_none() {
        return Ok(reject(404, "Schedule not found"));
    }
    txn.delete_schedule(&data.id);
    Ok(Outcome::Commit(Reply::ok(ReplyData::Empty)))
}

/// The schedules that a search looks for.
pub open spec fn schedules_found(schedules: Seq<ScheduleView>, tags: Option<TagMap>) -> Seq<
    ScheduleView,
> {
    schedules.filter(|schedule: ScheduleView| has_tags(schedule.promise_tags, tags))
}

/// The id of a schedule.
pub open spec fn schedule_id() -> spec_fn(ScheduleView) -> Text {
    |schedule: ScheduleView| schedule.id
}

/// The id of a schedule.
fn id_of_schedule(schedule: &ScheduleRecord) -> (r: &str)
    ensures
        r@ == schedule@.id,
{
    &schedule.id
}

/// What becomes of a search of schedules.
pub open spec fn schedules_search(w: World, t: TxnView, data: ScheduleSearchData) -> (
    TxnView,
    OutcomeView,
) {
    match limit_of(data.limit, DEFAULT_SCHEDULE_SEARCH_LIMIT) {
        Err(reply) => (t, OutcomeView::Reply(reply)),
        Ok(limit) => {
            let found = schedules_found(w.all_schedules(), view_opt(data.tags));
            let part = page_of(found, schedule_id(), text_opt(data.cursor), limit);
            (
                t.ask(CallView::Schedules),
                OutcomeView::Reply(
                    ReplyView::Data(200, ReplyDataView::Schedules(part.0, part.1)),
                ),
            )
        },
    }
}

/// Search the schedules by the tags of their promises.
pub fn schedule_search(txn: &mut Txn, data: &ScheduleSearchData) -> (r: Result<Outcome, Call>)
    requires
        old(txn).wf(),
    ensures
        ends(*old(txn), *final(txn), r, |w: World| schedules_search(w, old(txn)@, *data)),
{
    let limit: usize = match search_limit(data.limit, DEFAULT_SCHEDULE_SEARCH_LIMIT) {
        Ok(limit) => limit,
        Err(reply) => {
            return Ok(Outcome::Reply(reply));
        },
    };
    let schedules = txn.schedules()?;
    let ghost all = viewed(schedules@);
    let ghost keep = |schedule: ScheduleView| has_tags(schedule.promise_tags, view_opt(data.tags));
    let mut found: Vec<ScheduleRecord> = Vec::new();
    let mut i: usize = 0;
    assert(all.take(0) =~= Seq::<ScheduleView>::empty());
    assert(viewed(found@) =~= all.take(0).filter(keep)) by {
        reveal(Seq::filter);
    }
    while i < schedules.len()
        invariant
            i <= schedules.len(),
            all == viewed(schedules@),
            keep == |schedule: ScheduleView|
                has_tags(schedule.promise_tags, view_opt(data.tags)),
            viewed(found@) == all.take(i as int).filter(keep),
        decreases schedules.len() - i,
    {
        let schedule = &schedules[i];
        let ghost before = found@;
        let ghost next = all.take(i + 1);
        assert(next.drop_last() =~= all.take(i as int));
        assert(next.last() == schedule@);
        proof {
            reveal(Seq::filter);
        }
        if tags_match(&schedule.promise_tags, &data.tags) {
            found.push(schedule.clone());
            assert(viewed(found@) =~= viewed(before).push(schedule@));
        }
        i += 1;
    }
    assert(all.take(i as int) =~= all);
    let cursor = match &data.cursor {
        Some(cursor) => Some(cursor.as_str()),
        None => None,
    };
    let ghost listed = found@;
    let (part, next) = page(found, id_of_schedule, cursor, limit);
    proof {
        let id = |schedule: ScheduleRecord| schedule@.id;
        assert(gives(id_of_schedule, id));
        page_viewed(listed, id, schedule_id(), text_opt(data.cursor), limit);
    }
    Ok(Outcome::Reply(Reply::ok(ReplyData::Schedules(part, next))))
}

} // verus!
