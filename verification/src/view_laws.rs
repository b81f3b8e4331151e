//! What contracts see of the records and messages: two that look the same in
//! contracts have the same fields, so a copy that looks the same has lost nothing.

use vstd::prelude::*;
use crate::calls::Call;
use crate::data::{
    Action, CallbackData, PromiseCreateData, PromiseSettleData, ScheduleCreateData, TaskVersionData,
};
use crate::envelope::{viewed, ActionData, Reply, ReplyData, ResponseHead};
use crate::keys::Key;
use crate::records::{
    PromiseRecord, PromiseValue, ScheduleRecord, StoredPromise, StoredTask, TaskRecord,
};
use crate::timers::Timer;
use crate::txn::{After, Enqueue, Payload, Row};

verus! {

/// Whether two optional texts are the same.
pub open spec fn same_text(a: Option<String>, b: Option<String>) -> bool {
    match (a, b) {
        (None, None) => true,
        (Some(a), Some(b)) => a@ == b@,
        _ => false,
    }
}

/// Whether two lists of texts are the same.
pub open spec fn same_texts(a: Seq<String>, b: Seq<String>) -> bool {
    a.len() == b.len() && forall|i: int| 0 <= i < a.len() ==> (#[trigger] a[i])@ == b[i]@
}

/// Whether two lists of promises look the same.
pub open spec fn same_promises(a: Seq<PromiseRecord>, b: Seq<PromiseRecord>) -> bool {
    a.len() == b.len() && forall|i: int| 0 <= i < a.len() ==> (#[trigger] a[i])@ == b[i]@
}

/// Two values that look the same have the same headers and the same data.
pub proof fn values_are_seen_whole(a: PromiseValue, b: PromiseValue)
    requires
        a@ == b@,
    ensures
        match (a.headers, b.headers) {
            (None, None) => true,
            (Some(x), Some(y)) => x@ == y@,
            _ => false,
        },
        same_text(a.data, b.data),
{
}

/// Two promises that look the same have the same fields.
pub proof fn promises_are_seen_whole(a: PromiseRecord, b: PromiseRecord)
    requires
        a@ == b@,
    ensures
        a.id@ == b.id@,
        a.state == b.state,
        a.param@ == b.param@,
        a.value@ == b.value@,
        a.tags@ == b.tags@,
        a.timeout_at == b.timeout_at,
        a.created_at == b.created_at,
        a.settled_at == b.settled_at,
{
}

/// Two stored promises that look the same have the same record and the same
/// registrations.
pub proof fn stored_promises_are_seen_whole(a: StoredPromise, b: StoredPromise)
    requires
        a@ == b@,
    ensures
        a.record@ == b.record@,
        same_texts(a.callbacks@, b.callbacks@),
        same_texts(a.listeners@, b.listeners@),
{
    assert(a@.callbacks.len() == a.callbacks@.len() && b@.callbacks.len() == b.callbacks@.len());
    assert(a@.listeners.len() == a.listeners@.len() && b@.listeners.len() == b.listeners@.len());
    assert forall|i: int| 0 <= i < a.callbacks@.len() implies (#[trigger] a.callbacks@[i])@
        == b.callbacks@[i]@ by {
        assert(a@.callbacks[i] == a.callbacks@[i]@ && b@.callbacks[i] == b.callbacks@[i]@);
    }
    assert forall|i: int| 0 <= i < a.listeners@.len() implies (#[trigger] a.listeners@[i])@
        == b.listeners@[i]@ by {
        assert(a@.listeners[i] == a.listeners@[i]@ && b@.listeners[i] == b.listeners@[i]@);
    }
}

/// Two tasks on the wire that look the same have the same fields.
pub proof fn tasks_are_seen_whole(a: TaskRecord, b: TaskRecord)
    requires
        a@ == b@,
    ensures
        a.id@ == b.id@,
        a.state == b.state,
        a.version == b.version,
        a.resumes == b.resumes,
        a.ttl == b.ttl,
        same_text(a.pid, b.pid),
{
}

/// Two stored tasks that look the same have the same fields.
pub proof fn stored_tasks_are_seen_whole(a: StoredTask, b: StoredTask)
    requires
        a@ == b@,
    ensures
        a.id@ == b.id@,
        a.state == b.state,
        a.version == b.version,
        a.target@ == b.target@,
        same_text(a.job, b.job),
        same_text(a.pid, b.pid),
        a.ttl == b.ttl,
        a.resumes@ == b.resumes@,
{
}

/// Two schedules that look the same have the same fields.
pub proof fn schedules_are_seen_whole(a: ScheduleRecord, b: ScheduleRecord)
    requires
        a@ == b@,
    ensures
        a.id@ == b.id@,
        a.cron@ == b.cron@,
        a.promise_id@ == b.promise_id@,
        a.promise_timeout == b.promise_timeout,
        a.promise_param@ == b.promise_param@,
        a.promise_tags@ == b.promise_tags@,
        a.created_at == b.created_at,
        a.next_run_at == b.next_run_at,
        a.last_run_at == b.last_run_at,
{
}

/// Two promises to create that look the same have the same fields.
pub proof fn creations_are_seen_whole(a: PromiseCreateData, b: PromiseCreateData)
    requires
        a@ == b@,
    ensures
        a.id@ == b.id@,
        a.timeout_at == b.timeout_at,
        a.param@ == b.param@,
        a.tags@ == b.tags@,
{
}

/// Two promises to settle that look the same have the same fields.
pub proof fn settlements_are_seen_whole(a: PromiseSettleData, b: PromiseSettleData)
    requires
        a@ == b@,
    ensures
        a.id@ == b.id@,
        a.state == b.state,
        a.value@ == b.value@,
{
}

/// Two entries of a heartbeat that look the same have the same fields.
pub proof fn entries_are_seen_whole(a: TaskVersionData, b: TaskVersionData)
    requires
        a@ == b@,
    ensures
        a.id@ == b.id@,
        a.version == b.version,
{
}

/// Two callbacks of a suspension that look the same have the same fields.
pub proof fn callbacks_are_seen_whole(a: Action<CallbackData>, b: Action<CallbackData>)
    requires
        a@ == b@,
    ensures
        a.kind@ == b.kind@,
        a.data.awaited@ == b.data.awaited@,
        a.data.awaiter@ == b.data.awaiter@,
{
}

/// Two schedules to create that look the same have the same fields.
pub proof fn schedules_to_create_are_seen_whole(a: ScheduleCreateData, b: ScheduleCreateData)
    requires
        a@ == b@,
    ensures
        a.id@ == b.id@,
        a.cron@ == b.cron@,
        a.promise_id@ == b.promise_id@,
        a.promise_timeout == b.promise_timeout,
        a.promise_param@ == b.promise_param@,
        a.promise_tags@ == b.promise_tags@,
{
}

/// Two timers that look the same are the same.
pub proof fn timers_are_seen_whole(a: Timer, b: Timer)
    requires
        a@ == b@,
    ensures
        match (a, b) {
            (Timer::PromiseTimeout(x), Timer::PromiseTimeout(y)) => x@ == y@,
            (Timer::Schedule(x, i), Timer::Schedule(y, j)) => x@ == y@ && i == j,
            _ => false,
        },
{
}

/// Two keys that look the same are the same.
pub proof fn keys_are_seen_whole(a: Key, b: Key)
    requires
        a@ == b@,
    ensures
        match (a, b) {
            (Key::Promise(x), Key::Promise(y)) => x@ == y@,
            (Key::Task(x), Key::Task(y)) => x@ == y@,
            (Key::Schedule(x), Key::Schedule(y)) => x@ == y@,
            (Key::Branch(c, x), Key::Branch(d, y)) => c@ == d@ && x@ == y@,
            _ => false,
        },
{
}

/// Two records to write that look the same are the same.
pub proof fn rows_are_seen_whole(a: Row, b: Row)
    requires
        a@ == b@,
    ensures
        match (a, b) {
            (Row::Promise(x), Row::Promise(y)) => x@ == y@,
            (Row::Task(x), Row::Task(y)) => x@ == y@,
            (Row::Schedule(x), Row::Schedule(y)) => x@ == y@,
            (Row::Index, Row::Index) => true,
            _ => false,
        },
{
}

/// Two jobs to enqueue that look the same have the same fields.
pub proof fn jobs_are_seen_whole(a: Enqueue, b: Enqueue)
    requires
        a@ == b@,
    ensures
        a.queue@ == b.queue@,
        same_text(a.job, b.job),
        a.run_at == b.run_at,
        match (a.payload, b.payload) {
            (Payload::Execute(x), Payload::Execute(y)) => x@ == y@,
            (Payload::Unblock(x), Payload::Unblock(y)) => x@ == y@,
            (Payload::Timer(x), Payload::Timer(y)) => x@ == y@,
            _ => false,
        },
{
}

/// Two pieces of work after the commit that look the same are the same.
pub proof fn work_is_seen_whole(a: After, b: After)
    requires
        a@ == b@,
    ensures
        match (a, b) {
            (After::Ack, After::Ack) => true,
            (After::Hold(x), After::Hold(y)) => x@ == y@,
            (After::Release(x), After::Release(y)) => x@ == y@,
            (After::Nack(x), After::Nack(y)) => x@ == y@,
            (After::Claim(x, i, l), After::Claim(y, j, m)) => x@ == y@ && i@ == j@ && l == m,
            _ => false,
        },
{
}

/// Two calls of the queue that look the same are the same.
pub proof fn calls_are_seen_whole(a: Call, b: Call)
    requires
        a@ == b@,
    ensures
        match (a, b) {
            (Call::Promise(x), Call::Promise(y)) => x@ == y@,
            (Call::Task(x), Call::Task(y)) => x@ == y@,
            (Call::Schedule(x), Call::Schedule(y)) => x@ == y@,
            (Call::Branch(x, i), Call::Branch(y, j)) => x@ == y@ && i == j,
            (Call::Promises, Call::Promises) => true,
            (Call::Tasks, Call::Tasks) => true,
            (Call::Schedules, Call::Schedules) => true,
            (Call::Job(x), Call::Job(y)) => x@ == y@,
            (Call::JobId(x), Call::JobId(y)) => x == y,
            (Call::Lease(x, i), Call::Lease(y, j)) => x@ == y@ && i == j,
            (Call::Renew(x, l, i), Call::Renew(y, m, j)) => x@ == y@ && l == m && i == j,
            (Call::Claim(x, a, l, i), Call::Claim(y, b, m, j)) => x@ == y@ && a@ == b@ && l == m
                && i == j,
            (Call::Drop(x, i), Call::Drop(y, j)) => x@ == y@ && i == j,
            _ => false,
        },
{
}

/// Two heads of responses that look the same have the same fields.
pub proof fn heads_are_seen_whole(a: ResponseHead, b: ResponseHead)
    requires
        a@ == b@,
    ensures
        a.corr_id@ == b.corr_id@,
        a.status == b.status,
        a.version@ == b.version@,
{
}

/// Two replies that look the same have the same status and the same data or
/// message.
pub proof fn replies_are_seen_whole(a: Reply, b: Reply)
    requires
        a@ == b@,
    ensures
        match (a, b) {
            (Reply::Data(i, x), Reply::Data(j, y)) => i == j && x@ == y@,
            (Reply::Error(i, x), Reply::Error(j, y)) => i == j && x@ == y@,
            _ => false,
        },
{
}

/// Lists that look the same have elements that look the same.
proof fn lists_are_seen_whole<T: View>(a: Seq<T>, b: Seq<T>)
    requires
        viewed(a) == viewed(b),
    ensures
        a.len() == b.len(),
        forall|i: int| 0 <= i < a.len() ==> (#[trigger] a[i])@ == b[i]@,
{
    assert(viewed(a).len() == a.len() && viewed(b).len() == b.len());
    assert forall|i: int| 0 <= i < a.len() implies (#[trigger] a[i])@ == b[i]@ by {
        assert(viewed(a)[i] == a[i]@ && viewed(b)[i] == b[i]@);
    }
}

/// The data of two replies that look the same hold the same records.
pub proof fn reply_data_are_seen_whole(a: ReplyData, b: ReplyData)
    requires
        a@ == b@,
    ensures
        match (a, b) {
            (ReplyData::Empty, ReplyData::Empty) => true,
            (ReplyData::Promise(x), ReplyData::Promise(y)) => x@ == y@,
            (ReplyData::Task(x), ReplyData::Task(y)) => x@ == y@,
            (ReplyData::Work(t, p, x), ReplyData::Work(u, q, y)) => t@ == u@ && p@ == q@
                && same_promises(x@, y@),
            (ReplyData::Preload(x), ReplyData::Preload(y)) => same_promises(x@, y@),
            (ReplyData::Action(k, h, d, x), ReplyData::Action(l, i, e, y)) => k@ == l@ && h@ == i@
                && same_action(d, e) && same_promises(x@, y@),
            (ReplyData::Promises(x, c), ReplyData::Promises(y, d)) => same_promises(x@, y@)
                && same_text(c, d),
            (ReplyData::Tasks(x, c), ReplyData::Tasks(y, d)) => same_text(c, d) && x@.len()
                == y@.len() && forall|i: int|
                0 <= i < x@.len() ==> (#[trigger] x@[i])@ == y@[i]@,
            (ReplyData::Schedule(x), ReplyData::Schedule(y)) => x@ == y@,
            (ReplyData::Schedules(x, c), ReplyData::Schedules(y, d)) => same_text(c, d) && x@.len()
                == y@.len() && forall|i: int|
                0 <= i < x@.len() ==> (#[trigger] x@[i])@ == y@[i]@,
            (ReplyData::Message(x), ReplyData::Message(y)) => x@ == y@,
            _ => false,
        },
{
    match (a, b) {
        (ReplyData::Work(_, _, x), ReplyData::Work(_, _, y)) => lists_are_seen_whole(x@, y@),
        (ReplyData::Preload(x), ReplyData::Preload(y)) => lists_are_seen_whole(x@, y@),
        (ReplyData::Action(_, _, _, x), ReplyData::Action(_, _, _, y)) => lists_are_seen_whole(
            x@,
            y@,
        ),
        (ReplyData::Promises(x, _), ReplyData::Promises(y, _)) => lists_are_seen_whole(x@, y@),
        (ReplyData::Tasks(x, _), ReplyData::Tasks(y, _)) => lists_are_seen_whole(x@, y@),
        (ReplyData::Schedules(x, _), ReplyData::Schedules(y, _)) => lists_are_seen_whole(x@, y@),
        _ => {},
    }
}

/// Whether two outcomes of fenced actions are the same.
pub open spec fn same_action(a: ActionData, b: ActionData) -> bool {
    match (a, b) {
        (ActionData::Promise(x), ActionData::Promise(y)) => x@ == y@,
        (ActionData::Message(x), ActionData::Message(y)) => x@ == y@,
        _ => false,
    }
}

} // verus!
