//! The protocol's state machine over one request. Each operation reads the
//! records the request refers to, applies the transition, writes the results
//! through the request's [`Txn`] and commits.
//!
//! A task's dispatch is a job on its target's queue. Delivery of the job claims
//! it, the acquire and every heartbeat renew the claim's lease, a fulfil or a
//! suspend acknowledges it with the settlement's effects, a release fails it,
//! and a lease that expires returns the job to pending, where the next delivery
//! sends the execute message again.
//!
//! Every operation except the heartbeat first applies the deadline of each
//! promise it refers to: a pending promise past its `timeoutAt` is settled before
//! the request is evaluated, so a request never observes an expired promise as
//! pending. A search of the promises refers to every promise, and a search of the
//! tasks to the promise of every task. A request that sends siblings refers to
//! them, and applies their deadlines before it writes the task they are sent with.

use vstd::prelude::*;
use crate::calls::{Call, World};
use crate::cron::{cron_next, is_searchable, searchable};
use crate::data::{
    CallbackData, IdData, ListenerData, PromiseCreateData, PromiseSearchData, PromiseSettleData,
    ScheduleCreateData, ScheduleSearchData, TaskAcquireData, TaskCreateData, TaskFenceData,
    TaskFulfillData, TaskHeartbeatData, TaskSearchData, TaskSuspendData, TaskVersionData,
};
use crate::envelope::{json_string_at, viewed, Reply};
use crate::fence::{fence_target_parses, task_fence, task_fencing};
use crate::outcome::{ends, rejected, Outcome, OutcomeView};
use crate::promises::{
    apply_deadline, callback_registration, due, due_grows, listener_registration, promise_create,
    promise_creation, promise_get, promise_reading, promise_register_callback,
    promise_register_listener, promise_search, promise_settle, promise_settlement,
    promises_search,
};
use crate::records::{TaskState, Text};
use crate::rules::{create_refusal, schedule_refusal, target_parses, url_parses};
use crate::schedules::{
    schedule_create, schedule_creation, schedule_delete, schedule_deletion, schedule_get,
    schedule_reading, schedule_search, schedules_search, searches, will_search,
};
use crate::suspension::{task_suspend, task_suspension};
use crate::tasks::{
    all_beaten, done, task_acquire, task_acquisition, task_continue, task_continuing, task_create,
    task_create_refusal, task_creation, task_fulfill, task_fulfillment, task_get, task_halt,
    task_halting, task_heartbeat, task_reading, task_release, task_releasing, task_search,
    tasks_search,
};
use crate::text::{concat, copied, text_eq};
use crate::txn::{steps, AfterView, Txn, TxnView};

verus! {

/// The operations of the protocol.
#[derive(Debug, Clone, Copy, PartialEq, Eq, Structural)]
pub enum Operation {
    /// Create a promise.
    PromiseCreate,
    /// Give a promise.
    PromiseGet,
    /// Settle a promise.
    PromiseSettle,
    /// Register a callback.
    PromiseRegisterCallback,
    /// Register a listener.
    PromiseRegisterListener,
    /// Search the promises.
    PromiseSearch,
    /// Create a task, acquired.
    TaskCreate,
    /// Acquire a task.
    TaskAcquire,
    /// Release a task.
    TaskRelease,
    /// Fulfil a task.
    TaskFulfill,
    /// Suspend a task.
    TaskSuspend,
    /// Act on another promise while a task is held.
    TaskFence,
    /// Renew the leases of tasks.
    TaskHeartbeat,
    /// Give a task.
    TaskGet,
    /// Halt a task.
    TaskHalt,
    /// Continue a halted task.
    TaskContinue,
    /// Search the tasks.
    TaskSearch,
    /// Create a schedule.
    ScheduleCreate,
    /// Give a schedule.
    ScheduleGet,
    /// Delete a schedule.
    ScheduleDelete,
    /// Search the schedules.
    ScheduleSearch,
}

/// The operation of a kind, if there is one.
pub open spec fn operation_of(kind: Text) -> Option<Operation> {
    if kind == "promise.create"@ {
        Some(Operation::PromiseCreate)
    } else if kind == "promise.get"@ {
        Some(Operation::PromiseGet)
    } else if kind == "promise.settle"@ {
        Some(Operation::PromiseSettle)
    } else if kind == "promise.register_callback"@ {
        Some(Operation::PromiseRegisterCallback)
    } else if kind == "promise.register_listener"@ {
        Some(Operation::PromiseRegisterListener)
    } else if kind == "promise.search"@ {
        Some(Operation::PromiseSearch)
    } else if kind == "task.create"@ {
        Some(Operation::TaskCreate)
    } else if kind == "task.acquire"@ {
        Some(Operation::TaskAcquire)
    } else if kind == "task.release"@ {
        Some(Operation::TaskRelease)
    } else if kind == "task.fulfill"@ {
        Some(Operation::TaskFulfill)
    } else if kind == "task.suspend"@ {
        Some(Operation::TaskSuspend)
    } else if kind == "task.fence"@ {
        Some(Operation::TaskFence)
    } else if kind == "task.heartbeat"@ {
        Some(Operation::TaskHeartbeat)
    } else if kind == "task.get"@ {
        Some(Operation::TaskGet)
    } else if kind == "task.halt"@ {
        Some(Operation::TaskHalt)
    } else if kind == "task.continue"@ {
        Some(Operation::TaskContinue)
    } else if kind == "task.search"@ {
        Some(Operation::TaskSearch)
    } else if kind == "schedule.create"@ {
        Some(Operation::ScheduleCreate)
    } else if kind == "schedule.get"@ {
        Some(Operation::ScheduleGet)
    } else if kind == "schedule.delete"@ {
        Some(Operation::ScheduleDelete)
    } else if kind == "schedule.search"@ {
        Some(Operation::ScheduleSearch)
    } else {
        None
    }
}

/// The operation of a kind, if there is one.
pub fn operation(kind: &str) -> (r: Option<Operation>)
    ensures
        r == operation_of(kind@),
{
    if text_eq(kind, "promise.create") {
        Some(Operation::PromiseCreate)
    } else if text_eq(kind, "promise.get") {
        Some(Operation::PromiseGet)
    } else if text_eq(kind, "promise.settle") {
        Some(Operation::PromiseSettle)
    } else if text_eq(kind, "promise.register_callback") {
        Some(Operation::PromiseRegisterCallback)
    } else if text_eq(kind, "promise.register_listener") {
        Some(Operation::PromiseRegisterListener)
    } else if text_eq(kind, "promise.search") {
        Some(Operation::PromiseSearch)
    } else if text_eq(kind, "task.create") {
        Some(Operation::TaskCreate)
    } else if text_eq(kind, "task.acquire") {
        Some(Operation::TaskAcquire)
    } else if text_eq(kind, "task.release") {
        Some(Operation::TaskRelease)
    } else if text_eq(kind, "task.fulfill") {
        Some(Operation::TaskFulfill)
    } else if text_eq(kind, "task.suspend") {
        Some(Operation::TaskSuspend)
    } else if text_eq(kind, "task.fence") {
        Some(Operation::TaskFence)
    } else if text_eq(kind, "task.heartbeat") {
        Some(Operation::TaskHeartbeat)
    } else if text_eq(kind, "task.get") {
        Some(Operation::TaskGet)
    } else if text_eq(kind, "task.halt") {
        Some(Operation::TaskHalt)
    } else if text_eq(kind, "task.continue") {
        Some(Operation::TaskContinue)
    } else if text_eq(kind, "task.search") {
        Some(Operation::TaskSearch)
    } else if text_eq(kind, "schedule.create") {
        Some(Operation::ScheduleCreate)
    } else if text_eq(kind, "schedule.get") {
        Some(Operation::ScheduleGet)
    } else if text_eq(kind, "schedule.delete") {
        Some(Operation::ScheduleDelete)
    } else if text_eq(kind, "schedule.search") {
        Some(Operation::ScheduleSearch)
    } else {
        None
    }
}

/// The data of an operation.
#[derive(Debug, PartialEq, Eq)]
pub enum OperationData {
    /// Create a promise.
    PromiseCreate(PromiseCreateData),
    /// Give a promise.
    PromiseGet(IdData),
    /// Settle a promise.
    PromiseSettle(PromiseSettleData),
    /// Register a callback.
    PromiseRegisterCallback(CallbackData),
    /// Register a listener.
    PromiseRegisterListener(ListenerData),
    /// Search the promises.
    PromiseSearch(PromiseSearchData),
    /// Create a task, acquired.
    TaskCreate(TaskCreateData),
    /// Acquire a task.
    TaskAcquire(TaskAcquireData),
    /// Release a task.
    TaskRelease(TaskVersionData),
    /// Fulfil a task.
    TaskFulfill(TaskFulfillData),
    /// Suspend a task.
    TaskSuspend(TaskSuspendData),
    /// Act on another promise while a task is held.
    TaskFence(TaskFenceData),
    /// Renew the leases of tasks.
    TaskHeartbeat(TaskHeartbeatData),
    /// Give a task.
    TaskGet(IdData),
    /// Halt a task.
    TaskHalt(IdData),
    /// Continue a halted task.
    TaskContinue(IdData),
    /// Search the tasks.
    TaskSearch(TaskSearchData),
    /// Create a schedule.
    ScheduleCreate(ScheduleCreateData),
    /// Give a schedule.
    ScheduleGet(IdData),
    /// Delete a schedule.
    ScheduleDelete(IdData),
    /// Search the schedules.
    ScheduleSearch(ScheduleSearchData),
}

impl OperationData {
    /// The operation the data belongs to.
    pub open spec fn operation(self) -> Operation {
        match self {
            OperationData::PromiseCreate(_) => Operation::PromiseCreate,
            OperationData::PromiseGet(_) => Operation::PromiseGet,
            OperationData::PromiseSettle(_) => Operation::PromiseSettle,
            OperationData::PromiseRegisterCallback(_) => Operation::PromiseRegisterCallback,
            OperationData::PromiseRegisterListener(_) => Operation::PromiseRegisterListener,
            OperationData::PromiseSearch(_) => Operation::PromiseSearch,
            OperationData::TaskCreate(_) => Operation::TaskCreate,
            OperationData::TaskAcquire(_) => Operation::TaskAcquire,
            OperationData::TaskRelease(_) => Operation::TaskRelease,
            OperationData::TaskFulfill(_) => Operation::TaskFulfill,
            OperationData::TaskSuspend(_) => Operation::TaskSuspend,
            OperationData::TaskFence(_) => Operation::TaskFence,
            OperationData::TaskHeartbeat(_) => Operation::TaskHeartbeat,
            OperationData::TaskGet(_) => Operation::TaskGet,
            OperationData::TaskHalt(_) => Operation::TaskHalt,
            OperationData::TaskContinue(_) => Operation::TaskContinue,
            OperationData::TaskSearch(_) => Operation::TaskSearch,
            OperationData::ScheduleCreate(_) => Operation::ScheduleCreate,
            OperationData::ScheduleGet(_) => Operation::ScheduleGet,
            OperationData::ScheduleDelete(_) => Operation::ScheduleDelete,
            OperationData::ScheduleSearch(_) => Operation::ScheduleSearch,
        }
    }
}

/// What becomes of an operation.
pub open spec fn performed(w: World, t: TxnView, corr_id: Text, data: OperationData) -> (
    TxnView,
    OutcomeView,
) {
    match data {
        OperationData::PromiseCreate(data) => promise_creation(
            w,
            t,
            data@,
            create_refusal(data@, target_parses(data@.tags)),
        ),
        OperationData::PromiseGet(data) => promise_reading(w, t, data.id@),
        OperationData::PromiseSettle(data) => promise_settlement(w, t, data@),
        OperationData::PromiseRegisterCallback(data) => callback_registration(
            w,
            t,
            data.awaited@,
            data.awaiter@,
        ),
        OperationData::PromiseRegisterListener(data) => listener_registration(
            w,
            t,
            data.awaited@,
            data.address@,
            url_parses(data.address@),
        ),
        OperationData::PromiseSearch(data) => promises_search(w, t, data),
        OperationData::TaskCreate(data) => task_creation(
            w,
            t,
            data.action.data@,
            data.pid@,
            data.ttl,
            task_create_refusal(
                data.action.kind@,
                data.pid@,
                data.ttl,
                data.action.data@,
                target_parses(data.action.data@.tags),
            ),
        ),
        OperationData::TaskAcquire(data) => task_acquisition(
            w,
            t,
            data.id@,
            data.version,
            data.pid@,
            data.ttl,
        ),
        OperationData::TaskRelease(data) => task_releasing(w, t, data.id@, data.version),
        OperationData::TaskFulfill(data) => task_fulfillment(
            w,
            t,
            data.id@,
            data.version,
            data.action.kind@,
            data.action.data@,
        ),
        OperationData::TaskSuspend(data) => task_suspension(
            w,
            t,
            data.id@,
            data.version,
            viewed(data.actions@),
        ),
        OperationData::TaskFence(data) => task_fencing(
            w,
            t,
            data,
            corr_id,
            json_string_at(data.action.data.raw@, "/id"@),
            fence_target_parses(data),
        ),
        OperationData::TaskHeartbeat(data) => (
            all_beaten(w, t, data.pid@, viewed(data.tasks@)),
            done(),
        ),
        OperationData::TaskGet(data) => task_reading(w, t, data.id@),
        OperationData::TaskHalt(data) => task_halting(w, t, data.id@),
        OperationData::TaskContinue(data) => task_continuing(w, t, data.id@),
        OperationData::TaskSearch(data) => tasks_search(w, t, data),
        OperationData::ScheduleCreate(data) => schedule_creation(
            w,
            t,
            data@,
            schedule_refusal(data@, target_parses(data@.promise_tags)),
            cron_next(data@.cron, t.now),
        ),
        OperationData::ScheduleGet(data) => schedule_reading(w, t, data.id@),
        OperationData::ScheduleDelete(data) => schedule_deletion(w, t, data.id@),
        OperationData::ScheduleSearch(data) => schedules_search(w, t, data),
    }
}

/// What becomes of a request of `kind`, whose data is `data` or does not decode.
pub open spec fn handled(
    w: World,
    t: TxnView,
    kind: Text,
    corr_id: Text,
    data: Result<OperationData, String>,
) -> (TxnView, OutcomeView) {
    if operation_of(kind) is None {
        (t, rejected(400, "Unknown operation: "@ + kind))
    } else {
        match data {
            Err(error) => (t, rejected(400, "Invalid request: "@ + error@)),
            Ok(data) => performed(w, t, corr_id, data),
        }
    }
}

/// Whether an operation would search for the first firing of a schedule where no
/// search can start.
pub open spec fn schedules_beyond(txn: Txn, data: OperationData) -> bool {
    data matches OperationData::ScheduleCreate(data) && searches(txn, data@) && !searchable(
        data@.cron,
        txn@.now,
    )
}

/// Perform an operation.
pub fn perform(txn: &mut Txn, corr_id: &str, data: &OperationData) -> (r: Result<Outcome, Call>)
    requires
        old(txn).wf(),
        !schedules_beyond(*old(txn), *data),
    ensures
        ends(*old(txn), *final(txn), r, |w: World| performed(w, old(txn)@, corr_id@, *data)),
{
    match data {
        OperationData::PromiseCreate(data) => promise_create(txn, data),
        OperationData::PromiseGet(data) => promise_get(txn, data),
        OperationData::PromiseSettle(data) => promise_settle(txn, data),
        OperationData::PromiseRegisterCallback(data) => promise_register_callback(txn, data),
        OperationData::PromiseRegisterListener(data) => promise_register_listener(txn, data),
        OperationData::PromiseSearch(data) => promise_search(txn, data),
        OperationData::TaskCreate(data) => task_create(txn, data),
        OperationData::TaskAcquire(data) => task_acquire(txn, data),
        OperationData::TaskRelease(data) => task_release(txn, data),
        OperationData::TaskFulfill(data) => task_fulfill(txn, data),
        OperationData::TaskSuspend(data) => task_suspend(txn, data),
        OperationData::TaskFence(data) => task_fence(txn, data, corr_id),
        OperationData::TaskHeartbeat(data) => task_heartbeat(txn, data),
        OperationData::TaskGet(data) => task_get(txn, data),
        OperationData::TaskHalt(data) => task_halt(txn, data),
        OperationData::TaskContinue(data) => task_continue(txn, data),
        OperationData::TaskSearch(data) => task_search(txn, data),
        OperationData::ScheduleCreate(data) => schedule_create(txn, data),
        OperationData::ScheduleGet(data) => schedule_get(txn, data),
        OperationData::ScheduleDelete(data) => schedule_delete(txn, data),
        OperationData::ScheduleSearch(data) => schedule_search(txn, data),
    }
}

/// Perform one request of `kind`, whose data is `data` or does not decode.
pub fn handle(
    txn: &mut Txn,
    kind: &str,
    corr_id: &str,
    data: &Result<OperationData, String>,
) -> (r: Result<Outcome, Call>)
    requires
        old(txn).wf(),
        data matches Ok(data) ==> operation_of(kind@) == Some(data.operation())
            && !schedules_beyond(*old(txn), *data),
    ensures
        ends(
            *old(txn),
            *final(txn),
            r,
            |w: World| handled(w, old(txn)@, kind@, corr_id@, *data),
        ),
{
    if operation(kind).is_none() {
        return Ok(Outcome::Reply(Reply::Error(400, concat("Unknown operation: ", kind))));
    }
    match data {
        Ok(data) => perform(txn, corr_id, data),
        Err(error) => Ok(Outcome::Reply(Reply::Error(400, concat("Invalid request: ", error)))),
    }
}

/// Perform one request of `kind`. `None` where it creates a schedule whose first
/// firing would be searched for from a time at which no search can start.
pub fn handle_in_calendar(
    txn: &mut Txn,
    kind: &str,
    corr_id: &str,
    data: &Result<OperationData, String>,
) -> (r: Result<Option<Outcome>, Call>)
    requires
        old(txn).wf(),
        data matches Ok(data) ==> operation_of(kind@) == Some(data.operation()),
    ensures
        r matches Ok(None) <==> (data matches Ok(data) && schedules_beyond(*old(txn), *data)),
        r matches Ok(Some(outcome)) ==> ends(
            *old(txn),
            *final(txn),
            Ok(outcome),
            |w: World| handled(w, old(txn)@, kind@, corr_id@, *data),
        ),
        r matches Err(call) ==> ends(
            *old(txn),
            *final(txn),
            Err(call),
            |w: World| handled(w, old(txn)@, kind@, corr_id@, *data),
        ),
{
    if let Ok(OperationData::ScheduleCreate(data)) = data {
        if !is_searchable(&data.cron, txn.now) && will_search(txn, data) {
            return Ok(None);
        }
    }
    let outcome = handle(txn, kind, corr_id, data)?;
    Ok(Some(outcome))
}

/// The payload of a claimed job on an address queue.
#[derive(Debug, PartialEq, Eq)]
pub enum Delivery {
    /// The dispatch of a task.
    Execute(String),
    /// An unblock message, delivered as it is.
    Unblock(String),
}

/// The payload of a claimed job, in contracts.
pub enum DeliveryView {
    Execute(Text),
    Unblock(Text),
}

impl View for Delivery {
    type V = DeliveryView;

    open spec fn view(&self) -> DeliveryView {
        match self {
            Delivery::Execute(task) => DeliveryView::Execute(task@),
            Delivery::Unblock(message) => DeliveryView::Unblock(message@),
        }
    }
}

/// The message of a delivery.
#[derive(Debug, PartialEq, Eq)]
pub enum Message {
    /// Execute a task, at its version.
    Execute(String, i64),
    /// An unblock message, as it is.
    Unblock(String),
}

/// The message of a delivery, in contracts.
pub enum MessageView {
    Execute(Text, i64),
    Unblock(Text),
}

impl View for Message {
    type V = MessageView;

    open spec fn view(&self) -> MessageView {
        match self {
            Message::Execute(task, version) => MessageView::Execute(task@, *version),
            Message::Unblock(message) => MessageView::Unblock(message@),
        }
    }
}

/// What becomes of a claimed job: the request, and the message to pass on.
pub open spec fn delivered(w: World, t: TxnView, delivery: DeliveryView) -> (
    TxnView,
    Option<MessageView>,
) {
    match delivery {
        DeliveryView::Unblock(message) => (
            t.later(AfterView::Ack),
            Some(MessageView::Unblock(message)),
        ),
        DeliveryView::Execute(id) => {
            let timed = due(w, t, id);
            let read = timed.read_task(id);
            let stale = (read.later(AfterView::Ack), None);
            match timed.task(w, id) {
                None => stale,
                Some(task) => match task.state {
                    TaskState::Acquired => (
                        read.put_task(task.moved(TaskState::Pending)).later(AfterView::Hold(id)),
                        Some(MessageView::Execute(id, task.version)),
                    ),
                    TaskState::Pending => (
                        read.later(AfterView::Hold(id)),
                        Some(MessageView::Execute(id, task.version)),
                    ),
                    _ => stale,
                },
            }
        },
    }
}

/// The message of a delivery, where there is one.
pub open spec fn message_of(message: Option<Message>) -> Option<MessageView> {
    match message {
        Some(message) => Some(message@),
        None => None,
    }
}

/// Deliver a claimed job: the message to pass on, or `None` when the job is
/// stale and is acknowledged. An unblock job is acknowledged with its delivery.
/// An execute job's claim is held for the task, and a task that was acquired
/// when its job came back has lost its lease and returns to pending with its
/// version unchanged.
pub fn deliver(txn: &mut Txn, delivery: &Delivery) -> (r: Result<Option<Message>, Call>)
    requires
        old(txn).wf(),
    ensures
        steps(*old(txn), *final(txn), r, |w: World| delivered(w, old(txn)@, delivery@).0),
        r matches Ok(message) ==> forall|w: World| #[trigger]
            old(txn).facts.describe(w) ==> message_of(message) == delivered(
                w,
                old(txn)@,
                delivery@,
            ).1,
{
    broadcast use due_grows;

    let id = match delivery {
        Delivery::Unblock(message) => {
            txn.ack_after_commit();
            return Ok(Some(Message::Unblock(copied(message))));
        },
        Delivery::Execute(task) => task,
    };
    apply_deadline(txn, id)?;
    let mut task = match txn.get_task(id)? {
        Some(task) => task,
        None => {
            txn.ack_after_commit();
            return Ok(None);
        },
    };
    let version: i64 = task.version;
    match task.state {
        TaskState::Acquired => {
            task.transition(TaskState::Pending);
            txn.put_task(&task);
        },
        TaskState::Pending => {},
        TaskState::Suspended | TaskState::Halted | TaskState::Fulfilled => {
            txn.ack_after_commit();
            return Ok(None);
        },
    }
    txn.hold_after_commit(id);
    Ok(Some(Message::Execute(copied(id), version)))
}

} // verus!
