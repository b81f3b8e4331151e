//! The data of each operation.

use vstd::prelude::*;
use crate::records::{
    PromiseState, PromiseValue, SettleState, TagMap, TaskState, Text, ValueView,
};
use crate::tags::Tags;

verus! {

/// The data of an operation on one record.
#[derive(Debug, PartialEq, Eq)]
pub struct IdData {
    /// The id of the record.
    pub id: String,
}

/// A promise to create.
#[derive(Debug, PartialEq, Eq)]
pub struct PromiseCreateData {
    /// The id.
    pub id: String,
    /// The deadline, in epoch milliseconds.
    pub timeout_at: i64,
    /// The parameter.
    pub param: PromiseValue,
    /// The tags.
    pub tags: Tags,
}

/// A promise to create, in contracts.
pub struct CreateView {
    pub id: Text,
    pub timeout_at: i64,
    pub param: ValueView,
    pub tags: TagMap,
}

impl View for PromiseCreateData {
    type V = CreateView;

    open spec fn view(&self) -> CreateView {
        CreateView {
            id: self.id@,
            timeout_at: self.timeout_at,
            param: self.param@,
            tags: self.tags@,
        }
    }
}

/// A promise to settle.
#[derive(Debug, PartialEq, Eq)]
pub struct PromiseSettleData {
    /// The id.
    pub id: String,
    /// The state to settle to.
    pub state: SettleState,
    /// The value.
    pub value: PromiseValue,
}

/// A promise to settle, in contracts.
pub struct SettleView {
    pub id: Text,
    pub state: SettleState,
    pub value: ValueView,
}

impl View for PromiseSettleData {
    type V = SettleView;

    open spec fn view(&self) -> SettleView {
        SettleView { id: self.id@, state: self.state, value: self.value@ }
    }
}

/// A callback to register.
#[derive(Debug, PartialEq, Eq)]
pub struct CallbackData {
    /// The awaited promise.
    pub awaited: String,
    /// The awaiting promise.
    pub awaiter: String,
}

/// A listener to register.
#[derive(Debug, PartialEq, Eq)]
pub struct ListenerData {
    /// The awaited promise.
    pub awaited: String,
    /// The address to send the unblock message to.
    pub address: String,
}

/// A search of promises.
#[derive(Debug, PartialEq, Eq)]
pub struct PromiseSearchData {
    /// The state to match.
    pub state: Option<PromiseState>,
    /// The tags to match.
    pub tags: Option<Tags>,
    /// The size of the page.
    pub limit: Option<i64>,
    /// The id to start after.
    pub cursor: Option<String>,
}

/// A request nested in a task request.
#[derive(Debug, PartialEq, Eq)]
pub struct Action<T> {
    /// The operation.
    pub kind: String,
    /// Its data.
    pub data: T,
}

/// A promise to create with its task acquired.
#[derive(Debug, PartialEq, Eq)]
pub struct TaskCreateData {
    /// The worker.
    pub pid: String,
    /// The lease, in milliseconds.
    pub ttl: i64,
    /// The promise to create.
    pub action: Action<PromiseCreateData>,
}

/// A task to acquire.
#[derive(Debug, PartialEq, Eq)]
pub struct TaskAcquireData {
    /// The id.
    pub id: String,
    /// The version the worker knows.
    pub version: i64,
    /// The worker.
    pub pid: String,
    /// The lease, in milliseconds.
    pub ttl: i64,
}

/// A task at a version.
#[derive(Debug, PartialEq, Eq)]
pub struct TaskVersionData {
    /// The id.
    pub id: String,
    /// The version.
    pub version: i64,
}

/// A task at a version, in contracts.
pub struct TaskVersionView {
    pub id: Text,
    pub version: i64,
}

impl View for TaskVersionData {
    type V = TaskVersionView;

    open spec fn view(&self) -> TaskVersionView {
        TaskVersionView { id: self.id@, version: self.version }
    }
}

/// A task to suspend until one of the awaited promises settles.
#[derive(Debug, PartialEq, Eq)]
pub struct TaskSuspendData {
    /// The id.
    pub id: String,
    /// The version the worker acquired.
    pub version: i64,
    /// The callbacks to register.
    pub actions: Vec<Action<CallbackData>>,
}

/// A callback inside a suspend, in contracts.
pub struct CallbackActionView {
    pub kind: Text,
    pub awaited: Text,
    pub awaiter: Text,
}

impl View for Action<CallbackData> {
    type V = CallbackActionView;

    open spec fn view(&self) -> CallbackActionView {
        CallbackActionView {
            kind: self.kind@,
            awaited: self.data.awaited@,
            awaiter: self.data.awaiter@,
        }
    }
}

/// A task to fulfil by settling its promise.
#[derive(Debug, PartialEq, Eq)]
pub struct TaskFulfillData {
    /// The id.
    pub id: String,
    /// The version the worker acquired.
    pub version: i64,
    /// The settlement.
    pub action: Action<PromiseSettleData>,
}

/// The data of a fenced action: its JSON text, and what it decodes to as a
/// creation and as a settlement.
#[derive(Debug, PartialEq, Eq)]
pub struct FenceData {
    /// The data, as JSON text.
    pub raw: String,
    /// The data as a promise to create, or the error of decoding it.
    pub create: Result<PromiseCreateData, String>,
    /// The data as a promise to settle, or the error of decoding it.
    pub settle: Result<PromiseSettleData, String>,
}

/// An action on another promise, done only while the task is held.
#[derive(Debug, PartialEq, Eq)]
pub struct TaskFenceData {
    /// The id of the task.
    pub id: String,
    /// The version the worker acquired.
    pub version: i64,
    /// The action.
    pub action: Action<FenceData>,
}

/// The tasks a worker still holds.
#[derive(Debug, PartialEq, Eq)]
pub struct TaskHeartbeatData {
    /// The worker.
    pub pid: String,
    /// The tasks.
    pub tasks: Vec<TaskVersionData>,
}

/// A search of tasks.
#[derive(Debug, PartialEq, Eq)]
pub struct TaskSearchData {
    /// The state to match.
    pub state: Option<TaskState>,
    /// The size of the page.
    pub limit: Option<i64>,
    /// The id to start after.
    pub cursor: Option<String>,
}

/// A schedule to create.
#[derive(Debug, PartialEq, Eq)]
pub struct ScheduleCreateData {
    /// The id.
    pub id: String,
    /// The cron expression.
    pub cron: String,
    /// The template of the ids of the promises it creates.
    pub promise_id: String,
    /// The time from a firing to its promise's deadline, in milliseconds.
    pub promise_timeout: i64,
    /// The parameter of its promises.
    pub promise_param: PromiseValue,
    /// The tags of its promises.
    pub promise_tags: Tags,
}

/// A schedule to create, in contracts.
pub struct ScheduleCreateView {
    pub id: Text,
    pub cron: Text,
    pub promise_id: Text,
    pub promise_timeout: i64,
    pub promise_param: ValueView,
    pub promise_tags: TagMap,
}

impl View for ScheduleCreateData {
    type V = ScheduleCreateView;

    open spec fn view(&self) -> ScheduleCreateView {
        ScheduleCreateView {
            id: self.id@,
            cron: self.cron@,
            promise_id: self.promise_id@,
            promise_timeout: self.promise_timeout,
            promise_param: self.promise_param@,
            promise_tags: self.promise_tags@,
        }
    }
}

/// A search of schedules.
#[derive(Debug, PartialEq, Eq)]
pub struct ScheduleSearchData {
    /// The tags to match.
    pub tags: Option<Tags>,
    /// The size of the page.
    pub limit: Option<i64>,
    /// The id to start after.
    pub cursor: Option<String>,
}

} // verus!
