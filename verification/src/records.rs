//! The protocol's records and the tag rules that classify a promise.

use vstd::prelude::*;
use vstd::string::*;
use crate::tags::{IdSet, Tags};
use crate::text::{copied, copied_all, copied_opt, text_eq, text_opt, texts};

verus! {

/// The protocol version of every response.
pub const PROTOCOL_VERSION: &'static str = "2026-04-01";

/// The tag that names the address a promise's task is dispatched to.
pub const TAG_TARGET: &'static str = "resonate:target";

/// The tag that marks a promise as a timer.
pub const TAG_TIMER: &'static str = "resonate:timer";

/// The tag that delays the first dispatch of a task.
pub const TAG_DELAY: &'static str = "resonate:delay";

/// The tag that names the branch a promise belongs to.
pub const TAG_BRANCH: &'static str = "resonate:branch";

/// The tag that names the scope of a promise.
pub const TAG_SCOPE: &'static str = "resonate:scope";

/// The tag that marks a promise as settled from outside.
pub const TAG_EXTERNAL: &'static str = "resonate:external";

/// The text of ids, addresses and payloads in contracts.
pub type Text = Seq<char>;

/// Tags in contracts.
pub type TagMap = Map<Seq<char>, Seq<char>>;

/// The states of a promise.
#[derive(Debug, Clone, Copy, PartialEq, Eq, Structural)]
pub enum PromiseState {
    /// Not settled yet.
    Pending,
    /// Settled with a value.
    Resolved,
    /// Settled with an error.
    Rejected,
    /// Settled by a cancellation.
    RejectedCanceled,
    /// Settled by its deadline.
    RejectedTimedout,
}

/// The states of a task.
#[derive(Debug, Clone, Copy, PartialEq, Eq, Structural)]
pub enum TaskState {
    /// Waiting for delivery or for an acquire.
    Pending,
    /// Held by a worker.
    Acquired,
    /// Waiting for awaited promises.
    Suspended,
    /// Stopped by an operator.
    Halted,
    /// Its promise is settled.
    Fulfilled,
}

/// The states a client can settle a promise to.
#[derive(Debug, Clone, Copy, PartialEq, Eq, Structural)]
pub enum SettleState {
    /// Settled with a value.
    Resolved,
    /// Settled with an error.
    Rejected,
    /// Settled by a cancellation.
    RejectedCanceled,
}

impl SettleState {
    /// The promise state this settlement leads to.
    pub open spec fn state(self) -> PromiseState {
        match self {
            SettleState::Resolved => PromiseState::Resolved,
            SettleState::Rejected => PromiseState::Rejected,
            SettleState::RejectedCanceled => PromiseState::RejectedCanceled,
        }
    }
}

impl From<SettleState> for PromiseState {
    fn from(state: SettleState) -> (r: Self) {
        match state {
            SettleState::Resolved => PromiseState::Resolved,
            SettleState::Rejected => PromiseState::Rejected,
            SettleState::RejectedCanceled => PromiseState::RejectedCanceled,
        }
    }
}

impl vstd::std_specs::convert::FromSpecImpl<SettleState> for PromiseState {
    open spec fn obeys_from_spec() -> bool {
        true
    }

    open spec fn from_spec(state: SettleState) -> PromiseState {
        state.state()
    }
}

/// A promise's parameter or value: optional headers and an opaque string.
#[derive(Debug, PartialEq, Eq)]
pub struct PromiseValue {
    /// The headers.
    pub headers: Option<Tags>,
    /// The encoded data.
    pub data: Option<String>,
}

/// A parameter or a value in contracts.
pub struct ValueView {
    pub headers: Option<TagMap>,
    pub data: Option<Text>,
}

/// The value without headers and without data.
pub open spec fn no_value() -> ValueView {
    ValueView { headers: None, data: None }
}

impl View for PromiseValue {
    type V = ValueView;

    open spec fn view(&self) -> ValueView {
        ValueView {
            headers: match self.headers {
                Some(headers) => Some(headers@),
                None => None,
            },
            data: text_opt(self.data),
        }
    }
}

impl Default for PromiseValue {
    fn default() -> (r: Self)
        ensures
            r@ == no_value(),
    {
        PromiseValue { headers: None, data: None }
    }
}

impl Clone for PromiseValue {
    fn clone(&self) -> (r: Self)
        ensures
            r@ == self@,
    {
        let headers = match &self.headers {
            Some(headers) => Some(headers.clone()),
            None => None,
        };
        PromiseValue { headers, data: copied_opt(&self.data) }
    }
}

/// A promise in its wire form.
#[derive(Debug, PartialEq, Eq)]
pub struct PromiseRecord {
    /// The id.
    pub id: String,
    /// The state.
    pub state: PromiseState,
    /// The parameter it was created with.
    pub param: PromiseValue,
    /// The value it was settled with.
    pub value: PromiseValue,
    /// The tags.
    pub tags: Tags,
    /// The deadline, in epoch milliseconds.
    pub timeout_at: i64,
    /// The creation time, in epoch milliseconds.
    pub created_at: i64,
    /// The settlement time, in epoch milliseconds.
    pub settled_at: Option<i64>,
}

/// A promise in contracts.
pub struct PromiseView {
    pub id: Text,
    pub state: PromiseState,
    pub param: ValueView,
    pub value: ValueView,
    pub tags: TagMap,
    pub timeout_at: i64,
    pub created_at: i64,
    pub settled_at: Option<i64>,
}

/// Whether the tag `key` has the value `value`.
pub open spec fn tag_is(tags: TagMap, key: Text, value: Text) -> bool {
    tags.contains_key(key) && tags[key] == value
}

impl PromiseView {
    /// Whether the promise is not settled yet.
    pub open spec fn is_pending(self) -> bool {
        self.state == PromiseState::Pending
    }

    /// The address its task is dispatched to.
    pub open spec fn target(self) -> Option<Text> {
        if self.tags.contains_key(TAG_TARGET@) {
            Some(self.tags[TAG_TARGET@])
        } else {
            None
        }
    }

    /// Whether the promise is a timer.
    pub open spec fn is_timer(self) -> bool {
        tag_is(self.tags, TAG_TIMER@, "true"@)
    }

    /// The state a deadline settles the promise to.
    pub open spec fn timeout_state(self) -> PromiseState {
        if self.is_timer() {
            PromiseState::Resolved
        } else {
            PromiseState::RejectedTimedout
        }
    }

    /// Whether a task can await the promise.
    pub open spec fn is_external(self) -> bool {
        ||| tag_is(self.tags, TAG_SCOPE@, "global"@)
        ||| tag_is(self.tags, TAG_EXTERNAL@, "true"@)
        ||| self.tags.contains_key(TAG_TARGET@)
        ||| self.is_timer()
    }

    /// The promise as its deadline settles it.
    pub open spec fn expired(self) -> PromiseView {
        PromiseView {
            state: self.timeout_state(),
            settled_at: Some(self.timeout_at),
            ..self
        }
    }

    /// The promise as a client settles it at `now`.
    pub open spec fn settled(self, state: SettleState, value: ValueView, now: i64) -> PromiseView {
        PromiseView { state: state.state(), value, settled_at: Some(now), ..self }
    }
}

impl View for PromiseRecord {
    type V = PromiseView;

    open spec fn view(&self) -> PromiseView {
        PromiseView {
            id: self.id@,
            state: self.state,
            param: self.param@,
            value: self.value@,
            tags: self.tags@,
            timeout_at: self.timeout_at,
            created_at: self.created_at,
            settled_at: self.settled_at,
        }
    }
}

impl Clone for PromiseRecord {
    fn clone(&self) -> (r: Self)
        ensures
            r@ == self@,
    {
        PromiseRecord {
            id: copied(&self.id),
            state: self.state,
            param: self.param.clone(),
            value: self.value.clone(),
            tags: self.tags.clone(),
            timeout_at: self.timeout_at,
            created_at: self.created_at,
            settled_at: self.settled_at,
        }
    }
}

/// Whether the tag `key` of `tags` is `value`.
fn tag_equals(tags: &Tags, key: &str, value: &str) -> (r: bool)
    ensures
        r == tag_is(tags@, key@, value@),
{
    match tags.get(key) {
        Some(found) => text_eq(found, value),
        None => false,
    }
}

impl PromiseRecord {
    /// Whether the promise is not settled yet.
    pub fn is_pending(&self) -> (r: bool)
        ensures
            r == self@.is_pending(),
    {
        self.state == PromiseState::Pending
    }

    /// The address the promise's task is dispatched to.
    pub fn target(&self) -> (r: Option<&str>)
        ensures
            r is Some <==> self@.target() is Some,
            r matches Some(target) ==> self@.target() == Some(target@),
    {
        self.tags.get(TAG_TARGET)
    }

    /// Whether the promise is a timer.
    pub fn is_timer(&self) -> (r: bool)
        ensures
            r == self@.is_timer(),
    {
        tag_equals(&self.tags, TAG_TIMER, "true")
    }

    /// The state a deadline settles this promise to.
    pub fn timeout_state(&self) -> (r: PromiseState)
        ensures
            r == self@.timeout_state(),
    {
        if self.is_timer() {
            PromiseState::Resolved
        } else {
            PromiseState::RejectedTimedout
        }
    }

    /// Whether a task can await this promise.
    pub fn is_external(&self) -> (r: bool)
        ensures
            r == self@.is_external(),
    {
        tag_equals(&self.tags, TAG_SCOPE, "global")
            || tag_equals(&self.tags, TAG_EXTERNAL, "true")
            || self.tags.contains_key(TAG_TARGET)
            || self.is_timer()
    }
}

/// A promise as stored: the wire record plus the registrations against it.
/// `callbacks` are the ids of the awaiting tasks and `listeners` the
/// addresses to send an unblock to, both in registration order.
#[derive(Debug, PartialEq, Eq)]
pub struct StoredPromise {
    /// The wire record.
    pub record: PromiseRecord,
    /// The ids of the awaiting tasks.
    pub callbacks: Vec<String>,
    /// The addresses of the listeners.
    pub listeners: Vec<String>,
}

/// A stored promise in contracts.
pub struct StoredPromiseView {
    pub record: PromiseView,
    pub callbacks: Seq<Text>,
    pub listeners: Seq<Text>,
}

impl View for StoredPromise {
    type V = StoredPromiseView;

    open spec fn view(&self) -> StoredPromiseView {
        StoredPromiseView {
            record: self.record@,
            callbacks: texts(self.callbacks@),
            listeners: texts(self.listeners@),
        }
    }
}

impl Clone for StoredPromise {
    fn clone(&self) -> (r: Self)
        ensures
            r@ == self@,
    {
        StoredPromise {
            record: self.record.clone(),
            callbacks: copied_all(&self.callbacks),
            listeners: copied_all(&self.listeners),
        }
    }
}

/// The number of characters of `s` before the first `c`.
pub open spec fn length_before(s: Text, c: char) -> nat
    decreases s.len(),
{
    if s.len() == 0 || s[0] == c {
        0
    } else {
        1 + length_before(s.drop_first(), c)
    }
}

/// `length_before` counts up to the first `c`, or to the end.
pub proof fn length_before_is(s: Text, c: char, n: nat)
    requires
        n <= s.len(),
        forall|i: int| 0 <= i < n ==> s[i] != c,
        n < s.len() ==> s[n as int] == c,
    ensures
        length_before(s, c) == n,
    decreases s.len(),
{
    if s.len() > 0 && s[0] != c {
        let rest = s.drop_first();
        assert forall|i: int| 0 <= i < n - 1 implies rest[i] != c by {
            assert(rest[i] == s[i + 1]);
        }
        length_before_is(rest, c, (n - 1) as nat);
    }
}

/// The origin of an id: everything before the first `:`.
pub open spec fn origin(id: Text) -> Text {
    id.take(length_before(id, ':') as int)
}

/// The origin of a promise id: everything before the first `:`.
pub fn origin_of(id: &str) -> (r: &str)
    ensures
        r@ == origin(id@),
{
    let mut n: usize = 0;
    let len: usize = id.unicode_len();
    while n < len
        invariant
            n <= len,
            len == id@.len(),
            forall|i: int| 0 <= i < n ==> id@[i] != ':',
        decreases len - n,
    {
        if id.get_char(n) == ':' {
            proof {
                length_before_is(id@, ':', n as nat);
            }
            return id.substring_char(0, n);
        }
        n += 1;
    }
    proof {
        length_before_is(id@, ':', n as nat);
        assert(id@.take(n as int) =~= id@);
    }
    id
}

/// A task in its wire form. `resumes` is the count of settled awaited
/// promises the task has not observed.
#[derive(Debug, PartialEq, Eq)]
pub struct TaskRecord {
    /// The id, which is the id of the task's promise.
    pub id: String,
    /// The state.
    pub state: TaskState,
    /// The version, which increments with every acquire.
    pub version: i64,
    /// The number of settled awaited promises not observed yet.
    pub resumes: i64,
    /// The lease of an acquired task, in milliseconds.
    pub ttl: Option<i64>,
    /// The worker that holds an acquired task.
    pub pid: Option<String>,
}

/// A task record in contracts.
pub struct TaskView {
    pub id: Text,
    pub state: TaskState,
    pub version: i64,
    pub resumes: i64,
    pub ttl: Option<i64>,
    pub pid: Option<Text>,
}

impl View for TaskRecord {
    type V = TaskView;

    open spec fn view(&self) -> TaskView {
        TaskView {
            id: self.id@,
            state: self.state,
            version: self.version,
            resumes: self.resumes,
            ttl: self.ttl,
            pid: text_opt(self.pid),
        }
    }
}

impl Clone for TaskRecord {
    fn clone(&self) -> (r: Self)
        ensures
            r@ == self@,
    {
        TaskRecord {
            id: copied(&self.id),
            state: self.state,
            version: self.version,
            resumes: self.resumes,
            ttl: self.ttl,
            pid: copied_opt(&self.pid),
        }
    }
}

/// A task as stored. The task's dispatch is the job `job` on the queue named
/// by `target`: a pending task's job waits for delivery or is delivered and
/// not yet acquired, an acquired task's job is a claim held by the store, and
/// a job that is left of a task in the `Suspended`, `Halted` or `Fulfilled`
/// state is dropped at its delivery.
#[derive(Debug, PartialEq, Eq)]
pub struct StoredTask {
    /// The id, which is the id of the task's promise.
    pub id: String,
    /// The state.
    pub state: TaskState,
    /// The version, which increments with every acquire.
    pub version: i64,
    /// The address the task is dispatched to.
    pub target: String,
    /// The job of the latest dispatch.
    pub job: Option<String>,
    /// The worker that holds an acquired task.
    pub pid: Option<String>,
    /// The lease of an acquired task, in milliseconds.
    pub ttl: Option<i64>,
    /// The settled awaited promises not observed yet.
    pub resumes: IdSet,
}

/// A stored task in contracts.
pub struct StoredTaskView {
    pub id: Text,
    pub state: TaskState,
    pub version: i64,
    pub target: Text,
    pub job: Option<Text>,
    pub pid: Option<Text>,
    pub ttl: Option<i64>,
    pub resumes: Set<Text>,
}

impl StoredTaskView {
    /// A task of `id` that was never dispatched.
    pub open spec fn fresh(id: Text, target: Text, state: TaskState) -> StoredTaskView {
        StoredTaskView {
            id,
            state,
            version: 0,
            target,
            job: None,
            pid: None,
            ttl: None,
            resumes: Set::empty(),
        }
    }

    /// The wire form.
    pub open spec fn record(self) -> TaskView {
        TaskView {
            id: self.id,
            state: self.state,
            version: self.version,
            resumes: self.resumes.len() as i64,
            ttl: self.ttl,
            pid: self.pid,
        }
    }

    /// Whether the task is acquired at `version`.
    pub open spec fn is_acquired_at(self, version: i64) -> bool {
        self.state == TaskState::Acquired && self.version == version
    }

    /// The task in `state`, without a holder.
    pub open spec fn moved(self, state: TaskState) -> StoredTaskView {
        StoredTaskView { state, pid: None, ttl: None, ..self }
    }
}

impl View for StoredTask {
    type V = StoredTaskView;

    open spec fn view(&self) -> StoredTaskView {
        StoredTaskView {
            id: self.id@,
            state: self.state,
            version: self.version,
            target: self.target@,
            job: text_opt(self.job),
            pid: text_opt(self.pid),
            ttl: self.ttl,
            resumes: self.resumes@,
        }
    }
}

impl Clone for StoredTask {
    fn clone(&self) -> (r: Self)
        ensures
            r@ == self@,
    {
        StoredTask {
            id: copied(&self.id),
            state: self.state,
            version: self.version,
            target: copied(&self.target),
            job: copied_opt(&self.job),
            pid: copied_opt(&self.pid),
            ttl: self.ttl,
            resumes: self.resumes.clone(),
        }
    }
}

impl StoredTask {
    /// A task of `id` that was never dispatched.
    pub fn new(id: String, target: String, state: TaskState) -> (r: Self)
        ensures
            r@ == StoredTaskView::fresh(id@, target@, state),
    {
        StoredTask {
            id,
            state,
            version: 0,
            target,
            job: None,
            pid: None,
            ttl: None,
            resumes: IdSet::new(),
        }
    }

    /// The wire form of the task.
    pub fn record(&self) -> (r: TaskRecord)
        ensures
            r@ == self@.record(),
    {
        TaskRecord {
            id: copied(&self.id),
            state: self.state,
            version: self.version,
            resumes: self.resumes.len() as i64,
            ttl: self.ttl,
            pid: copied_opt(&self.pid),
        }
    }

    /// Whether the task is acquired at `version`.
    pub fn is_acquired_at(&self, version: i64) -> (r: bool)
        ensures
            r == self@.is_acquired_at(version),
    {
        self.state == TaskState::Acquired && self.version == version
    }

    /// Move the task to `state` without a holder: the pid and the ttl are
    /// cleared and the version is unchanged.
    pub fn transition(&mut self, state: TaskState)
        ensures
            final(self)@ == old(self)@.moved(state),
    {
        self.state = state;
        self.pid = None;
        self.ttl = None;
    }
}

/// A schedule.
#[derive(Debug, PartialEq, Eq)]
pub struct ScheduleRecord {
    /// The id.
    pub id: String,
    /// The cron expression.
    pub cron: String,
    /// The template of the ids of the promises it creates.
    pub promise_id: String,
    /// The time from a firing to its promise's deadline, in milliseconds.
    pub promise_timeout: i64,
    /// The parameter of its promises.
    pub promise_param: PromiseValue,
    /// The tags of its promises.
    pub promise_tags: Tags,
    /// The creation time, in epoch milliseconds.
    pub created_at: i64,
    /// The next firing, in epoch milliseconds.
    pub next_run_at: i64,
    /// The last firing, in epoch milliseconds.
    pub last_run_at: Option<i64>,
}

/// A schedule in contracts.
pub struct ScheduleView {
    pub id: Text,
    pub cron: Text,
    pub promise_id: Text,
    pub promise_timeout: i64,
    pub promise_param: ValueView,
    pub promise_tags: TagMap,
    pub created_at: i64,
    pub next_run_at: i64,
    pub last_run_at: Option<i64>,
}

impl View for ScheduleRecord {
    type V = ScheduleView;

    open spec fn view(&self) -> ScheduleView {
        ScheduleView {
            id: self.id@,
            cron: self.cron@,
            promise_id: self.promise_id@,
            promise_timeout: self.promise_timeout,
            promise_param: self.promise_param@,
            promise_tags: self.promise_tags@,
            created_at: self.created_at,
            next_run_at: self.next_run_at,
            last_run_at: self.last_run_at,
        }
    }
}

impl Clone for ScheduleRecord {
    fn clone(&self) -> (r: Self)
        ensures
            r@ == self@,
    {
        ScheduleRecord {
            id: copied(&self.id),
            cron: copied(&self.cron),
            promise_id: copied(&self.promise_id),
            promise_timeout: self.promise_timeout,
            promise_param: self.promise_param.clone(),
            promise_tags: self.promise_tags.clone(),
            created_at: self.created_at,
            next_run_at: self.next_run_at,
            last_run_at: self.last_run_at,
        }
    }
}

} // verus!
