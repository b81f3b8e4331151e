//! The operations on tasks.

use vstd::prelude::*;
use crate::calls::{Call, CallView, World};
use crate::creation::{create_promise, created, created_grows, CreateMode, ModeView};
use crate::data::{
    CreateView, IdData, PromiseCreateData, SettleView, TaskAcquireData, TaskCreateData,
    TaskFulfillData, TaskHeartbeatData, TaskSearchData, TaskVersionData, TaskVersionView,
};
use crate::envelope::{viewed, Reply, ReplyData, ReplyDataView, ReplyView};
use crate::outcome::{ends, fail, failed, reject, rejected, Outcome, OutcomeView};
use crate::promises::{
    apply_deadline, due, due_grows, due_keeps, settle_pending, settling, settling_grows,
};
use crate::records::{
    PromiseRecord, PromiseView, StoredTask, StoredTaskView, TaskRecord, TaskState, TaskView, Text,
    TAG_DELAY, TAG_TARGET,
};
use crate::rules::{check_create, create_refusal, is_url, refused, target_parses};
use crate::search::{
    gives, limit_of, page, page_of, page_viewed, search_limit, DEFAULT_SEARCH_LIMIT,
};
use crate::tags::IdSet;
use crate::text::{copied, text_eq, text_opt};
use crate::time::{at_least_zero, lease_of, millis};
use crate::txn::{
    after_preload, after_preload_grows, preloaded, steps, tasks_at, tasks_listed,
    AfterView, Txn, TxnView,
};

verus! {

/// The message of a refused acquirer of a task that exists.
pub open spec fn already_exists() -> OutcomeView {
    failed(409, "Already exists"@)
}

/// The message of a refused settlement.
pub open spec fn stale_version() -> ReplyView {
    ReplyView::Error(409, "Task version mismatch or invalid state"@)
}

/// The end of a request that commits, then replies with an empty object.
pub open spec fn done() -> OutcomeView {
    OutcomeView::Commit(ReplyView::Data(200, ReplyDataView::Empty))
}

/// Commit, then reply with an empty object.
fn reply_empty() -> (r: Outcome)
    ensures
        r@ == done(),
{
    Outcome::Commit(Reply::ok(ReplyData::Empty))
}

/// `task` as `pid` acquires it: the version increments and nothing is left
/// unobserved.
pub open spec fn taken(task: StoredTaskView, pid: Text, ttl: i64) -> StoredTaskView {
    StoredTaskView {
        state: TaskState::Acquired,
        version: task.version.wrapping_add(1),
        pid: Some(pid),
        ttl: Some(ttl),
        resumes: Set::empty(),
        ..task
    }
}

/// The lease of a task with a `ttl` of milliseconds.
pub open spec fn lease(ttl: i64) -> std::time::Duration {
    millis(at_least_zero(ttl))
}

/// Acquire a delivered task for `pid` with a lease of `ttl` milliseconds: the
/// held claim's lease is renewed and the version increments. `false` when the
/// task's claim is not held or its lease has ended. The task is written where it
/// is sent, after the deadlines of its siblings.
pub fn acquire(txn: &mut Txn, task: &mut StoredTask, pid: &str, ttl: i64) -> (r: Result<bool, Call>)
    requires
        old(txn).wf(),
    ensures
        steps(
            *old(txn),
            *final(txn),
            r,
            |w: World| old(txn)@.renew(w, old(task)@.id, lease(ttl)),
        ),
        r matches Ok(held) ==> final(task)@ == (if held {
            taken(old(task)@, pid@, ttl)
        } else {
            old(task)@
        }) && forall|w: World| #[trigger]
            old(txn).facts.describe(w) ==> held == old(txn)@.renews(w, old(task)@.id),
{
    if !txn.renew(&task.id, lease_of(ttl))? {
        return Ok(false);
    }
    task.state = TaskState::Acquired;
    task.version = task.version.wrapping_add(1);
    task.pid = Some(copied(pid));
    task.ttl = Some(ttl);
    task.resumes = IdSet::new();
    Ok(true)
}

/// What becomes of a request that sends `task` with its promise and the preloaded
/// siblings of the promise. The deadlines of the siblings are applied before the
/// task is written, so that it comes to be as it is sent. A fulfilled task comes
/// without siblings.
pub open spec fn task_viewed(w: World, t: TxnView, task: StoredTaskView) -> (
    TxnView,
    OutcomeView,
) {
    let read = t.read_promise(task.id);
    match t.promise(w, task.id) {
        None => (read, OutcomeView::Orphan(task.id)),
        Some(row) => if task.state == TaskState::Fulfilled {
            (read, work(task.record(), row.record, Seq::empty()))
        } else {
            (
                after_preload(w, read, row.record).put_task(task),
                work(task.record(), row.record, preloaded(w, read, row.record)),
            )
        },
    }
}

/// The end of a request that commits, then replies with a task, its promise and
/// the siblings of the promise.
pub open spec fn work(task: TaskView, promise: PromiseView, preload: Seq<PromiseView>) -> OutcomeView {
    OutcomeView::Commit(ReplyView::Data(200, ReplyDataView::Work(task, promise, preload)))
}

/// Write a task that is not fulfilled, commit, then reply with the task, its
/// promise and the preloaded siblings of the promise.
pub fn task_view(txn: &mut Txn, task: &StoredTask) -> (r: Result<Outcome, Call>)
    requires
        old(txn).wf(),
    ensures
        ends(*old(txn), *final(txn), r, |w: World| task_viewed(w, old(txn)@, task@)),
{
    broadcast use after_preload_grows;

    let promise = match txn.get_promise(&task.id)? {
        Some(promise) => promise,
        None => {
            return Ok(Outcome::Orphan(copied(&task.id)));
        },
    };
    if task.state == TaskState::Fulfilled {
        let none: Vec<PromiseRecord> = Vec::new();
        assert(viewed(none@) =~= Seq::<PromiseView>::empty());
        let reply = ReplyData::Work(task.record(), promise.record, none);
        return Ok(Outcome::Commit(Reply::ok(reply)));
    }
    let preload = txn.preload(&promise.record)?;
    txn.put_task(task);
    Ok(Outcome::Commit(Reply::ok(ReplyData::Work(task.record(), promise.record, preload))))
}

/// The view of a task keeps the calls a request depends on.
pub broadcast proof fn task_viewed_grows(w: World, t: TxnView, task: StoredTaskView, call: CallView)
    requires
        t.asked.contains(call),
    ensures
        #[trigger] task_viewed(w, t, task).0.asked.contains(call),
{
    broadcast use after_preload_grows;

}

/// The first rule that a task to create breaks, if it breaks one.
/// `target_is_url` says whether its promise's target, where it has one, is a
/// URL.
pub open spec fn task_create_refusal(
    kind: Text,
    pid: Text,
    ttl: i64,
    create: CreateView,
    target_is_url: bool,
) -> Option<ReplyView> {
    if kind != "promise.create"@ {
        Some(ReplyView::Error(400, "Invalid action kind"@))
    } else if pid.len() == 0 {
        Some(ReplyView::Error(400, "Process ID is required"@))
    } else if ttl < 1 {
        Some(ReplyView::Error(400, "TTL must be positive"@))
    } else if create_refusal(create, target_is_url) is Some {
        create_refusal(create, target_is_url)
    } else if !create.tags.contains_key(TAG_TARGET@) {
        Some(ReplyView::Error(400, "resonate:target tag is required"@))
    } else if create.tags.contains_key(TAG_DELAY@) {
        Some(ReplyView::Error(400, "resonate:delay tag is not allowed"@))
    } else {
        None
    }
}

/// Check a task to create against every rule, given whether its promise's
/// target, where it has one, is a URL.
pub fn check_task_create(data: &TaskCreateData, target_is_url: bool) -> (r: Option<Reply>)
    ensures
        refused(r) == task_create_refusal(
            data.action.kind@,
            data.pid@,
            data.ttl,
            data.action.data@,
            target_is_url,
        ),
{
    if !text_eq(&data.action.kind, "promise.create") {
        return Some(Reply::err(400, "Invalid action kind"));
    }
    if data.pid.as_str().is_empty() {
        return Some(Reply::err(400, "Process ID is required"));
    }
    if data.ttl < 1 {
        return Some(Reply::err(400, "TTL must be positive"));
    }
    if let Some(reply) = check_create(&data.action.data, target_is_url) {
        return Some(reply);
    }
    if !data.action.data.tags.contains_key(TAG_TARGET) {
        return Some(Reply::err(400, "resonate:target tag is required"));
    }
    if data.action.data.tags.contains_key(TAG_DELAY) {
        return Some(Reply::err(400, "resonate:delay tag is not allowed"));
    }
    None
}

/// Whether a pending task's job is claimed: its claim is held, or the job is
/// claimed by id.
pub open spec fn job_claimed(w: World, t: TxnView, task: StoredTaskView) -> bool {
    t.holds(w) || task.job is Some && (w.claims)(t.after_holds(w, task.id).turn)
}

/// The request after it made sure that a pending task's job is claimed.
pub open spec fn claiming(w: World, t: TxnView, task: StoredTaskView, ttl: i64) -> TxnView {
    let looked = t.after_holds(w, task.id);
    if !t.holds(w) && task.job is Some {
        looked.claim_job(task.id, task.job->0, lease(ttl))
    } else {
        looked
    }
}

/// Make sure that a pending task's job is claimed.
fn claim_pending(txn: &mut Txn, task: &StoredTask, ttl: i64) -> (r: Result<bool, Call>)
    requires
        old(txn).wf(),
    ensures
        steps(*old(txn), *final(txn), r, |w: World| claiming(w, old(txn)@, task@, ttl)),
        r matches Ok(claimed) ==> forall|w: World| #[trigger]
            old(txn).facts.describe(w) ==> claimed == job_claimed(w, old(txn)@, task@),
{
    if txn.holds(&task.id)? {
        return Ok(true);
    }
    match &task.job {
        Some(job) => txn.claim_job(&task.id, job, lease_of(ttl)),
        None => Ok(false),
    }
}

/// What becomes of a request to create a task that is pending: it is acquired,
/// where its job is claimed.
pub open spec fn pending_taken(
    w: World,
    t: TxnView,
    task: StoredTaskView,
    pid: Text,
    ttl: i64,
) -> (TxnView, OutcomeView) {
    let claimed = claiming(w, t, task, ttl);
    let tried = claimed.renew(w, task.id, lease(ttl));
    if !job_claimed(w, t, task) {
        (claimed, already_exists())
    } else if !claimed.renews(w, task.id) {
        (tried, already_exists())
    } else {
        task_viewed(w, tried, taken(task, pid, ttl))
    }
}

/// Acquire a pending task, where its job is claimed.
fn take_pending(txn: &mut Txn, task: &mut StoredTask, pid: &str, ttl: i64) -> (r: Result<
    Outcome,
    Call,
>)
    requires
        old(txn).wf(),
    ensures
        ends(
            *old(txn),
            *final(txn),
            r,
            |w: World| pending_taken(w, old(txn)@, old(task)@, pid@, ttl),
        ),
{
    broadcast use task_viewed_grows;

    if !claim_pending(txn, task, ttl)? {
        return Ok(fail(409, "Already exists"));
    }
    if !acquire(txn, task, pid, ttl)? {
        return Ok(fail(409, "Already exists"));
    }
    task_view(txn, task)
}

/// The task of a promise just created, with its promise and siblings.
pub open spec fn new_task_viewed(w: World, t: TxnView, id: Text) -> (TxnView, OutcomeView) {
    match t.task(w, id) {
        Some(task) => task_viewed(w, t.read_task(id), task),
        None => (t.read_task(id), OutcomeView::Orphan(id)),
    }
}

/// What becomes of a valid task to create.
pub open spec fn task_taking(w: World, t: TxnView, create: CreateView, pid: Text, ttl: i64) -> (
    TxnView,
    OutcomeView,
) {
    let timed = due(w, t, create.id);
    let read = timed.read_task(create.id);
    match timed.task(w, create.id) {
        Some(task) => match task.state {
            TaskState::Pending => pending_taken(w, read, task, pid, ttl),
            TaskState::Fulfilled => task_viewed(w, read, task),
            _ => (read, already_exists()),
        },
        None => {
            let both = read.read_promise(create.id);
            if read.promise(w, create.id) is Some {
                (both, failed(422, "The promise does not have a resonate:target tag"@))
            } else {
                new_task_viewed(
                    w,
                    created(w, both, create, None, ModeView::Acquire(pid, ttl)),
                    create.id,
                )
            }
        },
    }
}

/// Create a task that is valid, acquired, or acquire the one that exists and is
/// pending.
pub fn take_task(txn: &mut Txn, create: &PromiseCreateData, pid: &str, ttl: i64) -> (r: Result<
    Outcome,
    Call,
>)
    requires
        old(txn).wf(),
    ensures
        ends(*old(txn), *final(txn), r, |w: World| task_taking(w, old(txn)@, create@, pid@, ttl)),
{
    broadcast use {due_grows, due_keeps, created_grows, task_viewed_grows};

    apply_deadline(txn, &create.id)?;
    if let Some(mut task) = txn.get_task(&create.id)? {
        return match task.state {
            TaskState::Pending => take_pending(txn, &mut task, pid, ttl),
            TaskState::Fulfilled => task_view(txn, &task),
            TaskState::Acquired | TaskState::Suspended | TaskState::Halted => Ok(
                fail(409, "Already exists"),
            ),
        };
    }
    if txn.get_promise(&create.id)?.is_some() {
        return Ok(fail(422, "The promise does not have a resonate:target tag"));
    }
    let mode = CreateMode::Acquire(copied(pid), ttl);
    let promise = create_promise(txn, create, None, &mode)?;
    match txn.get_task(&promise.record.id)? {
        Some(task) => task_view(txn, &task),
        None => Ok(Outcome::Orphan(promise.record.id)),
    }
}

/// What becomes of a task to create, where `refusal` is its refusal.
pub open spec fn task_creation(
    w: World,
    t: TxnView,
    create: CreateView,
    pid: Text,
    ttl: i64,
    refusal: Option<ReplyView>,
) -> (TxnView, OutcomeView) {
    match refusal {
        Some(reply) => (t, OutcomeView::Reply(reply)),
        None => task_taking(w, t, create, pid, ttl),
    }
}

/// Create a task with its promise, acquired by the caller.
pub fn task_create(txn: &mut Txn, data: &TaskCreateData) -> (r: Result<Outcome, Call>)
    requires
        old(txn).wf(),
    ensures
        ends(
            *old(txn),
            *final(txn),
            r,
            |w: World|
                task_creation(
                    w,
                    old(txn)@,
                    data.action.data@,
                    data.pid@,
                    data.ttl,
                    task_create_refusal(
                        data.action.kind@,
                        data.pid@,
                        data.ttl,
                        data.action.data@,
                        target_parses(data.action.data@.tags),
                    ),
                ),
        ),
{
    let target_is_url = match data.action.data.tags.get(TAG_TARGET) {
        Some(target) => is_url(target),
        None => true,
    };
    if let Some(reply) = check_task_create(data, target_is_url) {
        return Ok(Outcome::Reply(reply));
    }
    take_task(txn, &data.action.data, &data.pid, data.ttl)
}

/// What becomes of a task to acquire.
pub open spec fn task_acquisition(
    w: World,
    t: TxnView,
    id: Text,
    version: i64,
    pid: Text,
    ttl: i64,
) -> (TxnView, OutcomeView) {
    let timed = due(w, t, id);
    let read = timed.read_task(id);
    match timed.task(w, id) {
        None => (read, failed(404, "Task not found"@)),
        Some(task) => if task.state != TaskState::Pending {
            (read, failed(409, "Task is not pending"@))
        } else if task.version != version {
            (read, failed(409, "Version mismatch"@))
        } else {
            let tried = read.renew(w, task.id, lease(ttl));
            if read.renews(w, task.id) {
                task_viewed(w, tried, taken(task, pid, ttl))
            } else {
                (tried, failed(409, "Task is not pending"@))
            }
        },
    }
}

/// Acquire a delivered task.
pub fn task_acquire(txn: &mut Txn, data: &TaskAcquireData) -> (r: Result<Outcome, Call>)
    requires
        old(txn).wf(),
    ensures
        ends(
            *old(txn),
            *final(txn),
            r,
            |w: World|
                task_acquisition(w, old(txn)@, data.id@, data.version, data.pid@, data.ttl),
        ),
{
    broadcast use {due_grows, task_viewed_grows};

    apply_deadline(txn, &data.id)?;
    let mut task = match txn.get_task(&data.id)? {
        Some(task) => task,
        None => {
            return Ok(fail(404, "Task not found"));
        },
    };
    if task.state != TaskState::Pending {
        return Ok(fail(409, "Task is not pending"));
    }
    if task.version != data.version {
        return Ok(fail(409, "Version mismatch"));
    }
    if !acquire(txn, &mut task, &data.pid, data.ttl)? {
        return Ok(fail(409, "Task is not pending"));
    }
    task_view(txn, &task)
}

/// What becomes of a task to release.
pub open spec fn task_releasing(w: World, t: TxnView, id: Text, version: i64) -> (
    TxnView,
    OutcomeView,
) {
    let timed = due(w, t, id);
    let read = timed.read_task(id);
    match timed.task(w, id) {
        None => (read, failed(404, "Task not found"@)),
        Some(task) => if !task.is_acquired_at(version) {
            (read, OutcomeView::Commit(stale_version()))
        } else {
            (
                read.put_task(task.moved(TaskState::Pending)).later(AfterView::Nack(task.id)),
                done(),
            )
        },
    }
}

/// Release an acquired task: its job returns to pending and is delivered again.
pub fn task_release(txn: &mut Txn, data: &TaskVersionData) -> (r: Result<Outcome, Call>)
    requires
        old(txn).wf(),
    ensures
        ends(
            *old(txn),
            *final(txn),
            r,
            |w: World| task_releasing(w, old(txn)@, data.id@, data.version),
        ),
{
    broadcast use due_grows;

    apply_deadline(txn, &data.id)?;
    let mut task = match txn.get_task(&data.id)? {
        Some(task) => task,
        None => {
            return Ok(fail(404, "Task not found"));
        },
    };
    if !task.is_acquired_at(data.version) {
        return Ok(fail(409, "Task version mismatch or invalid state"));
    }
    task.transition(TaskState::Pending);
    txn.put_task(&task);
    txn.nack_after_commit(&task.id);
    Ok(reply_empty())
}

/// The end of a request that settles the held claim of `task` with its commit,
/// where the claim is held with a live lease. Otherwise nothing is committed,
/// and the request is answered with a version conflict.
pub open spec fn settlement_committed(w: World, t: TxnView, task: Text, reply: ReplyView) -> (
    TxnView,
    OutcomeView,
) {
    (
        t.after_holds(w, task),
        if t.holds(w) {
            OutcomeView::Settle(reply, task)
        } else {
            OutcomeView::Reply(stale_version())
        },
    )
}

/// Commit a settlement in the transaction that acknowledges the held claim of
/// `task`. A claim whose lease ended leaves the store unchanged and is reported
/// as a version conflict, as the task's job is pending again.
pub fn commit_settlement(txn: &mut Txn, task: &str, reply: Reply) -> (r: Result<Outcome, Call>)
    requires
        old(txn).wf(),
    ensures
        ends(
            *old(txn),
            *final(txn),
            r,
            |w: World| settlement_committed(w, old(txn)@, task@, reply@),
        ),
{
    if txn.holds(task)? {
        Ok(Outcome::Settle(reply, copied(task)))
    } else {
        Ok(reject(409, "Task version mismatch or invalid state"))
    }
}

/// What becomes of a valid task to fulfil.
pub open spec fn fulfilling(w: World, t: TxnView, id: Text, version: i64, settle: SettleView) -> (
    TxnView,
    OutcomeView,
) {
    let timed = due(w, t, id);
    let read = timed.read_task(id);
    match timed.task(w, id) {
        None => (read, failed(404, "Task not found"@)),
        Some(task) => if !task.is_acquired_at(version) {
            (read, OutcomeView::Commit(stale_version()))
        } else {
            let both = read.read_promise(id);
            match read.promise(w, id) {
                None => (both, failed(404, "Promise not found"@)),
                Some(row) => {
                    let looked = both.after_holds(w, task.id);
                    if !both.holds(w) {
                        (looked, OutcomeView::Commit(stale_version()))
                    } else {
                        let after = settling(w, looked, row, settle);
                        settlement_committed(
                            w,
                            after.0,
                            task.id,
                            ReplyView::Data(200, ReplyDataView::Promise(after.1.record)),
                        )
                    }
                },
            }
        },
    }
}

/// What becomes of a task to fulfil.
pub open spec fn task_fulfillment(
    w: World,
    t: TxnView,
    id: Text,
    version: i64,
    kind: Text,
    settle: SettleView,
) -> (TxnView, OutcomeView) {
    if kind != "promise.settle"@ {
        (t, rejected(400, "Invalid action kind"@))
    } else if settle.id != id {
        (t, rejected(400, "Action must settle the task's promise"@))
    } else {
        fulfilling(w, t, id, version, settle)
    }
}

/// Fulfil an acquired task by settling its promise, while its claim is held.
pub fn task_fulfill(txn: &mut Txn, data: &TaskFulfillData) -> (r: Result<Outcome, Call>)
    requires
        old(txn).wf(),
    ensures
        ends(
            *old(txn),
            *final(txn),
            r,
            |w: World|
                task_fulfillment(
                    w,
                    old(txn)@,
                    data.id@,
                    data.version,
                    data.action.kind@,
                    data.action.data@,
                ),
        ),
{
    broadcast use {due_grows, settling_grows};

    if !text_eq(&data.action.kind, "promise.settle") {
        return Ok(reject(400, "Invalid action kind"));
    }
    if !text_eq(&data.action.data.id, &data.id) {
        return Ok(reject(400, "Action must settle the task's promise"));
    }
    apply_deadline(txn, &data.id)?;
    let task = match txn.get_task(&data.id)? {
        Some(task) => task,
        None => {
            return Ok(fail(404, "Task not found"));
        },
    };
    if !task.is_acquired_at(data.version) {
        return Ok(fail(409, "Task version mismatch or invalid state"));
    }
    let mut promise = match txn.get_promise(&data.id)? {
        Some(promise) => promise,
        None => {
            return Ok(fail(404, "Promise not found"));
        },
    };
    if !txn.holds(&task.id)? {
        return Ok(fail(409, "Task version mismatch or invalid state"));
    }
    settle_pending(txn, &mut promise, &data.action.data)?;
    let reply = Reply::ok(ReplyData::Promise(promise.record));
    commit_settlement(txn, &task.id, reply)
}

/// What becomes of a request for a task.
pub open spec fn task_reading(w: World, t: TxnView, id: Text) -> (TxnView, OutcomeView) {
    let timed = due(w, t, id);
    (
        timed.read_task(id),
        match timed.task(w, id) {
            Some(task) => OutcomeView::Commit(
                ReplyView::Data(200, ReplyDataView::Task(task.record())),
            ),
            None => failed(404, "Task not found"@),
        },
    )
}

/// Give a task.
pub fn task_get(txn: &mut Txn, data: &IdData) -> (r: Result<Outcome, Call>)
    requires
        old(txn).wf(),
    ensures
        ends(*old(txn), *final(txn), r, |w: World| task_reading(w, old(txn)@, data.id@)),
{
    broadcast use due_grows;

    apply_deadline(txn, &data.id)?;
    match txn.get_task(&data.id)? {
        Some(task) => Ok(Outcome::Commit(Reply::ok(ReplyData::Task(task.record())))),
        None => Ok(fail(404, "Task not found")),
    }
}

/// What becomes of a task to halt.
pub open spec fn task_halting(w: World, t: TxnView, id: Text) -> (TxnView, OutcomeView) {
    let timed = due(w, t, id);
    let read = timed.read_task(id);
    match timed.task(w, id) {
        None => (read, failed(404, "Task not found"@)),
        Some(task) => match task.state {
            TaskState::Fulfilled => (read, failed(409, "Task is fulfilled"@)),
            TaskState::Halted => (read, done()),
            _ => (
                read.put_task(task.moved(TaskState::Halted)).later(AfterView::Release(task.id)),
                done(),
            ),
        },
    }
}

/// Halt a task. A held claim is acknowledged: the job ends. A job still waiting
/// for delivery is dropped at its delivery.
pub fn task_halt(txn: &mut Txn, data: &IdData) -> (r: Result<Outcome, Call>)
    requires
        old(txn).wf(),
    ensures
        ends(*old(txn), *final(txn), r, |w: World| task_halting(w, old(txn)@, data.id@)),
{
    broadcast use due_grows;

    apply_deadline(txn, &data.id)?;
    let mut task = match txn.get_task(&data.id)? {
        Some(task) => task,
        None => {
            return Ok(fail(404, "Task not found"));
        },
    };
    match task.state {
        TaskState::Fulfilled => {
            return Ok(fail(409, "Task is fulfilled"));
        },
        TaskState::Halted => {},
        TaskState::Pending | TaskState::Acquired | TaskState::Suspended => {
            task.transition(TaskState::Halted);
            txn.put_task(&task);
            txn.release(&task.id);
        },
    }
    Ok(reply_empty())
}

/// Whether a job of `task` still waits for delivery.
pub open spec fn waiting(w: World, task: StoredTaskView) -> bool {
    task.job is Some && w.jobs.contains(task.job->0)
}

/// What becomes of a task to continue.
pub open spec fn task_continuing(w: World, t: TxnView, id: Text) -> (TxnView, OutcomeView) {
    let timed = due(w, t, id);
    let read = timed.read_task(id);
    match timed.task(w, id) {
        None => (read, failed(404, "Task not found"@)),
        Some(task) => if task.state != TaskState::Halted {
            (read, failed(409, "Task is not halted"@))
        } else {
            let pending = task.moved(TaskState::Pending);
            let written = read.put_task(pending);
            let looked = if task.job is Some {
                written.ask(CallView::Job(task.job->0))
            } else {
                written
            };
            (
                if waiting(w, task) {
                    looked
                } else {
                    looked.dispatch(w, pending, None)
                },
                done(),
            )
        },
    }
}

/// Continue a halted task. A job still waiting for delivery dispatches the
/// task; otherwise it is dispatched again.
pub fn task_continue(txn: &mut Txn, data: &IdData) -> (r: Result<Outcome, Call>)
    requires
        old(txn).wf(),
    ensures
        ends(*old(txn), *final(txn), r, |w: World| task_continuing(w, old(txn)@, data.id@)),
{
    broadcast use due_grows;

    apply_deadline(txn, &data.id)?;
    let mut task = match txn.get_task(&data.id)? {
        Some(task) => task,
        None => {
            return Ok(fail(404, "Task not found"));
        },
    };
    if task.state != TaskState::Halted {
        return Ok(fail(409, "Task is not halted"));
    }
    task.transition(TaskState::Pending);
    txn.put_task(&task);
    let waiting = match &task.job {
        Some(job) => txn.job_exists(job)?,
        None => false,
    };
    if !waiting {
        txn.dispatch(&mut task, None)?;
    }
    Ok(reply_empty())
}

/// Whether `pid` holds `task`, acquired at `version`, with a lease.
pub open spec fn held_by(task: StoredTaskView, pid: Text, version: i64) -> bool {
    task.is_acquired_at(version) && task.pid == Some(pid) && task.ttl is Some
}

/// The request after the heartbeat of one task.
pub open spec fn beaten(w: World, t: TxnView, pid: Text, entry: TaskVersionView) -> TxnView {
    let read = t.read_task(entry.id);
    match t.task(w, entry.id) {
        Some(task) => if held_by(task, pid, entry.version) {
            read.renew(w, task.id, lease(task.ttl->0))
        } else {
            read
        },
        None => read,
    }
}

/// The request after the heartbeat of every task.
pub open spec fn all_beaten(w: World, t: TxnView, pid: Text, entries: Seq<TaskVersionView>) -> TxnView
    decreases entries.len(),
{
    if entries.len() == 0 {
        t
    } else {
        beaten(w, all_beaten(w, t, pid, entries.drop_last()), pid, entries.last())
    }
}

/// More heartbeats depend on every call that fewer do.
proof fn all_beaten_prefix(
    w: World,
    t: TxnView,
    pid: Text,
    entries: Seq<TaskVersionView>,
    n: int,
    call: CallView,
)
    requires
        0 <= n <= entries.len(),
        all_beaten(w, t, pid, entries.take(n)).asked.contains(call),
    ensures
        all_beaten(w, t, pid, entries).asked.contains(call),
    decreases entries.len(),
{
    if n == entries.len() {
        assert(entries.take(n) =~= entries);
    } else {
        assert(entries.drop_last().take(n) =~= entries.take(n));
        all_beaten_prefix(w, t, pid, entries.drop_last(), n, call);
    }
}

/// Renew the lease of one task, where `pid` holds it.
fn beat(txn: &mut Txn, pid: &str, entry: &TaskVersionData) -> (r: Result<(), Call>)
    requires
        old(txn).wf(),
    ensures
        steps(*old(txn), *final(txn), r, |w: World| beaten(w, old(txn)@, pid@, entry@)),
{
    let task = match txn.get_task(&entry.id)? {
        Some(task) => task,
        None => {
            return Ok(());
        },
    };
    let owned = match &task.pid {
        Some(owner) => text_eq(owner, pid),
        None => false,
    };
    if task.is_acquired_at(entry.version) && owned {
        if let Some(ttl) = task.ttl {
            txn.renew(&task.id, lease_of(ttl))?;
        }
    }
    Ok(())
}

/// Renew the leases of the tasks that a worker still holds.
pub fn task_heartbeat(txn: &mut Txn, data: &TaskHeartbeatData) -> (r: Result<Outcome, Call>)
    requires
        old(txn).wf(),
    ensures
        ends(
            *old(txn),
            *final(txn),
            r,
            |w: World| (all_beaten(w, old(txn)@, data.pid@, viewed(data.tasks@)), done()),
        ),
{
    let ghost t = txn@;
    let ghost all = viewed(data.tasks@);
    assert(all.take(0) =~= Seq::<TaskVersionView>::empty());
    let mut i: usize = 0;
    while i < data.tasks.len()
        invariant
            i <= data.tasks.len(),
            all == viewed(data.tasks@),
            txn.wf(),
            txn.facts == old(txn).facts,
            t == old(txn)@,
            forall|w: World| #[trigger]
                txn.facts.describe(w) ==> txn@ == all_beaten(w, t, data.pid@, all.take(i as int)),
        decreases data.tasks.len() - i,
    {
        let ghost next = all.take(i + 1);
        assert(next.drop_last() =~= all.take(i as int));
        assert(next.last() == data.tasks@[i as int]@);
        let done = beat(txn, &data.pid, &data.tasks[i]);
        if let Err(call) = done {
            proof {
                assert forall|w: World| #[trigger] old(txn).facts.describe(w) implies all_beaten(
                    w,
                    t,
                    data.pid@,
                    all,
                ).asked.contains(call@) by {
                    assert(all_beaten(w, t, data.pid@, next).asked.contains(call@));
                    all_beaten_prefix(w, t, data.pid@, all, i + 1, call@);
                }
            }
            return Err(call);
        }
        i += 1;
    }
    assert(all.take(i as int) =~= all);
    Ok(reply_empty())
}

/// The wire forms of stored tasks.
pub open spec fn task_records(tasks: Seq<StoredTaskView>) -> Seq<TaskView> {
    Seq::new(tasks.len(), |i: int| tasks[i].record())
}

/// The tasks that a search looks for.
pub open spec fn tasks_found(tasks: Seq<TaskView>, state: Option<TaskState>) -> Seq<TaskView> {
    tasks.filter(|task: TaskView| state is Some ==> task.state == state->0)
}

/// The id of a task.
pub open spec fn task_id() -> spec_fn(TaskView) -> Text {
    |task: TaskView| task.id
}

/// The id of a task.
fn id_of_task(task: &TaskRecord) -> (r: &str)
    ensures
        r@ == task@.id,
{
    &task.id
}

/// What becomes of a search of tasks.
pub open spec fn tasks_search(w: World, t: TxnView, data: TaskSearchData) -> (
    TxnView,
    OutcomeView,
) {
    match limit_of(data.limit, DEFAULT_SEARCH_LIMIT) {
        Err(reply) => (t, OutcomeView::Reply(reply)),
        Ok(limit) => {
            let listed = tasks_at(tasks_listed(w, t), w.all_tasks());
            let found = tasks_found(task_records(listed), data.state);
            let part = page_of(found, task_id(), text_opt(data.cursor), limit);
            (
                tasks_listed(w, t),
                OutcomeView::Commit(ReplyView::Data(200, ReplyDataView::Tasks(part.0, part.1))),
            )
        },
    }
}

/// Search the tasks by state, once the deadline of the promise of each is applied.
pub fn task_search(txn: &mut Txn, data: &TaskSearchData) -> (r: Result<Outcome, Call>)
    requires
        old(txn).wf(),
    ensures
        ends(*old(txn), *final(txn), r, |w: World| tasks_search(w, old(txn)@, *data)),
{
    let limit: usize = match search_limit(data.limit, DEFAULT_SEARCH_LIMIT) {
        Ok(limit) => limit,
        Err(reply) => {
            return Ok(Outcome::Reply(reply));
        },
    };
    let tasks = txn.tasks()?;
    let ghost all = task_records(viewed(tasks@));
    let ghost keep = |task: TaskView| data.state is Some ==> task.state == data.state->0;
    let mut found: Vec<TaskRecord> = Vec::new();
    let mut i: usize = 0;
    assert(all.take(0) =~= Seq::<TaskView>::empty());
    assert(viewed(found@) =~= all.take(0).filter(keep)) by {
        reveal(Seq::filter);
    }
    while i < tasks.len()
        invariant
            i <= tasks.len(),
            all == task_records(viewed(tasks@)),
            keep == |task: TaskView| data.state is Some ==> task.state == data.state->0,
            viewed(found@) == all.take(i as int).filter(keep),
        decreases tasks.len() - i,
    {
        let record = tasks[i].record();
        let ghost before = found@;
        let ghost next = all.take(i + 1);
        assert(next.drop_last() =~= all.take(i as int));
        assert(next.last() == record@);
        let matches_state = match data.state {
            Some(state) => record.state == state,
            None => true,
        };
        proof {
            reveal(Seq::filter);
        }
        if matches_state {
            found.push(record);
            assert(viewed(found@) =~= viewed(before).push(record@));
        }
        i += 1;
    }
    assert(all.take(i as int) =~= all);
    let cursor = match &data.cursor {
        Some(cursor) => Some(cursor.as_str()),
        None => None,
    };
    let ghost listed = found@;
    let (part, next) = page(found, id_of_task, cursor, limit);
    proof {
        let id = |task: TaskRecord| task@.id;
        assert(gives(id_of_task, id));
        page_viewed(listed, id, task_id(), text_opt(data.cursor), limit);
    }
    Ok(Outcome::Commit(Reply::ok(ReplyData::Tasks(part, next))))
}

} // verus!
