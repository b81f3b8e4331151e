//! The fence: an action on another promise of the task's origin, done only
//! while the task is acquired at the worker's version.

use vstd::prelude::*;
use crate::calls::{Call, CallView, World};
use crate::creation::{create_promise, created, created_grows, created_row, CreateMode, ModeView};
use crate::data::{CreateView, PromiseCreateData, PromiseSettleData, SettleView, TaskFenceData};
use crate::envelope::{
    json_string, json_string_at, ActionData, ActionDataView, HeadView, Reply, ReplyData,
    ReplyDataView, ReplyView, ResponseHead,
};
use crate::outcome::{ends, fail, failed, reject, rejected, Outcome, OutcomeView};
use crate::promises::{settle_pending, settling, settling_grows};
use crate::records::{origin, origin_of, Text, PROTOCOL_VERSION, TAG_TARGET};
use crate::rules::{check_create, create_refusal, is_url, target_parses};
use crate::settlement::{all_timed_out, all_timed_out_grows, slices, try_timeout};
use crate::text::{concat, copied, text_eq, text_opt};
use crate::txn::{after_preload, after_preload_grows, preloaded, steps, Txn, TxnView};

verus! {

/// How the action inside a fence ends.
pub enum ActionEnd {
    /// The status and the data of the action's own response.
    Response(u16, ActionData),
    /// The action ends the request.
    Request(Outcome),
}

/// How the action inside a fence ends, in contracts.
pub enum ActionEndView {
    Response(u16, ActionDataView),
    Request(OutcomeView),
}

impl View for ActionEnd {
    type V = ActionEndView;

    open spec fn view(&self) -> ActionEndView {
        match self {
            ActionEnd::Response(status, data) => ActionEndView::Response(*status, data@),
            ActionEnd::Request(outcome) => ActionEndView::Request(outcome@),
        }
    }
}

/// A decoded value in contracts.
pub open spec fn decoded<T: View>(r: Result<T, String>) -> Result<T::V, Text> {
    match r {
        Ok(value) => Ok(value@),
        Err(e) => Err(e@),
    }
}

/// The end of a request whose action's data does not decode.
pub open spec fn undecoded(error: Text) -> ActionEndView {
    ActionEndView::Request(rejected(400, "Invalid action data: "@ + error))
}

/// What becomes of a fenced creation. `target_is_url` says whether the
/// promise's target, where it has one, is a URL.
pub open spec fn fenced_create(
    w: World,
    t: TxnView,
    create: Result<CreateView, Text>,
    target_is_url: bool,
) -> (TxnView, ActionEndView) {
    match create {
        Err(error) => (t, undecoded(error)),
        Ok(create) => match create_refusal(create, target_is_url) {
            Some(reply) => (t, ActionEndView::Request(OutcomeView::Reply(reply))),
            None => {
                let read = t.read_promise(create.id);
                match t.promise(w, create.id) {
                    Some(row) => (
                        read,
                        ActionEndView::Response(200, ActionDataView::Promise(row.record)),
                    ),
                    None => (
                        created(w, read, create, None, ModeView::Dispatch),
                        ActionEndView::Response(
                            200,
                            ActionDataView::Promise(created_row(create, None, t.now).record),
                        ),
                    ),
                }
            },
        },
    }
}

/// What becomes of a fenced settlement.
pub open spec fn fenced_settle(w: World, t: TxnView, settle: Result<SettleView, Text>) -> (
    TxnView,
    ActionEndView,
) {
    match settle {
        Err(error) => (t, undecoded(error)),
        Ok(settle) => {
            let read = t.read_promise(settle.id);
            match t.promise(w, settle.id) {
                None => (
                    read,
                    ActionEndView::Response(404, ActionDataView::Message("Promise not found"@)),
                ),
                Some(row) => {
                    let after = settling(w, read, row, settle);
                    (
                        after.0,
                        ActionEndView::Response(200, ActionDataView::Promise(after.1.record)),
                    )
                },
            }
        },
    }
}

/// What becomes of a fenced action.
pub open spec fn fenced_action(
    w: World,
    t: TxnView,
    kind: Text,
    create: Result<CreateView, Text>,
    settle: Result<SettleView, Text>,
    target_is_url: bool,
) -> (TxnView, ActionEndView) {
    if kind == "promise.create"@ {
        fenced_create(w, t, create, target_is_url)
    } else if kind == "promise.settle"@ {
        fenced_settle(w, t, settle)
    } else {
        (t, ActionEndView::Request(rejected(400, "Invalid fence action kind"@)))
    }
}

/// A fenced action keeps the calls a request depends on.
pub broadcast proof fn fenced_action_grows(
    w: World,
    t: TxnView,
    kind: Text,
    create: Result<CreateView, Text>,
    settle: Result<SettleView, Text>,
    target_is_url: bool,
    call: CallView,
)
    requires
        t.asked.contains(call),
    ensures
        #[trigger] fenced_action(w, t, kind, create, settle, target_is_url).0.asked.contains(call),
{
    broadcast use {created_grows, settling_grows};

}

/// What `steps` says, for a step that gives the end of an action.
pub open spec fn acts(
    before: Txn,
    after: Txn,
    r: Result<ActionEnd, Call>,
    run: spec_fn(World) -> (TxnView, ActionEndView),
) -> bool {
    &&& steps(before, after, r, |w: World| run(w).0)
    &&& r matches Ok(end) ==> forall|w: World| #[trigger]
        before.facts.describe(w) ==> end@ == run(w).1
}

/// The end of a request whose action's data does not decode.
fn not_decoded(error: &str) -> (r: ActionEnd)
    ensures
        r@ == undecoded(error@),
{
    ActionEnd::Request(Outcome::Reply(Reply::Error(400, concat("Invalid action data: ", error))))
}

/// Create the promise of a fenced action, or give the one that exists.
fn fence_create(
    txn: &mut Txn,
    create: &Result<PromiseCreateData, String>,
    target_is_url: bool,
) -> (r: Result<ActionEnd, Call>)
    requires
        old(txn).wf(),
    ensures
        acts(
            *old(txn),
            *final(txn),
            r,
            |w: World| fenced_create(w, old(txn)@, decoded(*create), target_is_url),
        ),
{
    broadcast use created_grows;

    let create = match create {
        Ok(create) => create,
        Err(error) => {
            return Ok(not_decoded(error));
        },
    };
    if let Some(reply) = check_create(create, target_is_url) {
        return Ok(ActionEnd::Request(Outcome::Reply(reply)));
    }
    let promise = match txn.get_promise(&create.id)? {
        Some(existing) => existing,
        None => create_promise(txn, create, None, &CreateMode::Dispatch)?,
    };
    Ok(ActionEnd::Response(200, ActionData::Promise(promise.record)))
}

/// Settle the promise of a fenced action.
fn fence_settle(txn: &mut Txn, settle: &Result<PromiseSettleData, String>) -> (r: Result<
    ActionEnd,
    Call,
>)
    requires
        old(txn).wf(),
    ensures
        acts(
            *old(txn),
            *final(txn),
            r,
            |w: World| fenced_settle(w, old(txn)@, decoded(*settle)),
        ),
{
    broadcast use settling_grows;

    let settle = match settle {
        Ok(settle) => settle,
        Err(error) => {
            return Ok(not_decoded(error));
        },
    };
    let mut promise = match txn.get_promise(&settle.id)? {
        Some(promise) => promise,
        None => {
            let message = copied("Promise not found");
            return Ok(ActionEnd::Response(404, ActionData::Message(message)));
        },
    };
    settle_pending(txn, &mut promise, settle)?;
    Ok(ActionEnd::Response(200, ActionData::Promise(promise.record)))
}

/// Do the action of a fence.
fn fence_action(txn: &mut Txn, data: &TaskFenceData, target_is_url: bool) -> (r: Result<
    ActionEnd,
    Call,
>)
    requires
        old(txn).wf(),
    ensures
        acts(
            *old(txn),
            *final(txn),
            r,
            |w: World|
                fenced_action(
                    w,
                    old(txn)@,
                    data.action.kind@,
                    decoded(data.action.data.create),
                    decoded(data.action.data.settle),
                    target_is_url,
                ),
        ),
{
    if text_eq(&data.action.kind, "promise.create") {
        fence_create(txn, &data.action.data.create, target_is_url)
    } else if text_eq(&data.action.kind, "promise.settle") {
        fence_settle(txn, &data.action.data.settle)
    } else {
        Ok(ActionEnd::Request(reject(400, "Invalid fence action kind")))
    }
}

/// The end of a fenced request whose action ended with `end`.
pub open spec fn fence_replied(
    w: World,
    t: TxnView,
    id: Text,
    kind: Text,
    corr_id: Text,
    end: ActionEndView,
) -> (TxnView, OutcomeView) {
    match end {
        ActionEndView::Request(outcome) => (t, outcome),
        ActionEndView::Response(status, data) => {
            let read = t.read_promise(id);
            match t.promise(w, id) {
                None => (read, OutcomeView::Orphan(id)),
                Some(own) => (
                    after_preload(w, read, own.record),
                    OutcomeView::Commit(
                        ReplyView::Data(
                            200,
                            ReplyDataView::Action(
                                kind,
                                HeadView { corr_id, status, version: PROTOCOL_VERSION@ },
                                data,
                                preloaded(w, read, own.record),
                            ),
                        ),
                    ),
                ),
            }
        },
    }
}

/// The reply of a fence keeps the calls a request depends on.
pub broadcast proof fn fence_replied_grows(
    w: World,
    t: TxnView,
    id: Text,
    kind: Text,
    corr_id: Text,
    end: ActionEndView,
    call: CallView,
)
    requires
        t.asked.contains(call),
    ensures
        #[trigger] fence_replied(w, t, id, kind, corr_id, end).0.asked.contains(call),
{
    broadcast use after_preload_grows;

}

/// Reply to a fence whose action ended with `end`.
fn fence_reply(txn: &mut Txn, id: &str, kind: &str, corr_id: &str, end: ActionEnd) -> (r: Result<
    Outcome,
    Call,
>)
    requires
        old(txn).wf(),
    ensures
        ends(
            *old(txn),
            *final(txn),
            r,
            |w: World| fence_replied(w, old(txn)@, id@, kind@, corr_id@, end@),
        ),
{
    broadcast use after_preload_grows;

    let (status, data): (u16, ActionData) = match end {
        ActionEnd::Response(status, data) => (status, data),
        ActionEnd::Request(outcome) => {
            return Ok(outcome);
        },
    };
    let own = match txn.get_promise(id)? {
        Some(own) => own,
        None => {
            return Ok(Outcome::Orphan(copied(id)));
        },
    };
    let preload = txn.preload(&own.record)?;
    let head = ResponseHead {
        corr_id: copied(corr_id),
        status,
        version: copied(PROTOCOL_VERSION),
    };
    Ok(Outcome::Commit(Reply::ok(ReplyData::Action(copied(kind), head, data, preload))))
}

/// What becomes of a fence whose task is held: its action, then its reply.
pub open spec fn fenced(
    w: World,
    t: TxnView,
    data: TaskFenceData,
    corr_id: Text,
    target_is_url: bool,
) -> (TxnView, OutcomeView) {
    let kind = data.action.kind@;
    let acted = fenced_action(
        w,
        t,
        kind,
        decoded(data.action.data.create),
        decoded(data.action.data.settle),
        target_is_url,
    );
    fence_replied(w, acted.0, data.id@, kind, corr_id, acted.1)
}

/// What becomes of a fence whose action names the promise `action_id`.
pub open spec fn fencing(
    w: World,
    t: TxnView,
    data: TaskFenceData,
    corr_id: Text,
    action_id: Text,
    target_is_url: bool,
) -> (TxnView, OutcomeView) {
    let timed = all_timed_out(w, t, seq![data.id@, action_id]);
    let read = timed.read_task(data.id@);
    match timed.task(w, data.id@) {
        None => (read, failed(404, "Task not found"@)),
        Some(task) => if !task.is_acquired_at(data.version) {
            (read, failed(409, "Version mismatch"@))
        } else {
            fenced(w, read, data, corr_id, target_is_url)
        },
    }
}

/// What becomes of a fence. `action_id` is the id that the action's data names,
/// and `target_is_url` says whether the target of the promise it creates, where
/// it has one, is a URL.
pub open spec fn task_fencing(
    w: World,
    t: TxnView,
    data: TaskFenceData,
    corr_id: Text,
    action_id: Option<Text>,
    target_is_url: bool,
) -> (TxnView, OutcomeView) {
    if action_id is None {
        (t, rejected(400, "Action promise ID is required"@))
    } else if action_id->0 == data.id@ {
        (t, rejected(400, "Action promise must differ from the task's promise"@))
    } else if origin(action_id->0) != origin(data.id@) {
        (t, rejected(400, "Action must belong to the task's origin"@))
    } else {
        fencing(w, t, data, corr_id, action_id->0, target_is_url)
    }
}

/// Do an action on another promise while a task is held, given the id that the
/// action's data names and whether the target of the promise it creates, where
/// it has one, is a URL.
pub fn fence_with(
    txn: &mut Txn,
    data: &TaskFenceData,
    corr_id: &str,
    action_id: Option<String>,
    target_is_url: bool,
) -> (r: Result<Outcome, Call>)
    requires
        old(txn).wf(),
    ensures
        ends(
            *old(txn),
            *final(txn),
            r,
            |w: World|
                task_fencing(w, old(txn)@, *data, corr_id@, text_opt(action_id), target_is_url),
        ),
{
    broadcast use {all_timed_out_grows, fenced_action_grows, fence_replied_grows};

    let action_id = match action_id {
        Some(action_id) => action_id,
        None => {
            return Ok(reject(400, "Action promise ID is required"));
        },
    };
    if text_eq(&action_id, &data.id) {
        return Ok(reject(400, "Action promise must differ from the task's promise"));
    }
    if !text_eq(origin_of(&action_id), origin_of(&data.id)) {
        return Ok(reject(400, "Action must belong to the task's origin"));
    }
    let ids: Vec<&str> = vec![data.id.as_str(), action_id.as_str()];
    assert(slices(ids@) =~= seq![data.id@, action_id@]);
    try_timeout(txn, &ids)?;
    let task = match txn.get_task(&data.id)? {
        Some(task) => task,
        None => {
            return Ok(fail(404, "Task not found"));
        },
    };
    if !task.is_acquired_at(data.version) {
        return Ok(fail(409, "Version mismatch"));
    }
    let end = fence_action(txn, data, target_is_url)?;
    fence_reply(txn, &data.id, &data.action.kind, corr_id, end)
}

/// Whether the target of the promise that a fence creates, where it creates one
/// with a target, is a URL.
pub open spec fn fence_target_parses(data: TaskFenceData) -> bool {
    match decoded(data.action.data.create) {
        Ok(create) => target_parses(create.tags),
        Err(_) => true,
    }
}

/// Do an action on another promise while a task is held.
pub fn task_fence(txn: &mut Txn, data: &TaskFenceData, corr_id: &str) -> (r: Result<Outcome, Call>)
    requires
        old(txn).wf(),
    ensures
        ends(
            *old(txn),
            *final(txn),
            r,
            |w: World|
                task_fencing(
                    w,
                    old(txn)@,
                    *data,
                    corr_id@,
                    json_string_at(data.action.data.raw@, "/id"@),
                    fence_target_parses(*data),
                ),
        ),
{
    let action_id = json_string(&data.action.data.raw, "/id");
    let target_is_url = match &data.action.data.create {
        Ok(create) => match create.tags.get(TAG_TARGET) {
            Some(target) => is_url(target),
            None => true,
        },
        Err(_) => true,
    };
    fence_with(txn, data, corr_id, action_id, target_is_url)
}

} // verus!
