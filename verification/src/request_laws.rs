//! What becomes of an envelope, of a delivery and of the effects of a request, told
//! by their fields.

use vstd::prelude::*;
use crate::calls::{at, World};
use crate::commit::{action_for, claimant, ActionView};
use crate::consequences::{by_deadline, late, orderly, settles_to, untouched};
use crate::envelope::{refusal, ReplyDataView, ReplyView, RequestView};
use crate::error::Error;
use crate::kernel::{
    delivered, handled, operation_of, performed, DeliveryView, MessageView, Operation,
    OperationData,
};
use crate::keys::KeyView;
use crate::network::{anycast_of, unicast_of};
use crate::outcome::OutcomeView;
use crate::promises::due;
use crate::records::{TaskState, Text};
use crate::task_laws::{a_task_after_its_deadline, is_late, only_task_then, unheld};
use crate::txn::{AfterView, RowView, TxnView};

verus! {

/// The kind of the requests for an operation.
pub open spec fn kind_name(operation: Operation) -> Text {
    match operation {
        Operation::PromiseCreate => "promise.create"@,
        Operation::PromiseGet => "promise.get"@,
        Operation::PromiseSettle => "promise.settle"@,
        Operation::PromiseRegisterCallback => "promise.register_callback"@,
        Operation::PromiseRegisterListener => "promise.register_listener"@,
        Operation::PromiseSearch => "promise.search"@,
        Operation::TaskCreate => "task.create"@,
        Operation::TaskAcquire => "task.acquire"@,
        Operation::TaskRelease => "task.release"@,
        Operation::TaskFulfill => "task.fulfill"@,
        Operation::TaskSuspend => "task.suspend"@,
        Operation::TaskFence => "task.fence"@,
        Operation::TaskHeartbeat => "task.heartbeat"@,
        Operation::TaskGet => "task.get"@,
        Operation::TaskHalt => "task.halt"@,
        Operation::TaskContinue => "task.continue"@,
        Operation::TaskSearch => "task.search"@,
        Operation::ScheduleCreate => "schedule.create"@,
        Operation::ScheduleGet => "schedule.get"@,
        Operation::ScheduleDelete => "schedule.delete"@,
        Operation::ScheduleSearch => "schedule.search"@,
    }
}

/// The kinds of requests are different texts.
proof fn kinds_differ()
    ensures
        forall|a: Operation, b: Operation| #[trigger] kind_name(a) == #[trigger] kind_name(b) ==> a
            == b,
{
    reveal_strlit("promise.create");
    reveal_strlit("promise.get");
    reveal_strlit("promise.settle");
    reveal_strlit("promise.register_callback");
    reveal_strlit("promise.register_listener");
    reveal_strlit("promise.search");
    reveal_strlit("task.create");
    reveal_strlit("task.acquire");
    reveal_strlit("task.release");
    reveal_strlit("task.fulfill");
    reveal_strlit("task.suspend");
    reveal_strlit("task.fence");
    reveal_strlit("task.heartbeat");
    reveal_strlit("task.get");
    reveal_strlit("task.halt");
    reveal_strlit("task.continue");
    reveal_strlit("task.search");
    reveal_strlit("schedule.create");
    reveal_strlit("schedule.get");
    reveal_strlit("schedule.delete");
    reveal_strlit("schedule.search");
    assert forall|a: Operation, b: Operation| #[trigger] kind_name(a) == #[trigger] kind_name(
        b,
    ) implies a == b by {
        let x = kind_name(a);
        let y = kind_name(b);
        assert(x.len() == y.len());
        assert(x[0] == y[0] && x[5] == y[5] && x[7] == y[7] && x[8] == y[8]);
        if x.len() > 9 {
            assert(x[9] == y[9] && x[x.len() - 1] == y[y.len() - 1]);
        }
        if x.len() > 17 {
            assert(x[17] == y[17]);
        }
    }
}

/// A kind names an operation where it is its name, and no other does.
pub proof fn a_kind_names_one_operation(kind: Text, operation: Operation)
    ensures
        operation_of(kind) == Some(operation) <==> kind == kind_name(operation),
{
    kinds_differ();
    if let Some(found) = operation_of(kind) {
        assert(kind == kind_name(found));
    }
    if kind == kind_name(operation) {
        assert(operation_of(kind) is Some);
        assert(kind_name(operation_of(kind)->0) == kind_name(operation));
    }
}

/// A request whose kind names no operation, or whose data does not decode, is
/// refused and changes nothing; any other is performed.
pub proof fn handling_a_request(
    w: World,
    preload_limit: usize,
    now: i64,
    kind: Text,
    corr_id: Text,
    data: Result<OperationData, String>,
)
    ensures
        ({
            let start = TxnView::start(preload_limit, now);
            let end = handled(w, start, kind, corr_id, data);
            let known = exists|operation: Operation| kind == #[trigger] kind_name(operation);
            if !known {
                untouched(end.0) && end.1 == OutcomeView::Reply(
                    ReplyView::Error(400, "Unknown operation: "@ + kind),
                )
            } else {
                match data {
                    Err(error) => untouched(end.0) && end.1 == OutcomeView::Reply(
                        ReplyView::Error(400, "Invalid request: "@ + error@),
                    ),
                    Ok(data) => end == performed(w, start, corr_id, data),
                }
            }
        }),
{
    if let Some(operation) = operation_of(kind) {
        a_kind_names_one_operation(kind, operation);
    }
    assert forall|operation: Operation| kind == #[trigger] kind_name(operation) implies operation_of(
        kind,
    ) is Some by {
        a_kind_names_one_operation(kind, operation);
    }
}

/// Whether a decoded request is in order.
pub open spec fn request_in_order(request: RequestView, is_object: bool) -> bool {
    &&& request.kind.len() > 0
    &&& request.version matches Some(version) ==> version == "2026-04-01"@
    &&& is_object
}

/// An envelope is refused where its text is no JSON, does not decode, or holds a
/// request that is not in order. The refusal names the fault and, where the text
/// is JSON, the kind and the correlation id that it holds.
pub proof fn an_envelope_is_refused_for_a_fault(
    error: Option<Text>,
    kind: Option<Text>,
    corr_id: Option<Text>,
    decoded: Result<RequestView, Text>,
    is_object: bool,
)
    ensures
        match (error, decoded) {
            (Some(error), _) => refusal(Some(error), kind, corr_id, decoded, is_object) matches Some(
                refused,
            ) && refused.kind.len() == 0 && refused.corr_id.len() == 0 && refused.message
                == "Invalid request: "@ + error,
            (None, Err(error)) => refusal(None, kind, corr_id, decoded, is_object) matches Some(
                refused,
            ) && refused.message == "Invalid request: "@ + error && (kind matches Some(kind)
                ==> refused.kind == kind) && (corr_id matches Some(id) ==> refused.corr_id == id)
                && (kind is None ==> refused.kind.len() == 0) && (corr_id is None
                ==> refused.corr_id.len() == 0),
            (None, Ok(request)) => if request_in_order(request, is_object) {
                refusal(None, kind, corr_id, decoded, is_object) is None
            } else {
                refusal(None, kind, corr_id, decoded, is_object) matches Some(refused) && (
                kind matches Some(kind) ==> refused.kind == kind) && (corr_id matches Some(id)
                    ==> refused.corr_id == id) && (kind is None ==> refused.kind.len() == 0) && (
                corr_id is None ==> refused.corr_id.len() == 0) && (if request.kind.len() == 0 {
                    refused.message == "Request kind is required"@
                } else if request.version is Some && request.version->0 != "2026-04-01"@ {
                    refused.message == "Unsupported protocol version: "@ + request.version->0
                } else {
                    refused.message == "Request data must be an object"@ && !is_object
                })
            },
        },
{
}

/// A reply is sent with its status, and with its data or the message of its error.
pub proof fn a_reply_is_sent_whole(status: u16, data: ReplyDataView, message: Text)
    ensures
        ReplyView::Data(status, data).status() == status,
        ReplyView::Data(status, data).data() == data,
        ReplyView::Error(status, message).status() == status,
        ReplyView::Error(status, message).data() == ReplyDataView::Message(message),
{
}

/// An unblock message is passed on as it is, and its job acknowledged; nothing else
/// is done.
pub proof fn delivering_an_unblock(w: World, preload_limit: usize, now: i64, message: Text)
    ensures
        ({
            let end = delivered(
                w,
                TxnView::start(preload_limit, now),
                DeliveryView::Unblock(message),
            );
            &&& end.1 == Some(MessageView::Unblock(message))
            &&& end.0.after == seq![AfterView::Ack]
            &&& end.0.writes.len() == 0 && end.0.writes.dom().finite()
            &&& end.0.enqueues.len() == 0
        }),
{
    let end = delivered(w, TxnView::start(preload_limit, now), DeliveryView::Unblock(message));
    assert(end.0.after =~= seq![AfterView::Ack]);
}

/// The dispatch of a task that waits for it is passed on at the task's version, and
/// its claim held for the task. A task that was acquired has lost its lease: it is
/// pending again at its version. Any other dispatch is stale: its job is
/// acknowledged, and nothing is passed on. The deadline of the task's promise is
/// applied first.
pub proof fn delivering_a_task(w: World, preload_limit: usize, now: i64, id: Text)
    requires
        orderly(w),
    ensures
        ({
            let end = delivered(
                w,
                TxnView::start(preload_limit, now),
                DeliveryView::Execute(id),
            );
            if is_late(w, id, now) {
                let row = at(w.promises, id)->0;
                &&& end.1 is None
                &&& end.0.after.len() > 0 && end.0.after.last() == AfterView::Ack
                &&& settles_to(
                    w,
                    TxnView { after: end.0.after.drop_last(), ..end.0 },
                    now,
                    row,
                    by_deadline(row.record),
                )
            } else {
                match at(w.tasks, id) {
                    Some(task) => if task.state == TaskState::Pending {
                        &&& end.1 == Some(MessageView::Execute(id, task.version))
                        &&& end.0.after == seq![AfterView::Hold(id)]
                        &&& end.0.writes == Map::<KeyView, Option<RowView>>::empty()
                        &&& end.0.enqueues.len() == 0
                    } else if task.state == TaskState::Acquired {
                        &&& end.1 == Some(MessageView::Execute(id, task.version))
                        &&& only_task_then(
                            end.0,
                            id,
                            unheld(task, TaskState::Pending),
                            seq![AfterView::Hold(id)],
                        )
                    } else {
                        stale_delivery(end)
                    },
                    None => stale_delivery(end),
                }
            }
        }),
{
    let t = TxnView::start(preload_limit, now);
    let end = delivered(w, t, DeliveryView::Execute(id));
    a_task_after_its_deadline(w, t, id);
    if is_late(w, id, now) {
        let row = at(w.promises, id)->0;
        let read = due(w, t, id).read_task(id);
        let before = TxnView { after: end.0.after.drop_last(), ..end.0 };
        assert(end.0.after.drop_last() =~= read.after);
        assert(before == read);
        assert(late(row, now));
    } else if let Some(task) = at(w.tasks, id) {
        if task.state == TaskState::Acquired {
            assert(end.0.writes =~= map![
                KeyView::Task(id) => Some(RowView::Task(unheld(task, TaskState::Pending))),
            ]);
        }
        if task.state == TaskState::Acquired || task.state == TaskState::Pending {
            assert(end.0.after =~= seq![AfterView::Hold(id)]);
        } else {
            assert(end.0.after =~= seq![AfterView::Ack]);
        }
    } else {
        assert(end.0.after =~= seq![AfterView::Ack]);
    }
}

/// Whether a delivery acknowledges its job and does nothing else.
pub open spec fn stale_delivery(end: (TxnView, Option<MessageView>)) -> bool {
    &&& end.1 is None
    &&& end.0.after == seq![AfterView::Ack]
    &&& end.0.writes == Map::<KeyView, Option<RowView>>::empty()
    &&& end.0.enqueues.len() == 0
}

/// A request commits every job that it enqueued, in order, every record that it
/// wrote and every deletion, and nothing else; it has something to commit where it
/// did any of this.
pub proof fn what_is_done_is_committed(t: TxnView, key: KeyView)
    ensures
        t.effects().enqueues == t.enqueues,
        t.effects().puts.contains_key(key) <==> t.writes.contains_key(key) && t.writes[key] is Some,
        t.effects().puts.contains_key(key) ==> t.writes[key] == Some(t.effects().puts[key]),
        t.effects().deletes.contains(key) <==> t.writes.contains_key(key) && t.writes[key] is None,
        t.writes.contains_key(key) || t.enqueues.len() > 0 ==> t.has_effects(),
        t.has_effects() ==> t.enqueues.len() > 0 || exists|k: KeyView| #[trigger]
            t.writes.contains_key(k),
{
    if t.has_effects() && t.enqueues.len() == 0 {
        if forall|k: KeyView| !#[trigger] t.writes.contains_key(k) {
            assert(t.writes =~= Map::<KeyView, Option<RowView>>::empty());
        }
    }
}

/// What follows a commit: a delivered claim is acknowledged, or held for its task;
/// the held claim of a task is acknowledged where it is released and failed where
/// it is given back, if it is held; and a job is claimed for its task with its
/// lease.
pub proof fn claims_follow_the_commit(
    task: Text,
    job: Text,
    lease: std::time::Duration,
    held: bool,
)
    ensures
        action_for(AfterView::Ack, held) == ActionView::AckDelivered,
        action_for(AfterView::Hold(task), held) == ActionView::HoldDelivered(task),
        action_for(AfterView::Release(task), true) == ActionView::AckHeld(task),
        action_for(AfterView::Nack(task), true) == ActionView::NackHeld(task),
        action_for(AfterView::Release(task), false) == ActionView::Nothing,
        action_for(AfterView::Nack(task), false) == ActionView::Nothing,
        action_for(AfterView::Claim(task, job, lease), held) == ActionView::Claim(task, job, lease),
        claimant(AfterView::Release(task)) == Some(task),
        claimant(AfterView::Nack(task)) == Some(task),
        claimant(AfterView::Ack) is None,
        claimant(AfterView::Hold(task)) is None,
        claimant(AfterView::Claim(task, job, lease)) is None,
{
}

/// The reply to a request that the store fails tells of the failure and its cause.
pub proof fn an_error_tells_its_cause(cause: String)
    ensures
        Error::Storage(cause).text() == "storage error: "@ + cause@,
        Error::Decode(cause).text() == "stored record does not decode: "@ + cause@,
{
}

/// Groups have different anycast addresses, workers of a group different unicast
/// addresses, and no address is both. Workers of different groups have different
/// addresses, where no group holds a slash.
pub proof fn addresses_tell_workers_apart(group: Text, pid: Text, other: Text, worker: Text)
    ensures
        anycast_of(group) == anycast_of(other) ==> group == other,
        unicast_of(group, pid) == unicast_of(group, worker) ==> pid == worker,
        anycast_of(group) != unicast_of(other, worker),
        !group.contains('/') && !other.contains('/') && unicast_of(group, pid) == unicast_of(
            other,
            worker,
        ) ==> group == other && pid == worker,
{
    reveal_strlit("poll://any@");
    reveal_strlit("poll://uni@");
    reveal_strlit("/");
    let any = "poll://any@"@;
    let uni = "poll://uni@"@;
    assert(any.len() == 11 && uni.len() == 11 && any[7] == 'a' && uni[7] == 'u');
    assert(anycast_of(group).skip(11) =~= group);
    assert(anycast_of(other).skip(11) =~= other);
    assert(anycast_of(group)[7] == 'a');
    assert(unicast_of(other, worker)[7] == 'u');
    let a = unicast_of(group, pid);
    let b = unicast_of(other, worker);
    let n = group.len() as int;
    let m = other.len() as int;
    assert(a.skip(12 + n) =~= pid);
    assert(unicast_of(group, worker).skip(12 + n) =~= worker);
    assert(b.skip(12 + m) =~= worker);
    assert(a.subrange(11, 11 + n) =~= group);
    assert(b.subrange(11, 11 + m) =~= other);
    assert(a[11 + n] == '/');
    assert(b[11 + m] == '/');
    if !group.contains('/') && !other.contains('/') && a == b {
        if n < m {
            assert(other[n] == b[11 + n]);
            assert(other.contains('/'));
        }
        if m < n {
            assert(group[m] == a[11 + m]);
            assert(group.contains('/'));
        }
    }
}

} // verus!
