//! What a fence does, told by the stored records and the fields of its action.

use vstd::prelude::*;
use crate::agreement::{
    deadlines_are_applied, fenced_action_keeps, grows, same_writes_keep, steps_grow,
};
use crate::awaiting::tasks_keyed;
use crate::calls::{at, CallView, World};
use crate::consequences::{
    a_deadline_is_applied_first, a_settlement_has_its_consequences, a_settlement_sends_to_listeners,
    by_client, by_deadline, deadlines_let_go_on, deadlines_settle_what_is_late, late, orderly,
    sends_from, sends_to_listeners, sent_stays, settles_if_late, settles_to, settles_to_stays,
    untouched,
};
use crate::creation::{created, created_row, ModeView};
use crate::data::{CreateView, SettleView, TaskFenceData};
use crate::envelope::{json_string_at, ActionDataView, HeadView, ReplyDataView, ReplyView};
use crate::fence::{decoded, fence_replied, fence_target_parses, fenced_action, ActionEndView};
use crate::history::{due_is_one_deadline, in_agreement, start_valid};
use crate::index::in_branch;
use crate::kernel::{performed, OperationData};
use crate::keys::{branch_prefix_of, KeyView};
use crate::outcome::OutcomeView;
use crate::promise_laws::{
    a_creation_has_its_effects, a_promise_is_refused_for_a_fault, acceptable, creates,
    creation_jobs, descends_from, fails_with, names_a_fault, new_promise, one_origin,
    share_an_origin, starts_at, two_deadlines,
};
use crate::promises::{due, settling};
use crate::records::{PromiseState, PromiseView, StoredPromiseView, TaskState, Text};
use crate::settlement::{all_timed_out, settled_chain};
use crate::sibling_laws::{
    deadlines_keep_the_limit, deadlines_write_finitely, sending_siblings_changes_nothing,
    settlements_keep_the_limit, settlements_write_finitely, shown_with, siblings_are_left_as_sent,
    siblings_as_they_are_left, siblings_settled,
};
use crate::task_laws::{
    is_late, nobody_late, paired, preload_adds, preload_only_adds, settlements_keep_the_turn,
};
use crate::txn::{
    after_preload, after_preload_grows, after_scan, after_scan_keeps, read_all_keeps, siblings,
    siblings_timed_out, TxnView, SCAN_PAGE,
};

verus! {

/// Whether a fence ends with the response of its action: the status and the data
/// of the action under the correlation id of the request, with what the task is
/// shown of its siblings.
pub open spec fn responds(
    w: World,
    end: (TxnView, OutcomeView),
    kind: Text,
    corr_id: Text,
    own: PromiseView,
    status: u16,
    data: ActionDataView,
) -> bool {
    end.1 matches OutcomeView::Commit(
        ReplyView::Data(whole, ReplyDataView::Action(named, head, shown, preload)),
    ) && whole == 200 && named == kind && head == (HeadView {
        corr_id,
        status,
        version: "2026-04-01"@,
    }) && shown == data && shown_with(w, end.0, own, preload) && siblings_settled(
        w,
        end.0,
        end.0.now,
        preload,
    )
}

/// A stored promise without registrations.
pub open spec fn bare(record: PromiseView) -> StoredPromiseView {
    StoredPromiseView { record, callbacks: Seq::empty(), listeners: Seq::empty() }
}

/// Whether the siblings that a request shows with `own` have no deadline to apply.
pub open spec fn alone(w: World, own: PromiseView, now: i64) -> bool {
    !own.tags.contains_key("resonate:branch"@) || nobody_late(w, now)
}

/// What a fenced creation does: it gives the promise that exists, once its
/// deadline is applied, or creates one with the fields of the action.
pub open spec fn creates_fenced(
    w: World,
    end: (TxnView, OutcomeView),
    now: i64,
    corr_id: Text,
    own: PromiseView,
    create: CreateView,
) -> bool {
    let kind = "promise.create"@;
    match at(w.promises, create.id) {
        None => {
            let promise = new_promise(create, now, now);
            &&& responds(w, end, kind, corr_id, own, 200, ActionDataView::Promise(promise))
            &&& end.0.promise(w, create.id) == Some(bare(promise))
            &&& now < create.timeout_at ==> creation_jobs(
                promise,
                (w.job_ids)(0),
                starts_at(create.tags, now),
            ).is_prefix_of(end.0.enqueues)
            &&& alone(w, own, now) ==> creates(w, end.0, create, now, now)
        },
        Some(row) => given(w, end, now, kind, corr_id, own, row),
    }
}

/// Whether a fence gives the stored promise `row`, settled by its deadline where it
/// is past it and otherwise as it is.
pub open spec fn given(
    w: World,
    end: (TxnView, OutcomeView),
    now: i64,
    kind: Text,
    corr_id: Text,
    own: PromiseView,
    row: StoredPromiseView,
) -> bool {
    if late(row, now) {
        let settled = by_deadline(row.record);
        &&& responds(w, end, kind, corr_id, own, 200, ActionDataView::Promise(settled))
        &&& end.0.promise(w, row.record.id) == Some(bare(settled))
        &&& sends_to_listeners(end.0, row, settled)
        &&& alone(w, own, now) ==> settles_to(w, end.0, now, row, settled)
    } else {
        &&& responds(w, end, kind, corr_id, own, 200, ActionDataView::Promise(row.record))
        &&& end.0.promise(w, row.record.id) == Some(row)
        &&& alone(w, own, now) ==> untouched(end.0)
    }
}

/// What a fenced settlement does: it gives a pending promise the state and the
/// value of the action, at the time of the request, with all that the settlement
/// brings about; one that is settled, by its deadline or before, is given as it
/// is.
pub open spec fn settles_fenced(
    w: World,
    end: (TxnView, OutcomeView),
    now: i64,
    corr_id: Text,
    own: PromiseView,
    settle: SettleView,
) -> bool {
    let kind = "promise.settle"@;
    match at(w.promises, settle.id) {
        None => {
            &&& responds(
                w,
                end,
                kind,
                corr_id,
                own,
                404,
                ActionDataView::Message("Promise not found"@),
            )
            &&& alone(w, own, now) ==> untouched(end.0)
        },
        Some(row) => if row.record.state != PromiseState::Pending || late(row, now) {
            given(w, end, now, kind, corr_id, own, row)
        } else {
            let settled = by_client(row.record, settle.state, settle.value, now);
            &&& responds(w, end, kind, corr_id, own, 200, ActionDataView::Promise(settled))
            &&& end.0.promise(w, settle.id) == Some(bare(settled))
            &&& sends_to_listeners(end.0, row, settled)
            &&& alone(w, own, now) ==> settles_to(w, end.0, now, row, settled)
        },
    }
}

/// Whether the data of a fence's action, where they decode, name the promise `id`.
pub open spec fn decodes_to(data: TaskFenceData, id: Text) -> bool {
    &&& data.action.data.create matches Ok(create) ==> create.id@ == id
    &&& data.action.data.settle matches Ok(settle) ==> settle.id@ == id
}

/// A refusal.
pub open spec fn refuses(message: Text) -> OutcomeView {
    OutcomeView::Reply(ReplyView::Error(400, message))
}

/// What becomes of a fence whose task is acquired at its version.
pub open spec fn fences(
    w: World,
    end: (TxnView, OutcomeView),
    now: i64,
    corr_id: Text,
    own: PromiseView,
    data: TaskFenceData,
) -> bool {
    if data.action.kind@ == "promise.create"@ {
        match data.action.data.create {
            Err(error) => end.1 == refuses("Invalid action data: "@ + error@),
            Ok(create) => if !acceptable(create@) {
                end.1 matches OutcomeView::Reply(ReplyView::Error(status, message)) && status
                    == 400 && names_a_fault(create@, message)
            } else {
                creates_fenced(w, end, now, corr_id, own, create@)
            },
        }
    } else if data.action.kind@ == "promise.settle"@ {
        match data.action.data.settle {
            Err(error) => end.1 == refuses("Invalid action data: "@ + error@),
            Ok(settle) => settles_fenced(w, end, now, corr_id, own, settle@),
        }
    } else {
        end.1 == refuses("Invalid fence action kind"@)
    }
}

/// A fence does its action, the creation or the settlement of another promise of
/// the task's origin, where the task is acquired at the version of the request.
/// Where it is not, the fence is answered with a conflict, and only the deadlines
/// of the two promises are applied.
pub proof fn fencing_an_action(
    w: World,
    preload_limit: usize,
    now: i64,
    corr_id: Text,
    data: TaskFenceData,
)
    requires
        orderly(w),
        paired(w, data.id@),
        json_string_at(data.action.data.raw@, "/id"@) matches Some(named) ==> decodes_to(
            data,
            named,
        ),
    ensures
        ({
            let end = performed(
                w,
                TxnView::start(preload_limit, now),
                corr_id,
                OperationData::TaskFence(data),
            );
            let id = data.id@;
            match json_string_at(data.action.data.raw@, "/id"@) {
                None => end.1 == refuses("Action promise ID is required"@) && untouched(end.0),
                Some(other) => if other == id {
                    end.1 == refuses("Action promise must differ from the task's promise"@)
                        && untouched(end.0)
                } else if !share_an_origin(other, id) {
                    end.1 == refuses("Action must belong to the task's origin"@) && untouched(
                        end.0,
                    )
                } else {
                    match at(w.tasks, id) {
                        None => {
                            &&& end.1 == fails_with(404, "Task not found"@)
                            &&& settles_if_late(w, end.0, now, id)
                            &&& settles_if_late(w, end.0, now, other)
                            &&& !is_late(w, id, now) && !is_late(w, other, now) ==> untouched(
                                end.0,
                            )
                        },
                        Some(task) => if is_late(w, id, now) || task.state != TaskState::Acquired
                            || task.version != data.version {
                            &&& end.1 == fails_with(409, "Version mismatch"@)
                            &&& settles_if_late(w, end.0, now, id)
                            &&& settles_if_late(w, end.0, now, other)
                            &&& !is_late(w, id, now) && !is_late(w, other, now) ==> untouched(
                                end.0,
                            )
                        } else {
                            fences(w, end, now, corr_id, at(w.promises, id)->0.record, data)
                        },
                    }
                },
            }
        }),
{
    let t = TxnView::start(preload_limit, now);
    let id = data.id@;
    let end = performed(w, t, corr_id, OperationData::TaskFence(data));
    if let Some(other) = json_string_at(data.action.data.raw@, "/id"@) {
        one_origin(other, id);
        if other != id && share_an_origin(other, id) {
            let both = seq![id, other];
            let timed = all_timed_out(w, t, both);
            let read = timed.read_task(id);
            assert forall|x: Text| #[trigger] t.promise(w, x) == at(w.promises, x) by {}
            assert forall|x: Text| #[trigger] t.task(w, x) == at(w.tasks, x) by {}
            assert(both[0] == id && both[1] == other);
            assert(both.contains(id) && both.contains(other));
            assert(tasks_keyed(w, t)) by {
                assert forall|x: Text| (#[trigger] t.task(w, x)) matches Some(task) ==> task.id
                    == x by {
                    assert(at(w.tasks, x) matches Some(task) ==> task.id == x);
                }
            }
            deadlines_settle_what_is_late(w, t, both, id);
            deadlines_settle_what_is_late(w, t, both, other);
            deadlines_let_go_on(w, t, both, id);
            assert(read.promise(w, id) == timed.promise(w, id));
            assert(read.promise(w, other) == timed.promise(w, other));
            if !is_late(w, id, now) && !is_late(w, other, now) {
                two_deadlines(w, t, id, other);
            }
            if let Some(task) = at(w.tasks, id) {
                if !is_late(w, id, now) && task.state == TaskState::Acquired && task.version
                    == data.version {
                    a_fence_acts(w, t, data, corr_id, other);
                } else {
                    assert(read.enqueues =~= read.enqueues.subrange(
                        0,
                        read.enqueues.len() as int,
                    ));
                    at_rest(w, timed, end.0, now, id, other);
                }
            } else {
                at_rest(w, timed, end.0, now, id, other);
            }
        }
    }
}

/// A request that goes on with the same writes and jobs has the deadlines applied
/// that it had.
proof fn at_rest(w: World, a: TxnView, b: TxnView, now: i64, id: Text, other: Text)
    requires
        settles_if_late(w, a, now, id),
        settles_if_late(w, a, now, other),
        a.writes == b.writes,
        a.enqueues == b.enqueues,
    ensures
        settles_if_late(w, b, now, id),
        settles_if_late(w, b, now, other),
{
    assert forall|x: Text| #[trigger] b.promise(w, x) == a.promise(w, x) by {}
    assert(a.enqueues.is_prefix_of(b.enqueues)) by {
        assert(a.enqueues =~= b.enqueues.subrange(0, a.enqueues.len() as int));
    }
    if let Some(row) = at(w.promises, id) {
        if late(row, now) {
            sent_stays(a, b, row, by_deadline(row.record));
        }
    }
    if let Some(row) = at(w.promises, other) {
        if late(row, now) {
            sent_stays(a, b, row, by_deadline(row.record));
        }
    }
}

/// The response of an action that has come to `here` shows the siblings of the
/// task, and changes nothing but by their deadlines.
proof fn a_response_is_shown(
    w: World,
    here: TxnView,
    own: StoredPromiseView,
    other: Text,
    kind: Text,
    corr_id: Text,
    status: u16,
    data: ActionDataView,
)
    requires
        orderly(w),
        here.promise(w, own.record.id) == Some(own),
        in_agreement(w) ==> grows(w, TxnView::start(here.preload_limit, here.now), here),
        here.writes.dom().finite(),
        forall|x: Text|
            (#[trigger] here.promise(w, x)) matches Some(row) ==> row.record.id == x && (x == other
                || at(w.promises, x) is Some),
        at(w.promises, other) is None ==> forall|branch: Text| #[trigger]
            in_branch(here.promise(w, other), branch) ==> !branch.contains('\0'),
        nobody_late(w, here.now) ==> forall|x: Text|
            (#[trigger] here.promise(w, x)) matches Some(row) ==> !late(row, here.now),
        forall|x: Text| #[trigger]
            here.promise(w, x) == at(w.promises, x) || settles_if_late(w, here, here.now, x),
    ensures
        ({
            let id = own.record.id;
            let end = fence_replied(
                w,
                here,
                id,
                kind,
                corr_id,
                ActionEndView::Response(status, data),
            );
            &&& responds(w, end, kind, corr_id, own.record, status, data)
            &&& here.enqueues.is_prefix_of(end.0.enqueues)
            &&& here.promise(w, other) matches Some(row) ==> !late(row, here.now)
                ==> end.0.promise(w, other) == Some(row)
            &&& here.asked.subset_of(end.0.asked)
            &&& alone(w, own.record, here.now) ==> end.0 == (TxnView {
                asked: end.0.asked,
                ..here
            })
        }),
{
    let id = own.record.id;
    let end = fence_replied(w, here, id, kind, corr_id, ActionEndView::Response(status, data));
    let read = here.read_promise(id);
    assert forall|x: Text| #[trigger] read.promise(w, x) == here.promise(w, x) by {}
    if in_agreement(w) {
        let start = TxnView::start(here.preload_limit, here.now);
        same_writes_keep(w, here, read);
        steps_grow(w, start, here, read);
    }
    siblings_as_they_are_left(w, read, own.record, other);
    assert forall|x: Text| #[trigger]
        read.promise(w, x) == at(w.promises, x) || settles_if_late(w, read, read.now, x) by {
        assert(read.promise(w, x) == here.promise(w, x));
        if here.promise(w, x) != at(w.promises, x) {
            at_rest(w, here, read, here.now, x, x);
        }
    }
    siblings_are_left_as_sent(w, read, own.record);
    preload_adds(w, read, own.record);
    siblings_keep_the_time(w, read, own.record);
    if let Some(row) = here.promise(w, other) {
        if !late(row, here.now) {
            preload_only_adds(w, read, own.record, other);
        }
    }
    assert forall|call: CallView| here.asked.contains(call) implies end.0.asked.contains(call) by {
        after_preload_grows(w, read, own.record, call);
    }
    if nobody_late(w, here.now) {
        assert forall|x: Text| (#[trigger] read.promise(w, x)) matches Some(row) ==> !late(
            row,
            read.now,
        ) by {
            assert(read.promise(w, x) == here.promise(w, x));
        }
        sending_siblings_changes_nothing(w, read, own.record);
    }
}

/// Sending siblings keeps the time of a request.
proof fn siblings_keep_the_time(w: World, t: TxnView, promise: PromiseView)
    requires
        forall|x: Text| (#[trigger] t.promise(w, x)) matches Some(row) ==> row.record.id == x,
    ensures
        after_preload(w, t, promise).now == t.now,
{
    if promise.tags.contains_key("resonate:branch"@) {
        let branch = promise.tags["resonate:branch"@];
        let prefix = branch_prefix_of(branch);
        let scanned = after_scan(w, t, prefix, promise.id, t.preload_limit, SCAN_PAGE);
        let ids = siblings(w, t, promise, branch);
        after_scan_keeps(w, t, prefix, promise.id, t.preload_limit, SCAN_PAGE);
        assert forall|x: Text| (#[trigger] scanned.promise(w, x)) matches Some(row)
            ==> row.record.id == x by {
            assert(scanned.promise(w, x) == t.promise(w, x));
        }
        deadlines_settle_what_is_late(w, scanned, ids, promise.id);
        read_all_keeps(siblings_timed_out(w, t, promise), ids);
    }
}

/// Where a fence has come to once the deadlines of its two promises are applied:
/// the task's promise is within its deadline, and a promise of another id is as it
/// is stored.
proof fn a_fence_starts(w: World, t: TxnView, id: Text, other: Text)
    requires
        orderly(w),
        t == TxnView::start(t.preload_limit, t.now),
        id != other,
        !is_late(w, id, t.now),
    ensures
        ({
            let here = all_timed_out(w, t, seq![id, other]).read_task(id).read_promise(other);
            &&& here.now == t.now
            &&& here.preload_limit == t.preload_limit
            &&& here.writes.dom().finite()
            &&& forall|x: Text|
                (#[trigger] here.promise(w, x)) matches Some(row) ==> row.record.id == x && at(
                    w.promises,
                    x,
                ) is Some
            &&& forall|x: Text| x != other ==> #[trigger] here.promise(w, x) == at(w.promises, x)
            &&& at(w.promises, other) is None ==> here.promise(w, other) is None
            &&& match at(w.promises, other) {
                Some(row) => if late(row, t.now) {
                    &&& here.promise(w, other) == Some(bare(by_deadline(row.record)))
                    &&& sends_to_listeners(here, row, by_deadline(row.record))
                    &&& settles_to(w, here, t.now, row, by_deadline(row.record))
                } else {
                    &&& here.promise(w, other) == Some(row)
                    &&& untouched(here)
                },
                None => here.promise(w, other) is None && untouched(here),
            }
            &&& in_agreement(w) ==> grows(
                w,
                t,
                all_timed_out(w, t, seq![id, other]).read_task(id),
            ) && grows(w, t, here)
        }),
{
    let both = seq![id, other];
    let timed = all_timed_out(w, t, both);
    let read = timed.read_task(id);
    let here = read.read_promise(other);
    assert forall|x: Text| #[trigger] t.promise(w, x) == at(w.promises, x) by {}
    assert(both[0] == id && both[1] == other);
    assert(both.contains(id) && both.contains(other));
    assert(t.writes.dom() =~= Set::empty());
    deadlines_write_finitely(w, t, both);
    deadlines_keep_the_limit(w, t, both);
    deadlines_settle_what_is_late(w, t, both, other);
    assert forall|x: Text| #[trigger] here.promise(w, x) == timed.promise(w, x) by {}
    assert forall|x: Text|
        (#[trigger] here.promise(w, x)) matches Some(row) ==> row.record.id == x && at(
            w.promises,
            x,
        ) is Some by {
        deadlines_settle_what_is_late(w, t, both, x);
    }
    assert forall|x: Text| x != other implies #[trigger] here.promise(w, x) == at(
        w.promises,
        x,
    ) by {
        deadlines_settle_what_is_late(w, t, both, x);
        if x != id {
            assert(!both.contains(x));
        }
    }
    if is_late(w, other, t.now) {
        let row = at(w.promises, other)->0;
        due_is_one_deadline(w, t, id);
        let one = due(w, t, id);
        assert(both.drop_last() =~= seq![id]);
        assert(one == all_timed_out(w, t, seq![id]));
        due_is_one_deadline(w, one, other);
        assert(timed == due(w, one, other));
        assert(untouched(one));
        a_deadline_is_applied_first(w, one, other);
        settles_to_stays(w, timed, here, t.now, row, by_deadline(row.record));
        assert(timed.enqueues =~= here.enqueues.subrange(0, timed.enqueues.len() as int));
        sent_stays(timed, here, row, by_deadline(row.record));
    } else {
        two_deadlines(w, t, id, other);
    }
    if in_agreement(w) {
        start_valid(w, t.preload_limit, t.now);
        deadlines_are_applied(w, t, both);
        same_writes_keep(w, timed, read);
        steps_grow(w, t, timed, read);
        same_writes_keep(w, read, here);
        steps_grow(w, t, read, here);
    }
}

/// The action of a fence whose task is held.
proof fn a_fence_acts(w: World, t: TxnView, data: TaskFenceData, corr_id: Text, other: Text)
    requires
        orderly(w),
        t == TxnView::start(t.preload_limit, t.now),
        paired(w, data.id@),
        json_string_at(data.action.data.raw@, "/id"@) == Some(other),
        decodes_to(data, other),
        data.id@ != other,
        share_an_origin(other, data.id@),
        !is_late(w, data.id@, t.now),
        at(w.tasks, data.id@) matches Some(task) && task.state == TaskState::Acquired
            && task.version == data.version,
    ensures
        fences(
            w,
            performed(w, t, corr_id, OperationData::TaskFence(data)),
            t.now,
            corr_id,
            at(w.promises, data.id@)->0.record,
            data,
        ),
{
    let id = data.id@;
    let end = performed(w, t, corr_id, OperationData::TaskFence(data));
    let own = at(w.promises, id)->0;
    let both = seq![id, other];
    let read = all_timed_out(w, t, both).read_task(id);
    let here = read.read_promise(other);
    let kind = data.action.kind@;
    let create = decoded(data.action.data.create);
    let settle = decoded(data.action.data.settle);
    let target_is_url = fence_target_parses(data);
    let acted = fenced_action(w, read, kind, create, settle, target_is_url);
    one_origin(other, id);
    assert(both[0] == id);
    assert(both.contains(id));
    assert forall|x: Text| #[trigger] t.promise(w, x) == at(w.promises, x) by {}
    assert forall|x: Text| #[trigger] t.task(w, x) == at(w.tasks, x) by {}
    assert(tasks_keyed(w, t)) by {
        assert forall|x: Text| (#[trigger] t.task(w, x)) matches Some(task) ==> task.id == x by {
            assert(at(w.tasks, x) matches Some(task) ==> task.id == x);
        }
    }
    deadlines_let_go_on(w, t, both, id);
    a_fence_starts(w, t, id, other);
    assert(read.promise(w, other) == here.promise(w, other));
    assert(end == fence_replied(w, acted.0, id, kind, corr_id, acted.1));
    assert(here.promise(w, id) == Some(own));
    if in_agreement(w) {
        fenced_action_keeps(w, read, kind, create, settle, target_is_url);
        steps_grow(w, t, read, acted.0);
    }
    if kind == "promise.create"@ {
        if let Ok(new) = data.action.data.create {
            a_promise_is_refused_for_a_fault(new@);
            if acceptable(new@) {
                if at(w.promises, other) is None {
                    a_fenced_creation(w, here, own, new@, kind, corr_id);
                } else {
                    a_promise_is_given(w, here, own, other, kind, corr_id);
                }
            }
        }
    } else if kind == "promise.settle"@ {
        if let Ok(new) = data.action.data.settle {
            match at(w.promises, other) {
                None => {
                    a_response_is_shown(
                        w,
                        here,
                        own,
                        other,
                        kind,
                        corr_id,
                        404,
                        ActionDataView::Message("Promise not found"@),
                    );
                },
                Some(row) => {
                    if row.record.state != PromiseState::Pending || late(row, t.now) {
                        a_promise_is_given(w, here, own, other, kind, corr_id);
                    } else {
                        a_fenced_settlement(w, here, own, row, new@, kind, corr_id);
                    }
                },
            }
        }
    }
}

/// A fence that has come to `here` gives a stored promise.
proof fn a_promise_is_given(
    w: World,
    here: TxnView,
    own: StoredPromiseView,
    other: Text,
    kind: Text,
    corr_id: Text,
)
    requires
        orderly(w),
        at(w.promises, own.record.id) == Some(own),
        other != own.record.id,
        at(w.promises, other) matches Some(row) && (if late(row, here.now) {
            &&& here.promise(w, other) == Some(bare(by_deadline(row.record)))
            &&& sends_to_listeners(here, row, by_deadline(row.record))
            &&& settles_to(w, here, here.now, row, by_deadline(row.record))
        } else {
            here.promise(w, other) == Some(row) && untouched(here)
        }),
        in_agreement(w) ==> grows(w, TxnView::start(here.preload_limit, here.now), here),
        here.writes.dom().finite(),
        forall|x: Text| x != other ==> #[trigger] here.promise(w, x) == at(w.promises, x),
    ensures
        given(
            w,
            fence_replied(
                w,
                here,
                own.record.id,
                kind,
                corr_id,
                ActionEndView::Response(
                    200,
                    ActionDataView::Promise(here.promise(w, other)->0.record),
                ),
            ),
            here.now,
            kind,
            corr_id,
            own.record,
            at(w.promises, other)->0,
        ),
{
    let row = at(w.promises, other)->0;
    let record = here.promise(w, other)->0.record;
    let end = fence_replied(
        w,
        here,
        own.record.id,
        kind,
        corr_id,
        ActionEndView::Response(200, ActionDataView::Promise(record)),
    );
    assert(row.record.id == other);
    assert(here.promise(w, own.record.id) == Some(own));
    assert forall|x: Text|
        (#[trigger] here.promise(w, x)) matches Some(found) ==> found.record.id == x && at(
            w.promises,
            x,
        ) is Some by {
        if x != other {
            assert(here.promise(w, x) == at(w.promises, x));
        }
    }
    if nobody_late(w, here.now) {
        assert forall|x: Text| (#[trigger] here.promise(w, x)) matches Some(found) ==> !late(
            found,
            here.now,
        ) by {
            if x != other {
                assert(here.promise(w, x) == at(w.promises, x));
            }
        }
    }
    a_response_is_shown(
        w,
        here,
        own,
        other,
        kind,
        corr_id,
        200,
        ActionDataView::Promise(record),
    );
    if late(row, here.now) {
        sent_stays(here, end.0, row, record);
        if alone(w, own.record, here.now) {
            settles_to_stays(w, here, end.0, here.now, row, record);
        }
    }
}

/// A fence that has come to `here` creates a promise.
proof fn a_fenced_creation(
    w: World,
    here: TxnView,
    own: StoredPromiseView,
    create: CreateView,
    kind: Text,
    corr_id: Text,
)
    requires
        orderly(w),
        at(w.promises, own.record.id) == Some(own),
        create.id != own.record.id,
        at(w.promises, create.id) is None,
        acceptable(create),
        untouched(here),
        kind == "promise.create"@,
        ({
            let made = created(w, here, create, None, ModeView::Dispatch);
            in_agreement(w) ==> grows(w, TxnView::start(here.preload_limit, here.now), made)
        }),
    ensures
        creates_fenced(
            w,
            fence_replied(
                w,
                created(w, here, create, None, ModeView::Dispatch),
                own.record.id,
                kind,
                corr_id,
                ActionEndView::Response(
                    200,
                    ActionDataView::Promise(created_row(create, None, here.now).record),
                ),
            ),
            here.now,
            corr_id,
            own.record,
            create,
        ),
{
    let made = created(w, here, create, None, ModeView::Dispatch);
    let promise = new_promise(create, here.now, here.now);
    let now = here.now;
    let data = ActionDataView::Promise(promise);
    let end = fence_replied(
        w,
        made,
        own.record.id,
        kind,
        corr_id,
        ActionEndView::Response(200, data),
    );
    a_creation_has_its_effects(w, here, create, None);
    assert(here.writes.dom() =~= Set::empty());
    assert(made.writes.dom().finite());
    assert(made.promise(w, create.id) == Some(bare(promise)));
    assert forall|x: Text| x != create.id implies #[trigger] made.promise(w, x) == at(
        w.promises,
        x,
    ) by {}
    assert forall|x: Text|
        (#[trigger] made.promise(w, x)) matches Some(found) ==> found.record.id == x && (x
            == create.id || at(w.promises, x) is Some) by {
        if x != create.id {
            assert(made.promise(w, x) == at(w.promises, x));
        }
    }
    assert forall|branch: Text| #[trigger]
        in_branch(made.promise(w, create.id), branch) implies !branch.contains('\0') by {
        an_ancestor_has_no_null(create.id, branch);
    }
    if nobody_late(w, now) {
        assert forall|x: Text| (#[trigger] made.promise(w, x)) matches Some(found) ==> !late(
            found,
            now,
        ) by {
            if x != create.id {
                assert(made.promise(w, x) == at(w.promises, x));
            }
        }
    }
    assert(made.promise(w, own.record.id) == Some(own));
    a_response_is_shown(w, made, own, create.id, kind, corr_id, 200, data);
}

/// An ancestor of an id without null characters has none.
proof fn an_ancestor_has_no_null(id: Text, ancestor: Text)
    requires
        descends_from(id, ancestor),
        !id.contains('\0'),
    ensures
        !ancestor.contains('\0'),
{
    if ancestor.contains('\0') {
        let i = ancestor.index_of('\0');
        if id != ancestor {
            let next = if ancestor.contains(':') {
                ancestor.push('.')
            } else {
                ancestor.push(':')
            };
            assert(next[i] == ancestor[i]);
            assert(next =~= id.subrange(0, next.len() as int));
            assert(id[i] == next[i]);
        }
        assert(id.contains('\0'));
    }
}

/// A fence that has come to `here` settles a promise.
proof fn a_fenced_settlement(
    w: World,
    here: TxnView,
    own: StoredPromiseView,
    row: StoredPromiseView,
    settle: SettleView,
    kind: Text,
    corr_id: Text,
)
    requires
        orderly(w),
        at(w.promises, own.record.id) == Some(own),
        at(w.promises, settle.id) == Some(row),
        settle.id != own.record.id,
        row.record.state == PromiseState::Pending,
        !late(row, here.now),
        untouched(here),
        kind == "promise.settle"@,
        in_agreement(w) ==> grows(
            w,
            TxnView::start(here.preload_limit, here.now),
            settling(w, here, row, settle).0,
        ),
    ensures
        settles_fenced(
            w,
            fence_replied(
                w,
                settling(w, here, row, settle).0,
                own.record.id,
                kind,
                corr_id,
                ActionEndView::Response(
                    200,
                    ActionDataView::Promise(settling(w, here, row, settle).1.record),
                ),
            ),
            here.now,
            corr_id,
            own.record,
            settle,
        ),
{
    let now = here.now;
    let settled = by_client(row.record, settle.state, settle.value, now);
    let stored = StoredPromiseView {
        record: settled,
        callbacks: row.callbacks,
        listeners: row.listeners,
    };
    let after = settled_chain(w, here, stored);
    let data = ActionDataView::Promise(settled);
    let end = fence_replied(
        w,
        after,
        own.record.id,
        kind,
        corr_id,
        ActionEndView::Response(200, data),
    );
    assert(settling(w, here, row, settle).0 == after);
    assert(settling(w, here, row, settle).1.record == settled);
    assert(row.record.id == settle.id);
    a_settlement_has_its_consequences(w, here, row, settled);
    a_settlement_sends_to_listeners(w, here, stored);
    assert(here.writes.dom() =~= Set::empty());
    settlements_write_finitely(w, here, stored);
    settlements_keep_the_limit(w, here, stored);
    settlements_keep_the_turn(w, here, stored);
    let first = choose|first: int| #[trigger]
        sends_from(after, first, stored.listeners, stored.record);
    assert(sends_from(after, first, row.listeners, settled));
    assert(after.promise(w, settle.id) == Some(bare(settled)));
    assert forall|x: Text| x != settle.id implies #[trigger] after.promise(w, x) == at(
        w.promises,
        x,
    ) by {
        assert(!after.writes.contains_key(KeyView::Promise(x)));
    }
    assert forall|x: Text|
        (#[trigger] after.promise(w, x)) matches Some(found) ==> found.record.id == x && at(
            w.promises,
            x,
        ) is Some by {
        if x != settle.id {
            assert(after.promise(w, x) == at(w.promises, x));
        }
    }
    if nobody_late(w, now) {
        assert forall|x: Text| (#[trigger] after.promise(w, x)) matches Some(found) ==> !late(
            found,
            now,
        ) by {
            if x != settle.id {
                assert(after.promise(w, x) == at(w.promises, x));
            }
        }
    }
    assert(after.promise(w, own.record.id) == Some(own));
    a_response_is_shown(w, after, own, settle.id, kind, corr_id, 200, data);
    sent_stays(after, end.0, row, settled);
    if alone(w, own.record, now) {
        settles_to_stays(w, after, end.0, now, row, settled);
    }
}

} // verus!
