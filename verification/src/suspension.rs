//! The suspension of a task until one of the promises it awaits settles.

use vstd::prelude::*;
use crate::calls::{Call, CallView, World};
use crate::data::{Action, CallbackActionView, CallbackData, TaskSuspendData};
use crate::envelope::{viewed, Reply, ReplyData, ReplyDataView, ReplyView};
use crate::outcome::{ends, fail, failed, Outcome, OutcomeView};
use crate::promises::{callback_registered, register_callback};
use crate::records::{
    StoredPromise, StoredPromiseView, StoredTask, StoredTaskView, TaskState, Text,
};
use crate::rules::{callback_refusal, refused, validate_callback};
use crate::settlement::{all_timed_out, all_timed_out_grows, slices, try_timeout};
use crate::tags::IdSet;
use crate::tasks::{commit_settlement, settlement_committed};
use crate::text::{copied, text_eq};
use crate::txn::{after_preload, after_preload_grows, preloaded, steps, Txn, TxnView};

verus! {

/// The promises that callbacks await.
pub open spec fn awaited_ids(actions: Seq<CallbackActionView>) -> Seq<Text> {
    Seq::new(actions.len(), |i: int| actions[i].awaited)
}

/// The first rule that one callback of the task `id` breaks, if it breaks one.
pub open spec fn action_refusal(id: Text, actions: Seq<CallbackActionView>, i: int) -> Option<
    ReplyView,
> {
    let action = actions[i];
    if action.kind != "promise.register_callback"@ {
        Some(ReplyView::Error(400, "Invalid action kind"@))
    } else if action.awaiter != id {
        Some(ReplyView::Error(400, "Action awaiter must be the task"@))
    } else if callback_refusal(action.awaited, action.awaiter) is Some {
        callback_refusal(action.awaited, action.awaiter)
    } else if awaited_ids(actions).take(i).contains(action.awaited) {
        Some(ReplyView::Error(400, "Awaited promises must be unique"@))
    } else {
        None
    }
}

/// The first rule that one of the first `n` callbacks breaks, if one does.
pub open spec fn actions_refusal(id: Text, actions: Seq<CallbackActionView>, n: nat) -> Option<
    ReplyView,
>
    decreases n,
{
    if n == 0 {
        None
    } else {
        match actions_refusal(id, actions, (n - 1) as nat) {
            Some(reply) => Some(reply),
            None => action_refusal(id, actions, n - 1),
        }
    }
}

/// The first rule that a suspension breaks, if it breaks one.
pub open spec fn suspend_refusal(id: Text, actions: Seq<CallbackActionView>) -> Option<ReplyView> {
    if actions.len() == 0 {
        Some(ReplyView::Error(400, "Actions are required"@))
    } else {
        actions_refusal(id, actions, actions.len())
    }
}

/// A refusal of the first callbacks refuses them all.
proof fn refusal_stays(id: Text, actions: Seq<CallbackActionView>, n: nat, m: nat)
    requires
        n <= m,
        actions_refusal(id, actions, n) is Some,
    ensures
        actions_refusal(id, actions, m) == actions_refusal(id, actions, n),
    decreases m,
{
    if n < m {
        refusal_stays(id, actions, n, (m - 1) as nat);
    }
}

/// Whether one of the first `n` callbacks awaits `id`.
fn awaits(actions: &Vec<Action<CallbackData>>, n: usize, id: &str) -> (r: bool)
    requires
        n <= actions.len(),
    ensures
        r == awaited_ids(viewed(actions@)).take(n as int).contains(id@),
{
    let ghost ids = awaited_ids(viewed(actions@)).take(n as int);
    let mut i: usize = 0;
    while i < n
        invariant
            i <= n <= actions.len(),
            ids == awaited_ids(viewed(actions@)).take(n as int),
            forall|j: int| 0 <= j < i ==> ids[j] != id@,
        decreases n - i,
    {
        assert(ids[i as int] == actions@[i as int]@.awaited);
        if text_eq(&actions[i].data.awaited, id) {
            return true;
        }
        i += 1;
    }
    false
}

/// The refusal of a suspension that breaks a rule.
pub fn check_suspend(data: &TaskSuspendData) -> (r: Option<Reply>)
    ensures
        refused(r) == suspend_refusal(data.id@, viewed(data.actions@)),
{
    let actions = &data.actions;
    if actions.len() == 0 {
        return Some(Reply::err(400, "Actions are required"));
    }
    let ghost all = viewed(actions@);
    let mut i: usize = 0;
    while i < actions.len()
        invariant
            i <= actions.len(),
            actions == data.actions,
            all == viewed(actions@),
            all.len() > 0,
            actions_refusal(data.id@, all, i as nat) is None,
        decreases actions.len() - i,
    {
        let action = &actions[i];
        assert(all[i as int] == action@);
        let reply = check_action(actions, i, &data.id);
        if reply.is_some() {
            proof {
                refusal_stays(data.id@, all, (i + 1) as nat, all.len());
            }
            return reply;
        }
        i += 1;
    }
    None
}

/// The refusal of one callback of a suspension that breaks a rule.
fn check_action(actions: &Vec<Action<CallbackData>>, i: usize, id: &str) -> (r: Option<Reply>)
    requires
        i < actions.len(),
    ensures
        refused(r) == action_refusal(id@, viewed(actions@), i as int),
{
    let action = &actions[i];
    if !text_eq(&action.kind, "promise.register_callback") {
        return Some(Reply::err(400, "Invalid action kind"));
    }
    if !text_eq(&action.data.awaiter, id) {
        return Some(Reply::err(400, "Action awaiter must be the task"));
    }
    if let Some(reply) = validate_callback(&action.data.awaited, &action.data.awaiter) {
        return Some(reply);
    }
    if awaits(actions, i, &action.data.awaited) {
        return Some(Reply::err(400, "Awaited promises must be unique"));
    }
    None
}

/// The request after it read the promises of `ids` up to the first that a task
/// cannot await, and why it cannot.
pub open spec fn gathered(w: World, t: TxnView, ids: Seq<Text>) -> (TxnView, Option<Text>)
    decreases ids.len(),
{
    if ids.len() == 0 {
        (t, None)
    } else {
        let before = gathered(w, t, ids.drop_last());
        if before.1 is Some {
            before
        } else {
            (
                before.0.read_promise(ids.last()),
                match before.0.promise(w, ids.last()) {
                    None => Some("Awaited promise not found"@),
                    Some(row) => if row.record.is_external() {
                        None
                    } else {
                        Some("Awaited promise is not awaitable"@)
                    },
                },
            )
        }
    }
}

/// The promises of `ids`, which exist.
pub open spec fn rows_of(w: World, t: TxnView, ids: Seq<Text>) -> Seq<StoredPromiseView> {
    Seq::new(ids.len(), |i: int| t.promise(w, ids[i])->0)
}

/// Reading promises changes nothing but the calls a request depends on.
pub proof fn gathered_keeps(w: World, t: TxnView, ids: Seq<Text>)
    ensures
        gathered(w, t, ids).0 == (TxnView { asked: gathered(w, t, ids).0.asked, ..t }),
    decreases ids.len(),
{
    if ids.len() > 0 {
        gathered_keeps(w, t, ids.drop_last());
    }
}

/// Reading promises keeps the calls a request depends on.
pub broadcast proof fn gathered_grows(w: World, t: TxnView, ids: Seq<Text>, call: CallView)
    requires
        t.asked.contains(call),
    ensures
        #[trigger] gathered(w, t, ids).0.asked.contains(call),
    decreases ids.len(),
{
    if ids.len() > 0 {
        gathered_grows(w, t, ids.drop_last(), call);
    }
}

/// Reading more promises depends on every call that reading fewer does, and
/// ends where reading fewer ended.
proof fn gathered_prefix(w: World, t: TxnView, ids: Seq<Text>, n: int, call: CallView)
    requires
        0 <= n <= ids.len(),
    ensures
        gathered(w, t, ids.take(n)).0.asked.contains(call) ==> gathered(
            w,
            t,
            ids,
        ).0.asked.contains(call),
        gathered(w, t, ids.take(n)).1 is Some ==> gathered(w, t, ids) == gathered(
            w,
            t,
            ids.take(n),
        ),
    decreases ids.len(),
{
    if n == ids.len() {
        assert(ids.take(n) =~= ids);
    } else {
        assert(ids.drop_last().take(n) =~= ids.take(n));
        gathered_prefix(w, t, ids.drop_last(), n, call);
    }
}

/// The awaited promises, or why a task cannot await one of them.
pub enum Gathered {
    /// Every promise exists and a task can await it.
    All(Vec<StoredPromise>),
    /// A promise that a task cannot await ends the request.
    Refused(Outcome),
}

/// Read the promises that `actions` await.
fn gather(txn: &mut Txn, actions: &Vec<Action<CallbackData>>) -> (r: Result<Gathered, Call>)
    requires
        old(txn).wf(),
    ensures
        steps(
            *old(txn),
            *final(txn),
            r,
            |w: World| gathered(w, old(txn)@, awaited_ids(viewed(actions@))).0,
        ),
        r matches Ok(got) ==> forall|w: World| #[trigger]
            old(txn).facts.describe(w) ==> ({
                let ids = awaited_ids(viewed(actions@));
                match got {
                    Gathered::All(rows) => gathered(w, old(txn)@, ids).1 is None && viewed(rows@)
                        == rows_of(w, old(txn)@, ids),
                    Gathered::Refused(outcome) => gathered(w, old(txn)@, ids).1 is Some
                        && outcome@ == failed(422, gathered(w, old(txn)@, ids).1->0),
                }
            }),
{
    let ghost t = txn@;
    let ghost ids = awaited_ids(viewed(actions@));
    let mut rows: Vec<StoredPromise> = Vec::new();
    let mut i: usize = 0;
    assert(ids.take(0) =~= Seq::<Text>::empty());
    while i < actions.len()
        invariant
            i <= actions.len(),
            rows.len() == i,
            ids == awaited_ids(viewed(actions@)),
            txn.wf(),
            txn.facts == old(txn).facts,
            t == old(txn)@,
            forall|w: World| #[trigger]
                txn.facts.describe(w) ==> (txn@, None::<Text>) == gathered(w, t, ids.take(i as int))
                    && forall|j: int|
                    0 <= j < i ==> (#[trigger] rows@[j])@ == t.promise(w, ids[j])->0,
        decreases actions.len() - i,
    {
        let ghost here = txn@;
        let ghost next = ids.take(i + 1);
        assert(next.drop_last() =~= ids.take(i as int));
        assert(next.last() == actions@[i as int].data.awaited@);
        let found = txn.get_promise(&actions[i].data.awaited);
        proof {
            assert forall|w: World| #[trigger] old(txn).facts.describe(w) implies here.promise(
                w,
                next.last(),
            ) == t.promise(w, next.last()) by {
                gathered_keeps(w, t, ids.take(i as int));
            }
        }
        match found {
            Ok(Some(row)) => {
                if !row.record.is_external() {
                    proof {
                        assert forall|w: World| #[trigger] old(txn).facts.describe(w) implies (
                        txn@, Some("Awaited promise is not awaitable"@)) == gathered(
                            w,
                            t,
                            ids,
                        ) by {
                            gathered_prefix(w, t, ids, i + 1, CallView::Promises);
                        }
                    }
                    return Ok(Gathered::Refused(fail(422, "Awaited promise is not awaitable")));
                }
                rows.push(row);
            },
            Ok(None) => {
                proof {
                    assert forall|w: World| #[trigger] old(txn).facts.describe(w) implies (
                    txn@, Some("Awaited promise not found"@)) == gathered(w, t, ids) by {
                        gathered_prefix(w, t, ids, i + 1, CallView::Promises);
                    }
                }
                return Ok(Gathered::Refused(fail(422, "Awaited promise not found")));
            },
            Err(call) => {
                proof {
                    assert forall|w: World| #[trigger] old(txn).facts.describe(w) implies gathered(
                        w,
                        t,
                        ids,
                    ).0.asked.contains(call@) by {
                        gathered_prefix(w, t, ids, i + 1, call@);
                    }
                }
                return Err(call);
            },
        }
        i += 1;
    }
    assert(ids.take(i as int) =~= ids);
    proof {
        assert forall|w: World| #[trigger] old(txn).facts.describe(w) implies viewed(rows@)
            == rows_of(w, t, ids) by {
            assert(viewed(rows@) =~= rows_of(w, t, ids));
        }
    }
    Ok(Gathered::All(rows))
}

/// The request after it registered the callback of `awaiter` on every row.
pub open spec fn all_registered(t: TxnView, rows: Seq<StoredPromiseView>, awaiter: Text) -> TxnView
    decreases rows.len(),
{
    if rows.len() == 0 {
        t
    } else {
        callback_registered(all_registered(t, rows.drop_last(), awaiter), rows.last(), awaiter)
    }
}

/// Registrations change nothing but the writes of a request.
pub proof fn all_registered_keeps(t: TxnView, rows: Seq<StoredPromiseView>, awaiter: Text)
    ensures
        all_registered(t, rows, awaiter) == (TxnView {
            writes: all_registered(t, rows, awaiter).writes,
            ..t
        }),
    decreases rows.len(),
{
    if rows.len() > 0 {
        all_registered_keeps(t, rows.drop_last(), awaiter);
    }
}

/// Whether one of the promises is settled.
pub open spec fn any_settled(rows: Seq<StoredPromiseView>) -> bool {
    exists|i: int| 0 <= i < rows.len() && !(#[trigger] rows[i]).record.is_pending()
}

/// `task` with nothing left unobserved.
pub open spec fn observed(task: StoredTaskView) -> StoredTaskView {
    StoredTaskView { resumes: Set::empty(), ..task }
}

/// What becomes of a held task of `id` that awaits `rows`: it goes on where one
/// of them is settled, with nothing left unobserved once the deadlines of its
/// siblings are applied, and is suspended otherwise.
pub open spec fn suspended_on(
    w: World,
    t: TxnView,
    id: Text,
    task: StoredTaskView,
    rows: Seq<StoredPromiseView>,
) -> (TxnView, OutcomeView) {
    if any_settled(rows) {
        let read = t.read_promise(id);
        match t.promise(w, id) {
            None => (read, OutcomeView::Orphan(id)),
            Some(own) => (
                after_preload(w, read, own.record).put_task(observed(task)),
                OutcomeView::Commit(
                    ReplyView::Data(300, ReplyDataView::Preload(preloaded(w, read, own.record))),
                ),
            ),
        }
    } else {
        settlement_committed(
            w,
            all_registered(t, rows, id).put_task(observed(task).moved(TaskState::Suspended)),
            id,
            ReplyView::Data(200, ReplyDataView::Empty),
        )
    }
}

/// Whether one of the promises is settled.
fn is_any_settled(rows: &Vec<StoredPromise>) -> (r: bool)
    ensures
        r == any_settled(viewed(rows@)),
{
    let mut i: usize = 0;
    while i < rows.len()
        invariant
            i <= rows.len(),
            forall|j: int| 0 <= j < i ==> (#[trigger] rows@[j])@.record.is_pending(),
        decreases rows.len() - i,
    {
        if !rows[i].record.is_pending() {
            assert(!viewed(rows@)[i as int].record.is_pending());
            return true;
        }
        i += 1;
    }
    assert(forall|j: int| 0 <= j < rows@.len() ==> viewed(rows@)[j] == rows@[j]@);
    false
}

/// Register the callback of `awaiter` on every promise.
fn register_all(txn: &mut Txn, rows: &Vec<StoredPromise>, awaiter: &str)
    requires
        old(txn).wf(),
    ensures
        final(txn).facts == old(txn).facts,
        final(txn).wf(),
        final(txn)@ == all_registered(old(txn)@, viewed(rows@), awaiter@),
{
    let ghost t = txn@;
    let ghost all = viewed(rows@);
    assert(all.take(0) =~= Seq::<StoredPromiseView>::empty());
    let mut i: usize = 0;
    while i < rows.len()
        invariant
            i <= rows.len(),
            all == viewed(rows@),
            txn.wf(),
            txn.facts == old(txn).facts,
            txn@ == all_registered(t, all.take(i as int), awaiter@),
        decreases rows.len() - i,
    {
        let ghost next = all.take(i + 1);
        assert(next.drop_last() =~= all.take(i as int));
        assert(next.last() == rows@[i as int]@);
        let mut row = rows[i].clone();
        register_callback(txn, &mut row, awaiter);
        i += 1;
    }
    assert(all.take(i as int) =~= all);
}

/// Suspend a held task on `rows`, or let it go on where one of them is settled.
fn suspend_on(txn: &mut Txn, id: &str, task: &mut StoredTask, rows: &Vec<StoredPromise>) -> (r:
    Result<Outcome, Call>)
    requires
        old(txn).wf(),
    ensures
        ends(
            *old(txn),
            *final(txn),
            r,
            |w: World| suspended_on(w, old(txn)@, id@, old(task)@, viewed(rows@)),
        ),
{
    broadcast use after_preload_grows;

    task.resumes = IdSet::new();
    if is_any_settled(rows) {
        let own = match txn.get_promise(id)? {
            Some(own) => own,
            None => {
                return Ok(Outcome::Orphan(copied(id)));
            },
        };
        let preload = txn.preload(&own.record)?;
        txn.put_task(task);
        return Ok(Outcome::Commit(Reply::Data(300, ReplyData::Preload(preload))));
    }
    register_all(txn, rows, id);
    task.transition(TaskState::Suspended);
    txn.put_task(task);
    commit_settlement(txn, id, Reply::ok(ReplyData::Empty))
}

/// A suspension keeps the calls a request depends on.
pub broadcast proof fn suspended_on_grows(
    w: World,
    t: TxnView,
    id: Text,
    task: StoredTaskView,
    rows: Seq<StoredPromiseView>,
    call: CallView,
)
    requires
        t.asked.contains(call),
    ensures
        #[trigger] suspended_on(w, t, id, task, rows).0.asked.contains(call),
{
    broadcast use after_preload_grows;

    all_registered_keeps(t, rows, id);
}

/// What becomes of a valid suspension of the task `id`, which awaits `ids`.
pub open spec fn suspending(w: World, t: TxnView, id: Text, version: i64, ids: Seq<Text>) -> (
    TxnView,
    OutcomeView,
) {
    let timed = all_timed_out(w, t, seq![id] + ids);
    let read = timed.read_task(id);
    let conflict = failed(409, "Task is not acquired or version mismatch"@);
    match timed.task(w, id) {
        None => (read, failed(404, "Task not found"@)),
        Some(task) => if !task.is_acquired_at(version) {
            (read, conflict)
        } else {
            let looked = read.after_holds(w, task.id);
            let got = gathered(w, looked, ids);
            if !read.holds(w) {
                (looked, conflict)
            } else if got.1 is Some {
                (got.0, failed(422, got.1->0))
            } else {
                suspended_on(w, got.0, id, task, rows_of(w, looked, ids))
            }
        },
    }
}

/// What becomes of a task to suspend.
pub open spec fn task_suspension(
    w: World,
    t: TxnView,
    id: Text,
    version: i64,
    actions: Seq<CallbackActionView>,
) -> (TxnView, OutcomeView) {
    match suspend_refusal(id, actions) {
        Some(reply) => (t, OutcomeView::Reply(reply)),
        None => suspending(w, t, id, version, awaited_ids(actions)),
    }
}

/// The ids that a suspension names: the task's own and the awaited ones.
fn named_ids<'b>(data: &'b TaskSuspendData) -> (r: Vec<&'b str>)
    ensures
        slices(r@) == seq![data.id@] + awaited_ids(viewed(data.actions@)),
{
    let mut ids: Vec<&'b str> = Vec::new();
    ids.push(data.id.as_str());
    let mut i: usize = 0;
    while i < data.actions.len()
        invariant
            i <= data.actions.len(),
            ids.len() == i + 1,
            ids@[0]@ == data.id@,
            forall|j: int| 0 <= j < i ==> (#[trigger] ids@[j + 1])@ == data.actions@[j]@.awaited,
        decreases data.actions.len() - i,
    {
        ids.push(data.actions[i].data.awaited.as_str());
        i += 1;
    }
    proof {
        let want = seq![data.id@] + awaited_ids(viewed(data.actions@));
        assert forall|j: int| 0 <= j < want.len() implies slices(ids@)[j] == want[j] by {
            if j > 0 {
                assert(ids@[(j - 1) + 1]@ == data.actions@[j - 1]@.awaited);
            }
        }
        assert(slices(ids@) =~= want);
    }
    ids
}

/// Suspend an acquired task until one of the awaited promises settles, while
/// its claim is held. Where one of them is settled already the task goes on
/// with its preloaded siblings.
pub fn task_suspend(txn: &mut Txn, data: &TaskSuspendData) -> (r: Result<Outcome, Call>)
    requires
        old(txn).wf(),
    ensures
        ends(
            *old(txn),
            *final(txn),
            r,
            |w: World|
                task_suspension(w, old(txn)@, data.id@, data.version, viewed(data.actions@)),
        ),
{
    broadcast use {all_timed_out_grows, gathered_grows, suspended_on_grows};

    if let Some(reply) = check_suspend(data) {
        return Ok(Outcome::Reply(reply));
    }
    let named = named_ids(data);
    try_timeout(txn, &named)?;
    let mut task = match txn.get_task(&data.id)? {
        Some(task) => task,
        None => {
            return Ok(fail(404, "Task not found"));
        },
    };
    if !task.is_acquired_at(data.version) {
        return Ok(fail(409, "Task is not acquired or version mismatch"));
    }
    if !txn.holds(&task.id)? {
        return Ok(fail(409, "Task is not acquired or version mismatch"));
    }
    match gather(txn, &data.actions)? {
        Gathered::All(rows) => suspend_on(txn, &data.id, &mut task, &rows),
        Gathered::Refused(outcome) => Ok(outcome),
    }
}

} // verus!
