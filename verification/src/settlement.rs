//! The settlement of a promise and its consequences: the promise's own task is
//! fulfilled, every registered awaiter is resumed and every listener receives
//! an unblock message.

use vstd::prelude::*;
use crate::calls::{Call, CallView, World};
use crate::records::{
    PromiseState, PromiseValue, PromiseView, SettleState, StoredPromise, StoredPromiseView,
    StoredTaskView, TaskState, Text, ValueView,
};
use crate::tags::IdSet;
use crate::text::{copied, texts};
use crate::txn::{steps, AfterView, Txn, TxnView};

verus! {

/// How a settled awaited promise reached an awaiter.
#[derive(Debug, Clone, Copy, PartialEq, Eq, Structural)]
pub enum Wake {
    /// The awaited promise settled while the callback was registered.
    Fanout,
    /// The callback was registered on an awaited promise already settled.
    Registration,
}

/// `task` with `awaited` among the settled promises it has not observed.
pub open spec fn notified(task: StoredTaskView, awaited: Text) -> StoredTaskView {
    StoredTaskView { resumes: task.resumes.insert(awaited), ..task }
}

/// A suspended `task` as the settlement of `awaited` wakes it.
pub open spec fn woken(task: StoredTaskView, awaited: Text) -> StoredTaskView {
    StoredTaskView { resumes: Set::empty().insert(awaited), ..task.moved(TaskState::Pending) }
}

/// The request after `awaited` is recorded against its awaiter's task and a
/// suspended task is dispatched again.
pub open spec fn resumed(
    w: World,
    t: TxnView,
    awaiter: Text,
    awaited: Text,
    wake: Wake,
) -> TxnView {
    let read = t.read_task(awaiter);
    match t.task(w, awaiter) {
        None => read,
        Some(task) => match task.state {
            TaskState::Suspended => read.dispatch(w, woken(task, awaited), None),
            TaskState::Pending | TaskState::Acquired => read.put_task(notified(task, awaited)),
            TaskState::Halted => if wake == Wake::Fanout {
                read.put_task(notified(task, awaited))
            } else {
                read
            },
            TaskState::Fulfilled => read,
        },
    }
}

/// The request after the settlement of `awaited` reached the callback of
/// `awaiter`: it resumes an awaiter that is pending and within its deadline.
pub open spec fn called_back(w: World, t: TxnView, awaiter: Text, awaited: Text) -> TxnView {
    let read = t.read_promise(awaiter);
    match t.promise(w, awaiter) {
        Some(awaiting) => if awaiting.record.is_pending() && t.now < awaiting.record.timeout_at {
            resumed(w, read, awaiter, awaited, Wake::Fanout)
        } else {
            read
        },
        None => read,
    }
}

/// The request after the settlement of `awaited` reached every callback.
pub open spec fn all_called_back(
    w: World,
    t: TxnView,
    callbacks: Seq<Text>,
    awaited: Text,
) -> TxnView
    decreases callbacks.len(),
{
    if callbacks.len() == 0 {
        t
    } else {
        called_back(
            w,
            all_called_back(w, t, callbacks.drop_last(), awaited),
            callbacks.last(),
            awaited,
        )
    }
}

/// The request after it sent an unblock message for `promise` to every listener.
pub open spec fn all_unblocked(t: TxnView, listeners: Seq<Text>, promise: PromiseView) -> TxnView
    decreases listeners.len(),
{
    if listeners.len() == 0 {
        t
    } else {
        all_unblocked(t, listeners.drop_last(), promise).send_unblock(listeners.last(), promise)
    }
}

/// A task as its promise's settlement ends it.
pub open spec fn ended(task: StoredTaskView) -> StoredTaskView {
    StoredTaskView { resumes: Set::empty(), ..task.moved(TaskState::Fulfilled) }
}

/// A stored promise without registrations.
pub open spec fn cleared(row: StoredPromiseView) -> StoredPromiseView {
    StoredPromiseView { record: row.record, callbacks: Seq::empty(), listeners: Seq::empty() }
}

/// The request after the task of a settled promise was fulfilled, if it has one
/// that was not.
pub open spec fn task_ended(w: World, t: TxnView, id: Text) -> TxnView {
    let read = t.read_task(id);
    match t.task(w, id) {
        Some(task) => if task.state != TaskState::Fulfilled {
            read.put_task(ended(task)).later(AfterView::Release(task.id))
        } else {
            read
        },
        None => read,
    }
}

/// The request after the settlement of `row`.
pub open spec fn settled_chain(w: World, t: TxnView, row: StoredPromiseView) -> TxnView {
    let told = all_called_back(
        w,
        task_ended(w, t, row.record.id).put_promise(cleared(row)),
        row.callbacks,
        row.record.id,
    );
    all_unblocked(told, row.listeners, row.record)
}

/// `row` as its deadline settles it.
pub open spec fn expired(row: StoredPromiseView) -> StoredPromiseView {
    StoredPromiseView { record: row.record.expired(), ..row }
}

/// `row` as a client settles it.
pub open spec fn settled(
    row: StoredPromiseView,
    state: SettleState,
    value: ValueView,
    now: i64,
) -> StoredPromiseView {
    StoredPromiseView { record: row.record.settled(state, value, now), ..row }
}

/// Whether the deadline of a pending promise has passed.
pub open spec fn is_overdue(row: StoredPromiseView, now: i64) -> bool {
    row.record.is_pending() && now >= row.record.timeout_at
}

/// The request after the deadline of the promise of `id` was applied.
pub open spec fn timed_out(w: World, t: TxnView, id: Text) -> TxnView {
    let read = t.read_promise(id);
    match t.promise(w, id) {
        Some(row) => if is_overdue(row, t.now) {
            settled_chain(w, read, expired(row))
        } else {
            read
        },
        None => read,
    }
}

/// The request after the deadlines of the promises of `ids` were applied.
pub open spec fn all_timed_out(w: World, t: TxnView, ids: Seq<Text>) -> TxnView
    decreases ids.len(),
{
    if ids.len() == 0 {
        t
    } else {
        timed_out(w, all_timed_out(w, t, ids.drop_last()), ids.last())
    }
}

/// Callbacks keep the calls a request depends on.
pub broadcast proof fn all_called_back_grows(
    w: World,
    t: TxnView,
    callbacks: Seq<Text>,
    awaited: Text,
    call: CallView,
)
    requires
        t.asked.contains(call),
    ensures
        #[trigger] all_called_back(w, t, callbacks, awaited).asked.contains(call),
    decreases callbacks.len(),
{
    if callbacks.len() > 0 {
        all_called_back_grows(w, t, callbacks.drop_last(), awaited, call);
    }
}

/// More callbacks depend on every call that fewer do.
proof fn all_called_back_prefix(
    w: World,
    t: TxnView,
    callbacks: Seq<Text>,
    awaited: Text,
    n: int,
    call: CallView,
)
    requires
        0 <= n <= callbacks.len(),
        all_called_back(w, t, callbacks.take(n), awaited).asked.contains(call),
    ensures
        all_called_back(w, t, callbacks, awaited).asked.contains(call),
    decreases callbacks.len(),
{
    if n == callbacks.len() {
        assert(callbacks.take(n) =~= callbacks);
    } else {
        assert(callbacks.drop_last().take(n) =~= callbacks.take(n));
        all_called_back_prefix(w, t, callbacks.drop_last(), awaited, n, call);
    }
}

/// Unblock messages keep the calls a request depends on.
pub broadcast proof fn all_unblocked_grows(
    t: TxnView,
    listeners: Seq<Text>,
    promise: PromiseView,
    call: CallView,
)
    requires
        t.asked.contains(call),
    ensures
        #[trigger] all_unblocked(t, listeners, promise).asked.contains(call),
    decreases listeners.len(),
{
    if listeners.len() > 0 {
        all_unblocked_grows(t, listeners.drop_last(), promise, call);
    }
}

/// A settlement keeps the calls a request depends on.
pub broadcast proof fn settled_chain_grows(
    w: World,
    t: TxnView,
    row: StoredPromiseView,
    call: CallView,
)
    requires
        t.asked.contains(call),
    ensures
        #[trigger] settled_chain(w, t, row).asked.contains(call),
{
    broadcast use {all_called_back_grows, all_unblocked_grows};

}

/// Deadlines keep the calls a request depends on.
pub broadcast proof fn all_timed_out_grows(w: World, t: TxnView, ids: Seq<Text>, call: CallView)
    requires
        t.asked.contains(call),
    ensures
        #[trigger] all_timed_out(w, t, ids).asked.contains(call),
    decreases ids.len(),
{
    broadcast use settled_chain_grows;

    if ids.len() > 0 {
        all_timed_out_grows(w, t, ids.drop_last(), call);
    }
}

/// More deadlines depend on every call that fewer do.
proof fn all_timed_out_prefix(w: World, t: TxnView, ids: Seq<Text>, n: int, call: CallView)
    requires
        0 <= n <= ids.len(),
        all_timed_out(w, t, ids.take(n)).asked.contains(call),
    ensures
        all_timed_out(w, t, ids).asked.contains(call),
    decreases ids.len(),
{
    broadcast use settled_chain_grows;

    if n == ids.len() {
        assert(ids.take(n) =~= ids);
    } else {
        assert(ids.drop_last().take(n) =~= ids.take(n));
        all_timed_out_prefix(w, t, ids.drop_last(), n, call);
    }
}

/// Callbacks keep the time of a request and its preload limit.
proof fn all_called_back_keeps(w: World, t: TxnView, callbacks: Seq<Text>, awaited: Text)
    ensures
        all_called_back(w, t, callbacks, awaited).now == t.now,
        all_called_back(w, t, callbacks, awaited).preload_limit == t.preload_limit,
    decreases callbacks.len(),
{
    if callbacks.len() > 0 {
        all_called_back_keeps(w, t, callbacks.drop_last(), awaited);
    }
}

/// Unblock messages change nothing but the jobs of a request.
pub proof fn all_unblocked_keeps(t: TxnView, listeners: Seq<Text>, promise: PromiseView)
    ensures
        all_unblocked(t, listeners, promise) == (TxnView {
            enqueues: all_unblocked(t, listeners, promise).enqueues,
            ..t
        }),
    decreases listeners.len(),
{
    if listeners.len() > 0 {
        all_unblocked_keeps(t, listeners.drop_last(), promise);
    }
}

/// A settlement keeps the time of a request and its preload limit.
pub proof fn settled_chain_keeps(w: World, t: TxnView, row: StoredPromiseView)
    ensures
        settled_chain(w, t, row).now == t.now,
        settled_chain(w, t, row).preload_limit == t.preload_limit,
{
    let start = task_ended(w, t, row.record.id).put_promise(cleared(row));
    all_called_back_keeps(w, start, row.callbacks, row.record.id);
    all_unblocked_keeps(
        all_called_back(w, start, row.callbacks, row.record.id),
        row.listeners,
        row.record,
    );
}

/// Deadlines keep the time of a request and its preload limit.
pub proof fn all_timed_out_keeps(w: World, t: TxnView, ids: Seq<Text>)
    ensures
        all_timed_out(w, t, ids).now == t.now,
        all_timed_out(w, t, ids).preload_limit == t.preload_limit,
    decreases ids.len(),
{
    if ids.len() > 0 {
        let before = all_timed_out(w, t, ids.drop_last());
        all_timed_out_keeps(w, t, ids.drop_last());
        if let Some(row) = before.promise(w, ids.last()) {
            settled_chain_keeps(w, before.read_promise(ids.last()), expired(row));
        }
    }
}

/// Record a settled awaited promise against its awaiter's task and dispatch a
/// suspended task again.
pub fn resume_awaiter(txn: &mut Txn, awaiter: &str, awaited: &str, wake: Wake) -> (r: Result<
    (),
    Call,
>)
    requires
        old(txn).wf(),
    ensures
        steps(
            *old(txn),
            *final(txn),
            r,
            |w: World| resumed(w, old(txn)@, awaiter@, awaited@, wake),
        ),
{
    let mut task = match txn.get_task(awaiter)? {
        Some(task) => task,
        None => {
            return Ok(());
        },
    };
    match task.state {
        TaskState::Suspended => {
            task.transition(TaskState::Pending);
            task.resumes = IdSet::new();
            task.resumes.insert(copied(awaited));
            txn.dispatch(&mut task, None)?;
        },
        TaskState::Pending | TaskState::Acquired => {
            task.resumes.insert(copied(awaited));
            txn.put_task(&task);
        },
        TaskState::Halted => {
            if wake == Wake::Fanout {
                task.resumes.insert(copied(awaited));
                txn.put_task(&task);
            }
        },
        TaskState::Fulfilled => {},
    }
    Ok(())
}

/// The consequences of a settlement: the promise's own task is fulfilled and
/// its held claim released, every registered awaiter is resumed and every
/// listener receives an unblock message.
pub fn settle_chain(txn: &mut Txn, promise: &mut StoredPromise) -> (r: Result<(), Call>)
    requires
        old(txn).wf(),
    ensures
        steps(*old(txn), *final(txn), r, |w: World| settled_chain(w, old(txn)@, old(promise)@)),
        r is Ok ==> final(promise)@ == cleared(old(promise)@),
{
    broadcast use {all_called_back_grows, all_unblocked_grows};

    let ghost row = promise@;
    let ghost t = txn@;
    if let Some(mut task) = txn.get_task(&promise.record.id)? {
        if task.state != TaskState::Fulfilled {
            task.transition(TaskState::Fulfilled);
            task.resumes = IdSet::new();
            txn.put_task(&task);
            txn.release(&task.id);
        }
    }
    let mut callbacks: Vec<String> = Vec::new();
    let mut listeners: Vec<String> = Vec::new();
    std::mem::swap(&mut callbacks, &mut promise.callbacks);
    std::mem::swap(&mut listeners, &mut promise.listeners);
    assert(promise@.callbacks =~= Seq::<Text>::empty());
    assert(promise@.listeners =~= Seq::<Text>::empty());
    txn.put_promise(promise);
    let ghost start = txn@;
    let ghost all = texts(callbacks@);
    assert(all.take(0) =~= Seq::<Text>::empty());
    let mut i: usize = 0;
    while i < callbacks.len()
        invariant
            i <= callbacks.len(),
            all == texts(callbacks@),
            all == row.callbacks,
            promise@ == cleared(row),
            txn.wf(),
            txn.facts == old(txn).facts,
            t == old(txn)@,
            row == old(promise)@,
            forall|w: World| #[trigger]
                txn.facts.describe(w) ==> start == task_ended(w, t, row.record.id).put_promise(
                    cleared(row),
                ) && txn@ == all_called_back(w, start, all.take(i as int), row.record.id),
        decreases callbacks.len() - i,
    {
        let ghost next = all.take(i + 1);
        assert(next.drop_last() =~= all.take(i as int));
        assert(next.last() == callbacks@[i as int]@);
        let done = call_back(txn, &callbacks[i], &promise.record.id);
        if let Err(call) = done {
            proof {
                assert forall|w: World| #[trigger] old(txn).facts.describe(w) implies settled_chain(
                    w,
                    t,
                    row,
                ).asked.contains(call@) by {
                    assert(all_called_back(w, start, next, row.record.id).asked.contains(call@));
                    all_called_back_prefix(w, start, all, row.record.id, i + 1, call@);
                    all_unblocked_grows(
                        all_called_back(w, start, all, row.record.id),
                        row.listeners,
                        row.record,
                        call@,
                    );
                }
            }
            return Err(call);
        }
        i += 1;
    }
    assert(all.take(i as int) =~= all);
    let ghost told = txn@;
    let ghost heard = texts(listeners@);
    assert(heard.take(0) =~= Seq::<Text>::empty());
    let mut j: usize = 0;
    while j < listeners.len()
        invariant
            j <= listeners.len(),
            heard == texts(listeners@),
            promise@ == cleared(row),
            txn.wf(),
            txn.facts == old(txn).facts,
            txn@ == all_unblocked(told, heard.take(j as int), row.record),
        decreases listeners.len() - j,
    {
        let ghost next = heard.take(j + 1);
        assert(next.drop_last() =~= heard.take(j as int));
        txn.send_unblock(&listeners[j], &promise.record);
        j += 1;
    }
    assert(heard.take(j as int) =~= heard);
    Ok(())
}

/// Resume `awaiter`, which has a callback on the settled `awaited`, where its
/// promise is pending and within its deadline.
fn call_back(txn: &mut Txn, awaiter: &str, awaited: &str) -> (r: Result<(), Call>)
    requires
        old(txn).wf(),
    ensures
        steps(*old(txn), *final(txn), r, |w: World| called_back(w, old(txn)@, awaiter@, awaited@)),
{
    if let Some(awaiting) = txn.get_promise(awaiter)? {
        if awaiting.record.is_pending() && txn.now < awaiting.record.timeout_at {
            return resume_awaiter(txn, awaiter, awaited, Wake::Fanout);
        }
    }
    Ok(())
}

/// Settle a pending promise by its deadline. The settlement is recorded at the
/// deadline and the value is unchanged.
pub fn expire_promise(txn: &mut Txn, promise: &mut StoredPromise) -> (r: Result<(), Call>)
    requires
        old(txn).wf(),
    ensures
        steps(
            *old(txn),
            *final(txn),
            r,
            |w: World| settled_chain(w, old(txn)@, expired(old(promise)@)),
        ),
        r is Ok ==> final(promise)@ == cleared(expired(old(promise)@)),
{
    promise.record.state = promise.record.timeout_state();
    promise.record.settled_at = Some(promise.record.timeout_at);
    settle_chain(txn, promise)
}

/// Settle a pending promise by a client at `now`.
pub fn settle(
    txn: &mut Txn,
    promise: &mut StoredPromise,
    state: SettleState,
    value: PromiseValue,
) -> (r: Result<(), Call>)
    requires
        old(txn).wf(),
    ensures
        steps(
            *old(txn),
            *final(txn),
            r,
            |w: World|
                settled_chain(
                    w,
                    old(txn)@,
                    settled(old(promise)@, state, value@, old(txn)@.now),
                ),
        ),
        r is Ok ==> final(promise)@ == cleared(
            settled(old(promise)@, state, value@, old(txn)@.now),
        ),
{
    promise.record.state = PromiseState::from(state);
    promise.record.value = value;
    promise.record.settled_at = Some(txn.now);
    settle_chain(txn, promise)
}

/// Settle the promise of `id` if its deadline has passed.
fn try_timeout_one(txn: &mut Txn, id: &str) -> (r: Result<(), Call>)
    requires
        old(txn).wf(),
    ensures
        steps(*old(txn), *final(txn), r, |w: World| timed_out(w, old(txn)@, id@)),
{
    broadcast use settled_chain_grows;

    if let Some(mut promise) = txn.get_promise(id)? {
        if promise.record.is_pending() && txn.now >= promise.record.timeout_at {
            return expire_promise(txn, &mut promise);
        }
    }
    Ok(())
}

/// The texts of a sequence of string slices.
pub open spec fn slices(ids: Seq<&str>) -> Seq<Text> {
    Seq::new(ids.len(), |i: int| ids[i]@)
}

/// Settle every named promise whose deadline has passed.
pub fn try_timeout(txn: &mut Txn, ids: &Vec<&str>) -> (r: Result<(), Call>)
    requires
        old(txn).wf(),
    ensures
        steps(*old(txn), *final(txn), r, |w: World| all_timed_out(w, old(txn)@, slices(ids@))),
{
    let ghost t = txn@;
    let ghost all = slices(ids@);
    assert(all.take(0) =~= Seq::<Text>::empty());
    let mut i: usize = 0;
    while i < ids.len()
        invariant
            i <= ids.len(),
            all == slices(ids@),
            txn.wf(),
            txn.facts == old(txn).facts,
            t == old(txn)@,
            forall|w: World| #[trigger]
                txn.facts.describe(w) ==> txn@ == all_timed_out(w, t, all.take(i as int)),
        decreases ids.len() - i,
    {
        let ghost next = all.take(i + 1);
        assert(next.drop_last() =~= all.take(i as int));
        assert(next.last() == ids@[i as int]@);
        let done = try_timeout_one(txn, ids[i]);
        if let Err(call) = done {
            proof {
                assert forall|w: World| #[trigger] old(txn).facts.describe(w) implies all_timed_out(
                    w,
                    t,
                    all,
                ).asked.contains(call@) by {
                    assert(all_timed_out(w, t, next).asked.contains(call@));
                    all_timed_out_prefix(w, t, all, i + 1, call@);
                }
            }
            return Err(call);
        }
        i += 1;
    }
    assert(all.take(i as int) =~= all);
    Ok(())
}

} // verus!
