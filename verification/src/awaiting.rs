//! Suspended tasks and the promises they await: a settlement reaches every
//! awaiter, and a suspended task is never forgotten.

use vstd::prelude::*;
use crate::calls::World;
use crate::records::{StoredTaskView, TaskState, Text};
use crate::settlement::{all_called_back, called_back};
use crate::txn::TxnView;

verus! {

/// Whether a task, if there is one, has taken notice of the settlement of
/// `awaited`: it is fulfilled, or it is not suspended and `awaited` is among
/// the promises it has not observed.
pub open spec fn notices(task: Option<StoredTaskView>, awaited: Text) -> bool {
    task matches Some(task) ==> task.state == TaskState::Fulfilled || (task.state
        != TaskState::Suspended && task.resumes.contains(awaited))
}

/// Callbacks write no promise.
pub proof fn callbacks_write_no_promise(w: World, t: TxnView, callbacks: Seq<Text>, awaited: Text, id: Text)
    ensures
        all_called_back(w, t, callbacks, awaited).promise(w, id) == t.promise(w, id),
        all_called_back(w, t, callbacks, awaited).now == t.now,
    decreases callbacks.len(),
{
    if callbacks.len() > 0 {
        callbacks_write_no_promise(w, t, callbacks.drop_last(), awaited, id);
        callbacks_write_no_promise(w, t, callbacks.drop_last(), awaited, callbacks.last());
    }
}

/// A callback is noticed by its awaiter, and keeps what others have noticed.
proof fn callback_noticed(w: World, t: TxnView, awaiter: Text, awaited: Text, other: Text)
    requires
        t.task(w, awaiter) matches Some(task) ==> task.id == awaiter,
    ensures
        t.promise(w, awaiter) matches Some(row) ==> (row.record.is_pending() && t.now
            < row.record.timeout_at ==> notices(
            called_back(w, t, awaiter, awaited).task(w, awaiter),
            awaited,
        )),
        notices(t.task(w, other), awaited) ==> notices(
            called_back(w, t, awaiter, awaited).task(w, other),
            awaited,
        ),
{
}

/// Whether every task is stored under its own id.
pub open spec fn tasks_keyed(w: World, t: TxnView) -> bool {
    forall|id: Text| (#[trigger] t.task(w, id)) matches Some(task) ==> task.id == id
}

/// Callbacks keep every task under its own id.
pub proof fn callbacks_keep_keys(w: World, t: TxnView, callbacks: Seq<Text>, awaited: Text)
    requires
        tasks_keyed(w, t),
    ensures
        tasks_keyed(w, all_called_back(w, t, callbacks, awaited)),
    decreases callbacks.len(),
{
    if callbacks.len() > 0 {
        let before = all_called_back(w, t, callbacks.drop_last(), awaited);
        let after = all_called_back(w, t, callbacks, awaited);
        let last = callbacks.last();
        callbacks_keep_keys(w, t, callbacks.drop_last(), awaited);
        assert(before.task(w, last) matches Some(task) ==> task.id == last);
        assert forall|id: Text| (#[trigger] after.task(w, id)) matches Some(task) ==> task.id == id by {
            assert(before.task(w, id) matches Some(task) ==> task.id == id);
        }
    }
}

/// Every callback of a pending awaiter within its deadline is noticed.
pub proof fn callbacks_noticed(w: World, t: TxnView, callbacks: Seq<Text>, awaited: Text, i: int)
    requires
        tasks_keyed(w, t),
        0 <= i < callbacks.len(),
        t.promise(w, callbacks[i]) matches Some(row) && row.record.is_pending() && t.now
            < row.record.timeout_at,
    ensures
        notices(all_called_back(w, t, callbacks, awaited).task(w, callbacks[i]), awaited),
    decreases callbacks.len(),
{
    let short = callbacks.drop_last();
    let before = all_called_back(w, t, short, awaited);
    let last = callbacks.last();
    callbacks_keep_keys(w, t, short, awaited);
    callbacks_write_no_promise(w, t, short, awaited, last);
    assert(before.task(w, last) matches Some(task) ==> task.id == last);
    callback_noticed(w, before, last, awaited, callbacks[i]);
    if i < short.len() {
        assert(short[i] == callbacks[i]);
        callbacks_noticed(w, t, short, awaited, i);
    }
}

/// Whether `id` is registered with `awaited`, which is pending.
pub open spec fn awaits(w: World, t: TxnView, id: Text, awaited: Text) -> bool {
    t.promise(w, awaited) matches Some(row) && row.record.is_pending() && row.callbacks.contains(id)
}

/// Whether the task of `id` is suspended within the deadline of its promise.
pub open spec fn sleeps(w: World, t: TxnView, id: Text) -> bool {
    &&& t.task(w, id) matches Some(task) && task.state == TaskState::Suspended
    &&& t.promise(w, id) matches Some(row) ==> t.now < row.record.timeout_at
}

/// Whether the settlement of some pending promise will reach the task of `id`.
pub open spec fn will_wake(w: World, t: TxnView, id: Text) -> bool {
    exists|awaited: Text| awaits(w, t, id, awaited)
}

/// Whether no suspended task is forgotten: within the deadline of its promise,
/// each is registered with a promise that is pending.
pub open spec fn none_forgotten(w: World, t: TxnView) -> bool {
    forall|id: Text| #[trigger] sleeps(w, t, id) ==> will_wake(w, t, id)
}

/// Whether the task of `id`, where it sleeps at `to`, will wake, or slept at
/// `from` and has lost no registration since.
pub open spec fn minded(w: World, from: TxnView, to: TxnView, id: Text) -> bool {
    sleeps(w, to, id) ==> will_wake(w, to, id) || (sleeps(w, from, id) && forall|awaited: Text|
     #[trigger] awaits(w, from, id, awaited) ==> awaits(w, to, id, awaited))
}

/// Whether every task is minded from one point of a request to a later one.
#[verifier::opaque]
pub open spec fn minds(w: World, from: TxnView, to: TxnView) -> bool {
    forall|id: Text| #[trigger] minded(w, from, to, id)
}

/// Two steps after each other mind as each does.
pub proof fn steps_mind(w: World, a: TxnView, b: TxnView, c: TxnView)
    requires
        minds(w, a, b),
        minds(w, b, c),
    ensures
        minds(w, a, c),
{
    reveal(minds);
    assert forall|id: Text| #[trigger] minded(w, a, c, id) by {
        assert(minded(w, a, b, id));
        assert(minded(w, b, c, id));
        if sleeps(w, c, id) && !will_wake(w, c, id) && will_wake(w, b, id) {
            let awaited = choose|awaited: Text| awaits(w, b, id, awaited);
            assert(awaits(w, c, id, awaited));
        }
    }
}

/// A step that minds every task forgets none.
pub proof fn minded_steps_forget_none(w: World, from: TxnView, to: TxnView)
    requires
        minds(w, from, to),
        none_forgotten(w, from),
    ensures
        none_forgotten(w, to),
{
    reveal(minds);
    assert forall|id: Text| #[trigger] sleeps(w, to, id) implies will_wake(w, to, id) by {
        assert(minded(w, from, to, id));
        if !will_wake(w, to, id) {
            let awaited = choose|awaited: Text| awaits(w, from, id, awaited);
            assert(awaits(w, to, id, awaited));
        }
    }
}

/// A step that writes no promise, and suspends no task but one that will wake,
/// minds every task.
pub proof fn task_writes_mind(w: World, from: TxnView, to: TxnView)
    requires
        from.now == to.now,
        forall|id: Text| #[trigger] to.promise(w, id) == from.promise(w, id),
        forall|id: Text|
            (#[trigger] to.task(w, id)) matches Some(task) ==> task.state == TaskState::Suspended
                ==> will_wake(w, from, id) || (from.task(w, id) matches Some(before)
                && before.state == TaskState::Suspended),
    ensures
        minds(w, from, to),
{
    reveal(minds);
    assert forall|id: Text| #[trigger] minded(w, from, to, id) by {
        assert(to.promise(w, id) == from.promise(w, id));
        assert forall|awaited: Text| #[trigger] awaits(w, from, id, awaited) implies awaits(
            w,
            to,
            id,
            awaited,
        ) by {
            assert(to.promise(w, awaited) == from.promise(w, awaited));
        }
        if sleeps(w, to, id) {
            assert(to.task(w, id) is Some);
            if will_wake(w, from, id) {
                let awaited = choose|awaited: Text| awaits(w, from, id, awaited);
                assert(awaits(w, to, id, awaited));
            }
        }
    }
}

/// A step that writes no task, and promises only with the registrations they
/// had, minds every task.
pub proof fn promise_writes_mind(w: World, from: TxnView, to: TxnView)
    requires
        from.now == to.now,
        forall|id: Text| #[trigger] to.task(w, id) == from.task(w, id),
        forall|id: Text|
            from.promise(w, id) matches Some(a) ==> ((#[trigger] to.promise(w, id)) matches Some(b)
                && a.record == b.record && forall|other: Text| #[trigger]
                a.callbacks.contains(other) ==> b.callbacks.contains(other)),
    ensures
        minds(w, from, to),
{
    reveal(minds);
    assert forall|id: Text| #[trigger] minded(w, from, to, id) by {
        assert(to.task(w, id) == from.task(w, id));
        assert(from.promise(w, id) is Some ==> to.promise(w, id) is Some);
        assert forall|awaited: Text| #[trigger] awaits(w, from, id, awaited) implies awaits(
            w,
            to,
            id,
            awaited,
        ) by {
            assert(to.promise(w, awaited) is Some);
        }
    }
}

} // verus!
