//! What the settlement of a promise brings about, told by the stored records:
//! the promise, its own task, the tasks that await it and its listeners.

use vstd::prelude::*;
use crate::awaiting::{callbacks_keep_keys, callbacks_write_no_promise, tasks_keyed};
use crate::calls::{at, CallView, World};
use crate::history::due_is_one_deadline;
use crate::keys::KeyView;
use crate::promises::due;
use crate::records::{
    PromiseState, PromiseView, SettleState, StoredPromiseView, StoredTaskView, TaskState, Text,
    ValueView,
};
use crate::settlement::{
    all_called_back, all_timed_out, all_unblocked, called_back, cleared, settled_chain,
    settled_chain_keeps, task_ended,
};
use crate::txn::{AfterView, EnqueueView, PayloadView, RowView, TxnView};

verus! {

/// Whether every stored promise and task is stored under its own id.
pub open spec fn keyed(w: World) -> bool {
    &&& forall|id: Text| (#[trigger] at(w.promises, id)) matches Some(row) ==> row.record.id == id
    &&& forall|id: Text| (#[trigger] at(w.tasks, id)) matches Some(task) ==> task.id == id
}

/// Whether the stored records are in order: each is stored under its own id, and
/// no awaiter is registered twice.
pub open spec fn orderly(w: World) -> bool {
    keyed(w) && forall|id: Text| (#[trigger] at(w.promises, id)) matches Some(row)
        ==> row.callbacks.no_duplicates() && row.callbacks.len() <= u64::MAX
}

/// Whether a request has written, enqueued and put off nothing yet, and drawn no
/// job id.
pub open spec fn untouched(t: TxnView) -> bool {
    &&& t.writes == Map::<KeyView, Option<RowView>>::empty()
    &&& t.enqueues == Seq::<EnqueueView>::empty()
    &&& t.after == Seq::<AfterView>::empty()
    &&& t.jobs == 0
}

/// Whether a request writes `row` for the task of `id`.
pub open spec fn writes_task(t: TxnView, id: Text, row: StoredTaskView) -> bool {
    t.writes.contains_key(KeyView::Task(id)) && t.writes[KeyView::Task(id)] == Some(
        RowView::Task(row),
    )
}

/// Whether a request writes `row` for the promise of `id`.
pub open spec fn writes_promise(t: TxnView, id: Text, row: StoredPromiseView) -> bool {
    t.writes.contains_key(KeyView::Promise(id)) && t.writes[KeyView::Promise(id)] == Some(
        RowView::Promise(row),
    )
}

/// Whether the stored promise of `id` is pending before its deadline.
pub open spec fn open_at(w: World, id: Text, now: i64) -> bool {
    at(w.promises, id) matches Some(row) && row.record.state == PromiseState::Pending && now
        < row.record.timeout_at
}

/// Whether the settlement of `settled` wakes the task of `awaiter`: its promise is
/// pending before its deadline, and it is suspended.
pub open spec fn wakes(w: World, now: i64, settled: Text, awaiter: Text) -> bool {
    awaiter != settled && open_at(w, awaiter, now) && (at(w.tasks, awaiter) matches Some(task)
        && task.state == TaskState::Suspended)
}

/// Those of `callbacks` that the settlement of `settled` wakes, in the order of
/// their registration.
pub open spec fn woken_by(w: World, now: i64, settled: Text, callbacks: Seq<Text>) -> Seq<Text> {
    callbacks.filter(|awaiter: Text| wakes(w, now, settled, awaiter))
}

/// The suspended `task` of `awaiter` as it is dispatched again under `job`, with
/// `settled` to observe.
pub open spec fn awake(
    awaiter: Text,
    task: StoredTaskView,
    settled: Text,
    job: Text,
) -> StoredTaskView {
    StoredTaskView {
        id: awaiter,
        state: TaskState::Pending,
        version: task.version,
        target: task.target,
        job: Some(job),
        pid: None,
        ttl: None,
        resumes: set![settled],
    }
}

/// Whether a request tells the task of `awaiter` that `settled` is settled: one
/// that waits for it becomes pending with nothing else to observe, any other that
/// is not fulfilled keeps its state and has one more promise to observe.
pub open spec fn told(w: World, t: TxnView, now: i64, settled: Text, awaiter: Text) -> bool {
    match at(w.tasks, awaiter) {
        Some(task) => if !open_at(w, awaiter, now) || task.state == TaskState::Fulfilled {
            !t.writes.contains_key(KeyView::Task(awaiter))
        } else if task.state == TaskState::Suspended {
            exists|job: Text| #[trigger]
                writes_task(t, awaiter, awake(awaiter, task, settled, job))
        } else {
            writes_task(
                t,
                awaiter,
                StoredTaskView {
                    id: awaiter,
                    state: task.state,
                    version: task.version,
                    target: task.target,
                    job: task.job,
                    pid: task.pid,
                    ttl: task.ttl,
                    resumes: task.resumes.insert(settled),
                },
            )
        },
        None => !t.writes.contains_key(KeyView::Task(awaiter)),
    }
}

/// Whether the `k`-th job that a request enqueues dispatches the woken task of
/// `id`: on its target's queue, at once, under the id that the task records,
/// which is the `k`-th that the request draws.
pub open spec fn dispatches_woken(w: World, t: TxnView, k: int, id: Text) -> bool {
    &&& t.asked.contains(CallView::JobId(k as u64))
    &&& t.enqueues[k].queue == at(w.tasks, id)->0.target
    &&& t.enqueues[k].payload == PayloadView::Execute(id)
    &&& t.enqueues[k].job == Some((w.job_ids)(k as u64))
    &&& t.enqueues[k].run_at is None
    &&& t.writes.contains_key(KeyView::Task(id)) && (t.writes[KeyView::Task(id)] matches Some(
        RowView::Task(task),
    ) && task.job == Some((w.job_ids)(k as u64)))
}

/// Whether the tasks that await `settled` are told, and those that wait for it
/// dispatched in the order of registration, before anything else is enqueued.
pub open spec fn all_told(
    w: World,
    t: TxnView,
    now: i64,
    settled: Text,
    callbacks: Seq<Text>,
) -> bool {
    let woken = woken_by(w, now, settled, callbacks);
    &&& forall|i: int|
        0 <= i < callbacks.len() && callbacks[i] != settled ==> told(
            w,
            t,
            now,
            settled,
            #[trigger] callbacks[i],
        )
    &&& forall|k: int|
        0 <= k < woken.len() ==> dispatches_woken(w, t, k, #[trigger] woken[k])
}

/// Whether a request over `w` at `now` settles the stored promise `row`, so that
/// its record is `promise`:
///
/// - the promise is stored with this record and without registrations;
/// - its own task, if it has one that is not fulfilled, is fulfilled, with no
///   holder and nothing to observe, and its claim is released;
/// - the task of every awaiter is told, and dispatched if it waits;
/// - after the dispatches, every listener is sent the record, in the order of
///   registration;
/// - nothing else is written or enqueued.
pub open spec fn settles_to(
    w: World,
    t: TxnView,
    now: i64,
    row: StoredPromiseView,
    promise: PromiseView,
) -> bool {
    let id = row.record.id;
    let woken = woken_by(w, now, id, row.callbacks);
    &&& writes_promise(
        t,
        id,
        StoredPromiseView { record: promise, callbacks: Seq::empty(), listeners: Seq::empty() },
    )
    &&& match at(w.tasks, id) {
        Some(task) => if task.state == TaskState::Fulfilled {
            !t.writes.contains_key(KeyView::Task(id)) && t.after == Seq::<AfterView>::empty()
        } else {
            writes_task(
                t,
                id,
                StoredTaskView {
                    id,
                    state: TaskState::Fulfilled,
                    version: task.version,
                    target: task.target,
                    job: task.job,
                    pid: None,
                    ttl: None,
                    resumes: Set::empty(),
                },
            ) && t.after == seq![AfterView::Release(id)]
        },
        None => !t.writes.contains_key(KeyView::Task(id)) && t.after == Seq::<AfterView>::empty(),
    }
    &&& all_told(w, t, now, id, row.callbacks)
    &&& t.enqueues.len() == woken.len() + row.listeners.len()
    &&& forall|i: int|
        0 <= i < row.listeners.len() ==> t.enqueues[woken.len() + i] == (EnqueueView {
            queue: #[trigger] row.listeners[i],
            payload: PayloadView::Unblock(promise),
            job: None,
            run_at: None,
        })
    &&& forall|key: KeyView| #[trigger]
        t.writes.contains_key(key) ==> key == KeyView::Promise(id) || key == KeyView::Task(id) || (
        key matches KeyView::Task(awaiter) && row.callbacks.contains(awaiter))
}

/// The record of a promise that its deadline settles: a timer resolves and any
/// other promise times out, at the time of the deadline.
pub open spec fn by_deadline(promise: PromiseView) -> PromiseView {
    PromiseView {
        id: promise.id,
        state: if promise.tags.contains_key("resonate:timer"@) && promise.tags["resonate:timer"@]
            == "true"@ {
            PromiseState::Resolved
        } else {
            PromiseState::RejectedTimedout
        },
        param: promise.param,
        value: promise.value,
        tags: promise.tags,
        timeout_at: promise.timeout_at,
        created_at: promise.created_at,
        settled_at: Some(promise.timeout_at),
    }
}

/// The record of a promise that a client settles at `now`.
pub open spec fn by_client(
    promise: PromiseView,
    state: SettleState,
    value: ValueView,
    now: i64,
) -> PromiseView {
    PromiseView {
        id: promise.id,
        state: match state {
            SettleState::Resolved => PromiseState::Resolved,
            SettleState::Rejected => PromiseState::Rejected,
            SettleState::RejectedCanceled => PromiseState::RejectedCanceled,
        },
        param: promise.param,
        value,
        tags: promise.tags,
        timeout_at: promise.timeout_at,
        created_at: promise.created_at,
        settled_at: Some(now),
    }
}

/// Whether a stored promise is pending past its deadline at `now`.
pub open spec fn late(row: StoredPromiseView, now: i64) -> bool {
    row.record.state == PromiseState::Pending && row.record.timeout_at <= now
}

/// What the callbacks of `settled` do to a request: the tasks are told, the
/// dispatches come after what was enqueued before, and nothing else is touched.
proof fn callbacks_tell(w: World, t: TxnView, settled: Text, callbacks: Seq<Text>)
    requires
        keyed(w),
        callbacks.no_duplicates(),
        callbacks.len() <= u64::MAX,
        t.enqueues == Seq::<EnqueueView>::empty(),
        t.jobs == 0,
        t.promise(w, settled) matches Some(row) && row.record.state != PromiseState::Pending,
        forall|id: Text| id != settled ==> !#[trigger] t.writes.contains_key(KeyView::Promise(id)),
        forall|id: Text| id != settled ==> !#[trigger] t.writes.contains_key(KeyView::Task(id)),
    ensures
        ({
            let after = all_called_back(w, t, callbacks, settled);
            let woken = woken_by(w, t.now, settled, callbacks);
            &&& all_told(w, after, t.now, settled, callbacks)
            &&& woken.len() <= callbacks.len()
            &&& after.enqueues.len() == woken.len()
            &&& after.jobs == woken.len()
            &&& after.after == t.after
            &&& after.now == t.now
            &&& forall|key: KeyView|
                #![trigger after.writes.contains_key(key)]
                (!(key is Task) || key == KeyView::Task(settled) || !callbacks.contains(
                    key->Task_0,
                )) ==> after.writes.contains_key(key) == t.writes.contains_key(key)
                    && after.writes[key] == t.writes[key]
        }),
    decreases callbacks.len(),
{
    reveal(Seq::filter);
    let after = all_called_back(w, t, callbacks, settled);
    let woken = woken_by(w, t.now, settled, callbacks);
    if callbacks.len() > 0 {
        let short = callbacks.drop_last();
        let last = callbacks.last();
        let before = all_called_back(w, t, short, settled);
        let fewer = woken_by(w, t.now, settled, short);
        assert(callbacks[callbacks.len() - 1] == last);
        assert forall|i: int, j: int| 0 <= i < short.len() && 0 <= j < short.len() && i != j implies short[i]
            != short[j] by {
            assert(short[i] == callbacks[i] && short[j] == callbacks[j]);
        }
        callbacks_tell(w, t, settled, short);
        assert(!short.contains(last)) by {
            if short.contains(last) {
                let i = short.index_of(last);
                assert(callbacks[i] == last);
            }
        }
        assert forall|x: Text| short.contains(x) implies callbacks.contains(x) by {
            let i = short.index_of(x);
            assert(callbacks[i] == x);
        }
        assert(callbacks.contains(last));
        assert(before.writes.contains_key(KeyView::Promise(last)) == t.writes.contains_key(
            KeyView::Promise(last),
        ));
        assert(before.writes.contains_key(KeyView::Task(last)) == t.writes.contains_key(
            KeyView::Task(last),
        ));
        if last != settled {
            assert(before.promise(w, last) == at(w.promises, last));
            assert(before.task(w, last) == at(w.tasks, last));
        } else {
            assert(before.promise(w, settled) == t.promise(w, settled));
        }
        assert(after == called_back(w, before, last, settled));
        if wakes(w, t.now, settled, last) {
            assert(woken =~= fewer.push(last));
            let job = (w.job_ids)(before.jobs);
            let task = at(w.tasks, last)->0;
            assert(Set::<Text>::empty().insert(settled) =~= set![settled]);
            assert(writes_task(after, last, awake(last, task, settled, job)));
        } else {
            assert(woken =~= fewer);
        }
        assert forall|x: Text| x != last implies after.writes.contains_key(KeyView::Task(x))
            == before.writes.contains_key(KeyView::Task(x)) && after.writes[KeyView::Task(x)]
            == #[trigger] before.writes[KeyView::Task(x)] by {}
        assert forall|i: int| 0 <= i < callbacks.len() && callbacks[i] != settled implies told(
            w,
            after,
            t.now,
            settled,
            #[trigger] callbacks[i],
        ) by {
            if i < short.len() {
                let x = short[i];
                assert(x == callbacks[i]);
                assert(x != last);
                assert(told(w, before, t.now, settled, x));
                assert(after.writes[KeyView::Task(x)] == before.writes[KeyView::Task(x)]);
                if let Some(task) = at(w.tasks, x) {
                    if open_at(w, x, t.now) && task.state == TaskState::Suspended {
                        let job = choose|job: Text| #[trigger]
                            writes_task(before, x, awake(x, task, settled, job));
                        assert(writes_task(after, x, awake(x, task, settled, job)));
                    }
                }
            }
        }
        assert forall|k: int| 0 <= k < woken.len() implies dispatches_woken(
            w,
            after,
            k,
            #[trigger] woken[k],
        ) by {
            if k < fewer.len() {
                assert(woken[k] == fewer[k]);
                assert(dispatches_woken(w, before, k, fewer[k]));
                assert(fewer.contains(fewer[k]));
                short.lemma_filter_contains_rev(
                    |awaiter: Text| wakes(w, t.now, settled, awaiter),
                    fewer[k],
                );
                assert(fewer[k] != last);
                assert(after.writes[KeyView::Task(fewer[k])] == before.writes[KeyView::Task(
                    fewer[k],
                )]);
                assert(after.enqueues[k] == before.enqueues[k]);
            }
        }
    } else {
        assert(woken =~= Seq::<Text>::empty());
    }
}

/// The unblock messages of a settlement come after what was enqueued before, one
/// for every listener in the order of registration, and are all that is added.
proof fn listeners_are_sent(t: TxnView, listeners: Seq<Text>, promise: PromiseView)
    ensures
        ({
            let after = all_unblocked(t, listeners, promise);
            &&& after == (TxnView { enqueues: after.enqueues, ..t })
            &&& after.enqueues.len() == t.enqueues.len() + listeners.len()
            &&& forall|k: int| 0 <= k < t.enqueues.len() ==> #[trigger] after.enqueues[k] == t.enqueues[k]
            &&& forall|i: int|
                0 <= i < listeners.len() ==> after.enqueues[t.enqueues.len() + i] == (EnqueueView {
                    queue: #[trigger] listeners[i],
                    payload: PayloadView::Unblock(promise),
                    job: None,
                    run_at: None,
                })
        }),
    decreases listeners.len(),
{
    if listeners.len() > 0 {
        let short = listeners.drop_last();
        listeners_are_sent(t, short, promise);
        assert forall|i: int| 0 <= i < listeners.len() implies all_unblocked(
            t,
            listeners,
            promise,
        ).enqueues[t.enqueues.len() + i] == (EnqueueView {
            queue: #[trigger] listeners[i],
            payload: PayloadView::Unblock(promise),
            job: None,
            run_at: None,
        }) by {
            if i < short.len() {
                assert(short[i] == listeners[i]);
            }
        }
    }
}

/// A request that settles a stored promise, and has done nothing else, settles it
/// with all that this brings about.
pub proof fn a_settlement_has_its_consequences(
    w: World,
    t: TxnView,
    row: StoredPromiseView,
    promise: PromiseView,
)
    requires
        keyed(w),
        untouched(t),
        at(w.promises, row.record.id) == Some(row),
        row.callbacks.no_duplicates(),
        row.callbacks.len() <= u64::MAX,
        promise.id == row.record.id,
        promise.state != PromiseState::Pending,
    ensures
        settles_to(
            w,
            settled_chain(
                w,
                t,
                StoredPromiseView {
                    record: promise,
                    callbacks: row.callbacks,
                    listeners: row.listeners,
                },
            ),
            t.now,
            row,
            promise,
        ),
{
    let id = row.record.id;
    let settled = StoredPromiseView {
        record: promise,
        callbacks: row.callbacks,
        listeners: row.listeners,
    };
    let start = task_ended(w, t, id).put_promise(cleared(settled));
    assert(t.task(w, id) == at(w.tasks, id));
    assert(start.promise(w, id) == Some(cleared(settled)));
    callbacks_tell(w, start, id, row.callbacks);
    let mid = all_called_back(w, start, row.callbacks, id);
    let after = settled_chain(w, t, settled);
    let woken = woken_by(w, t.now, id, row.callbacks);
    listeners_are_sent(mid, row.listeners, promise);
    assert(mid.writes.contains_key(KeyView::Promise(id)));
    assert(mid.writes.contains_key(KeyView::Task(id)) == start.writes.contains_key(
        KeyView::Task(id),
    ));
    assert(start.after =~= (match at(w.tasks, id) {
        Some(task) => if task.state == TaskState::Fulfilled {
            Seq::<AfterView>::empty()
        } else {
            seq![AfterView::Release(id)]
        },
        None => Seq::<AfterView>::empty(),
    }));
    assert(all_told(w, after, t.now, id, row.callbacks)) by {
        assert forall|i: int| 0 <= i < row.callbacks.len() && row.callbacks[i] != id implies told(
            w,
            after,
            t.now,
            id,
            #[trigger] row.callbacks[i],
        ) by {
            let x = row.callbacks[i];
            assert(told(w, mid, t.now, id, x));
            if let Some(task) = at(w.tasks, x) {
                if open_at(w, x, t.now) && task.state == TaskState::Suspended {
                    let job = choose|job: Text| #[trigger]
                        writes_task(mid, x, awake(x, task, id, job));
                    assert(writes_task(after, x, awake(x, task, id, job)));
                }
            }
        }
        assert forall|k: int| 0 <= k < woken.len() implies dispatches_woken(
            w,
            after,
            k,
            #[trigger] woken[k],
        ) by {
            assert(dispatches_woken(w, mid, k, woken[k]));
            assert(after.enqueues[k] == mid.enqueues[k]);
        }
    }
    assert forall|key: KeyView| #[trigger] after.writes.contains_key(key) implies key
        == KeyView::Promise(id) || key == KeyView::Task(id) || (key matches KeyView::Task(awaiter)
        && row.callbacks.contains(awaiter)) by {
        assert(mid.writes.contains_key(key));
    }
}

/// A settlement stays one where the request only depends on more calls.
pub proof fn settles_to_stays(
    w: World,
    a: TxnView,
    b: TxnView,
    now: i64,
    row: StoredPromiseView,
    promise: PromiseView,
)
    requires
        settles_to(w, a, now, row, promise),
        a.writes == b.writes,
        a.enqueues == b.enqueues,
        a.after == b.after,
        a.asked.subset_of(b.asked),
    ensures
        settles_to(w, b, now, row, promise),
{
    let id = row.record.id;
    let woken = woken_by(w, now, id, row.callbacks);
    assert forall|i: int| 0 <= i < row.callbacks.len() && row.callbacks[i] != id implies told(
        w,
        b,
        now,
        id,
        #[trigger] row.callbacks[i],
    ) by {
        let x = row.callbacks[i];
        assert(told(w, a, now, id, x));
        if let Some(task) = at(w.tasks, x) {
            if open_at(w, x, now) && task.state == TaskState::Suspended {
                let job = choose|job: Text| #[trigger]
                    writes_task(a, x, awake(x, task, id, job));
                assert(writes_task(b, x, awake(x, task, id, job)));
            }
        }
    }
    assert forall|k: int| 0 <= k < woken.len() implies dispatches_woken(
        w,
        b,
        k,
        #[trigger] woken[k],
    ) by {
        assert(dispatches_woken(w, a, k, woken[k]));
    }
}

/// A request that refers to one promise applies its deadline first: a promise
/// pending past it is settled, with all that this brings about, and the request
/// sees it and its task so; any other is left as it is.
pub proof fn a_deadline_is_applied_first(w: World, t: TxnView, id: Text)
    requires
        orderly(w),
        untouched(t),
    ensures
        match at(w.promises, id) {
            Some(row) => if late(row, t.now) {
                let timed = due(w, t, id);
                &&& settles_to(w, timed, t.now, row, by_deadline(row.record))
                &&& timed.promise(w, id) == Some(
                    StoredPromiseView {
                        record: by_deadline(row.record),
                        callbacks: Seq::empty(),
                        listeners: Seq::empty(),
                    },
                )
                &&& timed.now == t.now
                &&& match at(w.tasks, id) {
                    Some(task) => timed.task(w, id) matches Some(found) && found.state
                        == TaskState::Fulfilled && found.version == task.version && found.id == id
                        && (task.state != TaskState::Fulfilled ==> found.resumes == Set::<
                        Text,
                    >::empty()),
                    None => timed.task(w, id) is None,
                }
            } else {
                due(w, t, id) == t.ask(CallView::Promise(id))
            },
            None => due(w, t, id) == t.ask(CallView::Promise(id)),
        },
{
    due_is_one_deadline(w, t, id);
    assert(t.promise(w, id) == at(w.promises, id));
    assert(t.task(w, id) == at(w.tasks, id));
    if let Some(row) = at(w.promises, id) {
        if late(row, t.now) {
            let read = t.read_promise(id);
            let settled = StoredPromiseView {
                record: by_deadline(row.record),
                callbacks: row.callbacks,
                listeners: row.listeners,
            };
            a_settlement_has_its_consequences(w, read, row, by_deadline(row.record));
            assert(due(w, t, id) == settled_chain(w, read, settled));
            settled_chain_keeps(w, read, settled);
        }
    }
}

/// Whether a request sends `promise` to every listener of `row`, in the order of
/// registration.
pub open spec fn sends_to_listeners(
    t: TxnView,
    row: StoredPromiseView,
    promise: PromiseView,
) -> bool {
    exists|first: int| #[trigger] sends_from(t, first, row.listeners, promise)
}

/// Whether the jobs of a request from the `first` on send `promise` to `listeners`.
pub open spec fn sends_from(
    t: TxnView,
    first: int,
    listeners: Seq<Text>,
    promise: PromiseView,
) -> bool {
    &&& 0 <= first
    &&& first + listeners.len() <= t.enqueues.len()
    &&& forall|i: int|
        0 <= i < listeners.len() ==> t.enqueues[first + i] == (EnqueueView {
            queue: #[trigger] listeners[i],
            payload: PayloadView::Unblock(promise),
            job: None,
            run_at: None,
        })
}

/// Whether a request at `now` settles the stored promise of `id` by its deadline,
/// where it is pending past it: it sees the promise with its record, without
/// registrations, and sends the record to every listener.
pub open spec fn settles_if_late(w: World, t: TxnView, now: i64, id: Text) -> bool {
    match at(w.promises, id) {
        Some(row) => late(row, now) ==> t.promise(w, id) == Some(
            StoredPromiseView {
                record: by_deadline(row.record),
                callbacks: Seq::empty(),
                listeners: Seq::empty(),
            },
        ) && sends_to_listeners(t, row, by_deadline(row.record)),
        None => true,
    }
}

/// Callbacks enqueue after what was enqueued before.
proof fn callbacks_enqueue_after(w: World, t: TxnView, callbacks: Seq<Text>, settled: Text)
    ensures
        t.enqueues.is_prefix_of(all_called_back(w, t, callbacks, settled).enqueues),
    decreases callbacks.len(),
{
    if callbacks.len() > 0 {
        callbacks_enqueue_after(w, t, callbacks.drop_last(), settled);
        let before = all_called_back(w, t, callbacks.drop_last(), settled);
        let after = all_called_back(w, t, callbacks, settled);
        assert(before.enqueues.is_prefix_of(after.enqueues)) by {
            if after.enqueues.len() == before.enqueues.len() {
                assert(after.enqueues =~= before.enqueues);
            } else {
                assert(before.enqueues =~= after.enqueues.subrange(
                    0,
                    before.enqueues.len() as int,
                ));
            }
        }
        prefixes_chain(t.enqueues, before.enqueues, after.enqueues);
    } else {
        assert(t.enqueues =~= t.enqueues.subrange(0, t.enqueues.len() as int));
    }
}

/// What starts a start starts the whole.
proof fn prefixes_chain(a: Seq<EnqueueView>, b: Seq<EnqueueView>, c: Seq<EnqueueView>)
    requires
        a.is_prefix_of(b),
        b.is_prefix_of(c),
    ensures
        a.is_prefix_of(c),
{
    assert(a =~= c.subrange(0, a.len() as int)) by {
        assert forall|i: int| 0 <= i < a.len() implies a[i] == c[i] by {
            assert(a[i] == b.subrange(0, a.len() as int)[i]);
            assert(b[i] == c.subrange(0, b.len() as int)[i]);
        }
    }
}

/// A settlement enqueues after what was enqueued before, and sends its promise to
/// every listener.
pub proof fn a_settlement_sends_to_listeners(w: World, t: TxnView, row: StoredPromiseView)
    ensures
        t.enqueues.is_prefix_of(settled_chain(w, t, row).enqueues),
        sends_to_listeners(settled_chain(w, t, row), row, row.record),
{
    let start = task_ended(w, t, row.record.id).put_promise(cleared(row));
    let mid = all_called_back(w, start, row.callbacks, row.record.id);
    let after = settled_chain(w, t, row);
    assert(start.enqueues == t.enqueues);
    callbacks_enqueue_after(w, start, row.callbacks, row.record.id);
    listeners_are_sent(mid, row.listeners, row.record);
    assert(mid.enqueues =~= after.enqueues.subrange(0, mid.enqueues.len() as int));
    prefixes_chain(t.enqueues, mid.enqueues, after.enqueues);
    assert(sends_from(after, mid.enqueues.len() as int, row.listeners, row.record));
}

/// What a request has sent stays sent while it enqueues more.
pub proof fn sent_stays(a: TxnView, b: TxnView, row: StoredPromiseView, promise: PromiseView)
    requires
        sends_to_listeners(a, row, promise),
        a.enqueues.is_prefix_of(b.enqueues),
    ensures
        sends_to_listeners(b, row, promise),
{
    let first = choose|first: int| #[trigger] sends_from(a, first, row.listeners, promise);
    assert forall|i: int| 0 <= i < row.listeners.len() implies b.enqueues[first + i] == (
    EnqueueView {
        queue: #[trigger] row.listeners[i],
        payload: PayloadView::Unblock(promise),
        job: None,
        run_at: None,
    }) by {
        assert(a.enqueues[first + i] == b.enqueues.subrange(0, a.enqueues.len() as int)[first + i]);
    }
    assert(sends_from(b, first, row.listeners, promise));
}

/// The deadlines of the promises that a request names: one of them that is pending
/// past its deadline is settled by it, without registrations, and is sent to every
/// one of its listeners; a promise that is not named keeps its record, its
/// callbacks and its listeners.
pub proof fn deadlines_settle_what_is_late(w: World, t: TxnView, ids: Seq<Text>, id: Text)
    requires
        forall|x: Text| (#[trigger] t.promise(w, x)) matches Some(row) ==> row.record.id == x,
    ensures
        ({
            let after = all_timed_out(w, t, ids);
            &&& t.enqueues.is_prefix_of(after.enqueues)
            &&& after.now == t.now
            &&& forall|x: Text|
                (#[trigger] after.promise(w, x)) matches Some(row) ==> row.record.id == x
            &&& match t.promise(w, id) {
                Some(row) => if late(row, t.now) && ids.contains(id) {
                    &&& after.promise(w, id) == Some(
                        StoredPromiseView {
                            record: by_deadline(row.record),
                            callbacks: Seq::empty(),
                            listeners: Seq::empty(),
                        },
                    )
                    &&& sends_to_listeners(after, row, by_deadline(row.record))
                } else {
                    after.promise(w, id) == Some(row)
                },
                None => after.promise(w, id) is None,
            }
        }),
    decreases ids.len(),
{
    let after = all_timed_out(w, t, ids);
    if ids.len() == 0 {
        assert(t.enqueues =~= t.enqueues.subrange(0, t.enqueues.len() as int));
    } else {
        let short = ids.drop_last();
        let last = ids.last();
        let before = all_timed_out(w, t, short);
        deadlines_settle_what_is_late(w, t, short, id);
        deadlines_settle_what_is_late(w, t, short, last);
        assert(ids[ids.len() - 1] == last);
        assert(ids.contains(id) <==> short.contains(id) || id == last) by {
            if short.contains(id) {
                assert(ids[short.index_of(id)] == id);
            }
            if ids.contains(id) && id != last {
                assert(short[ids.index_of(id)] == id);
            }
        }
        let expires = before.promise(w, last) matches Some(row) && late(row, before.now);
        assert(before.enqueues =~= before.enqueues.subrange(0, before.enqueues.len() as int));
        if !expires {
            assert forall|x: Text| #[trigger] after.promise(w, x) == before.promise(w, x) by {}
        }
        if let Some(row) = before.promise(w, last) {
            if late(row, before.now) {
                let read = before.read_promise(last);
                let settled = StoredPromiseView {
                    record: by_deadline(row.record),
                    callbacks: row.callbacks,
                    listeners: row.listeners,
                };
                assert(after == settled_chain(w, read, settled));
                a_settlement_sends_to_listeners(w, read, settled);
                settled_chain_keeps(w, read, settled);
                let start = task_ended(w, read, last).put_promise(cleared(settled));
                let mid = all_called_back(w, start, row.callbacks, last);
                assert forall|x: Text| #[trigger] after.promise(w, x) == (if x == last {
                    Some(cleared(settled))
                } else {
                    before.promise(w, x)
                }) by {
                    callbacks_write_no_promise(w, start, row.callbacks, last, x);
                    listeners_are_sent(mid, row.listeners, settled.record);
                    assert(after.promise(w, x) == mid.promise(w, x));
                }
                let first = choose|first: int| #[trigger]
                    sends_from(after, first, settled.listeners, settled.record);
                assert(sends_from(after, first, row.listeners, by_deadline(row.record)));
            }
        }
        assert(before.enqueues.is_prefix_of(after.enqueues));
        prefixes_chain(t.enqueues, before.enqueues, after.enqueues);
        if let Some(row) = t.promise(w, id) {
            if late(row, t.now) && short.contains(id) {
                sent_stays(before, after, row, by_deadline(row.record));
                assert(before.promise(w, id)->0.record.state != PromiseState::Pending);
            }
        }
    }
}

/// Whether a task went on from `task` to `found` while promises it awaits were
/// settled: a worker that holds it holds it still, at its version, and a fulfilled
/// one is as it was.
pub open spec fn goes_on(task: StoredTaskView, found: StoredTaskView) -> bool {
    &&& found.id == task.id
    &&& found.version == task.version
    &&& found.target == task.target
    &&& found.state == TaskState::Acquired <==> task.state == TaskState::Acquired
    &&& task.state == TaskState::Acquired ==> found == (StoredTaskView {
        resumes: found.resumes,
        ..task
    })
    &&& task.state == TaskState::Fulfilled ==> found == task
}

/// Callbacks let a task go on.
proof fn callbacks_let_go_on(
    w: World,
    t: TxnView,
    callbacks: Seq<Text>,
    settled: Text,
    id: Text,
)
    requires
        tasks_keyed(w, t),
    ensures
        ({
            let after = all_called_back(w, t, callbacks, settled);
            &&& after.turn == t.turn
            &&& match t.task(w, id) {
                Some(task) => after.task(w, id) matches Some(found) && goes_on(task, found),
                None => after.task(w, id) is None,
            }
        }),
    decreases callbacks.len(),
{
    if callbacks.len() > 0 {
        let short = callbacks.drop_last();
        let before = all_called_back(w, t, short, settled);
        callbacks_let_go_on(w, t, short, settled, id);
        callbacks_keep_keys(w, t, short, settled);
        assert(before.task(w, callbacks.last()) matches Some(task) ==> task.id
            == callbacks.last());
    }
}

/// Deadlines that a request applies fulfil the task of a promise that is past its
/// own, and let any other task go on.
pub proof fn deadlines_let_go_on(w: World, t: TxnView, ids: Seq<Text>, id: Text)
    requires
        tasks_keyed(w, t),
        forall|x: Text| (#[trigger] t.promise(w, x)) matches Some(row) ==> row.record.id == x,
    ensures
        ({
            let after = all_timed_out(w, t, ids);
            &&& tasks_keyed(w, after)
            &&& after.turn == t.turn
            &&& match t.task(w, id) {
                Some(task) => after.task(w, id) matches Some(found) && found.version
                    == task.version && (if ids.contains(id) && (t.promise(w, id) matches Some(row)
                    && late(row, t.now)) {
                    found.state == TaskState::Fulfilled
                } else {
                    goes_on(task, found)
                }),
                None => after.task(w, id) is None,
            }
        }),
    decreases ids.len(),
{
    if ids.len() > 0 {
        let short = ids.drop_last();
        let last = ids.last();
        let before = all_timed_out(w, t, short);
        let after = all_timed_out(w, t, ids);
        deadlines_let_go_on(w, t, short, id);
        deadlines_let_go_on(w, t, short, last);
        deadlines_settle_what_is_late(w, t, short, last);
        deadlines_settle_what_is_late(w, t, short, id);
        assert(ids[ids.len() - 1] == last);
        assert(ids.contains(id) <==> short.contains(id) || id == last) by {
            if short.contains(id) {
                assert(ids[short.index_of(id)] == id);
            }
            if ids.contains(id) && id != last {
                assert(short[ids.index_of(id)] == id);
            }
        }
        let expires = before.promise(w, last) matches Some(row) && late(row, before.now);
        if !expires {
            assert forall|x: Text| #[trigger] after.task(w, x) == before.task(w, x) by {}
            assert(tasks_keyed(w, after)) by {
                assert forall|x: Text| (#[trigger] after.task(w, x)) matches Some(task) ==> task.id
                    == x by {
                    assert(before.task(w, x) matches Some(task) ==> task.id == x);
                }
            }
        }
        if let Some(row) = before.promise(w, last) {
            if late(row, before.now) {
                let read = before.read_promise(last);
                let settled = StoredPromiseView {
                    record: by_deadline(row.record),
                    callbacks: row.callbacks,
                    listeners: row.listeners,
                };
                assert(after == settled_chain(w, read, settled));
                let start = task_ended(w, read, last).put_promise(cleared(settled));
                let mid = all_called_back(w, start, row.callbacks, last);
                assert(before.task(w, last) matches Some(task) ==> task.id == last);
                assert(tasks_keyed(w, start)) by {
                    assert forall|x: Text| (#[trigger] start.task(w, x)) matches Some(task)
                        ==> task.id == x by {
                        assert(before.task(w, x) matches Some(task) ==> task.id == x);
                    }
                }
                callbacks_let_go_on(w, start, row.callbacks, last, id);
                callbacks_keep_keys(w, start, row.callbacks, last);
                listeners_are_sent(mid, row.listeners, settled.record);
                assert forall|x: Text| #[trigger] after.task(w, x) == mid.task(w, x) by {}
                assert(tasks_keyed(w, after)) by {
                    assert forall|x: Text| (#[trigger] after.task(w, x)) matches Some(task)
                        ==> task.id == x by {
                        assert(mid.task(w, x) matches Some(task) ==> task.id == x);
                    }
                }
            }
        }
    }
}

} // verus!
