//! What the operations on tasks do, told by the stored records and the fields of
//! the request.

use vstd::prelude::*;
use crate::agreement::agree;
use crate::calls::{at, CallView, Lease, World};
use crate::consequences::{
    a_deadline_is_applied_first, a_settlement_has_its_consequences, by_client, by_deadline,
    deadlines_settle_what_is_late, late, orderly, sent_stays, settles_if_late, settles_to,
    settles_to_stays, untouched, writes_task,
};
use crate::creation::{created, created_row, ModeView};
use crate::data::{
    CreateView, IdData, TaskAcquireData, TaskCreateData, TaskFulfillData, TaskHeartbeatData,
    TaskVersionData, TaskVersionView,
};
use crate::envelope::{viewed, ReplyDataView, ReplyView};
use crate::history::in_agreement;
use crate::index::{entry_written, has_entry, in_branch};
use crate::kernel::{performed, OperationData};
use crate::keys::{branch_prefix_of, KeyView};
use crate::outcome::OutcomeView;
use crate::preload::stored_in;
use crate::promise_laws::{
    a_creation_has_its_effects, a_promise_is_refused_for_a_fault, acceptable, creates,
    creation_jobs, creation_writes, fails_with, names_a_fault, new_promise, only_task,
};
use crate::promises::due;
use crate::records::{
    PromiseState, PromiseView, StoredPromiseView, StoredTaskView, TaskState, TaskView, Text,
};
use crate::search_laws::{observed_record, wire};
use crate::settlement::{
    all_called_back, all_unblocked_keeps, cleared, settled_chain, settled_chain_grows,
    settled_chain_keeps, task_ended,
};
use crate::sibling_laws::{
    is_preload, sending_siblings_changes_nothing, sibling_settled, siblings_are_left_as_sent,
    siblings_are_the_first_of_the_branch, siblings_put_off_later, siblings_settled,
};
use crate::tasks::{
    all_beaten, claiming, job_claimed, new_task_viewed, pending_taken, task_taking, task_viewed,
    task_viewed_grows,
};
use crate::text::text_lt;
use crate::time::millis;
use crate::txn::{
    after_preload, after_preload_grows, after_scan, after_scan_keeps, preloaded, read_all_keeps,
    siblings, siblings_timed_out, AfterView, EnqueueView, PayloadView, RowView, TxnView, SCAN_PAGE,
};

verus! {

/// The reply to a request that names a version at which the task is not held.
pub open spec fn version_conflict() -> OutcomeView {
    fails_with(409, "Task version mismatch or invalid state"@)
}

/// A reply without data, once the request is committed.
pub open spec fn replies_empty() -> OutcomeView {
    OutcomeView::Commit(ReplyView::Data(200, ReplyDataView::Empty))
}

/// The lease of a `ttl` of milliseconds, where a negative one counts as none.
pub open spec fn lasting(ttl: i64) -> std::time::Duration {
    millis(
        if ttl < 0 {
            0
        } else {
            ttl as u64
        },
    )
}

/// Whether the look of `turn` at a claim finds it held, with a lease that ends
/// after `now`.
pub open spec fn held_at(w: World, turn: u64, now: i64) -> bool {
    (w.leases)(turn) matches Lease::Held(Some(expiry)) && now < expiry && now < i64::MAX
}

/// Whether a request drops the claim of the task `id` that the look of `turn` found
/// held where its lease had ended.
pub open spec fn drops_ended(w: World, t: TxnView, now: i64, id: Text, turn: u64) -> bool {
    (w.leases)(turn) is Held && !held_at(w, turn, now) ==> t.asked.contains(
        CallView::Drop(id, turn.wrapping_add(1)),
    )
}

/// Whether a request drops the claim of the task `id` where the renewal of `turn`
/// failed.
pub open spec fn drops_unrenewed(w: World, t: TxnView, id: Text, turn: u64) -> bool {
    !(w.renewals)(turn) ==> t.asked.contains(CallView::Drop(id, turn.wrapping_add(1)))
}

/// Whether a request writes one record, of the task of `id`, enqueues nothing and
/// puts off `after`.
pub open spec fn only_task_then(
    t: TxnView,
    id: Text,
    task: StoredTaskView,
    after: Seq<AfterView>,
) -> bool {
    &&& t.writes == map![KeyView::Task(id) => Some(RowView::Task(task))]
    &&& t.enqueues == Seq::<EnqueueView>::empty()
    &&& t.after == after
}

/// `task` in `state`, with no worker that holds it and everything else as it was.
pub open spec fn unheld(task: StoredTaskView, state: TaskState) -> StoredTaskView {
    StoredTaskView {
        id: task.id,
        state,
        version: task.version,
        target: task.target,
        job: task.job,
        pid: None,
        ttl: None,
        resumes: task.resumes,
    }
}

/// Whether a request that names the task of `id` settles its promise by its
/// deadline, where it is past it.
pub open spec fn expires_first(w: World, t: TxnView, now: i64, id: Text) -> bool {
    at(w.promises, id) matches Some(row) && late(row, now) && settles_to(
        w,
        t,
        now,
        row,
        by_deadline(row.record),
    )
}

/// Whether a request does nothing but settle the promise of `id` by its deadline,
/// where it is past it.
pub open spec fn only_expires(w: World, t: TxnView, now: i64, id: Text) -> bool {
    if is_late(w, id, now) {
        expires_first(w, t, now, id)
    } else {
        untouched(t)
    }
}

/// Whether the stored promise of `id` is past its deadline.
pub open spec fn is_late(w: World, id: Text, now: i64) -> bool {
    at(w.promises, id) matches Some(row) && late(row, now)
}

/// The deadline of the promise of a task comes first: a task whose promise is past
/// it is fulfilled for the request, and any other is as it is stored.
pub proof fn a_task_after_its_deadline(w: World, t: TxnView, id: Text)
    requires
        orderly(w),
        untouched(t),
    ensures
        ({
            let read = due(w, t, id).read_task(id);
            &&& is_late(w, id, t.now) ==> expires_first(w, read, t.now, id) && (at(
                w.tasks,
                id,
            ) matches Some(task) ==> (read.task(w, id) matches Some(found) && found.state
                == TaskState::Fulfilled)) && (at(w.tasks, id) is None ==> read.task(w, id) is None)
            &&& !is_late(w, id, t.now) ==> read == t.ask(CallView::Promise(id)).ask(
                CallView::Task(id),
            ) && read.task(w, id) == at(w.tasks, id) && read.promise(w, id) == at(w.promises, id)
            &&& read.task(w, id) == due(w, t, id).task(w, id)
        }),
{
    a_deadline_is_applied_first(w, t, id);
    let timed = due(w, t, id);
    let read = timed.read_task(id);
    if let Some(row) = at(w.promises, id) {
        if late(row, t.now) {
            settles_to_stays(w, timed, read, t.now, row, by_deadline(row.record));
        }
    }
}

/// A request for a task gives its wire form, once the deadline of its promise is
/// applied.
pub proof fn getting_a_task(w: World, preload_limit: usize, now: i64, corr_id: Text, data: IdData)
    requires
        orderly(w),
    ensures
        ({
            let end = performed(
                w,
                TxnView::start(preload_limit, now),
                corr_id,
                OperationData::TaskGet(data),
            );
            &&& match at(w.tasks, data.id@) {
                None => end.1 == fails_with(404, "Task not found"@),
                Some(task) => end.1 == OutcomeView::Commit(
                    ReplyView::Data(
                        200,
                        ReplyDataView::Task(
                            if is_late(w, data.id@, now) && task.state != TaskState::Fulfilled {
                                TaskView {
                                    id: data.id@,
                                    state: TaskState::Fulfilled,
                                    version: task.version,
                                    resumes: 0,
                                    ttl: None,
                                    pid: None,
                                }
                            } else {
                                wire(task)
                            },
                        ),
                    ),
                ),
            }
            &&& if is_late(w, data.id@, now) {
                expires_first(w, end.0, now, data.id@)
            } else {
                untouched(end.0)
            }
        }),
{
    let t = TxnView::start(preload_limit, now);
    a_task_after_its_deadline(w, t, data.id@);
}

/// A request to release a task that is acquired at its version returns it to
/// pending, with its version as it was, and fails its claim so that it is
/// delivered again. Any other is answered with a conflict, and changes nothing.
pub proof fn releasing_a_task(
    w: World,
    preload_limit: usize,
    now: i64,
    corr_id: Text,
    data: TaskVersionData,
)
    requires
        orderly(w),
    ensures
        ({
            let end = performed(
                w,
                TxnView::start(preload_limit, now),
                corr_id,
                OperationData::TaskRelease(data),
            );
            let id = data.id@;
            match at(w.tasks, id) {
                None => end.1 == fails_with(404, "Task not found"@) && only_expires(
                    w,
                    end.0,
                    now,
                    id,
                ),
                Some(task) => if is_late(w, id, now) {
                    end.1 == version_conflict() && expires_first(w, end.0, now, id)
                } else if task.state == TaskState::Acquired && task.version == data.version {
                    end.1 == replies_empty() && only_task_then(
                        end.0,
                        id,
                        unheld(task, TaskState::Pending),
                        seq![AfterView::Nack(id)],
                    )
                } else {
                    end.1 == version_conflict() && untouched(end.0)
                },
            }
        }),
{
    let t = TxnView::start(preload_limit, now);
    let id = data.id@;
    let end = performed(w, t, corr_id, OperationData::TaskRelease(data));
    a_task_after_its_deadline(w, t, id);
    if let Some(task) = at(w.tasks, id) {
        if !is_late(w, id, now) && task.state == TaskState::Acquired && task.version
            == data.version {
            assert(end.0.writes =~= map![KeyView::Task(id) => Some(
                RowView::Task(unheld(task, TaskState::Pending)),
            )]);
            assert(end.0.after =~= seq![AfterView::Nack(id)]);
        }
    }
}

/// A request to halt a task that is not fulfilled stops it, and releases its
/// claim; a halted one stays so.
pub proof fn halting_a_task(w: World, preload_limit: usize, now: i64, corr_id: Text, data: IdData)
    requires
        orderly(w),
    ensures
        ({
            let end = performed(
                w,
                TxnView::start(preload_limit, now),
                corr_id,
                OperationData::TaskHalt(data),
            );
            let id = data.id@;
            match at(w.tasks, id) {
                None => end.1 == fails_with(404, "Task not found"@) && only_expires(
                    w,
                    end.0,
                    now,
                    id,
                ),
                Some(task) => if is_late(w, id, now) {
                    end.1 == fails_with(409, "Task is fulfilled"@) && expires_first(
                        w,
                        end.0,
                        now,
                        id,
                    )
                } else if task.state == TaskState::Fulfilled {
                    end.1 == fails_with(409, "Task is fulfilled"@) && untouched(end.0)
                } else if task.state == TaskState::Halted {
                    end.1 == replies_empty() && untouched(end.0)
                } else {
                    end.1 == replies_empty() && only_task_then(
                        end.0,
                        id,
                        unheld(task, TaskState::Halted),
                        seq![AfterView::Release(id)],
                    )
                },
            }
        }),
{
    let t = TxnView::start(preload_limit, now);
    let id = data.id@;
    let end = performed(w, t, corr_id, OperationData::TaskHalt(data));
    a_task_after_its_deadline(w, t, id);
    if let Some(task) = at(w.tasks, id) {
        if !is_late(w, id, now) && task.state != TaskState::Fulfilled && task.state
            != TaskState::Halted {
            assert(end.0.writes =~= map![KeyView::Task(id) => Some(
                RowView::Task(unheld(task, TaskState::Halted)),
            )]);
            assert(end.0.after =~= seq![AfterView::Release(id)]);
        }
    }
}

/// A request to continue a halted task makes it pending again: under its job,
/// where the queue still has it, and otherwise under a new one on its target's
/// queue.
pub proof fn continuing_a_task(
    w: World,
    preload_limit: usize,
    now: i64,
    corr_id: Text,
    data: IdData,
)
    requires
        orderly(w),
    ensures
        ({
            let end = performed(
                w,
                TxnView::start(preload_limit, now),
                corr_id,
                OperationData::TaskContinue(data),
            );
            let id = data.id@;
            match at(w.tasks, id) {
                None => end.1 == fails_with(404, "Task not found"@) && only_expires(
                    w,
                    end.0,
                    now,
                    id,
                ),
                Some(task) => if is_late(w, id, now) {
                    end.1 == fails_with(409, "Task is not halted"@) && expires_first(
                        w,
                        end.0,
                        now,
                        id,
                    )
                } else if task.state != TaskState::Halted {
                    end.1 == fails_with(409, "Task is not halted"@) && untouched(end.0)
                } else if task.job is Some && w.jobs.contains(task.job->0) {
                    end.1 == replies_empty() && only_task(
                        end.0,
                        id,
                        unheld(task, TaskState::Pending),
                        Seq::empty(),
                    )
                } else {
                    end.1 == replies_empty() && only_task(
                        end.0,
                        id,
                        StoredTaskView {
                            job: Some((w.job_ids)(0)),
                            ..unheld(task, TaskState::Pending)
                        },
                        seq![
                            EnqueueView {
                                queue: task.target,
                                payload: PayloadView::Execute(id),
                                job: Some((w.job_ids)(0)),
                                run_at: None,
                            },
                        ],
                    )
                },
            }
        }),
{
    let t = TxnView::start(preload_limit, now);
    let id = data.id@;
    let end = performed(w, t, corr_id, OperationData::TaskContinue(data));
    a_task_after_its_deadline(w, t, id);
    if let Some(task) = at(w.tasks, id) {
        if !is_late(w, id, now) && task.state == TaskState::Halted {
            if task.job is Some && w.jobs.contains(task.job->0) {
                assert(end.0.writes =~= map![KeyView::Task(id) => Some(
                    RowView::Task(unheld(task, TaskState::Pending)),
                )]);
            } else {
                assert(end.0.writes =~= map![KeyView::Task(id) => Some(
                    RowView::Task(
                        StoredTaskView {
                            job: Some((w.job_ids)(0)),
                            ..unheld(task, TaskState::Pending)
                        },
                    ),
                )]);
                assert(end.0.enqueues =~= seq![
                    EnqueueView {
                        queue: task.target,
                        payload: PayloadView::Execute(id),
                        job: Some((w.job_ids)(0)),
                        run_at: None,
                    },
                ]);
            }
        }
    }
}

/// Whether the worker `pid` holds the stored task of an entry: it is acquired at
/// the entry's version by this worker, with a lease.
pub open spec fn holds_entry(w: World, pid: Text, entry: TaskVersionView) -> bool {
    at(w.tasks, entry.id) matches Some(task) && task.state == TaskState::Acquired && task.version
        == entry.version && task.pid == Some(pid) && task.ttl is Some
}

/// Whether a request at `now` looks at the claim of an entry's task and, where it
/// finds it held with a live lease, renews it for the `ttl` of the task. A claim
/// whose lease has ended, or that is not renewed, is dropped.
pub open spec fn renews_entry(w: World, t: TxnView, now: i64, entry: TaskVersionView) -> bool {
    exists|turn: u64| #[trigger]
        t.asked.contains(CallView::Lease(entry.id, turn)) && renews_at(w, t, now, entry.id, turn)
}

/// Whether a request at `now` renews the claim of the task `id` after the look of
/// `turn`, where it found it held with a live lease, or drops it.
pub open spec fn renews_at(w: World, t: TxnView, now: i64, id: Text, turn: u64) -> bool {
    &&& held_at(w, turn, now) ==> t.asked.contains(
        CallView::Renew(id, lasting(at(w.tasks, id)->0.ttl->0), turn.wrapping_add(1)),
    ) && drops_unrenewed(w, t, id, turn.wrapping_add(1))
    &&& drops_ended(w, t, now, id, turn)
}

/// Whether a call of a heartbeat is one that it makes for `entry`: a look at its
/// claim, its renewal for the `ttl` of the task where the look before it found a
/// live lease, or the drop of a claim whose lease ended or was not renewed.
pub open spec fn call_for_entry(
    w: World,
    now: i64,
    pid: Text,
    entry: TaskVersionView,
    call: CallView,
) -> bool {
    holds_entry(w, pid, entry) && match call {
        CallView::Lease(id, _) => id == entry.id,
        CallView::Renew(id, lease, turn) => id == entry.id && lease == lasting(
            at(w.tasks, entry.id)->0.ttl->0,
        ) && exists|look: u64| #[trigger] look.wrapping_add(1) == turn && held_at(w, look, now),
        CallView::Drop(id, turn) => id == entry.id && exists|look: u64| #[trigger]
            look.wrapping_add(1) == turn && (((w.leases)(look) is Held && !held_at(w, look, now))
            || !(w.renewals)(look)),
        _ => false,
    }
}

/// Whether a call is one that a heartbeat makes for one of its entries: it reads
/// its task, or works with its claim.
pub open spec fn call_for_some_entry(
    w: World,
    now: i64,
    pid: Text,
    entries: Seq<TaskVersionView>,
    call: CallView,
) -> bool {
    exists|i: int|
        0 <= i < entries.len() && (call == CallView::Task((#[trigger] entries[i]).id)
            || call_for_entry(w, now, pid, entries[i], call))
}

/// What heartbeats ask for.
proof fn heartbeats_renew(w: World, t: TxnView, pid: Text, entries: Seq<TaskVersionView>)
    requires
        orderly(w),
        t.writes == Map::<KeyView, Option<RowView>>::empty(),
    ensures
        ({
            let after = all_beaten(w, t, pid, entries);
            &&& after == (TxnView { turn: after.turn, asked: after.asked, ..t })
            &&& t.asked.subset_of(after.asked)
            &&& forall|i: int|
                0 <= i < entries.len() && holds_entry(w, pid, #[trigger] entries[i])
                    ==> renews_entry(w, after, t.now, entries[i])
            &&& forall|call: CallView| #[trigger]
                after.asked.contains(call) ==> t.asked.contains(call) || call_for_some_entry(
                    w,
                    t.now,
                    pid,
                    entries,
                    call,
                )
        }),
    decreases entries.len(),
{
    let after = all_beaten(w, t, pid, entries);
    if entries.len() > 0 {
        let short = entries.drop_last();
        let last = entries.last();
        let before = all_beaten(w, t, pid, short);
        heartbeats_renew(w, t, pid, short);
        assert(entries[entries.len() - 1] == last);
        assert(before.task(w, last.id) == at(w.tasks, last.id));
        let look = before.turn;
        if holds_entry(w, pid, last) {
            assert(before.holds(w) == held_at(w, look, t.now));
            assert(after.asked.contains(CallView::Lease(last.id, look)));
            assert(renews_at(w, after, t.now, last.id, look));
            assert(renews_entry(w, after, t.now, last));
        }
        assert(before.asked.subset_of(after.asked));
        assert forall|i: int|
            0 <= i < entries.len() && holds_entry(w, pid, #[trigger] entries[i]) implies renews_entry(
            w,
            after,
            t.now,
            entries[i],
        ) by {
            if i < short.len() {
                assert(short[i] == entries[i]);
                assert(renews_entry(w, before, t.now, short[i]));
                let turn = choose|turn: u64| #[trigger]
                    before.asked.contains(CallView::Lease(entries[i].id, turn)) && renews_at(
                        w,
                        before,
                        t.now,
                        entries[i].id,
                        turn,
                    );
                assert(renews_at(w, after, t.now, entries[i].id, turn));
                assert(after.asked.contains(CallView::Lease(entries[i].id, turn)));
            }
        }
        assert forall|call: CallView| #[trigger] after.asked.contains(call) implies t.asked.contains(
            call,
        ) || call_for_some_entry(w, t.now, pid, entries, call) by {
            if before.asked.contains(call) {
                if call_for_some_entry(w, t.now, pid, short, call) {
                    let i = choose|i: int|
                        0 <= i < short.len() && (call == CallView::Task((#[trigger] short[i]).id)
                            || call_for_entry(w, t.now, pid, short[i], call));
                    assert(entries[i] == short[i]);
                }
            } else if call != CallView::Task(last.id) {
                assert(holds_entry(w, pid, last));
                let next = look.wrapping_add(1);
                assert(call == CallView::Lease(last.id, look) || call == CallView::Renew(
                    last.id,
                    lasting(at(w.tasks, last.id)->0.ttl->0),
                    next,
                ) || call == CallView::Drop(last.id, next) || call == CallView::Drop(
                    last.id,
                    next.wrapping_add(1),
                ));
                assert(call_for_entry(w, t.now, pid, last, call));
            }
        }
    }
}

/// A heartbeat looks at the claim of every task that its worker holds, and renews
/// each that has a live lease for the `ttl` of its task. It works with no other
/// claim, and changes nothing.
pub proof fn beating_for_tasks(
    w: World,
    preload_limit: usize,
    now: i64,
    corr_id: Text,
    data: TaskHeartbeatData,
)
    requires
        orderly(w),
    ensures
        ({
            let end = performed(
                w,
                TxnView::start(preload_limit, now),
                corr_id,
                OperationData::TaskHeartbeat(data),
            );
            &&& end.1 == replies_empty()
            &&& untouched(end.0)
            &&& forall|i: int|
                0 <= i < data.tasks@.len() && holds_entry(w, data.pid@, (#[trigger] data.tasks@[i])@)
                    ==> renews_entry(w, end.0, now, data.tasks@[i]@)
            &&& forall|call: CallView| #[trigger]
                end.0.asked.contains(call) ==> call_for_some_entry(
                    w,
                    now,
                    data.pid@,
                    Seq::new(data.tasks@.len(), |i: int| data.tasks@[i]@),
                    call,
                )
        }),
{
    let t = TxnView::start(preload_limit, now);
    let entries = Seq::new(data.tasks@.len(), |i: int| data.tasks@[i]@);
    assert(entries =~= viewed(data.tasks@));
    heartbeats_renew(w, t, data.pid@, entries);
    assert forall|i: int| 0 <= i < data.tasks@.len() && holds_entry(
        w,
        data.pid@,
        (#[trigger] data.tasks@[i])@,
    ) implies renews_entry(
        w,
        all_beaten(w, t, data.pid@, entries),
        now,
        data.tasks@[i]@,
    ) by {
        assert(entries[i] == data.tasks@[i]@);
    }
}

/// Callbacks work with no claim.
proof fn callbacks_keep_the_turn(w: World, t: TxnView, callbacks: Seq<Text>, settled: Text)
    ensures
        all_called_back(w, t, callbacks, settled).turn == t.turn,
    decreases callbacks.len(),
{
    if callbacks.len() > 0 {
        callbacks_keep_the_turn(w, t, callbacks.drop_last(), settled);
    }
}

/// A settlement works with no claim.
pub proof fn settlements_keep_the_turn(w: World, t: TxnView, row: StoredPromiseView)
    ensures
        settled_chain(w, t, row).turn == t.turn,
        settled_chain(w, t, row).now == t.now,
{
    let start = task_ended(w, t, row.record.id).put_promise(cleared(row));
    callbacks_keep_the_turn(w, start, row.callbacks, row.record.id);
    all_unblocked_keeps(
        all_called_back(w, start, row.callbacks, row.record.id),
        row.listeners,
        row.record,
    );
    settled_chain_keeps(w, t, row);
}

/// Whether a stored task has its promise, which is pending unless the task is
/// fulfilled.
pub open spec fn paired(w: World, id: Text) -> bool {
    match at(w.tasks, id) {
        Some(task) => at(w.promises, id) matches Some(row) && (task.state == TaskState::Fulfilled
            || row.record.state == PromiseState::Pending),
        None => true,
    }
}

/// Stored records that agree with each other are in order, as long as the queue can
/// count the callbacks of a promise, and every task has its promise.
pub proof fn records_in_agreement_are_in_order(w: World, id: Text)
    requires
        in_agreement(w),
        forall|x: Text|
            (#[trigger] at(w.promises, x)) matches Some(row) ==> row.callbacks.len() <= u64::MAX,
    ensures
        orderly(w),
        paired(w, id),
{
    assert forall|x: Text| (#[trigger] at(w.promises, x)) matches Some(row) ==> row.record.id
        == x && row.callbacks.no_duplicates() by {
        assert(agree(x, at(w.promises, x), at(w.tasks, x)));
    }
    assert forall|x: Text| (#[trigger] at(w.tasks, x)) matches Some(task) ==> task.id == x by {
        assert(agree(x, at(w.promises, x), at(w.tasks, x)));
    }
    assert(agree(id, at(w.promises, id), at(w.tasks, id)));
}

/// A request to fulfil a task that is acquired at its version, while its claim is
/// held, gives its promise the state and the value of the action, at the time of
/// the request, with all that the settlement brings about; it is committed as the
/// claim is acknowledged. Where the claim is not held, or the task not acquired at
/// this version, it is answered with a conflict and settles nothing.
pub proof fn fulfilling_a_task(
    w: World,
    preload_limit: usize,
    now: i64,
    corr_id: Text,
    data: TaskFulfillData,
)
    requires
        orderly(w),
        paired(w, data.id@),
    ensures
        ({
            let end = performed(
                w,
                TxnView::start(preload_limit, now),
                corr_id,
                OperationData::TaskFulfill(data),
            );
            let id = data.id@;
            if data.action.kind@ != "promise.settle"@ {
                end.1 == OutcomeView::Reply(ReplyView::Error(400, "Invalid action kind"@))
                    && untouched(end.0)
            } else if data.action.data.id@ != id {
                end.1 == OutcomeView::Reply(
                    ReplyView::Error(400, "Action must settle the task's promise"@),
                ) && untouched(end.0)
            } else {
                match at(w.tasks, id) {
                    None => end.1 == fails_with(404, "Task not found"@) && only_expires(
                    w,
                    end.0,
                    now,
                    id,
                ),
                    Some(task) => if is_late(w, id, now) {
                        end.1 == version_conflict() && expires_first(w, end.0, now, id)
                    } else if task.state != TaskState::Acquired || task.version != data.version {
                        end.1 == version_conflict() && untouched(end.0)
                    } else if !held_at(w, 0, now) {
                        end.1 == version_conflict() && untouched(end.0) && drops_ended(
                            w,
                            end.0,
                            now,
                            id,
                            0,
                        )
                    } else if !held_at(w, 1, now) {
                        end.1 == OutcomeView::Reply(
                            ReplyView::Error(409, "Task version mismatch or invalid state"@),
                        )
                    } else {
                        let row = at(w.promises, id)->0;
                        let settled = by_client(
                            row.record,
                            data.action.data.state,
                            data.action.data.value@,
                            now,
                        );
                        &&& end.1 == OutcomeView::Settle(
                            ReplyView::Data(200, ReplyDataView::Promise(settled)),
                            id,
                        )
                        &&& settles_to(w, end.0, now, row, settled)
                        &&& end.0.asked.contains(CallView::Lease(id, 0))
                        &&& end.0.asked.contains(CallView::Lease(id, 1))
                    },
                }
            }
        }),
{
    let t = TxnView::start(preload_limit, now);
    let id = data.id@;
    let end = performed(w, t, corr_id, OperationData::TaskFulfill(data));
    let read = due(w, t, id).read_task(id);
    a_task_after_its_deadline(w, t, id);
    if let Some(task) = at(w.tasks, id) {
        if data.action.kind@ == "promise.settle"@ && data.action.data.id@ == id && !is_late(
            w,
            id,
            now,
        ) && task.state == TaskState::Acquired && task.version == data.version {
            let both = read.read_promise(id);
            let row = at(w.promises, id)->0;
            assert(both.holds(w) == held_at(w, 0, now));
            if held_at(w, 0, now) {
                let looked = both.after_holds(w, task.id);
                let settled = by_client(
                    row.record,
                    data.action.data.state,
                    data.action.data.value@,
                    now,
                );
                let stored = StoredPromiseView {
                    record: settled,
                    callbacks: row.callbacks,
                    listeners: row.listeners,
                };
                let after = settled_chain(w, looked, stored);
                a_settlement_has_its_consequences(w, looked, row, settled);
                settlements_keep_the_turn(w, looked, stored);
                assert(after.holds(w) == held_at(w, 1, now));
                settles_to_stays(w, after, end.0, now, row, settled);
                settled_chain_grows(w, looked, stored, CallView::Lease(id, 0));
            }
        }
    }
}

/// The task of an acquire, as the worker gets it: its version is one higher, it is
/// held by the worker for its `ttl`, and nothing is left to observe.
pub open spec fn acquired_by(task: StoredTaskView, pid: Text, ttl: i64) -> StoredTaskView {
    StoredTaskView {
        id: task.id,
        state: TaskState::Acquired,
        version: if task.version == i64::MAX {
            i64::MIN
        } else {
            (task.version + 1) as i64
        },
        target: task.target,
        job: task.job,
        pid: Some(pid),
        ttl: Some(ttl),
        resumes: Set::empty(),
    }
}

/// Whether no stored promise is past its deadline at `now`.
pub open spec fn nobody_late(w: World, now: i64) -> bool {
    forall|id: Text| (#[trigger] at(w.promises, id)) matches Some(row) ==> !late(row, now)
}

/// Whether the branch index names the stored promises of each branch.
pub open spec fn filed(w: World) -> bool {
    &&& forall|branch: Text, id: Text| #[trigger]
        w.index.contains((branch, id)) <==> (at(w.promises, id) matches Some(row)
            && row.record.tags.contains_key("resonate:branch"@)
            && row.record.tags["resonate:branch"@] == branch)
    &&& forall|branch: Text, id: Text| #[trigger]
        w.index.contains((branch, id)) ==> !branch.contains('\0')
    &&& w.promises.dom().finite()
    &&& w.promises.dom().len() <= usize::MAX - SCAN_PAGE
}

/// Whether `preload` is what a request sends with `promise`: nothing without a
/// branch, and otherwise the first promises of its branch.
pub open spec fn comes_with(
    w: World,
    preload_limit: usize,
    now: i64,
    promise: PromiseView,
    preload: Seq<PromiseView>,
) -> bool {
    &&& !promise.tags.contains_key("resonate:branch"@) ==> preload == Seq::<PromiseView>::empty()
    &&& promise.tags.contains_key("resonate:branch"@) && filed(w)
        && !promise.tags["resonate:branch"@].contains('\0') ==> is_preload(
        w,
        TxnView::start(preload_limit, now),
        preload,
        promise.tags["resonate:branch"@],
        promise.id,
        preload_limit,
    )
}

/// Whether a request sends `task` as work, with the record `promise` of its
/// promise and its first siblings: it stores the task and replies with its wire
/// form. Without a branch, or where no promise is past its deadline, nothing else
/// changes.
pub open spec fn sends_work(
    w: World,
    preload_limit: usize,
    now: i64,
    end: (TxnView, OutcomeView),
    task: StoredTaskView,
    promise: PromiseView,
) -> bool {
    &&& writes_task(end.0, task.id, task)
    &&& end.1 matches OutcomeView::Commit(
        ReplyView::Data(status, ReplyDataView::Work(sent, shown, preload)),
    ) && status == 200 && sent == wire(task) && shown == promise && comes_with(
        w,
        preload_limit,
        now,
        promise,
        preload,
    ) && siblings_settled(w, end.0, now, preload)
    &&& !promise.tags.contains_key("resonate:branch"@) || nobody_late(w, now) ==> only_task_then(
        end.0,
        task.id,
        task,
        Seq::empty(),
    )
}

/// What a request that has done nothing sends with a stored promise.
proof fn siblings_of_the_store(w: World, t: TxnView, promise: PromiseView)
    requires
        orderly(w),
        untouched(t),
    ensures
        comes_with(w, t.preload_limit, t.now, promise, preloaded(w, t, promise)),
{
    if promise.tags.contains_key("resonate:branch"@) && filed(w)
        && !promise.tags["resonate:branch"@].contains('\0') {
        let branch = promise.tags["resonate:branch"@];
        let start = TxnView::start(t.preload_limit, t.now);
        assert forall|id: Text| #[trigger] t.promise(w, id) == at(w.promises, id) by {}
        assert forall|id: Text| #[trigger] start.promise(w, id) == at(w.promises, id) by {}
        assert forall|other: Text, id: Text| (#[trigger] entry_written(t, other, id)) is None by {}
        assert forall|other: Text, id: Text| #[trigger] has_entry(w, t, other, id) <==> in_branch(
            t.promise(w, id),
            other,
        ) by {
            assert(w.index.contains((other, id)) <==> in_branch(at(w.promises, id), other));
        }
        let stored = stored_in(w, branch);
        let seen = Set::new(|id: Text| in_branch(t.promise(w, id), branch));
        assert forall|id: Text| #[trigger] stored.contains(id) implies w.promises.dom().contains(
            id,
        ) by {
            assert(w.index.contains((branch, id)));
        }
        vstd::set_lib::lemma_set_subset_finite(w.promises.dom(), stored);
        vstd::set_lib::lemma_len_subset(stored, w.promises.dom());
        assert(seen =~= stored) by {
            assert forall|id: Text| #[trigger] seen.contains(id) <==> stored.contains(id) by {
                assert(w.index.contains((branch, id)) <==> in_branch(at(w.promises, id), branch));
            }
        }
        assert(t.writes.dom() =~= Set::<KeyView>::empty());
        siblings_are_the_first_of_the_branch(w, t, promise);
        let preload = preloaded(w, t, promise);
        assert forall|id: Text| #[trigger] in_branch(start.promise(w, id), branch) && id
            != promise.id implies (exists|i: int|
            0 <= i < preload.len() && (#[trigger] preload[i]).id == id) || (preload.len()
            == t.preload_limit && (t.preload_limit > 0 ==> text_lt(preload.last().id, id))) by {
            assert(in_branch(t.promise(w, id), branch));
        }
    }
}

/// A request to acquire a pending task at its version, whose claim is held with a
/// live lease and renewed for the `ttl` of the request, gives the task to the
/// worker at the next version. Any other is refused, and changes nothing.
pub proof fn acquiring_a_task(
    w: World,
    preload_limit: usize,
    now: i64,
    corr_id: Text,
    data: TaskAcquireData,
)
    requires
        orderly(w),
        paired(w, data.id@),
    ensures
        ({
            let end = performed(
                w,
                TxnView::start(preload_limit, now),
                corr_id,
                OperationData::TaskAcquire(data),
            );
            let id = data.id@;
            match at(w.tasks, id) {
                None => end.1 == fails_with(404, "Task not found"@) && only_expires(
                    w,
                    end.0,
                    now,
                    id,
                ),
                Some(task) => if is_late(w, id, now) {
                    end.1 == fails_with(409, "Task is not pending"@) && expires_first(
                        w,
                        end.0,
                        now,
                        id,
                    )
                } else if task.state != TaskState::Pending {
                    end.1 == fails_with(409, "Task is not pending"@) && untouched(end.0)
                } else if task.version != data.version {
                    end.1 == fails_with(409, "Version mismatch"@) && untouched(end.0)
                } else {
                    &&& end.0.asked.contains(CallView::Lease(id, 0))
                    &&& drops_ended(w, end.0, now, id, 0)
                    &&& if !held_at(w, 0, now) {
                        end.1 == fails_with(409, "Task is not pending"@) && untouched(end.0)
                    } else {
                        &&& end.0.asked.contains(CallView::Renew(id, lasting(data.ttl), 1))
                        &&& drops_unrenewed(w, end.0, id, 1)
                        &&& if !(w.renewals)(1) {
                            end.1 == fails_with(409, "Task is not pending"@) && untouched(end.0)
                        } else {
                            sends_work(
                                w,
                                preload_limit,
                                now,
                                end,
                                acquired_by(task, data.pid@, data.ttl),
                                at(w.promises, id)->0.record,
                            )
                        }
                    }
                },
            }
        }),
{
    let t = TxnView::start(preload_limit, now);
    let id = data.id@;
    let end = performed(w, t, corr_id, OperationData::TaskAcquire(data));
    let read = due(w, t, id).read_task(id);
    a_task_after_its_deadline(w, t, id);
    if let Some(task) = at(w.tasks, id) {
        if !is_late(w, id, now) && task.state == TaskState::Pending && task.version
            == data.version {
            assert(read.holds(w) == held_at(w, 0, now));
            let tried = read.renew(w, id, lasting(data.ttl));
            assert(tried.asked.contains(CallView::Lease(id, 0)));
            if held_at(w, 0, now) {
                assert(read.after_holds(w, id).turn == 1);
                assert(tried.asked.contains(CallView::Renew(id, lasting(data.ttl), 1)));
                if (w.renewals)(1) {
                    let row = at(w.promises, id)->0;
                    let next = acquired_by(task, data.pid@, data.ttl);
                    assert(tried.promise(w, id) == Some(row));
                    work_is_sent(w, tried, next, row);
                }
            }
        }
    }
}

/// Siblings stay settled as a request goes on with its promises and its jobs as they
/// are.
pub proof fn settled_siblings_stay(
    w: World,
    a: TxnView,
    b: TxnView,
    now: i64,
    preload: Seq<PromiseView>,
)
    requires
        siblings_settled(w, a, now, preload),
        a.enqueues == b.enqueues,
        forall|x: Text| #[trigger] b.promise(w, x) == a.promise(w, x),
    ensures
        siblings_settled(w, b, now, preload),
{
    assert(a.enqueues =~= b.enqueues.subrange(0, a.enqueues.len() as int));
    assert forall|i: int| 0 <= i < preload.len() implies sibling_settled(
        w,
        b,
        now,
        #[trigger] preload[i],
    ) by {
        let id = preload[i].id;
        assert(sibling_settled(w, a, now, preload[i]));
        assert(b.promise(w, id) == a.promise(w, id));
        if let Some(row) = at(w.promises, id) {
            if late(row, now) {
                sent_stays(a, b, row, by_deadline(row.record));
            }
        }
    }
}

/// A task that is not fulfilled is sent as work.
proof fn work_is_sent(w: World, t: TxnView, task: StoredTaskView, row: StoredPromiseView)
    requires
        orderly(w),
        untouched(t),
        t.promise(w, task.id) == Some(row),
        task.state != TaskState::Fulfilled,
    ensures
        sends_work(w, t.preload_limit, t.now, task_viewed(w, t, task), task, row.record),
        t.asked.subset_of(task_viewed(w, t, task).0.asked),
{
    let end = task_viewed(w, t, task);
    let read = t.read_promise(task.id);
    assert forall|call: CallView| t.asked.contains(call) implies end.0.asked.contains(call) by {
        task_viewed_grows(w, t, task, call);
    }
    siblings_of_the_store(w, read, row.record);
    assert forall|x: Text| #[trigger] read.promise(w, x) == at(w.promises, x) by {}
    siblings_are_left_as_sent(w, read, row.record);
    settled_siblings_stay(
        w,
        after_preload(w, read, row.record),
        end.0,
        t.now,
        preloaded(w, read, row.record),
    );
    if !row.record.tags.contains_key("resonate:branch"@) || nobody_late(w, t.now) {
        if nobody_late(w, t.now) {
            assert forall|id: Text| (#[trigger] read.promise(w, id)) matches Some(row) ==> !late(
                row,
                read.now,
            ) by {
                assert(read.promise(w, id) == at(w.promises, id));
            }
            sending_siblings_changes_nothing(w, read, row.record);
        }
        assert(end.0.writes =~= map![KeyView::Task(task.id) => Some(RowView::Task(task))]);
    }
}

/// Whether a task can be created.
pub open spec fn task_acceptable(data: TaskCreateData) -> bool {
    &&& data.action.kind@ == "promise.create"@
    &&& data.pid@.len() > 0
    &&& data.ttl >= 1
    &&& acceptable(data.action.data@)
    &&& data.action.data@.tags.contains_key("resonate:target"@)
    &&& !data.action.data@.tags.contains_key("resonate:delay"@)
}

/// Whether `message` names the first rule that a task to create breaks.
pub open spec fn names_a_task_fault(data: TaskCreateData, message: Text) -> bool {
    let create = data.action.data@;
    if data.action.kind@ != "promise.create"@ {
        message == "Invalid action kind"@
    } else if data.pid@.len() == 0 {
        message == "Process ID is required"@
    } else if data.ttl < 1 {
        message == "TTL must be positive"@
    } else if !acceptable(create) {
        names_a_fault(create, message)
    } else if !create.tags.contains_key("resonate:target"@) {
        message == "resonate:target tag is required"@
    } else {
        message == "resonate:delay tag is not allowed"@ && create.tags.contains_key(
            "resonate:delay"@,
        )
    }
}

/// The task that a request creates with its promise: the worker's, at the first
/// version.
pub open spec fn first_held(w: World, data: CreateView, pid: Text, ttl: i64) -> StoredTaskView {
    StoredTaskView {
        id: data.id,
        state: TaskState::Acquired,
        version: 1,
        target: data.tags["resonate:target"@],
        job: Some((w.job_ids)(0)),
        pid: Some(pid),
        ttl: Some(ttl),
        resumes: Set::empty(),
    }
}

/// The time `ms` after `now`, as the queue counts: not before its epoch, and at
/// most the largest number.
pub open spec fn queue_time(now: i64, ms: i64) -> u64 {
    if now + ms < 0 {
        0
    } else if now + ms > i64::MAX {
        i64::MAX as u64
    } else {
        (now + ms) as u64
    }
}

/// Whether a request creates the promise of `data` before its deadline with its
/// task acquired by `pid`, and sends the task as work: the promise and the task are
/// stored; the task's job is enqueued to run once the lease has ended, after which
/// comes the timer of the deadline; and the job is claimed for the task once the
/// request is committed. Without a branch, or where no promise is past its
/// deadline, nothing else changes.
pub open spec fn creates_work(
    w: World,
    preload_limit: usize,
    now: i64,
    end: (TxnView, OutcomeView),
    data: CreateView,
    pid: Text,
    ttl: i64,
) -> bool {
    let promise = new_promise(data, now, now);
    let task = first_held(w, data, pid, ttl);
    let jobs = creation_jobs(promise, (w.job_ids)(0), Some(queue_time(now, ttl)));
    &&& end.0.promise(w, data.id) == Some(
        StoredPromiseView { record: promise, callbacks: Seq::empty(), listeners: Seq::empty() },
    )
    &&& writes_task(end.0, data.id, task)
    &&& end.0.asked.contains(CallView::JobId(0))
    &&& end.1 matches OutcomeView::Commit(
        ReplyView::Data(status, ReplyDataView::Work(sent, shown, preload)),
    ) && status == 200 && sent == wire(task) && shown == promise && comes_with(
        w,
        preload_limit,
        now,
        promise,
        preload,
    ) && siblings_settled(w, end.0, now, preload)
    &&& jobs.is_prefix_of(end.0.enqueues)
    &&& end.0.after.len() > 0 && end.0.after[0] == AfterView::Claim(
        data.id,
        (w.job_ids)(0),
        lasting(ttl),
    )
    &&& !data.tags.contains_key("resonate:branch"@) || nobody_late(w, now) ==> {
        &&& end.0.writes == creation_writes(promise, task)
        &&& end.0.enqueues == jobs
        &&& end.0.after == seq![AfterView::Claim(data.id, (w.job_ids)(0), lasting(ttl))]
    }
}

/// Whether the request ends with the task as it is, fulfilled, and nothing to run.
pub open spec fn gives_fulfilled(
    end: (TxnView, OutcomeView),
    task: TaskView,
    promise: PromiseView,
) -> bool {
    end.1 == OutcomeView::Commit(
        ReplyView::Data(200, ReplyDataView::Work(task, promise, Seq::empty())),
    )
}

/// What becomes of a request to create a task that is stored as pending, once its
/// promise's deadline is applied: its job is claimed, unless its claim is held, and
/// its lease renewed for the `ttl` of the request; where both succeed the task is
/// acquired as with an acquire.
pub open spec fn takes_pending(
    w: World,
    preload_limit: usize,
    now: i64,
    end: (TxnView, OutcomeView),
    task: StoredTaskView,
    promise: PromiseView,
    pid: Text,
    ttl: i64,
) -> bool {
    let dropped = (w.leases)(0) is Held && !held_at(w, 0, now);
    let claim: u64 = if dropped {
        2
    } else {
        1
    };
    let look: u64 = if held_at(w, 0, now) {
        1
    } else {
        (claim + 1) as u64
    };
    let next: u64 = (look + 1) as u64;
    let refused = end.1 == fails_with(409, "Already exists"@) && untouched(end.0);
    &&& end.0.asked.contains(CallView::Lease(task.id, 0))
    &&& drops_ended(w, end.0, now, task.id, 0)
    &&& if !held_at(w, 0, now) && task.job is None {
        refused
    } else {
        &&& !held_at(w, 0, now) ==> end.0.asked.contains(
            CallView::Claim(task.id, task.job->0, lasting(ttl), claim),
        )
        &&& if !held_at(w, 0, now) && !(w.claims)(claim) {
            refused
        } else if !held_at(w, look, now) {
            refused
        } else {
            &&& end.0.asked.contains(CallView::Renew(task.id, lasting(ttl), next))
            &&& drops_unrenewed(w, end.0, task.id, next)
            &&& if (w.renewals)(next) {
                sends_work(w, preload_limit, now, end, acquired_by(task, pid, ttl), promise)
            } else {
                refused
            }
        }
    }
}

/// A request to create a task creates its promise with the task acquired by the
/// worker, or acquires the task that exists and is pending; a fulfilled one is
/// given as it is, and any other is refused, as is a promise without a target.
pub proof fn creating_a_task(
    w: World,
    preload_limit: usize,
    now: i64,
    corr_id: Text,
    data: TaskCreateData,
)
    requires
        orderly(w),
        paired(w, data.action.data@.id),
    ensures
        ({
            let end = performed(
                w,
                TxnView::start(preload_limit, now),
                corr_id,
                OperationData::TaskCreate(data),
            );
            let create = data.action.data@;
            let id = create.id;
            if !task_acceptable(data) {
                &&& untouched(end.0)
                &&& end.1 matches OutcomeView::Reply(ReplyView::Error(status, message)) && status
                    == 400 && names_a_task_fault(data, message)
            } else {
                match (at(w.promises, id), at(w.tasks, id)) {
                    (None, _) => if create.timeout_at <= now {
                        gives_fulfilled(
                            end,
                            TaskView {
                                id,
                                state: TaskState::Fulfilled,
                                version: 0,
                                resumes: 0,
                                ttl: None,
                                pid: None,
                            },
                            new_promise(create, now, now),
                        ) && creates(w, end.0, create, now, now)
                    } else {
                        creates_work(w, preload_limit, now, end, create, data.pid@, data.ttl)
                    },
                    (Some(row), None) => end.1 == fails_with(
                        422,
                        "The promise does not have a resonate:target tag"@,
                    ) && (if late(row, now) {
                        settles_to(w, end.0, now, row, by_deadline(row.record))
                    } else {
                        untouched(end.0)
                    }),
                    (Some(row), Some(task)) => if late(row, now) {
                        &&& settles_to(w, end.0, now, row, by_deadline(row.record))
                        &&& task.state != TaskState::Fulfilled ==> gives_fulfilled(
                            end,
                            TaskView {
                                id,
                                state: TaskState::Fulfilled,
                                version: task.version,
                                resumes: 0,
                                ttl: None,
                                pid: None,
                            },
                            by_deadline(row.record),
                        )
                    } else {
                        match task.state {
                            TaskState::Pending => takes_pending(
                                w,
                                preload_limit,
                                now,
                                end,
                                task,
                                row.record,
                                data.pid@,
                                data.ttl,
                            ),
                            TaskState::Fulfilled => gives_fulfilled(end, wire(task), row.record)
                                && untouched(end.0),
                            _ => end.1 == fails_with(409, "Already exists"@) && untouched(end.0),
                        }
                    },
                }
            }
        }),
{
    let t = TxnView::start(preload_limit, now);
    let create = data.action.data@;
    let id = create.id;
    let end = performed(w, t, corr_id, OperationData::TaskCreate(data));
    let timed = due(w, t, id);
    let read = timed.read_task(id);
    a_promise_is_refused_for_a_fault(create);
    a_task_after_its_deadline(w, t, id);
    a_deadline_is_applied_first(w, t, id);
    if task_acceptable(data) {
        assert(end == task_taking(w, t, create, data.pid@, data.ttl));
        match (at(w.promises, id), at(w.tasks, id)) {
            (None, _) => {
                assert(at(w.tasks, id) is None);
                let both = read.read_promise(id);
                a_new_task_is_sent(w, both, create, data.pid@, data.ttl);
            },
            (Some(row), None) => {
                if late(row, now) {
                    settles_to_stays(w, timed, end.0, now, row, by_deadline(row.record));
                }
            },
            (Some(row), Some(task)) => {
                if late(row, now) {
                    settles_to_stays(w, timed, end.0, now, row, by_deadline(row.record));
                } else if task.state == TaskState::Pending {
                    a_pending_task_is_taken(w, read, task, row, data.pid@, data.ttl);
                }
            },
        }
    }
}

/// A pending task of a request that has done nothing is taken.
proof fn a_pending_task_is_taken(
    w: World,
    t: TxnView,
    task: StoredTaskView,
    row: StoredPromiseView,
    pid: Text,
    ttl: i64,
)
    requires
        orderly(w),
        untouched(t),
        t.turn == 0,
        at(w.promises, task.id) == Some(row),
    ensures
        takes_pending(
            w,
            t.preload_limit,
            t.now,
            pending_taken(w, t, task, pid, ttl),
            task,
            row.record,
            pid,
            ttl,
        ),
{
    let end = pending_taken(w, t, task, pid, ttl);
    let claimed = claiming(w, t, task, ttl);
    let tried = claimed.renew(w, task.id, lasting(ttl));
    assert(t.holds(w) == held_at(w, 0, t.now));
    assert(t.after_holds(w, task.id).asked.contains(CallView::Lease(task.id, 0)));
    assert(claimed.asked.contains(CallView::Lease(task.id, 0)));
    assert(tried.asked.contains(CallView::Lease(task.id, 0)));
    assert(untouched(claimed) && untouched(tried));
    if job_claimed(w, t, task) {
        assert(claimed.holds(w) == held_at(w, claimed.turn, t.now));
        if claimed.renews(w, task.id) {
            assert(tried.promise(w, task.id) == Some(row));
            work_is_sent(w, tried, acquired_by(task, pid, ttl), row);
        }
    }
}

/// A request that has done nothing creates a promise with its task acquired, and
/// sends it.
proof fn a_new_task_is_sent(w: World, t: TxnView, data: CreateView, pid: Text, ttl: i64)
    requires
        orderly(w),
        untouched(t),
        at(w.promises, data.id) is None,
        at(w.tasks, data.id) is None,
        data.tags.contains_key("resonate:target"@),
    ensures
        ({
            let end = new_task_viewed(
                w,
                created(w, t, data, None, ModeView::Acquire(pid, ttl)),
                data.id,
            );
            if data.timeout_at <= t.now {
                gives_fulfilled(
                    end,
                    TaskView {
                        id: data.id,
                        state: TaskState::Fulfilled,
                        version: 0,
                        resumes: 0,
                        ttl: None,
                        pid: None,
                    },
                    new_promise(data, t.now, t.now),
                ) && creates(w, end.0, data, t.now, t.now)
            } else {
                creates_work(w, t.preload_limit, t.now, end, data, pid, ttl)
            }
        }),
{
    let mode = ModeView::Acquire(pid, ttl);
    let made = created(w, t, data, None, mode);
    let end = new_task_viewed(w, made, data.id);
    let promise = new_promise(data, t.now, t.now);
    let row = StoredPromiseView {
        record: promise,
        callbacks: Seq::empty(),
        listeners: Seq::empty(),
    };
    if data.timeout_at <= t.now {
        a_creation_has_its_effects(w, t, data, None);
        assert(made == created(w, t, data, None, ModeView::Dispatch));
    } else {
        let task = first_held(w, data, pid, ttl);
        let jobs = creation_jobs(promise, (w.job_ids)(0), Some(queue_time(t.now, ttl)));
        let read = made.read_task(data.id).read_promise(data.id);
        let loaded = after_preload(w, read, promise);
        assert(created_row(data, None, t.now) == row);
        assert(made.writes =~= creation_writes(promise, task));
        assert(made.enqueues =~= jobs);
        assert(made.after =~= seq![AfterView::Claim(data.id, (w.job_ids)(0), lasting(ttl))]);
        assert(made.task(w, data.id) == Some(task));
        assert(made.promise(w, data.id) == Some(row));
        assert(read.writes == made.writes && read.enqueues == made.enqueues && read.after
            == made.after && read.now == t.now);
        assert(end.0 == loaded.put_task(task));
        assert forall|id: Text| id != data.id implies #[trigger] read.promise(w, id) == at(
            w.promises,
            id,
        ) by {}
        siblings_of_a_new_promise(w, read, promise, task);
        assert forall|x: Text|
            (#[trigger] read.promise(w, x)) matches Some(found) ==> found.record.id == x by {
            if x != data.id {
                assert(read.promise(w, x) == at(w.promises, x));
            }
        }
        assert forall|x: Text| #[trigger]
            read.promise(w, x) == at(w.promises, x) || settles_if_late(w, read, read.now, x) by {
            if x != data.id {
                assert(read.promise(w, x) == at(w.promises, x));
            }
        }
        siblings_are_left_as_sent(w, read, promise);
        settled_siblings_stay(w, loaded, end.0, t.now, preloaded(w, read, promise));
        assert(read.after[0] == AfterView::Claim(data.id, (w.job_ids)(0), lasting(ttl)));
        siblings_put_off_later(w, read, promise, 0);
        assert(made.asked.contains(CallView::JobId(0)));
        after_preload_grows(w, read, promise, CallView::JobId(0));
        preload_only_adds(w, read, promise, data.id);
        assert(end.0.promise(w, data.id) == loaded.promise(w, data.id));
        assert(jobs.is_prefix_of(end.0.enqueues));
        if !data.tags.contains_key("resonate:branch"@) || nobody_late(w, t.now) {
            if nobody_late(w, t.now) {
                assert forall|id: Text| (#[trigger] read.promise(w, id)) matches Some(found)
                    ==> !late(found, read.now) by {
                    if id != data.id {
                        assert(read.promise(w, id) == at(w.promises, id));
                    }
                }
                sending_siblings_changes_nothing(w, read, promise);
            }
            assert(end.0.writes =~= creation_writes(promise, task));
        }
    }
}

/// Sending siblings keeps everything enqueued.
pub proof fn preload_adds(w: World, t: TxnView, promise: PromiseView)
    requires
        forall|x: Text| (#[trigger] t.promise(w, x)) matches Some(row) ==> row.record.id == x,
    ensures
        t.enqueues.is_prefix_of(after_preload(w, t, promise).enqueues),
{
    assert(t.enqueues =~= t.enqueues.subrange(0, t.enqueues.len() as int));
    if promise.tags.contains_key("resonate:branch"@) {
        let branch = promise.tags["resonate:branch"@];
        let prefix = branch_prefix_of(branch);
        let scanned = after_scan(w, t, prefix, promise.id, t.preload_limit, SCAN_PAGE);
        let ids = siblings(w, t, promise, branch);
        after_scan_keeps(w, t, prefix, promise.id, t.preload_limit, SCAN_PAGE);
        assert forall|x: Text| (#[trigger] scanned.promise(w, x)) matches Some(row)
            ==> row.record.id == x by {
            assert(scanned.promise(w, x) == t.promise(w, x));
        }
        deadlines_settle_what_is_late(w, scanned, ids, promise.id);
        read_all_keeps(siblings_timed_out(w, t, promise), ids);
    }
}

/// Sending siblings keeps a promise within its deadline and everything enqueued.
pub proof fn preload_only_adds(w: World, t: TxnView, promise: PromiseView, id: Text)
    requires
        forall|x: Text| (#[trigger] t.promise(w, x)) matches Some(row) ==> row.record.id == x,
        t.promise(w, id) matches Some(row) && !late(row, t.now),
    ensures
        t.enqueues.is_prefix_of(after_preload(w, t, promise).enqueues),
        after_preload(w, t, promise).promise(w, id) == t.promise(w, id),
{
    assert(t.enqueues =~= t.enqueues.subrange(0, t.enqueues.len() as int));
    if promise.tags.contains_key("resonate:branch"@) {
        let branch = promise.tags["resonate:branch"@];
        let prefix = branch_prefix_of(branch);
        let scanned = after_scan(w, t, prefix, promise.id, t.preload_limit, SCAN_PAGE);
        let ids = siblings(w, t, promise, branch);
        after_scan_keeps(w, t, prefix, promise.id, t.preload_limit, SCAN_PAGE);
        assert forall|x: Text| (#[trigger] scanned.promise(w, x)) matches Some(row)
            ==> row.record.id == x by {
            assert(scanned.promise(w, x) == t.promise(w, x));
        }
        deadlines_settle_what_is_late(w, scanned, ids, id);
        read_all_keeps(siblings_timed_out(w, t, promise), ids);
    }
}

/// What a request that has created a promise sends with it.
proof fn siblings_of_a_new_promise(
    w: World,
    t: TxnView,
    promise: PromiseView,
    task: StoredTaskView,
)
    requires
        orderly(w),
        at(w.promises, promise.id) is None,
        t.writes == creation_writes(promise, task),
    ensures
        comes_with(w, t.preload_limit, t.now, promise, preloaded(w, t, promise)),
{
    if promise.tags.contains_key("resonate:branch"@) && filed(w)
        && !promise.tags["resonate:branch"@].contains('\0') {
        let branch = promise.tags["resonate:branch"@];
        let start = TxnView::start(t.preload_limit, t.now);
        assert forall|id: Text| id != promise.id implies #[trigger] t.promise(w, id) == at(
            w.promises,
            id,
        ) by {}
        assert forall|id: Text| #[trigger] start.promise(w, id) == at(w.promises, id) by {}
        assert forall|other: Text, id: Text| #[trigger] entry_written(t, other, id) == (if other
            == branch && id == promise.id {
            Some(Some(RowView::Index))
        } else {
            None
        }) by {}
        assert forall|other: Text, id: Text| #[trigger] has_entry(w, t, other, id) <==> in_branch(
            t.promise(w, id),
            other,
        ) by {
            assert(w.index.contains((other, id)) <==> in_branch(at(w.promises, id), other));
            assert(entry_written(t, other, id) == (if other == branch && id == promise.id {
                Some(Some(RowView::Index))
            } else {
                None
            }));
        }
        let stored = stored_in(w, branch);
        let seen = Set::new(|id: Text| in_branch(t.promise(w, id), branch));
        assert forall|id: Text| #[trigger] stored.contains(id) implies w.promises.dom().contains(
            id,
        ) by {
            assert(w.index.contains((branch, id)));
        }
        vstd::set_lib::lemma_set_subset_finite(w.promises.dom(), stored);
        vstd::set_lib::lemma_len_subset(stored, w.promises.dom());
        assert(seen =~= stored.insert(promise.id)) by {
            assert forall|id: Text| #[trigger] seen.contains(id) <==> stored.insert(
                promise.id,
            ).contains(id) by {
                assert(w.index.contains((branch, id)) <==> in_branch(at(w.promises, id), branch));
            }
        }
        let keys = set![
            KeyView::Promise(promise.id),
            KeyView::Task(promise.id),
            KeyView::Branch(branch, promise.id),
        ];
        assert forall|key: KeyView| #[trigger] t.writes.dom().contains(key) implies keys.contains(
            key,
        ) by {}
        vstd::set_lib::lemma_set_subset_finite(keys, t.writes.dom());
        siblings_are_the_first_of_the_branch(w, t, promise);
        let preload = preloaded(w, t, promise);
        assert forall|i: int| 0 <= i < preload.len() implies (#[trigger] preload[i]).id
            != promise.id && in_branch(start.promise(w, preload[i].id), branch) && preload[i]
            == observed_record(start.promise(w, preload[i].id)->0, start.now) by {
            assert(t.promise(w, preload[i].id) == at(w.promises, preload[i].id));
        }
        assert forall|id: Text| #[trigger] in_branch(start.promise(w, id), branch) && id
            != promise.id implies (exists|i: int|
            0 <= i < preload.len() && (#[trigger] preload[i]).id == id) || (preload.len()
            == t.preload_limit && (t.preload_limit > 0 ==> text_lt(preload.last().id, id))) by {
            assert(in_branch(t.promise(w, id), branch));
        }
    }
}

} // verus!
