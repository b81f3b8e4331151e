//! One request's unit of work over the queue: reads through a write buffer,
//! the jobs and timers it produces, the claims it keeps and one commit at the
//! end. Requests run one at a time, so what is read outside the commit
//! transaction is the latest committed state.

use std::time::Duration;
use vstd::prelude::*;
use crate::calls::{at, view_opt, Call, CallView, Facts, Lease, World};
use crate::envelope::viewed;
use crate::keys::{
    branch_entry_id, branch_prefix, branch_prefix_of, entry_of, Key, KeyView, TIMER_QUEUE,
};
use crate::records::{
    PromiseRecord, PromiseView, ScheduleRecord, ScheduleView, StoredPromise, StoredPromiseView,
    StoredTask, StoredTaskView, TaskState, Text, TAG_BRANCH,
};
use crate::settlement::{
    all_timed_out, all_timed_out_grows, is_overdue, slices, try_timeout,
};
use crate::tags::{ascending, ascending_distinct, IdSet};
use crate::text::{copied, text_eq, text_opt, texts};
use crate::text::{text_lt, text_lt_irreflexive, text_lt_transitive};
use crate::time::{at_least_zero, is_live, live, non_negative};
use crate::timers::{Timer, TimerView};

verus! {

/// Page size of the listing scans.
pub const SCAN_PAGE: usize = 256;

/// A record that a request writes.
#[derive(Debug, PartialEq, Eq)]
pub enum Row {
    /// A promise.
    Promise(StoredPromise),
    /// A task.
    Task(StoredTask),
    /// A schedule.
    Schedule(ScheduleRecord),
    /// An entry of the branch index, whose value is empty.
    Index,
}

/// A record in contracts.
pub enum RowView {
    Promise(StoredPromiseView),
    Task(StoredTaskView),
    Schedule(ScheduleView),
    Index,
}

impl View for Row {
    type V = RowView;

    open spec fn view(&self) -> RowView {
        match self {
            Row::Promise(row) => RowView::Promise(row@),
            Row::Task(row) => RowView::Task(row@),
            Row::Schedule(row) => RowView::Schedule(row@),
            Row::Index => RowView::Index,
        }
    }
}

/// The keys of a sequence of writes.
pub open spec fn write_keys(entries: Seq<(Key, Option<Row>)>) -> Seq<KeyView> {
    Seq::new(entries.len(), |i: int| entries[i].0@)
}

/// The map that a sequence of writes with different keys spells.
pub open spec fn write_map(entries: Seq<(Key, Option<Row>)>) -> Map<KeyView, Option<RowView>> {
    Map::new(
        |k: KeyView| write_keys(entries).contains(k),
        |k: KeyView| view_opt(entries[write_keys(entries).index_of(k)].1),
    )
}

/// The entries a request has written, by key. `None` records a deletion.
#[derive(Debug, PartialEq, Eq)]
pub struct Writes {
    entries: Vec<(Key, Option<Row>)>,
}

impl View for Writes {
    type V = Map<KeyView, Option<RowView>>;

    closed spec fn view(&self) -> Map<KeyView, Option<RowView>> {
        write_map(self.entries@)
    }
}

impl Writes {
    /// No key is written twice.
    #[verifier::type_invariant]
    spec fn inv(self) -> bool {
        write_keys(self.entries@).no_duplicates()
    }

    /// Nothing is written.
    pub fn new() -> (r: Self)
        ensures
            r@ == Map::<KeyView, Option<RowView>>::empty(),
    {
        let r = Writes { entries: Vec::new() };
        assert(r@ =~= Map::<KeyView, Option<RowView>>::empty());
        r
    }

    /// The writes, each under a key of its own.
    pub fn entries(&self) -> (r: &Vec<(Key, Option<Row>)>)
        ensures
            write_keys(r@).no_duplicates(),
            write_map(r@) == self@,
    {
        proof {
            use_type_invariant(self);
        }
        &self.entries
    }

    /// The writes, each under a key of its own.
    pub fn into_entries(self) -> (r: Vec<(Key, Option<Row>)>)
        ensures
            write_keys(r@).no_duplicates(),
            write_map(r@) == self@,
    {
        proof {
            use_type_invariant(&self);
        }
        self.entries
    }

    /// What is written under `key`, if anything is.
    pub fn get(&self, key: &Key) -> (r: Option<&Option<Row>>)
        ensures
            r is Some <==> self@.contains_key(key@),
            r matches Some(row) ==> self@[key@] == view_opt(*row),
    {
        proof {
            use_type_invariant(self);
        }
        let ghost keys = write_keys(self.entries@);
        let mut i: usize = 0;
        while i < self.entries.len()
            invariant
                i <= self.entries.len(),
                keys == write_keys(self.entries@),
                keys.no_duplicates(),
                forall|j: int| 0 <= j < i ==> keys[j] != key@,
            decreases self.entries.len() - i,
        {
            if self.entries[i].0.same(key) {
                assert(keys[i as int] == key@);
                return Some(&self.entries[i].1);
            }
            i += 1;
        }
        None
    }

    /// Write `row` under `key`, in place of what was written there.
    pub fn put(&mut self, key: Key, row: Option<Row>)
        ensures
            final(self)@ == old(self)@.insert(key@, view_opt(row)),
    {
        proof {
            use_type_invariant(&*self);
        }
        let ghost before = self.entries@;
        let ghost keys = write_keys(before);
        let ghost k = key@;
        let ghost v = view_opt(row);
        let mut entries: Vec<(Key, Option<Row>)> = Vec::new();
        std::mem::swap(&mut entries, &mut self.entries);
        let mut i: usize = 0;
        while i < entries.len() && !entries[i].0.same(&key)
            invariant
                i <= entries.len(),
                entries@ == before,
                keys == write_keys(before),
                key@ == k,
                forall|j: int| 0 <= j < i ==> keys[j] != k,
            decreases entries.len() - i,
        {
            i += 1;
        }
        if i < entries.len() {
            entries.set(i, (key, row));
            assert(write_keys(entries@) =~= keys);
        } else {
            entries.push((key, row));
            assert(write_keys(entries@) =~= keys.push(k));
        }
        proof {
            let after = write_keys(entries@);
            assert(after[i as int] == k);
            assert(after.no_duplicates());
            assert forall|x: KeyView| #[trigger] write_map(entries@).contains_key(x) == write_map(
                before,
            ).insert(k, v).contains_key(x) by {
                if keys.contains(x) {
                    let j = keys.index_of(x);
                    assert(after[j] == x);
                }
                if after.contains(x) && x != k {
                    let j = after.index_of(x);
                    assert(keys[j] == x);
                }
            }
            assert forall|x: KeyView| write_map(entries@).contains_key(x) implies #[trigger] write_map(
                entries@,
            )[x] == write_map(before).insert(k, v)[x] by {
                let j = after.index_of(x);
                if x != k {
                    assert(keys[j] == x);
                }
            }
            assert(write_map(entries@) =~= write_map(before).insert(k, v));
        }
        self.entries = entries;
    }
}

/// The payload of a job that a request enqueues.
#[derive(Debug, PartialEq, Eq)]
pub enum Payload {
    /// The dispatch of a task. The execute message is built from the task's
    /// record at delivery, so a redelivery sends the current version.
    Execute(String),
    /// An unblock message for a settled promise.
    Unblock(PromiseRecord),
    /// A timer.
    Timer(Timer),
}

/// A payload in contracts.
pub enum PayloadView {
    Execute(Text),
    Unblock(PromiseView),
    Timer(TimerView),
}

impl View for Payload {
    type V = PayloadView;

    open spec fn view(&self) -> PayloadView {
        match self {
            Payload::Execute(task) => PayloadView::Execute(task@),
            Payload::Unblock(promise) => PayloadView::Unblock(promise@),
            Payload::Timer(timer) => PayloadView::Timer(timer@),
        }
    }
}

/// A job that a request enqueues.
#[derive(Debug, PartialEq, Eq)]
pub struct Enqueue {
    /// The queue.
    pub queue: String,
    /// The payload.
    pub payload: Payload,
    /// The id the job gets, or one of the queue's choice.
    pub job: Option<String>,
    /// The earliest time the job is claimed at, in epoch milliseconds.
    pub run_at: Option<u64>,
}

/// An enqueued job in contracts.
pub struct EnqueueView {
    pub queue: Text,
    pub payload: PayloadView,
    pub job: Option<Text>,
    pub run_at: Option<u64>,
}

impl View for Enqueue {
    type V = EnqueueView;

    open spec fn view(&self) -> EnqueueView {
        EnqueueView {
            queue: self.queue@,
            payload: self.payload@,
            job: text_opt(self.job),
            run_at: self.run_at,
        }
    }
}

/// Work that follows the commit.
#[derive(Debug, PartialEq, Eq)]
pub enum After {
    /// Acknowledge the delivered claim.
    Ack,
    /// Hold the delivered execute job's claim for its task. A claim held
    /// before is dropped: its lease has ended, or ends with the requeue.
    Hold(String),
    /// Acknowledge the held claim of a task.
    Release(String),
    /// Fail the held claim of a task, so its job is delivered again.
    Nack(String),
    /// Claim a task's job by id and hold the claim: the task, the job and the
    /// lease.
    Claim(String, String, Duration),
}

/// Work that follows the commit, in contracts.
pub enum AfterView {
    Ack,
    Hold(Text),
    Release(Text),
    Nack(Text),
    Claim(Text, Text, Duration),
}

impl View for After {
    type V = AfterView;

    open spec fn view(&self) -> AfterView {
        match self {
            After::Ack => AfterView::Ack,
            After::Hold(task) => AfterView::Hold(task@),
            After::Release(task) => AfterView::Release(task@),
            After::Nack(task) => AfterView::Nack(task@),
            After::Claim(task, job, lease) => AfterView::Claim(task@, job@, *lease),
        }
    }
}

/// A request under way: the time it runs at, what it has written, enqueued and
/// put off, how many job ids it has drawn and claim calls it has made, and the
/// calls it depends on.
#[verifier::ext_equal]
pub struct TxnView {
    pub now: i64,
    pub preload_limit: usize,
    pub writes: Map<KeyView, Option<RowView>>,
    pub enqueues: Seq<EnqueueView>,
    pub after: Seq<AfterView>,
    pub jobs: u64,
    pub turn: u64,
    pub asked: Set<CallView>,
}

impl TxnView {
    /// A request that has done nothing.
    pub open spec fn start(preload_limit: usize, now: i64) -> TxnView {
        TxnView {
            now,
            preload_limit,
            writes: Map::empty(),
            enqueues: Seq::empty(),
            after: Seq::empty(),
            jobs: 0,
            turn: 0,
            asked: Set::empty(),
        }
    }

    /// The request after it depends on `call`.
    pub open spec fn ask(self, call: CallView) -> TxnView {
        TxnView { asked: self.asked.insert(call), ..self }
    }

    /// The request after the claim call `call`.
    pub open spec fn turned(self, call: CallView) -> TxnView {
        TxnView {
            asked: self.asked.insert(call),
            turn: self.turn.wrapping_add(1),
            ..self
        }
    }

    /// The request after a write.
    pub open spec fn put(self, key: KeyView, row: Option<RowView>) -> TxnView {
        TxnView { writes: self.writes.insert(key, row), ..self }
    }

    /// The promise of `id` as the request sees it.
    pub open spec fn promise(self, w: World, id: Text) -> Option<StoredPromiseView> {
        let key = KeyView::Promise(id);
        if self.writes.contains_key(key) {
            match self.writes[key] {
                Some(RowView::Promise(row)) => Some(row),
                _ => None,
            }
        } else {
            at(w.promises, id)
        }
    }

    /// The request after it read the promise of `id`.
    pub open spec fn read_promise(self, id: Text) -> TxnView {
        if self.writes.contains_key(KeyView::Promise(id)) {
            self
        } else {
            self.ask(CallView::Promise(id))
        }
    }

    /// The request after it wrote `row`.
    pub open spec fn put_promise(self, row: StoredPromiseView) -> TxnView {
        self.put(KeyView::Promise(row.record.id), Some(RowView::Promise(row)))
    }

    /// The task of `id` as the request sees it.
    pub open spec fn task(self, w: World, id: Text) -> Option<StoredTaskView> {
        let key = KeyView::Task(id);
        if self.writes.contains_key(key) {
            match self.writes[key] {
                Some(RowView::Task(row)) => Some(row),
                _ => None,
            }
        } else {
            at(w.tasks, id)
        }
    }

    /// The request after it read the task of `id`.
    pub open spec fn read_task(self, id: Text) -> TxnView {
        if self.writes.contains_key(KeyView::Task(id)) {
            self
        } else {
            self.ask(CallView::Task(id))
        }
    }

    /// The request after it wrote `row`.
    pub open spec fn put_task(self, row: StoredTaskView) -> TxnView {
        self.put(KeyView::Task(row.id), Some(RowView::Task(row)))
    }

    /// The schedule of `id` as the request sees it.
    pub open spec fn schedule(self, w: World, id: Text) -> Option<ScheduleView> {
        let key = KeyView::Schedule(id);
        if self.writes.contains_key(key) {
            match self.writes[key] {
                Some(RowView::Schedule(row)) => Some(row),
                _ => None,
            }
        } else {
            at(w.schedules, id)
        }
    }

    /// The request after it read the schedule of `id`.
    pub open spec fn read_schedule(self, id: Text) -> TxnView {
        if self.writes.contains_key(KeyView::Schedule(id)) {
            self
        } else {
            self.ask(CallView::Schedule(id))
        }
    }

    /// The request after it wrote `row`.
    pub open spec fn put_schedule(self, row: ScheduleView) -> TxnView {
        self.put(KeyView::Schedule(row.id), Some(RowView::Schedule(row)))
    }

    /// The request after it deleted the schedule of `id`.
    pub open spec fn delete_schedule(self, id: Text) -> TxnView {
        self.put(KeyView::Schedule(id), None)
    }

    /// The request after it indexed `promise` under its branch, if it has one.
    pub open spec fn index_branch(self, promise: PromiseView) -> TxnView {
        if promise.tags.contains_key(TAG_BRANCH@) {
            self.put(
                KeyView::Branch(promise.tags[TAG_BRANCH@], promise.id),
                Some(RowView::Index),
            )
        } else {
            self
        }
    }

    /// The request after it enqueued a job.
    pub open spec fn enqueue(self, job: EnqueueView) -> TxnView {
        TxnView { enqueues: self.enqueues.push(job), ..self }
    }

    /// The request after it put off `work` until the commit.
    pub open spec fn later(self, work: AfterView) -> TxnView {
        TxnView { after: self.after.push(work), ..self }
    }

    /// The request after it enqueued an unblock message.
    pub open spec fn send_unblock(self, address: Text, promise: PromiseView) -> TxnView {
        self.enqueue(
            EnqueueView {
                queue: address,
                payload: PayloadView::Unblock(promise),
                job: None,
                run_at: None,
            },
        )
    }

    /// The request after it scheduled `timer` at epoch millisecond `time`.
    pub open spec fn schedule_timer(self, timer: TimerView, time: i64) -> TxnView {
        self.enqueue(
            EnqueueView {
                queue: TIMER_QUEUE@,
                payload: PayloadView::Timer(timer),
                job: None,
                run_at: Some(at_least_zero(time)),
            },
        )
    }

    /// `task` with the job of its next dispatch.
    pub open spec fn with_job(self, w: World, task: StoredTaskView) -> StoredTaskView {
        StoredTaskView { job: Some((w.job_ids)(self.jobs)), ..task }
    }

    /// The request after it dispatched `task`, at `run_at` where one is given.
    pub open spec fn dispatch(self, w: World, task: StoredTaskView, run_at: Option<i64>) -> TxnView {
        let drawn = TxnView {
            asked: self.asked.insert(CallView::JobId(self.jobs)),
            jobs: self.jobs.wrapping_add(1),
            ..self
        };
        drawn.put_task(self.with_job(w, task)).enqueue(
            EnqueueView {
                queue: task.target,
                payload: PayloadView::Execute(task.id),
                job: Some((w.job_ids)(self.jobs)),
                run_at: match run_at {
                    Some(time) => Some(at_least_zero(time)),
                    None => None,
                },
            },
        )
    }

    /// Whether the claim of `task` is held with a live lease.
    pub open spec fn holds(self, w: World) -> bool {
        match (w.leases)(self.turn) {
            Lease::NotHeld => false,
            Lease::Held(expiry) => is_live(expiry, self.now),
        }
    }

    /// The request after it looked at the claim of `task`. A held claim whose
    /// lease ended is dropped.
    pub open spec fn after_holds(self, w: World, task: Text) -> TxnView {
        let read = self.turned(CallView::Lease(task, self.turn));
        if (w.leases)(self.turn) is Held && !self.holds(w) {
            read.turned(CallView::Drop(task, read.turn))
        } else {
            read
        }
    }

    /// Whether the claim of `task` is held with a live lease and renewed.
    pub open spec fn renews(self, w: World, task: Text) -> bool {
        self.holds(w) && (w.renewals)(self.after_holds(w, task).turn)
    }

    /// The request after it renewed the lease of `task`'s held claim. A claim
    /// that cannot be renewed is dropped.
    pub open spec fn renew(self, w: World, task: Text, lease: Duration) -> TxnView {
        let held = self.after_holds(w, task);
        if self.holds(w) {
            let tried = held.turned(CallView::Renew(task, lease, held.turn));
            if self.renews(w, task) {
                tried
            } else {
                tried.turned(CallView::Drop(task, tried.turn))
            }
        } else {
            held
        }
    }

    /// The request after it tried to claim `job` for `task`.
    pub open spec fn claim_job(self, task: Text, job: Text, lease: Duration) -> TxnView {
        self.turned(CallView::Claim(task, job, lease, self.turn))
    }

    /// The ids that the entries written by this request name after `prefix`.
    pub open spec fn indexed(self, prefix: Seq<u8>) -> Set<Text> {
        Set::new(|id: Text| named_by(self.writes, prefix, id))
    }
}

/// Whether an entry of `writes` names `id` after `prefix`.
pub open spec fn named_by(
    writes: Map<KeyView, Option<RowView>>,
    prefix: Seq<u8>,
    id: Text,
) -> bool {
    exists|key: KeyView| #[trigger]
        writes.contains_key(key) && writes[key] is Some && entry_of(prefix, key.bytes()) == Some(id)
}

/// The ids that `keys` name after `prefix`, other than `own`, added to `known`
/// until there are more than `limit`.
pub open spec fn collect(
    keys: Seq<Seq<u8>>,
    prefix: Seq<u8>,
    own: Text,
    limit: usize,
    known: Set<Text>,
) -> Set<Text>
    decreases keys.len(),
{
    if keys.len() == 0 {
        known
    } else {
        let named = entry_of(prefix, keys[0]);
        let next = if named is Some && named->0 != own {
            known.insert(named->0)
        } else {
            known
        };
        if next.len() > limit {
            next
        } else {
            collect(keys.drop_first(), prefix, own, limit, next)
        }
    }
}

/// The committed ids under `prefix`, other than `own`: as many as `limit`
/// decides on, read in pages.
pub open spec fn scan(w: World, prefix: Seq<u8>, own: Text, limit: usize, count: usize) -> Set<Text>
    decreases usize::MAX - count,
{
    let keys = w.listing(prefix, count);
    let found = collect(keys, prefix, own, limit, Set::empty());
    if found.len() > limit || keys.len() < count || count > usize::MAX - SCAN_PAGE {
        found
    } else {
        scan(w, prefix, own, limit, (count + SCAN_PAGE) as usize)
    }
}

/// The request after the scan of `prefix`.
pub open spec fn after_scan(
    w: World,
    t: TxnView,
    prefix: Seq<u8>,
    own: Text,
    limit: usize,
    count: usize,
) -> TxnView
    decreases usize::MAX - count,
{
    let keys = w.listing(prefix, count);
    let found = collect(keys, prefix, own, limit, Set::empty());
    let read = t.ask(CallView::Branch(prefix, count));
    if found.len() > limit || keys.len() < count || count > usize::MAX - SCAN_PAGE {
        read
    } else {
        after_scan(w, read, prefix, own, limit, (count + SCAN_PAGE) as usize)
    }
}

/// The members of a finite set of texts, in order.
pub open spec fn in_order(ids: Set<Text>) -> Seq<Text> {
    choose|s: Seq<Text>| ascending(s) && s.to_set() == ids
}

/// The first `limit` of a sequence, or all of it.
pub open spec fn first<A>(s: Seq<A>, limit: usize) -> Seq<A> {
    if s.len() <= limit {
        s
    } else {
        s.take(limit as int)
    }
}

/// The siblings of a promise that a request loads: the ids that share its
/// branch, in order and at most `preload_limit` of them.
pub open spec fn siblings(w: World, t: TxnView, promise: PromiseView, branch: Text) -> Seq<Text> {
    let prefix = branch_prefix_of(branch);
    let committed = scan(w, prefix, promise.id, t.preload_limit, SCAN_PAGE);
    first(in_order(committed.union(t.indexed(prefix).remove(promise.id))), t.preload_limit)
}

/// The records of those of `ids` that exist.
pub open spec fn records_of(w: World, t: TxnView, ids: Seq<Text>) -> Seq<PromiseView>
    decreases ids.len(),
{
    if ids.len() == 0 {
        Seq::empty()
    } else {
        let before = records_of(w, t, ids.drop_last());
        match t.promise(w, ids.last()) {
            Some(row) => before.push(row.record),
            None => before,
        }
    }
}

/// The ids of those of `rows` whose deadline has passed at `now`.
pub open spec fn overdue_ids(rows: Seq<StoredPromiseView>, now: i64) -> Seq<Text>
    decreases rows.len(),
{
    if rows.len() == 0 {
        Seq::empty()
    } else {
        let before = overdue_ids(rows.drop_last(), now);
        if is_overdue(rows.last(), now) {
            before.push(rows.last().record.id)
        } else {
            before
        }
    }
}

/// The record of a promise once its deadline is applied at `now`.
pub open spec fn record_at(row: StoredPromiseView, now: i64) -> PromiseView {
    if is_overdue(row, now) {
        row.record.expired()
    } else {
        row.record
    }
}

/// The wire records of stored promises once their deadlines are applied at
/// `now`.
pub open spec fn records_at(rows: Seq<StoredPromiseView>, now: i64) -> Seq<PromiseView> {
    Seq::new(rows.len(), |i: int| record_at(rows[i], now))
}

/// The request after it listed the promises and applied their deadlines.
pub open spec fn promises_listed(w: World, t: TxnView) -> TxnView {
    all_timed_out(w, t.ask(CallView::Promises), overdue_ids(w.all_promises(), t.now))
}

/// The ids of those of `rows` that are not fulfilled.
pub open spec fn unfulfilled_ids(rows: Seq<StoredTaskView>) -> Seq<Text>
    decreases rows.len(),
{
    if rows.len() == 0 {
        Seq::empty()
    } else {
        let before = unfulfilled_ids(rows.drop_last());
        if rows.last().state != TaskState::Fulfilled {
            before.push(rows.last().id)
        } else {
            before
        }
    }
}

/// The request after it listed the tasks and applied the deadlines of the
/// promises of those that are not fulfilled.
pub open spec fn tasks_listed(w: World, t: TxnView) -> TxnView {
    all_timed_out(w, t.ask(CallView::Tasks), unfulfilled_ids(w.all_tasks()))
}

/// A listed task as the request sees it: as it wrote it, where it did.
pub open spec fn task_at(t: TxnView, row: StoredTaskView) -> StoredTaskView {
    let key = KeyView::Task(row.id);
    if t.writes.contains_key(key) {
        match t.writes[key] {
            Some(RowView::Task(written)) => written,
            _ => row,
        }
    } else {
        row
    }
}

/// Listed tasks as the request sees them.
pub open spec fn tasks_at(t: TxnView, rows: Seq<StoredTaskView>) -> Seq<StoredTaskView> {
    Seq::new(rows.len(), |i: int| task_at(t, rows[i]))
}

/// The request after it read the promises of `ids`.
pub open spec fn read_all(t: TxnView, ids: Seq<Text>) -> TxnView
    decreases ids.len(),
{
    if ids.len() == 0 {
        t
    } else {
        read_all(t, ids.drop_last()).read_promise(ids.last())
    }
}

/// The request after it found the siblings of `promise` and applied their
/// deadlines.
pub open spec fn siblings_timed_out(w: World, t: TxnView, promise: PromiseView) -> TxnView {
    let branch = promise.tags[TAG_BRANCH@];
    let scanned = after_scan(
        w,
        t,
        branch_prefix_of(branch),
        promise.id,
        t.preload_limit,
        SCAN_PAGE,
    );
    all_timed_out(w, scanned, siblings(w, t, promise, branch))
}

/// The promises that share `promise`'s branch, other than the promise itself,
/// in id order and at most `preload_limit` of them, once their deadlines are
/// applied. A promise indexed by this request is among them.
pub open spec fn preloaded(w: World, t: TxnView, promise: PromiseView) -> Seq<PromiseView> {
    if promise.tags.contains_key(TAG_BRANCH@) {
        records_of(
            w,
            siblings_timed_out(w, t, promise),
            siblings(w, t, promise, promise.tags[TAG_BRANCH@]),
        )
    } else {
        Seq::empty()
    }
}

/// The request after it loaded the siblings of `promise`.
pub open spec fn after_preload(w: World, t: TxnView, promise: PromiseView) -> TxnView {
    if promise.tags.contains_key(TAG_BRANCH@) {
        read_all(
            siblings_timed_out(w, t, promise),
            siblings(w, t, promise, promise.tags[TAG_BRANCH@]),
        )
    } else {
        t
    }
}

/// A scan keeps the calls a request depends on.
proof fn after_scan_grows(
    w: World,
    t: TxnView,
    prefix: Seq<u8>,
    own: Text,
    limit: usize,
    count: usize,
    call: CallView,
)
    requires
        t.asked.contains(call),
    ensures
        after_scan(w, t, prefix, own, limit, count).asked.contains(call),
    decreases usize::MAX - count,
{
    let keys = w.listing(prefix, count);
    let found = collect(keys, prefix, own, limit, Set::empty());
    let read = t.ask(CallView::Branch(prefix, count));
    if !(found.len() > limit || keys.len() < count || count > usize::MAX - SCAN_PAGE) {
        after_scan_grows(w, read, prefix, own, limit, (count + SCAN_PAGE) as usize, call);
    }
}

/// A scan changes nothing but the calls a request depends on.
pub proof fn after_scan_keeps(
    w: World,
    t: TxnView,
    prefix: Seq<u8>,
    own: Text,
    limit: usize,
    count: usize,
)
    ensures
        after_scan(w, t, prefix, own, limit, count) == (TxnView {
            asked: after_scan(w, t, prefix, own, limit, count).asked,
            ..t
        }),
    decreases usize::MAX - count,
{
    let keys = w.listing(prefix, count);
    let found = collect(keys, prefix, own, limit, Set::empty());
    let read = t.ask(CallView::Branch(prefix, count));
    if !(found.len() > limit || keys.len() < count || count > usize::MAX - SCAN_PAGE) {
        after_scan_keeps(w, read, prefix, own, limit, (count + SCAN_PAGE) as usize);
    }
}

/// Reading promises keeps the calls a request depends on.
proof fn read_all_grows(t: TxnView, ids: Seq<Text>, call: CallView)
    requires
        t.asked.contains(call),
    ensures
        read_all(t, ids).asked.contains(call),
    decreases ids.len(),
{
    if ids.len() > 0 {
        read_all_grows(t, ids.drop_last(), call);
    }
}

/// Reading promises changes nothing but the calls a request depends on.
pub proof fn read_all_keeps(t: TxnView, ids: Seq<Text>)
    ensures
        read_all(t, ids) == (TxnView { asked: read_all(t, ids).asked, ..t }),
    decreases ids.len(),
{
    if ids.len() > 0 {
        read_all_keeps(t, ids.drop_last());
    }
}

/// Reading more promises depends on every call that reading fewer does.
proof fn read_all_prefix(t: TxnView, ids: Seq<Text>, n: int, call: CallView)
    requires
        0 <= n <= ids.len(),
        read_all(t, ids.take(n)).asked.contains(call),
    ensures
        read_all(t, ids).asked.contains(call),
    decreases ids.len(),
{
    if n == ids.len() {
        assert(ids.take(n) =~= ids);
    } else {
        assert(ids.drop_last().take(n) =~= ids.take(n));
        read_all_prefix(t, ids.drop_last(), n, call);
    }
}

/// Loading siblings keeps the calls a request depends on.
pub broadcast proof fn after_preload_grows(
    w: World,
    t: TxnView,
    promise: PromiseView,
    call: CallView,
)
    requires
        t.asked.contains(call),
    ensures
        #[trigger] after_preload(w, t, promise).asked.contains(call),
{
    if promise.tags.contains_key(TAG_BRANCH@) {
        let branch = promise.tags[TAG_BRANCH@];
        let prefix = branch_prefix_of(branch);
        let scanned = after_scan(w, t, prefix, promise.id, t.preload_limit, SCAN_PAGE);
        let ids = siblings(w, t, promise, branch);
        after_scan_grows(w, t, prefix, promise.id, t.preload_limit, SCAN_PAGE, call);
        all_timed_out_grows(w, scanned, ids, call);
        read_all_grows(all_timed_out(w, scanned, ids), ids, call);
    }
}

/// A set of texts has one ascending sequence of its members.
pub proof fn ascending_unique(a: Seq<Text>, b: Seq<Text>)
    requires
        ascending(a),
        ascending(b),
        a.to_set() == b.to_set(),
    ensures
        a == b,
    decreases a.len(),
{
    ascending_distinct(a);
    ascending_distinct(b);
    a.unique_seq_to_set();
    b.unique_seq_to_set();
    if a.len() == 0 {
        assert(a =~= b);
    } else {
        let x = a.last();
        let y = b.last();
        assert(a[a.len() - 1] == x);
        assert(b[b.len() - 1] == y);
        assert(a.to_set().contains(x) && b.to_set().contains(y));
        assert(b.contains(x) && a.contains(y));
        let i = b.index_of(x);
        let j = a.index_of(y);
        if x != y {
            assert(text_lt(b[i], b[b.len() - 1]));
            assert(text_lt(a[j], a[a.len() - 1]));
            text_lt_transitive(x, y, x);
            text_lt_irreflexive(x);
        }
        let c = a.drop_last();
        let d = b.drop_last();
        assert forall|id: Text| #[trigger] c.to_set().contains(id) <==> d.to_set().contains(id) by {
            if c.contains(id) {
                let k = c.index_of(id);
                assert(a[k] == id);
                assert(a.to_set().contains(id));
                assert(b.contains(id));
                let l = b.index_of(id);
                assert(l != b.len() - 1);
                assert(d[l] == id);
            }
            if d.contains(id) {
                let k = d.index_of(id);
                assert(b[k] == id);
                assert(b.to_set().contains(id));
                assert(a.contains(id));
                let l = a.index_of(id);
                assert(l != a.len() - 1);
                assert(c[l] == id);
            }
        }
        assert(c.to_set() =~= d.to_set());
        ascending_unique(c, d);
        assert(a =~= c.push(x));
        assert(b =~= d.push(y));
    }
}

/// An ascending sequence of the members of a set is the set in order.
pub proof fn in_order_is(ids: Set<Text>, s: Seq<Text>)
    requires
        ascending(s),
        s.to_set() == ids,
    ensures
        in_order(ids) == s,
        s.len() == ids.len(),
{
    let chosen = in_order(ids);
    assert(ascending(chosen) && chosen.to_set() == ids);
    ascending_unique(chosen, s);
    ascending_distinct(s);
    s.unique_seq_to_set();
}

/// The ids that `keys` name after `prefix`, other than `own`, until there are
/// more than `limit`.
fn collect_ids(keys: &Vec<Vec<u8>>, prefix: &Vec<u8>, own: &str, limit: usize) -> (r: IdSet)
    ensures
        r@ == collect(viewed(keys@), prefix@, own@, limit, Set::empty()),
{
    let mut ids = IdSet::new();
    let mut i: usize = 0;
    let ghost all = viewed(keys@);
    assert(all.skip(0) =~= all);
    while i < keys.len()
        invariant
            i <= keys.len(),
            all == viewed(keys@),
            collect(all, prefix@, own@, limit, Set::empty()) == collect(
                all.skip(i as int),
                prefix@,
                own@,
                limit,
                ids@,
            ),
        decreases keys.len() - i,
    {
        assert(all.skip(i as int)[0] == keys@[i as int]@);
        assert(all.skip(i as int).drop_first() =~= all.skip(i + 1));
        if let Some(id) = branch_entry_id(prefix.as_slice(), keys[i].as_slice()) {
            if !text_eq(id, own) {
                ids.insert(copied(id));
            }
        }
        if ids.len() > limit {
            return ids;
        }
        i += 1;
    }
    ids
}

/// A copy of a byte string.
fn copied_bytes(bytes: &Vec<u8>) -> (r: Vec<u8>)
    ensures
        r@ == bytes@,
{
    let mut r: Vec<u8> = Vec::new();
    r.extend_from_slice(bytes.as_slice());
    assert(r@ =~= bytes@);
    r
}

/// One request's unit of work.
pub struct Txn<'a> {
    /// What is known of the queue.
    pub facts: &'a Facts,
    /// The most siblings that a task is sent with.
    pub preload_limit: usize,
    /// The current time in epoch milliseconds.
    pub now: i64,
    /// Entries written by this request.
    pub writes: Writes,
    /// Jobs enqueued by this request.
    pub enqueues: Vec<Enqueue>,
    /// Work that follows the commit.
    pub after: Vec<After>,
    /// The number of job ids drawn.
    pub jobs: u64,
    /// The number of claim calls made.
    pub turn: u64,
    /// The calls the request depends on.
    pub asked: Ghost<Set<CallView>>,
}

impl<'a> View for Txn<'a> {
    type V = TxnView;

    open spec fn view(&self) -> TxnView {
        TxnView {
            now: self.now,
            preload_limit: self.preload_limit,
            writes: self.writes@,
            enqueues: viewed(self.enqueues@),
            after: viewed(self.after@),
            jobs: self.jobs,
            turn: self.turn,
            asked: self.asked@,
        }
    }
}

impl<'a> Txn<'a> {
    /// Every call the request depends on has been made.
    pub open spec fn wf(self) -> bool {
        forall|call: CallView| #[trigger] self.asked@.contains(call) ==> self.facts.answer(call)
    }
}

impl<'a> Txn<'a> {
    /// Whether the request knows that the schedule of `id` is `row`: it wrote
    /// it so, or was told.
    pub open spec fn knows_schedule(self, id: Text, row: Option<ScheduleView>) -> bool {
        let key = KeyView::Schedule(id);
        if self@.writes.contains_key(key) {
            match self@.writes[key] {
                Some(RowView::Schedule(written)) => row == Some(written),
                _ => row is None,
            }
        } else {
            self.facts.tells_schedule(id, row)
        }
    }
}

/// What a step of a request leaves: where it ends, the request stands as `run`
/// says for every queue the facts are true of, and every call it depends on has
/// been made; where it stops at a call, the call is one the step depends on and
/// its answer is not known.
pub open spec fn steps<T>(
    before: Txn,
    after: Txn,
    r: Result<T, Call>,
    run: spec_fn(World) -> TxnView,
) -> bool {
    &&& after.facts == before.facts
    &&& match r {
        Ok(_) => after.wf(),
        Err(call) => !before.facts.answer(call@),
    }
    &&& forall|w: World| #[trigger]
        before.facts.describe(w) ==> match r {
            Ok(_) => after@ == run(w),
            Err(call) => run(w).asked.contains(call@),
        }
}

impl<'a> Txn<'a> {
    /// A request that has done nothing.
    pub fn new(facts: &'a Facts, preload_limit: usize, now: i64) -> (r: Self)
        ensures
            r.facts == facts,
            r@ == TxnView::start(preload_limit, now),
            r.wf(),
    {
        let r = Txn {
            facts,
            preload_limit,
            now,
            writes: Writes::new(),
            enqueues: Vec::new(),
            after: Vec::new(),
            jobs: 0,
            turn: 0,
            asked: Ghost(Set::empty()),
        };
        assert(r@ =~= TxnView::start(preload_limit, now));
        r
    }

    /// The promise of `id`.
    pub fn get_promise(&mut self, id: &str) -> (r: Result<Option<StoredPromise>, Call>)
        requires
            old(self).wf(),
        ensures
            steps(*old(self), *final(self), r, |w: World| old(self)@.read_promise(id@)),
            r matches Ok(row) ==> forall|w: World| #[trigger]
                old(self).facts.describe(w) ==> view_opt(row) == old(self)@.promise(w, id@),
    {
        let key = Key::Promise(copied(id));
        if let Some(row) = self.writes.get(&key) {
            return Ok(
                match row {
                    Some(Row::Promise(row)) => Some(row.clone()),
                    _ => None,
                },
            );
        }
        match self.facts.promise(id) {
            Some(row) => {
                proof {
                    self.asked@ = self.asked@.insert(CallView::Promise(id@));
                }
                Ok(
                    match row {
                        Some(row) => Some(row.clone()),
                        None => None,
                    },
                )
            },
            None => Err(Call::Promise(copied(id))),
        }
    }

    /// Write `promise`.
    pub fn put_promise(&mut self, promise: &StoredPromise)
        requires
            old(self).wf(),
        ensures
            final(self).facts == old(self).facts,
            final(self).wf(),
            final(self)@ == old(self)@.put_promise(promise@),
    {
        self.writes.put(Key::Promise(copied(&promise.record.id)), Some(Row::Promise(promise.clone())));
        assert(self@ =~= old(self)@.put_promise(promise@));
    }

    /// Index `promise` under its branch, if it has one.
    pub fn index_branch(&mut self, promise: &PromiseRecord)
        requires
            old(self).wf(),
        ensures
            final(self).facts == old(self).facts,
            final(self).wf(),
            final(self)@ == old(self)@.index_branch(promise@),
    {
        if let Some(branch) = promise.tags.get(TAG_BRANCH) {
            let key = Key::Branch(copied(branch), copied(&promise.id));
            self.writes.put(key, Some(Row::Index));
        }
        assert(self@ =~= old(self)@.index_branch(promise@));
    }

    /// The task of `id`.
    pub fn get_task(&mut self, id: &str) -> (r: Result<Option<StoredTask>, Call>)
        requires
            old(self).wf(),
        ensures
            steps(*old(self), *final(self), r, |w: World| old(self)@.read_task(id@)),
            r matches Ok(row) ==> forall|w: World| #[trigger]
                old(self).facts.describe(w) ==> view_opt(row) == old(self)@.task(w, id@),
    {
        let key = Key::Task(copied(id));
        if let Some(row) = self.writes.get(&key) {
            return Ok(
                match row {
                    Some(Row::Task(row)) => Some(row.clone()),
                    _ => None,
                },
            );
        }
        match self.facts.task(id) {
            Some(row) => {
                proof {
                    self.asked@ = self.asked@.insert(CallView::Task(id@));
                }
                Ok(
                    match row {
                        Some(row) => Some(row.clone()),
                        None => None,
                    },
                )
            },
            None => Err(Call::Task(copied(id))),
        }
    }

    /// Write `task`.
    pub fn put_task(&mut self, task: &StoredTask)
        requires
            old(self).wf(),
        ensures
            final(self).facts == old(self).facts,
            final(self).wf(),
            final(self)@ == old(self)@.put_task(task@),
    {
        self.writes.put(Key::Task(copied(&task.id)), Some(Row::Task(task.clone())));
        assert(self@ =~= old(self)@.put_task(task@));
    }

    /// The schedule of `id`.
    pub fn get_schedule(&mut self, id: &str) -> (r: Result<Option<ScheduleRecord>, Call>)
        requires
            old(self).wf(),
        ensures
            steps(*old(self), *final(self), r, |w: World| old(self)@.read_schedule(id@)),
            r is Ok ==> final(self)@ == old(self)@.read_schedule(id@),
            r matches Ok(row) ==> forall|w: World| #[trigger]
                old(self).facts.describe(w) ==> view_opt(row) == old(self)@.schedule(w, id@),
            forall|row: Option<ScheduleView>| #[trigger]
                old(self).knows_schedule(id@, row) <==> (r matches Ok(read) && view_opt(read)
                    == row),
    {
        let key = Key::Schedule(copied(id));
        if let Some(row) = self.writes.get(&key) {
            return Ok(
                match row {
                    Some(Row::Schedule(row)) => Some(row.clone()),
                    _ => None,
                },
            );
        }
        match self.facts.schedule(id) {
            Some(row) => {
                proof {
                    self.asked@ = self.asked@.insert(CallView::Schedule(id@));
                }
                Ok(
                    match row {
                        Some(row) => Some(row.clone()),
                        None => None,
                    },
                )
            },
            None => Err(Call::Schedule(copied(id))),
        }
    }

    /// Whether the request knows that there is no schedule of `id`.
    pub fn lacks_schedule(&self, id: &str) -> (r: bool)
        ensures
            r == self.knows_schedule(id@, None),
    {
        let key = Key::Schedule(copied(id));
        if let Some(row) = self.writes.get(&key) {
            return match row {
                Some(Row::Schedule(_)) => false,
                _ => true,
            };
        }
        match self.facts.schedule(id) {
            Some(row) => row.is_none(),
            None => false,
        }
    }

    /// The schedule of `id` that the request knows of.
    pub fn known_schedule(&self, id: &str) -> (r: Option<&ScheduleRecord>)
        ensures
            forall|row: ScheduleView| #[trigger]
                self.knows_schedule(id@, Some(row)) <==> (r matches Some(known) && known@ == row),
    {
        let key = Key::Schedule(copied(id));
        if let Some(row) = self.writes.get(&key) {
            return match row {
                Some(Row::Schedule(row)) => Some(row),
                _ => None,
            };
        }
        match self.facts.schedule(id) {
            Some(Some(row)) => Some(row),
            _ => None,
        }
    }

    /// Write `schedule`.
    pub fn put_schedule(&mut self, schedule: &ScheduleRecord)
        requires
            old(self).wf(),
        ensures
            final(self).facts == old(self).facts,
            final(self).wf(),
            final(self)@ == old(self)@.put_schedule(schedule@),
    {
        self.writes.put(Key::Schedule(copied(&schedule.id)), Some(Row::Schedule(schedule.clone())));
        assert(self@ =~= old(self)@.put_schedule(schedule@));
    }

    /// Delete the schedule of `id`.
    pub fn delete_schedule(&mut self, id: &str)
        requires
            old(self).wf(),
        ensures
            final(self).facts == old(self).facts,
            final(self).wf(),
            final(self)@ == old(self)@.delete_schedule(id@),
    {
        self.writes.put(Key::Schedule(copied(id)), None);
        assert(self@ =~= old(self)@.delete_schedule(id@));
    }

    /// Every promise, in id order, once its deadline is applied.
    pub fn promises(&mut self) -> (r: Result<Vec<PromiseRecord>, Call>)
        requires
            old(self).wf(),
        ensures
            steps(*old(self), *final(self), r, |w: World| promises_listed(w, old(self)@)),
            r matches Ok(rows) ==> forall|w: World| #[trigger]
                old(self).facts.describe(w) ==> viewed(rows@) == records_at(
                    w.all_promises(),
                    old(self)@.now,
                ),
    {
        broadcast use all_timed_out_grows;

        let rows = match self.facts.promises() {
            Some(rows) => rows,
            None => {
                return Err(Call::Promises);
            },
        };
        proof {
            self.asked@ = self.asked@.insert(CallView::Promises);
            assert(self@ =~= old(self)@.ask(CallView::Promises));
        }
        let now: i64 = self.now;
        let ghost all = viewed(rows@);
        let mut records: Vec<PromiseRecord> = Vec::new();
        let mut overdue: Vec<&str> = Vec::new();
        let mut i: usize = 0;
        assert(all.take(0) =~= Seq::<StoredPromiseView>::empty());
        assert(slices(overdue@) =~= Seq::<Text>::empty());
        while i < rows.len()
            invariant
                i <= rows.len(),
                all == viewed(rows@),
                records.len() == i,
                forall|j: int|
                    0 <= j < i ==> (#[trigger] records@[j])@ == record_at(rows@[j]@, now),
                slices(overdue@) == overdue_ids(all.take(i as int), now),
            decreases rows.len() - i,
        {
            let ghost next = all.take(i + 1);
            let ghost before = overdue@;
            assert(next.drop_last() =~= all.take(i as int));
            assert(next.last() == rows@[i as int]@);
            let mut record = rows[i].record.clone();
            if record.is_pending() && now >= record.timeout_at {
                overdue.push(rows[i].record.id.as_str());
                assert(slices(overdue@) =~= slices(before).push(rows@[i as int]@.record.id));
                record.state = record.timeout_state();
                record.settled_at = Some(record.timeout_at);
            }
            records.push(record);
            i += 1;
        }
        assert(all.take(i as int) =~= all);
        assert(viewed(records@) =~= records_at(all, now));
        try_timeout(self, &overdue)?;
        Ok(records)
    }

    /// Every task, in id order, once the deadline of its promise is applied.
    pub fn tasks(&mut self) -> (r: Result<Vec<StoredTask>, Call>)
        requires
            old(self).wf(),
        ensures
            steps(*old(self), *final(self), r, |w: World| tasks_listed(w, old(self)@)),
            r matches Ok(rows) ==> forall|w: World| #[trigger]
                old(self).facts.describe(w) ==> viewed(rows@) == tasks_at(
                    tasks_listed(w, old(self)@),
                    w.all_tasks(),
                ),
    {
        broadcast use all_timed_out_grows;

        let listed = match self.facts.tasks() {
            Some(rows) => rows,
            None => {
                return Err(Call::Tasks);
            },
        };
        proof {
            self.asked@ = self.asked@.insert(CallView::Tasks);
            assert(self@ =~= old(self)@.ask(CallView::Tasks));
        }
        let ghost all = viewed(listed@);
        let mut unfulfilled: Vec<&str> = Vec::new();
        let mut i: usize = 0;
        assert(all.take(0) =~= Seq::<StoredTaskView>::empty());
        assert(slices(unfulfilled@) =~= Seq::<Text>::empty());
        while i < listed.len()
            invariant
                i <= listed.len(),
                all == viewed(listed@),
                slices(unfulfilled@) == unfulfilled_ids(all.take(i as int)),
            decreases listed.len() - i,
        {
            let ghost next = all.take(i + 1);
            let ghost before = unfulfilled@;
            assert(next.drop_last() =~= all.take(i as int));
            assert(next.last() == listed@[i as int]@);
            if listed[i].state != TaskState::Fulfilled {
                unfulfilled.push(listed[i].id.as_str());
                assert(slices(unfulfilled@) =~= slices(before).push(listed@[i as int]@.id));
            }
            i += 1;
        }
        assert(all.take(i as int) =~= all);
        try_timeout(self, &unfulfilled)?;
        let ghost timed = self@;
        let mut rows: Vec<StoredTask> = Vec::new();
        let mut i: usize = 0;
        while i < listed.len()
            invariant
                i <= listed.len(),
                rows.len() == i,
                self@ == timed,
                forall|j: int|
                    0 <= j < i ==> (#[trigger] rows@[j])@ == task_at(timed, listed@[j]@),
            decreases listed.len() - i,
        {
            let key = Key::Task(copied(&listed[i].id));
            let row = match self.writes.get(&key) {
                Some(Some(Row::Task(row))) => row.clone(),
                _ => listed[i].clone(),
            };
            rows.push(row);
            i += 1;
        }
        assert(viewed(rows@) =~= tasks_at(timed, all));
        Ok(rows)
    }

    /// Every schedule, in id order.
    pub fn schedules(&mut self) -> (r: Result<&'a Vec<ScheduleRecord>, Call>)
        requires
            old(self).wf(),
        ensures
            steps(*old(self), *final(self), r, |w: World| old(self)@.ask(CallView::Schedules)),
            r matches Ok(rows) ==> forall|w: World| #[trigger]
                old(self).facts.describe(w) ==> viewed(rows@) == w.all_schedules(),
    {
        match self.facts.schedules() {
            Some(rows) => {
                proof {
                    self.asked@ = self.asked@.insert(CallView::Schedules);
                }
                Ok(rows)
            },
            None => Err(Call::Schedules),
        }
    }

    /// Enqueue a job.
    fn enqueue(&mut self, job: Enqueue)
        requires
            old(self).wf(),
        ensures
            final(self).facts == old(self).facts,
            final(self).wf(),
            final(self)@ == old(self)@.enqueue(job@),
    {
        self.enqueues.push(job);
        assert(self@ =~= old(self)@.enqueue(job@));
    }

    /// Enqueue an unblock message for the listener at `address`.
    pub fn send_unblock(&mut self, address: &str, promise: &PromiseRecord)
        requires
            old(self).wf(),
        ensures
            final(self).facts == old(self).facts,
            final(self).wf(),
            final(self)@ == old(self)@.send_unblock(address@, promise@),
    {
        self.enqueue(
            Enqueue {
                queue: copied(address),
                payload: Payload::Unblock(promise.clone()),
                job: None,
                run_at: None,
            },
        );
    }

    /// Enqueue the dispatch of `task` on its target's queue, at `run_at` when
    /// given, and write the task with the new job's id.
    pub fn dispatch(&mut self, task: &mut StoredTask, run_at: Option<i64>) -> (r: Result<(), Call>)
        requires
            old(self).wf(),
        ensures
            steps(
                *old(self),
                *final(self),
                r,
                |w: World| old(self)@.dispatch(w, old(task)@, run_at),
            ),
            r is Ok ==> final(task)@.job is Some,
            r is Ok ==> forall|w: World| #[trigger]
                old(self).facts.describe(w) ==> final(task)@ == old(self)@.with_job(w, old(task)@),
    {
        let job = match self.facts.job_id(self.jobs) {
            Some(job) => job,
            None => {
                return Err(Call::JobId(self.jobs));
            },
        };
        proof {
            self.asked@ = self.asked@.insert(CallView::JobId(self.jobs));
        }
        self.jobs = self.jobs.wrapping_add(1);
        task.job = Some(copied(&job));
        self.put_task(task);
        let run_at = match run_at {
            Some(time) => Some(non_negative(time)),
            None => None,
        };
        self.enqueue(
            Enqueue {
                queue: copied(&task.target),
                payload: Payload::Execute(copied(&task.id)),
                job: Some(job),
                run_at,
            },
        );
        Ok(())
    }

    /// Schedule `timer` to fire at epoch millisecond `time`.
    pub fn schedule_timer(&mut self, timer: Timer, time: i64)
        requires
            old(self).wf(),
        ensures
            final(self).facts == old(self).facts,
            final(self).wf(),
            final(self)@ == old(self)@.schedule_timer(timer@, time),
    {
        self.enqueue(
            Enqueue {
                queue: copied(TIMER_QUEUE),
                payload: Payload::Timer(timer),
                job: None,
                run_at: Some(non_negative(time)),
            },
        );
    }

    /// Drop the claim held for `task`.
    fn drop_claim(&mut self, task: &str) -> (r: Result<(), Call>)
        requires
            old(self).wf(),
        ensures
            steps(
                *old(self),
                *final(self),
                r,
                |w: World| old(self)@.turned(CallView::Drop(task@, old(self)@.turn)),
            ),
    {
        if !self.facts.dropped(self.turn) {
            return Err(Call::Drop(copied(task), self.turn));
        }
        proof {
            self.asked@ = self.asked@.insert(CallView::Drop(task@, self.turn));
        }
        self.turn = self.turn.wrapping_add(1);
        Ok(())
    }

    /// Whether the claim of `task`'s job is held with a live lease. A held
    /// claim whose lease ended is dropped: its job is pending again, or is
    /// requeued.
    pub fn holds(&mut self, task: &str) -> (r: Result<bool, Call>)
        requires
            old(self).wf(),
        ensures
            steps(*old(self), *final(self), r, |w: World| old(self)@.after_holds(w, task@)),
            r matches Ok(held) ==> forall|w: World| #[trigger]
                old(self).facts.describe(w) ==> held == old(self)@.holds(w),
    {
        let lease = match self.facts.lease(self.turn) {
            Some(lease) => lease,
            None => {
                return Err(Call::Lease(copied(task), self.turn));
            },
        };
        proof {
            self.asked@ = self.asked@.insert(CallView::Lease(task@, self.turn));
        }
        self.turn = self.turn.wrapping_add(1);
        match lease {
            Lease::NotHeld => Ok(false),
            Lease::Held(expiry) => {
                if live(expiry, self.now) {
                    Ok(true)
                } else {
                    self.drop_claim(task)?;
                    Ok(false)
                }
            },
        }
    }

    /// Renew the lease of `task`'s held claim to `lease`. Returns whether the
    /// claim is held with a live lease and renewed.
    pub fn renew(&mut self, task: &str, lease: Duration) -> (r: Result<bool, Call>)
        requires
            old(self).wf(),
        ensures
            steps(*old(self), *final(self), r, |w: World| old(self)@.renew(w, task@, lease)),
            r matches Ok(renewed) ==> forall|w: World| #[trigger]
                old(self).facts.describe(w) ==> renewed == old(self)@.renews(w, task@),
    {
        if !self.holds(task)? {
            return Ok(false);
        }
        let renewed = match self.facts.renewed(self.turn) {
            Some(renewed) => renewed,
            None => {
                return Err(Call::Renew(copied(task), lease, self.turn));
            },
        };
        proof {
            self.asked@ = self.asked@.insert(CallView::Renew(task@, lease, self.turn));
        }
        self.turn = self.turn.wrapping_add(1);
        if !renewed {
            self.drop_claim(task)?;
        }
        Ok(renewed)
    }

    /// Claim `job` by id for `task` and hold the claim. Returns whether the job
    /// was claimed.
    pub fn claim_job(&mut self, task: &str, job: &str, lease: Duration) -> (r: Result<bool, Call>)
        requires
            old(self).wf(),
        ensures
            steps(*old(self), *final(self), r, |w: World| old(self)@.claim_job(task@, job@, lease)),
            r matches Ok(claimed) ==> forall|w: World| #[trigger]
                old(self).facts.describe(w) ==> claimed == (w.claims)(old(self)@.turn),
    {
        match self.facts.claimed(self.turn) {
            Some(claimed) => {
                proof {
                    self.asked@ = self.asked@.insert(
                        CallView::Claim(task@, job@, lease, self.turn),
                    );
                }
                self.turn = self.turn.wrapping_add(1);
                Ok(claimed)
            },
            None => Err(Call::Claim(copied(task), copied(job), lease, self.turn)),
        }
    }

    /// Whether the job `id` exists in any state.
    pub fn job_exists(&mut self, id: &str) -> (r: Result<bool, Call>)
        requires
            old(self).wf(),
        ensures
            steps(*old(self), *final(self), r, |w: World| old(self)@.ask(CallView::Job(id@))),
            r matches Ok(exists) ==> forall|w: World| #[trigger]
                old(self).facts.describe(w) ==> exists == w.jobs.contains(id@),
    {
        match self.facts.job(id) {
            Some(exists) => {
                proof {
                    self.asked@ = self.asked@.insert(CallView::Job(id@));
                }
                Ok(exists)
            },
            None => Err(Call::Job(copied(id))),
        }
    }

    /// Acknowledge the delivered claim after the commit.
    pub fn ack_after_commit(&mut self)
        requires
            old(self).wf(),
        ensures
            final(self).facts == old(self).facts,
            final(self).wf(),
            final(self)@ == old(self)@.later(AfterView::Ack),
    {
        self.after.push(After::Ack);
        assert(self@ =~= old(self)@.later(AfterView::Ack));
    }

    /// Hold the delivered claim for `task` after the commit.
    pub fn hold_after_commit(&mut self, task: &str)
        requires
            old(self).wf(),
        ensures
            final(self).facts == old(self).facts,
            final(self).wf(),
            final(self)@ == old(self)@.later(AfterView::Hold(task@)),
    {
        self.after.push(After::Hold(copied(task)));
        assert(self@ =~= old(self)@.later(AfterView::Hold(task@)));
    }

    /// Acknowledge the held claim of `task`, if any, after the commit.
    pub fn release(&mut self, task: &str)
        requires
            old(self).wf(),
        ensures
            final(self).facts == old(self).facts,
            final(self).wf(),
            final(self)@ == old(self)@.later(AfterView::Release(task@)),
    {
        self.after.push(After::Release(copied(task)));
        assert(self@ =~= old(self)@.later(AfterView::Release(task@)));
    }

    /// Fail the held claim of `task`, if any, after the commit.
    pub fn nack_after_commit(&mut self, task: &str)
        requires
            old(self).wf(),
        ensures
            final(self).facts == old(self).facts,
            final(self).wf(),
            final(self)@ == old(self)@.later(AfterView::Nack(task@)),
    {
        self.after.push(After::Nack(copied(task)));
        assert(self@ =~= old(self)@.later(AfterView::Nack(task@)));
    }

    /// Claim `task`'s job by id after the commit and hold the claim. A job that
    /// is not claimable stays where the commit put it.
    pub fn claim_after_commit(&mut self, task: &StoredTask, lease: Duration)
        requires
            old(self).wf(),
            task@.job is Some,
        ensures
            final(self).facts == old(self).facts,
            final(self).wf(),
            final(self)@ == old(self)@.later(AfterView::Claim(task@.id, task@.job->0, lease)),
    {
        if let Some(job) = &task.job {
            self.after.push(After::Claim(copied(&task.id), copied(job), lease));
        }
        assert(self@ =~= old(self)@.later(AfterView::Claim(task@.id, task@.job->0, lease)));
    }

    /// The committed ids under `prefix`, other than `own`: as many as the
    /// preload limit decides on.
    fn scan(&mut self, prefix: &Vec<u8>, own: &str) -> (r: Result<IdSet, Call>)
        requires
            old(self).wf(),
        ensures
            steps(
                *old(self),
                *final(self),
                r,
                |w: World|
                    after_scan(w, old(self)@, prefix@, own@, old(self)@.preload_limit, SCAN_PAGE),
            ),
            final(self).writes == old(self).writes,
            r matches Ok(ids) ==> forall|w: World| #[trigger]
                old(self).facts.describe(w) ==> ids@ == scan(
                    w,
                    prefix@,
                    own@,
                    old(self)@.preload_limit,
                    SCAN_PAGE,
                ),
    {
        let limit: usize = self.preload_limit;
        let mut count: usize = SCAN_PAGE;
        let ghost t = self@;
        loop
            invariant
                self.wf(),
                self.facts == old(self).facts,
                self.writes == old(self).writes,
                self.preload_limit == limit,
                limit == t.preload_limit,
                t == old(self)@,
                forall|w: World| #[trigger]
                    self.facts.describe(w) ==> after_scan(w, t, prefix@, own@, limit, SCAN_PAGE)
                        == after_scan(w, self@, prefix@, own@, limit, count) && scan(
                        w,
                        prefix@,
                        own@,
                        limit,
                        SCAN_PAGE,
                    ) == scan(w, prefix@, own@, limit, count),
            decreases usize::MAX - count,
        {
            let ghost before = self@;
            let keys = match self.facts.branch(prefix, count) {
                Some(keys) => keys,
                None => {
                    proof {
                        assert forall|w: World| #[trigger] self.facts.describe(w) implies after_scan(
                            w,
                            t,
                            prefix@,
                            own@,
                            limit,
                            SCAN_PAGE,
                        ).asked.contains(CallView::Branch(prefix@, count)) by {
                            let read = before.ask(CallView::Branch(prefix@, count));
                            if count <= usize::MAX - SCAN_PAGE {
                                after_scan_grows(
                                    w,
                                    read,
                                    prefix@,
                                    own@,
                                    limit,
                                    (count + SCAN_PAGE) as usize,
                                    CallView::Branch(prefix@, count),
                                );
                            }
                        }
                    }
                    return Err(Call::Branch(copied_bytes(prefix), count));
                },
            };
            proof {
                self.asked@ = self.asked@.insert(CallView::Branch(prefix@, count));
                assert(self@ =~= before.ask(CallView::Branch(prefix@, count)));
            }
            let ids = collect_ids(keys, prefix, own, limit);
            if ids.len() > limit || keys.len() < count || count > usize::MAX - SCAN_PAGE {
                return Ok(ids);
            }
            count += SCAN_PAGE;
        }
    }

    /// The promises that share `promise`'s branch, other than the promise
    /// itself, in id order and at most `preload_limit` of them, once their
    /// deadlines are applied. A promise indexed by this request is among them.
    pub fn preload(&mut self, promise: &PromiseRecord) -> (r: Result<Vec<PromiseRecord>, Call>)
        requires
            old(self).wf(),
        ensures
            steps(
                *old(self),
                *final(self),
                r,
                |w: World| after_preload(w, old(self)@, promise@),
            ),
            r matches Ok(records) ==> forall|w: World| #[trigger]
                old(self).facts.describe(w) ==> viewed(records@) == preloaded(
                    w,
                    old(self)@,
                    promise@,
                ),
    {
        let mut records: Vec<PromiseRecord> = Vec::new();
        let branch = match promise.tags.get(TAG_BRANCH) {
            Some(branch) => branch,
            None => {
                assert(viewed(records@) =~= Seq::<PromiseView>::empty());
                return Ok(records);
            },
        };
        let ghost t = self@;
        let prefix = branch_prefix(branch);
        let limit: usize = self.preload_limit;
        let scanned = self.scan(&prefix, &promise.id);
        let mut ids = match scanned {
            Ok(ids) => ids,
            Err(call) => {
                proof {
                    assert forall|w: World| #[trigger] old(self).facts.describe(w) implies after_preload(
                        w,
                        t,
                        promise@,
                    ).asked.contains(call@) by {
                        let mid = after_scan(w, t, prefix@, promise@.id, limit, SCAN_PAGE);
                        let ids = siblings(w, t, promise@, branch@);
                        all_timed_out_grows(w, mid, ids, call@);
                        read_all_grows(all_timed_out(w, mid, ids), ids, call@);
                    }
                }
                return Err(call);
            },
        };
        let ghost mid = self@;
        let ghost committed = ids@;
        let writes = self.writes.entries();
        let ghost all = t.indexed(prefix@).remove(promise@.id);
        let mut i: usize = 0;
        let ghost mut seen: Set<Text> = Set::empty();
        while i < writes.len()
            invariant
                i <= writes.len(),
                prefix@ == branch_prefix_of(branch@),
                write_keys(writes@).no_duplicates(),
                ids@ == committed.union(seen),
                forall|id: Text| #[trigger]
                    seen.contains(id) <==> id != promise@.id && exists|j: int|
                        0 <= j < i && (#[trigger] writes@[j]).1 is Some && entry_of(
                            prefix@,
                            writes@[j].0@.bytes(),
                        ) == Some(id),
            decreases writes.len() - i,
        {
            let ghost seen_before = seen;
            let ghost ids_before = ids@;
            if writes[i].1.is_some() {
                let key = writes[i].0.bytes();
                if let Some(id) = branch_entry_id(prefix.as_slice(), key.as_slice()) {
                    if !text_eq(id, &promise.id) {
                        ids.insert(copied(id));
                        proof {
                            seen = seen.insert(id@);
                            assert(ids@ =~= committed.union(seen));
                        }
                    }
                }
            }
            proof {
                assert forall|id: Text| #[trigger]
                    seen.contains(id) <==> id != promise@.id && exists|j: int|
                        0 <= j < i + 1 && (#[trigger] writes@[j]).1 is Some && entry_of(
                            prefix@,
                            writes@[j].0@.bytes(),
                        ) == Some(id) by {
                    if seen_before.contains(id) {
                        let j = choose|j: int|
                            0 <= j < i && (#[trigger] writes@[j]).1 is Some && entry_of(
                                prefix@,
                                writes@[j].0@.bytes(),
                            ) == Some(id);
                        assert(0 <= j < i + 1 && writes@[j].1 is Some);
                    } else if seen.contains(id) {
                        assert(0 <= i < i + 1 && writes@[i as int].1 is Some);
                    }
                }
            }
            i += 1;
        }
        proof {
            assert forall|id: Text| #[trigger] all.contains(id) <==> seen.contains(id) by {
                if all.contains(id) {
                    let key = choose|key: KeyView| #[trigger]
                        t.writes.contains_key(key) && t.writes[key] is Some && entry_of(
                            prefix@,
                            key.bytes(),
                        ) == Some(id);
                    let j = write_keys(writes@).index_of(key);
                    assert(write_keys(writes@)[j] == key);
                    assert(writes@[j].1 is Some);
                }
                if seen.contains(id) {
                    let j = choose|j: int|
                        0 <= j < i && (#[trigger] writes@[j]).1 is Some && entry_of(
                            prefix@,
                            writes@[j].0@.bytes(),
                        ) == Some(id);
                    let key = write_keys(writes@)[j];
                    assert(write_keys(writes@).index_of(key) == j);
                    assert(t.writes.contains_key(key) && t.writes[key] is Some);
                }
            }
            assert(all =~= seen);
        }
        let sorted = ids.ids();
        proof {
            in_order_is(ids@, texts(sorted@));
        }
        let n: usize = if sorted.len() <= limit {
            sorted.len()
        } else {
            limit
        };
        let ghost chosen = first(texts(sorted@), limit);
        assert(chosen =~= texts(sorted@).take(n as int));
        assert(forall|w: World| #[trigger]
            self.facts.describe(w) ==> siblings(w, t, promise@, branch@) == chosen);
        let mut named: Vec<&str> = Vec::new();
        let mut m: usize = 0;
        while m < n
            invariant
                m <= n <= sorted.len(),
                named.len() == m,
                forall|j: int| 0 <= j < m ==> (#[trigger] named@[j])@ == sorted@[j]@,
            decreases n - m,
        {
            named.push(sorted[m].as_str());
            m += 1;
        }
        assert(slices(named@) =~= chosen);
        let timed = try_timeout(self, &named);
        if let Err(call) = timed {
            proof {
                assert forall|w: World| #[trigger] old(self).facts.describe(w) implies after_preload(
                    w,
                    t,
                    promise@,
                ).asked.contains(call@) by {
                    read_all_grows(all_timed_out(w, mid, chosen), chosen, call@);
                }
            }
            return Err(call);
        }
        let ghost past = self@;
        let mut k: usize = 0;
        assert(chosen.take(0) =~= Seq::<Text>::empty());
        assert(viewed(records@) =~= Seq::<PromiseView>::empty());
        while k < n
            invariant
                k <= n <= sorted.len(),
                chosen == texts(sorted@).take(n as int),
                self.wf(),
                self.facts == old(self).facts,
                t == old(self)@,
                forall|w: World| #[trigger]
                    self.facts.describe(w) ==> past == all_timed_out(w, mid, chosen) && self@ == read_all(
                        past,
                        chosen.take(k as int),
                    ),
                promise@.tags.contains_key(TAG_BRANCH@),
                branch@ == promise@.tags[TAG_BRANCH@],
                limit == t.preload_limit,
                prefix@ == branch_prefix_of(branch@),
                forall|w: World| #[trigger]
                    self.facts.describe(w) ==> siblings(w, t, promise@, branch@) == chosen
                        && mid == after_scan(w, t, prefix@, promise@.id, limit, SCAN_PAGE),
                forall|w: World| #[trigger]
                    self.facts.describe(w) ==> viewed(records@) == records_of(
                        w,
                        past,
                        chosen.take(k as int),
                    ),
            decreases n - k,
        {
            let ghost here = self@;
            let ghost next = chosen.take(k + 1);
            proof {
                assert(next.drop_last() =~= chosen.take(k as int));
                assert(next.last() == sorted@[k as int]@);
                read_all_keeps(past, chosen.take(k as int));
            }
            let found = self.get_promise(&sorted[k]);
            match found {
                Ok(row) => {
                    if let Some(sibling) = row {
                        let ghost before = records@;
                        records.push(sibling.record);
                        assert(viewed(records@) =~= viewed(before).push(sibling@.record));
                    }
                },
                Err(call) => {
                    proof {
                        assert forall|w: World| #[trigger] old(self).facts.describe(w) implies after_preload(
                            w,
                            t,
                            promise@,
                        ).asked.contains(call@) by {
                            assert(read_all(past, next).asked.contains(call@));
                            read_all_prefix(past, chosen, k + 1, call@);
                        }
                    }
                    return Err(call);
                },
            }
            k += 1;
        }
        assert(chosen.take(n as int) =~= chosen);
        Ok(records)
    }
}

} // verus!
