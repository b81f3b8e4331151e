//! What a request asks of the queue that holds the protocol's state: the
//! records it reads and the claims it works with.
//!
//! A request runs over the [`Facts`] that are known of the queue. Where it
//! needs one that is not known, it stops with the [`Call`] that gives it; the
//! caller makes the call, adds the [`Fact`] and runs the request again, which
//! takes the same way as far as it came. A [`World`] is everything the queue
//! would answer.

use std::time::Duration;
use vstd::prelude::*;
use crate::envelope::viewed;
use crate::keys::branch_key_of;
use crate::order::bytes_lt;
use crate::records::{
    ScheduleRecord, ScheduleView, StoredPromise, StoredPromiseView, StoredTask, StoredTaskView,
    Text,
};
use crate::text::{copied, text_eq};
use crate::txn::{first, in_order};

verus! {

/// One call of the queue.
#[derive(Debug, PartialEq, Eq)]
pub enum Call {
    /// Read the promise record of an id.
    Promise(String),
    /// Read the task record of an id.
    Task(String),
    /// Read the schedule record of an id.
    Schedule(String),
    /// List the first keys with a prefix, in key order, up to a count.
    Branch(Vec<u8>, usize),
    /// List every promise record, in id order.
    Promises,
    /// List every task record, in id order.
    Tasks,
    /// List every schedule record, in id order.
    Schedules,
    /// Look up whether a job exists in any state.
    Job(String),
    /// Draw the id of a new job; the number counts the ids a request draws.
    JobId(u64),
    /// Read the lease of the claim held for a task.
    Lease(String, u64),
    /// Renew the lease of the claim held for a task.
    Renew(String, Duration, u64),
    /// Claim a job by its id and hold the claim for a task.
    Claim(String, String, Duration, u64),
    /// Drop the claim held for a task.
    Drop(String, u64),
}

/// A call in contracts.
pub enum CallView {
    Promise(Text),
    Task(Text),
    Schedule(Text),
    Branch(Seq<u8>, usize),
    Promises,
    Tasks,
    Schedules,
    Job(Text),
    JobId(u64),
    Lease(Text, u64),
    Renew(Text, Duration, u64),
    Claim(Text, Text, Duration, u64),
    Drop(Text, u64),
}

impl View for Call {
    type V = CallView;

    open spec fn view(&self) -> CallView {
        match self {
            Call::Promise(id) => CallView::Promise(id@),
            Call::Task(id) => CallView::Task(id@),
            Call::Schedule(id) => CallView::Schedule(id@),
            Call::Branch(prefix, count) => CallView::Branch(prefix@, *count),
            Call::Promises => CallView::Promises,
            Call::Tasks => CallView::Tasks,
            Call::Schedules => CallView::Schedules,
            Call::Job(id) => CallView::Job(id@),
            Call::JobId(n) => CallView::JobId(*n),
            Call::Lease(task, turn) => CallView::Lease(task@, *turn),
            Call::Renew(task, lease, turn) => CallView::Renew(task@, *lease, *turn),
            Call::Claim(task, job, lease, turn) => CallView::Claim(task@, job@, *lease, *turn),
            Call::Drop(task, turn) => CallView::Drop(task@, *turn),
        }
    }
}

/// The claim held for a task.
#[derive(Debug, Clone, Copy, PartialEq, Eq, Structural)]
pub enum Lease {
    /// No claim is held.
    NotHeld,
    /// A claim is held, with the expiry of its lease where the queue knows one.
    Held(Option<u64>),
}

/// What one call gave.
#[derive(Debug, PartialEq, Eq)]
pub enum Fact {
    /// The promise record of an id, if there is one.
    Promise(String, Option<StoredPromise>),
    /// The task record of an id, if there is one.
    Task(String, Option<StoredTask>),
    /// The schedule record of an id, if there is one.
    Schedule(String, Option<ScheduleRecord>),
    /// The first keys with a prefix, in key order, up to a count.
    Branch(Vec<u8>, usize, Vec<Vec<u8>>),
    /// Every promise record, in id order.
    Promises(Vec<StoredPromise>),
    /// Every task record, in id order.
    Tasks(Vec<StoredTask>),
    /// Every schedule record, in id order.
    Schedules(Vec<ScheduleRecord>),
    /// Whether a job exists in any state.
    Job(String, bool),
    /// The id drawn for a new job.
    JobId(u64, String),
    /// The claim held for a task, as the call of this turn found it.
    Lease(u64, Lease),
    /// Whether the renewal of this turn succeeded.
    Renewed(u64, bool),
    /// Whether the claim of this turn succeeded.
    Claimed(u64, bool),
    /// The held claim was dropped at this turn.
    Dropped(u64),
}

/// Everything the queue would answer to a request: its records, the entries of
/// the branch index, each a branch and a promise's id, its jobs, and what the
/// claim calls of each turn give.
pub struct World {
    pub promises: Map<Text, StoredPromiseView>,
    pub tasks: Map<Text, StoredTaskView>,
    pub schedules: Map<Text, ScheduleView>,
    pub index: Set<(Text, Text)>,
    pub jobs: Set<Text>,
    pub job_ids: spec_fn(u64) -> Text,
    pub leases: spec_fn(u64) -> Lease,
    pub renewals: spec_fn(u64) -> bool,
    pub claims: spec_fn(u64) -> bool,
}

/// Whether byte strings ascend.
pub open spec fn bytes_ascending(keys: Seq<Seq<u8>>) -> bool {
    forall|i: int, j: int|
        #![trigger keys[i], keys[j]]
        0 <= i < j < keys.len() ==> bytes_lt(keys[i], keys[j])
}

/// The members of a finite set of keys, in order.
pub open spec fn in_key_order(keys: Set<Seq<u8>>) -> Seq<Seq<u8>> {
    choose|s: Seq<Seq<u8>>| bytes_ascending(s) && s.to_set() == keys
}

/// The records of a map, in id order.
pub open spec fn in_id_order<V>(records: Map<Text, V>) -> Seq<V> {
    let ids = in_order(records.dom());
    Seq::new(ids.len(), |i: int| records[ids[i]])
}

impl World {
    /// Whether `key` is that of an index entry.
    pub open spec fn has_key(self, key: Seq<u8>) -> bool {
        exists|branch: Text, id: Text| #[trigger]
            self.index.contains((branch, id)) && key == branch_key_of(branch, id)
    }

    /// The keys of the index entries that start with `prefix`.
    pub open spec fn keys_with(self, prefix: Seq<u8>) -> Set<Seq<u8>> {
        Set::new(|key: Seq<u8>| self.has_key(key) && prefix.is_prefix_of(key))
    }

    /// The first `count` keys of the index that start with `prefix`, in key
    /// order.
    pub open spec fn listing(self, prefix: Seq<u8>, count: usize) -> Seq<Seq<u8>> {
        first(in_key_order(self.keys_with(prefix)), count)
    }

    /// Every promise, in id order.
    pub open spec fn all_promises(self) -> Seq<StoredPromiseView> {
        in_id_order(self.promises)
    }

    /// Every task, in id order.
    pub open spec fn all_tasks(self) -> Seq<StoredTaskView> {
        in_id_order(self.tasks)
    }

    /// Every schedule, in id order.
    pub open spec fn all_schedules(self) -> Seq<ScheduleView> {
        in_id_order(self.schedules)
    }
}

/// The value of a key, if it has one.
pub open spec fn at<V>(m: Map<Text, V>, id: Text) -> Option<V> {
    if m.contains_key(id) {
        Some(m[id])
    } else {
        None
    }
}

/// The view of an optional record.
pub open spec fn view_opt<T: View>(o: Option<T>) -> Option<T::V> {
    match o {
        Some(v) => Some(v@),
        None => None,
    }
}

impl Fact {
    /// Whether the fact is true of `w`.
    pub open spec fn holds_in(self, w: World) -> bool {
        match self {
            Fact::Promise(id, row) => at(w.promises, id@) == view_opt(row),
            Fact::Task(id, row) => at(w.tasks, id@) == view_opt(row),
            Fact::Schedule(id, row) => at(w.schedules, id@) == view_opt(row),
            Fact::Branch(prefix, count, keys) => w.listing(prefix@, count) == viewed(keys@),
            Fact::Promises(rows) => w.all_promises() == viewed(rows@),
            Fact::Tasks(rows) => w.all_tasks() == viewed(rows@),
            Fact::Schedules(rows) => w.all_schedules() == viewed(rows@),
            Fact::Job(id, exists) => w.jobs.contains(id@) == exists,
            Fact::JobId(n, id) => (w.job_ids)(n) == id@,
            Fact::Lease(turn, lease) => (w.leases)(turn) == lease,
            Fact::Renewed(turn, renewed) => (w.renewals)(turn) == renewed,
            Fact::Claimed(turn, claimed) => (w.claims)(turn) == claimed,
            Fact::Dropped(turn) => true,
        }
    }

    /// Whether the fact is what `call` gives.
    pub open spec fn answers(self, call: CallView) -> bool {
        match (self, call) {
            (Fact::Promise(id, _), CallView::Promise(asked)) => id@ == asked,
            (Fact::Task(id, _), CallView::Task(asked)) => id@ == asked,
            (Fact::Schedule(id, _), CallView::Schedule(asked)) => id@ == asked,
            (Fact::Branch(prefix, count, _), CallView::Branch(p, n)) => prefix@ == p && count == n,
            (Fact::Promises(_), CallView::Promises) => true,
            (Fact::Tasks(_), CallView::Tasks) => true,
            (Fact::Schedules(_), CallView::Schedules) => true,
            (Fact::Job(id, _), CallView::Job(asked)) => id@ == asked,
            (Fact::JobId(n, _), CallView::JobId(asked)) => n == asked,
            (Fact::Lease(turn, _), CallView::Lease(_, asked)) => turn == asked,
            (Fact::Renewed(turn, _), CallView::Renew(_, _, asked)) => turn == asked,
            (Fact::Claimed(turn, _), CallView::Claim(_, _, _, asked)) => turn == asked,
            (Fact::Dropped(turn), CallView::Drop(_, asked)) => turn == asked,
            _ => false,
        }
    }
}

/// Whether two byte strings are equal.
fn bytes_eq(a: &Vec<u8>, b: &Vec<u8>) -> (r: bool)
    ensures
        r == (a@ == b@),
{
    if a.len() != b.len() {
        return false;
    }
    let mut i: usize = 0;
    while i < a.len()
        invariant
            i <= a.len(),
            a.len() == b.len(),
            forall|j: int| 0 <= j < i ==> a@[j] == b@[j],
        decreases a.len() - i,
    {
        if a[i] != b[i] {
            return false;
        }
        i += 1;
    }
    assert(a@ =~= b@);
    true
}

/// What is known of the queue.
#[derive(Debug, PartialEq, Eq)]
pub struct Facts {
    /// The facts, in the order they were learned.
    pub list: Vec<Fact>,
}

impl Facts {
    /// Whether every fact is true of `w`.
    pub open spec fn describe(self, w: World) -> bool {
        forall|i: int| 0 <= i < self.list@.len() ==> (#[trigger] self.list@[i]).holds_in(w)
    }

    /// Whether one of the facts is what `call` gives.
    pub open spec fn answer(self, call: CallView) -> bool {
        exists|i: int| 0 <= i < self.list@.len() && (#[trigger] self.list@[i]).answers(call)
    }

    /// Whether the first fact about the schedule of `id` is that it is `row`.
    pub open spec fn tells_schedule(self, id: Text, row: Option<ScheduleView>) -> bool {
        exists|i: int|
            0 <= i < self.list@.len() && (#[trigger] self.list@[i] matches Fact::Schedule(known, told)
                && known@ == id && view_opt(told) == row) && forall|j: int|
                0 <= j < i ==> !(#[trigger] self.list@[j]).answers(CallView::Schedule(id))
    }

    /// Nothing is known.
    pub fn new() -> (r: Self)
        ensures
            r.list@.len() == 0,
    {
        Facts { list: Vec::new() }
    }

    /// Learn `fact`.
    pub fn learn(&mut self, fact: Fact)
        ensures
            final(self).list@ == old(self).list@.push(fact),
    {
        self.list.push(fact);
    }

    /// The promise record of `id`, where it is known.
    pub fn promise(&self, id: &str) -> (r: Option<&Option<StoredPromise>>)
        ensures
            r matches Some(row) ==> forall|w: World|
                #[trigger] self.describe(w) ==> at(w.promises, id@) == view_opt(*row),
            r is Some <==> self.answer(CallView::Promise(id@)),
    {
        let mut i: usize = 0;
        while i < self.list.len()
            invariant
                i <= self.list.len(),
                forall|j: int|
                    0 <= j < i ==> !(#[trigger] self.list@[j]).answers(CallView::Promise(id@)),
            decreases self.list.len() - i,
        {
            if let Fact::Promise(known, row) = &self.list[i] {
                if text_eq(known, id) {
                    assert(self.list@[i as int].answers(CallView::Promise(id@)));
                    return Some(row);
                }
            }
            i += 1;
        }
        None
    }

    /// The task record of `id`, where it is known.
    pub fn task(&self, id: &str) -> (r: Option<&Option<StoredTask>>)
        ensures
            r matches Some(row) ==> forall|w: World|
                #[trigger] self.describe(w) ==> at(w.tasks, id@) == view_opt(*row),
            r is Some <==> self.answer(CallView::Task(id@)),
    {
        let mut i: usize = 0;
        while i < self.list.len()
            invariant
                i <= self.list.len(),
                forall|j: int|
                    0 <= j < i ==> !(#[trigger] self.list@[j]).answers(CallView::Task(id@)),
            decreases self.list.len() - i,
        {
            if let Fact::Task(known, row) = &self.list[i] {
                if text_eq(known, id) {
                    assert(self.list@[i as int].answers(CallView::Task(id@)));
                    return Some(row);
                }
            }
            i += 1;
        }
        None
    }

    /// The schedule record of `id`, where it is known.
    pub fn schedule(&self, id: &str) -> (r: Option<&Option<ScheduleRecord>>)
        ensures
            r matches Some(row) ==> forall|w: World|
                #[trigger] self.describe(w) ==> at(w.schedules, id@) == view_opt(*row),
            r is Some <==> self.answer(CallView::Schedule(id@)),
            forall|row: Option<ScheduleView>| #[trigger]
                self.tells_schedule(id@, row) <==> (r matches Some(told) && view_opt(*told) == row),
    {
        let mut i: usize = 0;
        while i < self.list.len()
            invariant
                i <= self.list.len(),
                forall|j: int|
                    0 <= j < i ==> !(#[trigger] self.list@[j]).answers(CallView::Schedule(id@)),
            decreases self.list.len() - i,
        {
            if let Fact::Schedule(known, row) = &self.list[i] {
                if text_eq(known, id) {
                    assert(self.list@[i as int].answers(CallView::Schedule(id@)));
                    assert forall|other: Option<ScheduleView>| #[trigger]
                        self.tells_schedule(id@, other) <==> view_opt(*row) == other by {
                        assert(self.list@[i as int] matches Fact::Schedule(known, told) && known@
                            == id@ && view_opt(told) == view_opt(*row));
                        if self.tells_schedule(id@, other) {
                            let k = choose|k: int|
                                0 <= k < self.list@.len() && (
                                #[trigger] self.list@[k] matches Fact::Schedule(known, told)
                                    && known@ == id@ && view_opt(told) == other) && forall|j: int|
                                    0 <= j < k ==> !(#[trigger] self.list@[j]).answers(
                                        CallView::Schedule(id@),
                                    );
                            assert(self.list@[k].answers(CallView::Schedule(id@)));
                            assert(k == i);
                        }
                    }
                    return Some(row);
                }
            }
            i += 1;
        }
        assert forall|row: Option<ScheduleView>| !(#[trigger] self.tells_schedule(id@, row)) by {
            if self.tells_schedule(id@, row) {
                let k = choose|k: int|
                    0 <= k < self.list@.len() && (#[trigger] self.list@[k] matches Fact::Schedule(
                        known,
                        told,
                    ) && known@ == id@ && view_opt(told) == row) && forall|j: int|
                        0 <= j < k ==> !(#[trigger] self.list@[j]).answers(CallView::Schedule(id@));
                assert(self.list@[k].answers(CallView::Schedule(id@)));
            }
        }
        None
    }

    /// The first `count` keys with `prefix`, where they are known.
    pub fn branch(&self, prefix: &Vec<u8>, count: usize) -> (r: Option<&Vec<Vec<u8>>>)
        ensures
            r matches Some(keys) ==> forall|w: World|
                #[trigger] self.describe(w) ==> w.listing(prefix@, count) == viewed(keys@),
            r is Some <==> self.answer(CallView::Branch(prefix@, count)),
    {
        let mut i: usize = 0;
        while i < self.list.len()
            invariant
                i <= self.list.len(),
                forall|j: int|
                    0 <= j < i ==> !(#[trigger] self.list@[j]).answers(
                        CallView::Branch(prefix@, count),
                    ),
            decreases self.list.len() - i,
        {
            if let Fact::Branch(known, n, keys) = &self.list[i] {
                if *n == count && bytes_eq(known, prefix) {
                    assert(self.list@[i as int].answers(CallView::Branch(prefix@, count)));
                    return Some(keys);
                }
            }
            i += 1;
        }
        None
    }

    /// Every promise record, where they are known.
    pub fn promises(&self) -> (r: Option<&Vec<StoredPromise>>)
        ensures
            r matches Some(rows) ==> forall|w: World|
                #[trigger] self.describe(w) ==> w.all_promises() == viewed(rows@),
            r is Some <==> self.answer(CallView::Promises),
    {
        let mut i: usize = 0;
        while i < self.list.len()
            invariant
                i <= self.list.len(),
                forall|j: int| 0 <= j < i ==> !(#[trigger] self.list@[j]).answers(CallView::Promises),
            decreases self.list.len() - i,
        {
            if let Fact::Promises(rows) = &self.list[i] {
                assert(self.list@[i as int].answers(CallView::Promises));
                return Some(rows);
            }
            i += 1;
        }
        None
    }

    /// Every task record, where they are known.
    pub fn tasks(&self) -> (r: Option<&Vec<StoredTask>>)
        ensures
            r matches Some(rows) ==> forall|w: World|
                #[trigger] self.describe(w) ==> w.all_tasks() == viewed(rows@),
            r is Some <==> self.answer(CallView::Tasks),
    {
        let mut i: usize = 0;
        while i < self.list.len()
            invariant
                i <= self.list.len(),
                forall|j: int| 0 <= j < i ==> !(#[trigger] self.list@[j]).answers(CallView::Tasks),
            decreases self.list.len() - i,
        {
            if let Fact::Tasks(rows) = &self.list[i] {
                assert(self.list@[i as int].answers(CallView::Tasks));
                return Some(rows);
            }
            i += 1;
        }
        None
    }

    /// Every schedule record, where they are known.
    pub fn schedules(&self) -> (r: Option<&Vec<ScheduleRecord>>)
        ensures
            r matches Some(rows) ==> forall|w: World|
                #[trigger] self.describe(w) ==> w.all_schedules() == viewed(rows@),
            r is Some <==> self.answer(CallView::Schedules),
    {
        let mut i: usize = 0;
        while i < self.list.len()
            invariant
                i <= self.list.len(),
                forall|j: int| 0 <= j < i ==> !(#[trigger] self.list@[j]).answers(CallView::Schedules),
            decreases self.list.len() - i,
        {
            if let Fact::Schedules(rows) = &self.list[i] {
                assert(self.list@[i as int].answers(CallView::Schedules));
                return Some(rows);
            }
            i += 1;
        }
        None
    }

    /// Whether the job `id` exists, where it is known.
    pub fn job(&self, id: &str) -> (r: Option<bool>)
        ensures
            r matches Some(exists) ==> forall|w: World|
                #[trigger] self.describe(w) ==> w.jobs.contains(id@) == exists,
            r is Some <==> self.answer(CallView::Job(id@)),
    {
        let mut i: usize = 0;
        while i < self.list.len()
            invariant
                i <= self.list.len(),
                forall|j: int| 0 <= j < i ==> !(#[trigger] self.list@[j]).answers(CallView::Job(id@)),
            decreases self.list.len() - i,
        {
            if let Fact::Job(known, exists) = &self.list[i] {
                if text_eq(known, id) {
                    assert(self.list@[i as int].answers(CallView::Job(id@)));
                    return Some(*exists);
                }
            }
            i += 1;
        }
        None
    }

    /// The job id of number `n`, where it is drawn.
    pub fn job_id(&self, n: u64) -> (r: Option<String>)
        ensures
            r matches Some(id) ==> forall|w: World|
                #[trigger] self.describe(w) ==> (w.job_ids)(n) == id@,
            r is Some <==> self.answer(CallView::JobId(n)),
    {
        let mut i: usize = 0;
        while i < self.list.len()
            invariant
                i <= self.list.len(),
                forall|j: int| 0 <= j < i ==> !(#[trigger] self.list@[j]).answers(CallView::JobId(n)),
            decreases self.list.len() - i,
        {
            if let Fact::JobId(known, id) = &self.list[i] {
                if *known == n {
                    assert(self.list@[i as int].answers(CallView::JobId(n)));
                    return Some(copied(id));
                }
            }
            i += 1;
        }
        None
    }

    /// What the lease call of `turn` found, where it was made.
    pub fn lease(&self, turn: u64) -> (r: Option<Lease>)
        ensures
            r matches Some(lease) ==> forall|w: World|
                #[trigger] self.describe(w) ==> (w.leases)(turn) == lease,
            forall|task: Text| r is Some <==> #[trigger] self.answer(CallView::Lease(task, turn)),
    {
        let mut i: usize = 0;
        while i < self.list.len()
            invariant
                i <= self.list.len(),
                forall|j: int, task: Text|
                    0 <= j < i ==> !(#[trigger] self.list@[j].answers(CallView::Lease(task, turn))),
            decreases self.list.len() - i,
        {
            if let Fact::Lease(known, lease) = &self.list[i] {
                if *known == turn {
                    assert(forall|task: Text|
                        #[trigger] self.list@[i as int].answers(CallView::Lease(task, turn)));
                    return Some(*lease);
                }
            }
            i += 1;
        }
        None
    }

    /// Whether the renewal of `turn` succeeded, where it was made.
    pub fn renewed(&self, turn: u64) -> (r: Option<bool>)
        ensures
            r matches Some(renewed) ==> forall|w: World|
                #[trigger] self.describe(w) ==> (w.renewals)(turn) == renewed,
            forall|task: Text, lease: Duration|
                r is Some <==> #[trigger] self.answer(CallView::Renew(task, lease, turn)),
    {
        let mut i: usize = 0;
        while i < self.list.len()
            invariant
                i <= self.list.len(),
                forall|j: int, task: Text, lease: Duration|
                    0 <= j < i ==> !(#[trigger] self.list@[j].answers(
                        CallView::Renew(task, lease, turn),
                    )),
            decreases self.list.len() - i,
        {
            if let Fact::Renewed(known, renewed) = &self.list[i] {
                if *known == turn {
                    assert(forall|task: Text, lease: Duration|
                        #[trigger] self.list@[i as int].answers(
                            CallView::Renew(task, lease, turn),
                        ));
                    return Some(*renewed);
                }
            }
            i += 1;
        }
        None
    }

    /// Whether the claim of `turn` succeeded, where it was made.
    pub fn claimed(&self, turn: u64) -> (r: Option<bool>)
        ensures
            r matches Some(claimed) ==> forall|w: World|
                #[trigger] self.describe(w) ==> (w.claims)(turn) == claimed,
            forall|task: Text, job: Text, lease: Duration|
                r is Some <==> #[trigger] self.answer(CallView::Claim(task, job, lease, turn)),
    {
        let mut i: usize = 0;
        while i < self.list.len()
            invariant
                i <= self.list.len(),
                forall|j: int, task: Text, job: Text, lease: Duration|
                    0 <= j < i ==> !(#[trigger] self.list@[j].answers(
                        CallView::Claim(task, job, lease, turn),
                    )),
            decreases self.list.len() - i,
        {
            if let Fact::Claimed(known, claimed) = &self.list[i] {
                if *known == turn {
                    assert(forall|task: Text, job: Text, lease: Duration|
                        #[trigger] self.list@[i as int].answers(
                            CallView::Claim(task, job, lease, turn),
                        ));
                    return Some(*claimed);
                }
            }
            i += 1;
        }
        None
    }

    /// Whether the drop of `turn` was made.
    pub fn dropped(&self, turn: u64) -> (r: bool)
        ensures
            forall|task: Text| r == #[trigger] self.answer(CallView::Drop(task, turn)),
    {
        let mut i: usize = 0;
        while i < self.list.len()
            invariant
                i <= self.list.len(),
                forall|j: int, task: Text|
                    0 <= j < i ==> !(#[trigger] self.list@[j].answers(CallView::Drop(task, turn))),
            decreases self.list.len() - i,
        {
            if let Fact::Dropped(known) = &self.list[i] {
                if *known == turn {
                    assert(forall|task: Text|
                        #[trigger] self.list@[i as int].answers(CallView::Drop(task, turn)));
                    return true;
                }
            }
            i += 1;
        }
        false
    }
}

} // verus!
