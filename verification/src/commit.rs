//! The end of a request: its effects, committed as one transaction, and the
//! work on claims that follows the commit.

use std::time::Duration;
use vstd::prelude::*;
use crate::envelope::{viewed, Reply, ReplyView};
use crate::keys::{Key, KeyView};
use crate::records::Text;
use crate::txn::{
    write_keys, write_map, After, AfterView, Enqueue, EnqueueView, Row, RowView, Txn, TxnView,
};

verus! {

/// The keys of a sequence of records.
pub open spec fn row_keys(rows: Seq<(Key, Row)>) -> Seq<KeyView> {
    Seq::new(rows.len(), |i: int| rows[i].0@)
}

/// The map that a sequence of records with different keys spells.
pub open spec fn row_map(rows: Seq<(Key, Row)>) -> Map<KeyView, RowView> {
    Map::new(
        |k: KeyView| row_keys(rows).contains(k),
        |k: KeyView| rows[row_keys(rows).index_of(k)].1@,
    )
}

/// What a request commits in one transaction.
#[derive(Debug, PartialEq, Eq)]
pub struct Effects {
    /// The jobs to enqueue, in order.
    pub enqueues: Vec<Enqueue>,
    /// The records to write, each under a key of its own.
    pub puts: Vec<(Key, Row)>,
    /// The keys to delete.
    pub deletes: Vec<Key>,
}

/// What a request commits, in contracts.
#[verifier::ext_equal]
pub struct EffectsView {
    pub enqueues: Seq<EnqueueView>,
    pub puts: Map<KeyView, RowView>,
    pub deletes: Set<KeyView>,
}

impl View for Effects {
    type V = EffectsView;

    open spec fn view(&self) -> EffectsView {
        EffectsView {
            enqueues: viewed(self.enqueues@),
            puts: row_map(self.puts@),
            deletes: viewed(self.deletes@).to_set(),
        }
    }
}

impl TxnView {
    /// What the request commits: its jobs, the records it wrote and the keys it
    /// deleted.
    pub open spec fn effects(self) -> EffectsView {
        EffectsView {
            enqueues: self.enqueues,
            puts: Map::new(
                |k: KeyView| self.writes.contains_key(k) && self.writes[k] is Some,
                |k: KeyView| self.writes[k]->0,
            ),
            deletes: Set::new(
                |k: KeyView| self.writes.contains_key(k) && self.writes[k] is None,
            ),
        }
    }

    /// Whether the request has anything to commit.
    pub open spec fn has_effects(self) -> bool {
        self.enqueues.len() > 0 || self.writes != Map::<KeyView, Option<RowView>>::empty()
    }
}

/// The end of a request without a held claim to acknowledge: one transaction,
/// where there is anything to commit, then the work that follows.
#[derive(Debug, PartialEq, Eq)]
pub struct Commit {
    /// What is committed.
    pub effects: Option<Effects>,
    /// The work that follows the commit, in order.
    pub after: Vec<After>,
}

/// Split writes into the records to write and the keys to delete.
fn split(entries: Vec<(Key, Option<Row>)>) -> (r: (Vec<(Key, Row)>, Vec<Key>))
    requires
        write_keys(entries@).no_duplicates(),
    ensures
        row_keys(r.0@).no_duplicates(),
        row_map(r.0@) == Map::new(
            |k: KeyView| write_map(entries@).contains_key(k) && write_map(entries@)[k] is Some,
            |k: KeyView| write_map(entries@)[k]->0,
        ),
        viewed(r.1@).to_set() == Set::new(
            |k: KeyView| write_map(entries@).contains_key(k) && write_map(entries@)[k] is None,
        ),
{
    let ghost all = entries@;
    let mut rest = entries;
    let mut puts: Vec<(Key, Row)> = Vec::new();
    let mut deletes: Vec<Key> = Vec::new();
    let ghost mut put_from: Seq<int> = Seq::empty();
    let ghost mut del_from: Seq<int> = Seq::empty();
    assert(all.take(all.len() as int) =~= all);
    while rest.len() > 0
        invariant
            rest.len() <= all.len(),
            rest@ == all.take(rest.len() as int),
            put_from.len() == puts.len(),
            del_from.len() == deletes.len(),
            forall|i: int|
                0 <= i < puts.len() ==> rest.len() <= #[trigger] put_from[i] < all.len()
                    && all[put_from[i]].1 is Some && puts@[i].0@ == all[put_from[i]].0@
                    && puts@[i].1@ == all[put_from[i]].1->0@,
            forall|i: int|
                0 <= i < deletes.len() ==> rest.len() <= #[trigger] del_from[i] < all.len()
                    && all[del_from[i]].1 is None && deletes@[i]@ == all[del_from[i]].0@,
            forall|i: int, j: int|
                0 <= i < j < puts.len() ==> #[trigger] put_from[i] > #[trigger] put_from[j],
            forall|j: int|
                rest.len() <= j < all.len() ==> if (#[trigger] all[j]).1 is Some {
                    put_from.contains(j)
                } else {
                    del_from.contains(j)
                },
        decreases rest.len(),
    {
        let ghost n = rest.len() - 1;
        let ghost puts_before = put_from;
        let ghost dels_before = del_from;
        let last = rest.pop();
        assert(rest@ =~= all.take(n));
        if let Some((key, row)) = last {
            match row {
                Some(row) => {
                    puts.push((key, row));
                    proof {
                        put_from = put_from.push(n);
                    }
                },
                None => {
                    deletes.push(key);
                    proof {
                        del_from = del_from.push(n);
                    }
                },
            }
        }
        proof {
            assert forall|j: int| n <= j < all.len() implies if (#[trigger] all[j]).1 is Some {
                put_from.contains(j)
            } else {
                del_from.contains(j)
            } by {
                if j == n {
                    if all[j].1 is Some {
                        assert(put_from[puts_before.len() as int] == n);
                    } else {
                        assert(del_from[dels_before.len() as int] == n);
                    }
                } else if all[j].1 is Some {
                    let i = puts_before.index_of(j);
                    assert(put_from[i] == j);
                } else {
                    let i = dels_before.index_of(j);
                    assert(del_from[i] == j);
                }
            }
        }
    }
    proof {
        let keys = write_keys(all);
        let rows = row_keys(puts@);
        assert forall|i: int, j: int| 0 <= i < rows.len() && 0 <= j < rows.len() && i != j implies rows[i]
            != rows[j] by {
            assert(keys[put_from[i]] == rows[i]);
            assert(keys[put_from[j]] == rows[j]);
        }
        let want = Map::new(
            |k: KeyView| write_map(all).contains_key(k) && write_map(all)[k] is Some,
            |k: KeyView| write_map(all)[k]->0,
        );
        assert forall|k: KeyView| #[trigger] row_map(puts@).contains_key(k) <==> want.contains_key(
            k,
        ) by {
            if rows.contains(k) {
                let i = rows.index_of(k);
                assert(keys[put_from[i]] == k);
                assert(keys.index_of(k) == put_from[i]);
            }
            if want.contains_key(k) {
                let j = keys.index_of(k);
                assert(all[j].1 is Some);
                let i = put_from.index_of(j);
                assert(put_from[i] == j);
                assert(rows[i] == k);
            }
        }
        assert forall|k: KeyView| row_map(puts@).contains_key(k) implies #[trigger] row_map(puts@)[k]
            == want[k] by {
            let i = rows.index_of(k);
            assert(keys[put_from[i]] == k);
            assert(keys.index_of(k) == put_from[i]);
        }
        assert(row_map(puts@) =~= want);
        let gone = Set::new(
            |k: KeyView| write_map(all).contains_key(k) && write_map(all)[k] is None,
        );
        let named = viewed(deletes@);
        assert forall|k: KeyView| #[trigger] named.to_set().contains(k) <==> gone.contains(k) by {
            if named.contains(k) {
                let i = named.index_of(k);
                assert(keys[del_from[i]] == k);
                assert(keys.index_of(k) == del_from[i]);
            }
            if gone.contains(k) {
                let j = keys.index_of(k);
                assert(!(all[j].1 is Some));
                let i = del_from.index_of(j);
                assert(del_from[i] == j);
                assert(named[i] == k);
            }
        }
        assert(named.to_set() =~= gone);
    }
    (puts, deletes)
}

impl<'a> Txn<'a> {
    /// The effects of the request and the work that follows their commit.
    fn effects(self) -> (r: (Effects, Vec<After>))
        ensures
            r.0@ == self@.effects(),
            viewed(r.1@) == self@.after,
            row_keys(r.0.puts@).no_duplicates(),
            (r.0.enqueues@.len() > 0 || r.0.puts@.len() > 0 || r.0.deletes@.len() > 0)
                == self@.has_effects(),
    {
        let ghost t = self@;
        let Txn { writes, enqueues, after, .. } = self;
        let (puts, deletes) = split(writes.into_entries());
        let effects = Effects { enqueues, puts, deletes };
        proof {
            assert(effects@ =~= t.effects());
            if puts@.len() == 0 && deletes@.len() == 0 {
                assert forall|k: KeyView| !(#[trigger] t.writes.contains_key(k)) by {
                    if t.writes.contains_key(k) {
                        if t.writes[k] is Some {
                            assert(effects@.puts.contains_key(k));
                        } else {
                            assert(effects@.deletes.contains(k));
                        }
                    }
                }
                assert(t.writes =~= Map::empty());
            } else if puts@.len() > 0 {
                assert(row_keys(puts@)[0] == puts@[0].0@);
                assert(effects@.puts.contains_key(puts@[0].0@));
                assert(t.writes.contains_key(puts@[0].0@));
            } else {
                assert(viewed(deletes@)[0] == deletes@[0]@);
                assert(effects@.deletes.contains(deletes@[0]@));
                assert(t.writes.contains_key(deletes@[0]@));
            }
        }
        (effects, after)
    }

    /// Commit every write, delete and enqueue as one transaction, then do the
    /// work that follows the commit. A request without effects does not commit.
    pub fn commit(self) -> (r: Commit)
        ensures
            r.effects is Some <==> self@.has_effects(),
            r.effects matches Some(effects) ==> effects@ == self@.effects() && row_keys(
                effects.puts@,
            ).no_duplicates(),
            viewed(r.after@) == self@.after,
    {
        let (effects, after) = self.effects();
        let any = effects.enqueues.len() > 0 || effects.puts.len() > 0 || effects.deletes.len() > 0;
        Commit {
            effects: if any {
                Some(effects)
            } else {
                None
            },
            after,
        }
    }

    /// Commit every write, delete and enqueue in the transaction that
    /// acknowledges a held claim, then do the work that follows the commit.
    pub fn commit_ack(self) -> (r: (Effects, Vec<After>))
        ensures
            r.0@ == self@.effects(),
            row_keys(r.0.puts@).no_duplicates(),
            viewed(r.1@) == self@.after,
    {
        self.effects()
    }
}

/// One action on the queue after the commit.
#[derive(Debug, PartialEq, Eq)]
pub enum Action {
    /// Acknowledge the delivered claim.
    AckDelivered,
    /// Hold the delivered claim for a task.
    HoldDelivered(String),
    /// Take the held claim of a task and acknowledge it.
    AckHeld(String),
    /// Take the held claim of a task and fail it.
    NackHeld(String),
    /// Claim a job by id and hold the claim, where it is claimable: the task,
    /// the job and the lease.
    Claim(String, String, Duration),
    /// Do nothing.
    Nothing,
}

/// One action on the queue after the commit, in contracts.
pub enum ActionView {
    AckDelivered,
    HoldDelivered(Text),
    AckHeld(Text),
    NackHeld(Text),
    Claim(Text, Text, Duration),
    Nothing,
}

impl View for Action {
    type V = ActionView;

    open spec fn view(&self) -> ActionView {
        match self {
            Action::AckDelivered => ActionView::AckDelivered,
            Action::HoldDelivered(task) => ActionView::HoldDelivered(task@),
            Action::AckHeld(task) => ActionView::AckHeld(task@),
            Action::NackHeld(task) => ActionView::NackHeld(task@),
            Action::Claim(task, job, lease) => ActionView::Claim(task@, job@, *lease),
            Action::Nothing => ActionView::Nothing,
        }
    }
}

/// The task whose held claim the work is about, if it is about one.
pub open spec fn claimant(work: AfterView) -> Option<Text> {
    match work {
        AfterView::Release(task) => Some(task),
        AfterView::Nack(task) => Some(task),
        _ => None,
    }
}

/// What is done for a piece of work, where `held` says whether the claim of
/// its task is held: a claim that is not held needs no settlement.
pub open spec fn action_for(work: AfterView, held: bool) -> ActionView {
    match work {
        AfterView::Ack => ActionView::AckDelivered,
        AfterView::Hold(task) => ActionView::HoldDelivered(task),
        AfterView::Release(task) => if held {
            ActionView::AckHeld(task)
        } else {
            ActionView::Nothing
        },
        AfterView::Nack(task) => if held {
            ActionView::NackHeld(task)
        } else {
            ActionView::Nothing
        },
        AfterView::Claim(task, job, lease) => ActionView::Claim(task, job, lease),
    }
}

impl After {
    /// The task whose held claim the work is about, if it is about one.
    pub fn claimant(&self) -> (r: Option<&str>)
        ensures
            r is Some <==> claimant(self@) is Some,
            r matches Some(task) ==> claimant(self@) == Some(task@),
    {
        match self {
            After::Release(task) => Some(task.as_str()),
            After::Nack(task) => Some(task.as_str()),
            After::Ack | After::Hold(_) | After::Claim(_, _, _) => None,
        }
    }
}

/// What is done for a piece of work, where `held` says whether the claim of its
/// task is held.
pub fn finish(work: After, held: bool) -> (r: Action)
    ensures
        r@ == action_for(work@, held),
{
    match work {
        After::Ack => Action::AckDelivered,
        After::Hold(task) => Action::HoldDelivered(task),
        After::Release(task) => if held {
            Action::AckHeld(task)
        } else {
            Action::Nothing
        },
        After::Nack(task) => if held {
            Action::NackHeld(task)
        } else {
            Action::Nothing
        },
        After::Claim(task, job, lease) => Action::Claim(task, job, lease),
    }
}

/// How the settlement of a claim ended.
#[derive(Debug, Clone, Copy, PartialEq, Eq, Structural)]
pub enum Settlement {
    /// The claim is settled.
    Done,
    /// The claim was lost: its lease ended, and the job was requeued.
    ClaimLost,
    /// The queue failed.
    Failed,
}

impl Settlement {
    /// Whether the work after a commit goes on. A claim whose lease ended was
    /// requeued already, so a settlement that reports it lost has had its
    /// effect.
    pub fn goes_on(self) -> (r: bool)
        ensures
            r == (self != Settlement::Failed),
    {
        self != Settlement::Failed
    }

    /// Whether the claim stays held after a commit that acknowledges it ended
    /// this way.
    pub fn keeps_claim(self) -> (r: bool)
        ensures
            r == (self == Settlement::Failed),
    {
        self == Settlement::Failed
    }

    /// The reply to a request whose commit acknowledges a held claim: its own,
    /// a version conflict where the claim was lost, and none where the queue
    /// failed.
    pub fn reply(self, reply: Reply) -> (r: Option<Reply>)
        ensures
            match self {
                Settlement::Done => r == Some(reply),
                Settlement::ClaimLost => r matches Some(refusal) && refusal@ == ReplyView::Error(
                    409,
                    "Task version mismatch or invalid state"@,
                ),
                Settlement::Failed => r is None,
            },
    {
        match self {
            Settlement::Done => Some(reply),
            Settlement::ClaimLost => Some(
                Reply::err(409, "Task version mismatch or invalid state"),
            ),
            Settlement::Failed => None,
        }
    }
}

} // verus!
