//! How a request ends.

use vstd::prelude::*;
use crate::calls::{Call, World};
use crate::envelope::{Reply, ReplyView};
use crate::records::Text;
use crate::txn::{Txn, TxnView};

verus! {

/// How a request ends.
#[derive(Debug, PartialEq, Eq)]
pub enum Outcome {
    /// Reply, and commit nothing.
    Reply(Reply),
    /// Commit the request's effects, then reply.
    Commit(Reply),
    /// Commit the request's effects in the transaction that acknowledges the
    /// held claim of a task, then reply.
    Settle(Reply, String),
    /// The task of this id has no promise, which the store never holds.
    Orphan(String),
}

/// How a request ends, in contracts.
pub enum OutcomeView {
    Reply(ReplyView),
    Commit(ReplyView),
    Settle(ReplyView, Text),
    Orphan(Text),
}

impl View for Outcome {
    type V = OutcomeView;

    open spec fn view(&self) -> OutcomeView {
        match self {
            Outcome::Reply(reply) => OutcomeView::Reply(reply@),
            Outcome::Commit(reply) => OutcomeView::Commit(reply@),
            Outcome::Settle(reply, task) => OutcomeView::Settle(reply@, task@),
            Outcome::Orphan(task) => OutcomeView::Orphan(task@),
        }
    }
}

/// What a request leaves: where it ends, it stands and ends as `run` says for
/// every queue the facts are true of, and every call it depends on has been
/// made; where it stops at a call, the call is one it depends on and its answer
/// is not known.
pub open spec fn ends(
    before: Txn,
    after: Txn,
    r: Result<Outcome, Call>,
    run: spec_fn(World) -> (TxnView, OutcomeView),
) -> bool {
    &&& after.facts == before.facts
    &&& match r {
        Ok(_) => after.wf(),
        Err(call) => !before.facts.answer(call@),
    }
    &&& forall|w: World| #[trigger]
        before.facts.describe(w) ==> match r {
            Ok(outcome) => (after@, outcome@) == run(w),
            Err(call) => run(w).0.asked.contains(call@),
        }
}

/// The end of a request that commits, then replies with an error.
pub open spec fn failed(status: u16, message: Text) -> OutcomeView {
    OutcomeView::Commit(ReplyView::Error(status, message))
}

/// Commit, then reply with an error.
pub fn fail(status: u16, message: &str) -> (r: Outcome)
    ensures
        r@ == failed(status, message@),
{
    Outcome::Commit(Reply::err(status, message))
}

/// The end of a request that is refused before it reads anything.
pub open spec fn rejected(status: u16, message: Text) -> OutcomeView {
    OutcomeView::Reply(ReplyView::Error(status, message))
}

/// Reply with an error, and commit nothing.
pub fn reject(status: u16, message: &str) -> (r: Outcome)
    ensures
        r@ == rejected(status, message@),
{
    Outcome::Reply(Reply::err(status, message))
}

} // verus!
