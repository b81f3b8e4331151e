//! The failures of a request and their replies.

use vstd::prelude::*;
use crate::envelope::{Reply, ReplyView};
use crate::records::Text;
use crate::text::concat;

verus! {

/// Errors of the store and the network.
#[derive(Debug, PartialEq, Eq)]
pub enum Error {
    /// The queue reported a failure.
    Storage(String),
    /// A stored record does not decode: the store was written by an
    /// incompatible version of this crate.
    Decode(String),
}

impl Error {
    /// The text of the error.
    pub open spec fn text(self) -> Text {
        match self {
            Error::Storage(e) => "storage error: "@ + e@,
            Error::Decode(e) => "stored record does not decode: "@ + e@,
        }
    }

    /// The text of the error.
    pub fn message(&self) -> (r: String)
        ensures
            r@ == self.text(),
    {
        match self {
            Error::Storage(e) => concat("storage error: ", e),
            Error::Decode(e) => concat("stored record does not decode: ", e),
        }
    }

    /// The reply to a request that ended with the error.
    pub fn reply(&self) -> (r: Reply)
        ensures
            r@ == ReplyView::Error(500, self.text()),
    {
        Reply::Error(500, self.message())
    }
}

} // verus!
