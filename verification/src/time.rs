//! Durations and leases.

use std::time::Duration;
use vstd::prelude::*;

verus! {

/// The duration of a number of milliseconds.
pub uninterp spec fn millis(ms: u64) -> Duration;

/// `std::time::Duration::from_millis`: the duration of `ms` milliseconds.
#[verifier::external_body]
pub(crate) fn duration_of(ms: u64) -> (r: Duration)
    ensures
        r == millis(ms),
{
    Duration::from_millis(ms)
}

/// A number of milliseconds, where a negative one counts as none.
pub open spec fn at_least_zero(ms: i64) -> u64 {
    if ms < 0 {
        0
    } else {
        ms as u64
    }
}

/// A number of milliseconds, where a negative one counts as none.
pub fn non_negative(ms: i64) -> (r: u64)
    ensures
        r == at_least_zero(ms),
{
    if ms < 0 {
        0
    } else {
        ms as u64
    }
}

/// The lease of a task with a `ttl` of milliseconds.
pub fn lease_of(ttl: i64) -> (r: Duration)
    ensures
        r == millis(at_least_zero(ttl)),
{
    duration_of(non_negative(ttl))
}

/// An epoch millisecond of the queue's clock as a signed number, capped at
/// the largest one.
pub open spec fn capped(ms: u64) -> i64 {
    if ms > i64::MAX {
        i64::MAX
    } else {
        ms as i64
    }
}

/// An epoch millisecond of the queue's clock as a signed number, capped at
/// the largest one.
pub fn epoch_millis(ms: u64) -> (r: i64)
    ensures
        r == capped(ms),
{
    if ms > i64::MAX as u64 {
        i64::MAX
    } else {
        ms as i64
    }
}

/// Whether a lease that expires at `expiry`, if it exists, is live at `now`.
pub open spec fn is_live(expiry: Option<u64>, now: i64) -> bool {
    expiry is Some && capped(expiry->0) > now
}

/// Whether a claim's lease is live at `now`: the queue's registry knows it
/// and it expires later.
pub fn live(expiry: Option<u64>, now: i64) -> (r: bool)
    ensures
        r == is_live(expiry, now),
{
    match expiry {
        Some(expiry) => epoch_millis(expiry) > now,
        None => false,
    }
}

/// The time `ms` milliseconds after `time`, within the range of `i64`.
pub open spec fn saturated(time: i64, ms: i64) -> i64 {
    if time + ms > i64::MAX {
        i64::MAX
    } else if time + ms < i64::MIN {
        i64::MIN
    } else {
        (time + ms) as i64
    }
}

/// The time `ms` milliseconds after `time`, within the range of `i64`.
pub fn later_by(time: i64, ms: i64) -> (r: i64)
    ensures
        r == saturated(time, ms),
{
    if ms >= 0 {
        if time > i64::MAX - ms {
            i64::MAX
        } else {
            time + ms
        }
    } else if time < i64::MIN - ms {
        i64::MIN
    } else {
        time + ms
    }
}

} // verus!
