//! Cron expressions of schedules. A five-field expression is read with a
//! seconds field of zero, a six-field expression includes the seconds field,
//! and every time is UTC.

use vstd::prelude::*;
use crate::text::{contains_char, ends_with};

verus! {

/// The first firing of a cron expression after an epoch millisecond, if the
/// expression parses and fires again.
pub uninterp spec fn cron_next(expression: Seq<char>, after: i64) -> Option<i64>;

/// The end of the calendar, 31 December 262142, in epoch milliseconds.
pub const CALENDAR_END: i64 = 8_210_266_876_799_999;

/// The start of the last day of the calendar.
pub const LAST_DAY: i64 = 8_210_266_790_400_000;

/// The start of the last seven days of the calendar.
pub const LAST_WEEK: i64 = 8_210_266_272_000_000;

/// The start of the last month of the calendar.
pub const LAST_MONTH: i64 = 8_210_264_198_400_000;

/// The start of the calendar, 1 January 262144 BCE, in epoch milliseconds.
pub const CALENDAR_START: i64 = -8_334_601_228_800_000;

/// The start of the second day of the calendar.
pub const SECOND_DAY: i64 = -8_334_601_142_400_000;

/// Whether an expression fires on every day: its last three fields, which are the
/// day, the month and the day of the week, are stars.
pub open spec fn is_daily(expression: Seq<char>) -> bool {
    " * * *"@.is_suffix_of(expression)
}

/// The start of the last days of the calendar on which a search for an
/// expression may look at a date beyond it: the rest of the month for the nth
/// weekday, a week on for the last weekday, and the next day otherwise.
pub open spec fn last_days(expression: Seq<char>) -> i64 {
    if expression.contains('#') {
        LAST_MONTH
    } else if expression.contains('l') || expression.contains('L') {
        LAST_WEEK
    } else {
        LAST_DAY
    }
}

/// Whether a search for an expression can start after `after`. It starts one
/// second later. On the first and in the last days of the calendar it may end in
/// a panic, unless the expression fires on every day; outside the calendar
/// nothing is found.
pub open spec fn searchable(expression: Seq<char>, after: i64) -> bool {
    is_daily(expression) || !(CALENDAR_START <= after && after + 1000 < SECOND_DAY) && !(last_days(
        expression,
    ) <= after + 1000 <= CALENDAR_END)
}

/// Whether a search for an expression can start after `after`.
pub fn is_searchable(expression: &str, after: i64) -> (r: bool)
    ensures
        r == searchable(expression@, after),
{
    let last: i64 = if contains_char(expression, '#') {
        LAST_MONTH
    } else if contains_char(expression, 'l') || contains_char(expression, 'L') {
        LAST_WEEK
    } else {
        LAST_DAY
    };
    ends_with(expression, " * * *") || !(CALENDAR_START <= after && after < SECOND_DAY - 1000) && !(
    last - 1000 <= after && after <= CALENDAR_END - 1000)
}

/// `croner::Cron::find_next_occurrence`, exclusive of its start, on the
/// expression that `croner::Cron::parse` reads with an optional seconds field,
/// from the UTC time that `chrono` gives the millisecond. The search starts one
/// second after `after` and only moves forward, to the first second whose fields
/// all match, so what it finds is later, and a search from any time up to it
/// finds the same.
///
/// Where the day of the month does not match, the search looks at the days
/// before and after the one it has come to, and past the first or the last day
/// of the calendar it panics. For an expression with `#` it counts the weekdays
/// of the month to its end, and for one with `L` it looks a week ahead. It does
/// none of this where every day matches, and from the year 5000 on it does not
/// leave the day it starts on.
#[verifier::external_body]
fn find_next(expression: &str, after: i64) -> (r: Option<i64>)
    requires
        searchable(expression@, after),
    ensures
        r == cron_next(expression@, after),
        r matches Some(next) ==> next > after && forall|from: i64|
            after <= from < next && searchable(expression@, from) ==> #[trigger] cron_next(
                expression@,
                from,
            ) == r,
{
    let cron = croner::Cron::new(expression).with_seconds_optional().parse().ok()?;
    let from = chrono::DateTime::<chrono::Utc>::from_timestamp_millis(after)?;
    cron.find_next_occurrence(&from, false).ok().map(|next| next.timestamp_millis())
}

/// The first firing time strictly after epoch millisecond `after`, or `None`
/// when the expression does not parse or does not fire again.
pub fn next_after(expression: &str, after: i64) -> (r: Option<i64>)
    requires
        searchable(expression@, after),
    ensures
        r == cron_next(expression@, after),
        r matches Some(next) ==> next > after && forall|from: i64|
            after <= from < next && searchable(expression@, from) ==> #[trigger] cron_next(
                expression@,
                from,
            ) == r,
{
    find_next(expression, after)
}

} // verus!
