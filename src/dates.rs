//! Timestamps as Unix seconds, calendar days as day numbers since 1970-01-01.

use vstd::prelude::*;

verus! {

/// Seconds in one calendar day.
pub const SECONDS_PER_DAY: i64 = 86400;

/// The first second that chrono dates: January 1 of the year -262143, UTC.
pub const MIN_LABELLED_TIMESTAMP: i64 = -8_334_601_228_800;

/// The last second that chrono dates: December 31 of the year 262142,
/// 23:59:59 UTC.
pub const MAX_LABELLED_TIMESTAMP: i64 = 8_210_266_876_799;

/// The UTC calendar day of a timestamp (floor division, also before 1970).
pub open spec fn day_of(ts: int) -> int {
    ts / 86400
}

/// The last second (23:59:59) of a calendar day.
pub open spec fn end_of_day(day: int) -> int {
    day * 86400 + 86399
}

pub open spec fn labelled(ts: int) -> bool {
    MIN_LABELLED_TIMESTAMP <= ts <= MAX_LABELLED_TIMESTAMP
}

/// The `YYYY-MM-DD` label of the UTC date of a timestamp.
pub uninterp spec fn date_label(ts: int) -> Seq<char>;

/// The calendar day of a timestamp.
pub fn day_of_timestamp(ts: i64) -> (day: i64)
    ensures
        day == day_of(ts as int),
{
    ts.checked_div_euclid(SECONDS_PER_DAY).unwrap()
}

/// Relies on chrono's `DateTime::from_timestamp`, which is `Some` for every
/// timestamp in the labelled range (the days of chrono's `NaiveDate::MIN`
/// to `NaiveDate::MAX`), and on its `%Y-%m-%d` formatting, whose
/// text depends on the timestamp alone.
#[verifier::external_body]
pub(crate) fn format_date(ts: i64) -> (label: String)
    requires
        labelled(ts as int),
    ensures
        label@ == date_label(ts as int),
{
    chrono::DateTime::from_timestamp(ts, 0).unwrap().format("%Y-%m-%d").to_string()
}

} // verus!
