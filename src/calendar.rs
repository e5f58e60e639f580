//! Proleptic Gregorian calendar arithmetic, with chrono doing the conversions.
use chrono::{NaiveDate, NaiveTime};
use vstd::prelude::*;

verus! {

/// Seconds in one day.
pub const SECONDS_PER_DAY: i64 = 86400;

pub open spec fn is_leap_year(y: int) -> bool {
    (y % 4 == 0 && y % 100 != 0) || y % 400 == 0
}

pub open spec fn year_length(y: int) -> int {
    if is_leap_year(y) { 366 } else { 365 }
}

/// Leap days in the years 1 ..= y.
pub open spec fn leap_days_through(y: int) -> int {
    y / 4 - y / 100 + y / 400
}

/// Days from 1970-01-01 to the first of January of year `y` (for `y >= 1`).
pub open spec fn days_before_year(y: int) -> int {
    365 * (y - 1970) + leap_days_through(y - 1) - leap_days_through(1969)
}

pub open spec fn month_length(y: int, m: int) -> int {
    if m == 2 {
        if is_leap_year(y) { 29 } else { 28 }
    } else if m == 4 || m == 6 || m == 9 || m == 11 {
        30
    } else {
        31
    }
}

/// Days in the months of year `y` before month `m`.
pub open spec fn days_before_month(y: int, m: int) -> int
    decreases m,
{
    if m <= 1 { 0 } else { days_before_month(y, m - 1) + month_length(y, m - 1) }
}

/// The years that this library reads from its inputs.
pub open spec fn supported_year(y: int) -> bool {
    0 <= y <= 9999
}

/// Seconds since 1970 UTC at the start of an hour of a calendar day, where the
/// day and the hour exist.
pub open spec fn civil_seconds(y: int, m: int, d: int, h: int) -> Option<int> {
    if 1 <= m <= 12 && 1 <= d <= month_length(y, m) && 0 <= h < 24 {
        Some(SECONDS_PER_DAY * (days_before_year(y) + days_before_month(y, m) + d - 1) + 3600 * h)
    } else {
        None
    }
}

pub proof fn lemma_days_before_month_bounds(y: int, m: int)
    requires
        1 <= m <= 12,
    ensures
        0 <= days_before_month(y, m) <= 31 * (m - 1),
    decreases m,
{
    if m > 1 {
        lemma_days_before_month_bounds(y, m - 1);
    }
}

pub proof fn lemma_days_before_year_bounds(y: int)
    requires
        supported_year(y),
    ensures
        -800000 <= days_before_year(y) <= 3000000,
{
}

/// Relies on chrono's `NaiveDate::from_yo_opt`, `and_time` and
/// `DateTime::timestamp`: midnight UTC of day `ordinal` of `year`, in seconds
/// since 1970, and `None` where that day does not exist.
#[verifier::external_body]
pub(crate) fn ordinal_midnight(year: i32, ordinal: u32) -> (r: Option<i64>)
    requires
        supported_year(year as int),
    ensures
        r == (if 1 <= ordinal <= year_length(year as int) {
            Some((SECONDS_PER_DAY * (days_before_year(year as int) + ordinal - 1)) as i64)
        } else {
            None
        }),
{
    match NaiveDate::from_yo_opt(year, ordinal) {
        Some(d) => Some(d.and_time(NaiveTime::MIN).and_utc().timestamp()),
        None => None,
    }
}

/// Relies on chrono's `NaiveDate::from_ymd_opt`, `and_hms_opt` and
/// `DateTime::timestamp`: the start of hour `hour` of a calendar day, in seconds
/// since 1970 UTC, and `None` where that day or hour does not exist.
#[verifier::external_body]
pub(crate) fn civil_hour(year: i32, month: u32, day: u32, hour: u32) -> (r: Option<i64>)
    requires
        supported_year(year as int),
    ensures
        r == (match civil_seconds(year as int, month as int, day as int, hour as int) {
            Some(v) => Some(v as i64),
            None => None,
        }),
{
    match NaiveDate::from_ymd_opt(year, month, day) {
        Some(d) => match d.and_hms_opt(hour, 0, 0) {
            Some(t) => Some(t.and_utc().timestamp()),
            None => None,
        },
        None => None,
    }
}

} // verus!
