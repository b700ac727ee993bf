//! Instants and days as plain integers, with the calendar of `chrono` behind them.
//!
//! An instant is a count of microseconds and a day a count of days, both from the start of
//! 1 January 1970 in the local time of the timetable. `chrono` covers the days from `MIN_DAY`
//! to `MAX_DAY`; every instant of such a day has an integer here.

use chrono::{DateTime, NaiveDate, TimeDelta, Timelike};
use vstd::prelude::*;

verus! {

/// Microseconds in a second.
pub const SECOND: i64 = 1_000_000;

/// Microseconds in a minute.
pub const MINUTE: i64 = 60_000_000;

/// Microseconds in an hour.
pub const HOUR: i64 = 3_600_000_000;

/// Microseconds in a day.
pub const DAY: i64 = 86_400_000_000;

/// The first day of the calendar, 1 January of the year -262143.
pub const MIN_DAY: i32 = -96_465_292;

/// The last day of the calendar, 31 December of the year 262142.
pub const MAX_DAY: i32 = 95_026_236;

/// The day is one of the calendar.
pub open spec fn in_calendar(day: int) -> bool {
    MIN_DAY <= day <= MAX_DAY
}

/// The day on which an instant lies.
pub open spec fn day_of(t: int) -> int {
    t / DAY as int
}

/// The hour of the day, from 0 to 23, in which an instant lies.
pub open spec fn hour_of(t: int) -> int {
    (t % DAY as int) / HOUR as int
}

/// The instant lies on a day of the calendar.
pub open spec fn is_instant(t: int) -> bool {
    MIN_DAY * DAY <= t < (MAX_DAY + 1) * DAY
}

/// Any number of minutes that fits an `i16` can be taken from the instant within the calendar.
pub open spec fn has_room_before(t: int) -> bool {
    MIN_DAY * DAY + 32_768 * MINUTE <= t
}

/// Any number of minutes that fits an `i16` can be added to the instant within the calendar, or
/// taken from it.
pub open spec fn has_room(t: int) -> bool {
    has_room_before(t) && t < (MAX_DAY + 1) * DAY - 32_767 * MINUTE
}

/// The instant `minutes` after `t`.
pub open spec fn after_minutes(t: int, minutes: int) -> int {
    t + minutes * MINUTE
}

/// The day after `day`, or `day` itself where it is the last of the calendar.
pub open spec fn day_after(day: int) -> int {
    if day == MAX_DAY {
        day
    } else {
        day + 1
    }
}

/// Calls `NaiveDateTime::checked_add_signed` with a whole number of minutes: the exact sum, or
/// `None` where it lies outside the calendar.
#[verifier::external_body]
pub(crate) fn checked_add_minutes(date_time: i64, minutes: i16) -> (r: Option<i64>)
    requires
        is_instant(date_time as int),
    ensures
        r == if is_instant(after_minutes(date_time as int, minutes as int)) {
            Some(after_minutes(date_time as int, minutes as int) as i64)
        } else {
            None
        },
{
    let start = DateTime::from_timestamp_micros(date_time).unwrap().naive_utc();
    let sum = start.checked_add_signed(TimeDelta::minutes(minutes.into()));
    sum.map(|t| t.and_utc().timestamp_micros())
}

/// Calls `NaiveDateTime::date`: the day on which the instant lies.
#[verifier::external_body]
pub(crate) fn date(date_time: i64) -> (r: i32)
    requires
        is_instant(date_time as int),
    ensures
        r == day_of(date_time as int),
{
    DateTime::from_timestamp_micros(date_time).unwrap().naive_utc().date().to_epoch_days()
}

/// Calls `Timelike::hour` on the time of day of the instant: the hour from 0 to 23.
#[verifier::external_body]
pub(crate) fn hour(date_time: i64) -> (r: u32)
    requires
        is_instant(date_time as int),
    ensures
        r == hour_of(date_time as int),
{
    DateTime::from_timestamp_micros(date_time).unwrap().naive_utc().time().hour()
}

/// Calls `NaiveDate::succ_opt`: the following day, or `None` on the last day of the calendar.
#[verifier::external_body]
pub(crate) fn succ_opt(day: i32) -> (r: Option<i32>)
    requires
        in_calendar(day as int),
    ensures
        r == if day == MAX_DAY { None::<i32> } else { Some((day + 1) as i32) },
{
    NaiveDate::from_epoch_days(day).unwrap().succ_opt().map(|d| d.to_epoch_days())
}

/// The instant `minutes` after `date_time`.
pub fn add_minutes_to_date_time(date_time: i64, minutes: i16) -> (r: i64)
    requires
        is_instant(date_time as int),
        is_instant(after_minutes(date_time as int, minutes as int)),
    ensures
        r == after_minutes(date_time as int, minutes as int),
{
    checked_add_minutes(date_time, minutes).unwrap()
}

} // verus!
