//! The instant at which a clip was recorded, from the date and the time in
//! its folder's name, read as UTC.

use vstd::prelude::*;
use chrono::{Datelike, NaiveDate, NaiveTime, Timelike};

verus! {

/// An instant on the UTC time line.
#[derive(Clone, Copy, Debug, PartialEq, Eq, Structural)]
pub struct UtcInstant {
    /// Whole seconds since 1970-01-01 00:00:00 UTC, leap seconds not
    /// counted; negative before that.
    pub secs: i64,
    /// Nanoseconds on top of the seconds; a thousand million or more within
    /// a leap second.
    pub nanos: u32,
}

/// The day that `chrono` reads from `date` with the format `%Y%m%d`, as the
/// number of the day in the proleptic Gregorian calendar, where 1 is the
/// first of January of the year 1; or that no day is read.
pub uninterp spec fn date_day_number(date: Seq<char>) -> Option<i32>;

/// The time of day that `chrono` reads from `time` with the format
/// `%H%M%S`, as the seconds since midnight and the nanoseconds on top of
/// them; or that no time is read.
pub uninterp spec fn time_of_day(time: Seq<char>) -> Option<(u32, u32)>;

/// The number of the first of January 1970.
pub const UNIX_EPOCH_DAY: i64 = 719_163;

/// Calls `chrono::NaiveDate::parse_from_str` with the format `%Y%m%d` and
/// hands the date on as its day number, `Datelike::num_days_from_ce`.
/// Trusted: the result is a function of the text alone.
#[verifier::external_body]
fn parse_date(date8: &str) -> (r: Option<i32>)
    ensures
        r == date_day_number(date8@),
{
    match NaiveDate::parse_from_str(date8, "%Y%m%d") {
        Ok(date) => Some(date.num_days_from_ce()),
        Err(_) => None,
    }
}

/// Calls `chrono::NaiveTime::parse_from_str` with the format `%H%M%S` and
/// hands the time on as `Timelike::num_seconds_from_midnight` and
/// `Timelike::nanosecond`. Trusted: the result is a function of the text
/// alone.
#[verifier::external_body]
fn parse_time(time6: &str) -> (r: Option<(u32, u32)>)
    ensures
        r == time_of_day(time6@),
{
    match NaiveTime::parse_from_str(time6, "%H%M%S") {
        Ok(time) => Some((time.num_seconds_from_midnight(), time.nanosecond())),
        Err(_) => None,
    }
}

/// The instant of a time of day on a day of the calendar, in UTC: a day has
/// 86 400 seconds.
pub open spec fn instant_of(day_number: i32, seconds: u32, nanos: u32) -> UtcInstant {
    UtcInstant { secs: ((day_number - UNIX_EPOCH_DAY) * 86_400 + seconds) as i64, nanos }
}

/// The instant that a date and a time stand for, read as UTC, where both
/// are read.
pub open spec fn start_instant(date: Seq<char>, time: Seq<char>) -> Option<UtcInstant> {
    match (date_day_number(date), time_of_day(time)) {
        (Some(day), Some(t)) => Some(instant_of(day, t.0, t.1)),
        _ => None,
    }
}

/// The instant of a time of day on a day of the calendar, in UTC.
pub fn instant_from_parts(day_number: i32, seconds: u32, nanos: u32) -> (r: UtcInstant)
    ensures
        r == instant_of(day_number, seconds, nanos),
{
    let days: i64 = day_number as i64 - UNIX_EPOCH_DAY;
    UtcInstant { secs: days * 86_400 + seconds as i64, nanos }
}

/// The instant at which a clip was recorded, from the date and the time of
/// its folder's name, read as UTC; `None` where `date8` is no date of the
/// calendar or `time6` no time of day.
pub fn clip_start_instant(date8: &str, time6: &str) -> (r: Option<UtcInstant>)
    ensures
        r == start_instant(date8@, time6@),
{
    let day = match parse_date(date8) {
        Some(day) => day,
        None => {
            return None;
        },
    };
    match parse_time(time6) {
        Some((seconds, nanos)) => Some(instant_from_parts(day, seconds, nanos)),
        None => None,
    }
}

/// What the times of a file are set to for an instant: the seconds and the
/// nanoseconds since the first of January 1970, and nothing for an instant
/// before that day.
pub open spec fn file_time_of(at: UtcInstant) -> Option<(u64, u32)> {
    if at.secs >= 0 {
        Some((at.secs as u64, at.nanos))
    } else {
        None
    }
}

/// What the times of a file are set to for an instant; `None` for an
/// instant before 1970, which the times of a file are not set to.
pub fn file_time(at: UtcInstant) -> (r: Option<(u64, u32)>)
    ensures
        r == file_time_of(at),
{
    if at.secs >= 0 {
        Some((at.secs as u64, at.nanos))
    } else {
        None
    }
}

} // verus!
