use vstd::prelude::*;

use chrono::{Datelike, NaiveDate, TimeZone, Timelike};

verus! {

/// A day of the week.
#[derive(PartialEq, Eq, Structural, Debug, Clone, Copy)]
pub enum Weekday {
    Mon,
    Tue,
    Wed,
    Thu,
    Fri,
    Sat,
    Sun,
}

/// The hour of the day (New York time) at which the next day's puzzle comes out.
pub open spec fn cutoff_spec(day: Weekday) -> u32 {
    match day {
        Weekday::Sat | Weekday::Sun => 18,
        _ => 22,
    }
}

/// The weekday of day `days`, counted from 1 for January 1 of year 1 (a Monday) in the
/// proleptic Gregorian calendar.
pub open spec fn weekday_spec(days: int) -> Weekday {
    let k = (days - 1) % 7;
    if k == 0 {
        Weekday::Mon
    } else if k == 1 {
        Weekday::Tue
    } else if k == 2 {
        Weekday::Wed
    } else if k == 3 {
        Weekday::Thu
    } else if k == 4 {
        Weekday::Fri
    } else if k == 5 {
        Weekday::Sat
    } else {
        Weekday::Sun
    }
}

/// The puzzle date of a moment whose New York local time is day `days` at hour `hour`: that
/// day before the cutoff hour, the next day from it on.
pub open spec fn puzzle_date_spec(days: int, hour: int) -> int {
    if hour < cutoff_spec(weekday_spec(days)) {
        days
    } else {
        days + 1
    }
}

/// The New York local day (counted from 1 for January 1 of year 1) and hour of the moment
/// `unix_secs` seconds after the Unix epoch, if that moment can be represented.
pub uninterp spec fn new_york_local(unix_secs: i64) -> Option<(i32, u32)>;

/// The Unix time of the first moment at which New York local time reads day `days`, hour
/// `hour`, minute and second zero, if there is one.
pub uninterp spec fn new_york_instant(days: i32, hour: u32) -> Option<i64>;

/// The Unix time of the start (UTC) of the day after chrono's earliest date,
/// `NaiveDate::MIN`. From it on, New York's local date is representable as well; on the
/// first day it may fall before the earliest date, where chrono's `date_naive` panics.
pub const FIRST_LOCAL_SECS: i64 = -8_334_601_142_400;

/// Relies on chrono's `DateTime::from_timestamp` and `with_timezone` into chrono-tz's
/// `America::New_York`, read back through `Datelike::num_days_from_ce` and `Timelike::hour`.
#[verifier::external_body]
fn local_time_in_new_york(unix_secs: i64) -> (r: Option<(i32, u32)>)
    requires
        unix_secs >= FIRST_LOCAL_SECS,
    ensures
        r == new_york_local(unix_secs),
{
    let utc = chrono::DateTime::from_timestamp(unix_secs, 0)?;
    let local = utc.with_timezone(&chrono_tz::America::New_York);
    Some((local.date_naive().num_days_from_ce(), local.hour()))
}

/// Relies on chrono-tz's `America::New_York` through chrono's `TimeZone::from_local_datetime`
/// and `LocalResult::earliest`, on a date from `NaiveDate::from_num_days_from_ce_opt` at the
/// time from `and_hms_opt`, read back through `DateTime::timestamp`.
#[verifier::external_body]
fn instant_in_new_york(days: i32, hour: u32) -> (r: Option<i64>)
    ensures
        r == new_york_instant(days, hour),
{
    let local = NaiveDate::from_num_days_from_ce_opt(days)?.and_hms_opt(hour, 0, 0)?;
    let zoned = chrono_tz::America::New_York.from_local_datetime(&local).earliest()?;
    Some(zoned.timestamp())
}

impl Weekday {
    /// The hour of the day (New York time) at which the next day's puzzle comes out: 22 on
    /// weekdays, 18 on Saturday and Sunday.
    pub fn cutoff_hour(&self) -> (r: u32)
        ensures
            r == cutoff_spec(*self),
    {
        match self {
            Weekday::Sat | Weekday::Sun => 18,
            _ => 22,
        }
    }
}

/// The weekday of day `days`, counted from 1 for January 1 of year 1.
pub fn weekday_of_day(days: i32) -> (r: Weekday)
    ensures
        r == weekday_spec(days as int),
{
    let d: i64 = days as i64 - 1 + 7 * 400_000_000;
    let k: i64 = d % 7;
    assert(k == (days - 1) % 7) by (nonlinear_arith)
        requires
            d == days - 1 + 7 * 400_000_000,
            d >= 0,
            k == d % 7,
    ;
    if k == 0 {
        Weekday::Mon
    } else if k == 1 {
        Weekday::Tue
    } else if k == 2 {
        Weekday::Wed
    } else if k == 3 {
        Weekday::Thu
    } else if k == 4 {
        Weekday::Fri
    } else if k == 5 {
        Weekday::Sat
    } else {
        Weekday::Sun
    }
}

/// The puzzle date of a moment whose New York local time is day `days` at hour `hour`.
pub fn puzzle_date_from_local(days: i32, hour: u32) -> (r: i32)
    requires
        days < i32::MAX,
    ensures
        r == puzzle_date_spec(days as int, hour as int),
{
    if hour < weekday_of_day(days).cutoff_hour() {
        days
    } else {
        days + 1
    }
}

/// The puzzle date (a day counted from 1 for January 1 of year 1) of the moment `unix_secs`
/// seconds after the Unix epoch, or `None` where that moment or its next day cannot be
/// represented. Moments of chrono's earliest day are left out.
pub fn puzzle_date_from_datetime(unix_secs: i64) -> (r: Option<i32>)
    requires
        unix_secs >= FIRST_LOCAL_SECS,
    ensures
        r == (match new_york_local(unix_secs) {
            Some(t) => if t.0 < i32::MAX {
                Some(puzzle_date_spec(t.0 as int, t.1 as int) as i32)
            } else {
                None
            },
            None => None,
        }),
{
    match local_time_in_new_york(unix_secs) {
        Some((days, hour)) => {
            if days < i32::MAX {
                Some(puzzle_date_from_local(days, hour))
            } else {
                None
            }
        },
        None => None,
    }
}

/// The Unix times at which the puzzle of day `date` comes out and is replaced: the cutoff
/// hour of the day before, and that of `date`, New York time. `None` where one of them
/// cannot be represented.
pub fn puzzle_period(date: i32) -> (r: Option<(i64, i64)>)
    requires
        date > i32::MIN,
    ensures
        r == (match (
            new_york_instant(
                (date - 1) as i32,
                cutoff_spec(weekday_spec(date - 1)),
            ),
            new_york_instant(date, cutoff_spec(weekday_spec(date as int))),
        ) {
            (Some(start), Some(end)) => Some((start, end)),
            _ => None,
        }),
{
    let prev = date - 1;
    let start = instant_in_new_york(prev, weekday_of_day(prev).cutoff_hour());
    let end = instant_in_new_york(date, weekday_of_day(date).cutoff_hour());
    match (start, end) {
        (Some(s), Some(e)) => Some((s, e)),
        _ => None,
    }
}

} // verus!
