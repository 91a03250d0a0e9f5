use chrono::{Datelike, NaiveDate, TimeZone, Utc};
use shalombot::puzzle_time::{
    puzzle_date_from_datetime, FIRST_LOCAL_SECS, puzzle_date_from_local, puzzle_period, weekday_of_day, Weekday,
};

fn days(y: i32, m: u32, d: u32) -> i32 {
    NaiveDate::from_ymd_opt(y, m, d).unwrap().num_days_from_ce()
}

fn unix(y: i32, m: u32, d: u32, h: u32, min: u32) -> i64 {
    Utc.with_ymd_and_hms(y, m, d, h, min, 0).unwrap().timestamp()
}

#[test]
fn weekdays_match_calendar() {
    assert_eq!(weekday_of_day(1), Weekday::Mon);
    assert_eq!(weekday_of_day(days(2024, 1, 1)), Weekday::Mon);
    assert_eq!(weekday_of_day(days(2024, 1, 6)), Weekday::Sat);
    assert_eq!(weekday_of_day(days(2024, 1, 7)), Weekday::Sun);
    assert_eq!(weekday_of_day(days(1969, 7, 20)), Weekday::Sun);
    assert_eq!(weekday_of_day(0), Weekday::Sun);
    assert_eq!(weekday_of_day(-6), Weekday::Mon);
    for d in -400..400 {
        let date = NaiveDate::from_num_days_from_ce_opt(d + 738_000).unwrap();
        let expected = date.weekday().num_days_from_monday();
        let got = weekday_of_day(d + 738_000);
        let index = [
            Weekday::Mon,
            Weekday::Tue,
            Weekday::Wed,
            Weekday::Thu,
            Weekday::Fri,
            Weekday::Sat,
            Weekday::Sun,
        ]
        .iter()
        .position(|w| *w == got)
        .unwrap() as u32;
        assert_eq!(index, expected);
    }
}

#[test]
fn cutoff_hours() {
    assert_eq!(Weekday::Mon.cutoff_hour(), 22);
    assert_eq!(Weekday::Fri.cutoff_hour(), 22);
    assert_eq!(Weekday::Sat.cutoff_hour(), 18);
    assert_eq!(Weekday::Sun.cutoff_hour(), 18);
}

#[test]
fn puzzle_date_switches_at_cutoff() {
    let monday = days(2024, 1, 1);
    assert_eq!(puzzle_date_from_local(monday, 21), monday);
    assert_eq!(puzzle_date_from_local(monday, 22), monday + 1);
    let saturday = days(2024, 1, 6);
    assert_eq!(puzzle_date_from_local(saturday, 17), saturday);
    assert_eq!(puzzle_date_from_local(saturday, 18), saturday + 1);
}

#[test]
fn puzzle_date_of_utc_moment() {
    // 2024-01-01 21:59 in New York (UTC-5) is 02:59 UTC the next day.
    assert_eq!(puzzle_date_from_datetime(unix(2024, 1, 2, 2, 59)), Some(days(2024, 1, 1)));
    assert_eq!(puzzle_date_from_datetime(unix(2024, 1, 2, 3, 0)), Some(days(2024, 1, 2)));
    // In summer New York is UTC-4: Saturday 2024-07-06 18:00 there is 22:00 UTC.
    assert_eq!(puzzle_date_from_datetime(unix(2024, 7, 6, 21, 59)), Some(days(2024, 7, 6)));
    assert_eq!(puzzle_date_from_datetime(unix(2024, 7, 6, 22, 0)), Some(days(2024, 7, 7)));
    assert_eq!(puzzle_date_from_datetime(i64::MAX), None);
}

#[test]
fn puzzle_period_runs_between_cutoffs() {
    assert_eq!(
        puzzle_period(days(2024, 1, 2)),
        Some((unix(2024, 1, 2, 3, 0), unix(2024, 1, 3, 3, 0)))
    );
    assert_eq!(
        puzzle_period(days(2024, 1, 7)),
        Some((unix(2024, 1, 6, 23, 0), unix(2024, 1, 7, 23, 0)))
    );
    assert_eq!(puzzle_period(i32::MAX), None);
}

#[test]
fn earliest_accepted_moment() {
    let second_day = NaiveDate::MIN.succ_opt().unwrap();
    assert_eq!(
        Utc.from_utc_datetime(&second_day.and_hms_opt(0, 0, 0).unwrap()).timestamp(),
        FIRST_LOCAL_SECS
    );
    let first = NaiveDate::MIN.num_days_from_ce();
    let date = puzzle_date_from_datetime(FIRST_LOCAL_SECS).unwrap();
    assert!(date == first || date == first + 1);
}
