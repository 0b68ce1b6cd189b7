use chrono::{DateTime, NaiveDate, TimeZone, Utc};

use gw2_overlay::error::AppError;
use gw2_overlay::sync::wizardsvault::{daily_period_start, weekly_period_start};
use gw2_overlay::todos::{todo_input, todo_period_start};

fn utc(y: i32, m: u32, d: u32, h: u32, min: u32) -> DateTime<Utc> {
    Utc.with_ymd_and_hms(y, m, d, h, min, 0).unwrap()
}

fn nanos(t: DateTime<Utc>) -> i128 {
    t.timestamp_nanos_opt().unwrap() as i128
}

fn day(date: NaiveDate) -> i64 {
    (date - NaiveDate::from_ymd_opt(1970, 1, 1).unwrap()).num_days()
}

#[test]
fn daily_period_is_today_utc() {
    let now = utc(2026, 5, 24, 12, 0);
    assert_eq!(daily_period_start(nanos(now)), day(NaiveDate::from_ymd_opt(2026, 5, 24).unwrap()));
}

#[test]
fn weekly_period_on_wednesday_is_previous_monday() {
    // 2026-05-27 is a Wednesday
    let now = utc(2026, 5, 27, 12, 0);
    assert_eq!(weekly_period_start(nanos(now)), day(NaiveDate::from_ymd_opt(2026, 5, 25).unwrap()));
}

#[test]
fn weekly_period_on_monday_after_reset_is_today() {
    // 2026-05-25 Monday 08:00 UTC — after 07:30 reset
    let now = utc(2026, 5, 25, 8, 0);
    assert_eq!(weekly_period_start(nanos(now)), day(NaiveDate::from_ymd_opt(2026, 5, 25).unwrap()));
}

#[test]
fn weekly_period_on_monday_before_reset_is_previous_monday() {
    // 2026-05-25 Monday 07:00 UTC — before 07:30 reset
    let now = utc(2026, 5, 25, 7, 0);
    assert_eq!(weekly_period_start(nanos(now)), day(NaiveDate::from_ymd_opt(2026, 5, 18).unwrap()));
}

#[test]
fn weekly_period_on_monday_exactly_at_reset_is_today() {
    // 2026-05-25 Monday 07:30:00 UTC — at reset boundary
    let now = utc(2026, 5, 25, 7, 30);
    assert_eq!(weekly_period_start(nanos(now)), day(NaiveDate::from_ymd_opt(2026, 5, 25).unwrap()));
}

#[test]
fn weekly_period_on_sunday_is_previous_monday() {
    // 2026-05-24 Sunday 23:00 UTC
    let now = utc(2026, 5, 24, 23, 0);
    assert_eq!(weekly_period_start(nanos(now)), day(NaiveDate::from_ymd_opt(2026, 5, 18).unwrap()));
}

#[test]
fn periods_before_the_epoch() {
    // 1969-12-31 was a Wednesday; its week started on Monday 1969-12-29.
    let now = utc(1969, 12, 31, 23, 59);
    assert_eq!(daily_period_start(nanos(now)), -1);
    assert_eq!(weekly_period_start(nanos(now)), -3);
}

#[test]
fn todo_periods_are_dates() {
    let now = nanos(utc(2026, 5, 27, 12, 0));
    assert_eq!(todo_period_start("daily", now), "2026-05-27");
    assert_eq!(todo_period_start("weekly", now), "2026-05-25");
    assert_eq!(todo_period_start("anything", now), "2026-05-27");
}

#[test]
fn todo_input_is_checked() {
    assert_eq!(todo_input("  buy ecto  ", "daily").unwrap(), "buy ecto");
    match todo_input("   ", "daily") {
        Err(AppError::Other(m)) => assert_eq!(m, "todo text cannot be empty"),
        other => panic!("unexpected {other:?}"),
    }
    match todo_input("x", "monthly") {
        Err(AppError::Other(m)) => assert_eq!(m, "period must be 'daily' or 'weekly'"),
        other => panic!("unexpected {other:?}"),
    }
    assert_eq!(todo_input("x", "weekly").unwrap(), "x");
}

fn wide_nanos(t: DateTime<Utc>) -> i128 {
    t.timestamp() as i128 * 1_000_000_000
}

#[test]
fn period_dates_follow_the_gregorian_calendar() {
    let leap = wide_nanos(utc(1600, 2, 29, 12, 0));
    assert_eq!(todo_period_start("daily", leap), "1600-02-29");
    let early = wide_nanos(utc(99, 12, 31, 23, 0));
    assert_eq!(todo_period_start("daily", early), "0099-12-31");
    let far = wide_nanos(utc(10000, 1, 1, 0, 30));
    assert_eq!(todo_period_start("daily", far), "+10000-01-01");
    let before = wide_nanos(utc(-1, 3, 1, 0, 0));
    assert_eq!(todo_period_start("daily", before), "-0001-03-01");
}
