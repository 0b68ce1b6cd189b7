//! The Wizard's Vault periods: the daily period starts at 00:00 UTC, the
//! weekly one on Mondays at 07:30 UTC. Periods are named by their first day,
//! counted in days since 1970-01-01.
use vstd::prelude::*;

use crate::text::{decimal, owned};
use crate::timers::engine::{in_time_range, NANOS_PER_DAY, NANOS_PER_MINUTE};

verus! {

pub const PERIOD_DAILY: &'static str = "daily";

pub const PERIOD_WEEKLY: &'static str = "weekly";

pub const PERIOD_SPECIAL: &'static str = "special";

/// The day of instant `now` (days since 1970-01-01, UTC).
pub open spec fn day_of(now: int) -> int {
    now / (NANOS_PER_DAY as int)
}

/// The weekday of day `d`, counted from Monday (0) to Sunday (6);
/// 1970-01-01 was a Thursday.
pub open spec fn weekday_of(d: int) -> int {
    (d + 3) % 7
}

/// The weekly period containing `now`: the Monday of its week, except on
/// Mondays before the 07:30 UTC reset, which still belong to the previous
/// week.
pub open spec fn weekly_start_of(now: int) -> int {
    let d = day_of(now);
    let monday = d - weekday_of(d);
    let into_day = now - d * NANOS_PER_DAY;
    if weekday_of(d) == 0 && into_day < 450 * NANOS_PER_MINUTE {
        monday - 7
    } else {
        monday
    }
}

/// Daily reset is 00:00 UTC: the period is the UTC day of `now`.
pub fn daily_period_start(now: i128) -> (r: i64)
    requires
        in_time_range(now as int),
    ensures
        r == day_of(now as int),
{
    let q = now / NANOS_PER_DAY;
    let rem = now % NANOS_PER_DAY;
    assert(q * NANOS_PER_DAY + rem == now);
    let d = if rem < 0 {
        proof {
            vstd::arithmetic::div_mod::lemma_fundamental_div_mod_converse(
                now as int,
                NANOS_PER_DAY as int,
                q - 1,
                rem + NANOS_PER_DAY,
            );
        }
        q - 1
    } else {
        proof {
            vstd::arithmetic::div_mod::lemma_fundamental_div_mod_converse(
                now as int,
                NANOS_PER_DAY as int,
                q as int,
                rem as int,
            );
        }
        q
    };
    d as i64
}

/// Weekly reset is Mondays at 07:30 UTC (see `weekly_start_of`).
pub fn weekly_period_start(now: i128) -> (r: i64)
    requires
        in_time_range(now as int),
    ensures
        r == weekly_start_of(now as int),
{
    let d = daily_period_start(now);
    let q7 = (d + 3) / 7;
    let m = (d + 3) % 7;
    assert(q7 * 7 + m == d + 3);
    let wd = if m < 0 {
        m + 7
    } else {
        m
    };
    proof {
        if m < 0 {
            vstd::arithmetic::div_mod::lemma_fundamental_div_mod_converse(
                (d + 3) as int,
                7,
                q7 - 1,
                m + 7,
            );
        } else {
            vstd::arithmetic::div_mod::lemma_fundamental_div_mod_converse(
                (d + 3) as int,
                7,
                q7 as int,
                m as int,
            );
        }
    }
    let monday = d - wd;
    let into_day = now - (d as i128) * NANOS_PER_DAY;
    if wd == 0 && into_day < 450 * NANOS_PER_MINUTE {
        monday - 7
    } else {
        monday
    }
}

/// Days from 0001-01-01 (day 1 of the common era) to 1970-01-01.
pub const EPOCH_CE_DAY: i64 = 719_163;

/// The proleptic Gregorian (year, month, day) of the day numbered
/// `ce_day`, 0001-01-01 being day 1 (years counted astronomically: the
/// year before 1 is 0).
pub open spec fn civil_of(ce_day: int) -> (int, int, int) {
    let z = ce_day + 305;  // days since 0000-03-01
    let era = z / 146097;
    let doe = z - era * 146097;
    let yoe = (doe - doe / 1460 + doe / 36524 - doe / 146096) / 365;
    let doy = doe - (365 * yoe + yoe / 4 - yoe / 100);
    let mp = (5 * doy + 2) / 153;
    let d = doy - (153 * mp + 2) / 5 + 1;
    let m = if mp < 10 {
        mp + 3
    } else {
        mp - 9
    };
    (yoe + era * 400 + if m <= 2 {
        1int
    } else {
        0
    }, m, d)
}

/// `n` in decimal, zero-padded to at least `width` digits.
pub open spec fn zero_padded(n: nat, width: nat) -> Seq<char>
    decreases width,
{
    if width <= decimal(n).len() || width == 0 {
        decimal(n)
    } else {
        seq!['0'] + zero_padded(n, (width - 1) as nat)
    }
}

/// A year as `%Y` writes it: four digits, zero-padded, with a sign
/// outside 0..=9999.
pub open spec fn year_text(y: int) -> Seq<char> {
    if y < 0 {
        seq!['-'] + zero_padded((-y) as nat, 4)
    } else if y > 9999 {
        seq!['+'] + decimal(y as nat)
    } else {
        zero_padded(y as nat, 4)
    }
}

/// The text chrono writes with `"%Y-%m-%d"` for the date numbered
/// `ce_day` (0001-01-01 being day 1).
pub open spec fn ce_date_text(ce_day: int) -> Seq<char> {
    let (y, m, d) = civil_of(ce_day);
    year_text(y) + seq!['-'] + zero_padded(m as nat, 2) + seq!['-'] + zero_padded(d as nat, 2)
}

/// `NaiveDate::from_num_days_from_ce_opt(ce_day)` formatted with
/// `"%Y-%m-%d"`. The contract claims the text of the proleptic Gregorian
/// date of `ce_day` (`civil_of`): the year as chrono's `write_year` writes
/// it, then the month and the day on two digits each. The range required
/// is well inside the years chrono represents (±262 143), so the date
/// always exists.
#[verifier::external_body]
pub(crate) fn format_ce_day(ce_day: i32) -> (r: String)
    requires
        -90_000_000 <= ce_day <= 90_000_000,
    ensures
        r@ == ce_date_text(ce_day as int),
{
    match chrono::NaiveDate::from_num_days_from_ce_opt(ce_day) {
        Some(date) => date.format("%Y-%m-%d").to_string(),
        None => String::new(),
    }
}

/// The first day of the Vault period `period_type` containing `now`: the
/// daily period for "daily", the weekly one otherwise (special objectives
/// follow the weekly cadence).
pub open spec fn vault_start_day(period_type: Seq<char>, now: int) -> int {
    if period_type == PERIOD_DAILY@ {
        day_of(now)
    } else {
        weekly_start_of(now)
    }
}

/// The first day of the Vault period `period_type` containing `now`, as
/// "YYYY-MM-DD", the text the objectives are stored under.
pub fn vault_period_start(period_type: &str, now: i128) -> (r: String)
    requires
        in_time_range(now as int),
    ensures
        r@ == ce_date_text(vault_start_day(period_type@, now as int) + EPOCH_CE_DAY),
{
    let day = if owned(period_type) == owned(PERIOD_DAILY) {
        daily_period_start(now)
    } else {
        weekly_period_start(now)
    };
    proof {
        lemma_weekly_is_monday(now as int);
        assert(-81_100_000 <= day_of(now as int) <= 81_100_000);
    }
    format_ce_day((day + EPOCH_CE_DAY) as i32)
}

/// The weekly period starts on a Monday, at most a week and a day before
/// `now`'s day, and the daily period is `now`'s day.
pub proof fn lemma_weekly_is_monday(now: int)
    requires
        in_time_range(now),
    ensures
        weekday_of(weekly_start_of(now)) == 0,
        day_of(now) - 7 <= weekly_start_of(now) <= day_of(now),
{
    let d = day_of(now);
    let w = weekday_of(d);
    assert(0 <= w < 7);
    let monday = d - w;
    assert(weekday_of(monday) == 0) by {
        vstd::arithmetic::div_mod::lemma_fundamental_div_mod(d + 3, 7);
        vstd::arithmetic::div_mod::lemma_fundamental_div_mod_converse(
            monday + 3,
            7,
            (d + 3) / 7,
            0,
        );
    };
    assert(weekday_of(monday - 7) == 0) by {
        vstd::arithmetic::div_mod::lemma_fundamental_div_mod(d + 3, 7);
        vstd::arithmetic::div_mod::lemma_fundamental_div_mod_converse(
            monday - 7 + 3,
            7,
            (d + 3) / 7 - 1,
            0,
        );
    };
}

} // verus!
