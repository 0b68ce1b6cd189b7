//! Daily and weekly to-dos: what a new to-do must hold, and the period it
//! belongs to (reset with the Wizard's Vault periods).
use vstd::prelude::*;

use crate::error::AppError;
use crate::sync::wizardsvault::{
    ce_date_text, daily_period_start, day_of, format_ce_day, weekly_period_start, weekly_start_of,
    EPOCH_CE_DAY,
};
use crate::text::{owned, trim, trimmed};
use crate::timers::engine::in_time_range;

verus! {

/// The first day of the to-do period `period` containing `now`: the
/// weekly period for "weekly", the daily one for anything else.
pub open spec fn todo_start_day(period: Seq<char>, now: int) -> int {
    if period == "weekly"@ {
        weekly_start_of(now)
    } else {
        day_of(now)
    }
}

/// The first day of the to-do period `period` containing `now`, as
/// "YYYY-MM-DD".
pub fn todo_period_start(period: &str, now: i128) -> (r: String)
    requires
        in_time_range(now as int),
    ensures
        r@ == ce_date_text(todo_start_day(period@, now as int) + EPOCH_CE_DAY),
{
    let day = if owned(period) == owned("weekly") {
        weekly_period_start(now)
    } else {
        daily_period_start(now)
    };
    proof {
        crate::sync::wizardsvault::lemma_weekly_is_monday(now as int);
        assert(-81_100_000 <= day_of(now as int) <= 81_100_000);
    }
    format_ce_day((day + EPOCH_CE_DAY) as i32)
}

/// A new to-do: its text trimmed, which must not be empty, and its period,
/// "daily" or "weekly".
pub open spec fn todo_input_of(text: Seq<char>, period: Seq<char>) -> Result<Seq<char>, Seq<char>> {
    if trim(text).len() == 0 {
        Err("todo text cannot be empty"@)
    } else if period != "daily"@ && period != "weekly"@ {
        Err("period must be 'daily' or 'weekly'"@)
    } else {
        Ok(trim(text))
    }
}

/// Check a new to-do: the trimmed text, or the error the user sees.
pub fn todo_input(text: &str, period: &str) -> (r: Result<String, AppError>)
    ensures
        match todo_input_of(text@, period@) {
            Ok(t) => r matches Ok(s) && s@ == t,
            Err(m) => r matches Err(AppError::Other(x)) && x@ == m,
        },
{
    let t = trimmed(text);
    if t.as_str().unicode_len() == 0 {
        return Err(AppError::Other(owned("todo text cannot be empty")));
    }
    let p = owned(period);
    if p != owned("daily") && p != owned("weekly") {
        return Err(AppError::Other(owned("period must be 'daily' or 'weekly'")));
    }
    Ok(t)
}

} // verus!
