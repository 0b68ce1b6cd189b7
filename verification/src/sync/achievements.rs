//! The bulk sync of achievement definitions: the pages it reads, when it
//! stops, the points of an achievement, and when the cache is stale.
use vstd::prelude::*;

use crate::api::endpoints::AchievementTier;
use crate::text::{concat, decimal, decimal_string};
use crate::timers::engine::{in_time_range, NANOS_PER_DAY};

verus! {

/// Definitions per page.
pub const PAGE_SIZE: u32 = 200;

/// The path of definitions page `page`.
pub open spec fn page_path_of(page: u32) -> Seq<char> {
    "/v2/achievements?page="@ + decimal(page as nat) + "&page_size=200"@
}

pub fn page_path(page: u32) -> (r: String)
    ensures
        r@ == page_path_of(page),
{
    let head = concat("/v2/achievements?page=", decimal_string(page as u64).as_str());
    concat(head.as_str(), "&page_size=200")
}

/// What follows a page of `returned` definitions.
#[derive(Debug, Clone, Copy, PartialEq, Eq, Structural)]
pub enum PageStep {
    /// An empty page: the sync is over.
    Stop,
    /// Store the page; it was the last one (shorter than a full page).
    StoreAndStop,
    /// Store the page and read the next one.
    StoreAndContinue,
}

pub fn page_step(returned: usize) -> (r: PageStep)
    ensures
        returned == 0 ==> r == PageStep::Stop,
        0 < returned < PAGE_SIZE ==> r == PageStep::StoreAndStop,
        returned >= PAGE_SIZE ==> r == PageStep::StoreAndContinue,
{
    if returned == 0 {
        PageStep::Stop
    } else if returned < 200 {
        PageStep::StoreAndStop
    } else {
        PageStep::StoreAndContinue
    }
}

pub open spec fn tier_points(tiers: Seq<AchievementTier>) -> int
    decreases tiers.len(),
{
    if tiers.len() == 0 {
        0
    } else {
        tier_points(tiers.drop_last()) + tiers.last().points
    }
}

/// The points an achievement is worth: the sum over its tiers.
pub fn total_points(tiers: &Vec<AchievementTier>) -> (r: i32)
    requires
        forall|k: int| 0 <= k <= tiers.len() ==> i32::MIN <= #[trigger] tier_points(tiers@.take(k))
            <= i32::MAX,
    ensures
        r == tier_points(tiers@),
{
    let mut sum: i32 = 0;
    let mut i: usize = 0;
    while i < tiers.len()
        invariant
            i <= tiers.len(),
            forall|k: int| 0 <= k <= tiers.len() ==> i32::MIN <= #[trigger] tier_points(tiers@.take(k))
                <= i32::MAX,
            sum == tier_points(tiers@.take(i as int)),
        decreases tiers.len() - i,
    {
        assert(tiers@.take(i + 1).drop_last() == tiers@.take(i as int));
        assert(tiers@.take(i + 1).last() == tiers@[i as int]);
        assert(i32::MIN <= tier_points(tiers@.take(i + 1)) <= i32::MAX);
        sum = sum + tiers[i].points;
        i = i + 1;
    }
    assert(tiers@.take(i as int) == tiers@);
    sum
}

/// The instant an RFC 3339 timestamp denotes, as whole seconds and
/// nanoseconds since the epoch; none when the text is not RFC 3339.
pub uninterp spec fn rfc3339_parts(s: Seq<char>) -> Option<(i64, u32)>;

/// `DateTime::parse_from_rfc3339(s)`, read as `timestamp()` and
/// `timestamp_subsec_nanos()`. The grammar is chrono's; the result is named.
#[verifier::external_body]
fn parse_rfc3339(s: &str) -> (r: Option<(i64, u32)>)
    ensures
        r == rfc3339_parts(s@),
{
    match chrono::DateTime::parse_from_rfc3339(s) {
        Ok(dt) => Some((dt.timestamp(), dt.timestamp_subsec_nanos())),
        Err(_) => None,
    }
}

/// The whole days between two instants, rounded toward zero.
pub open spec fn whole_days(span: int) -> int {
    if span >= 0 {
        span / (NANOS_PER_DAY as int)
    } else {
        -((-span) / (NANOS_PER_DAY as int))
    }
}

/// The cache is stale: it holds no definition (`count` is 0), or no full
/// sync is recorded, or that sync was at least `max_age_days` whole days
/// before `now`.
pub open spec fn stale_of(last: Option<(i64, u32)>, count: i64, now: int, max_age_days: int) -> bool {
    count == 0 || match last {
        Some((secs, nanos)) => whole_days(now - (secs * 1_000_000_000 + nanos)) >= max_age_days,
        None => true,
    }
}

/// Whether the cache of `count` definitions is stale given the last full
/// sync (see `stale_of`).
pub fn staleness(last: Option<(i64, u32)>, count: i64, now: i128, max_age_days: i64) -> (r: bool)
    requires
        in_time_range(now as int),
    ensures
        r == stale_of(last, count, now as int, max_age_days as int),
{
    if count == 0 {
        return true;
    }
    match last {
        Some((secs, nanos)) => {
            let then = (secs as i128) * 1_000_000_000 + (nanos as i128);
            let span = now - then;
            let days = if span >= 0 {
                span / NANOS_PER_DAY
            } else {
                -((-span) / NANOS_PER_DAY)
            };
            days >= max_age_days as i128
        },
        None => true,
    }
}

/// Whether the cache of `count` definitions is stale given the stored time
/// of the last full sync: an empty cache, or a missing or unreadable time,
/// counts as stale.
pub fn sync_is_stale(last_sync: &Option<String>, count: i64, now: i128, max_age_days: i64) -> (r: bool)
    requires
        in_time_range(now as int),
    ensures
        r == stale_of(
            match last_sync {
                Some(t) => rfc3339_parts(t@),
                None => None,
            },
            count,
            now as int,
            max_age_days as int,
        ),
{
    let last = match last_sync {
        Some(t) => parse_rfc3339(t.as_str()),
        None => None,
    };
    staleness(last, count, now, max_age_days)
}

} // verus!
