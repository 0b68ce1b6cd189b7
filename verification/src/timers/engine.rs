//! When the events of the schedule happen. Instants are nanoseconds since
//! the Unix epoch, UTC (an `i128`, so every instant of the calendar range
//! is exact).
use vstd::prelude::*;

use crate::sorting::{
    lemma_sorted_ascending, lemma_sorted_len, lemma_sorted_map, lemma_sorted_pairs, lemma_sorted_permutes,
    stable_sort_by_key,
    stable_sorted,
};
use crate::text::{
    ascii_lower, ascii_upper, concat, is_ws, lowercase, opt_text, owned, to_lower, to_upper, trim, trim_end,
    trim_start, trimmed,
};

use crate::timers::schedule::{
    hm_of, lemma_hm_range, meta_well_formed, parse_hm, MetaEvent, MetaPhase, Schedule, WorldBoss,
};

verus! {

pub const NANOS_PER_MINUTE: i128 = 60_000_000_000;

pub const NANOS_PER_DAY: i128 = 86_400_000_000_000;

/// The instants the timers compute with lie within this distance of the
/// epoch (about 221,000 years), well inside the calendar range, so that
/// adding a day or a cycle to one never leaves the calendar.
pub const TIME_LIMIT: i128 = 7_000_000_000_000_000_000_000;

pub open spec fn in_time_range(t: int) -> bool {
    -TIME_LIMIT <= t <= TIME_LIMIT
}

/// Midnight UTC of the day of `t`.
pub open spec fn floor_day(t: int) -> int {
    (t / (NANOS_PER_DAY as int)) * NANOS_PER_DAY
}

/// Midnight UTC of the day of `now`.
pub fn today_midnight(now: i128) -> (r: i128)
    requires
        in_time_range(now as int),
    ensures
        r == floor_day(now as int),
        r <= now < r + NANOS_PER_DAY,
{
    let q = now / NANOS_PER_DAY;
    let rem = now % NANOS_PER_DAY;
    assert(q * NANOS_PER_DAY + rem == now);
    if rem < 0 {
        proof {
            vstd::arithmetic::div_mod::lemma_fundamental_div_mod_converse(
                now as int,
                NANOS_PER_DAY as int,
                q - 1,
                rem + NANOS_PER_DAY,
            );
        }
        (q - 1) * NANOS_PER_DAY
    } else {
        proof {
            vstd::arithmetic::div_mod::lemma_fundamental_div_mod_converse(
                now as int,
                NANOS_PER_DAY as int,
                q as int,
                rem as int,
            );
        }
        q * NANOS_PER_DAY
    }
}

// ---------------------------------------------------------------------------
// World bosses
// ---------------------------------------------------------------------------

/// The minute of the day of each spawn time of `times` that parses, in order.
pub open spec fn spawn_minutes(times: Seq<String>) -> Seq<int>
    decreases times.len(),
{
    if times.len() == 0 {
        Seq::empty()
    } else {
        let prev = spawn_minutes(times.drop_last());
        match hm_of(times.last()@) {
            Ok((h, m)) => prev.push(h * 60 + m),
            Err(_) => prev,
        }
    }
}

/// The instants `base + o` minutes for each `o` of `minutes`.
pub open spec fn at_minutes(minutes: Seq<int>, base: int) -> Seq<int> {
    minutes.map_values(|o: int| base + o * NANOS_PER_MINUTE)
}

/// The largest element of `s` that is at most `bound`.
pub open spec fn max_at_most(s: Seq<int>, bound: int) -> Option<int>
    decreases s.len(),
{
    if s.len() == 0 {
        None
    } else {
        let prev = max_at_most(s.drop_last(), bound);
        if s.last() <= bound {
            match prev {
                Some(x) => Some(if x >= s.last() { x } else { s.last() }),
                None => Some(s.last()),
            }
        } else {
            prev
        }
    }
}

/// The smallest element of `s` that is greater than `bound`.
pub open spec fn min_above(s: Seq<int>, bound: int) -> Option<int>
    decreases s.len(),
{
    if s.len() == 0 {
        None
    } else {
        let prev = min_above(s.drop_last(), bound);
        if s.last() > bound {
            match prev {
                Some(x) => Some(if x <= s.last() { x } else { s.last() }),
                None => Some(s.last()),
            }
        } else {
            prev
        }
    }
}

/// The largest element of `s`.
pub open spec fn seq_max(s: Seq<int>) -> Option<int>
    decreases s.len(),
{
    if s.len() == 0 {
        None
    } else {
        match seq_max(s.drop_last()) {
            Some(x) => Some(if x >= s.last() { x } else { s.last() }),
            None => Some(s.last()),
        }
    }
}

/// The most recent spawn at or before `now`: the latest of today's spawns
/// at or before `now`, else the last of yesterday's spawns; none when no
/// spawn time parses.
pub open spec fn prev_spawn_of(times: Seq<String>, now: int) -> Option<int> {
    let mid = floor_day(now);
    match max_at_most(at_minutes(spawn_minutes(times), mid), now) {
        Some(t) => Some(t),
        None => match seq_max(spawn_minutes(times)) {
            Some(o) => Some(mid - NANOS_PER_DAY + o * NANOS_PER_MINUTE),
            None => None,
        },
    }
}

/// The smallest element of `s`.
pub open spec fn seq_min(s: Seq<int>) -> Option<int>
    decreases s.len(),
{
    if s.len() == 0 {
        None
    } else {
        match seq_min(s.drop_last()) {
            Some(x) => Some(if x <= s.last() { x } else { s.last() }),
            None => Some(s.last()),
        }
    }
}

/// The earliest spawn minute of the day, or 0 (midnight) when no spawn
/// time parses.
pub open spec fn earliest_minute(times: Seq<String>) -> int {
    match seq_min(spawn_minutes(times)) {
        Some(o) => o,
        None => 0,
    }
}

/// The next spawn strictly after `now`: the earliest of today's spawns
/// after `now`, else tomorrow at the earliest spawn time of the day.
pub open spec fn next_spawn_of(times: Seq<String>, now: int) -> int {
    let mid = floor_day(now);
    match min_above(at_minutes(spawn_minutes(times), mid), now) {
        Some(t) => t,
        None => mid + NANOS_PER_DAY + earliest_minute(times) * NANOS_PER_MINUTE,
    }
}

proof fn lemma_minutes_bounds(times: Seq<String>)
    ensures
        forall|i: int|
            0 <= i < spawn_minutes(times).len() ==> 0 <= #[trigger] spawn_minutes(times)[i] < 1440,
    decreases times.len(),
{
    if times.len() > 0 {
        let prev = spawn_minutes(times.drop_last());
        lemma_minutes_bounds(times.drop_last());
        lemma_hm_range(times.last()@);
        let cur = spawn_minutes(times);
        assert forall|i: int| 0 <= i < cur.len() implies 0 <= #[trigger] cur[i] < 1440 by {
            if i < prev.len() {
                assert(cur[i] == prev[i]);
            }
        };
    }
}

proof fn lemma_minutes_step(times: Seq<String>, i: int)
    requires
        0 <= i < times.len(),
    ensures
        spawn_minutes(times.take(i + 1)) == match hm_of(times[i]@) {
            Ok((h, m)) => spawn_minutes(times.take(i)).push(h * 60 + m),
            Err(_) => spawn_minutes(times.take(i)),
        },
{
    assert(times.take(i + 1).drop_last() == times.take(i));
    assert(times.take(i + 1).last() == times[i]);
}

/// The minutes of the day of the spawn times that parse, in order.
fn spawn_minutes_exec(times: &Vec<String>) -> (r: Vec<i128>)
    ensures
        r@.map_values(|x: i128| x as int) == spawn_minutes(times@),
        forall|i: int| 0 <= i < r.len() ==> 0 <= #[trigger] r@[i] < 1440,
{
    let mut out: Vec<i128> = Vec::new();
    let mut i: usize = 0;
    while i < times.len()
        invariant
            i <= times.len(),
            out@.map_values(|x: i128| x as int) == spawn_minutes(times@.take(i as int)),
            forall|k: int| 0 <= k < out.len() ==> 0 <= #[trigger] out@[k] < 1440,
        decreases times.len() - i,
    {
        proof {
            lemma_minutes_step(times@, i as int);
            lemma_hm_range(times@[i as int]@);
        }
        match parse_hm(times[i].as_str()) {
            Ok((h, m)) => {
                let ghost before = out@;
                out.push((h as i128) * 60 + (m as i128));
                assert(out@.map_values(|x: i128| x as int) =~= before.map_values(|x: i128| x as int).push(
                    h * 60 + m,
                ));
            },
            Err(_) => {},
        }
        i = i + 1;
    }
    assert(times@.take(times.len() as int) == times@);
    out
}

/// The most recent spawn of `times` at or before `now` (see `prev_spawn_of`).
pub fn prev_spawn_at(times: &Vec<String>, now: i128) -> (r: Option<i128>)
    requires
        in_time_range(now as int),
    ensures
        match r {
            Some(t) => prev_spawn_of(times@, now as int) == Some(t as int),
            None => prev_spawn_of(times@, now as int) is None,
        },
        r matches Some(t) ==> now - 2 * NANOS_PER_DAY < t <= now,
{
    let mins = spawn_minutes_exec(times);
    let ghost ms = spawn_minutes(times@);
    let mid = today_midnight(now);
    let mut best: Option<i128> = None;
    let mut latest: Option<i128> = None;
    let mut i: usize = 0;
    while i < mins.len()
        invariant
            i <= mins.len(),
            in_time_range(now as int),
            mid == floor_day(now as int),
            mid <= now < mid + NANOS_PER_DAY,
            mins@.map_values(|x: i128| x as int) == ms,
            forall|k: int| 0 <= k < mins.len() ==> 0 <= #[trigger] mins@[k] < 1440,
            match best {
                Some(b) => max_at_most(at_minutes(ms.take(i as int), mid as int), now as int)
                    == Some(b as int),
                None => max_at_most(at_minutes(ms.take(i as int), mid as int), now as int) is None,
            },
            best matches Some(t) ==> mid <= t <= now,
            match latest {
                Some(o) => seq_max(ms.take(i as int)) == Some(o as int),
                None => seq_max(ms.take(i as int)) is None,
            },
            latest matches Some(o) ==> 0 <= o < 1440,
        decreases mins.len() - i,
    {
        let o = mins[i];
        let t = mid + o * NANOS_PER_MINUTE;
        proof {
            assert(ms[i as int] == o);
            assert(ms.take(i + 1).drop_last() == ms.take(i as int));
            assert(ms.take(i + 1).last() == o);
            assert(at_minutes(ms.take(i + 1), mid as int).drop_last() == at_minutes(
                ms.take(i as int),
                mid as int,
            ));
            assert(at_minutes(ms.take(i + 1), mid as int).last() == t);
        }
        if t <= now {
            best = match best {
                Some(x) => if x >= t {
                    Some(x)
                } else {
                    Some(t)
                },
                None => Some(t),
            };
        }
        latest = match latest {
            Some(x) => if x >= o {
                Some(x)
            } else {
                Some(o)
            },
            None => Some(o),
        };
        i = i + 1;
    }
    assert(ms.take(mins.len() as int) == ms);
    match best {
        Some(t) => Some(t),
        None => match latest {
            Some(o) => Some(mid - NANOS_PER_DAY + o * NANOS_PER_MINUTE),
            None => None,
        },
    }
}

/// The next spawn of `times` strictly after `now` (see `next_spawn_of`).
pub fn next_spawn_at(times: &Vec<String>, now: i128) -> (r: i128)
    requires
        in_time_range(now as int),
    ensures
        r == next_spawn_of(times@, now as int),
        now < r <= now + 2 * NANOS_PER_DAY,
{
    let mins = spawn_minutes_exec(times);
    let ghost ms = spawn_minutes(times@);
    let mid = today_midnight(now);
    let mut best: Option<i128> = None;
    let mut earliest: Option<i128> = None;
    let mut i: usize = 0;
    while i < mins.len()
        invariant
            i <= mins.len(),
            in_time_range(now as int),
            mid == floor_day(now as int),
            mid <= now < mid + NANOS_PER_DAY,
            mins@.map_values(|x: i128| x as int) == ms,
            forall|k: int| 0 <= k < mins.len() ==> 0 <= #[trigger] mins@[k] < 1440,
            match best {
                Some(b) => min_above(at_minutes(ms.take(i as int), mid as int), now as int) == Some(
                    b as int,
                ),
                None => min_above(at_minutes(ms.take(i as int), mid as int), now as int) is None,
            },
            best matches Some(t) ==> now < t < mid + NANOS_PER_DAY,
            match earliest {
                Some(o) => seq_min(ms.take(i as int)) == Some(o as int),
                None => seq_min(ms.take(i as int)) is None,
            },
            earliest matches Some(o) ==> 0 <= o < 1440,
        decreases mins.len() - i,
    {
        let o = mins[i];
        let t = mid + o * NANOS_PER_MINUTE;
        proof {
            assert(ms[i as int] == o);
            assert(ms.take(i + 1).drop_last() == ms.take(i as int));
            assert(ms.take(i + 1).last() == o);
            assert(at_minutes(ms.take(i + 1), mid as int).drop_last() == at_minutes(
                ms.take(i as int),
                mid as int,
            ));
            assert(at_minutes(ms.take(i + 1), mid as int).last() == t);
        }
        if t > now {
            best = match best {
                Some(x) => if x <= t {
                    Some(x)
                } else {
                    Some(t)
                },
                None => Some(t),
            };
        }
        earliest = match earliest {
            Some(x) => if x <= o {
                Some(x)
            } else {
                Some(o)
            },
            None => Some(o),
        };
        i = i + 1;
    }
    assert(ms.take(mins.len() as int) == ms);
    match best {
        Some(t) => t,
        None => {
            let first: i128 = match earliest {
                Some(o) => o,
                None => 0,
            };
            mid + NANOS_PER_DAY + first * NANOS_PER_MINUTE
        },
    }
}

/// Compute the most recent spawn time at or before `now`, whether or not
/// that spawn is still within its duration window. None only when no spawn
/// time of the boss parses.
pub fn prev_spawn(boss: &WorldBoss, now: i128) -> (r: Option<i128>)
    requires
        in_time_range(now as int),
    ensures
        match r {
            Some(t) => prev_spawn_of(boss.schedule_utc@, now as int) == Some(t as int),
            None => prev_spawn_of(boss.schedule_utc@, now as int) is None,
        },
        r matches Some(t) ==> now - 2 * NANOS_PER_DAY < t <= now,
{
    prev_spawn_at(&boss.schedule_utc, now)
}

/// Compute the next spawn time for a world boss strictly after `now`. If
/// all of today's spawns are past, roll over to the earliest spawn of the
/// day, tomorrow.
pub fn next_spawn(boss: &WorldBoss, now: i128) -> (r: i128)
    requires
        in_time_range(now as int),
    ensures
        r == next_spawn_of(boss.schedule_utc@, now as int),
        now < r <= now + 2 * NANOS_PER_DAY,
{
    next_spawn_at(&boss.schedule_utc, now)
}


// ---------------------------------------------------------------------------
// Meta events
// ---------------------------------------------------------------------------

/// Filler phase names ("Idle", "Reset", "Prep", ...) pad a cycle out to its
/// full length; they are never active and never the next phase.
pub open spec fn is_filler(name: Seq<char>) -> bool {
    let n = ascii_lower(trim(name));
    n == "idle"@ || n == "reset"@ || n == "prep"@ || n == "preparations"@ || n == "pinata/reset"@
        || n == "pinata"@
}

/// Meta-event phases like "Idle", "Reset", "Prep", "Preparations" are
/// filler: the name, trimmed and lower-cased (ASCII), is one of the filler
/// names.
pub fn is_filler_phase_name(name: &str) -> (r: bool)
    ensures
        r == is_filler(name@),
{
    let t = trimmed(name);
    let n = lowercase(t.as_str());
    n == owned("idle") || n == owned("reset") || n == owned("prep") || n == owned("preparations")
        || n == owned("pinata/reset") || n == owned("pinata")
}

pub open spec fn all_ws(s: Seq<char>) -> bool {
    forall|i: int| 0 <= i < s.len() ==> is_ws(#[trigger] s[i])
}

proof fn lemma_trim_start_pad(pre: Seq<char>, u: Seq<char>)
    requires
        all_ws(pre),
    ensures
        trim_start(pre + u) == trim_start(u),
    decreases pre.len(),
{
    if pre.len() > 0 {
        assert((pre + u)[0] == pre[0]);
        assert((pre + u).drop_first() == pre.drop_first() + u);
        assert(all_ws(pre.drop_first())) by {
            assert forall|i: int| 0 <= i < pre.drop_first().len() implies is_ws(
                #[trigger] pre.drop_first()[i],
            ) by {
                assert(pre.drop_first()[i] == pre[i + 1]);
            };
        };
        lemma_trim_start_pad(pre.drop_first(), u);
    } else {
        assert(pre + u == u);
    }
}

proof fn lemma_trim_end_pad(v: Seq<char>, post: Seq<char>)
    requires
        all_ws(post),
    ensures
        trim_end(v + post) == trim_end(v),
    decreases post.len(),
{
    if post.len() > 0 {
        assert((v + post).last() == post.last());
        assert(is_ws(post[post.len() - 1]));
        assert((v + post).drop_last() == v + post.drop_last());
        assert(all_ws(post.drop_last())) by {
            assert forall|i: int| 0 <= i < post.drop_last().len() implies is_ws(
                #[trigger] post.drop_last()[i],
            ) by {
                assert(post.drop_last()[i] == post[i]);
            };
        };
        lemma_trim_end_pad(v, post.drop_last());
    } else {
        assert(v + post == v);
    }
}

proof fn lemma_trim_suffix(u: Seq<char>, post: Seq<char>)
    requires
        all_ws(post),
    ensures
        trim(u + post) == trim(u),
    decreases u.len(),
{
    if u.len() > 0 {
        assert((u + post)[0] == u[0]);
        if is_ws(u[0]) {
            assert((u + post).drop_first() == u.drop_first() + post);
            lemma_trim_suffix(u.drop_first(), post);
        } else {
            lemma_trim_end_pad(u, post);
        }
    } else {
        assert(u + post == post);
        lemma_trim_start_pad(post, Seq::<char>::empty());
        assert(post + Seq::<char>::empty() == post);
    }
}

proof fn lemma_case_keeps_ws(c: char)
    ensures
        is_ws(to_upper(c)) == is_ws(c),
        is_ws(to_lower(c)) == is_ws(c),
        to_lower(to_upper(c)) == to_lower(c),
        to_lower(to_lower(c)) == to_lower(c),
{
}

proof fn lemma_trim_case(x: Seq<char>)
    ensures
        trim_start(ascii_upper(x)) == ascii_upper(trim_start(x)),
        trim_start(ascii_lower(x)) == ascii_lower(trim_start(x)),
    decreases x.len(),
{
    if x.len() > 0 {
        lemma_case_keeps_ws(x[0]);
        assert(ascii_upper(x)[0] == to_upper(x[0]));
        assert(ascii_lower(x)[0] == to_lower(x[0]));
        assert(ascii_upper(x).drop_first() == ascii_upper(x.drop_first()));
        assert(ascii_lower(x).drop_first() == ascii_lower(x.drop_first()));
        lemma_trim_case(x.drop_first());
    }
}

proof fn lemma_trim_end_case(x: Seq<char>)
    ensures
        trim_end(ascii_upper(x)) == ascii_upper(trim_end(x)),
        trim_end(ascii_lower(x)) == ascii_lower(trim_end(x)),
    decreases x.len(),
{
    if x.len() > 0 {
        lemma_case_keeps_ws(x.last());
        assert(ascii_upper(x).last() == to_upper(x.last()));
        assert(ascii_lower(x).last() == to_lower(x.last()));
        assert(ascii_upper(x).drop_last() == ascii_upper(x.drop_last()));
        assert(ascii_lower(x).drop_last() == ascii_lower(x.drop_last()));
        lemma_trim_end_case(x.drop_last());
    }
}

/// A filler phase name stays filler, and any other name stays a real
/// phase, whatever whitespace pads it and whatever its ASCII case.
pub proof fn lemma_filler_ignores_padding_and_case(name: Seq<char>, pre: Seq<char>, post: Seq<char>)
    requires
        all_ws(pre),
        all_ws(post),
    ensures
        is_filler(pre + ascii_upper(name) + post) == is_filler(name),
        is_filler(pre + ascii_lower(name) + post) == is_filler(name),
{
    let t = trim(name);
    lemma_trim_case(name);
    lemma_trim_end_case(trim_start(name));
    assert forall|c: char| #[trigger] to_lower(to_upper(c)) == to_lower(c) && to_lower(to_lower(c))
        == to_lower(c) by {
        lemma_case_keeps_ws(c);
    };
    let up = ascii_upper(name);
    let lo = ascii_lower(name);
    assert(pre + up + post == pre + (up + post));
    assert(pre + lo + post == pre + (lo + post));
    lemma_trim_start_pad(pre, up + post);
    lemma_trim_start_pad(pre, lo + post);
    lemma_trim_suffix(up, post);
    lemma_trim_suffix(lo, post);
    assert(trim(up) == ascii_upper(t));
    assert(trim(lo) == ascii_lower(t));
    assert(ascii_lower(ascii_upper(t)) =~= ascii_lower(t));
    assert(ascii_lower(ascii_lower(t)) =~= ascii_lower(t));
}

#[derive(Debug, Clone, PartialEq, Eq)]
pub struct ActivePhase {
    pub name: String,
    pub started_at: i128,
    pub ends_at: i128,
}

#[derive(Debug, Clone, PartialEq, Eq)]
pub struct NextPhase {
    pub name: String,
    pub starts_at: i128,
}

#[derive(Debug, Clone, PartialEq, Eq)]
pub struct MetaPhaseInstant {
    pub active: Option<ActivePhase>,
    pub next: NextPhase,
}

/// Index of the first phase of `ps` that satisfies `pred`.
pub open spec fn first_phase(ps: Seq<MetaPhase>, pred: spec_fn(MetaPhase) -> bool) -> Option<int>
    decreases ps.len(),
{
    if ps.len() == 0 {
        None
    } else {
        match first_phase(ps.drop_last(), pred) {
            Some(i) => Some(i),
            None => if pred(ps.last()) {
                Some(ps.len() - 1)
            } else {
                None
            },
        }
    }
}

/// The minute of the day of the meta's anchor (midnight when it does not parse).
pub open spec fn anchor_minute(m: MetaEvent) -> int {
    match hm_of(m.anchor_utc@) {
        Ok((h, mm)) => h * 60 + mm,
        Err(_) => 0,
    }
}

/// Today's anchor of the meta's cycles.
pub open spec fn anchor_of(m: MetaEvent, now: int) -> int {
    floor_day(now) + anchor_minute(m) * NANOS_PER_MINUTE
}

/// The whole minutes of a span, rounded toward zero.
pub open spec fn whole_minutes(e: int) -> int {
    if e >= 0 {
        e / (NANOS_PER_MINUTE as int)
    } else {
        -((-e) / (NANOS_PER_MINUTE as int))
    }
}

/// `e` brought forward by the least whole number of periods after which
/// its whole minutes are not negative.
pub open spec fn forward_elapsed(e: int, period: int) -> int {
    if e > -NANOS_PER_MINUTE {
        e
    } else {
        e + period * ((-NANOS_PER_MINUTE - e) / period + 1)
    }
}

/// The minute of the current cycle that `now` falls in.
pub open spec fn cycle_position(m: MetaEvent, now: int) -> int {
    let e = forward_elapsed(now - anchor_of(m, now), m.cycle_minutes * NANOS_PER_MINUTE);
    whole_minutes(e) % (m.cycle_minutes as int)
}

/// When the current cycle started.
pub open spec fn cycle_origin(m: MetaEvent, now: int) -> int {
    now - cycle_position(m, now) * NANOS_PER_MINUTE
}

pub open spec fn active_at(w: int) -> spec_fn(MetaPhase) -> bool {
    |p: MetaPhase|
        w >= p.offset_minutes && w < p.offset_minutes + p.duration_minutes && !is_filler(p.name@)
}

pub open spec fn real_after(w: int) -> spec_fn(MetaPhase) -> bool {
    |p: MetaPhase| !is_filler(p.name@) && p.offset_minutes > w
}

pub open spec fn non_filler() -> spec_fn(MetaPhase) -> bool {
    |p: MetaPhase| !is_filler(p.name@)
}

/// The phase the next cycle wraps to: the first real phase, or phase 0
/// when every phase is filler.
pub open spec fn wrap_phase(ps: Seq<MetaPhase>) -> int {
    match first_phase(ps, non_filler()) {
        Some(j) => j,
        None => 0,
    }
}

/// The phase that is next, and when it starts.
pub open spec fn next_phase_of(m: MetaEvent, now: int) -> (int, int) {
    let w = cycle_position(m, now);
    let origin = cycle_origin(m, now);
    match first_phase(m.phases@, real_after(w)) {
        Some(i) => (i, origin + m.phases@[i].offset_minutes * NANOS_PER_MINUTE),
        None => {
            let j = wrap_phase(m.phases@);
            (
                j,
                origin + m.cycle_minutes * NANOS_PER_MINUTE + m.phases@[j].offset_minutes
                    * NANOS_PER_MINUTE,
            )
        },
    }
}

/// `r` is the instant of meta `m` at `now`: the first non-filler phase
/// covering the current cycle minute is active (with its start and end),
/// and the next phase is the first non-filler phase starting later in the
/// cycle, else the wrap phase of the next cycle.
pub open spec fn instant_matches(r: MetaPhaseInstant, m: MetaEvent, now: int) -> bool {
    let w = cycle_position(m, now);
    let origin = cycle_origin(m, now);
    let ps = m.phases@;
    &&& match first_phase(ps, active_at(w)) {
        Some(i) => r.active matches Some(a) && a.name@ == ps[i].name@ && a.started_at == origin
            + ps[i].offset_minutes * NANOS_PER_MINUTE && a.ends_at == origin + (
        ps[i].offset_minutes + ps[i].duration_minutes) * NANOS_PER_MINUTE,
        None => r.active is None,
    }
    &&& r.next.name@ == ps[next_phase_of(m, now).0].name@
    &&& r.next.starts_at == next_phase_of(m, now).1
}

proof fn lemma_first_phase_found(ps: Seq<MetaPhase>, pred: spec_fn(MetaPhase) -> bool, n: int)
    requires
        0 <= n < ps.len(),
        first_phase(ps.take(n), pred) is None,
        pred(ps[n]),
    ensures
        first_phase(ps, pred) == Some(n),
    decreases ps.len() - n,
{
    assert(ps.take(n + 1).drop_last() == ps.take(n));
    if n + 1 < ps.len() {
        lemma_first_phase_keep(ps, pred, n + 1);
    } else {
        assert(ps.take(n + 1) == ps);
    }
}

proof fn lemma_first_phase_keep(ps: Seq<MetaPhase>, pred: spec_fn(MetaPhase) -> bool, n: int)
    requires
        0 < n <= ps.len(),
        first_phase(ps.take(n), pred) is Some,
    ensures
        first_phase(ps, pred) == first_phase(ps.take(n), pred),
    decreases ps.len() - n,
{
    if n < ps.len() {
        assert(ps.take(n + 1).drop_last() == ps.take(n));
        lemma_first_phase_keep(ps, pred, n + 1);
    } else {
        assert(ps.take(n) == ps);
    }
}

proof fn lemma_first_phase_bounds(ps: Seq<MetaPhase>, pred: spec_fn(MetaPhase) -> bool)
    ensures
        first_phase(ps, pred) matches Some(i) ==> 0 <= i < ps.len() && pred(ps[i]),
    decreases ps.len(),
{
    if ps.len() > 0 {
        lemma_first_phase_bounds(ps.drop_last(), pred);
    }
}

/// Index of the first phase active at cycle minute `w`.
fn find_active(phases: &Vec<MetaPhase>, w: u32) -> (r: Option<usize>)
    ensures
        match r {
            Some(i) => first_phase(phases@, active_at(w as int)) == Some(i as int),
            None => first_phase(phases@, active_at(w as int)) is None,
        },
{
    let mut i: usize = 0;
    while i < phases.len()
        invariant
            i <= phases.len(),
            first_phase(phases@.take(i as int), active_at(w as int)) is None,
        decreases phases.len() - i,
    {
        assert(phases@.take(i + 1).drop_last() == phases@.take(i as int));
        let p = &phases[i];
        if (w as u64) >= (p.offset_minutes as u64) && (w as u64) < (p.offset_minutes as u64) + (
        p.duration_minutes as u64) && !is_filler_phase_name(p.name.as_str()) {
            proof {
                lemma_first_phase_found(phases@, active_at(w as int), i as int);
            }
            return Some(i);
        }
        i = i + 1;
    }
    assert(phases@.take(i as int) == phases@);
    None
}

/// Index of the first non-filler phase, after cycle minute `w` when `after`.
fn find_real(phases: &Vec<MetaPhase>, w: u32, after: bool) -> (r: Option<usize>)
    ensures
        match r {
            Some(i) => first_phase(phases@, if after { real_after(w as int) } else { non_filler() }) == Some(
                i as int,
            ),
            None => first_phase(phases@, if after { real_after(w as int) } else { non_filler() }) is None,
        },
{
    let ghost pred = if after {
        real_after(w as int)
    } else {
        non_filler()
    };
    let mut i: usize = 0;
    while i < phases.len()
        invariant
            i <= phases.len(),
            pred == (if after { real_after(w as int) } else { non_filler() }),
            first_phase(phases@.take(i as int), pred) is None,
        decreases phases.len() - i,
    {
        assert(phases@.take(i + 1).drop_last() == phases@.take(i as int));
        let p = &phases[i];
        if !is_filler_phase_name(p.name.as_str()) && (!after || p.offset_minutes > w) {
            proof {
                lemma_first_phase_found(phases@, pred, i as int);
            }
            return Some(i);
        }
        i = i + 1;
    }
    assert(phases@.take(i as int) == phases@);
    None
}

/// Today's anchor of the meta's cycles.
fn anchor_datetime(meta: &MetaEvent, now: i128) -> (r: i128)
    requires
        in_time_range(now as int),
    ensures
        r == anchor_of(*meta, now as int),
        now - NANOS_PER_DAY < r < now + NANOS_PER_DAY,
{
    proof {
        lemma_hm_range(meta.anchor_utc@);
    }
    let minute: i128 = match parse_hm(meta.anchor_utc.as_str()) {
        Ok((h, m)) => (h as i128) * 60 + (m as i128),
        Err(_) => 0,
    };
    today_midnight(now) + minute * NANOS_PER_MINUTE
}

/// For a meta event with cyclical phases, the currently active phase (if
/// any) and the start of the next phase, both anchored to UTC. Filler
/// phases never count as active and are skipped when looking for the next
/// phase.
pub fn current_meta_phase(meta: &MetaEvent, now: i128) -> (r: MetaPhaseInstant)
    requires
        in_time_range(now as int),
        meta_well_formed(*meta),
    ensures
        instant_matches(r, *meta, now as int),
{
    let anchor = anchor_datetime(meta, now);
    let cycle = meta.cycle_minutes as i128;
    let period = cycle * NANOS_PER_MINUTE;
    let elapsed = now - anchor;
    let forward = if elapsed > -NANOS_PER_MINUTE {
        elapsed
    } else {
        let k = (-NANOS_PER_MINUTE - elapsed) / period + 1;
        proof {
            assert(k as int == (-NANOS_PER_MINUTE - elapsed) / (period as int) + 1);
            assert(period * (k - 1) <= -NANOS_PER_MINUTE - elapsed) by (nonlinear_arith)
                requires
                    period > 0,
                    -NANOS_PER_MINUTE - elapsed >= 0,
                    k - 1 == (-NANOS_PER_MINUTE - elapsed) / (period as int),
            ;
            assert(period * k == period * (k - 1) + period) by (nonlinear_arith);
            assert(period * k > -NANOS_PER_MINUTE - elapsed) by (nonlinear_arith)
                requires
                    period > 0,
                    -NANOS_PER_MINUTE - elapsed >= 0,
                    k - 1 == (-NANOS_PER_MINUTE - elapsed) / (period as int),
            ;
        }
        elapsed + period * k
    };
    assert(forward == forward_elapsed(elapsed as int, period as int));
    let minutes = if forward >= 0 {
        forward / NANOS_PER_MINUTE
    } else {
        0
    };
    proof {
        assert(forward > -NANOS_PER_MINUTE);
        if forward < 0 {
            assert((-forward) / (NANOS_PER_MINUTE as int) == 0);
        } else {
            assert(minutes == (forward as int) / (NANOS_PER_MINUTE as int));
        }
    }
    assert(minutes == whole_minutes(forward as int));
    let within = (minutes % cycle) as u32;
    let origin = now - (within as i128) * NANOS_PER_MINUTE;
    proof {
        lemma_first_phase_bounds(meta.phases@, active_at(within as int));
        lemma_first_phase_bounds(meta.phases@, real_after(within as int));
        lemma_first_phase_bounds(meta.phases@, non_filler());
    }
    let active = match find_active(&meta.phases, within) {
        Some(i) => {
            let p = &meta.phases[i];
            Some(
                ActivePhase {
                    name: p.name.clone(),
                    started_at: origin + (p.offset_minutes as i128) * NANOS_PER_MINUTE,
                    ends_at: origin + ((p.offset_minutes + p.duration_minutes) as i128)
                        * NANOS_PER_MINUTE,
                },
            )
        },
        None => None,
    };
    let next = match find_real(&meta.phases, within, true) {
        Some(i) => {
            let p = &meta.phases[i];
            NextPhase {
                name: p.name.clone(),
                starts_at: origin + (p.offset_minutes as i128) * NANOS_PER_MINUTE,
            }
        },
        None => {
            let j = match find_real(&meta.phases, within, false) {
                Some(j) => j,
                None => 0,
            };
            proof {
                lemma_first_phase_bounds(meta.phases@, non_filler());
            }
            let p = &meta.phases[j];
            NextPhase {
                name: p.name.clone(),
                starts_at: origin + period + (p.offset_minutes as i128) * NANOS_PER_MINUTE,
            }
        },
    };
    MetaPhaseInstant { active, next }
}


// ---------------------------------------------------------------------------
// Upcoming events
// ---------------------------------------------------------------------------

#[derive(Debug, Clone, Copy, PartialEq, Eq, Structural)]
pub enum UpcomingKind {
    WorldBoss,
    MetaPhase,
}

/// An event that is on now or starts within the horizon.
#[derive(Debug, Clone, PartialEq, Eq)]
pub struct UpcomingEvent {
    pub id: String,
    pub name: String,
    pub map: String,
    pub kind: UpcomingKind,
    pub start_at: i128,
    pub duration_minutes: u32,
    pub waypoint_code: Option<String>,
}

/// What an upcoming event says, its strings by their text: id, name, map,
/// kind, start, duration, waypoint.
pub type EventFacts = (Seq<char>, Seq<char>, Seq<char>, UpcomingKind, i128, u32, Option<Seq<char>>);


pub open spec fn facts_of(e: UpcomingEvent) -> EventFacts {
    (e.id@, e.name@, e.map@, e.kind, e.start_at, e.duration_minutes, opt_text(e.waypoint_code))
}

/// The spawn of boss `b` whose duration window is open at `now`, if any.
pub open spec fn boss_window(b: WorldBoss, now: int) -> Option<int> {
    match prev_spawn_of(b.schedule_utc@, now) {
        Some(p) => if now < p + b.duration_minutes * NANOS_PER_MINUTE {
            Some(p)
        } else {
            None
        },
        None => None,
    }
}

/// When boss `b` is shown as starting: the open window's spawn, else the
/// next spawn.
pub open spec fn boss_start(b: WorldBoss, now: int) -> int {
    match boss_window(b, now) {
        Some(p) => p,
        None => next_spawn_of(b.schedule_utc@, now),
    }
}

/// The upcoming entry of boss `b`: while its window is open, else when its
/// next spawn is within the horizon.
pub open spec fn boss_upcoming(b: WorldBoss, now: int, horizon: int) -> Option<EventFacts> {
    let facts = (
        b.id@,
        b.name@,
        b.map@,
        UpcomingKind::WorldBoss,
        boss_start(b, now) as i128,
        b.duration_minutes,
        opt_text(b.waypoint_code),
    );
    if boss_window(b, now) is Some || boss_start(b, now) <= horizon {
        Some(facts)
    } else {
        None
    }
}

/// Whether every meta event of the schedule is fit for the phase
/// computations (see `meta_well_formed`).
pub fn metas_fit(schedule: &Schedule) -> (r: bool)
    ensures
        r == metas_well_formed(*schedule),
{
    let mut i: usize = 0;
    while i < schedule.meta_events.len()
        invariant
            i <= schedule.meta_events.len(),
            forall|k: int| 0 <= k < i ==> #[trigger] meta_well_formed(schedule.meta_events@[k]),
        decreases schedule.meta_events.len() - i,
    {
        let m = &schedule.meta_events[i];
        if m.cycle_minutes == 0 || m.phases.len() == 0 {
            assert(!meta_well_formed(schedule.meta_events@[i as int]));
            return false;
        }
        let mut j: usize = 0;
        while j < m.phases.len()
            invariant
                j <= m.phases.len(),
                i < schedule.meta_events.len(),
                *m == schedule.meta_events@[i as int],
                forall|k: int|
                    0 <= k < j ==> (#[trigger] m.phases@[k]).offset_minutes
                        + m.phases@[k].duration_minutes <= u32::MAX,
            decreases m.phases.len() - j,
        {
            if m.phases[j].offset_minutes > u32::MAX - m.phases[j].duration_minutes {
                assert(!meta_well_formed(schedule.meta_events@[i as int])) by {
                    assert(!(m.phases@[j as int].offset_minutes + m.phases@[j as int].duration_minutes
                        <= u32::MAX));
                };
                return false;
            }
            j = j + 1;
        }
        assert(meta_well_formed(schedule.meta_events@[i as int]));
        i = i + 1;
    }
    true
}

/// The duration of the first phase named `name` (0 when no phase is).
pub open spec fn duration_named(ps: Seq<MetaPhase>, name: Seq<char>) -> u32 {
    match first_phase(ps, |p: MetaPhase| p.name@ == name) {
        Some(i) => ps[i].duration_minutes,
        None => 0,
    }
}

/// The upcoming entry of meta `m`: its active phase, else its next phase
/// when that starts within the horizon.
pub open spec fn meta_upcoming(m: MetaEvent, now: int, horizon: int) -> Option<EventFacts> {
    let ps = m.phases@;
    let w = cycle_position(m, now);
    match first_phase(ps, active_at(w)) {
        Some(i) => Some(
            (
                m.id@,
                m.name@ + " — "@ + ps[i].name@,
                m.map@,
                UpcomingKind::MetaPhase,
                (cycle_origin(m, now) + ps[i].offset_minutes * NANOS_PER_MINUTE) as i128,
                duration_named(ps, ps[i].name@),
                opt_text(m.waypoint_code),
            ),
        ),
        None => {
            let (j, t) = next_phase_of(m, now);
            if t <= horizon {
                Some(
                    (
                        m.id@,
                        m.name@ + " — "@ + ps[j].name@,
                        m.map@,
                        UpcomingKind::MetaPhase,
                        t as i128,
                        duration_named(ps, ps[j].name@),
                        opt_text(m.waypoint_code),
                    ),
                )
            } else {
                None
            }
        },
    }
}

pub open spec fn boss_events(bs: Seq<WorldBoss>, now: int, horizon: int) -> Seq<EventFacts>
    decreases bs.len(),
{
    if bs.len() == 0 {
        Seq::empty()
    } else {
        let prev = boss_events(bs.drop_last(), now, horizon);
        match boss_upcoming(bs.last(), now, horizon) {
            Some(f) => prev.push(f),
            None => prev,
        }
    }
}

pub open spec fn meta_events_of(ms: Seq<MetaEvent>, now: int, horizon: int) -> Seq<EventFacts>
    decreases ms.len(),
{
    if ms.len() == 0 {
        Seq::empty()
    } else {
        let prev = meta_events_of(ms.drop_last(), now, horizon);
        match meta_upcoming(ms.last(), now, horizon) {
            Some(f) => prev.push(f),
            None => prev,
        }
    }
}

/// The upcoming entries before sorting: bosses, then meta events, in
/// schedule order.
pub open spec fn raw_upcoming(s: Schedule, now: int, horizon: int) -> Seq<EventFacts> {
    boss_events(s.world_bosses@, now, horizon) + meta_events_of(s.meta_events@, now, horizon)
}

pub open spec fn start_keys(fs: Seq<EventFacts>) -> Seq<i128> {
    fs.map_values(|f: EventFacts| f.4)
}

/// Every meta event of the schedule is fit for the phase computations.
pub open spec fn metas_well_formed(s: Schedule) -> bool {
    forall|i: int| 0 <= i < s.meta_events.len() ==> #[trigger] meta_well_formed(s.meta_events@[i])
}

/// The duration of the first phase named `name` (0 when no phase is).
pub fn duration_of_name(phases: &Vec<MetaPhase>, name: &String) -> (r: u32)
    ensures
        r == duration_named(phases@, name@),
{
    let ghost pred = |p: MetaPhase| p.name@ == name@;
    let mut i: usize = 0;
    while i < phases.len()
        invariant
            i <= phases.len(),
            pred == (|p: MetaPhase| p.name@ == name@),
            first_phase(phases@.take(i as int), pred) is None,
        decreases phases.len() - i,
    {
        assert(phases@.take(i + 1).drop_last() == phases@.take(i as int));
        if phases[i].name == *name {
            proof {
                lemma_first_phase_found(phases@, pred, i as int);
            }
            return phases[i].duration_minutes;
        }
        i = i + 1;
    }
    assert(phases@.take(i as int) == phases@);
    0
}

/// The open window's spawn of `boss` at `now`, if any.
fn boss_window_exec(boss: &WorldBoss, now: i128) -> (r: Option<i128>)
    requires
        in_time_range(now as int),
    ensures
        match r {
            Some(p) => boss_window(*boss, now as int) == Some(p as int),
            None => boss_window(*boss, now as int) is None,
        },
        r matches Some(p) ==> now - 2 * NANOS_PER_DAY < p <= now,
{
    match prev_spawn(boss, now) {
        Some(p) => {
            if now < p + (boss.duration_minutes as i128) * NANOS_PER_MINUTE {
                Some(p)
            } else {
                None
            }
        },
        None => None,
    }
}

/// When `boss` is shown as starting (see `boss_start`).
pub fn boss_start_at(boss: &WorldBoss, now: i128) -> (r: i128)
    requires
        in_time_range(now as int),
    ensures
        r == boss_start(*boss, now as int),
        now - 2 * NANOS_PER_DAY < r <= now + 2 * NANOS_PER_DAY,
{
    match boss_window_exec(boss, now) {
        Some(p) => p,
        None => next_spawn(boss, now),
    }
}

/// The upcoming entry of `meta` (see `meta_upcoming`).
fn meta_upcoming_exec(meta: &MetaEvent, now: i128, horizon: i128) -> (r: Option<UpcomingEvent>)
    requires
        in_time_range(now as int),
        meta_well_formed(*meta),
    ensures
        match r {
            Some(e) => meta_upcoming(*meta, now as int, horizon as int) == Some(facts_of(e)),
            None => meta_upcoming(*meta, now as int, horizon as int) is None,
        },
{
    let instant = current_meta_phase(meta, now);
    proof {
        lemma_first_phase_bounds(meta.phases@, active_at(cycle_position(*meta, now as int)));
        lemma_first_phase_bounds(meta.phases@, real_after(cycle_position(*meta, now as int)));
        lemma_first_phase_bounds(meta.phases@, non_filler());
    }
    match instant.active {
        Some(active) => {
            let dur = duration_of_name(&meta.phases, &active.name);
            let head = concat(meta.name.as_str(), " — ");
            Some(
                UpcomingEvent {
                    id: meta.id.clone(),
                    name: concat(head.as_str(), active.name.as_str()),
                    map: meta.map.clone(),
                    kind: UpcomingKind::MetaPhase,
                    start_at: active.started_at,
                    duration_minutes: dur,
                    waypoint_code: meta.waypoint_code.clone(),
                },
            )
        },
        None => {
            if instant.next.starts_at <= horizon {
                let dur = duration_of_name(&meta.phases, &instant.next.name);
                let head = concat(meta.name.as_str(), " — ");
                Some(
                    UpcomingEvent {
                        id: meta.id.clone(),
                        name: concat(head.as_str(), instant.next.name.as_str()),
                        map: meta.map.clone(),
                        kind: UpcomingKind::MetaPhase,
                        start_at: instant.next.starts_at,
                        duration_minutes: dur,
                        waypoint_code: meta.waypoint_code.clone(),
                    },
                )
            } else {
                None
            }
        },
    }
}

/// Upcoming events (bosses and meta phases) that are on now or start
/// within the next `horizon_minutes`, sorted ascending by start time (ties
/// in schedule order).
pub fn all_upcoming(schedule: &Schedule, now: i128, horizon_minutes: i64) -> (r: Vec<UpcomingEvent>)
    requires
        in_time_range(now as int),
        in_time_range(now + horizon_minutes * NANOS_PER_MINUTE),
        metas_well_formed(*schedule),
    ensures
        r@.map_values(|e: UpcomingEvent| facts_of(e)) == stable_sorted(
            raw_upcoming(*schedule, now as int, now + horizon_minutes * NANOS_PER_MINUTE),
            start_keys(
                raw_upcoming(*schedule, now as int, now + horizon_minutes * NANOS_PER_MINUTE),
            ),
        ).0,
{
    let horizon = now + (horizon_minutes as i128) * NANOS_PER_MINUTE;
    let ghost fo = |e: UpcomingEvent| facts_of(e);
    let mut out: Vec<UpcomingEvent> = Vec::new();
    let mut keys: Vec<i128> = Vec::new();
    let mut b: usize = 0;
    while b < schedule.world_bosses.len()
        invariant
            b <= schedule.world_bosses.len(),
            in_time_range(now as int),
            horizon == now + horizon_minutes * NANOS_PER_MINUTE,
            fo == (|e: UpcomingEvent| facts_of(e)),
            out@.map_values(fo) == boss_events(
                schedule.world_bosses@.take(b as int),
                now as int,
                horizon as int,
            ),
            keys@ == start_keys(out@.map_values(fo)),
        decreases schedule.world_bosses.len() - b,
    {
        let ghost bs = schedule.world_bosses@.take(b + 1);
        assert(bs.drop_last() == schedule.world_bosses@.take(b as int));
        assert(bs.last() == schedule.world_bosses@[b as int]);
        let boss = &schedule.world_bosses[b];
        let window = boss_window_exec(boss, now);
        let start = boss_start_at(boss, now);
        if window.is_some() || start <= horizon {
            let e = UpcomingEvent {
                id: boss.id.clone(),
                name: boss.name.clone(),
                map: boss.map.clone(),
                kind: UpcomingKind::WorldBoss,
                start_at: start,
                duration_minutes: boss.duration_minutes,
                waypoint_code: boss.waypoint_code.clone(),
            };
            let ghost before = out@;
            out.push(e);
            keys.push(start);
            assert(out@.map_values(fo) =~= before.map_values(fo).push(facts_of(e)));
            assert(start_keys(out@.map_values(fo)) =~= start_keys(before.map_values(fo)).push(
                start,
            ));
        }
        b = b + 1;
    }
    assert(schedule.world_bosses@.take(b as int) == schedule.world_bosses@);
    let ghost heads = out@.map_values(fo);
    let mut k: usize = 0;
    while k < schedule.meta_events.len()
        invariant
            k <= schedule.meta_events.len(),
            in_time_range(now as int),
            metas_well_formed(*schedule),
            fo == (|e: UpcomingEvent| facts_of(e)),
            heads == boss_events(schedule.world_bosses@, now as int, horizon as int),
            out@.map_values(fo) == heads + meta_events_of(
                schedule.meta_events@.take(k as int),
                now as int,
                horizon as int,
            ),
            keys@ == start_keys(out@.map_values(fo)),
        decreases schedule.meta_events.len() - k,
    {
        let ghost ms = schedule.meta_events@.take(k + 1);
        assert(ms.drop_last() == schedule.meta_events@.take(k as int));
        assert(ms.last() == schedule.meta_events@[k as int]);
        assert(meta_well_formed(schedule.meta_events@[k as int]));
        match meta_upcoming_exec(&schedule.meta_events[k], now, horizon) {
            Some(e) => {
                let start = e.start_at;
                let ghost before = out@;
                out.push(e);
                keys.push(start);
                assert(out@.map_values(fo) =~= before.map_values(fo).push(facts_of(e)));
                assert(start_keys(out@.map_values(fo)) =~= start_keys(before.map_values(fo)).push(
                    start,
                ));
            },
            None => {},
        }
        k = k + 1;
    }
    assert(schedule.meta_events@.take(k as int) == schedule.meta_events@);
    proof {
        assert(out@.map_values(fo).len() == out@.len());
        assert(keys@.len() == out@.len());
    }
    let ghost items = out@;
    let ghost ks = keys@;
    let (sorted, _sorted_keys) = stable_sort_by_key(out, keys);
    proof {
        lemma_sorted_map(items, ks, fo);
    }
    sorted
}


/// Every raw entry is on now or starts within the horizon.
proof fn lemma_raw_within(s: Schedule, now: int, horizon: int)
    requires
        in_time_range(now),
        metas_well_formed(s),
    ensures
        forall|i: int|
            0 <= i < raw_upcoming(s, now, horizon).len() ==> {
                let t = (#[trigger] raw_upcoming(s, now, horizon)[i]).4;
                t <= now || t <= horizon
            },
{
    lemma_boss_events_within(s.world_bosses@, now, horizon);
    lemma_meta_events_within(s.meta_events@, now, horizon);
    let a = boss_events(s.world_bosses@, now, horizon);
    let b = meta_events_of(s.meta_events@, now, horizon);
    assert forall|i: int| 0 <= i < (a + b).len() implies {
        let t = (#[trigger] (a + b)[i]).4;
        t <= now || t <= horizon
    } by {
        if i < a.len() {
            assert((a + b)[i] == a[i]);
        } else {
            assert((a + b)[i] == b[i - a.len()]);
        }
    };
}

proof fn lemma_boss_events_within(bs: Seq<WorldBoss>, now: int, horizon: int)
    requires
        in_time_range(now),
    ensures
        forall|i: int|
            0 <= i < boss_events(bs, now, horizon).len() ==> {
                let t = (#[trigger] boss_events(bs, now, horizon)[i]).4;
                t <= now || t <= horizon
            },
    decreases bs.len(),
{
    if bs.len() > 0 {
        let prev = boss_events(bs.drop_last(), now, horizon);
        lemma_boss_events_within(bs.drop_last(), now, horizon);
        let b = bs.last();
        lemma_boss_start_bounds(b, now);
        let cur = boss_events(bs, now, horizon);
        assert forall|i: int| 0 <= i < cur.len() implies {
            let t = (#[trigger] cur[i]).4;
            t <= now || t <= horizon
        } by {
            if i < prev.len() {
                assert(cur[i] == prev[i]);
            }
        };
    }
}

proof fn lemma_boss_start_bounds(b: WorldBoss, now: int)
    requires
        in_time_range(now),
    ensures
        now - 2 * NANOS_PER_DAY < boss_start(b, now) <= now + 2 * NANOS_PER_DAY,
        boss_window(b, now) is Some ==> boss_start(b, now) <= now,
{
    lemma_prev_spawn_bounds(b.schedule_utc@, now);
    lemma_next_spawn_bounds(b.schedule_utc@, now);
}

proof fn lemma_prev_spawn_bounds(times: Seq<String>, now: int)
    requires
        in_time_range(now),
    ensures
        prev_spawn_of(times, now) matches Some(t) ==> now - 2 * NANOS_PER_DAY < t <= now,
{
    let ms = spawn_minutes(times);
    let mid = floor_day(now);
    lemma_minutes_bounds(times);
    lemma_floor_day(now);
    lemma_max_at_most_in(at_minutes(ms, mid), now);
    lemma_seq_max_in(ms);
    if let Some(t) = max_at_most(at_minutes(ms, mid), now) {
        let k = choose|k: int| 0 <= k < ms.len() && at_minutes(ms, mid)[k] == t;
        assert(0 <= ms[k] < 1440);
    } else if let Some(o) = seq_max(ms) {
        let k = choose|k: int| 0 <= k < ms.len() && ms[k] == o;
        assert(0 <= ms[k] < 1440);
    }
}

/// The next spawn of a schedule is strictly after `now` and at most two
/// days later.
pub proof fn lemma_next_spawn_bounds(times: Seq<String>, now: int)
    requires
        in_time_range(now),
    ensures
        now < next_spawn_of(times, now) <= now + 2 * NANOS_PER_DAY,
{
    let ms = spawn_minutes(times);
    let mid = floor_day(now);
    lemma_minutes_bounds(times);
    lemma_floor_day(now);
    lemma_min_above_in(at_minutes(ms, mid), now);
    if let Some(t) = min_above(at_minutes(ms, mid), now) {
        let k = choose|k: int| 0 <= k < ms.len() && at_minutes(ms, mid)[k] == t;
        assert(0 <= ms[k] < 1440);
    } else {
        lemma_seq_min_in(ms);
        if let Some(o) = seq_min(ms) {
            let k = choose|k: int| 0 <= k < ms.len() && ms[k] == o;
            assert(0 <= ms[k] < 1440);
        }
    }
}

proof fn lemma_floor_day(t: int)
    ensures
        floor_day(t) <= t < floor_day(t) + NANOS_PER_DAY,
{
    vstd::arithmetic::div_mod::lemma_fundamental_div_mod(t, NANOS_PER_DAY as int);
}

proof fn lemma_max_at_most_in(s: Seq<int>, bound: int)
    ensures
        max_at_most(s, bound) matches Some(t) ==> t <= bound && exists|k: int|
            0 <= k < s.len() && s[k] == t,
    decreases s.len(),
{
    if s.len() > 0 {
        lemma_max_at_most_in(s.drop_last(), bound);
        if let Some(t) = max_at_most(s.drop_last(), bound) {
            let k = choose|k: int| 0 <= k < s.drop_last().len() && s.drop_last()[k] == t;
            assert(s[k] == t);
        }
        assert(s[s.len() - 1] == s.last());
    }
}

proof fn lemma_min_above_in(s: Seq<int>, bound: int)
    ensures
        min_above(s, bound) matches Some(t) ==> t > bound && exists|k: int|
            0 <= k < s.len() && s[k] == t,
    decreases s.len(),
{
    if s.len() > 0 {
        lemma_min_above_in(s.drop_last(), bound);
        if let Some(t) = min_above(s.drop_last(), bound) {
            let k = choose|k: int| 0 <= k < s.drop_last().len() && s.drop_last()[k] == t;
            assert(s[k] == t);
        }
        assert(s[s.len() - 1] == s.last());
    }
}

proof fn lemma_seq_min_in(s: Seq<int>)
    ensures
        seq_min(s) matches Some(t) ==> exists|k: int| 0 <= k < s.len() && s[k] == t,
    decreases s.len(),
{
    if s.len() > 0 {
        lemma_seq_min_in(s.drop_last());
        if let Some(t) = seq_min(s.drop_last()) {
            let k = choose|k: int| 0 <= k < s.drop_last().len() && s.drop_last()[k] == t;
            assert(s[k] == t);
        }
        assert(s[s.len() - 1] == s.last());
    }
}

proof fn lemma_seq_max_in(s: Seq<int>)
    ensures
        seq_max(s) matches Some(t) ==> exists|k: int| 0 <= k < s.len() && s[k] == t,
    decreases s.len(),
{
    if s.len() > 0 {
        lemma_seq_max_in(s.drop_last());
        if let Some(t) = seq_max(s.drop_last()) {
            let k = choose|k: int| 0 <= k < s.drop_last().len() && s.drop_last()[k] == t;
            assert(s[k] == t);
        }
        assert(s[s.len() - 1] == s.last());
    }
}

proof fn lemma_meta_events_within(ms: Seq<MetaEvent>, now: int, horizon: int)
    requires
        in_time_range(now),
        forall|i: int| 0 <= i < ms.len() ==> #[trigger] meta_well_formed(ms[i]),
    ensures
        forall|i: int|
            0 <= i < meta_events_of(ms, now, horizon).len() ==> {
                let t = (#[trigger] meta_events_of(ms, now, horizon)[i]).4;
                t <= now || t <= horizon
            },
    decreases ms.len(),
{
    if ms.len() > 0 {
        let prev = meta_events_of(ms.drop_last(), now, horizon);
        assert forall|i: int| 0 <= i < ms.drop_last().len() implies #[trigger] meta_well_formed(
            ms.drop_last()[i],
        ) by {
            assert(ms.drop_last()[i] == ms[i]);
        };
        lemma_meta_events_within(ms.drop_last(), now, horizon);
        let m = ms.last();
        assert(meta_well_formed(ms[ms.len() - 1]));
        lemma_meta_upcoming_within(m, now, horizon);
        let cur = meta_events_of(ms, now, horizon);
        assert forall|i: int| 0 <= i < cur.len() implies {
            let t = (#[trigger] cur[i]).4;
            t <= now || t <= horizon
        } by {
            if i < prev.len() {
                assert(cur[i] == prev[i]);
            }
        };
    }
}

proof fn lemma_meta_upcoming_within(m: MetaEvent, now: int, horizon: int)
    requires
        in_time_range(now),
        meta_well_formed(m),
    ensures
        meta_upcoming(m, now, horizon) matches Some(f) ==> f.4 <= now || f.4 <= horizon,
{
    let w = cycle_position(m, now);
    let ps = m.phases@;
    assert(0 <= w < m.cycle_minutes);
    lemma_first_phase_bounds(ps, active_at(w));
    lemma_next_phase_bounds(m, now);
    if let Some(i) = first_phase(ps, active_at(w)) {
        assert(w >= ps[i].offset_minutes);
        let t = cycle_origin(m, now) + ps[i].offset_minutes * NANOS_PER_MINUTE;
        assert(t <= now) by (nonlinear_arith)
            requires
                t == now - w * NANOS_PER_MINUTE + ps[i].offset_minutes * NANOS_PER_MINUTE,
                w >= ps[i].offset_minutes,
        ;
        assert(t >= now - w * NANOS_PER_MINUTE);
        assert(w * NANOS_PER_MINUTE <= (u32::MAX as int) * NANOS_PER_MINUTE) by (nonlinear_arith)
            requires
                0 <= w <= u32::MAX,
        ;
    }
}

proof fn lemma_next_phase_bounds(m: MetaEvent, now: int)
    requires
        in_time_range(now),
        meta_well_formed(m),
    ensures
        next_phase_of(m, now).1 as i128 == next_phase_of(m, now).1,
        0 <= next_phase_of(m, now).0 < m.phases.len(),
{
    let w = cycle_position(m, now);
    let ps = m.phases@;
    assert(0 <= w < m.cycle_minutes);
    lemma_first_phase_bounds(ps, real_after(w));
    lemma_first_phase_bounds(ps, non_filler());
    let j = next_phase_of(m, now).0;
    let off = ps[j].offset_minutes;
    assert(w * NANOS_PER_MINUTE <= (u32::MAX as int) * NANOS_PER_MINUTE) by (nonlinear_arith)
        requires
            0 <= w <= u32::MAX,
    ;
    assert(off * NANOS_PER_MINUTE <= (u32::MAX as int) * NANOS_PER_MINUTE) by (nonlinear_arith)
        requires
            0 <= off <= u32::MAX,
    ;
    assert(m.cycle_minutes * NANOS_PER_MINUTE <= (u32::MAX as int) * NANOS_PER_MINUTE)
        by (nonlinear_arith)
        requires
            0 <= m.cycle_minutes <= u32::MAX,
    ;
}

/// The upcoming feed holds each upcoming boss spawn and meta phase exactly
/// once, in ascending order of start, and every event in it is on now or
/// starts within the horizon.
pub proof fn lemma_upcoming_in_order(
    r: Seq<UpcomingEvent>,
    schedule: Schedule,
    now: int,
    horizon: int,
)
    requires
        in_time_range(now),
        metas_well_formed(schedule),
        r.map_values(|e: UpcomingEvent| facts_of(e)) == stable_sorted(
            raw_upcoming(schedule, now, horizon),
            start_keys(raw_upcoming(schedule, now, horizon)),
        ).0,
    ensures
        r.map_values(|e: UpcomingEvent| facts_of(e)).to_multiset() == raw_upcoming(
            schedule,
            now,
            horizon,
        ).to_multiset(),
        forall|i: int, j: int| 0 <= i < j < r.len() ==> (#[trigger] r[i]).start_at <= (#[trigger] r[j]).start_at,
        forall|i: int| 0 <= i < r.len() ==> (#[trigger] r[i]).start_at <= now || r[i].start_at <= horizon,
{
    let raw = raw_upcoming(schedule, now, horizon);
    let keys = start_keys(raw);
    let key_of = |f: EventFacts| f.4;
    assert forall|m: int| 0 <= m < raw.len() implies #[trigger] keys[m] == key_of(raw[m]) by {};
    lemma_sorted_len(raw, keys);
    lemma_sorted_pairs(raw, keys, key_of);
    lemma_sorted_ascending(raw, keys);
    lemma_sorted_permutes(raw, keys);
    lemma_raw_within(schedule, now, horizon);
    let sorted = stable_sorted(raw, keys);
    let fr = r.map_values(|e: UpcomingEvent| facts_of(e));
    assert(fr.len() == r.len());
    assert forall|i: int, j: int| 0 <= i < j < r.len() implies (#[trigger] r[i]).start_at <= (
    #[trigger] r[j]).start_at by {
        assert(fr[i] == facts_of(r[i]) && fr[j] == facts_of(r[j]));
        assert(sorted.1[i] <= sorted.1[j]);
        assert(sorted.1[i] == key_of(sorted.0[i]));
        assert(sorted.1[j] == key_of(sorted.0[j]));
    };
    assert forall|i: int| 0 <= i < r.len() implies (#[trigger] r[i]).start_at <= now || r[i].start_at
        <= horizon by {
        assert(fr[i] == facts_of(r[i]));
        assert(raw.contains(sorted.0[i]));
        let k = choose|k: int| 0 <= k < raw.len() && raw[k] == sorted.0[i];
        assert(raw[k].4 <= now || raw[k].4 <= horizon);
    };
}

/// The world bosses of `s` have distinct ids.
pub open spec fn boss_ids_distinct(s: Schedule) -> bool {
    forall|i: int, j: int|
        0 <= i < j < s.world_bosses.len() ==> (#[trigger] s.world_bosses@[i]).id@ != (
        #[trigger] s.world_bosses@[j]).id@
}

/// Boss entries with an id no boss of `bs` has do not occur.
proof fn lemma_boss_count_absent(bs: Seq<WorldBoss>, now: int, horizon: int, f: EventFacts)
    requires
        forall|j: int| 0 <= j < bs.len() ==> (#[trigger] bs[j]).id@ != f.0,
    ensures
        boss_events(bs, now, horizon).to_multiset().count(f) == 0,
    decreases bs.len(),
{
    broadcast use vstd::seq_lib::group_to_multiset_ensures, vstd::multiset::group_multiset_axioms;

    if bs.len() > 0 {
        let d = bs.drop_last();
        assert forall|j: int| 0 <= j < d.len() implies (#[trigger] d[j]).id@ != f.0 by {
            assert(d[j] == bs[j]);
        };
        lemma_boss_count_absent(d, now, horizon, f);
        assert(bs[bs.len() - 1] == bs.last());
    }
}

/// The entry of boss `k` occurs once among the boss entries when the boss
/// is listed, and no other entry carries its id.
proof fn lemma_boss_count(bs: Seq<WorldBoss>, now: int, horizon: int, k: int, f: EventFacts)
    requires
        0 <= k < bs.len(),
        forall|i: int, j: int| 0 <= i < j < bs.len() ==> (#[trigger] bs[i]).id@ != (#[trigger] bs[j]).id@,
        f.0 == bs[k].id@,
    ensures
        boss_events(bs, now, horizon).to_multiset().count(f) == if boss_upcoming(bs[k], now, horizon)
            == Some(f) {
            1int
        } else {
            0
        },
    decreases bs.len(),
{
    broadcast use vstd::seq_lib::group_to_multiset_ensures, vstd::multiset::group_multiset_axioms;

    let d = bs.drop_last();
    assert forall|i: int, j: int| 0 <= i < j < d.len() implies (#[trigger] d[i]).id@ != (
    #[trigger] d[j]).id@ by {
        assert(d[i] == bs[i] && d[j] == bs[j]);
    };
    if k == bs.len() - 1 {
        assert forall|j: int| 0 <= j < d.len() implies (#[trigger] d[j]).id@ != f.0 by {
            assert(d[j] == bs[j]);
        };
        lemma_boss_count_absent(d, now, horizon, f);
        assert(bs.last() == bs[k]);
    } else {
        assert(d[k] == bs[k]);
        lemma_boss_count(d, now, horizon, k, f);
        assert(bs.last() == bs[bs.len() - 1]);
        assert(bs.last().id@ != f.0);
    }
}

/// Meta entries are never boss entries.
proof fn lemma_meta_count_absent(ms: Seq<MetaEvent>, now: int, horizon: int, f: EventFacts)
    requires
        f.3 == UpcomingKind::WorldBoss,
    ensures
        meta_events_of(ms, now, horizon).to_multiset().count(f) == 0,
    decreases ms.len(),
{
    broadcast use vstd::seq_lib::group_to_multiset_ensures, vstd::multiset::group_multiset_axioms;

    if ms.len() > 0 {
        lemma_meta_count_absent(ms.drop_last(), now, horizon, f);
    }
}

/// With distinct boss ids, the feed lists each world boss at most once:
/// exactly when its window is open now or its next spawn falls within the
/// horizon, and then as that spawn (see `boss_upcoming`).
pub proof fn lemma_boss_listed_once(
    r: Seq<UpcomingEvent>,
    schedule: Schedule,
    now: int,
    horizon: int,
    k: int,
)
    requires
        in_time_range(now),
        metas_well_formed(schedule),
        boss_ids_distinct(schedule),
        0 <= k < schedule.world_bosses.len(),
        r.map_values(|e: UpcomingEvent| facts_of(e)) == stable_sorted(
            raw_upcoming(schedule, now, horizon),
            start_keys(raw_upcoming(schedule, now, horizon)),
        ).0,
    ensures
        forall|i: int|
            0 <= i < r.len() && (#[trigger] r[i]).kind == UpcomingKind::WorldBoss && r[i].id@
                == schedule.world_bosses@[k].id@ ==> boss_upcoming(
                schedule.world_bosses@[k],
                now,
                horizon,
            ) == Some(facts_of(r[i])),
        forall|i: int, j: int|
            0 <= i < r.len() && 0 <= j < r.len() && (#[trigger] r[i]).kind == UpcomingKind::WorldBoss
                && (#[trigger] r[j]).kind == UpcomingKind::WorldBoss && r[i].id@
                == schedule.world_bosses@[k].id@ && r[j].id@ == schedule.world_bosses@[k].id@ ==> i
                == j,
        boss_upcoming(schedule.world_bosses@[k], now, horizon) is Some ==> exists|i: int|
            0 <= i < r.len() && Some(facts_of(#[trigger] r[i])) == boss_upcoming(
                schedule.world_bosses@[k],
                now,
                horizon,
            ),
{
    broadcast use vstd::seq_lib::group_to_multiset_ensures, vstd::multiset::group_multiset_axioms;

    let b = schedule.world_bosses@[k];
    let bs = schedule.world_bosses@;
    let raw = raw_upcoming(schedule, now, horizon);
    let fr = r.map_values(|e: UpcomingEvent| facts_of(e));
    lemma_upcoming_in_order(r, schedule, now, horizon);
    vstd::seq_lib::lemma_multiset_commutative(
        boss_events(bs, now, horizon),
        meta_events_of(schedule.meta_events@, now, horizon),
    );
    assert forall|f: EventFacts| f.0 == b.id@ && f.3 == UpcomingKind::WorldBoss implies #[trigger] fr.to_multiset().count(f)
        == if boss_upcoming(b, now, horizon) == Some(f) {
        1int
    } else {
        0
    } by {
        lemma_boss_count(bs, now, horizon, k, f);
        lemma_meta_count_absent(schedule.meta_events@, now, horizon, f);
    };
    assert forall|i: int|
        0 <= i < r.len() && (#[trigger] r[i]).kind == UpcomingKind::WorldBoss && r[i].id@ == b.id@ implies boss_upcoming(
        b,
        now,
        horizon,
    ) == Some(facts_of(r[i])) by {
        assert(fr[i] == facts_of(r[i]));
        assert(fr.contains(facts_of(r[i])));
        assert(fr.to_multiset().count(facts_of(r[i])) > 0);
    };
    assert forall|i: int, j: int|
        0 <= i < r.len() && 0 <= j < r.len() && (#[trigger] r[i]).kind == UpcomingKind::WorldBoss && (
        #[trigger] r[j]).kind == UpcomingKind::WorldBoss && r[i].id@ == b.id@ && r[j].id@ == b.id@ implies i
        == j by {
        if i != j {
            let f = facts_of(r[i]);
            assert(fr[i] == f && fr[j] == facts_of(r[j]));
            assert(fr.contains(f));
            assert(fr.to_multiset().count(f) > 0);
            assert(facts_of(r[j]) == f);
            let rest = fr.remove(i);
            let jj = if j < i { j } else { j - 1 };
            assert(rest[jj] == f);
            assert(rest.contains(f));
            assert(rest.to_multiset() =~= fr.to_multiset().remove(fr[i]));
            assert(rest.to_multiset().count(f) > 0);
            assert(fr.to_multiset().count(f) >= 2);
            assert(false);
        }
    };
    if let Some(f) = boss_upcoming(b, now, horizon) {
        assert(fr.to_multiset().count(f) == 1);
        assert(fr.contains(f));
        let i = choose|i: int| 0 <= i < fr.len() && fr[i] == f;
        assert(fr[i] == facts_of(r[i]));
    }
}

proof fn lemma_meta_events_has(ms: Seq<MetaEvent>, now: int, horizon: int, k: int)
    requires
        0 <= k < ms.len(),
        meta_upcoming(ms[k], now, horizon) is Some,
    ensures
        meta_events_of(ms, now, horizon).contains(meta_upcoming(ms[k], now, horizon)->0),
    decreases ms.len(),
{
    let d = ms.drop_last();
    let f = meta_upcoming(ms[k], now, horizon)->0;
    let prev = meta_events_of(d, now, horizon);
    if k == ms.len() - 1 {
        assert(ms.last() == ms[k]);
        assert(prev.push(f)[prev.len() as int] == f);
    } else {
        assert(d[k] == ms[k]);
        lemma_meta_events_has(d, now, horizon, k);
        let i = choose|i: int| 0 <= i < prev.len() && prev[i] == f;
        match meta_upcoming(ms.last(), now, horizon) {
            Some(y) => {
                assert(prev.push(y)[i] == f);
            },
            None => {},
        }
    }
}

proof fn lemma_boss_events_has(bs: Seq<WorldBoss>, now: int, horizon: int, k: int)
    requires
        0 <= k < bs.len(),
        boss_upcoming(bs[k], now, horizon) is Some,
    ensures
        boss_events(bs, now, horizon).contains(boss_upcoming(bs[k], now, horizon)->0),
    decreases bs.len(),
{
    let d = bs.drop_last();
    let f = boss_upcoming(bs[k], now, horizon)->0;
    let prev = boss_events(d, now, horizon);
    if k == bs.len() - 1 {
        assert(bs.last() == bs[k]);
        assert(prev.push(f)[prev.len() as int] == f);
    } else {
        assert(d[k] == bs[k]);
        lemma_boss_events_has(d, now, horizon, k);
        let i = choose|i: int| 0 <= i < prev.len() && prev[i] == f;
        match boss_upcoming(bs.last(), now, horizon) {
            Some(y) => {
                assert(prev.push(y)[i] == f);
            },
            None => {},
        }
    }
}

/// An entry of the unsorted list is in the feed.
proof fn lemma_raw_listed(r: Seq<UpcomingEvent>, schedule: Schedule, now: int, horizon: int, f: EventFacts)
    requires
        in_time_range(now),
        metas_well_formed(schedule),
        r.map_values(|e: UpcomingEvent| facts_of(e)) == stable_sorted(
            raw_upcoming(schedule, now, horizon),
            start_keys(raw_upcoming(schedule, now, horizon)),
        ).0,
        raw_upcoming(schedule, now, horizon).contains(f),
    ensures
        exists|j: int| 0 <= j < r.len() && facts_of(#[trigger] r[j]) == f,
{
    broadcast use vstd::seq_lib::group_to_multiset_ensures;

    let fr = r.map_values(|e: UpcomingEvent| facts_of(e));
    lemma_upcoming_in_order(r, schedule, now, horizon);
    assert(raw_upcoming(schedule, now, horizon).to_multiset().count(f) > 0);
    assert(fr.to_multiset().count(f) > 0);
    assert(fr.contains(f));
    let j = choose|j: int| 0 <= j < fr.len() && fr[j] == f;
    assert(fr[j] == facts_of(r[j]));
}

/// The feed misses no meta event that is due: one with a real phase under
/// way now is listed at that phase's start in the current cycle, and one
/// with none is listed at the start of its next real phase whenever that
/// start is within the horizon.
pub proof fn lemma_meta_listed_when_due(
    r: Seq<UpcomingEvent>,
    schedule: Schedule,
    now: int,
    horizon: int,
    k: int,
)
    requires
        in_time_range(now),
        metas_well_formed(schedule),
        0 <= k < schedule.meta_events.len(),
        r.map_values(|e: UpcomingEvent| facts_of(e)) == stable_sorted(
            raw_upcoming(schedule, now, horizon),
            start_keys(raw_upcoming(schedule, now, horizon)),
        ).0,
    ensures
        match first_phase(
            schedule.meta_events@[k].phases@,
            active_at(cycle_position(schedule.meta_events@[k], now)),
        ) {
            Some(i) => exists|j: int|
                0 <= j < r.len() && (#[trigger] r[j]).kind == UpcomingKind::MetaPhase && r[j].id@
                    == schedule.meta_events@[k].id@ && r[j].start_at == (cycle_origin(
                    schedule.meta_events@[k],
                    now,
                ) + schedule.meta_events@[k].phases@[i].offset_minutes * NANOS_PER_MINUTE) as i128,
            None => true,
        },
        first_phase(
            schedule.meta_events@[k].phases@,
            active_at(cycle_position(schedule.meta_events@[k], now)),
        ) is None && next_phase_of(schedule.meta_events@[k], now).1 <= horizon ==> exists|j: int|
            0 <= j < r.len() && (#[trigger] r[j]).kind == UpcomingKind::MetaPhase && r[j].id@
                == schedule.meta_events@[k].id@ && r[j].start_at == next_phase_of(
                schedule.meta_events@[k],
                now,
            ).1 as i128,
{
    let m = schedule.meta_events@[k];
    let ms = schedule.meta_events@;
    let bs = schedule.world_bosses@;
    let active = first_phase(m.phases@, active_at(cycle_position(m, now)));
    if active is Some || next_phase_of(m, now).1 <= horizon {
        assert(meta_upcoming(m, now, horizon) is Some);
        let f = meta_upcoming(m, now, horizon)->0;
        lemma_meta_events_has(ms, now, horizon, k);
        let mev = meta_events_of(ms, now, horizon);
        let bev = boss_events(bs, now, horizon);
        let i = choose|i: int| 0 <= i < mev.len() && mev[i] == f;
        assert((bev + mev)[bev.len() + i] == f);
        lemma_raw_listed(r, schedule, now, horizon, f);
        let j = choose|j: int| 0 <= j < r.len() && facts_of(#[trigger] r[j]) == f;
        assert(r[j].kind == f.3 && r[j].id@ == f.0 && r[j].start_at == f.4);
    }
}

/// The feed misses no world boss that is due: one whose spawn window is
/// open now is listed at that spawn, and one without an open window is
/// listed at its next spawn whenever that spawn is within the horizon.
pub proof fn lemma_boss_listed_when_due(
    r: Seq<UpcomingEvent>,
    schedule: Schedule,
    now: int,
    horizon: int,
    k: int,
)
    requires
        in_time_range(now),
        metas_well_formed(schedule),
        0 <= k < schedule.world_bosses.len(),
        r.map_values(|e: UpcomingEvent| facts_of(e)) == stable_sorted(
            raw_upcoming(schedule, now, horizon),
            start_keys(raw_upcoming(schedule, now, horizon)),
        ).0,
    ensures
        match prev_spawn_of(schedule.world_bosses@[k].schedule_utc@, now) {
            Some(p) => now < p + schedule.world_bosses@[k].duration_minutes * NANOS_PER_MINUTE
                ==> exists|j: int|
                0 <= j < r.len() && (#[trigger] r[j]).kind == UpcomingKind::WorldBoss && r[j].id@
                    == schedule.world_bosses@[k].id@ && r[j].start_at == p as i128,
            None => true,
        },
        (match prev_spawn_of(schedule.world_bosses@[k].schedule_utc@, now) {
            Some(p) => now >= p + schedule.world_bosses@[k].duration_minutes * NANOS_PER_MINUTE,
            None => true,
        }) && next_spawn_of(schedule.world_bosses@[k].schedule_utc@, now) <= horizon ==> exists|j: int|
            0 <= j < r.len() && (#[trigger] r[j]).kind == UpcomingKind::WorldBoss && r[j].id@
                == schedule.world_bosses@[k].id@ && r[j].start_at == next_spawn_of(
                schedule.world_bosses@[k].schedule_utc@,
                now,
            ) as i128,
{
    let b = schedule.world_bosses@[k];
    let ms = schedule.meta_events@;
    let bs = schedule.world_bosses@;
    if boss_upcoming(b, now, horizon) is Some {
        let f = boss_upcoming(b, now, horizon)->0;
        lemma_boss_events_has(bs, now, horizon, k);
        let mev = meta_events_of(ms, now, horizon);
        let bev = boss_events(bs, now, horizon);
        let i = choose|i: int| 0 <= i < bev.len() && bev[i] == f;
        assert((bev + mev)[i] == f);
        lemma_raw_listed(r, schedule, now, horizon, f);
        let j = choose|j: int| 0 <= j < r.len() && facts_of(#[trigger] r[j]) == f;
        assert(r[j].kind == f.3 && r[j].id@ == f.0 && r[j].start_at == f.4);
    }
}

} // verus!
