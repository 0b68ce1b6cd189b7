//! The boss schedule: world bosses with fixed daily spawn times, meta
//! events with cyclical phases, and the Ley-Line Anomaly. Spawn times are
//! "HH:MM" UTC strings, read by `parse_hm`.
use vstd::prelude::*;

use crate::error::AppError;
use crate::text::{chars_of, concat, debug_quoted, debug_text, decimal, decimal_string};

verus! {

#[derive(Debug, Clone)]
pub struct Schedule {
    pub world_bosses: Vec<WorldBoss>,
    pub meta_events: Vec<MetaEvent>,
    pub ley_line_anomaly: Option<LeyLineAnomaly>,
}

#[derive(Debug, Clone)]
pub struct WorldBoss {
    pub id: String,
    pub name: String,
    pub tier: Option<String>,
    pub map: String,
    pub area: Option<String>,
    pub waypoint_code: Option<String>,
    pub expansion: String,
    /// Spawn times as "HH:MM" UTC strings.
    pub schedule_utc: Vec<String>,
    pub duration_minutes: u32,
    pub wiki_event: Option<String>,
}

#[derive(Debug, Clone)]
pub struct MetaEvent {
    pub id: String,
    pub name: String,
    pub expansion: Option<String>,
    pub map: String,
    pub waypoint_code: Option<String>,
    pub cycle_minutes: u32,
    /// Anchor time as "HH:MM" UTC: the start of phase 0 of the canonical cycle.
    pub anchor_utc: String,
    pub phases: Vec<MetaPhase>,
}

#[derive(Debug, Clone)]
pub struct MetaPhase {
    pub offset_minutes: u32,
    pub name: String,
    pub duration_minutes: u32,
}

#[derive(Debug, Clone)]
pub struct LeyLineAnomaly {
    pub id: String,
    pub name: String,
    pub schedule_utc: Vec<String>,
    pub duration_minutes: u32,
    pub rotation_maps: Vec<String>,
    pub wiki_event: Option<String>,
}

// ---------------------------------------------------------------------------
// Reading unsigned integers
// ---------------------------------------------------------------------------

/// Why a string is not a `u32` (the kinds `str::parse::<u32>` reports).
#[derive(Debug, Clone, Copy, PartialEq, Eq, Structural)]
pub enum DigitsError {
    Empty,
    InvalidDigit,
    PosOverflow,
}

/// The text `ParseIntError` displays for each kind.
pub open spec fn digits_error_text(e: DigitsError) -> Seq<char> {
    match e {
        DigitsError::Empty => "cannot parse integer from empty string"@,
        DigitsError::InvalidDigit => "invalid digit found in string"@,
        DigitsError::PosOverflow => "number too large to fit in target type"@,
    }
}

impl DigitsError {
    pub fn text(&self) -> (r: String)
        ensures
            r@ == digits_error_text(*self),
    {
        match self {
            DigitsError::Empty => crate::text::owned("cannot parse integer from empty string"),
            DigitsError::InvalidDigit => crate::text::owned("invalid digit found in string"),
            DigitsError::PosOverflow => crate::text::owned("number too large to fit in target type"),
        }
    }
}

pub open spec fn digit_value(c: char) -> int {
    (c as u32) - ('0' as u32)
}

/// Reading the digits `ds` left to right onto `acc`: the first character
/// that is not a decimal digit is an invalid digit, and a value past
/// `u32::MAX` is an overflow, whichever comes first.
pub open spec fn scan_digits(ds: Seq<char>, acc: int) -> Result<int, DigitsError>
    decreases ds.len(),
{
    if ds.len() == 0 {
        Ok(acc)
    } else if !crate::text::is_ascii_digit(ds[0]) {
        Err(DigitsError::InvalidDigit)
    } else if acc * 10 + digit_value(ds[0]) > u32::MAX {
        Err(DigitsError::PosOverflow)
    } else {
        scan_digits(ds.drop_first(), acc * 10 + digit_value(ds[0]))
    }
}

/// `str::parse::<u32>`: an optional leading '+', then decimal digits.
pub open spec fn u32_of(s: Seq<char>) -> Result<int, DigitsError> {
    if s.len() == 0 {
        Err(DigitsError::Empty)
    } else if s.len() == 1 && (s[0] == '+' || s[0] == '-') {
        Err(DigitsError::InvalidDigit)
    } else if s[0] == '+' {
        scan_digits(s.drop_first(), 0)
    } else {
        scan_digits(s, 0)
    }
}

proof fn lemma_scan_bounds(ds: Seq<char>, acc: int)
    requires
        0 <= acc <= u32::MAX,
    ensures
        scan_digits(ds, acc) matches Ok(v) ==> 0 <= v <= u32::MAX,
    decreases ds.len(),
{
    if ds.len() > 0 && crate::text::is_ascii_digit(ds[0]) && acc * 10 + digit_value(ds[0])
        <= u32::MAX {
        lemma_scan_bounds(ds.drop_first(), acc * 10 + digit_value(ds[0]));
    }
}

/// `cs[from..to]` read as a `u32`, as `str::parse::<u32>` reads it.
fn parse_u32_range(cs: &Vec<char>, from: usize, to: usize) -> (r: Result<u32, DigitsError>)
    requires
        from <= to <= cs.len(),
    ensures
        match u32_of(cs@.subrange(from as int, to as int)) {
            Ok(v) => 0 <= v <= u32::MAX && r == Ok::<u32, DigitsError>(v as u32),
            Err(e) => r == Err::<u32, DigitsError>(e),
        },
{
    let ghost s = cs@.subrange(from as int, to as int);
    if from == to {
        return Err(DigitsError::Empty);
    }
    if to - from == 1 && (cs[from] == '+' || cs[from] == '-') {
        return Err(DigitsError::InvalidDigit);
    }
    let mut i = from;
    if cs[from] == '+' {
        i = from + 1;
        assert(s.drop_first() == cs@.subrange(i as int, to as int));
    } else {
        assert(s == cs@.subrange(i as int, to as int));
    }
    let ghost ds = cs@.subrange(i as int, to as int);
    assert(u32_of(s) == scan_digits(ds, 0));
    proof {
        lemma_scan_bounds(ds, 0);
    }
    let mut acc: u32 = 0;
    assert(cs@.subrange(i as int, to as int) == ds);
    while i < to
        invariant
            from <= i <= to <= cs.len(),
            u32_of(cs@.subrange(from as int, to as int)) == scan_digits(ds, 0),
            scan_digits(ds, 0) matches Ok(v) ==> 0 <= v <= u32::MAX,
            scan_digits(ds, 0) == scan_digits(cs@.subrange(i as int, to as int), acc as int),
        decreases to - i,
    {
        let ghost rest = cs@.subrange(i as int, to as int);
        assert(rest[0] == cs@[i as int]);
        assert(rest.drop_first() == cs@.subrange(i + 1, to as int));
        let c = cs[i];
        if !('0' <= c && c <= '9') {
            return Err(DigitsError::InvalidDigit);
        }
        let d = (c as u32) - ('0' as u32);
        if acc > 429496729 || (acc == 429496729 && d > 5) {
            return Err(DigitsError::PosOverflow);
        }
        acc = acc * 10 + d;
        i = i + 1;
    }
    assert(cs@.subrange(i as int, to as int) =~= Seq::<char>::empty());
    Ok(acc)
}

// ---------------------------------------------------------------------------
// "HH:MM"
// ---------------------------------------------------------------------------

/// Index of the first ':' in `s`.
pub open spec fn colon_index(s: Seq<char>) -> Option<int>
    decreases s.len(),
{
    if s.len() == 0 {
        None
    } else {
        match colon_index(s.drop_last()) {
            Some(i) => Some(i),
            None => if s.last() == ':' {
                Some(s.len() - 1)
            } else {
                None
            },
        }
    }
}

/// What `parse_hm` returns for `s`: the hour and minute of "H:M" where
/// both read as `u32` and fall in a day, or the error text.
pub open spec fn hm_of(s: Seq<char>) -> Result<(u32, u32), Seq<char>> {
    match colon_index(s) {
        None => Err("missing ':' in "@ + debug_text(s)),
        Some(k) => match u32_of(s.subrange(0, k)) {
            Err(e) => Err("hour: "@ + digits_error_text(e)),
            Ok(h) => match u32_of(s.subrange(k + 1, s.len() as int)) {
                Err(e) => Err("minute: "@ + digits_error_text(e)),
                Ok(m) => if h >= 24 || m >= 60 {
                    Err("out of range: "@ + decimal(h as nat) + ":"@ + decimal(m as nat))
                } else {
                    Ok((h as u32, m as u32))
                },
            },
        },
    }
}

proof fn lemma_colon_prefix(s: Seq<char>, i: int)
    requires
        0 <= i <= s.len(),
        colon_index(s.take(i)) is None,
    ensures
        i < s.len() && s[i] == ':' ==> colon_index(s) == Some(i),
        i == s.len() ==> colon_index(s) is None,
    decreases s.len() - i,
{
    if i < s.len() {
        assert(s.take(i + 1).drop_last() == s.take(i));
        if s[i] == ':' {
            lemma_colon_extend(s, i + 1);
        }
    } else {
        assert(s.take(i) == s);
    }
}

proof fn lemma_colon_extend(s: Seq<char>, n: int)
    requires
        0 < n <= s.len(),
        colon_index(s.take(n)) is Some,
    ensures
        colon_index(s) == colon_index(s.take(n)),
    decreases s.len() - n,
{
    if n < s.len() {
        assert(s.take(n + 1).drop_last() == s.take(n));
        lemma_colon_extend(s, n + 1);
    } else {
        assert(s.take(n) == s);
    }
}

/// A parsed time of day is a valid hour and minute.
pub proof fn lemma_hm_range(s: Seq<char>)
    ensures
        hm_of(s) matches Ok((h, m)) ==> h < 24 && m < 60,
{
    if let Some(k) = colon_index(s) {
        lemma_u32_of_bounds(s.subrange(0, k));
        lemma_u32_of_bounds(s.subrange(k + 1, s.len() as int));
    }
}

proof fn lemma_u32_of_bounds(s: Seq<char>)
    ensures
        u32_of(s) matches Ok(v) ==> 0 <= v <= u32::MAX,
{
    lemma_scan_bounds(s, 0);
    if s.len() > 0 {
        lemma_scan_bounds(s.drop_first(), 0);
    }
}

/// `n` below 100 written with two digits.
pub open spec fn two_digits(n: nat) -> Seq<char> {
    seq![crate::text::digit_char(n / 10), crate::text::digit_char(n % 10)]
}

proof fn lemma_two_digits_read(n: nat)
    requires
        n < 100,
    ensures
        u32_of(two_digits(n)) == Ok::<int, DigitsError>(n as int),
        colon_index(two_digits(n)) is None,
{
    let a = crate::text::digit_char(n / 10);
    let b = crate::text::digit_char(n % 10);
    assert(a as int == '0' as int + n / 10);
    assert(b as int == '0' as int + n % 10);
    let s = two_digits(n);
    assert(s.drop_first() == seq![b]);
    assert(seq![b].drop_first() == Seq::<char>::empty());
    assert(scan_digits(seq![b], (n / 10) as int) == scan_digits(
        Seq::<char>::empty(),
        (n / 10) as int * 10 + (n % 10) as int,
    ));
    assert((n / 10) as int * 10 + (n % 10) as int == n);
    assert(s.drop_last() == seq![a]);
    assert(seq![a].drop_last() == Seq::<char>::empty());
    assert(a != ':' && b != ':');
    assert(colon_index(Seq::<char>::empty()) is None);
    assert(colon_index(seq![a]) is None);
    assert(s.last() == b);
}

/// Every time of day written "HH:MM", two digits each, reads back as
/// itself.
pub proof fn lemma_hm_round_trip(h: u32, m: u32)
    requires
        h < 24,
        m < 60,
    ensures
        hm_of(two_digits(h as nat) + seq![':'] + two_digits(m as nat)) == Ok::<(u32, u32), Seq<char>>((h, m)),
{
    let hh = two_digits(h as nat);
    let mm = two_digits(m as nat);
    let s = hh + seq![':'] + mm;
    lemma_two_digits_read(h as nat);
    lemma_two_digits_read(m as nat);
    assert(s.take(2) == hh);
    assert(s[2] == ':');
    lemma_colon_prefix(s, 2);
    assert(s.subrange(0, 2) == hh);
    assert(s.subrange(3, s.len() as int) == mm);
}

/// Parse "HH:MM" to `(hour, minute)`, or an error text the caller can wrap.
pub fn parse_hm(s: &str) -> (r: Result<(u32, u32), String>)
    ensures
        match hm_of(s@) {
            Ok(hm) => r == Ok::<(u32, u32), String>(hm),
            Err(e) => r matches Err(t) && t@ == e,
        },
{
    let cs = chars_of(s);
    let mut k: usize = 0;
    while k < cs.len() && cs[k] != ':'
        invariant
            k <= cs.len(),
            cs@ == s@,
            colon_index(cs@.take(k as int)) is None,
        decreases cs.len() - k,
    {
        assert(cs@.take(k + 1).drop_last() == cs@.take(k as int));
        k = k + 1;
    }
    proof {
        lemma_colon_prefix(cs@, k as int);
    }
    if k == cs.len() {
        let q = debug_quoted(s);
        return Err(concat("missing ':' in ", q.as_str()));
    }
    let h = match parse_u32_range(&cs, 0, k) {
        Ok(h) => h,
        Err(e) => {
            let t = e.text();
            return Err(concat("hour: ", t.as_str()));
        },
    };
    let m = match parse_u32_range(&cs, k + 1, cs.len()) {
        Ok(m) => m,
        Err(e) => {
            let t = e.text();
            return Err(concat("minute: ", t.as_str()));
        },
    };
    if h >= 24 || m >= 60 {
        let a = concat("out of range: ", decimal_string(h as u64).as_str());
        let b = concat(a.as_str(), ":");
        return Err(concat(b.as_str(), decimal_string(m as u64).as_str()));
    }
    Ok((h, m))
}

// ---------------------------------------------------------------------------
// Validation
// ---------------------------------------------------------------------------

/// The first spawn time of `times` that does not parse, with its error.
pub open spec fn first_bad_time(times: Seq<String>) -> Option<(Seq<char>, Seq<char>)>
    decreases times.len(),
{
    if times.len() == 0 {
        None
    } else {
        match hm_of(times[0]@) {
            Err(e) => Some((times[0]@, e)),
            Ok(_) => first_bad_time(times.drop_first()),
        }
    }
}

/// The error of the first world boss with a spawn time that does not parse.
pub open spec fn boss_error(bosses: Seq<WorldBoss>) -> Option<Seq<char>>
    decreases bosses.len(),
{
    if bosses.len() == 0 {
        None
    } else {
        match first_bad_time(bosses[0].schedule_utc@) {
            Some((t, e)) => Some(
                "boss "@ + bosses[0].id@ + ": invalid schedule_utc "@ + debug_text(t) + ": "@ + e,
            ),
            None => boss_error(bosses.drop_first()),
        }
    }
}

/// The first phase of `phases` whose offset is not inside the cycle.
pub open spec fn first_phase_outside(phases: Seq<MetaPhase>, cycle: u32) -> Option<MetaPhase>
    decreases phases.len(),
{
    if phases.len() == 0 {
        None
    } else if phases[0].offset_minutes >= cycle {
        Some(phases[0])
    } else {
        first_phase_outside(phases.drop_first(), cycle)
    }
}

/// What is wrong with meta event `m`, if anything.
pub open spec fn meta_problem(m: MetaEvent) -> Option<Seq<char>> {
    match hm_of(m.anchor_utc@) {
        Err(e) => Some(
            "meta "@ + m.id@ + ": invalid anchor_utc "@ + debug_text(m.anchor_utc@) + ": "@ + e,
        ),
        Ok(_) => if m.phases.len() == 0 {
            Some("meta "@ + m.id@ + ": no phases"@)
        } else {
            match first_phase_outside(m.phases@, m.cycle_minutes) {
                Some(p) => Some(
                    "meta "@ + m.id@ + ": phase "@ + p.name@ + " offset "@ + decimal(
                        p.offset_minutes as nat,
                    ) + " exceeds cycle "@ + decimal(m.cycle_minutes as nat),
                ),
                None => None,
            }
        },
    }
}

/// The error of the first meta event with a problem.
pub open spec fn meta_error(metas: Seq<MetaEvent>) -> Option<Seq<char>>
    decreases metas.len(),
{
    if metas.len() == 0 {
        None
    } else {
        match meta_problem(metas[0]) {
            Some(e) => Some(e),
            None => meta_error(metas.drop_first()),
        }
    }
}

/// The first problem of a schedule: world bosses are checked before meta
/// events.
pub open spec fn schedule_error(s: Schedule) -> Option<Seq<char>> {
    match boss_error(s.world_bosses@) {
        Some(e) => Some(e),
        None => meta_error(s.meta_events@),
    }
}

/// A meta event fit for the phase computations: a positive cycle, at least
/// one phase, and phase ends that fit in a `u32`.
pub open spec fn meta_well_formed(m: MetaEvent) -> bool {
    &&& m.cycle_minutes > 0
    &&& m.phases.len() > 0
    &&& forall|i: int|
        0 <= i < m.phases.len() ==> (#[trigger] m.phases@[i]).offset_minutes
            + m.phases@[i].duration_minutes <= u32::MAX
}

fn first_bad_time_exec(times: &Vec<String>) -> (r: Option<(usize, String)>)
    ensures
        match first_bad_time(times@) {
            Some((t, e)) => r matches Some((i, msg)) && i < times.len() && times@[i as int]@ == t
                && msg@ == e,
            None => r is None,
        },
{
    let mut i: usize = 0;
    assert(times@.skip(0) == times@);
    while i < times.len()
        invariant
            i <= times.len(),
            first_bad_time(times@) == first_bad_time(times@.skip(i as int)),
        decreases times.len() - i,
    {
        let ghost rest = times@.skip(i as int);
        assert(rest[0] == times@[i as int]);
        assert(rest.drop_first() == times@.skip(i + 1));
        match parse_hm(times[i].as_str()) {
            Err(e) => {
                return Some((i, e));
            },
            Ok(_) => {},
        }
        i = i + 1;
    }
    assert(times@.skip(i as int) =~= Seq::<String>::empty());
    None
}

fn meta_problem_exec(m: &MetaEvent) -> (r: Option<String>)
    ensures
        match meta_problem(*m) {
            Some(e) => r matches Some(t) && t@ == e,
            None => r is None,
        },
{
    match parse_hm(m.anchor_utc.as_str()) {
        Err(e) => {
            let a = concat("meta ", m.id.as_str());
            let b = concat(a.as_str(), ": invalid anchor_utc ");
            let q = debug_quoted(m.anchor_utc.as_str());
            let c = concat(b.as_str(), q.as_str());
            let d = concat(c.as_str(), ": ");
            return Some(concat(d.as_str(), e.as_str()));
        },
        Ok(_) => {},
    }
    if m.phases.len() == 0 {
        let a = concat("meta ", m.id.as_str());
        return Some(concat(a.as_str(), ": no phases"));
    }
    let mut i: usize = 0;
    assert(m.phases@.skip(0) == m.phases@);
    while i < m.phases.len()
        invariant
            i <= m.phases.len(),
            hm_of(m.anchor_utc@) is Ok,
            m.phases.len() > 0,
            first_phase_outside(m.phases@, m.cycle_minutes) == first_phase_outside(
                m.phases@.skip(i as int),
                m.cycle_minutes,
            ),
        decreases m.phases.len() - i,
    {
        let ghost rest = m.phases@.skip(i as int);
        assert(rest[0] == m.phases@[i as int]);
        assert(rest.drop_first() == m.phases@.skip(i + 1));
        let p = &m.phases[i];
        if p.offset_minutes >= m.cycle_minutes {
            let a = concat("meta ", m.id.as_str());
            let b = concat(a.as_str(), ": phase ");
            let c = concat(b.as_str(), p.name.as_str());
            let d = concat(c.as_str(), " offset ");
            let e = concat(d.as_str(), decimal_string(p.offset_minutes as u64).as_str());
            let f = concat(e.as_str(), " exceeds cycle ");
            return Some(concat(f.as_str(), decimal_string(m.cycle_minutes as u64).as_str()));
        }
        i = i + 1;
    }
    assert(m.phases@.skip(i as int) =~= Seq::<MetaPhase>::empty());
    None
}

impl Schedule {
    /// Sanity check: every `schedule_utc` entry parses, every meta anchor
    /// parses, every meta cycle has at least one phase, and phase offsets
    /// stay within their cycle. The first problem found is reported.
    pub fn validate(&self) -> (r: Result<(), AppError>)
        ensures
            match schedule_error(*self) {
                Some(e) => r matches Err(AppError::Serde(t)) && t@ == e,
                None => r is Ok,
            },
    {
        let mut b: usize = 0;
        assert(self.world_bosses@.skip(0) == self.world_bosses@);
        while b < self.world_bosses.len()
            invariant
                b <= self.world_bosses.len(),
                boss_error(self.world_bosses@) == boss_error(self.world_bosses@.skip(b as int)),
            decreases self.world_bosses.len() - b,
        {
            let ghost rest = self.world_bosses@.skip(b as int);
            assert(rest[0] == self.world_bosses@[b as int]);
            assert(rest.drop_first() == self.world_bosses@.skip(b + 1));
            let boss = &self.world_bosses[b];
            match first_bad_time_exec(&boss.schedule_utc) {
                Some((i, e)) => {
                    let x = concat("boss ", boss.id.as_str());
                    let y = concat(x.as_str(), ": invalid schedule_utc ");
                    let q = debug_quoted(boss.schedule_utc[i].as_str());
                    let z = concat(y.as_str(), q.as_str());
                    let w = concat(z.as_str(), ": ");
                    return Err(AppError::Serde(concat(w.as_str(), e.as_str())));
                },
                None => {},
            }
            b = b + 1;
        }
        assert(self.world_bosses@.skip(b as int) =~= Seq::<WorldBoss>::empty());
        let mut k: usize = 0;
        assert(self.meta_events@.skip(0) == self.meta_events@);
        while k < self.meta_events.len()
            invariant
                k <= self.meta_events.len(),
                boss_error(self.world_bosses@) is None,
                meta_error(self.meta_events@) == meta_error(self.meta_events@.skip(k as int)),
            decreases self.meta_events.len() - k,
        {
            let ghost rest = self.meta_events@.skip(k as int);
            assert(rest[0] == self.meta_events@[k as int]);
            assert(rest.drop_first() == self.meta_events@.skip(k + 1));
            match meta_problem_exec(&self.meta_events[k]) {
                Some(e) => {
                    return Err(AppError::Serde(e));
                },
                None => {},
            }
            k = k + 1;
        }
        assert(self.meta_events@.skip(k as int) =~= Seq::<MetaEvent>::empty());
        Ok(())
    }
}

} // verus!
