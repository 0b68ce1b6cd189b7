//! User settings stored as text: the notification lead time and the
//! hotkeys, with their defaults.
use vstd::prelude::*;

use crate::text::{chars_of, decimal, decimal_string, opt_text, owned, trim, trimmed};

verus! {

/// The lead time of boss notifications when none is set, in minutes.
pub const DEFAULT_NOTIFY_LEAD_MINUTES: i64 = 2;

pub const DEFAULT_HOTKEY_TOGGLE_VISIBILITY: &'static str = "CmdOrCtrl+Shift+G";

pub const DEFAULT_HOTKEY_TOGGLE_CLICKTHROUGH: &'static str = "CmdOrCtrl+Shift+H";

pub const DEFAULT_HOTKEY_TOGGLE_BOSSES: &'static str = "CmdOrCtrl+Shift+B";

pub const DEFAULT_HOTKEY_TOGGLE_ACHIEVEMENTS: &'static str = "CmdOrCtrl+Shift+P";

// ---------------------------------------------------------------------------
// Reading an i64
// ---------------------------------------------------------------------------

/// Reading decimal digits left to right onto `acc`, failing at the first
/// character that is not a digit or when the value passes `limit`.
pub open spec fn scan_bounded(ds: Seq<char>, acc: int, limit: int) -> Option<int>
    decreases ds.len(),
{
    if ds.len() == 0 {
        Some(acc)
    } else if !crate::text::is_ascii_digit(ds[0]) {
        None
    } else if acc * 10 + (ds[0] as int - '0' as int) > limit {
        None
    } else {
        scan_bounded(ds.drop_first(), acc * 10 + (ds[0] as int - '0' as int), limit)
    }
}

/// `str::parse::<i64>().ok()`: an optional sign, then decimal digits,
/// within the range of `i64`.
pub open spec fn i64_of(s: Seq<char>) -> Option<int> {
    if s.len() == 0 || (s.len() == 1 && (s[0] == '+' || s[0] == '-')) {
        None
    } else if s[0] == '-' {
        match scan_bounded(s.drop_first(), 0, 0x8000_0000_0000_0000) {
            Some(v) => Some(-v),
            None => None,
        }
    } else if s[0] == '+' {
        scan_bounded(s.drop_first(), 0, i64::MAX as int)
    } else {
        scan_bounded(s, 0, i64::MAX as int)
    }
}

proof fn lemma_scan_bounded_range(ds: Seq<char>, acc: int, limit: int)
    requires
        0 <= acc <= limit,
    ensures
        scan_bounded(ds, acc, limit) matches Some(v) ==> 0 <= v <= limit,
    decreases ds.len(),
{
    if ds.len() > 0 && crate::text::is_ascii_digit(ds[0]) && acc * 10 + (ds[0] as int - '0' as int)
        <= limit {
        lemma_scan_bounded_range(ds.drop_first(), acc * 10 + (ds[0] as int - '0' as int), limit);
    }
}

/// `cs[from..]` read as digits, bounded by `limit`.
fn scan_digits_from(cs: &Vec<char>, from: usize, limit: u64) -> (r: Option<u64>)
    requires
        from <= cs.len(),
        10 <= limit <= 0x8000_0000_0000_0000,
    ensures
        match r {
            Some(x) => scan_bounded(cs@.skip(from as int), 0, limit as int) == Some(x as int),
            None => scan_bounded(cs@.skip(from as int), 0, limit as int) is None,
        },
        r matches Some(x) ==> x <= limit,
{
    let ghost all = cs@.skip(from as int);
    proof {
        lemma_scan_bounded_range(all, 0, limit as int);
    }
    let mut acc: u64 = 0;
    let mut i = from;
    while i < cs.len()
        invariant
            from <= i <= cs.len(),
            10 <= limit <= 0x8000_0000_0000_0000,
            all == cs@.skip(from as int),
            acc <= limit,
            scan_bounded(all, 0, limit as int) == scan_bounded(cs@.skip(i as int), acc as int, limit as int),
            scan_bounded(all, 0, limit as int) matches Some(v) ==> 0 <= v <= limit,
        decreases cs.len() - i,
    {
        let ghost rest = cs@.skip(i as int);
        assert(rest[0] == cs@[i as int]);
        assert(rest.drop_first() == cs@.skip(i + 1));
        let c = cs[i];
        if !('0' <= c && c <= '9') {
            return None;
        }
        let d = ((c as u32) - ('0' as u32)) as u64;
        if acc > (limit - d) / 10 {
            assert(acc * 10 + d > limit) by (nonlinear_arith)
                requires
                    acc > (limit - d) / 10,
                    d <= 9,
                    d <= limit,
            ;
            return None;
        }
        assert(acc * 10 + d <= limit) by (nonlinear_arith)
            requires
                acc <= (limit - d) / 10,
                d <= limit,
        ;
        acc = acc * 10 + d;
        i = i + 1;
    }
    assert(cs@.skip(i as int) =~= Seq::<char>::empty());
    Some(acc)
}

/// `s.parse::<i64>().ok()`.
pub fn parse_i64(s: &str) -> (r: Option<i64>)
    ensures
        match r {
            Some(x) => i64_of(s@) == Some(x as int),
            None => i64_of(s@) is None,
        },
{
    let cs = chars_of(s);
    if cs.len() == 0 || (cs.len() == 1 && (cs[0] == '+' || cs[0] == '-')) {
        return None;
    }
    assert(cs@.skip(0) == cs@);
    assert(cs@.drop_first() == cs@.skip(1));
    if cs[0] == '-' {
        match scan_digits_from(&cs, 1, 0x8000_0000_0000_0000) {
            Some(v) => {
                if v == 0x8000_0000_0000_0000 {
                    Some(i64::MIN)
                } else {
                    Some(-(v as i64))
                }
            },
            None => None,
        }
    } else if cs[0] == '+' {
        match scan_digits_from(&cs, 1, 0x7fff_ffff_ffff_ffff) {
            Some(v) => Some(v as i64),
            None => None,
        }
    } else {
        match scan_digits_from(&cs, 0, 0x7fff_ffff_ffff_ffff) {
            Some(v) => Some(v as i64),
            None => None,
        }
    }
}

// ---------------------------------------------------------------------------
// Notification lead
// ---------------------------------------------------------------------------

/// The lead time of boss notifications from its stored text: the text as
/// an `i64`, else the default.
pub open spec fn lead_of(setting: Option<Seq<char>>) -> int {
    match setting {
        Some(t) => match i64_of(t) {
            Some(v) => v,
            None => DEFAULT_NOTIFY_LEAD_MINUTES as int,
        },
        None => DEFAULT_NOTIFY_LEAD_MINUTES as int,
    }
}


/// The notification lead time in minutes, from the stored setting.
pub fn notification_lead(setting: &Option<String>) -> (r: i64)
    ensures
        r == lead_of(opt_text(*setting)),
{
    match setting {
        Some(t) => match parse_i64(t.as_str()) {
            Some(v) => v,
            None => DEFAULT_NOTIFY_LEAD_MINUTES,
        },
        None => DEFAULT_NOTIFY_LEAD_MINUTES,
    }
}

/// A lead time as stored: clamped to 1..=15 minutes.
pub open spec fn clamp_lead(minutes: int) -> int {
    if minutes < 1 {
        1
    } else if minutes > 15 {
        15
    } else {
        minutes
    }
}

/// The text stored for a requested lead time: the clamped minutes.
pub fn lead_setting_text(minutes: i64) -> (r: String)
    ensures
        r@ == decimal(clamp_lead(minutes as int) as nat),
        1 <= clamp_lead(minutes as int) <= 15,
{
    let clamped: i64 = if minutes < 1 {
        1
    } else if minutes > 15 {
        15
    } else {
        minutes
    };
    decimal_string(clamped as u64)
}

/// A number below 100 written in decimal reads back as itself.
proof fn lemma_small_decimal_reads_back(n: nat)
    requires
        n < 100,
    ensures
        i64_of(decimal(n)) == Some(n as int),
{
    if n < 10 {
        let d = crate::text::digit_char(n);
        assert(d as int == '0' as int + n);
        assert(decimal(n) == seq![d]);
        let s = seq![d];
        assert(s.drop_first() == Seq::<char>::empty());
        assert(scan_bounded(s, 0, i64::MAX as int) == scan_bounded(s.drop_first(), n as int, i64::MAX as int));
    } else {
        let hi = crate::text::digit_char(n / 10);
        let lo = crate::text::digit_char(n % 10);
        assert(hi as int == '0' as int + n / 10);
        assert(lo as int == '0' as int + n % 10);
        assert(decimal(n / 10) == seq![hi]);
        let s = seq![hi, lo];
        assert(decimal(n) == s);
        assert(s.drop_first() == seq![lo]);
        assert(seq![lo].drop_first() == Seq::<char>::empty());
        assert(scan_bounded(seq![lo], (n / 10) as int, i64::MAX as int) == scan_bounded(
            Seq::<char>::empty(),
            (n / 10) as int * 10 + (n % 10) as int,
            i64::MAX as int,
        ));
        assert((n / 10) as int * 10 + (n % 10) as int == n);
    }
}

/// Storing a lead time and reading it back gives the requested minutes
/// clamped to 1..=15.
pub proof fn lemma_lead_round_trip(minutes: i64)
    ensures
        lead_of(Some(decimal(clamp_lead(minutes as int) as nat))) == clamp_lead(minutes as int),
{
    lemma_small_decimal_reads_back(clamp_lead(minutes as int) as nat);
}

// ---------------------------------------------------------------------------
// Hotkeys
// ---------------------------------------------------------------------------

/// The accelerator of each action.
#[derive(Debug, Clone)]
pub struct HotkeyConfig {
    pub toggle_visibility: String,
    pub toggle_clickthrough: String,
    pub toggle_bosses: String,
    pub toggle_achievements: String,
}

/// A stored accelerator, unless it is missing or blank.
pub open spec fn hotkey_or(setting: Option<Seq<char>>, fallback: Seq<char>) -> Seq<char> {
    match setting {
        Some(t) => if trim(t).len() > 0 {
            t
        } else {
            fallback
        },
        None => fallback,
    }
}

/// The stored accelerator, or `fallback` when it is missing or blank.
pub fn hotkey_setting_or(setting: &Option<String>, fallback: &str) -> (r: String)
    ensures
        r@ == hotkey_or(opt_text(*setting), fallback@),
{
    match setting {
        Some(t) => {
            let tr = trimmed(t.as_str());
            if tr.as_str().unicode_len() > 0 {
                t.clone()
            } else {
                owned(fallback)
            }
        },
        None => owned(fallback),
    }
}

impl Default for HotkeyConfig {
    /// The default accelerators.
    fn default() -> (r: Self)
        ensures
            r.toggle_visibility@ == DEFAULT_HOTKEY_TOGGLE_VISIBILITY@,
            r.toggle_clickthrough@ == DEFAULT_HOTKEY_TOGGLE_CLICKTHROUGH@,
            r.toggle_bosses@ == DEFAULT_HOTKEY_TOGGLE_BOSSES@,
            r.toggle_achievements@ == DEFAULT_HOTKEY_TOGGLE_ACHIEVEMENTS@,
    {
        HotkeyConfig {
            toggle_visibility: owned(DEFAULT_HOTKEY_TOGGLE_VISIBILITY),
            toggle_clickthrough: owned(DEFAULT_HOTKEY_TOGGLE_CLICKTHROUGH),
            toggle_bosses: owned(DEFAULT_HOTKEY_TOGGLE_BOSSES),
            toggle_achievements: owned(DEFAULT_HOTKEY_TOGGLE_ACHIEVEMENTS),
        }
    }
}

impl HotkeyConfig {
    /// The accelerators from their stored settings, each falling back to
    /// its default when missing or blank.
    pub fn from_settings(
        visibility: &Option<String>,
        clickthrough: &Option<String>,
        bosses: &Option<String>,
        achievements: &Option<String>,
    ) -> (r: Self)
        ensures
            r.toggle_visibility@ == hotkey_or(opt_text(*visibility), DEFAULT_HOTKEY_TOGGLE_VISIBILITY@),
            r.toggle_clickthrough@ == hotkey_or(
                opt_text(*clickthrough),
                DEFAULT_HOTKEY_TOGGLE_CLICKTHROUGH@,
            ),
            r.toggle_bosses@ == hotkey_or(opt_text(*bosses), DEFAULT_HOTKEY_TOGGLE_BOSSES@),
            r.toggle_achievements@ == hotkey_or(
                opt_text(*achievements),
                DEFAULT_HOTKEY_TOGGLE_ACHIEVEMENTS@,
            ),
    {
        HotkeyConfig {
            toggle_visibility: hotkey_setting_or(visibility, DEFAULT_HOTKEY_TOGGLE_VISIBILITY),
            toggle_clickthrough: hotkey_setting_or(clickthrough, DEFAULT_HOTKEY_TOGGLE_CLICKTHROUGH),
            toggle_bosses: hotkey_setting_or(bosses, DEFAULT_HOTKEY_TOGGLE_BOSSES),
            toggle_achievements: hotkey_setting_or(achievements, DEFAULT_HOTKEY_TOGGLE_ACHIEVEMENTS),
        }
    }
}

} // verus!
