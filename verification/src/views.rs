//! What the overlay's windows show: the records handed to the UI and the
//! rules that shape them (search input, fallback names, totals, the
//! achievement bits, the recent log lines).
use std::collections::HashMap;

use vstd::prelude::*;

use crate::api::endpoints::ApiKeyStatus;
use crate::sync::cache::contains_id;
use crate::text::{
    chars_of, concat, decimal, decimal_string, join, join_strings, opt_text, owned, string_of, texts, trim,
    trimmed,
};

verus! {

#[derive(Debug, Clone)]
pub struct SyncReport {
    pub progress_changes: usize,
    pub wv_daily: usize,
    pub wv_weekly: usize,
    pub wv_special: usize,
}

#[derive(Debug, Clone)]
pub struct TodoView {
    pub id: i64,
    pub text: String,
    pub period: String,
    pub completed: bool,
}

#[derive(Debug, Clone)]
pub struct AccountItemLocation {
    pub location: String,
    pub location_detail: Option<String>,
    pub count: u32,
}

#[derive(Debug, Clone)]
pub struct AccountItemResult {
    pub item_id: u32,
    pub name: String,
    pub rarity: Option<String>,
    pub total: u32,
    pub locations: Vec<AccountItemLocation>,
}

#[derive(Debug, Clone)]
pub struct AccountCurrencyResult {
    pub currency_id: u32,
    pub name: String,
    pub description: Option<String>,
    pub icon: Option<String>,
    pub value: i64,
}

#[derive(Debug, Clone)]
pub struct AchievementSearchResult {
    pub id: u32,
    pub name: String,
    pub description: Option<String>,
    pub points: i64,
    pub pinned: bool,
}

#[derive(Debug, Clone)]
pub struct WizardsVaultObjectiveView {
    pub id: u32,
    pub title: String,
    pub track: String,
    pub acclaim: u32,
    pub progress_current: u32,
    pub progress_complete: u32,
    pub claimed: bool,
}

#[derive(Debug, Clone)]
pub struct WizardsVaultPeriodView {
    pub period_type: String,
    pub period_start: String,
    pub objectives: Vec<WizardsVaultObjectiveView>,
}

#[derive(Debug, Clone)]
pub struct WizardsVaultStateView {
    pub daily: Option<WizardsVaultPeriodView>,
    pub weekly: Option<WizardsVaultPeriodView>,
    pub special: Option<WizardsVaultPeriodView>,
}

#[derive(Debug, Clone)]
pub struct ProgressSummary {
    pub total_achievements_in_cache: i64,
    pub account_tracked: i64,
    pub account_done: i64,
    pub points_earned: i64,
}

/// A cached item, as the bits of an achievement resolve it.
#[derive(Debug, Clone)]
pub struct CachedItem {
    pub name: String,
    pub rarity: Option<String>,
    pub description: Option<String>,
}

/// A cached skin, as the bits of an achievement resolve it.
#[derive(Debug, Clone)]
pub struct CachedSkin {
    pub name: String,
    pub rarity: Option<String>,
    pub description: Option<String>,
}


// ---------------------------------------------------------------------------
// Names, search input, totals
// ---------------------------------------------------------------------------

/// The name shown for an achievement: its cached name, else
/// "Achievement #<id>".
pub open spec fn achievement_name_of(name: Option<Seq<char>>, id: u32) -> Seq<char> {
    match name {
        Some(n) => n,
        None => "Achievement #"@ + decimal(id as nat),
    }
}

pub fn achievement_name(name: Option<String>, id: u32) -> (r: String)
    ensures
        r@ == achievement_name_of(opt_text(name), id),
{
    match name {
        Some(n) => n,
        None => concat("Achievement #", decimal_string(id as u64).as_str()),
    }
}

/// The search a query asks for: the `LIKE` pattern of the trimmed query
/// and the row limit (30 by default, at most 100); none for a blank query.
pub open spec fn search_of(query: Seq<char>, limit: Option<u32>) -> Option<(Seq<char>, int)> {
    if trim(query).len() == 0 {
        None
    } else {
        Some(
            (
                "%"@ + trim(query) + "%"@,
                match limit {
                    Some(l) => if l <= 100 {
                        l as int
                    } else {
                        100
                    },
                    None => 30,
                },
            ),
        )
    }
}

/// The `LIKE` pattern and row limit of a search (see `search_of`).
pub fn search_query(query: &str, limit: Option<u32>) -> (r: Option<(String, i64)>)
    ensures
        match search_of(query@, limit) {
            Some((p, l)) => r matches Some((s, n)) && s@ == p && n == l,
            None => r is None,
        },
{
    let q = trimmed(query);
    if q.as_str().unicode_len() == 0 {
        return None;
    }
    let head = concat("%", q.as_str());
    let pattern = concat(head.as_str(), "%");
    let n: u32 = match limit {
        Some(l) => if l <= 100 {
            l
        } else {
            100
        },
        None => 30,
    };
    Some((pattern, n as i64))
}

pub open spec fn sum_counts(ls: Seq<AccountItemLocation>) -> int
    decreases ls.len(),
{
    if ls.len() == 0 {
        0
    } else {
        sum_counts(ls.drop_last()) + ls.last().count
    }
}

/// A search hit on an account item, with its total over every location.
pub fn item_result(
    item_id: u32,
    name: String,
    rarity: Option<String>,
    locations: Vec<AccountItemLocation>,
) -> (r: AccountItemResult)
    requires
        sum_counts(locations@) <= u32::MAX,
    ensures
        r.item_id == item_id,
        r.name == name,
        r.rarity == rarity,
        r.total == sum_counts(locations@),
        r.locations == locations,
{
    let mut total: u32 = 0;
    let mut i: usize = 0;
    while i < locations.len()
        invariant
            i <= locations.len(),
            sum_counts(locations@) <= u32::MAX,
            total == sum_counts(locations@.take(i as int)),
        decreases locations.len() - i,
    {
        proof {
            lemma_counts_prefix(locations@, i + 1);
            assert(locations@.take(i + 1).drop_last() == locations@.take(i as int));
            assert(locations@.take(i + 1).last() == locations@[i as int]);
        }
        total = total + locations[i].count;
        i = i + 1;
    }
    assert(locations@.take(i as int) == locations@);
    AccountItemResult { item_id, name, rarity, total, locations }
}

proof fn lemma_counts_prefix(ls: Seq<AccountItemLocation>, n: int)
    requires
        0 <= n <= ls.len(),
    ensures
        sum_counts(ls.take(n)) <= sum_counts(ls),
    decreases ls.len() - n,
{
    if n < ls.len() {
        lemma_counts_prefix(ls, n + 1);
        assert(ls.take(n + 1).drop_last() == ls.take(n));
    } else {
        assert(ls.take(n) == ls);
    }
}

/// How many of `flags` are set.
pub open spec fn count_set(flags: Seq<bool>) -> int
    decreases flags.len(),
{
    if flags.len() == 0 {
        0
    } else {
        count_set(flags.drop_last()) + if flags.last() {
            1int
        } else {
            0
        }
    }
}

/// How many of `flags` are set (the pinned and done counts of a collection).
pub fn count_flags(flags: &Vec<bool>) -> (r: usize)
    ensures
        r == count_set(flags@),
{
    let mut n: usize = 0;
    let mut i: usize = 0;
    while i < flags.len()
        invariant
            i <= flags.len(),
            n == count_set(flags@.take(i as int)),
            n <= i,
        decreases flags.len() - i,
    {
        assert(flags@.take(i + 1).drop_last() == flags@.take(i as int));
        assert(flags@.take(i + 1).last() == flags@[i as int]);
        if flags[i] {
            n = n + 1;
        }
        i = i + 1;
    }
    assert(flags@.take(i as int) == flags@);
    n
}

impl ApiKeyStatus {
    /// The status reported for a stored key that could not be checked just
    /// now (the service being unreachable is not held against the key).
    pub fn unverified(account_id: String) -> (r: Self)
        ensures
            r.account_id == account_id,
            r.permissions@.len() == 0,
            r.permissions_ok,
            r.missing@.len() == 0,
    {
        ApiKeyStatus { account_id, permissions: Vec::new(), permissions_ok: true, missing: Vec::new() }
    }
}

// ---------------------------------------------------------------------------
// Achievement bits
// ---------------------------------------------------------------------------

/// One entry of an achievement's `bits` definition, as stored.
#[derive(Debug, Clone)]
pub struct BitDef {
    /// The `type` field when it is a string.
    pub kind: Option<String>,
    /// The `id` field when it is an integer.
    pub id: Option<i64>,
    /// The `text` field when it is a string.
    pub text: Option<String>,
}

/// One bit of a pinned achievement, ready for the UI.
#[derive(Debug, Clone)]
pub struct PinnedBitView {
    pub index: u32,
    pub kind: String,
    pub ref_id: Option<i64>,
    pub text: Option<String>,
    pub done: bool,
    /// Resolved name for Item-typed bits (looked up in the item cache).
    pub resolved_name: Option<String>,
    pub resolved_description: Option<String>,
    pub resolved_rarity: Option<String>,
}

/// What a bit view says: index, kind, id, text, done, name, description, rarity.
pub type BitFacts = (
    u32,
    Seq<char>,
    Option<i64>,
    Option<Seq<char>>,
    bool,
    Option<Seq<char>>,
    Option<Seq<char>>,
    Option<Seq<char>>,
);

pub open spec fn bit_facts(b: PinnedBitView) -> BitFacts {
    (
        b.index,
        b.kind@,
        b.ref_id,
        opt_text(b.text),
        b.done,
        opt_text(b.resolved_name),
        opt_text(b.resolved_description),
        opt_text(b.resolved_rarity),
    )
}

/// What a bit definition holds: its kind, id and text.
pub type BitRecord = (Option<Seq<char>>, Option<i64>, Option<Seq<char>>);

pub open spec fn bit_record(d: BitDef) -> BitRecord {
    (opt_text(d.kind), d.id, opt_text(d.text))
}

/// The view of bit `d` at position `idx`: its kind ("Text" when absent),
/// its id, its text unless empty, whether its index is among `done`, and
/// for an Item bit the cached item of its id (read as `u32`).
pub open spec fn bit_view_of(d: BitRecord, idx: int, done: Seq<u32>, items: Map<u32, CachedItem>) -> BitFacts {
    let kind = match d.0 {
        Some(k) => k,
        None => "Text"@,
    };
    let text = match d.2 {
        Some(t) => if t.len() > 0 {
            Some(t)
        } else {
            None
        },
        None => None,
    };
    let item = if kind == "Item"@ {
        match d.1 {
            Some(id) => if items.contains_key(id as u32) {
                Some(items[id as u32])
            } else {
                None
            },
            None => None,
        }
    } else {
        None
    };
    (
        idx as u32,
        kind,
        d.1,
        text,
        done.contains(idx as u32),
        match item {
            Some(it) => Some(it.name@),
            None => None,
        },
        match item {
            Some(it) => opt_text(it.description),
            None => None,
        },
        match item {
            Some(it) => opt_text(it.rarity),
            None => None,
        },
    )
}

fn clone_opt(o: &Option<String>) -> (r: Option<String>)
    ensures
        opt_text(r) == opt_text(*o),
{
    match o {
        Some(s) => Some(s.clone()),
        None => None,
    }
}

/// The bits of a pinned achievement, ready for the UI: one view per
/// definition, in order (see `bit_view_of`).
pub fn bit_views(defs: &Vec<BitDef>, done: &Vec<u32>, items: &HashMap<u32, CachedItem>) -> (r: Vec<
    PinnedBitView,
>)
    ensures
        r@.len() == defs@.len(),
        forall|i: int|
            0 <= i < defs@.len() ==> #[trigger] bit_facts(r@[i]) == bit_view_of(
                bit_record(defs@[i]),
                i,
                done@,
                items@,
            ),
{
    broadcast use vstd::std_specs::hash::group_hash_axioms;

    let mut out: Vec<PinnedBitView> = Vec::new();
    let mut i: usize = 0;
    while i < defs.len()
        invariant
            i <= defs.len(),
            out@.len() == i,
            forall|k: int|
                0 <= k < i ==> #[trigger] bit_facts(out@[k]) == bit_view_of(
                    bit_record(defs@[k]),
                    k,
                    done@,
                    items@,
                ),
        decreases defs.len() - i,
    {
        let d = &defs[i];
        let kind = match &d.kind {
            Some(k) => k.clone(),
            None => owned("Text"),
        };
        let text = match &d.text {
            Some(t) => if t.as_str().unicode_len() > 0 {
                Some(t.clone())
            } else {
                None
            },
            None => None,
        };
        let is_item = kind == owned("Item");
        let item: Option<&CachedItem> = if is_item {
            match d.id {
                Some(id) => items.get(&(id as u32)),
                None => None,
            }
        } else {
            None
        };
        let (name, description, rarity) = match item {
            Some(it) => (Some(it.name.clone()), clone_opt(&it.description), clone_opt(&it.rarity)),
            None => (None, None, None),
        };
        let v = PinnedBitView {
            index: i as u32,
            kind,
            ref_id: d.id,
            text,
            done: contains_id(done, i as u32),
            resolved_name: name,
            resolved_description: description,
            resolved_rarity: rarity,
        };
        assert(bit_facts(v) == bit_view_of(bit_record(defs@[i as int]), i as int, done@, items@));
        let ghost prev = out@;
        out.push(v);
        proof {
            assert forall|k: int| 0 <= k < i + 1 implies #[trigger] bit_facts(out@[k]) == bit_view_of(
                bit_record(defs@[k]),
                k,
                done@,
                items@,
            ) by {
                if k < i {
                    assert(out@[k] == prev[k]);
                }
            };
        }
        i = i + 1;
    }
    out
}

/// The bit records that JSON text `text` holds: `None` unless it is a JSON
/// array; otherwise one record per element, with its `type` and `text`
/// fields where they are strings and its `id` field where it is an integer
/// that fits `i64`.
pub uninterp spec fn json_bit_records(text: Seq<char>) -> Option<Seq<(Option<Seq<char>>, Option<i64>, Option<Seq<char>>)>>;

/// The `u32` array that JSON text `text` holds, or `None` where it holds none.
pub uninterp spec fn json_u32_array(text: Seq<char>) -> Option<Seq<u32>>;

/// Reads `text` with `serde_json::from_str` as an array of
/// `serde_json::Value`, and picks from each element its `type` and `text`
/// (`Value::get`, then `Value::as_str`) and its `id` (`Value::as_i64`). The
/// contract claims only that the outcome is the named result of `text`:
/// `None` exactly where that is `None`, else one definition per record.
#[verifier::external_body]
fn parse_bit_records(text: &str) -> (r: Option<Vec<BitDef>>)
    ensures
        match json_bit_records(text@) {
            Some(recs) => r matches Some(v) && v@.len() == recs.len() && forall|i: int|
                0 <= i < recs.len() ==> #[trigger] bit_record(v@[i]) == recs[i],
            None => r is None,
        },
{
    let values: Vec<serde_json::Value> = serde_json::from_str(text).ok()?;
    let mut out = Vec::new();
    for bit in values.iter() {
        out.push(BitDef {
            kind: bit.get("type").and_then(serde_json::Value::as_str).map(String::from),
            id: bit.get("id").and_then(serde_json::Value::as_i64),
            text: bit.get("text").and_then(serde_json::Value::as_str).map(String::from),
        });
    }
    Some(out)
}

/// Reads `text` with `serde_json::from_str::<Vec<u32>>`. The contract claims
/// only that the outcome is the named result of `text`.
#[verifier::external_body]
fn parse_u32_array(text: &str) -> (r: Option<Vec<u32>>)
    ensures
        match json_u32_array(text@) {
            Some(s) => r matches Some(v) && v@ == s,
            None => r is None,
        },
{
    serde_json::from_str::<Vec<u32>>(text).ok()
}

/// The bit records stored as `json`: none when absent or not a JSON array.
pub open spec fn stored_bits(json: Option<Seq<char>>) -> Seq<BitRecord> {
    match json {
        Some(t) => match json_bit_records(t) {
            Some(recs) => recs,
            None => Seq::empty(),
        },
        None => Seq::empty(),
    }
}

/// The completed bit indices stored as `json`: none when absent or not a
/// JSON array of `u32`.
pub open spec fn stored_done(json: Option<Seq<char>>) -> Seq<u32> {
    match json {
        Some(t) => match json_u32_array(t) {
            Some(s) => s,
            None => Seq::empty(),
        },
        None => Seq::empty(),
    }
}

/// The bit definitions stored with an achievement (see `stored_bits`).
pub fn bit_defs(json: &Option<String>) -> (r: Vec<BitDef>)
    ensures
        r@.len() == stored_bits(opt_text(*json)).len(),
        forall|i: int|
            0 <= i < r@.len() ==> #[trigger] bit_record(r@[i]) == stored_bits(opt_text(*json))[i],
{
    match json {
        Some(text) => match parse_bit_records(text.as_str()) {
            Some(v) => v,
            None => Vec::new(),
        },
        None => Vec::new(),
    }
}

/// The completed bit indices stored with the account's progress (see
/// `stored_done`).
pub fn done_indices(json: &Option<String>) -> (r: Vec<u32>)
    ensures
        r@ == stored_done(opt_text(*json)),
{
    match json {
        Some(text) => match parse_u32_array(text.as_str()) {
            Some(v) => v,
            None => Vec::new(),
        },
        None => Vec::new(),
    }
}

/// The bits of a pinned achievement from what is stored: the definition
/// `def_json` read against the completed indices `done_json`, one view per
/// stored record (see `bit_view_of`).
pub fn parse_bits(
    def_json: &Option<String>,
    done_json: &Option<String>,
    items: &HashMap<u32, CachedItem>,
) -> (r: Vec<PinnedBitView>)
    ensures
        r@.len() == stored_bits(opt_text(*def_json)).len(),
        forall|i: int|
            0 <= i < r@.len() ==> #[trigger] bit_facts(r@[i]) == bit_view_of(
                stored_bits(opt_text(*def_json))[i],
                i,
                stored_done(opt_text(*done_json)),
                items@,
            ),
{
    let defs = bit_defs(def_json);
    let done = done_indices(done_json);
    let r = bit_views(&defs, &done, items);
    assert forall|i: int| 0 <= i < r@.len() implies #[trigger] bit_facts(r@[i]) == bit_view_of(
        stored_bits(opt_text(*def_json))[i],
        i,
        stored_done(opt_text(*done_json)),
        items@,
    ) by {
        assert(bit_record(defs@[i]) == stored_bits(opt_text(*def_json))[i]);
    };
    r
}

// ---------------------------------------------------------------------------
// Recent log lines
// ---------------------------------------------------------------------------

/// The lines of `s` as `str::lines` splits it: at each '\n', a trailing
/// '\r' dropped from each line, and no empty last line after a final '\n'.
pub open spec fn lines_of(s: Seq<char>) -> Seq<Seq<char>> {
    let parts = split_newlines(s);
    let parts = if parts.len() > 0 && parts.last().len() == 0 {
        parts.drop_last()
    } else {
        parts
    };
    parts.map_values(|l: Seq<char>| strip_cr(l))
}

/// `s` cut at every '\n'.
pub open spec fn split_newlines(s: Seq<char>) -> Seq<Seq<char>>
    decreases s.len(),
{
    if s.len() == 0 {
        seq![Seq::empty()]
    } else {
        let prev = split_newlines(s.drop_last());
        if s.last() == '\n' {
            prev.push(Seq::empty())
        } else {
            prev.update(prev.len() - 1, prev.last().push(s.last()))
        }
    }
}

pub open spec fn strip_cr(l: Seq<char>) -> Seq<char> {
    if l.len() > 0 && l.last() == '\r' {
        l.drop_last()
    } else {
        l
    }
}

/// The last `max_lines` lines of a log (100 by default, at most 2000),
/// joined by '\n'.
pub open spec fn recent_lines_of(content: Seq<char>, max_lines: Option<usize>) -> Seq<char> {
    let cap: int = match max_lines {
        Some(m) => if m <= 2000 {
            m as int
        } else {
            2000
        },
        None => 100,
    };
    let ls = lines_of(content);
    let start = if ls.len() > cap {
        ls.len() - cap
    } else {
        0
    };
    join(ls.skip(start), "\n"@)
}

proof fn lemma_split_nonempty(s: Seq<char>)
    ensures
        split_newlines(s).len() >= 1,
    decreases s.len(),
{
    if s.len() > 0 {
        lemma_split_nonempty(s.drop_last());
    }
}

/// The pieces of `cs` between newlines.
fn split_lines(cs: &Vec<char>) -> (r: Vec<String>)
    ensures
        texts(r@) == split_newlines(cs@),
{
    let mut out: Vec<String> = Vec::new();
    let mut start: usize = 0;
    let mut i: usize = 0;
    assert(texts(out@) =~= Seq::<Seq<char>>::empty());
    assert(cs@.take(0) =~= Seq::<char>::empty());
    assert(cs@.subrange(0, 0) =~= Seq::<char>::empty());
    assert(texts(out@).push(cs@.subrange(0, 0)) =~= seq![Seq::<char>::empty()]);
    while i < cs.len()
        invariant
            start <= i <= cs.len(),
            forall|k: int| start <= k < i ==> cs@[k] != '\n',
            texts(out@).push(cs@.subrange(start as int, i as int)) == split_newlines(cs@.take(i as int)),
        decreases cs.len() - i,
    {
        proof {
            let t = cs@.take(i + 1);
            assert(t.drop_last() == cs@.take(i as int));
            assert(t.last() == cs@[i as int]);
            lemma_split_nonempty(cs@.take(i as int));
        }
        if cs[i] == '\n' {
            let piece = string_of(cs, start, i);
            let ghost before = out@;
            out.push(piece);
            assert(texts(out@) =~= texts(before).push(cs@.subrange(start as int, i as int)));
            assert(cs@.subrange(i + 1, i + 1) =~= Seq::<char>::empty());
            start = i + 1;
        } else {
            let ghost prev = split_newlines(cs@.take(i as int));
            assert(cs@.subrange(start as int, i + 1) =~= cs@.subrange(start as int, i as int).push(
                cs@[i as int],
            ));
            assert(texts(out@).push(cs@.subrange(start as int, i + 1)) =~= prev.update(
                prev.len() - 1,
                prev.last().push(cs@[i as int]),
            ));
        }
        i = i + 1;
    }
    let last = string_of(cs, start, cs.len());
    let ghost before = out@;
    out.push(last);
    assert(texts(out@) =~= texts(before).push(cs@.subrange(start as int, cs.len() as int)));
    assert(cs@.take(cs.len() as int) == cs@);
    out
}

/// Drop a trailing '\r'.
fn strip_cr_exec(s: String) -> (r: String)
    ensures
        r@ == strip_cr(s@),
{
    let cs = chars_of(s.as_str());
    if cs.len() > 0 && cs[cs.len() - 1] == '\r' {
        let r = string_of(&cs, 0, cs.len() - 1);
        assert(cs@.subrange(0, cs.len() - 1) == cs@.drop_last());
        r
    } else {
        s
    }
}

/// The last lines of a log (see `recent_lines_of`).
pub fn recent_log_lines(content: &str, max_lines: Option<usize>) -> (r: String)
    ensures
        r@ == recent_lines_of(content@, max_lines),
{
    let cap: usize = match max_lines {
        Some(m) => if m <= 2000 {
            m
        } else {
            2000
        },
        None => 100,
    };
    let cs = chars_of(content);
    let mut parts = split_lines(&cs);
    proof {
        lemma_split_nonempty(content@);
    }
    if parts.len() > 0 && parts[parts.len() - 1].as_str().unicode_len() == 0 {
        let ghost before = parts@;
        parts.pop();
        assert(texts(parts@) =~= texts(before).drop_last());
    }
    let ghost trimmed_parts = texts(parts@);
    let start = if parts.len() > cap {
        parts.len() - cap
    } else {
        0
    };
    let mut kept: Vec<String> = Vec::new();
    let mut i = start;
    while i < parts.len()
        invariant
            start <= i <= parts.len(),
            trimmed_parts == texts(parts@),
            texts(kept@) == trimmed_parts.subrange(start as int, i as int).map_values(
                |l: Seq<char>| strip_cr(l),
            ),
        decreases parts.len() - i,
    {
        let line = strip_cr_exec(parts[i].clone());
        let ghost before = kept@;
        kept.push(line);
        assert(texts(kept@) =~= texts(before).push(strip_cr(trimmed_parts[i as int])));
        assert(trimmed_parts.subrange(start as int, i + 1).map_values(|l: Seq<char>| strip_cr(l))
            =~= trimmed_parts.subrange(start as int, i as int).map_values(|l: Seq<char>| strip_cr(l)).push(
            strip_cr(trimmed_parts[i as int]),
        ));
        i = i + 1;
    }
    let ghost ls = lines_of(content@);
    assert(ls == trimmed_parts.map_values(|l: Seq<char>| strip_cr(l)));
    assert(texts(kept@) =~= ls.skip(start as int));
    join_strings(&kept, "\n")
}

} // verus!
