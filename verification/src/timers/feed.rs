//! The events feed: every world boss, meta event and the Ley-Line Anomaly
//! with the start it is shown with (the open window or active phase, else
//! the next one), ordered by expansion, then start, then name; and the
//! lookup of one event by id.
use vstd::prelude::*;

use crate::search::{first_match, lemma_first_match_bounds, lemma_first_match_found, lemma_first_match_step};
use crate::sorting::{
    lemma_sorted_ascending, lemma_sorted_len, lemma_sorted_map, lemma_sorted_pairs,
    lemma_sorted_permutes, lemma_sorted_view, stable_sort_by_key, stable_sorted, SortKey, SortOrder,
};
use crate::text::{chars_of, join, join_strings, opt_text, owned};
use crate::timers::engine::{
    boss_start, boss_start_at, current_meta_phase, cycle_origin, cycle_position, duration_named,
    first_phase, active_at, in_time_range, metas_well_formed, next_phase_of, next_spawn_at,
    next_spawn_of, NANOS_PER_MINUTE,
};
use crate::timers::schedule::{meta_well_formed, LeyLineAnomaly, MetaEvent, Schedule, WorldBoss};

verus! {

// ---------------------------------------------------------------------------
// Text order
// ---------------------------------------------------------------------------

/// Lexicographic order of texts by character (what `str`'s `<=` gives:
/// UTF-8 bytes order as the characters do).
pub open spec fn text_le(a: Seq<char>, b: Seq<char>) -> bool
    decreases a.len(),
{
    if a.len() == 0 {
        true
    } else if b.len() == 0 {
        false
    } else if a[0] != b[0] {
        a[0] < b[0]
    } else {
        text_le(a.drop_first(), b.drop_first())
    }
}

pub proof fn lemma_text_le_total(a: Seq<char>, b: Seq<char>)
    ensures
        text_le(a, b) || text_le(b, a),
    decreases a.len(),
{
    if a.len() > 0 && b.len() > 0 {
        if a[0] == b[0] {
            lemma_text_le_total(a.drop_first(), b.drop_first());
        }
    }
}

pub proof fn lemma_text_le_trans(a: Seq<char>, b: Seq<char>, c: Seq<char>)
    requires
        text_le(a, b),
        text_le(b, c),
    ensures
        text_le(a, c),
    decreases a.len(),
{
    if a.len() > 0 && b.len() > 0 && c.len() > 0 && a[0] == b[0] && b[0] == c[0] {
        lemma_text_le_trans(a.drop_first(), b.drop_first(), c.drop_first());
    }
}

/// `a <= b` in text order.
fn text_le_exec(a: &Vec<char>, b: &Vec<char>) -> (r: bool)
    ensures
        r == text_le(a@, b@),
{
    let mut i: usize = 0;
    assert(a@.skip(0) == a@);
    assert(b@.skip(0) == b@);
    while i < a.len() && i < b.len() && a[i] == b[i]
        invariant
            i <= a.len(),
            i <= b.len(),
            text_le(a@, b@) == text_le(a@.skip(i as int), b@.skip(i as int)),
        decreases a.len() - i,
    {
        assert(a@.skip(i as int).drop_first() == a@.skip(i + 1));
        assert(b@.skip(i as int).drop_first() == b@.skip(i + 1));
        i = i + 1;
    }
    proof {
        if i < a.len() {
            assert(a@.skip(i as int)[0] == a@[i as int]);
        }
        if i < b.len() {
            assert(b@.skip(i as int)[0] == b@[i as int]);
        }
    }
    if i == a.len() {
        true
    } else if i == b.len() {
        false
    } else {
        a[i] < b[i]
    }
}

// ---------------------------------------------------------------------------
// Feed order
// ---------------------------------------------------------------------------

/// The order of the feed: expansion rank, then start, then name.
pub type FeedOrder = (u8, i128, Seq<char>);

impl SortOrder for (u8, i128, Seq<char>) {
    open spec fn le(self, other: Self) -> bool {
        self.0 < other.0 || (self.0 == other.0 && (self.1 < other.1 || (self.1 == other.1
            && text_le(self.2, other.2))))
    }

    proof fn le_total(a: Self, b: Self) {
        lemma_text_le_total(a.2, b.2);
    }

    proof fn le_trans(a: Self, b: Self, c: Self) {
        if a.0 == b.0 && b.0 == c.0 && a.1 == b.1 && b.1 == c.1 {
            lemma_text_le_trans(a.2, b.2, c.2);
        }
    }
}

/// A feed entry's sort key, with its name as characters.
pub struct FeedKey {
    pub rank: u8,
    pub start: i128,
    pub name: Vec<char>,
}

pub open spec fn feed_order(k: FeedKey) -> FeedOrder {
    (k.rank, k.start, k.name@)
}

impl SortOrder for FeedKey {
    open spec fn le(self, other: Self) -> bool {
        feed_order(self).le(feed_order(other))
    }

    proof fn le_total(a: Self, b: Self) {
        <FeedOrder as SortOrder>::le_total(feed_order(a), feed_order(b));
    }

    proof fn le_trans(a: Self, b: Self, c: Self) {
        <FeedOrder as SortOrder>::le_trans(feed_order(a), feed_order(b), feed_order(c));
    }
}

impl SortKey for FeedKey {
    fn key_le(&self, other: &Self) -> (r: bool) {
        if self.rank != other.rank {
            self.rank < other.rank
        } else if self.start != other.start {
            self.start < other.start
        } else {
            text_le_exec(&self.name, &other.name)
        }
    }
}

/// Where an expansion sorts: Core first, then release order, unknown
/// expansions after those, and the special events last.
pub open spec fn expansion_rank(e: Seq<char>) -> u8 {
    if e == "Core"@ {
        0
    } else if e == "HoT"@ {
        1
    } else if e == "PoF"@ {
        2
    } else if e == "LWS3"@ {
        3
    } else if e == "LWS4"@ {
        4
    } else if e == "EoD"@ {
        5
    } else if e == "SotO"@ {
        6
    } else if e == "JW"@ {
        7
    } else if e == "Special"@ {
        99
    } else {
        50
    }
}

pub fn expansion_rank_of(e: &String) -> (r: u8)
    ensures
        r == expansion_rank(e@),
{
    if *e == owned("Core") {
        0
    } else if *e == owned("HoT") {
        1
    } else if *e == owned("PoF") {
        2
    } else if *e == owned("LWS3") {
        3
    } else if *e == owned("LWS4") {
        4
    } else if *e == owned("EoD") {
        5
    } else if *e == owned("SotO") {
        6
    } else if *e == owned("JW") {
        7
    } else if *e == owned("Special") {
        99
    } else {
        50
    }
}

// ---------------------------------------------------------------------------
// Feed entries
// ---------------------------------------------------------------------------

#[derive(Debug, Clone, Copy, PartialEq, Eq, Structural)]
pub enum EventKind {
    WorldBoss,
    MetaEvent,
    LeyLine,
}

/// One entry of the events feed.
#[derive(Debug, Clone)]
pub struct EventView {
    pub id: String,
    pub name: String,
    pub expansion: String,
    pub kind: EventKind,
    pub map: String,
    pub waypoint_code: Option<String>,
    pub next_spawn: i128,
    pub duration_minutes: u32,
    pub pinned: bool,
}

/// What a feed entry says, its strings by their text: id, name, expansion,
/// kind, map, waypoint, start, duration, pinned.
pub type FeedFacts = (
    Seq<char>,
    Seq<char>,
    Seq<char>,
    EventKind,
    Seq<char>,
    Option<Seq<char>>,
    i128,
    u32,
    bool,
);

pub open spec fn feed_facts(e: EventView) -> FeedFacts {
    (
        e.id@,
        e.name@,
        e.expansion@,
        e.kind,
        e.map@,
        opt_text(e.waypoint_code),
        e.next_spawn,
        e.duration_minutes,
        e.pinned,
    )
}

/// `id` is one of the pinned event ids.
pub open spec fn is_pinned(pinned: Seq<String>, id: Seq<char>) -> bool {
    exists|i: int| 0 <= i < pinned.len() && (#[trigger] pinned[i])@ == id
}

/// A meta event is shown with its active phase's start and duration, else
/// its next phase's; the duration is that of the first phase of that name.
pub open spec fn meta_shown(m: MetaEvent, now: int) -> (int, u32) {
    let ps = m.phases@;
    let w = cycle_position(m, now);
    match first_phase(ps, active_at(w)) {
        Some(i) => (
            cycle_origin(m, now) + ps[i].offset_minutes * NANOS_PER_MINUTE,
            duration_named(ps, ps[i].name@),
        ),
        None => (next_phase_of(m, now).1, duration_named(ps, ps[next_phase_of(m, now).0].name@)),
    }
}

/// The expansion a meta event is listed under: its own, else Core.
pub open spec fn meta_expansion(m: MetaEvent) -> Seq<char> {
    match m.expansion {
        Some(e) => e@,
        None => "Core"@,
    }
}

/// The maps of the Ley-Line Anomaly's rotation, joined.
pub open spec fn rotation_text(l: LeyLineAnomaly) -> Seq<char> {
    join(l.rotation_maps@.map_values(|s: String| s@), " / "@)
}

pub open spec fn boss_feed(b: WorldBoss, now: int, pinned: Seq<String>) -> FeedFacts {
    (
        b.id@,
        b.name@,
        b.expansion@,
        EventKind::WorldBoss,
        b.map@,
        opt_text(b.waypoint_code),
        boss_start(b, now) as i128,
        b.duration_minutes,
        is_pinned(pinned, b.id@),
    )
}

pub open spec fn meta_feed(m: MetaEvent, now: int, pinned: Seq<String>) -> FeedFacts {
    (
        m.id@,
        m.name@,
        meta_expansion(m),
        EventKind::MetaEvent,
        m.map@,
        opt_text(m.waypoint_code),
        meta_shown(m, now).0 as i128,
        meta_shown(m, now).1,
        is_pinned(pinned, m.id@),
    )
}

pub open spec fn ley_line_feed(l: LeyLineAnomaly, now: int, pinned: Seq<String>) -> FeedFacts {
    (
        l.id@,
        l.name@,
        "Special"@,
        EventKind::LeyLine,
        rotation_text(l),
        None,
        next_spawn_of(l.schedule_utc@, now) as i128,
        l.duration_minutes,
        is_pinned(pinned, l.id@),
    )
}

/// The feed before ordering: world bosses, meta events, then the Ley-Line
/// Anomaly, in schedule order.
pub open spec fn raw_feed(s: Schedule, now: int, pinned: Seq<String>) -> Seq<FeedFacts> {
    s.world_bosses@.map_values(|b: WorldBoss| boss_feed(b, now, pinned)) + s.meta_events@.map_values(
        |m: MetaEvent| meta_feed(m, now, pinned),
    ) + match s.ley_line_anomaly {
        Some(l) => seq![ley_line_feed(l, now, pinned)],
        None => Seq::empty(),
    }
}

pub open spec fn feed_keys(fs: Seq<FeedFacts>) -> Seq<FeedOrder> {
    fs.map_values(|f: FeedFacts| (expansion_rank(f.2), f.6, f.1))
}

/// `id` is one of `pinned`.
fn pinned_contains(pinned: &Vec<String>, id: &String) -> (r: bool)
    ensures
        r == is_pinned(pinned@, id@),
{
    let mut i: usize = 0;
    while i < pinned.len()
        invariant
            i <= pinned.len(),
            forall|k: int| 0 <= k < i ==> (#[trigger] pinned@[k])@ != id@,
        decreases pinned.len() - i,
    {
        if pinned[i] == *id {
            return true;
        }
        i = i + 1;
    }
    false
}

/// The start and duration a meta event is shown with (see `meta_shown`).
pub fn meta_start_duration(meta: &MetaEvent, now: i128) -> (r: (i128, u32))
    requires
        in_time_range(now as int),
        meta_well_formed(*meta),
    ensures
        r.0 == meta_shown(*meta, now as int).0,
        r.1 == meta_shown(*meta, now as int).1,
{
    let instant = current_meta_phase(meta, now);
    match instant.active {
        Some(active) => {
            let dur = crate::timers::engine::duration_of_name(&meta.phases, &active.name);
            (active.started_at, dur)
        },
        None => {
            let dur = crate::timers::engine::duration_of_name(&meta.phases, &instant.next.name);
            (instant.next.starts_at, dur)
        },
    }
}

fn meta_expansion_of(meta: &MetaEvent) -> (r: String)
    ensures
        r@ == meta_expansion(*meta),
{
    match &meta.expansion {
        Some(e) => e.clone(),
        None => owned("Core"),
    }
}

fn feed_key_of(e: &EventView) -> (k: FeedKey)
    ensures
        feed_order(k) == (expansion_rank(e.expansion@), e.next_spawn, e.name@),
{
    FeedKey { rank: expansion_rank_of(&e.expansion), start: e.next_spawn, name: chars_of(e.name.as_str()) }
}

/// Every world boss, meta event and the Ley-Line Anomaly, with the start
/// each is shown with, marked pinned when its id is in `pinned`, ordered by
/// expansion (Core first), then start, then name.
pub fn list_events(schedule: &Schedule, now: i128, pinned: &Vec<String>) -> (r: Vec<EventView>)
    requires
        in_time_range(now as int),
        metas_well_formed(*schedule),
    ensures
        r@.map_values(|e: EventView| feed_facts(e)) == stable_sorted(
            raw_feed(*schedule, now as int, pinned@),
            feed_keys(raw_feed(*schedule, now as int, pinned@)),
        ).0,
{
    let ghost ff = |e: EventView| feed_facts(e);
    let ghost fo = |k: FeedKey| feed_order(k);
    let ghost bf = |b: WorldBoss| boss_feed(b, now as int, pinned@);
    let ghost mf = |m: MetaEvent| meta_feed(m, now as int, pinned@);
    let mut out: Vec<EventView> = Vec::new();
    let mut keys: Vec<FeedKey> = Vec::new();
    let mut b: usize = 0;
    while b < schedule.world_bosses.len()
        invariant
            b <= schedule.world_bosses.len(),
            in_time_range(now as int),
            ff == (|e: EventView| feed_facts(e)),
            fo == (|k: FeedKey| feed_order(k)),
            bf == (|b: WorldBoss| boss_feed(b, now as int, pinned@)),
            out@.map_values(ff) == schedule.world_bosses@.take(b as int).map_values(bf),
            keys@.map_values(fo) == feed_keys(out@.map_values(ff)),
        decreases schedule.world_bosses.len() - b,
    {
        let boss = &schedule.world_bosses[b];
        let e = EventView {
            id: boss.id.clone(),
            name: boss.name.clone(),
            expansion: boss.expansion.clone(),
            kind: EventKind::WorldBoss,
            map: boss.map.clone(),
            waypoint_code: boss.waypoint_code.clone(),
            next_spawn: boss_start_at(boss, now),
            duration_minutes: boss.duration_minutes,
            pinned: pinned_contains(pinned, &boss.id),
        };
        let k = feed_key_of(&e);
        let ghost before = out@;
        let ghost kbefore = keys@;
        out.push(e);
        keys.push(k);
        proof {
            assert(schedule.world_bosses@.take(b + 1) == schedule.world_bosses@.take(b as int).push(
                *boss,
            ));
            assert(out@.map_values(ff) =~= before.map_values(ff).push(feed_facts(e)));
            assert(schedule.world_bosses@.take(b + 1).map_values(bf) =~= schedule.world_bosses@.take(
                b as int,
            ).map_values(bf).push(bf(*boss)));
            assert(keys@.map_values(fo) =~= kbefore.map_values(fo).push(feed_order(k)));
            assert(feed_keys(out@.map_values(ff)) =~= feed_keys(before.map_values(ff)).push(
                feed_order(k),
            ));
        }
        b = b + 1;
    }
    assert(schedule.world_bosses@.take(b as int) == schedule.world_bosses@);
    let ghost heads = out@.map_values(ff);
    let mut m: usize = 0;
    while m < schedule.meta_events.len()
        invariant
            m <= schedule.meta_events.len(),
            in_time_range(now as int),
            metas_well_formed(*schedule),
            ff == (|e: EventView| feed_facts(e)),
            fo == (|k: FeedKey| feed_order(k)),
            mf == (|m: MetaEvent| meta_feed(m, now as int, pinned@)),
            out@.map_values(ff) == heads + schedule.meta_events@.take(m as int).map_values(mf),
            keys@.map_values(fo) == feed_keys(out@.map_values(ff)),
        decreases schedule.meta_events.len() - m,
    {
        let meta = &schedule.meta_events[m];
        assert(meta_well_formed(schedule.meta_events@[m as int]));
        let (start, dur) = meta_start_duration(meta, now);
        let e = EventView {
            id: meta.id.clone(),
            name: meta.name.clone(),
            expansion: meta_expansion_of(meta),
            kind: EventKind::MetaEvent,
            map: meta.map.clone(),
            waypoint_code: meta.waypoint_code.clone(),
            next_spawn: start,
            duration_minutes: dur,
            pinned: pinned_contains(pinned, &meta.id),
        };
        let k = feed_key_of(&e);
        let ghost before = out@;
        let ghost kbefore = keys@;
        out.push(e);
        keys.push(k);
        proof {
            assert(schedule.meta_events@.take(m + 1) == schedule.meta_events@.take(m as int).push(
                *meta,
            ));
            assert(out@.map_values(ff) =~= before.map_values(ff).push(feed_facts(e)));
            assert(schedule.meta_events@.take(m + 1).map_values(mf) =~= schedule.meta_events@.take(
                m as int,
            ).map_values(mf).push(mf(*meta)));
            assert(keys@.map_values(fo) =~= kbefore.map_values(fo).push(feed_order(k)));
            assert(feed_keys(out@.map_values(ff)) =~= feed_keys(before.map_values(ff)).push(
                feed_order(k),
            ));
        }
        m = m + 1;
    }
    assert(schedule.meta_events@.take(m as int) == schedule.meta_events@);
    let ghost mids = out@.map_values(ff);
    match &schedule.ley_line_anomaly {
        Some(lla) => {
            let e = EventView {
                id: lla.id.clone(),
                name: lla.name.clone(),
                expansion: owned("Special"),
                kind: EventKind::LeyLine,
                map: join_strings(&lla.rotation_maps, " / "),
                waypoint_code: None,
                next_spawn: next_spawn_at(&lla.schedule_utc, now),
                duration_minutes: lla.duration_minutes,
                pinned: pinned_contains(pinned, &lla.id),
            };
            let k = feed_key_of(&e);
            let ghost before = out@;
            let ghost kbefore = keys@;
            out.push(e);
            keys.push(k);
            proof {
                assert(out@.map_values(ff) =~= before.map_values(ff).push(feed_facts(e)));
                assert(keys@.map_values(fo) =~= kbefore.map_values(fo).push(feed_order(k)));
                assert(feed_keys(out@.map_values(ff)) =~= feed_keys(before.map_values(ff)).push(
                    feed_order(k),
                ));
                assert(mids.push(feed_facts(e)) =~= mids + seq![feed_facts(e)]);
            }
        },
        None => {
            assert(mids =~= mids + Seq::<FeedFacts>::empty());
        },
    }
    proof {
        assert(out@.map_values(ff).len() == out@.len());
        assert(keys@.map_values(fo).len() == keys@.len());
    }
    let ghost items = out@;
    let ghost ks = keys@;
    let (sorted, _sorted_keys) = stable_sort_by_key(out, keys);
    proof {
        lemma_sorted_map(items, ks, ff);
        lemma_sorted_view(items.map_values(ff), ks, fo);
    }
    sorted
}


// ---------------------------------------------------------------------------
// One event by id
// ---------------------------------------------------------------------------

/// One event of the schedule, as a boss group shows it.
#[derive(Debug, Clone)]
pub struct EventInfo {
    pub id: String,
    pub name: String,
    pub map: String,
    pub expansion: String,
    pub next_spawn: i128,
    pub duration_minutes: u32,
    pub waypoint_code: Option<String>,
}

/// What an event info says, its strings by their text: id, name, map,
/// expansion, start, duration, waypoint.
pub type InfoFacts = (Seq<char>, Seq<char>, Seq<char>, Seq<char>, i128, u32, Option<Seq<char>>);

pub open spec fn info_facts(e: EventInfo) -> InfoFacts {
    (
        e.id@,
        e.name@,
        e.map@,
        e.expansion@,
        e.next_spawn,
        e.duration_minutes,
        opt_text(e.waypoint_code),
    )
}

/// The event with id `id`: the first world boss with that id, else the
/// first meta event, else the Ley-Line Anomaly; none when nothing has it.
pub open spec fn lookup_of(s: Schedule, id: Seq<char>, now: int) -> Option<InfoFacts> {
    match first_match(s.world_bosses@, |b: WorldBoss| b.id@ == id) {
        Some(i) => {
            let b = s.world_bosses@[i];
            Some(
                (
                    b.id@,
                    b.name@,
                    b.map@,
                    b.expansion@,
                    boss_start(b, now) as i128,
                    b.duration_minutes,
                    opt_text(b.waypoint_code),
                ),
            )
        },
        None => match first_match(s.meta_events@, |m: MetaEvent| m.id@ == id) {
            Some(j) => {
                let m = s.meta_events@[j];
                Some(
                    (
                        m.id@,
                        m.name@,
                        m.map@,
                        meta_expansion(m),
                        meta_shown(m, now).0 as i128,
                        meta_shown(m, now).1,
                        opt_text(m.waypoint_code),
                    ),
                )
            },
            None => match s.ley_line_anomaly {
                Some(l) => if l.id@ == id {
                    Some(
                        (
                            l.id@,
                            l.name@,
                            rotation_text(l),
                            "Special"@,
                            next_spawn_of(l.schedule_utc@, now) as i128,
                            l.duration_minutes,
                            None,
                        ),
                    )
                } else {
                    None
                },
                None => None,
            },
        },
    }
}

/// The event of the schedule with id `id` (see `lookup_of`).
pub fn lookup_event(schedule: &Schedule, id: &String, now: i128) -> (r: Option<EventInfo>)
    requires
        in_time_range(now as int),
        metas_well_formed(*schedule),
    ensures
        match r {
            Some(e) => lookup_of(*schedule, id@, now as int) == Some(info_facts(e)),
            None => lookup_of(*schedule, id@, now as int) is None,
        },
{
    let ghost bp = |b: WorldBoss| b.id@ == id@;
    let ghost mp = |m: MetaEvent| m.id@ == id@;
    let mut i: usize = 0;
    while i < schedule.world_bosses.len()
        invariant
            i <= schedule.world_bosses.len(),
            in_time_range(now as int),
            bp == (|b: WorldBoss| b.id@ == id@),
            first_match(schedule.world_bosses@.take(i as int), bp) is None,
        decreases schedule.world_bosses.len() - i,
    {
        let b = &schedule.world_bosses[i];
        if b.id == *id {
            proof {
                lemma_first_match_found(schedule.world_bosses@, bp, i as int);
            }
            return Some(
                EventInfo {
                    id: b.id.clone(),
                    name: b.name.clone(),
                    map: b.map.clone(),
                    expansion: b.expansion.clone(),
                    next_spawn: boss_start_at(b, now),
                    duration_minutes: b.duration_minutes,
                    waypoint_code: b.waypoint_code.clone(),
                },
            );
        }
        proof {
            lemma_first_match_step(schedule.world_bosses@, bp, i as int);
        }
        i = i + 1;
    }
    assert(schedule.world_bosses@.take(i as int) == schedule.world_bosses@);
    let mut j: usize = 0;
    while j < schedule.meta_events.len()
        invariant
            j <= schedule.meta_events.len(),
            in_time_range(now as int),
            metas_well_formed(*schedule),
            mp == (|m: MetaEvent| m.id@ == id@),
            bp == (|b: WorldBoss| b.id@ == id@),
            first_match(schedule.world_bosses@, bp) is None,
            first_match(schedule.meta_events@.take(j as int), mp) is None,
        decreases schedule.meta_events.len() - j,
    {
        let m = &schedule.meta_events[j];
        if m.id == *id {
            proof {
                lemma_first_match_found(schedule.meta_events@, mp, j as int);
            }
            assert(meta_well_formed(schedule.meta_events@[j as int]));
            let (start, dur) = meta_start_duration(m, now);
            return Some(
                EventInfo {
                    id: m.id.clone(),
                    name: m.name.clone(),
                    map: m.map.clone(),
                    expansion: meta_expansion_of(m),
                    next_spawn: start,
                    duration_minutes: dur,
                    waypoint_code: m.waypoint_code.clone(),
                },
            );
        }
        proof {
            lemma_first_match_step(schedule.meta_events@, mp, j as int);
        }
        j = j + 1;
    }
    assert(schedule.meta_events@.take(j as int) == schedule.meta_events@);
    match &schedule.ley_line_anomaly {
        Some(lla) => {
            if lla.id == *id {
                Some(
                    EventInfo {
                        id: lla.id.clone(),
                        name: lla.name.clone(),
                        map: join_strings(&lla.rotation_maps, " / "),
                        expansion: owned("Special"),
                        next_spawn: next_spawn_at(&lla.schedule_utc, now),
                        duration_minutes: lla.duration_minutes,
                        waypoint_code: None,
                    },
                )
            } else {
                None
            }
        },
        None => None,
    }
}

/// The feed holds one entry per event of the schedule (world bosses, meta
/// events, the Ley-Line Anomaly), each exactly once, in order of expansion
/// rank, then start, then name.
pub proof fn lemma_feed_in_order(r: Seq<EventView>, schedule: Schedule, now: int, pinned: Seq<String>)
    requires
        r.map_values(|e: EventView| feed_facts(e)) == stable_sorted(
            raw_feed(schedule, now, pinned),
            feed_keys(raw_feed(schedule, now, pinned)),
        ).0,
    ensures
        r.map_values(|e: EventView| feed_facts(e)).to_multiset() == raw_feed(
            schedule,
            now,
            pinned,
        ).to_multiset(),
        forall|i: int, j: int|
            0 <= i < j < r.len() ==> (
            expansion_rank((#[trigger] r[i]).expansion@),
            r[i].next_spawn,
            r[i].name@,
        ).le((expansion_rank((#[trigger] r[j]).expansion@), r[j].next_spawn, r[j].name@)),
{
    let raw = raw_feed(schedule, now, pinned);
    let keys = feed_keys(raw);
    let key_of = |f: FeedFacts| (expansion_rank(f.2), f.6, f.1);
    assert forall|m: int| 0 <= m < raw.len() implies #[trigger] keys[m] == key_of(raw[m]) by {};
    lemma_sorted_len(raw, keys);
    lemma_sorted_pairs(raw, keys, key_of);
    lemma_sorted_ascending(raw, keys);
    lemma_sorted_permutes(raw, keys);
    let sorted = stable_sorted(raw, keys);
    let fr = r.map_values(|e: EventView| feed_facts(e));
    assert(fr.len() == r.len());
    assert forall|i: int, j: int| 0 <= i < j < r.len() implies (
        expansion_rank((#[trigger] r[i]).expansion@),
        r[i].next_spawn,
        r[i].name@,
    ).le((expansion_rank((#[trigger] r[j]).expansion@), r[j].next_spawn, r[j].name@)) by {
        assert(fr[i] == feed_facts(r[i]) && fr[j] == feed_facts(r[j]));
        assert(sorted.1[i].le(sorted.1[j]));
        assert(sorted.1[i] == key_of(sorted.0[i]));
        assert(sorted.1[j] == key_of(sorted.0[j]));
    };
}

} // verus!
