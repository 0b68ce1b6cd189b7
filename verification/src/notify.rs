//! Boss notifications: which pinned world bosses are about to spawn, and
//! the log that keeps each spawn from being announced twice.
use vstd::prelude::*;

use crate::search::{first_match, lemma_first_match_found, lemma_first_match_step};
use crate::text::{concat, decimal, decimal_string};
use crate::timers::engine::{
    in_time_range, lemma_next_spawn_bounds, next_spawn, next_spawn_of, NANOS_PER_MINUTE,
};
use crate::timers::schedule::{Schedule, WorldBoss};

verus! {

pub const NANOS_PER_HOUR: i128 = 3_600_000_000_000;

/// The spawns already announced, as (boss id, spawn instant).
pub struct NotifiedLog {
    entries: Vec<(String, i128)>,
}

pub open spec fn entry_view(e: (String, i128)) -> (Seq<char>, i128) {
    (e.0@, e.1)
}

pub open spec fn entries_view(v: Seq<(String, i128)>) -> Seq<(Seq<char>, i128)> {
    v.map_values(|e: (String, i128)| entry_view(e))
}

impl NotifiedLog {
    /// The announced spawns.
    pub closed spec fn view(&self) -> Set<(Seq<char>, i128)> {
        entries_view(self.entries@).to_set()
    }

    /// Nothing announced yet.
    pub fn new() -> (r: Self)
        ensures
            r.view() == Set::<(Seq<char>, i128)>::empty(),
    {
        let r = NotifiedLog { entries: Vec::new() };
        assert(r.view() =~= Set::<(Seq<char>, i128)>::empty());
        r
    }

    /// Whether (id, spawn) was announced.
    fn has(&self, id: &String, spawn: i128) -> (r: bool)
        ensures
            r == self.view().contains((id@, spawn)),
    {
        let ghost vs = entries_view(self.entries@);
        let mut i: usize = 0;
        while i < self.entries.len()
            invariant
                i <= self.entries.len(),
                vs == entries_view(self.entries@),
                forall|k: int| 0 <= k < i ==> vs[k] != (id@, spawn),
            decreases self.entries.len() - i,
        {
            assert(vs[i as int] == entry_view(self.entries@[i as int]));
            if self.entries[i].1 == spawn && self.entries[i].0 == *id {
                assert(vs.contains((id@, spawn)));
                return true;
            }
            i = i + 1;
        }
        proof {
            if vs.contains((id@, spawn)) {
                let k = choose|k: int| 0 <= k < vs.len() && vs[k] == (id@, spawn);
                assert(false);
            }
        }
        false
    }

    /// Record (id, spawn), then forget every spawn not after `cutoff`.
    fn record(&mut self, id: String, spawn: i128, cutoff: i128)
        ensures
            final(self).view() == old(self).view().insert((id@, spawn)).filter(
                |e: (Seq<char>, i128)| e.1 > cutoff,
            ),
    {
        let ghost before = self.view();
        self.entries.push((id, spawn));
        let ghost vs = entries_view(self.entries@);
        proof {
            let olds = entries_view(old(self).entries@);
            assert(vs =~= olds.push(entry_view((id, spawn))));
            assert(vs.to_set() =~= before.insert((id@, spawn))) by {
                assert forall|x: (Seq<char>, i128)| vs.to_set().contains(x) <==> before.insert(
                    (id@, spawn),
                ).contains(x) by {
                    if vs.contains(x) {
                        let k = choose|k: int| 0 <= k < vs.len() && vs[k] == x;
                        if k < olds.len() {
                            assert(olds[k] == x);
                            assert(olds.contains(x));
                        }
                    }
                    if olds.contains(x) {
                        let k = choose|k: int| 0 <= k < olds.len() && olds[k] == x;
                        assert(vs[k] == x);
                    }
                    if x == (id@, spawn) {
                        assert(vs[olds.len() as int] == x);
                    }
                };
            };
        }
        let mut kept: Vec<(String, i128)> = Vec::new();
        let mut rest: Vec<(String, i128)> = Vec::new();
        std::mem::swap(&mut rest, &mut self.entries);
        let ghost all = rest@;
        let ghost allv = vs;
        let mut i: usize = 0;
        assert(all.len() == rest.len());
        while rest.len() > 0
            invariant
                entries_view(all) == allv,
                rest.len() + i == all.len(),
                all.len() <= usize::MAX,
                forall|k: int| 0 <= k < rest.len() ==> #[trigger] rest@[k] == all[k],
                forall|x: (Seq<char>, i128)|
                    #[trigger] entries_view(kept@).contains(x) <==> (exists|k: int|
                        all.len() - i <= k < all.len() && #[trigger] allv[k] == x && x.1 > cutoff),
            decreases rest.len(),
        {
            let e = rest.pop().unwrap();
            let ghost k0 = all.len() - 1 - i;
            assert(e == all[k0]);
            assert(allv[k0] == entry_view(e));
            let ghost kb = kept@;
            if e.1 > cutoff {
                kept.push(e);
            }
            proof {
                let kv = entries_view(kept@);
                let kbv = entries_view(kb);
                assert forall|x: (Seq<char>, i128)| kv.contains(x) <==> (exists|k: int|
                    all.len() - (i + 1) <= k < all.len() && #[trigger] allv[k] == x && x.1 > cutoff) by {
                    if kv.contains(x) {
                        let j = choose|j: int| 0 <= j < kv.len() && kv[j] == x;
                        if j < kbv.len() {
                            assert(kbv[j] == x);
                            assert(kbv.contains(x));
                        } else {
                            assert(allv[k0] == x);
                        }
                    }
                    if exists|k: int| all.len() - (i + 1) <= k < all.len() && #[trigger] allv[k] == x
                        && x.1 > cutoff {
                        let k = choose|k: int| all.len() - (i + 1) <= k < all.len() && #[trigger] allv[k]
                            == x && x.1 > cutoff;
                        if k == k0 {
                            assert(kv[kv.len() - 1] == x);
                        } else {
                            assert(kbv.contains(x));
                            let j = choose|j: int| 0 <= j < kbv.len() && kbv[j] == x;
                            assert(kv[j] == x);
                        }
                    }
                };
            }
            i = i + 1;
        }
        self.entries = kept;
        proof {
            let kv = entries_view(self.entries@);
            assert(self.view() =~= before.insert((id@, spawn)).filter(
                |e: (Seq<char>, i128)| e.1 > cutoff,
            )) by {
                assert forall|x: (Seq<char>, i128)| kv.to_set().contains(x) <==> before.insert(
                    (id@, spawn),
                ).filter(|e: (Seq<char>, i128)| e.1 > cutoff).contains(x) by {
                    if kv.contains(x) {
                        let k = choose|k: int| 0 <= k < all.len() && #[trigger] allv[k] == x && x.1
                            > cutoff;
                        assert(allv.contains(x));
                    }
                    if allv.contains(x) && x.1 > cutoff {
                        let k = choose|k: int| 0 <= k < allv.len() && allv[k] == x;
                        assert(all.len() - i <= k < all.len());
                    }
                };
            };
        }
    }
}

/// A world boss has id `id`.
pub open spec fn boss_named(id: Seq<char>) -> spec_fn(WorldBoss) -> bool {
    |b: WorldBoss| b.id@ == id
}

/// Index of the first world boss with id `id`.
fn find_boss(schedule: &Schedule, id: &String) -> (r: Option<usize>)
    ensures
        match r {
            Some(i) => first_match(schedule.world_bosses@, boss_named(id@)) == Some(
                i as int,
            ),
            None => first_match(schedule.world_bosses@, boss_named(id@)) is None,
        },
{
    let ghost pred = boss_named(id@);
    let mut i: usize = 0;
    while i < schedule.world_bosses.len()
        invariant
            i <= schedule.world_bosses.len(),
            pred == boss_named(id@),
            first_match(schedule.world_bosses@.take(i as int), pred) is None,
        decreases schedule.world_bosses.len() - i,
    {
        if schedule.world_bosses[i].id == *id {
            proof {
                lemma_first_match_found(schedule.world_bosses@, pred, i as int);
            }
            return Some(i);
        }
        proof {
            lemma_first_match_step(schedule.world_bosses@, pred, i as int);
        }
        i = i + 1;
    }
    assert(schedule.world_bosses@.take(i as int) == schedule.world_bosses@);
    None
}

/// A notification to show for a boss about to spawn.
#[derive(Debug, Clone)]
pub struct BossAlert {
    pub boss_id: String,
    pub spawn: i128,
    pub title: String,
    pub body: String,
}

/// What an alert says: boss id, spawn, title, body.
pub type AlertFacts = (Seq<char>, i128, Seq<char>, Seq<char>);

pub open spec fn alert_facts(a: BossAlert) -> AlertFacts {
    (a.boss_id@, a.spawn, a.title@, a.body@)
}

/// The whole minutes until `next` (after `now`).
pub open spec fn minutes_until(next: int, now: int) -> int {
    (next - now) / (NANOS_PER_MINUTE as int)
}

/// The alert for pinned id `id` at `now`, if due: the first world boss
/// with that id spawns within `lead` whole minutes and that spawn was not
/// announced yet.
pub open spec fn alert_of(s: Schedule, id: Seq<char>, now: int, lead: int, log: Set<(Seq<char>, i128)>) -> Option<
    AlertFacts,
> {
    match first_match(s.world_bosses@, boss_named(id)) {
        Some(i) => {
            let b = s.world_bosses@[i];
            let next = next_spawn_of(b.schedule_utc@, now);
            let mins = minutes_until(next, now);
            if 0 <= mins <= lead && !log.contains((id, next as i128)) {
                Some(
                    (
                        id,
                        next as i128,
                        "GW2: "@ + b.name@ + " spawning soon"@,
                        if mins <= 0 {
                            "now at "@ + b.map@
                        } else {
                            "in "@ + decimal(mins as nat) + "m at "@ + b.map@
                        },
                    ),
                )
            } else {
                None
            }
        },
        None => None,
    }
}

/// The log after announcing `a` at `now`: the spawn recorded, spawns more
/// than an hour old forgotten.
pub open spec fn log_after(log: Set<(Seq<char>, i128)>, a: AlertFacts, now: int) -> Set<
    (Seq<char>, i128),
> {
    log.insert((a.0, a.1)).filter(|e: (Seq<char>, i128)| e.1 > now - NANOS_PER_HOUR)
}

/// The alerts for the pinned ids, in order, and the log they leave.
pub open spec fn alerts_run(
    s: Schedule,
    pinned: Seq<Seq<char>>,
    now: int,
    lead: int,
    log: Set<(Seq<char>, i128)>,
) -> (Seq<AlertFacts>, Set<(Seq<char>, i128)>)
    decreases pinned.len(),
{
    if pinned.len() == 0 {
        (Seq::empty(), log)
    } else {
        let (prev, l) = alerts_run(s, pinned.drop_last(), now, lead, log);
        match alert_of(s, pinned.last(), now, lead, l) {
            Some(a) => (prev.push(a), log_after(l, a, now)),
            None => (prev, l),
        }
    }
}

/// The alerts due at `now` for the pinned bosses, each spawn announced
/// once: a pinned id names the first world boss with that id; its next
/// spawn is due when it is at most `lead` whole minutes away.
pub fn boss_alerts(
    schedule: &Schedule,
    pinned: &Vec<String>,
    now: i128,
    lead: i64,
    log: &mut NotifiedLog,
) -> (r: Vec<BossAlert>)
    requires
        in_time_range(now as int),
    ensures
        r@.map_values(|a: BossAlert| alert_facts(a)) == alerts_run(
            *schedule,
            pinned@.map_values(|p: String| p@),
            now as int,
            lead as int,
            old(log).view(),
        ).0,
        final(log).view() == alerts_run(
            *schedule,
            pinned@.map_values(|p: String| p@),
            now as int,
            lead as int,
            old(log).view(),
        ).1,
{
    let ghost ids = pinned@.map_values(|p: String| p@);
    let ghost af = |a: BossAlert| alert_facts(a);
    let mut out: Vec<BossAlert> = Vec::new();
    let mut p: usize = 0;
    while p < pinned.len()
        invariant
            p <= pinned.len(),
            in_time_range(now as int),
            ids == pinned@.map_values(|p: String| p@),
            af == (|a: BossAlert| alert_facts(a)),
            out@.map_values(af) == alerts_run(
                *schedule,
                ids.take(p as int),
                now as int,
                lead as int,
                old(log).view(),
            ).0,
            log.view() == alerts_run(
                *schedule,
                ids.take(p as int),
                now as int,
                lead as int,
                old(log).view(),
            ).1,
        decreases pinned.len() - p,
    {
        let ghost t = ids.take(p + 1);
        assert(t.drop_last() == ids.take(p as int));
        assert(t.last() == pinned@[p as int]@);
        let id = &pinned[p];
        let found = find_boss(schedule, id);
        proof {
            crate::search::lemma_first_match_bounds(schedule.world_bosses@, boss_named(id@));
        }
        match found {
            Some(bi) => {
                let boss = &schedule.world_bosses[bi];
                let next = next_spawn(boss, now);
                let mins = (next - now) / NANOS_PER_MINUTE;
                if 0 <= mins && mins <= (lead as i128) && !log.has(id, next) {
                    let title = concat(concat("GW2: ", boss.name.as_str()).as_str(), " spawning soon");
                    let body = if mins <= 0 {
                        concat("now at ", boss.map.as_str())
                    } else {
                        let a = concat("in ", decimal_string(mins as u64).as_str());
                        let b = concat(a.as_str(), "m at ");
                        concat(b.as_str(), boss.map.as_str())
                    };
                    let alert = BossAlert { boss_id: id.clone(), spawn: next, title, body };
                    let ghost before = out@;
                    log.record(id.clone(), next, now - NANOS_PER_HOUR);
                    out.push(alert);
                    assert(out@.map_values(af) =~= before.map_values(af).push(alert_facts(alert)));
                }
            },
            None => {},
        }
        p = p + 1;
    }
    assert(ids.take(pinned.len() as int) == ids);
    out
}

/// The spawn of pinned id `id` that is due at `now`, ignoring the log: the
/// first world boss with that id spawns within `lead` whole minutes.
pub open spec fn due_spawn(s: Schedule, id: Seq<char>, now: int, lead: int) -> Option<i128> {
    match alert_of(s, id, now, lead, Set::empty()) {
        Some(a) => Some(a.1),
        None => None,
    }
}

proof fn lemma_due(s: Schedule, id: Seq<char>, now: int, lead: int, log: Set<(Seq<char>, i128)>)
    requires
        in_time_range(now),
    ensures
        match due_spawn(s, id, now, lead) {
            Some(n) => {
                &&& n >= now
                &&& alert_of(s, id, now, lead, log) == if log.contains((id, n)) {
                    None::<AlertFacts>
                } else {
                    Some(alert_of(s, id, now, lead, log)->0)
                }
                &&& alert_of(s, id, now, lead, log) matches Some(a) ==> a.0 == id && a.1 == n
            },
            None => alert_of(s, id, now, lead, log) is None,
        },
{
    match first_match(s.world_bosses@, boss_named(id)) {
        Some(i) => {
            crate::search::lemma_first_match_bounds(s.world_bosses@, boss_named(id));
            lemma_next_spawn_bounds(s.world_bosses@[i].schedule_utc@, now);
        },
        None => {},
    }
}

/// A recorded spawn that is at most an hour old stays recorded through a
/// run.
proof fn lemma_log_keeps(
    s: Schedule,
    pinned: Seq<Seq<char>>,
    now: int,
    lead: int,
    log: Set<(Seq<char>, i128)>,
    e: (Seq<char>, i128),
)
    requires
        log.contains(e),
        e.1 > now - NANOS_PER_HOUR,
    ensures
        alerts_run(s, pinned, now, lead, log).1.contains(e),
    decreases pinned.len(),
{
    if pinned.len() > 0 {
        lemma_log_keeps(s, pinned.drop_last(), now, lead, log, e);
    }
}

/// After a run, the log records the due spawn of every pinned id.
proof fn lemma_log_records(
    s: Schedule,
    pinned: Seq<Seq<char>>,
    now: int,
    lead: int,
    log: Set<(Seq<char>, i128)>,
    k: int,
)
    requires
        in_time_range(now),
        0 <= k < pinned.len(),
        due_spawn(s, pinned[k], now, lead) is Some,
    ensures
        alerts_run(s, pinned, now, lead, log).1.contains(
            (pinned[k], due_spawn(s, pinned[k], now, lead)->0),
        ),
    decreases pinned.len(),
{
    let d = pinned.drop_last();
    let (prev, l) = alerts_run(s, d, now, lead, log);
    let id = pinned.last();
    lemma_due(s, id, now, lead, l);
    if k < pinned.len() - 1 {
        assert(d[k] == pinned[k]);
        lemma_log_records(s, d, now, lead, log, k);
        let n = due_spawn(s, pinned[k], now, lead)->0;
        lemma_due(s, pinned[k], now, lead, l);
        lemma_log_keeps(s, seq![id], now, lead, l, (pinned[k], n));
        assert(seq![id].drop_last() =~= Seq::<Seq<char>>::empty());
        assert(seq![id].last() == id);
    } else {
        assert(pinned[k] == id);
    }
}

proof fn lemma_quiet_prefix(
    s: Schedule,
    pinned: Seq<Seq<char>>,
    now: int,
    lead: int,
    log: Set<(Seq<char>, i128)>,
    j: int,
)
    requires
        in_time_range(now),
        0 <= j <= pinned.len(),
    ensures
        alerts_run(s, pinned.take(j), now, lead, alerts_run(s, pinned, now, lead, log).1) == (
            Seq::<AlertFacts>::empty(),
            alerts_run(s, pinned, now, lead, log).1,
        ),
    decreases j,
{
    let l1 = alerts_run(s, pinned, now, lead, log).1;
    if j > 0 {
        lemma_quiet_prefix(s, pinned, now, lead, log, j - 1);
        let t = pinned.take(j);
        assert(t.drop_last() =~= pinned.take(j - 1));
        assert(t.last() == pinned[j - 1]);
        lemma_due(s, pinned[j - 1], now, lead, l1);
        if due_spawn(s, pinned[j - 1], now, lead) is Some {
            lemma_log_records(s, pinned, now, lead, log, j - 1);
        }
    } else {
        assert(pinned.take(0) =~= Seq::<Seq<char>>::empty());
    }
}

/// Each spawn is announced once: run again at the same instant over the
/// same pinned bosses, with the log the first run left, nothing is
/// announced and the log is unchanged.
pub proof fn lemma_announced_once(
    s: Schedule,
    pinned: Seq<Seq<char>>,
    now: int,
    lead: int,
    log: Set<(Seq<char>, i128)>,
)
    requires
        in_time_range(now),
    ensures
        alerts_run(s, pinned, now, lead, alerts_run(s, pinned, now, lead, log).1).0.len() == 0,
        alerts_run(s, pinned, now, lead, alerts_run(s, pinned, now, lead, log).1).1 == alerts_run(
            s,
            pinned,
            now,
            lead,
            log,
        ).1,
{
    lemma_quiet_prefix(s, pinned, now, lead, log, pinned.len() as int);
    assert(pinned.take(pinned.len() as int) =~= pinned);
}

} // verus!
