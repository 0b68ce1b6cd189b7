//! The layout of the Pinned view: pinned achievements grouped under the
//! event they are linked to, one group per explicitly pinned boss and per
//! other linked event, groups in order of their next start; achievements
//! with no linked event stand alone.
use vstd::prelude::*;

use crate::search::{first_match, lemma_first_match_found, lemma_first_match_step};
use crate::sync::cache::contains_id;
use crate::sorting::{
    lemma_sorted_ascending, lemma_sorted_len, lemma_sorted_map, lemma_sorted_pairs,
    lemma_sorted_permutes, stable_sort_by_key, stable_sorted,
};
use crate::timers::engine::{in_time_range, metas_well_formed, UpcomingEvent};
use crate::timers::feed::{info_facts, lookup_event, lookup_of, EventInfo, InfoFacts};
use crate::text::texts;
use crate::timers::schedule::Schedule;

verus! {

/// One boss group of the Pinned view, with the positions of its
/// achievements in the list they were loaded in.
#[derive(Debug, Clone)]
pub struct BossGroupPlan {
    pub info: EventInfo,
    pub explicitly_pinned: bool,
    pub members: Vec<usize>,
    pub has_remaining: bool,
}

/// The Pinned view's layout: the boss groups, and the positions of the
/// achievements that stand alone.
#[derive(Debug, Clone)]
pub struct PinnedPlan {
    pub boss_groups: Vec<BossGroupPlan>,
    pub standalone: Vec<usize>,
}

/// What a group says: its event, whether the boss is pinned, its members,
/// whether any member is not done.
pub type GroupFacts = (InfoFacts, bool, Seq<usize>, bool);

pub open spec fn group_facts(g: BossGroupPlan) -> GroupFacts {
    (info_facts(g.info), g.explicitly_pinned, g.members@, g.has_remaining)
}

pub open spec fn boss_text(b: Option<String>) -> Option<Seq<char>> {
    match b {
        Some(s) => Some(s@),
        None => None,
    }
}

/// The linked events of the achievements, each once, in first-seen order.
pub open spec fn linked_events(bosses: Seq<Option<String>>) -> Seq<Seq<char>>
    decreases bosses.len(),
{
    if bosses.len() == 0 {
        Seq::empty()
    } else {
        let prev = linked_events(bosses.drop_last());
        match bosses.last() {
            Some(b) => if prev.contains(b@) {
                prev
            } else {
                prev.push(b@)
            },
            None => prev,
        }
    }
}

/// The positions of the achievements linked to `id`, in order.
pub open spec fn members_of(bosses: Seq<Option<String>>, id: Seq<char>) -> Seq<usize>
    decreases bosses.len(),
{
    if bosses.len() == 0 {
        Seq::empty()
    } else {
        let prev = members_of(bosses.drop_last(), id);
        if boss_text(bosses.last()) == Some(id) {
            prev.push((bosses.len() - 1) as usize)
        } else {
            prev
        }
    }
}

/// The positions of the achievements linked to no event, in order.
pub open spec fn standalone_of(bosses: Seq<Option<String>>) -> Seq<usize>
    decreases bosses.len(),
{
    if bosses.len() == 0 {
        Seq::empty()
    } else {
        let prev = standalone_of(bosses.drop_last());
        if bosses.last() is None {
            prev.push((bosses.len() - 1) as usize)
        } else {
            prev
        }
    }
}

/// The events to show a group for: the pinned bosses, then the other
/// linked events.
pub open spec fn group_ids(pinned: Seq<Seq<char>>, bosses: Seq<Option<String>>) -> Seq<Seq<char>> {
    pinned + linked_events(bosses).filter(|k: Seq<char>| !pinned.contains(k))
}

/// Some member is not done.
pub open spec fn any_remaining(members: Seq<usize>, done: Seq<bool>) -> bool {
    exists|k: int| 0 <= k < members.len() && !done[members[k] as int]
}

/// The groups for `ids`, in order: one per id whose event exists, holding
/// the achievements linked to it (an id listed twice has them in its first
/// group only).
pub open spec fn raw_groups(
    s: Schedule,
    now: int,
    pinned: Seq<Seq<char>>,
    bosses: Seq<Option<String>>,
    done: Seq<bool>,
    ids: Seq<Seq<char>>,
) -> Seq<GroupFacts>
    decreases ids.len(),
{
    if ids.len() == 0 {
        Seq::empty()
    } else {
        let prev = raw_groups(s, now, pinned, bosses, done, ids.drop_last());
        let id = ids.last();
        match lookup_of(s, id, now) {
            Some(info) => {
                let members = if ids.drop_last().contains(id) {
                    Seq::empty()
                } else {
                    members_of(bosses, id)
                };
                prev.push((info, pinned.contains(id), members, any_remaining(members, done)))
            },
            None => prev,
        }
    }
}

pub open spec fn start_keys(gs: Seq<GroupFacts>) -> Seq<i128> {
    gs.map_values(|g: GroupFacts| g.0.4)
}

fn contains_text(v: &Vec<String>, x: &String) -> (r: bool)
    ensures
        r == texts(v@).contains(x@),
{
    let mut i: usize = 0;
    while i < v.len()
        invariant
            i <= v.len(),
            forall|k: int| 0 <= k < i ==> v@[k]@ != x@,
        decreases v.len() - i,
    {
        if v[i] == *x {
            assert(texts(v@)[i as int] == x@);
            return true;
        }
        i = i + 1;
    }
    proof {
        if texts(v@).contains(x@) {
            let k = choose|k: int| 0 <= k < texts(v@).len() && texts(v@)[k] == x@;
            assert(v@[k]@ == x@);
        }
    }
    false
}

/// The linked events of the achievements, each once, in first-seen order.
fn linked_events_exec(bosses: &Vec<Option<String>>) -> (r: Vec<String>)
    ensures
        texts(r@) == linked_events(bosses@),
{
    let mut out: Vec<String> = Vec::new();
    let mut i: usize = 0;
    while i < bosses.len()
        invariant
            i <= bosses.len(),
            texts(out@) == linked_events(bosses@.take(i as int)),
        decreases bosses.len() - i,
    {
        assert(bosses@.take(i + 1).drop_last() == bosses@.take(i as int));
        assert(bosses@.take(i + 1).last() == bosses@[i as int]);
        match &bosses[i] {
            Some(b) => {
                if !contains_text(&out, b) {
                    let ghost before = out@;
                    out.push(b.clone());
                    assert(texts(out@) =~= texts(before).push(b@));
                }
            },
            None => {},
        }
        i = i + 1;
    }
    assert(bosses@.take(i as int) == bosses@);
    out
}

/// The positions of the achievements linked to `id`, in order.
fn members_exec(bosses: &Vec<Option<String>>, id: &String) -> (r: Vec<usize>)
    ensures
        r@ == members_of(bosses@, id@),
        forall|k: int| 0 <= k < r@.len() ==> #[trigger] r@[k] < bosses.len(),
{
    let mut out: Vec<usize> = Vec::new();
    let mut i: usize = 0;
    while i < bosses.len()
        invariant
            i <= bosses.len(),
            out@ == members_of(bosses@.take(i as int), id@),
            forall|k: int| 0 <= k < out@.len() ==> #[trigger] out@[k] < i,
        decreases bosses.len() - i,
    {
        assert(bosses@.take(i + 1).drop_last() == bosses@.take(i as int));
        assert(bosses@.take(i + 1).last() == bosses@[i as int]);
        let linked = match &bosses[i] {
            Some(b) => *b == *id,
            None => false,
        };
        if linked {
            out.push(i);
        }
        i = i + 1;
    }
    assert(bosses@.take(i as int) == bosses@);
    out
}

/// The positions of the achievements linked to no event, in order.
fn standalone_exec(bosses: &Vec<Option<String>>) -> (r: Vec<usize>)
    ensures
        r@ == standalone_of(bosses@),
{
    let mut out: Vec<usize> = Vec::new();
    let mut i: usize = 0;
    while i < bosses.len()
        invariant
            i <= bosses.len(),
            out@ == standalone_of(bosses@.take(i as int)),
        decreases bosses.len() - i,
    {
        assert(bosses@.take(i + 1).drop_last() == bosses@.take(i as int));
        assert(bosses@.take(i + 1).last() == bosses@[i as int]);
        if bosses[i].is_none() {
            out.push(i);
        }
        i = i + 1;
    }
    assert(bosses@.take(i as int) == bosses@);
    out
}

/// Some member is not done.
fn any_remaining_exec(members: &Vec<usize>, done: &Vec<bool>) -> (r: bool)
    requires
        forall|k: int| 0 <= k < members@.len() ==> #[trigger] members@[k] < done.len(),
    ensures
        r == any_remaining(members@, done@),
{
    let mut i: usize = 0;
    while i < members.len()
        invariant
            i <= members.len(),
            forall|k: int| 0 <= k < members@.len() ==> #[trigger] members@[k] < done.len(),
            forall|k: int| 0 <= k < i ==> done@[#[trigger] members@[k] as int],
        decreases members.len() - i,
    {
        if !done[members[i]] {
            return true;
        }
        i = i + 1;
    }
    false
}

/// The events to show a group for (see `group_ids`).
fn group_ids_exec(pinned: &Vec<String>, bosses: &Vec<Option<String>>) -> (r: Vec<String>)
    ensures
        texts(r@) == group_ids(texts(pinned@), bosses@),
{
    let linked = linked_events_exec(bosses);
    let ghost le = texts(linked@);
    let ghost pv = texts(pinned@);
    let ghost keep = |k: Seq<char>| !pv.contains(k);
    let mut out: Vec<String> = Vec::new();
    let mut p: usize = 0;
    while p < pinned.len()
        invariant
            p <= pinned.len(),
            texts(out@) == pv.take(p as int),
            pv == texts(pinned@),
        decreases pinned.len() - p,
    {
        let ghost before = out@;
        out.push(pinned[p].clone());
        assert(texts(out@) =~= texts(before).push(pv[p as int]));
        assert(pv.take(p + 1) =~= pv.take(p as int).push(pv[p as int]));
        p = p + 1;
    }
    assert(pv.take(p as int) == pv);
    let mut k: usize = 0;
    assert(le.take(0).filter(keep) =~= Seq::<Seq<char>>::empty());
    while k < linked.len()
        invariant
            k <= linked.len(),
            le == texts(linked@),
            pv == texts(pinned@),
            keep == (|k: Seq<char>| !pv.contains(k)),
            texts(out@) == pv + le.take(k as int).filter(keep),
        decreases linked.len() - k,
    {
        proof {
            let t = le.take(k + 1);
            assert(t.drop_last() == le.take(k as int));
            assert(t.last() == le[k as int]);
            reveal(Seq::filter);
        }
        if !contains_text(pinned, &linked[k]) {
            let ghost before = out@;
            out.push(linked[k].clone());
            assert(texts(out@) =~= texts(before).push(le[k as int]));
        }
        k = k + 1;
    }
    assert(le.take(k as int) == le);
    out
}

/// The layout of the Pinned view. `bosses[i]` is the event achievement `i`
/// is linked to, `done[i]` whether it is done. Groups: one per pinned boss,
/// then one per other linked event (first-seen order), each only when the
/// event exists, sorted by next start (ties in that order); achievements
/// linked to no event stand alone.
pub fn plan_pinned_view(
    schedule: &Schedule,
    now: i128,
    pinned: &Vec<String>,
    bosses: &Vec<Option<String>>,
    done: &Vec<bool>,
) -> (r: PinnedPlan)
    requires
        in_time_range(now as int),
        metas_well_formed(*schedule),
        bosses.len() == done.len(),
    ensures
        r.standalone@ == standalone_of(bosses@),
        r.boss_groups@.map_values(|g: BossGroupPlan| group_facts(g)) == stable_sorted(
            raw_groups(
                *schedule,
                now as int,
                texts(pinned@),
                bosses@,
                done@,
                group_ids(texts(pinned@), bosses@),
            ),
            start_keys(
                raw_groups(
                    *schedule,
                    now as int,
                    texts(pinned@),
                    bosses@,
                    done@,
                    group_ids(texts(pinned@), bosses@),
                ),
            ),
        ).0,
{
    let ids = group_ids_exec(pinned, bosses);
    let ghost idv = texts(ids@);
    let ghost pv = texts(pinned@);
    let ghost gf = |g: BossGroupPlan| group_facts(g);
    let mut groups: Vec<BossGroupPlan> = Vec::new();
    let mut keys: Vec<i128> = Vec::new();
    let mut g: usize = 0;
    while g < ids.len()
        invariant
            g <= ids.len(),
            in_time_range(now as int),
            metas_well_formed(*schedule),
            bosses.len() == done.len(),
            idv == texts(ids@),
            pv == texts(pinned@),
            gf == (|g: BossGroupPlan| group_facts(g)),
            groups@.map_values(gf) == raw_groups(
                *schedule,
                now as int,
                pv,
                bosses@,
                done@,
                idv.take(g as int),
            ),
            keys@ == start_keys(groups@.map_values(gf)),
        decreases ids.len() - g,
    {
        let ghost t = idv.take(g + 1);
        assert(t.drop_last() == idv.take(g as int));
        assert(t.last() == idv[g as int]);
        let id = &ids[g];
        match lookup_event(schedule, id, now) {
            Some(info) => {
                let mut earlier = false;
                let mut j: usize = 0;
                while j < g
                    invariant
                        j <= g < ids.len(),
                        idv == texts(ids@),
                        earlier == idv.take(j as int).contains(id@),
                    decreases g - j,
                {
                    proof {
                        let tj = idv.take(j + 1);
                        assert(tj == idv.take(j as int).push(idv[j as int]));
                        assert(idv[j as int] == ids@[j as int]@);
                        if idv[j as int] == id@ {
                            assert(tj[j as int] == id@);
                        }
                        if idv.take(j as int).contains(id@) {
                            let k = choose|k: int| 0 <= k < j && idv.take(j as int)[k] == id@;
                            assert(tj[k] == id@);
                        }
                        if tj.contains(id@) {
                            let k = choose|k: int| 0 <= k < j + 1 && tj[k] == id@;
                            if k < j {
                                assert(idv.take(j as int)[k] == id@);
                            }
                        }
                    }
                    if ids[j] == *id {
                        earlier = true;
                    }
                    j = j + 1;
                }
                let members = if earlier {
                    Vec::new()
                } else {
                    members_exec(bosses, id)
                };
                assert(members@ == (if idv.take(g as int).contains(id@) {
                    Seq::<usize>::empty()
                } else {
                    members_of(bosses@, id@)
                }));
                let has_remaining = any_remaining_exec(&members, done);
                let start = info.next_spawn;
                let plan = BossGroupPlan {
                    info,
                    explicitly_pinned: contains_text(pinned, id),
                    members,
                    has_remaining,
                };
                let ghost before = groups@;
                groups.push(plan);
                keys.push(start);
                proof {
                    assert(groups@.map_values(gf) =~= before.map_values(gf).push(group_facts(plan)));
                    assert(start_keys(groups@.map_values(gf)) =~= start_keys(before.map_values(gf)).push(
                        start,
                    ));
                }
            },
            None => {},
        }
        g = g + 1;
    }
    assert(idv.take(ids.len() as int) == idv);
    proof {
        assert(groups@.map_values(gf).len() == groups@.len());
        assert(keys@.len() == groups@.len());
    }
    let ghost items = groups@;
    let ghost ks = keys@;
    let (sorted, _sorted_keys) = stable_sort_by_key(groups, keys);
    proof {
        lemma_sorted_map(items, ks, gf);
    }
    PinnedPlan { boss_groups: sorted, standalone: standalone_exec(bosses) }
}

/// The boss groups of the Pinned view are the groups of the pinned and
/// linked events that exist, each exactly once, in ascending order of the
/// event's next start.
pub proof fn lemma_groups_in_order(
    r: Seq<BossGroupPlan>,
    s: Schedule,
    now: int,
    pinned: Seq<Seq<char>>,
    bosses: Seq<Option<String>>,
    done: Seq<bool>,
)
    requires
        r.map_values(|g: BossGroupPlan| group_facts(g)) == stable_sorted(
            raw_groups(s, now, pinned, bosses, done, group_ids(pinned, bosses)),
            start_keys(raw_groups(s, now, pinned, bosses, done, group_ids(pinned, bosses))),
        ).0,
    ensures
        r.map_values(|g: BossGroupPlan| group_facts(g)).to_multiset() == raw_groups(
            s,
            now,
            pinned,
            bosses,
            done,
            group_ids(pinned, bosses),
        ).to_multiset(),
        forall|i: int, j: int|
            0 <= i < j < r.len() ==> (#[trigger] r[i]).info.next_spawn <= (
            #[trigger] r[j]).info.next_spawn,
{
    let raw = raw_groups(s, now, pinned, bosses, done, group_ids(pinned, bosses));
    let keys = start_keys(raw);
    let key_of = |g: GroupFacts| g.0.4;
    assert forall|m: int| 0 <= m < raw.len() implies #[trigger] keys[m] == key_of(raw[m]) by {};
    lemma_sorted_len(raw, keys);
    lemma_sorted_pairs(raw, keys, key_of);
    lemma_sorted_ascending(raw, keys);
    lemma_sorted_permutes(raw, keys);
    let sorted = stable_sorted(raw, keys);
    let fr = r.map_values(|g: BossGroupPlan| group_facts(g));
    assert(fr.len() == r.len());
    assert forall|i: int, j: int| 0 <= i < j < r.len() implies (#[trigger] r[i]).info.next_spawn <= (
    #[trigger] r[j]).info.next_spawn by {
        assert(fr[i] == group_facts(r[i]) && fr[j] == group_facts(r[j]));
        assert(sorted.1[i] <= sorted.1[j]);
        assert(sorted.1[i] == key_of(sorted.0[i]));
        assert(sorted.1[j] == key_of(sorted.0[j]));
    };
}

proof fn lemma_raw_groups_remaining(
    s: Schedule,
    now: int,
    pinned: Seq<Seq<char>>,
    bosses: Seq<Option<String>>,
    done: Seq<bool>,
    ids: Seq<Seq<char>>,
)
    ensures
        forall|g: int|
            0 <= g < raw_groups(s, now, pinned, bosses, done, ids).len() ==> ((#[trigger] raw_groups(
                s,
                now,
                pinned,
                bosses,
                done,
                ids,
            )[g]).3 <==> exists|k: int|
                0 <= k < raw_groups(s, now, pinned, bosses, done, ids)[g].2.len() && !done[raw_groups(
                    s,
                    now,
                    pinned,
                    bosses,
                    done,
                    ids,
                )[g].2[k] as int]),
    decreases ids.len(),
{
    if ids.len() > 0 {
        lemma_raw_groups_remaining(s, now, pinned, bosses, done, ids.drop_last());
        let prev = raw_groups(s, now, pinned, bosses, done, ids.drop_last());
        let all = raw_groups(s, now, pinned, bosses, done, ids);
        let id = ids.last();
        assert forall|g: int| 0 <= g < all.len() implies ((#[trigger] all[g]).3 <==> exists|k: int|
            0 <= k < all[g].2.len() && !done[all[g].2[k] as int]) by {
            if g < prev.len() {
                assert(all[g] == prev[g]);
            } else {
                match lookup_of(s, id, now) {
                    Some(info) => {
                        let members = if ids.drop_last().contains(id) {
                            Seq::empty()
                        } else {
                            members_of(bosses, id)
                        };
                        assert(all == prev.push(
                            (info, pinned.contains(id), members, any_remaining(members, done)),
                        ));
                        assert(all[g].2 == members);
                        assert(all[g].3 == any_remaining(members, done));
                    },
                    None => {
                        assert(all == prev);
                    },
                }
            }
        };
    }
}

/// Each boss group of the Pinned view has achievements remaining exactly
/// when one of its members is not done.
pub proof fn lemma_group_remaining(
    r: Seq<BossGroupPlan>,
    s: Schedule,
    now: int,
    pinned: Seq<Seq<char>>,
    bosses: Seq<Option<String>>,
    done: Seq<bool>,
)
    requires
        r.map_values(|g: BossGroupPlan| group_facts(g)) == stable_sorted(
            raw_groups(s, now, pinned, bosses, done, group_ids(pinned, bosses)),
            start_keys(raw_groups(s, now, pinned, bosses, done, group_ids(pinned, bosses))),
        ).0,
    ensures
        forall|i: int|
            0 <= i < r.len() ==> ((#[trigger] r[i]).has_remaining <==> exists|k: int|
                0 <= k < r[i].members.len() && !done[r[i].members@[k] as int]),
{
    broadcast use vstd::seq_lib::group_to_multiset_ensures;

    let ids = group_ids(pinned, bosses);
    let raw = raw_groups(s, now, pinned, bosses, done, ids);
    let fr = r.map_values(|g: BossGroupPlan| group_facts(g));
    lemma_groups_in_order(r, s, now, pinned, bosses, done);
    lemma_raw_groups_remaining(s, now, pinned, bosses, done, ids);
    assert forall|i: int| 0 <= i < r.len() implies ((#[trigger] r[i]).has_remaining <==> exists|k: int|
        0 <= k < r[i].members.len() && !done[r[i].members@[k] as int]) by {
        let f = group_facts(r[i]);
        assert(fr[i] == f);
        assert(fr.contains(f));
        assert(fr.to_multiset().count(f) > 0);
        assert(raw.to_multiset().count(f) > 0);
        assert(raw.contains(f));
        let m = choose|m: int| 0 <= m < raw.len() && raw[m] == f;
        assert(raw[m].2 == r[i].members@);
    };
}

// ---------------------------------------------------------------------------
// Pinned items
// ---------------------------------------------------------------------------

/// The upcoming occurrence shown beside an achievement linked to `boss`:
/// the first upcoming event whose id is `boss`.
pub fn next_event_of(upcoming: &Vec<UpcomingEvent>, boss: &str) -> (r: Option<usize>)
    ensures
        match r {
            Some(i) => first_match(upcoming@, |e: UpcomingEvent| e.id@ == boss@) == Some(i as int),
            None => first_match(upcoming@, |e: UpcomingEvent| e.id@ == boss@) is None,
        },
{
    let ghost pred = |e: UpcomingEvent| e.id@ == boss@;
    let target = crate::text::owned(boss);
    let mut i: usize = 0;
    while i < upcoming.len()
        invariant
            i <= upcoming.len(),
            target@ == boss@,
            pred == (|e: UpcomingEvent| e.id@ == boss@),
            first_match(upcoming@.take(i as int), pred) is None,
        decreases upcoming.len() - i,
    {
        if upcoming[i].id == target {
            proof {
                lemma_first_match_found(upcoming@, pred, i as int);
            }
            return Some(i);
        }
        proof {
            lemma_first_match_step(upcoming@, pred, i as int);
        }
        i = i + 1;
    }
    assert(upcoming@.take(i as int) == upcoming@);
    None
}

/// The ids of the pinned achievements that already sit in a boss group
/// (those linked to an event).
pub open spec fn grouped_ids(ids: Seq<u32>, bosses: Seq<Option<String>>) -> Seq<u32>
    decreases ids.len(),
{
    if ids.len() == 0 || bosses.len() < ids.len() {
        Seq::empty()
    } else {
        let prev = grouped_ids(ids.drop_last(), bosses.take(ids.len() - 1));
        if bosses[ids.len() - 1] is Some {
            prev.push(ids.last())
        } else {
            prev
        }
    }
}

/// The positions of the achievements linked to a pinned boss that are
/// added to its group: those not already shown in a group, in order.
pub open spec fn linked_to_add(linked: Seq<u32>, grouped: Seq<u32>) -> Seq<usize>
    decreases linked.len(),
{
    if linked.len() == 0 {
        Seq::empty()
    } else {
        let prev = linked_to_add(linked.drop_last(), grouped);
        if grouped.contains(linked.last()) {
            prev
        } else {
            prev.push((linked.len() - 1) as usize)
        }
    }
}

/// Of the achievements `linked` to a pinned boss, the positions of those
/// to add to its group: the pinned achievements (`pinned_ids`, linked to
/// `pinned_bosses`) that already sit in a group are left out.
pub fn linked_additions(
    linked: &Vec<u32>,
    pinned_ids: &Vec<u32>,
    pinned_bosses: &Vec<Option<String>>,
) -> (r: Vec<usize>)
    requires
        pinned_ids.len() == pinned_bosses.len(),
    ensures
        r@ == linked_to_add(linked@, grouped_ids(pinned_ids@, pinned_bosses@)),
{
    let mut grouped: Vec<u32> = Vec::new();
    let mut k: usize = 0;
    while k < pinned_ids.len()
        invariant
            k <= pinned_ids.len() == pinned_bosses.len(),
            grouped@ == grouped_ids(pinned_ids@.take(k as int), pinned_bosses@.take(k as int)),
        decreases pinned_ids.len() - k,
    {
        proof {
            let t = pinned_ids@.take(k + 1);
            assert(t.drop_last() == pinned_ids@.take(k as int));
            assert(pinned_bosses@.take(k + 1).take(k as int) == pinned_bosses@.take(k as int));
        }
        if pinned_bosses[k].is_some() {
            grouped.push(pinned_ids[k]);
        }
        k = k + 1;
    }
    assert(pinned_ids@.take(k as int) == pinned_ids@);
    assert(pinned_bosses@.take(k as int) == pinned_bosses@);
    let mut out: Vec<usize> = Vec::new();
    let mut i: usize = 0;
    while i < linked.len()
        invariant
            i <= linked.len(),
            out@ == linked_to_add(linked@.take(i as int), grouped@),
        decreases linked.len() - i,
    {
        assert(linked@.take(i + 1).drop_last() == linked@.take(i as int));
        let x = linked[i];
        let seen = contains_id(&grouped, x);
        if !seen {
            out.push(i);
        }
        i = i + 1;
    }
    assert(linked@.take(i as int) == linked@);
    out
}

} // verus!
