//! The snapshot of the account's achievement progress and what changed
//! between two syncs.
use std::collections::HashMap;

use vstd::prelude::*;

use crate::api::endpoints::AccountAchievement;

verus! {

/// A change in the account's progress on one achievement.
#[derive(Debug, Clone, PartialEq, Eq)]
pub enum ProgressChange {
    NewlyDone { id: u32 },
    Progressed { id: u32, prev: Option<u32>, current: Option<u32> },
    NewlyUnlocked { id: u32 },
}

/// The change that `a` shows against the previous snapshot `prev`. A
/// first-seen achievement is newly done, else newly unlocked; a known one
/// is newly done, else progressed (its `current` differs), else newly
/// unlocked; completion takes priority over progress.
pub open spec fn change_of(prev: Map<u32, AccountAchievement>, a: AccountAchievement) -> Option<
    ProgressChange,
> {
    if !prev.contains_key(a.id) {
        if a.done {
            Some(ProgressChange::NewlyDone { id: a.id })
        } else if a.unlocked {
            Some(ProgressChange::NewlyUnlocked { id: a.id })
        } else {
            None
        }
    } else {
        let p = prev[a.id];
        if !p.done && a.done {
            Some(ProgressChange::NewlyDone { id: a.id })
        } else if p.current != a.current {
            Some(ProgressChange::Progressed { id: a.id, prev: p.current, current: a.current })
        } else if !p.unlocked && a.unlocked {
            Some(ProgressChange::NewlyUnlocked { id: a.id })
        } else {
            None
        }
    }
}

/// The changes of `fresh` against `prev`, in the order of `fresh`.
pub open spec fn changes_of(prev: Map<u32, AccountAchievement>, fresh: Seq<AccountAchievement>) -> Seq<
    ProgressChange,
>
    decreases fresh.len(),
{
    if fresh.len() == 0 {
        Seq::empty()
    } else {
        let head = changes_of(prev, fresh.drop_last());
        match change_of(prev, fresh.last()) {
            Some(c) => head.push(c),
            None => head,
        }
    }
}

/// The snapshot that `rows` leave: each row under its id, a later row
/// replacing an earlier one with the same id.
pub open spec fn snapshot_of(rows: Seq<AccountAchievement>) -> Map<u32, AccountAchievement>
    decreases rows.len(),
{
    if rows.len() == 0 {
        Map::empty()
    } else {
        snapshot_of(rows.drop_last()).insert(rows.last().id, rows.last())
    }
}

fn same_current(a: Option<u32>, b: Option<u32>) -> (r: bool)
    ensures
        r == (a == b),
{
    match (a, b) {
        (Some(x), Some(y)) => x == y,
        (None, None) => true,
        _ => false,
    }
}

/// The change that `a` shows against the previous snapshot (see `change_of`).
fn change_exec(prev: &HashMap<u32, AccountAchievement>, a: &AccountAchievement) -> (r: Option<
    ProgressChange,
>)
    ensures
        r == change_of(prev@, *a),
{
    broadcast use vstd::std_specs::hash::group_hash_axioms;

    match prev.get(&a.id) {
        None => {
            if a.done {
                Some(ProgressChange::NewlyDone { id: a.id })
            } else if a.unlocked {
                Some(ProgressChange::NewlyUnlocked { id: a.id })
            } else {
                None
            }
        },
        Some(p) => {
            if !p.done && a.done {
                Some(ProgressChange::NewlyDone { id: a.id })
            } else if !same_current(p.current, a.current) {
                Some(ProgressChange::Progressed { id: a.id, prev: p.current, current: a.current })
            } else if !p.unlocked && a.unlocked {
                Some(ProgressChange::NewlyUnlocked { id: a.id })
            } else {
                None
            }
        },
    }
}

/// The per-achievement changes of `fresh` against the previous snapshot
/// `prev`, in the order of `fresh`.
pub fn diff(prev: &HashMap<u32, AccountAchievement>, fresh: &Vec<AccountAchievement>) -> (r: Vec<
    ProgressChange,
>)
    ensures
        r@ == changes_of(prev@, fresh@),
{
    let mut out: Vec<ProgressChange> = Vec::new();
    let mut i: usize = 0;
    while i < fresh.len()
        invariant
            i <= fresh.len(),
            out@ == changes_of(prev@, fresh@.take(i as int)),
        decreases fresh.len() - i,
    {
        assert(fresh@.take(i + 1).drop_last() == fresh@.take(i as int));
        assert(fresh@.take(i + 1).last() == fresh@[i as int]);
        match change_exec(prev, &fresh[i]) {
            Some(c) => out.push(c),
            None => {},
        }
        i = i + 1;
    }
    assert(fresh@.take(i as int) == fresh@);
    out
}

/// The last-seen progress of every achievement of the account, by id.
pub struct ProgressSnapshot {
    inner: HashMap<u32, AccountAchievement>,
}

impl ProgressSnapshot {
    /// The progress by achievement id.
    pub closed spec fn view(&self) -> Map<u32, AccountAchievement> {
        self.inner@
    }

    /// An empty snapshot.
    pub fn new() -> (r: Self)
        ensures
            r.view() == Map::<u32, AccountAchievement>::empty(),
    {
        ProgressSnapshot { inner: HashMap::new() }
    }

    /// The number of achievements in the snapshot.
    pub fn len(&self) -> (r: usize)
        ensures
            r == self.view().len(),
    {
        broadcast use vstd::std_specs::hash::group_hash_axioms;

        self.inner.len()
    }

    /// The snapshot holds nothing.
    pub fn is_empty(&self) -> (r: bool)
        ensures
            r == (self.view().len() == 0),
    {
        self.len() == 0
    }

    /// Replace the snapshot with `rows`, each under its id.
    pub fn replace(&mut self, rows: Vec<AccountAchievement>)
        ensures
            final(self).view() == snapshot_of(rows@),
    {
        broadcast use vstd::std_specs::hash::group_hash_axioms;

        self.inner.clear();
        let ghost orig = rows@;
        let n = rows.len();
        let mut rows = rows;
        let mut rev: Vec<AccountAchievement> = Vec::new();
        while rows.len() > 0
            invariant
                rows.len() + rev.len() == n == orig.len(),
                forall|k: int| 0 <= k < rows.len() ==> #[trigger] rows@[k] == orig[k],
                forall|k: int| 0 <= k < rev.len() ==> #[trigger] rev@[k] == orig[n - 1 - k],
            decreases rows.len(),
        {
            let a = rows.pop().unwrap();
            rev.push(a);
        }
        let mut i: usize = 0;
        while rev.len() > 0
            invariant
                rev.len() + i == n == orig.len(),
                forall|k: int| 0 <= k < rev.len() ==> #[trigger] rev@[k] == orig[n - 1 - k],
                self.inner@ == snapshot_of(orig.take(i as int)),
            decreases rev.len(),
        {
            assert(orig.take(i + 1).drop_last() == orig.take(i as int));
            assert(orig.take(i + 1).last() == orig[i as int]);
            let a = rev.pop().unwrap();
            self.inner.insert(a.id, a);
            i = i + 1;
        }
        assert(orig.take(i as int) == orig);
    }

    /// The changes of `fresh` against this snapshot (see `diff`).
    pub fn changes(&self, fresh: &Vec<AccountAchievement>) -> (r: Vec<ProgressChange>)
        ensures
            r@ == changes_of(self.view(), fresh@),
    {
        diff(&self.inner, fresh)
    }
}


/// The ids of `rows` are distinct.
pub open spec fn distinct_ids(rows: Seq<AccountAchievement>) -> bool {
    forall|i: int, j: int| 0 <= i < j < rows.len() ==> (#[trigger] rows[i]).id != (#[trigger] rows[j]).id
}

proof fn lemma_snapshot_holds(rows: Seq<AccountAchievement>)
    requires
        distinct_ids(rows),
    ensures
        forall|k: int|
            0 <= k < rows.len() ==> snapshot_of(rows).contains_key((#[trigger] rows[k]).id)
                && snapshot_of(rows)[rows[k].id] == rows[k],
    decreases rows.len(),
{
    if rows.len() > 0 {
        let d = rows.drop_last();
        assert forall|i: int, j: int| 0 <= i < j < d.len() implies (#[trigger] d[i]).id != (
        #[trigger] d[j]).id by {
            assert(d[i] == rows[i] && d[j] == rows[j]);
        };
        lemma_snapshot_holds(d);
        assert forall|k: int| 0 <= k < rows.len() implies snapshot_of(rows).contains_key(
            (#[trigger] rows[k]).id,
        ) && snapshot_of(rows)[rows[k].id] == rows[k] by {
            if k < d.len() {
                assert(d[k] == rows[k]);
                assert(rows[k].id != rows[rows.len() - 1].id);
            }
        };
    }
}

proof fn lemma_quiet_prefix(m: Map<u32, AccountAchievement>, rows: Seq<AccountAchievement>)
    requires
        forall|k: int|
            0 <= k < rows.len() ==> m.contains_key((#[trigger] rows[k]).id) && m[rows[k].id]
                == rows[k],
    ensures
        changes_of(m, rows).len() == 0,
    decreases rows.len(),
{
    if rows.len() > 0 {
        let d = rows.drop_last();
        assert forall|k: int| 0 <= k < d.len() implies m.contains_key((#[trigger] d[k]).id)
            && m[d[k].id] == d[k] by {
            assert(d[k] == rows[k]);
        };
        lemma_quiet_prefix(m, d);
        assert(rows[rows.len() - 1] == rows.last());
    }
}

/// A sync that brings nothing new is quiet: after the snapshot is replaced
/// by rows with distinct ids, diffing those same rows reports no change.
pub proof fn lemma_resync_is_quiet(rows: Seq<AccountAchievement>)
    requires
        distinct_ids(rows),
    ensures
        changes_of(snapshot_of(rows), rows).len() == 0,
{
    lemma_snapshot_holds(rows);
    lemma_quiet_prefix(snapshot_of(rows), rows);
}

proof fn lemma_change_reported(prev: Map<u32, AccountAchievement>, fresh: Seq<AccountAchievement>, k: int)
    requires
        0 <= k < fresh.len(),
        change_of(prev, fresh[k]) is Some,
    ensures
        changes_of(prev, fresh).contains(change_of(prev, fresh[k])->0),
    decreases fresh.len(),
{
    let d = fresh.drop_last();
    let c = change_of(prev, fresh[k])->0;
    if k == fresh.len() - 1 {
        assert(fresh.last() == fresh[k]);
        let h = changes_of(prev, d);
        assert(h.push(c)[h.len() as int] == c);
    } else {
        assert(d[k] == fresh[k]);
        lemma_change_reported(prev, d, k);
        let h = changes_of(prev, d);
        let i = choose|i: int| 0 <= i < h.len() && h[i] == c;
        match change_of(prev, fresh.last()) {
            Some(x) => {
                assert(h.push(x)[i] == c);
            },
            None => {},
        }
    }
}

/// What a sync reports of each achievement of `fresh` against the previous
/// snapshot `prev`:
/// - one that becomes done (unknown before, or known and not done) is
///   reported newly done;
/// - a known one that does not become done but whose current progress
///   moved is reported progressed, from its previous to its new current
///   value, whether or not it also became unlocked;
/// - a known one that neither becomes done nor moves but becomes unlocked
///   is reported newly unlocked, and so is an unknown one that is unlocked
///   but not done.
pub proof fn lemma_changes_reported(prev: Map<u32, AccountAchievement>, fresh: Seq<AccountAchievement>, k: int)
    requires
        0 <= k < fresh.len(),
    ensures
        ((!prev.contains_key(fresh[k].id) || !prev[fresh[k].id].done) && fresh[k].done)
            ==> changes_of(prev, fresh).contains(ProgressChange::NewlyDone { id: fresh[k].id }),
        (prev.contains_key(fresh[k].id) && !(!prev[fresh[k].id].done && fresh[k].done)
            && prev[fresh[k].id].current != fresh[k].current) ==> changes_of(prev, fresh).contains(
            ProgressChange::Progressed {
                id: fresh[k].id,
                prev: prev[fresh[k].id].current,
                current: fresh[k].current,
            },
        ),
        (prev.contains_key(fresh[k].id) && !(!prev[fresh[k].id].done && fresh[k].done)
            && prev[fresh[k].id].current == fresh[k].current && !prev[fresh[k].id].unlocked
            && fresh[k].unlocked) ==> changes_of(prev, fresh).contains(
            ProgressChange::NewlyUnlocked { id: fresh[k].id },
        ),
        (!prev.contains_key(fresh[k].id) && !fresh[k].done && fresh[k].unlocked) ==> changes_of(
            prev,
            fresh,
        ).contains(ProgressChange::NewlyUnlocked { id: fresh[k].id }),
{
    if change_of(prev, fresh[k]) is Some {
        lemma_change_reported(prev, fresh, k);
    }
}

/// A sync reports at most one change per achievement it brings.
pub proof fn lemma_changes_at_most_one_each(prev: Map<u32, AccountAchievement>, fresh: Seq<AccountAchievement>)
    ensures
        changes_of(prev, fresh).len() <= fresh.len(),
    decreases fresh.len(),
{
    if fresh.len() > 0 {
        lemma_changes_at_most_one_each(prev, fresh.drop_last());
    }
}

} // verus!
