//! Smart Legendary Selector: cross-references what the account owns with
//! curated recipes to compute per-legendary progress.
//!
//! A *leaf* is an atomic requirement (an item or a currency with a
//! quantity); a *component* is a named bundle of leaves shared between
//! recipes; a *legendary recipe* references components by key plus its own
//! direct leaves. `aggregate_needs` flattens a recipe into one entry per
//! distinct leaf; `compute_progress` groups the leaves (one group per
//! component, then direct leaves by their `group` label, unlabelled ones in
//! a trailing "Specific" group) and allocates owned quantities greedily
//! across the groups in order.
use std::collections::HashMap;

use vstd::prelude::*;

use crate::sorting::{
    lemma_sorted_ascending, lemma_sorted_len, lemma_sorted_pairs, stable_sort_by_key, stable_sorted,
};
use crate::text::owned;

verus! {



#[derive(Debug, Clone, Copy, PartialEq, Eq, Structural, Hash)]
pub enum LeafKind {
    Item,
    Currency,
}

/// An atomic requirement of a recipe.
#[derive(Debug, Clone)]
pub struct RecipeLeaf {
    pub kind: LeafKind,
    pub id: u32,
    pub quantity: i64,
    /// Display name, curated with the recipe.
    pub name: String,
    pub notes: Option<String>,
    /// Display group for direct leaves; ignored on component leaves.
    pub group: Option<String>,
}

/// A named bundle of leaves shared between recipes.
#[derive(Debug, Clone)]
pub struct Component {
    pub name: String,
    pub description: Option<String>,
    pub leaves: Vec<RecipeLeaf>,
}

/// The recipe of one legendary: shared components (by key) plus direct leaves.
#[derive(Debug, Clone)]
pub struct LegendaryRecipe {
    pub collection_key: String,
    pub components: Vec<String>,
    pub leaves: Vec<RecipeLeaf>,
    pub notes: Option<String>,
}

/// The curated recipe data: components by key, and the legendaries.
#[derive(Debug)]
pub struct RecipeCatalog {
    /// `(key, component)` pairs; a key is looked up by its first occurrence.
    pub components: Vec<(String, Component)>,
    pub legendaries: Vec<LegendaryRecipe>,
}

/// One distinct leaf of a recipe with the total quantity needed.
#[derive(Debug, Clone)]
pub struct AggregateLeaf {
    pub kind: LeafKind,
    pub id: u32,
    pub name: String,
    pub needed: i64,
}

/// Progress on one leaf occurrence within a group.
#[derive(Debug, Clone)]
pub struct LeafProgress {
    pub kind: LeafKind,
    pub id: u32,
    pub name: String,
    pub needed: i64,
    /// Owned quantity attributed to this group (greedy allocation).
    pub owned: i64,
    pub missing: i64,
    pub complete: bool,
}

/// Progress on one group of leaves. The completion ratio of the group is
/// `total_owned / total_needed` (0 when nothing is needed).
#[derive(Debug, Clone)]
pub struct ProgressGroup {
    pub name: String,
    pub total_needed: i64,
    pub total_owned: i64,
    pub leaves_total: usize,
    pub leaves_complete: usize,
    /// Largest missing first; complete leaves last.
    pub leaves: Vec<LeafProgress>,
}

/// Per-legendary progress. The header totals are computed over the
/// deduplicated aggregate; the ratio is `total_owned / total_needed`
/// (0 when nothing is needed).
#[derive(Debug, Clone)]
pub struct LegendaryProgress {
    pub collection_key: String,
    pub total_needed: i64,
    pub total_owned: i64,
    pub leaves_total: usize,
    pub leaves_complete: usize,
    pub groups: Vec<ProgressGroup>,
}

// ---------------------------------------------------------------------------
// Model
// ---------------------------------------------------------------------------

/// Index of the first component registered under `key`.
pub open spec fn component_index(comps: Seq<(String, Component)>, key: Seq<char>) -> Option<int>
    decreases comps.len(),
{
    if comps.len() == 0 {
        None
    } else {
        match component_index(comps.drop_last(), key) {
            Some(i) => Some(i),
            None => if comps.last().0@ == key {
                Some(comps.len() - 1)
            } else {
                None
            },
        }
    }
}

/// The components a recipe references, in reference order; keys with no
/// component are skipped.
pub open spec fn found_components(comps: Seq<(String, Component)>, keys: Seq<String>) -> Seq<
    Component,
>
    decreases keys.len(),
{
    if keys.len() == 0 {
        Seq::empty()
    } else {
        let prev = found_components(comps, keys.drop_last());
        match component_index(comps, keys.last()@) {
            Some(i) => prev.push(comps[i].1),
            None => prev,
        }
    }
}

/// The leaves of `cs`, component after component.
pub open spec fn component_leaves(cs: Seq<Component>) -> Seq<RecipeLeaf>
    decreases cs.len(),
{
    if cs.len() == 0 {
        Seq::empty()
    } else {
        component_leaves(cs.drop_last()) + cs.last().leaves@
    }
}

/// Every leaf occurrence of a recipe: component leaves, then direct leaves.
pub open spec fn walk(catalog: RecipeCatalog, recipe: LegendaryRecipe) -> Seq<RecipeLeaf> {
    component_leaves(found_components(catalog.components@, recipe.components@))
        + recipe.leaves@
}

pub open spec fn same_key(l: RecipeLeaf, kind: LeafKind, id: u32) -> bool {
    l.kind == kind && l.id == id
}

/// Total quantity of the leaves of `s` with key `(kind, id)`.
pub open spec fn need(s: Seq<RecipeLeaf>, kind: LeafKind, id: u32) -> int
    decreases s.len(),
{
    if s.len() == 0 {
        0
    } else {
        need(s.drop_last(), kind, id) + if same_key(s.last(), kind, id) {
            s.last().quantity as int
        } else {
            0
        }
    }
}

/// Total quantity of all leaves of `s`.
pub open spec fn total_quantity(s: Seq<RecipeLeaf>) -> int
    decreases s.len(),
{
    if s.len() == 0 {
        0
    } else {
        total_quantity(s.drop_last()) + s.last().quantity
    }
}

/// Quantities are non-negative and their total fits in an `i64`.
pub open spec fn nonneg_fit(s: Seq<RecipeLeaf>) -> bool {
    &&& forall|i: int| 0 <= i < s.len() ==> (#[trigger] s[i]).quantity >= 0
    &&& total_quantity(s) <= i64::MAX
}

pub open spec fn abs(x: int) -> int {
    if x < 0 {
        -x
    } else {
        x
    }
}

/// Sum of the absolute quantities of the leaves of `s`.
pub open spec fn abs_total(s: Seq<RecipeLeaf>) -> int
    decreases s.len(),
{
    if s.len() == 0 {
        0
    } else {
        abs_total(s.drop_last()) + abs(s.last().quantity as int)
    }
}

/// The absolute quantities of `s` sum to at most `i64::MAX`, so that every
/// sum of some of its quantities fits in an `i64`.
pub open spec fn quantities_fit(s: Seq<RecipeLeaf>) -> bool {
    abs_total(s) <= i64::MAX
}

/// Index of the aggregate entry for `(kind, id)`.
pub open spec fn entry_index(acc: Seq<AggregateLeaf>, kind: LeafKind, id: u32) -> Option<int>
    decreases acc.len(),
{
    if acc.len() == 0 {
        None
    } else {
        match entry_index(acc.drop_last(), kind, id) {
            Some(i) => Some(i),
            None => if acc.last().kind == kind && acc.last().id == id {
                Some(acc.len() - 1)
            } else {
                None
            },
        }
    }
}

/// `acc` after counting leaf `l`: its quantity is added to the entry with
/// the same key, or a new entry (named after `l`) is appended.
pub open spec fn add_leaf(acc: Seq<AggregateLeaf>, l: RecipeLeaf) -> Seq<AggregateLeaf> {
    match entry_index(acc, l.kind, l.id) {
        Some(i) => acc.update(
            i,
            AggregateLeaf { needed: (acc[i].needed + l.quantity) as i64, ..acc[i] },
        ),
        None => acc.push(AggregateLeaf { kind: l.kind, id: l.id, name: l.name, needed: l.quantity }),
    }
}

/// One entry per distinct `(kind, id)` of `s`, in first-seen order, named
/// after its first leaf, with the summed quantity.
pub open spec fn aggregate(s: Seq<RecipeLeaf>) -> Seq<AggregateLeaf>
    decreases s.len(),
{
    if s.len() == 0 {
        Seq::empty()
    } else {
        add_leaf(aggregate(s.drop_last()), s.last())
    }
}

// ---------------------------------------------------------------------------
// Lemmas on the model
// ---------------------------------------------------------------------------

proof fn lemma_total_nonneg(s: Seq<RecipeLeaf>)
    requires
        forall|i: int| 0 <= i < s.len() ==> (#[trigger] s[i]).quantity >= 0,
    ensures
        total_quantity(s) >= 0,
    decreases s.len(),
{
    if s.len() > 0 {
        lemma_total_nonneg(s.drop_last());
    }
}

proof fn lemma_need_bounds(s: Seq<RecipeLeaf>, kind: LeafKind, id: u32)
    requires
        forall|i: int| 0 <= i < s.len() ==> (#[trigger] s[i]).quantity >= 0,
    ensures
        0 <= need(s, kind, id) <= total_quantity(s),
    decreases s.len(),
{
    if s.len() > 0 {
        lemma_need_bounds(s.drop_last(), kind, id);
    }
}

proof fn lemma_prefix_fits(s: Seq<RecipeLeaf>, n: int)
    requires
        nonneg_fit(s),
        0 <= n <= s.len(),
    ensures
        nonneg_fit(s.take(n)),
        total_quantity(s.take(n)) <= total_quantity(s),
    decreases s.len() - n,
{
    if n < s.len() {
        lemma_prefix_fits(s, n + 1);
        assert(s.take(n + 1).drop_last() == s.take(n));
        assert(s.take(n + 1)[n] == s[n]);
    } else {
        assert(s.take(n) == s);
    }
}

proof fn lemma_abs_prefix(s: Seq<RecipeLeaf>, n: int)
    requires
        0 <= n <= s.len(),
    ensures
        0 <= abs_total(s.take(n)) <= abs_total(s),
    decreases s.len() - n,
{
    if n < s.len() {
        lemma_abs_prefix(s, n + 1);
        assert(s.take(n + 1).drop_last() == s.take(n));
        assert(s.take(n + 1)[n] == s[n]);
        lemma_abs_nonneg_total(s.take(n));
    } else {
        assert(s.take(n) == s);
        lemma_abs_nonneg_total(s);
    }
}

proof fn lemma_abs_nonneg_total(s: Seq<RecipeLeaf>)
    ensures
        abs_total(s) >= 0,
    decreases s.len(),
{
    if s.len() > 0 {
        lemma_abs_nonneg_total(s.drop_last());
    }
}

proof fn lemma_need_abs(s: Seq<RecipeLeaf>, kind: LeafKind, id: u32)
    ensures
        -abs_total(s) <= need(s, kind, id) <= abs_total(s),
        -abs_total(s) <= total_quantity(s) <= abs_total(s),
    decreases s.len(),
{
    if s.len() > 0 {
        lemma_need_abs(s.drop_last(), kind, id);
    }
}

proof fn lemma_abs_of_nonneg(s: Seq<RecipeLeaf>)
    requires
        all_nonneg(s),
    ensures
        abs_total(s) == total_quantity(s),
    decreases s.len(),
{
    if s.len() > 0 {
        let d = s.drop_last();
        assert forall|i: int| 0 <= i < d.len() implies (#[trigger] d[i]).quantity >= 0 by {
            assert(d[i] == s[i]);
        };
        lemma_abs_of_nonneg(d);
        assert(s[s.len() - 1] == s.last());
    }
}

proof fn lemma_entry_index(acc: Seq<AggregateLeaf>, kind: LeafKind, id: u32)
    ensures
        match entry_index(acc, kind, id) {
            Some(i) => 0 <= i < acc.len() && acc[i].kind == kind && acc[i].id == id,
            None => forall|j: int|
                0 <= j < acc.len() ==> !((#[trigger] acc[j]).kind == kind && acc[j].id == id),
        },
    decreases acc.len(),
{
    if acc.len() > 0 {
        let d = acc.drop_last();
        lemma_entry_index(d, kind, id);
        if entry_index(d, kind, id) is None {
            assert forall|j: int| 0 <= j < d.len() implies !((#[trigger] acc[j]).kind == kind
                && acc[j].id == id) by {
                assert(acc[j] == d[j]);
            };
        }
    }
}

/// The aggregate of a recipe's leaves holds one entry per distinct
/// (kind, id), with the total quantity of that key over all the leaves; a
/// key with no entry is not needed at all.
pub proof fn lemma_aggregate(s: Seq<RecipeLeaf>)
    requires
        quantities_fit(s),
    ensures
        forall|i: int|
            0 <= i < aggregate(s).len() ==> (#[trigger] aggregate(s)[i]).needed == need(
                s,
                aggregate(s)[i].kind,
                aggregate(s)[i].id,
            ),
        forall|i: int, j: int|
            0 <= i < j < aggregate(s).len() ==> !((#[trigger] aggregate(s)[i]).kind == (
            #[trigger] aggregate(s)[j]).kind && aggregate(s)[i].id == aggregate(s)[j].id),
        forall|kind: LeafKind, id: u32|
            entry_index(aggregate(s), kind, id) is None ==> #[trigger] need(s, kind, id) == 0,
    decreases s.len(),
{
    if s.len() > 0 {
        let p = s.drop_last();
        let l = s.last();
        lemma_abs_nonneg_total(p);
        assert(s[s.len() - 1] == l);
        lemma_aggregate(p);
        let acc = aggregate(p);
        let r = aggregate(s);
        assert(r == add_leaf(acc, l));
        lemma_entry_index(acc, l.kind, l.id);
        lemma_need_abs(s, l.kind, l.id);
        assert(need(s, l.kind, l.id) == need(p, l.kind, l.id) + l.quantity);
        match entry_index(acc, l.kind, l.id) {
            Some(i) => {
                assert(r[i].needed == need(s, l.kind, l.id));
                assert forall|m: int| 0 <= m < r.len() implies (#[trigger] r[m]).needed == need(
                    s,
                    r[m].kind,
                    r[m].id,
                ) by {
                    if m != i {
                        assert(r[m] == acc[m]);
                        assert(!same_key(l, acc[m].kind, acc[m].id));
                    }
                };
                assert forall|kind: LeafKind, id: u32|
                    entry_index(r, kind, id) is None implies #[trigger] need(s, kind, id) == 0 by {
                    lemma_entry_index(r, kind, id);
                    lemma_entry_index(acc, kind, id);
                    if let Some(m) = entry_index(acc, kind, id) {
                        if m != i {
                            assert(r[m] == acc[m]);
                        } else {
                            assert(r[i].kind == acc[i].kind && r[i].id == acc[i].id);
                        }
                        assert(false);
                    }
                    assert(need(p, kind, id) == 0);
                    if same_key(l, kind, id) {
                        assert(r[i].kind == kind && r[i].id == id);
                        assert(false);
                    }
                };
            },
            None => {
                assert forall|m: int| 0 <= m < r.len() implies (#[trigger] r[m]).needed == need(
                    s,
                    r[m].kind,
                    r[m].id,
                ) by {
                    if m < acc.len() {
                        assert(r[m] == acc[m]);
                        assert(!same_key(l, acc[m].kind, acc[m].id));
                    }
                };
                assert forall|kind: LeafKind, id: u32|
                    entry_index(r, kind, id) is None implies #[trigger] need(s, kind, id) == 0 by {
                    lemma_entry_index(r, kind, id);
                    lemma_entry_index(acc, kind, id);
                    if let Some(m) = entry_index(acc, kind, id) {
                        assert(r[m] == acc[m]);
                        assert(false);
                    }
                    assert(need(p, kind, id) == 0);
                    if same_key(l, kind, id) {
                        assert(r[acc.len() as int].kind == kind && r[acc.len() as int].id == id);
                        assert(false);
                    }
                };
            },
        }
    }
}

// ---------------------------------------------------------------------------
// Catalog lookups
// ---------------------------------------------------------------------------

impl RecipeCatalog {
    /// An empty catalog holding `legendaries`.
    pub fn new(legendaries: Vec<LegendaryRecipe>) -> (r: Self)
        ensures
            r.components@ == Seq::<(String, Component)>::empty(),
            r.legendaries == legendaries,
    {
        RecipeCatalog { components: Vec::new(), legendaries }
    }

    /// Position of the component registered under `key`.
    pub fn component_position(&self, key: &String) -> (r: Option<usize>)
        ensures
            r matches Some(i) ==> i < self.components.len() && component_index(self.components@, key@)
                == Some(i as int),
            r is None ==> component_index(self.components@, key@) is None,
    {
        let mut i: usize = 0;
        while i < self.components.len()
            invariant
                i <= self.components.len(),
                component_index(self.components@.take(i as int), key@) is None,
            decreases self.components.len() - i,
        {
            assert(self.components@.take(i + 1).drop_last() == self.components@.take(i as int));
            if self.components[i].0 == *key {
                proof {
                    lemma_component_index_prefix(self.components@, key@, i + 1);
                }
                return Some(i);
            }
            i = i + 1;
        }
        assert(self.components@.take(i as int) == self.components@);
        None
    }

    /// Register `component` under `key`, replacing the component already
    /// registered under that key (as `HashMap::insert` does).
    pub fn insert_component(&mut self, key: String, component: Component)
        ensures
            final(self).legendaries == old(self).legendaries,
            match component_index(old(self).components@, key@) {
                Some(i) => final(self).components@ == old(self).components@.update(i, (key, component)),
                None => final(self).components@ == old(self).components@.push((key, component)),
            },
    {
        match self.component_position(&key) {
            Some(i) => {
                self.components.set(i, (key, component));
            },
            None => {
                self.components.push((key, component));
            },
        }
    }
}

proof fn lemma_component_index_prefix(comps: Seq<(String, Component)>, key: Seq<char>, n: int)
    requires
        0 < n <= comps.len(),
        component_index(comps.take(n - 1), key) is None,
        comps[n - 1].0@ == key,
    ensures
        component_index(comps, key) == Some(n - 1),
    decreases comps.len() - n,
{
    assert(comps.take(n).drop_last() == comps.take(n - 1));
    if n < comps.len() {
        lemma_component_index_extend(comps, key, n);
        assert(comps.take(comps.len() as int) == comps);
    } else {
        assert(comps.take(n) == comps);
    }
}

proof fn lemma_component_index_extend(comps: Seq<(String, Component)>, key: Seq<char>, n: int)
    requires
        0 < n <= comps.len(),
        component_index(comps.take(n), key) is Some,
    ensures
        component_index(comps, key) == component_index(comps.take(n), key),
    decreases comps.len() - n,
{
    if n < comps.len() {
        assert(comps.take(n + 1).drop_last() == comps.take(n));
        lemma_component_index_extend(comps, key, n + 1);
    } else {
        assert(comps.take(n) == comps);
    }
}


// ---------------------------------------------------------------------------
// Walking a recipe
// ---------------------------------------------------------------------------

pub open spec fn derefs<'a>(v: Seq<&'a RecipeLeaf>) -> Seq<RecipeLeaf> {
    v.map_values(|r: &RecipeLeaf| *r)
}

/// The components `recipe` references, resolved in `catalog`, in order.
fn found_refs<'a>(catalog: &'a RecipeCatalog, recipe: &LegendaryRecipe) -> (r: Vec<&'a Component>)
    ensures
        r@.map_values(|c: &Component| *c) == found_components(
            catalog.components@,
            recipe.components@,
        ),
{
    let mut out: Vec<&'a Component> = Vec::new();
    let mut k: usize = 0;
    while k < recipe.components.len()
        invariant
            k <= recipe.components.len(),
            out@.map_values(|c: &Component| *c) == found_components(
                catalog.components@,
                recipe.components@.take(k as int),
            ),
        decreases recipe.components.len() - k,
    {
        assert(recipe.components@.take(k + 1).drop_last() == recipe.components@.take(k as int));
        assert(recipe.components@.take(k + 1).last() == recipe.components@[k as int]);
        match catalog.component_position(&recipe.components[k]) {
            Some(i) => {
                out.push(&catalog.components[i].1);
                assert(out@.map_values(|c: &Component| *c) == out@.drop_last().map_values(
                    |c: &Component| *c,
                ).push(catalog.components@[i as int].1));
            },
            None => {},
        }
        k = k + 1;
    }
    assert(recipe.components@.take(recipe.components.len() as int) == recipe.components@);
    out
}

/// Every leaf occurrence of `recipe`, in walk order.
fn walk_refs<'a>(catalog: &'a RecipeCatalog, recipe: &'a LegendaryRecipe) -> (r: Vec<&'a RecipeLeaf>)
    ensures
        derefs(r@) == walk(*catalog, *recipe),
{
    let comps = found_refs(catalog, recipe);
    let ghost cs = comps@.map_values(|c: &Component| *c);
    let mut out: Vec<&'a RecipeLeaf> = Vec::new();
    let mut k: usize = 0;
    while k < comps.len()
        invariant
            k <= comps.len(),
            cs == comps@.map_values(|c: &Component| *c),
            derefs(out@) == component_leaves(cs.take(k as int)),
        decreases comps.len() - k,
    {
        let c = comps[k];
        let mut j: usize = 0;
        while j < c.leaves.len()
            invariant
                j <= c.leaves.len(),
                k < comps.len(),
                cs == comps@.map_values(|c: &Component| *c),
                *c == cs[k as int],
                derefs(out@) == component_leaves(cs.take(k as int)) + c.leaves@.take(j as int),
            decreases c.leaves.len() - j,
        {
            let ghost before = out@;
            out.push(&c.leaves[j]);
            assert(derefs(out@) =~= derefs(before).push(c.leaves@[j as int]));
            assert(c.leaves@.take(j + 1) == c.leaves@.take(j as int).push(c.leaves@[j as int]));
            j = j + 1;
        }
        assert(c.leaves@.take(j as int) == c.leaves@);
        assert(cs.take(k + 1).drop_last() == cs.take(k as int));
        assert(cs.take(k + 1).last() == cs[k as int]);
        k = k + 1;
    }
    assert(cs.take(comps.len() as int) == cs);
    let ghost head = derefs(out@);
    let mut j: usize = 0;
    while j < recipe.leaves.len()
        invariant
            j <= recipe.leaves.len(),
            derefs(out@) == head + recipe.leaves@.take(j as int),
        decreases recipe.leaves.len() - j,
    {
        let ghost before = out@;
        out.push(&recipe.leaves[j]);
        assert(derefs(out@) =~= derefs(before).push(recipe.leaves@[j as int]));
        assert(recipe.leaves@.take(j + 1) == recipe.leaves@.take(j as int).push(
            recipe.leaves@[j as int],
        ));
        j = j + 1;
    }
    assert(recipe.leaves@.take(j as int) == recipe.leaves@);
    out
}

/// Whether the absolute quantities of `recipe` (its components' leaves and
/// its own) sum to at most `i64::MAX`: the condition under which its needs
/// are summed without overflow.
pub fn recipe_fits(catalog: &RecipeCatalog, recipe: &LegendaryRecipe) -> (r: bool)
    ensures
        r == quantities_fit(walk(*catalog, *recipe)),
{
    let leaves = walk_refs(catalog, recipe);
    let ghost s = walk(*catalog, *recipe);
    let mut total: i64 = 0;
    let mut i: usize = 0;
    while i < leaves.len()
        invariant
            i <= leaves.len(),
            s == walk(*catalog, *recipe),
            s == derefs(leaves@),
            s.len() == leaves.len(),
            total == abs_total(s.take(i as int)),
            0 <= total,
        decreases leaves.len() - i,
    {
        let q = leaves[i].quantity;
        assert(s[i as int] == *leaves@[i as int]);
        assert(s.take(i + 1).drop_last() == s.take(i as int));
        assert(s.take(i + 1).last() == s[i as int]);
        assert(s[i as int].quantity == q);
        if q == i64::MIN || total > i64::MAX - (if q < 0 { -q } else { q }) {
            proof {
                lemma_abs_prefix(s, i + 1);
            }
            assert(!quantities_fit(walk(*catalog, *recipe)));
            return false;
        }
        total = total + if q < 0 {
            -q
        } else {
            q
        };
        i = i + 1;
    }
    assert(s.take(i as int) == s);
    true
}

/// `acc` after counting leaf `l` (see `add_leaf`).
fn count_leaf(acc: &mut Vec<AggregateLeaf>, l: &RecipeLeaf, Ghost(seen): Ghost<Seq<RecipeLeaf>>)
    requires
        old(acc)@ == aggregate(seen),
        quantities_fit(seen.push(*l)),
    ensures
        final(acc)@ == add_leaf(old(acc)@, *l),
{
    let ghost s = seen.push(*l);
    proof {
        assert(s.drop_last() == seen);
        assert(s.last() == *l);
        lemma_abs_prefix(s, seen.len() as int);
        assert(s.take(seen.len() as int) == seen);
        lemma_aggregate(seen);
        lemma_need_abs(s, l.kind, l.id);
    }
    let mut i: usize = 0;
    while i < acc.len()
        invariant
            i <= acc.len(),
            acc@ == aggregate(seen),
            acc@ == old(acc)@,
            s == seen.push(*l),
            s.drop_last() == seen,
            s.last() == *l,
            quantities_fit(seen),
            -i64::MAX <= need(s, l.kind, l.id) <= i64::MAX,
            forall|m: int|
                0 <= m < aggregate(seen).len() ==> (#[trigger] aggregate(seen)[m]).needed == need(
                    seen,
                    aggregate(seen)[m].kind,
                    aggregate(seen)[m].id,
                ),
            entry_index(acc@.take(i as int), l.kind, l.id) is None,
        decreases acc.len() - i,
    {
        assert(acc@.take(i + 1).drop_last() == acc@.take(i as int));
        if acc[i].kind == l.kind && acc[i].id == l.id {
            proof {
                lemma_entry_index_found(acc@, l.kind, l.id, i as int);
                assert(acc@[i as int].needed == need(seen, l.kind, l.id));
            }
            let e = AggregateLeaf {
                kind: acc[i].kind,
                id: acc[i].id,
                name: acc[i].name.clone(),
                needed: acc[i].needed + l.quantity,
            };
            assert(e.name == acc@[i as int].name);
            assert(e == AggregateLeaf {
                needed: (acc@[i as int].needed + l.quantity) as i64,
                ..acc@[i as int]
            });
            acc.set(i, e);
            return;
        }
        i = i + 1;
    }
    assert(acc@.take(i as int) == acc@);
    acc.push(AggregateLeaf { kind: l.kind, id: l.id, name: l.name.clone(), needed: l.quantity });
}

proof fn lemma_entry_index_found(acc: Seq<AggregateLeaf>, kind: LeafKind, id: u32, n: int)
    requires
        0 <= n < acc.len(),
        entry_index(acc.take(n), kind, id) is None,
        acc[n].kind == kind && acc[n].id == id,
    ensures
        entry_index(acc, kind, id) == Some(n),
    decreases acc.len() - n,
{
    assert(acc.take(n + 1).drop_last() == acc.take(n));
    if n + 1 < acc.len() {
        lemma_entry_index_keep(acc, kind, id, n + 1);
    } else {
        assert(acc.take(n + 1) == acc);
    }
}

proof fn lemma_entry_index_keep(acc: Seq<AggregateLeaf>, kind: LeafKind, id: u32, n: int)
    requires
        0 < n <= acc.len(),
        entry_index(acc.take(n), kind, id) is Some,
    ensures
        entry_index(acc, kind, id) == entry_index(acc.take(n), kind, id),
    decreases acc.len() - n,
{
    if n < acc.len() {
        assert(acc.take(n + 1).drop_last() == acc.take(n));
        lemma_entry_index_keep(acc, kind, id, n + 1);
    } else {
        assert(acc.take(n) == acc);
    }
}

/// Aggregate the total quantity needed across a recipe and its components:
/// one entry per distinct `(kind, id)`, in first-seen order. Leaves shared
/// by several components are summed, never deduplicated.
pub fn aggregate_needs(catalog: &RecipeCatalog, recipe: &LegendaryRecipe) -> (r: Vec<AggregateLeaf>)
    requires
        quantities_fit(walk(*catalog, *recipe)),
    ensures
        r@ == aggregate(walk(*catalog, *recipe)),
{
    let leaves = walk_refs(catalog, recipe);
    let ghost w = walk(*catalog, *recipe);
    let mut out: Vec<AggregateLeaf> = Vec::new();
    let mut j: usize = 0;
    while j < leaves.len()
        invariant
            j <= leaves.len(),
            derefs(leaves@) == w,
            quantities_fit(w),
            out@ == aggregate(w.take(j as int)),
        decreases leaves.len() - j,
    {
        proof {
            assert(w.take(j + 1) == w.take(j as int).push(w[j as int]));
            assert(w.take(j + 1).drop_last() == w.take(j as int));
            lemma_abs_prefix(w, j + 1);
        }
        count_leaf(&mut out, leaves[j], Ghost(w.take(j as int)));
        j = j + 1;
    }
    assert(w.take(j as int) == w);
    out
}

/// The quantity needed of `(kind, id)` according to `needs`.
pub fn needed_of(needs: &Vec<AggregateLeaf>, kind: LeafKind, id: u32) -> (r: Option<i64>)
    ensures
        match entry_index(needs@, kind, id) {
            Some(i) => r == Some(needs@[i].needed),
            None => r is None,
        },
{
    let mut i: usize = 0;
    while i < needs.len()
        invariant
            i <= needs.len(),
            entry_index(needs@.take(i as int), kind, id) is None,
        decreases needs.len() - i,
    {
        assert(needs@.take(i + 1).drop_last() == needs@.take(i as int));
        if needs[i].kind == kind && needs[i].id == id {
            proof {
                lemma_entry_index_found(needs@, kind, id, i as int);
            }
            return Some(needs[i].needed);
        }
        i = i + 1;
    }
    assert(needs@.take(i as int) == needs@);
    None
}


// ---------------------------------------------------------------------------
// Grouping model
// ---------------------------------------------------------------------------

/// A group: its name and its leaf occurrences, in order.
pub type Group = (Seq<char>, Seq<RecipeLeaf>);

/// The group label of a direct leaf: its `group`, or "Specific".
pub open spec fn label_of(l: RecipeLeaf) -> Seq<char> {
    match l.group {
        Some(g) => g@,
        None => "Specific"@,
    }
}

/// Index of the first group named `name`.
pub open spec fn group_index(gs: Seq<Group>, name: Seq<char>) -> Option<int>
    decreases gs.len(),
{
    if gs.len() == 0 {
        None
    } else {
        match group_index(gs.drop_last(), name) {
            Some(i) => Some(i),
            None => if gs.last().0 == name {
                Some(gs.len() - 1)
            } else {
                None
            },
        }
    }
}

/// `gs` after bucketing direct leaf `l`: appended to the first group with
/// its label, or a new group for that label.
pub open spec fn add_direct(gs: Seq<Group>, l: RecipeLeaf) -> Seq<Group> {
    match group_index(gs, label_of(l)) {
        Some(i) => gs.update(i, (gs[i].0, gs[i].1.push(l))),
        None => gs.push((label_of(l), seq![l])),
    }
}

/// Direct leaves bucketed by label, buckets in first-seen order.
pub open spec fn direct_groups(ls: Seq<RecipeLeaf>) -> Seq<Group>
    decreases ls.len(),
{
    if ls.len() == 0 {
        Seq::empty()
    } else {
        add_direct(direct_groups(ls.drop_last()), ls.last())
    }
}

/// One group per component, named after the component.
pub open spec fn component_groups(cs: Seq<Component>) -> Seq<Group> {
    cs.map_values(|c: Component| (c.name@, c.leaves@))
}

/// `gs` with its "Specific" group, where it has one, moved to the end.
pub open spec fn trailing_specific(gs: Seq<Group>) -> Seq<Group> {
    match group_index(gs, "Specific"@) {
        Some(i) => gs.remove(i).push(gs[i]),
        None => gs,
    }
}

/// The progress groups of `recipe`: components in reference order, then
/// the labelled direct-leaf groups in first-seen order of their label, then
/// the "Specific" group of the unlabelled direct leaves.
pub open spec fn groups_of(catalog: RecipeCatalog, recipe: LegendaryRecipe) -> Seq<Group> {
    component_groups(found_components(catalog.components@, recipe.components@))
        + trailing_specific(direct_groups(recipe.leaves@))
}

/// The leaf occurrences of `gs`, group after group.
pub open spec fn flat(gs: Seq<Group>) -> Seq<RecipeLeaf>
    decreases gs.len(),
{
    if gs.len() == 0 {
        Seq::empty()
    } else {
        flat(gs.drop_last()) + gs.last().1
    }
}

/// What the account owns of `(kind, id)`.
pub open spec fn owned_of(
    items: Map<u32, i64>,
    currencies: Map<u32, i64>,
    kind: LeafKind,
    id: u32,
) -> int {
    let m = if kind == LeafKind::Item {
        items
    } else {
        currencies
    };
    if m.dom().contains(id) {
        m[id] as int
    } else {
        0
    }
}

/// Sum over the leaves of `s` of the absolute owned count of their key.
pub open spec fn abs_owned(s: Seq<RecipeLeaf>, items: Map<u32, i64>, currencies: Map<u32, i64>) -> int
    decreases s.len(),
{
    if s.len() == 0 {
        0
    } else {
        abs_owned(s.drop_last(), items, currencies) + abs(
            owned_of(items, currencies, s.last().kind, s.last().id),
        )
    }
}

/// The absolute quantities of `s` and the absolute owned counts of their
/// keys sum to at most `i64::MAX`, so that every amount the progress of
/// `s` adds up fits in an `i64`.
pub open spec fn amounts_fit(s: Seq<RecipeLeaf>, items: Map<u32, i64>, currencies: Map<u32, i64>) -> bool {
    abs_total(s) + abs_owned(s, items, currencies) <= i64::MAX
}

/// Every owned count is non-negative.
pub open spec fn owned_fits(items: Map<u32, i64>, currencies: Map<u32, i64>) -> bool {
    &&& forall|id: u32| items.dom().contains(id) ==> items[id] >= 0
    &&& forall|id: u32| currencies.dom().contains(id) ==> currencies[id] >= 0
}

pub open spec fn min(a: int, b: int) -> int {
    if a <= b {
        a
    } else {
        b
    }
}

pub open spec fn max(a: int, b: int) -> int {
    if a >= b {
        a
    } else {
        b
    }
}

/// The owned pool left for `(kind, id)` once the first `n` leaves of `s`
/// took their shares from `start`: each leaf of that key takes the pool
/// capped at its quantity.
pub open spec fn pool_after(s: Seq<RecipeLeaf>, n: int, start: int, kind: LeafKind, id: u32) -> int
    decreases n,
{
    if n <= 0 {
        start
    } else {
        let prev = pool_after(s, n - 1, start, kind, id);
        if same_key(s[n - 1], kind, id) {
            prev - min(prev, s[n - 1].quantity as int)
        } else {
            prev
        }
    }
}

/// Greedy allocation: occurrence `j` of `s` is credited with the owned pool
/// of its key as the earlier occurrences left it, capped at its own
/// quantity.
pub open spec fn allotted(
    s: Seq<RecipeLeaf>,
    j: int,
    items: Map<u32, i64>,
    currencies: Map<u32, i64>,
) -> int {
    let l = s[j];
    min(l.quantity as int, pool_after(s, j, owned_of(items, currencies, l.kind, l.id), l.kind, l.id))
}

/// The progress of one leaf occurrence credited with `owned`.
pub open spec fn leaf_progress(l: RecipeLeaf, owned: int) -> LeafProgress {
    LeafProgress {
        kind: l.kind,
        id: l.id,
        name: l.name,
        needed: l.quantity,
        owned: owned as i64,
        missing: (l.quantity - owned) as i64,
        complete: l.quantity - owned == 0,
    }
}

/// Where group `i` starts among the occurrences of `gs`.
pub open spec fn offset(gs: Seq<Group>, i: int) -> int {
    flat(gs.take(i)).len() as int
}

/// The progress of group `i`'s occurrences, in group order (before sorting).
pub open spec fn raw_progress(
    gs: Seq<Group>,
    i: int,
    items: Map<u32, i64>,
    currencies: Map<u32, i64>,
) -> Seq<LeafProgress> {
    Seq::new(
        gs[i].1.len(),
        |p: int| leaf_progress(gs[i].1[p], allotted(flat(gs), offset(gs, i) + p, items, currencies)),
    )
}

/// The sort key that orders leaves by missing quantity, largest first.
pub open spec fn missing_desc(ps: Seq<LeafProgress>) -> Seq<i64> {
    ps.map_values(|p: LeafProgress| (-p.missing) as i64)
}

pub open spec fn sum_needed(ps: Seq<LeafProgress>) -> int
    decreases ps.len(),
{
    if ps.len() == 0 {
        0
    } else {
        sum_needed(ps.drop_last()) + ps.last().needed
    }
}

pub open spec fn sum_owned(ps: Seq<LeafProgress>) -> int
    decreases ps.len(),
{
    if ps.len() == 0 {
        0
    } else {
        sum_owned(ps.drop_last()) + ps.last().owned
    }
}

pub open spec fn count_complete(ps: Seq<LeafProgress>) -> int
    decreases ps.len(),
{
    if ps.len() == 0 {
        0
    } else {
        count_complete(ps.drop_last()) + if ps.last().complete {
            1int
        } else {
            0
        }
    }
}

/// Header total needed: the sum over the aggregate.
pub open spec fn header_needed(agg: Seq<AggregateLeaf>) -> int
    decreases agg.len(),
{
    if agg.len() == 0 {
        0
    } else {
        header_needed(agg.drop_last()) + agg.last().needed
    }
}

/// Header total owned: per distinct leaf, what is owned capped at what is needed.
pub open spec fn header_owned(
    agg: Seq<AggregateLeaf>,
    items: Map<u32, i64>,
    currencies: Map<u32, i64>,
) -> int
    decreases agg.len(),
{
    if agg.len() == 0 {
        0
    } else {
        header_owned(agg.drop_last(), items, currencies) + min(
            owned_of(items, currencies, agg.last().kind, agg.last().id),
            agg.last().needed as int,
        )
    }
}

/// Header completed leaves: distinct leaves owned in full.
pub open spec fn header_complete(
    agg: Seq<AggregateLeaf>,
    items: Map<u32, i64>,
    currencies: Map<u32, i64>,
) -> int
    decreases agg.len(),
{
    if agg.len() == 0 {
        0
    } else {
        header_complete(agg.drop_last(), items, currencies) + if owned_of(
            items,
            currencies,
            agg.last().kind,
            agg.last().id,
        ) >= agg.last().needed {
            1int
        } else {
            0
        }
    }
}


// ---------------------------------------------------------------------------
// Building the groups
// ---------------------------------------------------------------------------

fn leaf_refs<'a>(v: &'a Vec<RecipeLeaf>) -> (r: Vec<&'a RecipeLeaf>)
    ensures
        derefs(r@) == v@,
{
    let mut out: Vec<&'a RecipeLeaf> = Vec::new();
    let mut j: usize = 0;
    while j < v.len()
        invariant
            j <= v.len(),
            derefs(out@) == v@.take(j as int),
        decreases v.len() - j,
    {
        let ghost before = out@;
        out.push(&v[j]);
        assert(derefs(out@) =~= derefs(before).push(v@[j as int]));
        assert(v@.take(j + 1) == v@.take(j as int).push(v@[j as int]));
        j = j + 1;
    }
    assert(v@.take(j as int) == v@);
    out
}

/// The group label of a direct leaf.
fn leaf_label(l: &RecipeLeaf) -> (r: String)
    ensures
        r@ == label_of(*l),
{
    match &l.group {
        Some(g) => g.clone(),
        None => owned("Specific"),
    }
}

pub open spec fn plan_matches<'a>(
    names: Seq<String>,
    members: Seq<Vec<&'a RecipeLeaf>>,
    gs: Seq<Group>,
    start: int,
) -> bool {
    &&& names.len() == members.len() == start + gs.len()
    &&& forall|i: int|
        start <= i < start + gs.len() ==> (#[trigger] names[i])@ == gs[i - start].0 && derefs(
            members[i]@,
        ) == gs[i - start].1
}

proof fn lemma_group_index_none(gs: Seq<Group>, name: Seq<char>)
    requires
        forall|d: int| 0 <= d < gs.len() ==> (#[trigger] gs[d]).0 != name,
    ensures
        group_index(gs, name) is None,
    decreases gs.len(),
{
    if gs.len() > 0 {
        let d = gs.drop_last();
        assert forall|k: int| 0 <= k < d.len() implies (#[trigger] d[k]).0 != name by {
            assert(d[k] == gs[k]);
        };
        lemma_group_index_none(d, name);
    }
}

proof fn lemma_group_index_first(gs: Seq<Group>, name: Seq<char>, i: int)
    requires
        0 <= i < gs.len(),
        gs[i].0 == name,
        forall|d: int| 0 <= d < i ==> (#[trigger] gs[d]).0 != name,
    ensures
        group_index(gs, name) == Some(i),
    decreases gs.len(),
{
    if i < gs.len() - 1 {
        let d = gs.drop_last();
        assert(d[i] == gs[i]);
        assert forall|k: int| 0 <= k < i implies (#[trigger] d[k]).0 != name by {
            assert(d[k] == gs[k]);
        };
        lemma_group_index_first(d, name, i);
    } else {
        let d = gs.drop_last();
        assert forall|k: int| 0 <= k < d.len() implies (#[trigger] d[k]).0 != name by {
            assert(d[k] == gs[k]);
        };
        lemma_group_index_none(d, name);
    }
}

proof fn lemma_plan_update<'a>(
    names: Seq<String>,
    before: Seq<Vec<&'a RecipeLeaf>>,
    m: Vec<&'a RecipeLeaf>,
    gs: Seq<Group>,
    start: int,
    g: int,
    leaf: RecipeLeaf,
)
    requires
        plan_matches(names, before, gs, start),
        0 <= start <= g < start + gs.len(),
        derefs(m@) == derefs(before[g]@).push(leaf),
    ensures
        plan_matches(
            names,
            before.update(g, m),
            gs.update(g - start, (gs[g - start].0, gs[g - start].1.push(leaf))),
            start,
        ),
{
    let after = before.update(g, m);
    let ngs = gs.update(g - start, (gs[g - start].0, gs[g - start].1.push(leaf)));

    assert forall|i: int| start <= i < start + ngs.len() implies (#[trigger] names[i])@ == ngs[i
        - start].0 && derefs(after[i]@) == ngs[i - start].1 by {
        if i == g {
            assert(names[i]@ == gs[i - start].0);
            assert(derefs(before[i]@) == gs[i - start].1);
            assert(after[i] == m);
            assert(ngs[i - start] == (gs[g - start].0, gs[g - start].1.push(leaf)));
            assert(derefs(after[i]@) =~= ngs[i - start].1);
        } else {
            assert(names[i]@ == gs[i - start].0);
            assert(derefs(before[i]@) == gs[i - start].1);
            assert(after[i] == before[i]);
            assert(ngs[i - start] == gs[i - start]);
            assert(derefs(after[i]@) =~= ngs[i - start].1);
        }
    };
}

/// Bucket direct leaf `leaf` into the plan, whose direct groups start at `start`.
fn plan_direct_leaf<'a>(
    names: &mut Vec<String>,
    members: &mut Vec<Vec<&'a RecipeLeaf>>,
    start: usize,
    leaf: &'a RecipeLeaf,
    Ghost(gs): Ghost<Seq<Group>>,
)
    requires
        plan_matches(old(names)@, old(members)@, gs, start as int),
    ensures
        plan_matches(final(names)@, final(members)@, add_direct(gs, *leaf), start as int),
        final(names)@.take(start as int) == old(names)@.take(start as int),
        final(members)@.take(start as int) == old(members)@.take(start as int),
{
    let label = leaf_label(leaf);
    let mut g = start;
    let mut found = false;
    while g < names.len() && !found
        invariant
            start <= g <= names.len(),
            plan_matches(names@, members@, gs, start as int),
            found ==> g < names.len() && names@[g as int]@ == label@,
            forall|d: int| 0 <= d < g - start ==> (#[trigger] gs[d]).0 != label@,
        decreases names.len() - g + if found {
            0int
        } else {
            1int
        },
    {
        if names[g] == label {
            found = true;
        } else {
            assert(names@[g as int]@ == gs[g - start].0);
            g = g + 1;
        }
    }
    if found {
        proof {
            assert(names@[g as int]@ == gs[g - start].0);
            lemma_group_index_first(gs, label_of(*leaf), g - start);
        }
        let ghost before = members@;
        let mut m = members.remove(g);
        let ghost old_m = m@;
        assert(old_m == before[g as int]@);
        m.push(leaf);
        assert(derefs(m@) =~= derefs(old_m).push(*leaf));
        members.insert(g, m);
        proof {
            assert(members@ =~= before.update(g as int, m));
            lemma_plan_update(names@, before, m, gs, start as int, g as int, *leaf);
            assert(add_direct(gs, *leaf) == gs.update(
                g - start,
                (gs[g - start].0, gs[g - start].1.push(*leaf)),
            ));
            assert(members@.take(start as int) =~= before.take(start as int));
        }
    } else {
        proof {
            lemma_group_index_none(gs, label_of(*leaf));
        }
        let ghost nb = names@;
        let ghost mb = members@;
        names.push(label);
        let mut m: Vec<&'a RecipeLeaf> = Vec::new();
        m.push(leaf);
        members.push(m);
        proof {
            let ngs = gs.push((label_of(*leaf), seq![*leaf]));
            assert(add_direct(gs, *leaf) == ngs);
            assert(derefs(m@) =~= seq![*leaf]);
            assert(names@.take(start as int) =~= nb.take(start as int));
            assert(members@.take(start as int) =~= mb.take(start as int));
            assert forall|i: int| start <= i < start + ngs.len() implies (#[trigger] names@[i])@
                == ngs[i - start].0 && derefs(members@[i]@) == ngs[i - start].1 by {
                if i < start + gs.len() {
                    assert(names@[i] == nb[i]);
                    assert(members@[i] == mb[i]);
                }
            };
        }
    }
}

/// The plan of the component groups: one per resolved component.
fn plan_components<'a>(catalog: &'a RecipeCatalog, recipe: &'a LegendaryRecipe) -> (r: (
    Vec<String>,
    Vec<Vec<&'a RecipeLeaf>>,
))
    ensures
        plan_matches(
            r.0@,
            r.1@,
            component_groups(found_components(catalog.components@, recipe.components@)),
            0,
        ),
{
    let comps = found_refs(catalog, recipe);
    let ghost cs = comps@.map_values(|c: &Component| *c);
    let ghost cg = component_groups(cs);
    let mut names: Vec<String> = Vec::new();
    let mut members: Vec<Vec<&'a RecipeLeaf>> = Vec::new();
    let mut k: usize = 0;
    while k < comps.len()
        invariant
            k <= comps.len(),
            cs == comps@.map_values(|c: &Component| *c),
            cg == component_groups(cs),
            plan_matches(names@, members@, cg.take(k as int), 0),
        decreases comps.len() - k,
    {
        let c = comps[k];
        names.push(c.name.clone());
        members.push(leaf_refs(&c.leaves));
        proof {
            let t = cg.take(k + 1);
            assert forall|d: int| 0 <= d < t.len() implies (#[trigger] names@[d])@ == t[d - 0].0
                && derefs(members@[d]@) == t[d - 0].1 by {
                if d < k {
                    assert(t[d] == cg.take(k as int)[d]);
                }
            };
        }
        k = k + 1;
    }
    assert(cg.take(comps.len() as int) == cg);
    (names, members)
}

/// Position of the first group named `name` among the plan's groups from
/// `start` on.
fn find_group(names: &Vec<String>, start: usize, name: &String, Ghost(gs): Ghost<Seq<Group>>) -> (r:
    Option<usize>)
    requires
        names.len() == start + gs.len(),
        forall|i: int| start <= i < names.len() ==> (#[trigger] names@[i])@ == gs[i - start].0,
    ensures
        match r {
            Some(p) => start <= p < names.len() && group_index(gs, name@) == Some(p - start),
            None => group_index(gs, name@) is None,
        },
{
    let mut q = start;
    while q < names.len()
        invariant
            start <= q <= names.len(),
            names.len() == start + gs.len(),
            forall|i: int| start <= i < names.len() ==> (#[trigger] names@[i])@ == gs[i - start].0,
            forall|d: int| 0 <= d < q - start ==> (#[trigger] gs[d]).0 != name@,
        decreases names.len() - q,
    {
        assert(names@[q as int]@ == gs[q - start].0);
        if names[q] == *name {
            proof {
                lemma_group_index_first(gs, name@, q - start);
            }
            return Some(q);
        }
        q = q + 1;
    }
    proof {
        lemma_group_index_none(gs, name@);
    }
    None
}

/// Move the plan's group at `p` to the end.
fn plan_move_last<'a>(
    names: &mut Vec<String>,
    members: &mut Vec<Vec<&'a RecipeLeaf>>,
    start: usize,
    p: usize,
    Ghost(gs): Ghost<Seq<Group>>,
)
    requires
        plan_matches(old(names)@, old(members)@, gs, start as int),
        start <= p < old(names).len(),
    ensures
        plan_matches(
            final(names)@,
            final(members)@,
            gs.remove(p - start).push(gs[p - start]),
            start as int,
        ),
        final(names)@.take(start as int) == old(names)@.take(start as int),
        final(members)@.take(start as int) == old(members)@.take(start as int),
{
    let ghost nb = names@;
    let ghost mb = members@;
    let n = names.remove(p);
    names.push(n);
    let m = members.remove(p);
    members.push(m);
    proof {
        let k = p - start;
        let ngs = gs.remove(k).push(gs[k]);
        assert(names@ == nb.remove(p as int).push(nb[p as int]));
        assert(members@ == mb.remove(p as int).push(mb[p as int]));
        assert(names@.take(start as int) =~= nb.take(start as int));
        assert(members@.take(start as int) =~= mb.take(start as int));
        assert forall|i: int| start <= i < start + ngs.len() implies (#[trigger] names@[i])@
            == ngs[i - start].0 && derefs(members@[i]@) == ngs[i - start].1 by {
            if i < p {
                assert(names@[i] == nb[i]);
                assert(members@[i] == mb[i]);
                assert(ngs[i - start] == gs[i - start]);
            } else if i < nb.len() - 1 {
                assert(names@[i] == nb[i + 1]);
                assert(members@[i] == mb[i + 1]);
                assert(ngs[i - start] == gs[i + 1 - start]);
            } else {
                assert(names@[i] == nb[p as int]);
                assert(members@[i] == mb[p as int]);
                assert(ngs[i - start] == gs[k]);
            }
        };
    }
}

/// The names and members of the progress groups of `recipe`.
#[verifier::spinoff_prover]
fn plan_groups<'a>(catalog: &'a RecipeCatalog, recipe: &'a LegendaryRecipe) -> (r: (
    Vec<String>,
    Vec<Vec<&'a RecipeLeaf>>,
))
    ensures
        plan_matches(r.0@, r.1@, groups_of(*catalog, *recipe), 0),
{
    let (mut names, mut members) = plan_components(catalog, recipe);
    let ghost cg = component_groups(found_components(catalog.components@, recipe.components@));
    let ghost n0 = names@;
    let ghost m0 = members@;
    let start = names.len();
    let mut j: usize = 0;
    assert(direct_groups(recipe.leaves@.take(0)) == Seq::<Group>::empty());
    while j < recipe.leaves.len()
        invariant
            j <= recipe.leaves.len(),
            start == cg.len() == n0.len() == m0.len(),
            plan_matches(n0, m0, cg, 0),
            names@.take(start as int) == n0,
            members@.take(start as int) == m0,
            plan_matches(names@, members@, direct_groups(recipe.leaves@.take(j as int)), start as int),
        decreases recipe.leaves.len() - j,
    {
        let ghost ls = recipe.leaves@.take(j + 1);
        assert(ls.drop_last() == recipe.leaves@.take(j as int));
        assert(ls.last() == recipe.leaves@[j as int]);
        plan_direct_leaf(&mut names, &mut members, start, &recipe.leaves[j], Ghost(direct_groups(recipe.leaves@.take(j as int))));
        j = j + 1;
    }
    assert(recipe.leaves@.take(recipe.leaves.len() as int) == recipe.leaves@);
    let ghost dg0 = direct_groups(recipe.leaves@);
    let specific = owned("Specific");
    match find_group(&names, start, &specific, Ghost(dg0)) {
        Some(p) => {
            plan_move_last(&mut names, &mut members, start, p, Ghost(dg0));
            assert(trailing_specific(dg0) == dg0.remove(p - start).push(dg0[p - start]));
        },
        None => {
            assert(trailing_specific(dg0) == dg0);
        },
    }
    assert(plan_matches(names@, members@, trailing_specific(dg0), start as int));
    assert(names@.take(start as int) == n0);
    assert(members@.take(start as int) == m0);
    proof {
        let all = groups_of(*catalog, *recipe);
        let dg = trailing_specific(dg0);
        assert forall|d: int| 0 <= d < all.len() implies (#[trigger] names@[d])@ == all[d - 0].0
            && derefs(members@[d]@) == all[d - 0].1 by {
            if d < start {
                assert(names@[d] == n0[d]);
                assert(members@[d] == m0[d]);
            } else {
                assert(all[d] == dg[d - start]);
            }
        };
    }
    (names, members)
}

// ---------------------------------------------------------------------------
// Regrouping keeps every leaf
// ---------------------------------------------------------------------------

/// How many leaves of `s` have key `(kind, id)`.
pub open spec fn occurrences(s: Seq<RecipeLeaf>, kind: LeafKind, id: u32) -> int
    decreases s.len(),
{
    if s.len() == 0 {
        0
    } else {
        occurrences(s.drop_last(), kind, id) + if same_key(s.last(), kind, id) {
            1int
        } else {
            0
        }
    }
}

pub open spec fn all_nonneg(s: Seq<RecipeLeaf>) -> bool {
    forall|i: int| 0 <= i < s.len() ==> (#[trigger] s[i]).quantity >= 0
}

/// How many leaves of `s` have a negative quantity.
pub open spec fn negatives(s: Seq<RecipeLeaf>) -> int
    decreases s.len(),
{
    if s.len() == 0 {
        0
    } else {
        negatives(s.drop_last()) + if s.last().quantity < 0 {
            1int
        } else {
            0
        }
    }
}

proof fn lemma_negatives(s: Seq<RecipeLeaf>)
    ensures
        negatives(s) >= 0,
        all_nonneg(s) <==> negatives(s) == 0,
    decreases s.len(),
{
    if s.len() > 0 {
        let d = s.drop_last();
        lemma_negatives(d);
        if all_nonneg(s) {
            assert forall|i: int| 0 <= i < d.len() implies (#[trigger] d[i]).quantity >= 0 by {
                assert(d[i] == s[i]);
            };
            assert(s[s.len() - 1] == s.last());
        }
        if negatives(s) == 0 {
            assert forall|i: int| 0 <= i < s.len() implies (#[trigger] s[i]).quantity >= 0 by {
                if i < d.len() {
                    assert(d[i] == s[i]);
                }
            };
        }
    }
}

proof fn lemma_single(l: RecipeLeaf)
    ensures
        forall|kind: LeafKind, id: u32| #[trigger] need(seq![l], kind, id) == if same_key(l, kind, id) {
            l.quantity as int
        } else {
            0
        },
        forall|kind: LeafKind, id: u32| #[trigger] occurrences(seq![l], kind, id) == if same_key(l, kind, id) {
            1int
        } else {
            0
        },
        total_quantity(seq![l]) == l.quantity,
        negatives(seq![l]) == if l.quantity < 0 {
            1int
        } else {
            0
        },
        abs_total(seq![l]) == abs(l.quantity as int),
        forall|items: Map<u32, i64>, currencies: Map<u32, i64>| #[trigger] abs_owned(seq![l], items, currencies)
            == abs(owned_of(items, currencies, l.kind, l.id)),
{
    assert(seq![l].drop_last() == Seq::<RecipeLeaf>::empty());
    assert(abs_total(Seq::<RecipeLeaf>::empty()) == 0);
    assert forall|items: Map<u32, i64>, currencies: Map<u32, i64>| #[trigger] abs_owned(seq![l], items, currencies)
        == abs(owned_of(items, currencies, l.kind, l.id)) by {
        assert(abs_owned(Seq::<RecipeLeaf>::empty(), items, currencies) == 0);
    };
    assert(total_quantity(Seq::<RecipeLeaf>::empty()) == 0);
    assert(negatives(Seq::<RecipeLeaf>::empty()) == 0);
    assert forall|kind: LeafKind, id: u32| #[trigger] need(seq![l], kind, id) == if same_key(l, kind, id) {
        l.quantity as int
    } else {
        0
    } by {
        assert(need(Seq::<RecipeLeaf>::empty(), kind, id) == 0);
    };
    assert forall|kind: LeafKind, id: u32| #[trigger] occurrences(seq![l], kind, id) == if same_key(l, kind, id) {
        1int
    } else {
        0
    } by {
        assert(occurrences(Seq::<RecipeLeaf>::empty(), kind, id) == 0);
    };
}

/// `a` and `b` hold the same leaves up to order: the same quantity and
/// number of occurrences per key, the same total, the same signs.
pub open spec fn same_measures(a: Seq<RecipeLeaf>, b: Seq<RecipeLeaf>) -> bool {
    &&& forall|kind: LeafKind, id: u32| #[trigger] need(a, kind, id) == need(b, kind, id)
    &&& forall|kind: LeafKind, id: u32| #[trigger] occurrences(a, kind, id) == occurrences(b, kind, id)
    &&& total_quantity(a) == total_quantity(b)
    &&& negatives(a) == negatives(b)
    &&& abs_total(a) == abs_total(b)
    &&& forall|items: Map<u32, i64>, currencies: Map<u32, i64>|
        #[trigger] abs_owned(a, items, currencies) == abs_owned(b, items, currencies)
}

proof fn lemma_concat_measures(a: Seq<RecipeLeaf>, b: Seq<RecipeLeaf>)
    ensures
        forall|kind: LeafKind, id: u32| #[trigger] need(a + b, kind, id) == need(a, kind, id) + need(b, kind, id),
        forall|kind: LeafKind, id: u32| #[trigger] occurrences(a + b, kind, id) == occurrences(a, kind, id) + occurrences(b, kind, id),
        total_quantity(a + b) == total_quantity(a) + total_quantity(b),
        negatives(a + b) == negatives(a) + negatives(b),
        abs_total(a + b) == abs_total(a) + abs_total(b),
        forall|items: Map<u32, i64>, currencies: Map<u32, i64>| #[trigger] abs_owned(a + b, items, currencies)
            == abs_owned(a, items, currencies) + abs_owned(b, items, currencies),
    decreases b.len(),
{
    if b.len() == 0 {
        assert(a + b == a);
        assert forall|items: Map<u32, i64>, currencies: Map<u32, i64>| #[trigger] abs_owned(a + b, items, currencies)
            == abs_owned(a, items, currencies) + abs_owned(b, items, currencies) by {
            assert(abs_owned(b, items, currencies) == 0);
        };
    } else {
        let bd = b.drop_last();
        lemma_concat_measures(a, bd);
        assert((a + b).drop_last() == a + bd);
        assert((a + b).last() == b.last());
        assert forall|items: Map<u32, i64>, currencies: Map<u32, i64>| #[trigger] abs_owned(a + b, items, currencies)
            == abs_owned(a, items, currencies) + abs_owned(b, items, currencies) by {
            assert(abs_owned(a + bd, items, currencies) == abs_owned(a, items, currencies) + abs_owned(bd, items, currencies));
        };
        assert forall|kind: LeafKind, id: u32| #[trigger] need(a + b, kind, id) == need(a, kind, id)
            + need(b, kind, id) by {
            assert(need(a + bd, kind, id) == need(a, kind, id) + need(bd, kind, id));
        };
        assert forall|kind: LeafKind, id: u32| #[trigger] occurrences(a + b, kind, id)
            == occurrences(a, kind, id) + occurrences(b, kind, id) by {
            assert(occurrences(a + bd, kind, id) == occurrences(a, kind, id) + occurrences(
                bd,
                kind,
                id,
            ));
        };
    }
}

proof fn lemma_flat_concat(a: Seq<Group>, b: Seq<Group>)
    ensures
        flat(a + b) == flat(a) + flat(b),
    decreases b.len(),
{
    if b.len() == 0 {
        assert(a + b == a);
        assert(flat(b) == Seq::<RecipeLeaf>::empty());
        assert(flat(a) + flat(b) == flat(a));
    } else {
        lemma_flat_concat(a, b.drop_last());
        assert((a + b).drop_last() == a + b.drop_last());
        assert((a + b).last() == b.last());
        assert(flat(a) + (flat(b.drop_last()) + b.last().1) == (flat(a) + flat(b.drop_last()))
            + b.last().1);
    }
}

proof fn lemma_component_flat(cs: Seq<Component>)
    ensures
        flat(component_groups(cs)) == component_leaves(cs),
    decreases cs.len(),
{
    if cs.len() > 0 {
        lemma_component_flat(cs.drop_last());
        assert(component_groups(cs).drop_last() == component_groups(cs.drop_last()));
    }
}

proof fn lemma_flat_update(gs: Seq<Group>, i: int, x: Seq<RecipeLeaf>)
    requires
        0 <= i < gs.len(),
    ensures
        forall|kind: LeafKind, id: u32| #[trigger] need(flat(gs.update(i, (gs[i].0, x))), kind, id)
            == need(flat(gs), kind, id) - need(gs[i].1, kind, id) + need(x, kind, id),
        forall|kind: LeafKind, id: u32| #[trigger] occurrences(flat(gs.update(i, (gs[i].0, x))), kind, id)
            == occurrences(flat(gs), kind, id) - occurrences(gs[i].1, kind, id) + occurrences(x, kind, id),
        total_quantity(flat(gs.update(i, (gs[i].0, x)))) == total_quantity(flat(gs))
            - total_quantity(gs[i].1) + total_quantity(x),
        negatives(flat(gs.update(i, (gs[i].0, x)))) == negatives(flat(gs)) - negatives(gs[i].1)
            + negatives(x),
        abs_total(flat(gs.update(i, (gs[i].0, x)))) == abs_total(flat(gs)) - abs_total(gs[i].1)
            + abs_total(x),
        forall|items: Map<u32, i64>, currencies: Map<u32, i64>| #[trigger] abs_owned(
            flat(gs.update(i, (gs[i].0, x))),
            items,
            currencies,
        ) == abs_owned(flat(gs), items, currencies) - abs_owned(gs[i].1, items, currencies)
            + abs_owned(x, items, currencies),
    decreases gs.len(),
{
    let u = gs.update(i, (gs[i].0, x));
    let d = gs.drop_last();
    lemma_concat_measures(flat(d), gs.last().1);
    if i == gs.len() - 1 {
        assert(u.drop_last() == d);
        lemma_concat_measures(flat(d), x);
    } else {
        lemma_flat_update(d, i, x);
        assert(u.drop_last() == d.update(i, (d[i].0, x)));
        assert(u.last() == gs.last());
        lemma_concat_measures(flat(d.update(i, (d[i].0, x))), gs.last().1);
    }
}

proof fn lemma_direct_measures(ls: Seq<RecipeLeaf>)
    ensures
        same_measures(flat(direct_groups(ls)), ls),
    decreases ls.len(),
{
    if ls.len() > 0 {
        let p = ls.drop_last();
        let l = ls.last();
        let gs = direct_groups(p);
        assert(direct_groups(ls) == add_direct(gs, l));
        lemma_direct_measures(p);
        lemma_concat_measures(p, seq![l]);
        lemma_single(l);
        assert(p + seq![l] == ls);
        match group_index(gs, label_of(l)) {
            Some(i) => {
                lemma_group_index_bounds(gs, label_of(l));
                lemma_flat_update(gs, i, gs[i].1.push(l));
                lemma_concat_measures(gs[i].1, seq![l]);
                assert(gs[i].1 + seq![l] == gs[i].1.push(l));
            },
            None => {
                assert(gs.push((label_of(l), seq![l])).drop_last() == gs);
                lemma_concat_measures(flat(gs), seq![l]);
            },
        }
    }
}

proof fn lemma_group_index_bounds(gs: Seq<Group>, name: Seq<char>)
    ensures
        group_index(gs, name) matches Some(i) ==> 0 <= i < gs.len() && gs[i].0 == name,
    decreases gs.len(),
{
    if gs.len() > 0 {
        lemma_group_index_bounds(gs.drop_last(), name);
    }
}

/// Moving the "Specific" group to the end keeps every leaf.
proof fn lemma_trailing_measures(gs: Seq<Group>)
    ensures
        same_measures(flat(trailing_specific(gs)), flat(gs)),
{
    lemma_group_index_bounds(gs, "Specific"@);
    if let Some(i) = group_index(gs, "Specific"@) {
        let head = gs.take(i);
        let tail = gs.skip(i + 1);
        let one = seq![gs[i]];
        assert(gs == head + (one + tail));
        assert(gs.remove(i) == head + tail);
        assert(one.drop_last() == Seq::<Group>::empty());
        assert(flat(one) == flat(Seq::<Group>::empty()) + gs[i].1);
        assert(flat(one) == gs[i].1);
        let moved = (head + tail).push(gs[i]);
        assert(moved.drop_last() == head + tail);
        assert(flat(moved) == flat(head + tail) + gs[i].1);
        lemma_flat_concat(head, one + tail);
        lemma_flat_concat(one, tail);
        lemma_flat_concat(head, tail);
        let a = flat(head);
        let b = gs[i].1;
        let c = flat(tail);
        lemma_concat_measures(a, b + c);
        lemma_concat_measures(b, c);
        lemma_concat_measures(a + c, b);
        lemma_concat_measures(a, c);
    }
}

/// The groups of a recipe hold exactly the leaves of its walk.
pub proof fn lemma_groups_keep_leaves(catalog: RecipeCatalog, recipe: LegendaryRecipe)
    ensures
        same_measures(flat(groups_of(catalog, recipe)), walk(catalog, recipe)),
{
    let cs = found_components(catalog.components@, recipe.components@);
    let dg = direct_groups(recipe.leaves@);
    let tg = trailing_specific(dg);
    lemma_flat_concat(component_groups(cs), tg);
    lemma_component_flat(cs);
    lemma_direct_measures(recipe.leaves@);
    lemma_trailing_measures(dg);
    lemma_concat_measures(component_leaves(cs), flat(tg));
    lemma_concat_measures(component_leaves(cs), recipe.leaves@);
}


// ---------------------------------------------------------------------------
// Greedy allocation reconciles with the header
// ---------------------------------------------------------------------------

/// Owned quantity credited to the first `n` occurrences of `s`.
pub open spec fn alloc_upto(
    s: Seq<RecipeLeaf>,
    n: int,
    items: Map<u32, i64>,
    currencies: Map<u32, i64>,
) -> int
    decreases n,
{
    if n <= 0 {
        0
    } else {
        alloc_upto(s, n - 1, items, currencies) + allotted(s, n - 1, items, currencies)
    }
}

/// Sum of the group totals owned over the first `n` groups.
pub open spec fn groups_owned(
    gs: Seq<Group>,
    n: int,
    items: Map<u32, i64>,
    currencies: Map<u32, i64>,
) -> int
    decreases n,
{
    if n <= 0 {
        0
    } else {
        groups_owned(gs, n - 1, items, currencies) + sum_owned(
            raw_progress(gs, n - 1, items, currencies),
        )
    }
}

/// Sum of the group totals needed over the first `n` groups.
pub open spec fn groups_needed(
    gs: Seq<Group>,
    n: int,
    items: Map<u32, i64>,
    currencies: Map<u32, i64>,
) -> int
    decreases n,
{
    if n <= 0 {
        0
    } else {
        groups_needed(gs, n - 1, items, currencies) + sum_needed(
            raw_progress(gs, n - 1, items, currencies),
        )
    }
}

proof fn lemma_alloc_prefix(
    s: Seq<RecipeLeaf>,
    m: int,
    n: int,
    items: Map<u32, i64>,
    currencies: Map<u32, i64>,
)
    requires
        0 <= n <= m <= s.len(),
    ensures
        alloc_upto(s, n, items, currencies) == alloc_upto(s.take(m), n, items, currencies),
    decreases n,
{
    if n > 0 {
        lemma_alloc_prefix(s, m, n - 1, items, currencies);
        assert(s.take(m)[n - 1] == s[n - 1]);
        let l = s[n - 1];
        lemma_pool_prefix(s, m, n - 1, owned_of(items, currencies, l.kind, l.id), l.kind, l.id);
    }
}

/// With no negative quantity before it, the pool is what `start` leaves
/// after the quantities of the key so far, and never below 0.
proof fn lemma_pool_closed(s: Seq<RecipeLeaf>, n: int, start: int, kind: LeafKind, id: u32)
    requires
        0 <= n <= s.len(),
        start >= 0,
        forall|i: int| 0 <= i < n ==> (#[trigger] s[i]).quantity >= 0,
    ensures
        pool_after(s, n, start, kind, id) == max(0, start - need(s.take(n), kind, id)),
    decreases n,
{
    if n > 0 {
        lemma_pool_closed(s, n - 1, start, kind, id);
        assert(s.take(n).drop_last() == s.take(n - 1));
        assert(s.take(n).last() == s[n - 1]);
        assert(s[n - 1].quantity >= 0);
    } else {
        assert(s.take(0) == Seq::<RecipeLeaf>::empty());
    }
}

/// The pool after `n` leaves depends on those leaves only.
proof fn lemma_pool_prefix(s: Seq<RecipeLeaf>, m: int, n: int, start: int, kind: LeafKind, id: u32)
    requires
        0 <= n <= m <= s.len(),
    ensures
        pool_after(s.take(m), n, start, kind, id) == pool_after(s, n, start, kind, id),
    decreases n,
{
    if n > 0 {
        lemma_pool_prefix(s, m, n - 1, start, kind, id);
        assert(s.take(m)[n - 1] == s[n - 1]);
    }
}

/// The pool is never below 0 once a leaf of its key took from it.
proof fn lemma_pool_sign(s: Seq<RecipeLeaf>, n: int, start: int, kind: LeafKind, id: u32)
    ensures
        pool_after(s, n, start, kind, id) >= 0 || pool_after(s, n, start, kind, id) == start,
    decreases n,
{
    if n > 0 {
        lemma_pool_sign(s, n - 1, start, kind, id);
    }
}

/// The pool moves from `start` by at most the absolute quantities so far.
proof fn lemma_pool_bound(s: Seq<RecipeLeaf>, n: int, start: int, kind: LeafKind, id: u32)
    requires
        0 <= n <= s.len(),
    ensures
        abs(pool_after(s, n, start, kind, id)) <= abs(start) + abs_total(s.take(n)),
    decreases n,
{
    if n > 0 {
        lemma_pool_bound(s, n - 1, start, kind, id);
        assert(s.take(n).drop_last() == s.take(n - 1));
        assert(s.take(n).last() == s[n - 1]);
    } else {
        assert(s.take(0) == Seq::<RecipeLeaf>::empty());
    }
}

proof fn lemma_allotted_bounds(s: Seq<RecipeLeaf>, j: int, items: Map<u32, i64>, currencies: Map<u32, i64>)
    requires
        0 <= j < s.len(),
        all_nonneg(s),
        owned_fits(items, currencies),
    ensures
        0 <= allotted(s, j, items, currencies) <= s[j].quantity,
{
    let l = s[j];
    let own = owned_of(items, currencies, l.kind, l.id);
    assert(own >= 0);
    lemma_pool_closed(s, j, own, l.kind, l.id);
}

proof fn lemma_header_owned_update(
    a: Seq<AggregateLeaf>,
    i: int,
    x: AggregateLeaf,
    items: Map<u32, i64>,
    currencies: Map<u32, i64>,
)
    requires
        0 <= i < a.len(),
    ensures
        header_owned(a.update(i, x), items, currencies) == header_owned(a, items, currencies)
            - min(owned_of(items, currencies, a[i].kind, a[i].id), a[i].needed as int) + min(
            owned_of(items, currencies, x.kind, x.id),
            x.needed as int,
        ),
    decreases a.len(),
{
    let u = a.update(i, x);
    if i == a.len() - 1 {
        assert(u.drop_last() == a.drop_last());
    } else {
        lemma_header_owned_update(a.drop_last(), i, x, items, currencies);
        assert(u.drop_last() == a.drop_last().update(i, x));
    }
}

proof fn lemma_header_owned_remove(
    a: Seq<AggregateLeaf>,
    i: int,
    items: Map<u32, i64>,
    currencies: Map<u32, i64>,
)
    requires
        0 <= i < a.len(),
    ensures
        header_owned(a, items, currencies) == header_owned(a.remove(i), items, currencies) + min(
            owned_of(items, currencies, a[i].kind, a[i].id),
            a[i].needed as int,
        ),
    decreases a.len(),
{
    if i == a.len() - 1 {
        assert(a.remove(i) == a.drop_last());
    } else {
        lemma_header_owned_remove(a.drop_last(), i, items, currencies);
        assert(a.remove(i).drop_last() == a.drop_last().remove(i));
        assert(a.remove(i).last() == a.last());
    }
}

/// Greedy allocation over `s` credits in total, per distinct leaf, what is
/// owned capped at what is needed.
proof fn lemma_alloc_is_header(s: Seq<RecipeLeaf>, items: Map<u32, i64>, currencies: Map<u32, i64>)
    requires
        nonneg_fit(s),
        owned_fits(items, currencies),
    ensures
        alloc_upto(s, s.len() as int, items, currencies) == header_owned(
            aggregate(s),
            items,
            currencies,
        ),
    decreases s.len(),
{
    if s.len() > 0 {
        let n = s.len() - 1;
        let p = s.drop_last();
        let l = s.last();
        lemma_prefix_fits(s, n);
        assert(s.take(n) == p);
        lemma_alloc_is_header(p, items, currencies);
        lemma_alloc_prefix(s, n, n, items, currencies);
        lemma_abs_of_nonneg(p);
        lemma_aggregate(p);
        lemma_need_bounds(s, l.kind, l.id);
        let acc = aggregate(p);
        lemma_entry_index(acc, l.kind, l.id);
        assert(s[n] == l);
        let own = owned_of(items, currencies, l.kind, l.id);
        assert(own >= 0);
        lemma_pool_closed(s, n, own, l.kind, l.id);
        match entry_index(acc, l.kind, l.id) {
            Some(i) => {
                let x = AggregateLeaf { needed: (acc[i].needed + l.quantity) as i64, ..acc[i] };
                lemma_header_owned_update(acc, i, x, items, currencies);
            },
            None => {
                assert(acc.push(AggregateLeaf { kind: l.kind, id: l.id, name: l.name, needed: l.quantity }).drop_last() == acc);
            },
        }
    }
}

/// An aggregate entry exists exactly for the keys that occur.
proof fn lemma_aggregate_keys(s: Seq<RecipeLeaf>)
    ensures
        forall|kind: LeafKind, id: u32|
            (entry_index(aggregate(s), kind, id) is Some) <==> #[trigger] occurrences(s, kind, id)
                > 0,
        forall|kind: LeafKind, id: u32| #[trigger] occurrences(s, kind, id) >= 0,
    decreases s.len(),
{
    if s.len() > 0 {
        let p = s.drop_last();
        let l = s.last();
        lemma_aggregate_keys(p);
        let acc = aggregate(p);
        let r = aggregate(s);
        lemma_entry_index(acc, l.kind, l.id);
        assert forall|kind: LeafKind, id: u32| #[trigger] occurrences(s, kind, id) >= 0 by {
            assert(occurrences(p, kind, id) >= 0);
        };
        assert forall|kind: LeafKind, id: u32|
            (entry_index(r, kind, id) is Some) <==> #[trigger] occurrences(s, kind, id) > 0 by {
            lemma_entry_index(r, kind, id);
            lemma_entry_index(acc, kind, id);
            assert(occurrences(p, kind, id) >= 0);
            match entry_index(acc, l.kind, l.id) {
                Some(i) => {
                    if let Some(m) = entry_index(acc, kind, id) {
                        if m != i {
                            assert(r[m] == acc[m]);
                        } else {
                            assert(r[i].kind == acc[i].kind && r[i].id == acc[i].id);
                        }
                    }
                    if let Some(m) = entry_index(r, kind, id) {
                        if m != i {
                            assert(r[m] == acc[m]);
                        } else {
                            assert(r[i].kind == acc[i].kind && r[i].id == acc[i].id);
                        }
                    }
                },
                None => {
                    if let Some(m) = entry_index(acc, kind, id) {
                        assert(r[m] == acc[m]);
                    }
                    if same_key(l, kind, id) {
                        assert(r[acc.len() as int].kind == kind && r[acc.len() as int].id == id);
                    }
                    if let Some(m) = entry_index(r, kind, id) {
                        if m < acc.len() {
                            assert(r[m] == acc[m]);
                        }
                    }
                },
            }
        };
    }
}

pub open spec fn has_entry(a: Seq<AggregateLeaf>, kind: LeafKind, id: u32) -> bool {
    exists|i: int| 0 <= i < a.len() && (#[trigger] a[i]).kind == kind && a[i].id == id
}

pub open spec fn distinct_entries(a: Seq<AggregateLeaf>) -> bool {
    forall|i: int, j: int|
        0 <= i < j < a.len() ==> !((#[trigger] a[i]).kind == (#[trigger] a[j]).kind && a[i].id
            == a[j].id)
}

proof fn lemma_remove_entries(b: Seq<AggregateLeaf>, j: int)
    requires
        0 <= j < b.len(),
        distinct_entries(b),
    ensures
        distinct_entries(b.remove(j)),
        forall|kind: LeafKind, id: u32|
            #[trigger] has_entry(b.remove(j), kind, id) <==> (has_entry(b, kind, id) && !(b[j].kind
                == kind && b[j].id == id)),
        forall|k: int|
            0 <= k < b.remove(j).len() ==> #[trigger] b.remove(j)[k] == b[if k < j {
                k
            } else {
                k + 1
            }],
{
    let bd = b.remove(j);
    assert forall|k: int| 0 <= k < bd.len() implies #[trigger] bd[k] == b[if k < j {
        k
    } else {
        k + 1
    }] by {};
    assert forall|i: int, k: int| 0 <= i < k < bd.len() implies !((#[trigger] bd[i]).kind == (
    #[trigger] bd[k]).kind && bd[i].id == bd[k].id) by {
        let ii = if i < j { i } else { i + 1 };
        let kk = if k < j { k } else { k + 1 };
        assert(bd[i] == b[ii] && bd[k] == b[kk]);
    };
    assert forall|kind: LeafKind, id: u32|
        #[trigger] has_entry(bd, kind, id) <==> (has_entry(b, kind, id) && !(b[j].kind == kind
            && b[j].id == id)) by {
        if has_entry(bd, kind, id) {
            let m = choose|m: int| 0 <= m < bd.len() && (#[trigger] bd[m]).kind == kind && bd[m].id == id;
            let mm = if m < j { m } else { m + 1 };
            assert(bd[m] == b[mm]);
            assert(has_entry(b, kind, id));
        }
        if has_entry(b, kind, id) && !(b[j].kind == kind && b[j].id == id) {
            let m = choose|m: int| 0 <= m < b.len() && (#[trigger] b[m]).kind == kind && b[m].id == id;
            let mm = if m < j { m } else { m - 1 };
            assert(bd[mm] == b[m]);
        }
    };
}

/// Two aggregates over the same keys with the same quantities per key have
/// the same header total owned, whatever their order.
#[verifier::rlimit(40)]
proof fn lemma_header_owned_perm(
    a: Seq<AggregateLeaf>,
    b: Seq<AggregateLeaf>,
    items: Map<u32, i64>,
    currencies: Map<u32, i64>,
)
    requires
        distinct_entries(a),
        distinct_entries(b),
        forall|kind: LeafKind, id: u32| #[trigger] has_entry(a, kind, id) <==> has_entry(b, kind, id),
        forall|i: int, j: int|
            0 <= i < a.len() && 0 <= j < b.len() && (#[trigger] a[i]).kind == (#[trigger] b[j]).kind
                && a[i].id == b[j].id ==> a[i].needed == b[j].needed,
    ensures
        header_owned(a, items, currencies) == header_owned(b, items, currencies),
    decreases a.len(),
{
    if a.len() == 0 {
        if b.len() > 0 {
            assert(has_entry(b, b[0].kind, b[0].id));
            assert(has_entry(a, b[0].kind, b[0].id) <==> has_entry(b, b[0].kind, b[0].id));
            assert(false);
        }
    } else {
        let x = a.last();
        let n = a.len() - 1;
        assert(a[n] == x);
        assert(has_entry(a, x.kind, x.id));
        assert(has_entry(b, x.kind, x.id));
        let j = choose|j: int| 0 <= j < b.len() && (#[trigger] b[j]).kind == x.kind && b[j].id == x.id;
        lemma_header_owned_remove(b, j, items, currencies);
        lemma_remove_entries(b, j);
        lemma_remove_entries(a, n);
        let ad = a.remove(n);
        let bd = b.remove(j);
        assert(ad == a.drop_last());
        assert forall|kind: LeafKind, id: u32| #[trigger] has_entry(ad, kind, id) <==> has_entry(bd, kind, id) by {
            assert(has_entry(a, kind, id) <==> has_entry(b, kind, id));
        };
        assert forall|i: int, k: int|
            0 <= i < ad.len() && 0 <= k < bd.len() && (#[trigger] ad[i]).kind == (#[trigger] bd[k]).kind
                && ad[i].id == bd[k].id implies ad[i].needed == bd[k].needed by {
            let kk = if k < j { k } else { k + 1 };
            assert(ad[i] == a[i] && bd[k] == b[kk]);
        };
        lemma_header_owned_perm(ad, bd, items, currencies);
        assert(x.needed == b[j].needed);
    }
}

proof fn lemma_entry_to_has(a: Seq<AggregateLeaf>)
    ensures
        forall|kind: LeafKind, id: u32|
            #[trigger] has_entry(a, kind, id) <==> (entry_index(a, kind, id) is Some),
{
    assert forall|kind: LeafKind, id: u32|
        #[trigger] has_entry(a, kind, id) <==> (entry_index(a, kind, id) is Some) by {
        lemma_entry_index(a, kind, id);
        if let Some(i) = entry_index(a, kind, id) {
            assert(a[i].kind == kind && a[i].id == id);
        }
    };
}

/// Leaves with the same measures aggregate to the same header total owned.
proof fn lemma_header_owned_same(
    s: Seq<RecipeLeaf>,
    t: Seq<RecipeLeaf>,
    items: Map<u32, i64>,
    currencies: Map<u32, i64>,
)
    requires
        same_measures(s, t),
        nonneg_fit(s),
        nonneg_fit(t),
    ensures
        header_owned(aggregate(s), items, currencies) == header_owned(aggregate(t), items, currencies),
{
    let a = aggregate(s);
    let b = aggregate(t);
    lemma_abs_of_nonneg(s);
    lemma_abs_of_nonneg(t);
    lemma_aggregate(s);
    lemma_aggregate(t);
    lemma_aggregate_keys(s);
    lemma_aggregate_keys(t);
    lemma_entry_to_has(a);
    lemma_entry_to_has(b);
    assert forall|kind: LeafKind, id: u32| #[trigger] has_entry(a, kind, id) <==> has_entry(b, kind, id) by {
        assert(occurrences(s, kind, id) == occurrences(t, kind, id));
    };
    assert forall|i: int, j: int|
        0 <= i < a.len() && 0 <= j < b.len() && (#[trigger] a[i]).kind == (#[trigger] b[j]).kind
            && a[i].id == b[j].id implies a[i].needed == b[j].needed by {
        assert(need(s, a[i].kind, a[i].id) == need(t, a[i].kind, a[i].id));
    };
    lemma_header_owned_perm(a, b, items, currencies);
}

proof fn lemma_header_needed(s: Seq<RecipeLeaf>)
    requires
        nonneg_fit(s),
    ensures
        header_needed(aggregate(s)) == total_quantity(s),
    decreases s.len(),
{
    if s.len() > 0 {
        let n = s.len() - 1;
        let p = s.drop_last();
        let l = s.last();
        lemma_prefix_fits(s, n);
        assert(s.take(n) == p);
        lemma_header_needed(p);
        lemma_abs_of_nonneg(p);
        lemma_aggregate(p);
        lemma_need_bounds(s, l.kind, l.id);
        let acc = aggregate(p);
        lemma_entry_index(acc, l.kind, l.id);
        match entry_index(acc, l.kind, l.id) {
            Some(i) => {
                let x = AggregateLeaf { needed: (acc[i].needed + l.quantity) as i64, ..acc[i] };
                lemma_header_needed_update(acc, i, x);
            },
            None => {
                assert(acc.push(AggregateLeaf { kind: l.kind, id: l.id, name: l.name, needed: l.quantity }).drop_last() == acc);
            },
        }
    }
}

proof fn lemma_header_needed_update(a: Seq<AggregateLeaf>, i: int, x: AggregateLeaf)
    requires
        0 <= i < a.len(),
    ensures
        header_needed(a.update(i, x)) == header_needed(a) - a[i].needed + x.needed,
    decreases a.len(),
{
    let u = a.update(i, x);
    if i == a.len() - 1 {
        assert(u.drop_last() == a.drop_last());
    } else {
        lemma_header_needed_update(a.drop_last(), i, x);
        assert(u.drop_last() == a.drop_last().update(i, x));
    }
}


proof fn lemma_flat_split(gs: Seq<Group>, n: int)
    requires
        0 <= n < gs.len(),
    ensures
        flat(gs.take(n + 1)) == flat(gs.take(n)) + gs[n].1,
        flat(gs) == flat(gs.take(n + 1)) + flat(gs.skip(n + 1)),
        offset(gs, n + 1) == offset(gs, n) + gs[n].1.len(),
{
    assert(gs.take(n + 1).drop_last() == gs.take(n));
    assert(gs.take(n + 1).last() == gs[n]);
    assert(gs == gs.take(n + 1) + gs.skip(n + 1));
    lemma_flat_concat(gs.take(n + 1), gs.skip(n + 1));
}

proof fn lemma_group_sums(
    gs: Seq<Group>,
    n: int,
    p: int,
    items: Map<u32, i64>,
    currencies: Map<u32, i64>,
)
    requires
        0 <= n < gs.len(),
        0 <= p <= gs[n].1.len(),
        all_nonneg(flat(gs)),
        owned_fits(items, currencies),
    ensures
        sum_owned(raw_progress(gs, n, items, currencies).take(p)) == alloc_upto(
            flat(gs),
            offset(gs, n) + p,
            items,
            currencies,
        ) - alloc_upto(flat(gs), offset(gs, n), items, currencies),
        sum_needed(raw_progress(gs, n, items, currencies).take(p)) == total_quantity(
            gs[n].1.take(p),
        ),
    decreases p,
{
    let raw = raw_progress(gs, n, items, currencies);
    if p == 0 {
        assert(raw.take(0) == Seq::<LeafProgress>::empty());
        assert(gs[n].1.take(0) == Seq::<RecipeLeaf>::empty());
    } else {
        lemma_group_sums(gs, n, p - 1, items, currencies);
        lemma_flat_split(gs, n);
        let f = flat(gs);
        let off = offset(gs, n);
        assert(raw.take(p).drop_last() == raw.take(p - 1));
        assert(gs[n].1.take(p).drop_last() == gs[n].1.take(p - 1));
        assert(f[off + p - 1] == gs[n].1[p - 1]) by {
            assert(flat(gs.take(n + 1))[off + p - 1] == gs[n].1[p - 1]);
        };
        lemma_allotted_bounds(f, off + p - 1, items, currencies);
    }
}

proof fn lemma_groups_totals(gs: Seq<Group>, n: int, items: Map<u32, i64>, currencies: Map<u32, i64>)
    requires
        0 <= n <= gs.len(),
        all_nonneg(flat(gs)),
        owned_fits(items, currencies),
    ensures
        groups_owned(gs, n, items, currencies) == alloc_upto(
            flat(gs),
            offset(gs, n),
            items,
            currencies,
        ),
        groups_needed(gs, n, items, currencies) == total_quantity(flat(gs.take(n))),
    decreases n,
{
    if n == 0 {
        assert(gs.take(0) == Seq::<Group>::empty());
    } else {
        lemma_groups_totals(gs, n - 1, items, currencies);
        lemma_group_sums(gs, n - 1, gs[n - 1].1.len() as int, items, currencies);
        lemma_flat_split(gs, n - 1);
        let raw = raw_progress(gs, n - 1, items, currencies);
        assert(raw.take(raw.len() as int) == raw);
        assert(gs[n - 1].1.take(gs[n - 1].1.len() as int) == gs[n - 1].1);
        lemma_concat_measures(flat(gs.take(n - 1)), gs[n - 1].1);
    }
}

/// Owned quantity is allocated greedily across the groups in order, so the
/// per-group totals reconcile exactly with the deduplicated header: the
/// group totals owned add up to the header total owned, and the group
/// totals needed to the header total needed.
pub proof fn lemma_groups_reconcile(
    catalog: RecipeCatalog,
    recipe: LegendaryRecipe,
    items: Map<u32, i64>,
    currencies: Map<u32, i64>,
)
    requires
        nonneg_fit(walk(catalog, recipe)),
        owned_fits(items, currencies),
    ensures
        groups_owned(
            groups_of(catalog, recipe),
            groups_of(catalog, recipe).len() as int,
            items,
            currencies,
        ) == header_owned(aggregate(walk(catalog, recipe)), items, currencies),
        groups_needed(
            groups_of(catalog, recipe),
            groups_of(catalog, recipe).len() as int,
            items,
            currencies,
        ) == header_needed(aggregate(walk(catalog, recipe))),
{
    let gs = groups_of(catalog, recipe);
    let w = walk(catalog, recipe);
    let f = flat(gs);
    lemma_groups_keep_leaves(catalog, recipe);
    lemma_negatives(w);
    lemma_negatives(f);
    assert(nonneg_fit(f));
    assert(gs.take(gs.len() as int) == gs);
    lemma_groups_totals(gs, gs.len() as int, items, currencies);
    lemma_alloc_is_header(f, items, currencies);
    lemma_header_owned_same(f, w, items, currencies);
    lemma_header_needed(w);
}


// ---------------------------------------------------------------------------
// Computing the progress
// ---------------------------------------------------------------------------

/// Group `g` is the progress of group `i` of `gs`: its totals are those of
/// its leaf occurrences, and the leaves are sorted stably by missing
/// quantity, largest first.
pub open spec fn group_matches(
    g: ProgressGroup,
    gs: Seq<Group>,
    i: int,
    items: Map<u32, i64>,
    currencies: Map<u32, i64>,
) -> bool {
    let raw = raw_progress(gs, i, items, currencies);
    &&& g.name@ == gs[i].0
    &&& g.total_needed == sum_needed(raw)
    &&& g.total_owned == sum_owned(raw)
    &&& g.leaves_total == raw.len()
    &&& g.leaves_complete == count_complete(raw)
    &&& g.leaves@ == stable_sorted(raw, missing_desc(raw)).0
}

/// `r` is the progress of `recipe` against what the account owns: the
/// header over the deduplicated aggregate, then one group per entry of
/// `groups_of`.
pub open spec fn progress_matches(
    r: LegendaryProgress,
    catalog: RecipeCatalog,
    recipe: LegendaryRecipe,
    items: Map<u32, i64>,
    currencies: Map<u32, i64>,
) -> bool {
    let gs = groups_of(catalog, recipe);
    let agg = aggregate(walk(catalog, recipe));
    &&& r.collection_key == recipe.collection_key
    &&& r.total_needed == header_needed(agg)
    &&& r.total_owned == header_owned(agg, items, currencies)
    &&& r.leaves_total == agg.len()
    &&& r.leaves_complete == header_complete(agg, items, currencies)
    &&& r.groups.len() == gs.len()
    &&& forall|i: int|
        0 <= i < gs.len() ==> #[trigger] group_matches(r.groups@[i], gs, i, items, currencies)
}

/// What the account owns of `(kind, id)`: the entry of the matching map,
/// 0 when there is none.
fn owned_amount(
    items: &HashMap<u32, i64>,
    currencies: &HashMap<u32, i64>,
    kind: LeafKind,
    id: u32,
) -> (r: i64)
    ensures
        r == owned_of(items@, currencies@, kind, id),
{
    broadcast use vstd::std_specs::hash::group_hash_axioms;

    let m = match kind {
        LeafKind::Item => items,
        LeafKind::Currency => currencies,
    };
    match m.get(&id) {
        Some(v) => *v,
        None => 0,
    }
}

/// The owned pool of `(kind, id)`, starting from `own`, as the first `pos`
/// occurrences left it.
fn pool_before(occ: &Vec<&RecipeLeaf>, pos: usize, own: i64, kind: LeafKind, id: u32) -> (r: i64)
    requires
        pos <= occ.len(),
        abs(own as int) + abs_total(derefs(occ@)) <= i64::MAX,
    ensures
        r == pool_after(derefs(occ@), pos as int, own as int, kind, id),
{
    let ghost f = derefs(occ@);
    let mut pool: i64 = own;
    let mut j: usize = 0;
    while j < pos
        invariant
            j <= pos <= occ.len(),
            f == derefs(occ@),
            occ@.len() == f.len(),
            abs(own as int) + abs_total(f) <= i64::MAX,
            pool == pool_after(f, j as int, own as int, kind, id),
        decreases pos - j,
    {
        proof {
            lemma_pool_bound(f, j as int, own as int, kind, id);
            lemma_abs_prefix(f, j + 1);
            assert(f.take(j + 1).drop_last() == f.take(j as int));
            assert(f.take(j + 1).last() == f[j as int]);
        }
        let l = occ[j];
        assert(*l == f[j as int]);
        if l.kind == kind && l.id == id {
            let take = if pool < l.quantity {
                pool
            } else {
                l.quantity
            };
            pool = pool - take;
        }
        j = j + 1;
    }
    pool
}

/// The member occurrences of all groups, group after group.
fn flatten_members<'a>(members: &Vec<Vec<&'a RecipeLeaf>>, Ghost(gs): Ghost<Seq<Group>>) -> (r: Vec<
    &'a RecipeLeaf,
>)
    requires
        members.len() == gs.len(),
        forall|i: int| 0 <= i < gs.len() ==> derefs((#[trigger] members@[i])@) == gs[i].1,
    ensures
        derefs(r@) == flat(gs),
{
    let mut out: Vec<&'a RecipeLeaf> = Vec::new();
    let mut i: usize = 0;
    assert(gs.take(0) == Seq::<Group>::empty());
    while i < members.len()
        invariant
            i <= members.len() == gs.len(),
            forall|k: int| 0 <= k < gs.len() ==> derefs((#[trigger] members@[k])@) == gs[k].1,
            derefs(out@) == flat(gs.take(i as int)),
        decreases members.len() - i,
    {
        let m = &members[i];
        assert(derefs(m@) == gs[i as int].1);
        let ghost head = derefs(out@);
        let mut j: usize = 0;
        while j < m.len()
            invariant
                j <= m.len(),
                derefs(out@) == head + derefs(m@).take(j as int),
            decreases m.len() - j,
        {
            let ghost before = out@;
            out.push(m[j]);
            assert(derefs(out@) =~= derefs(before).push(derefs(m@)[j as int]));
            assert(derefs(m@).take(j + 1) == derefs(m@).take(j as int).push(derefs(m@)[j as int]));
            j = j + 1;
        }
        proof {
            assert(derefs(m@).take(j as int) == derefs(m@));
            lemma_flat_split(gs, i as int);
        }
        i = i + 1;
    }
    assert(gs.take(i as int) == gs);
    out
}

proof fn lemma_piece_bound(a: Seq<RecipeLeaf>, b: Seq<RecipeLeaf>)
    requires
        all_nonneg(a + b),
    ensures
        all_nonneg(a),
        all_nonneg(b),
        0 <= total_quantity(a) <= total_quantity(a + b),
        0 <= total_quantity(b) <= total_quantity(a + b),
{
    lemma_concat_measures(a, b);
    lemma_negatives(a);
    lemma_negatives(b);
    lemma_negatives(a + b);
    lemma_total_nonneg(a);
    lemma_total_nonneg(b);
}

/// Where occurrence `p` of group `i` stands among all occurrences, and
/// the bound on the group's quantities.
/// Where occurrence `p` of group `i` stands among all the occurrences.
proof fn lemma_group_position(gs: Seq<Group>, i: int, p: int)
    requires
        0 <= i < gs.len(),
        0 <= p <= gs[i].1.len(),
    ensures
        offset(gs, i) + gs[i].1.len() == offset(gs, i + 1) <= flat(gs).len(),
        p < gs[i].1.len() ==> flat(gs)[offset(gs, i) + p] == gs[i].1[p],
{
    lemma_flat_split(gs, i);
    let f = flat(gs);
    let g = gs[i].1;
    assert(f.len() == flat(gs.take(i + 1)).len() + flat(gs.skip(i + 1)).len());
    if p < g.len() {
        assert(flat(gs.take(i + 1))[offset(gs, i) + p] == g[p]);
        assert(f[offset(gs, i) + p] == flat(gs.take(i + 1))[offset(gs, i) + p]);
    }
}

proof fn lemma_group_member(gs: Seq<Group>, i: int, p: int)
    requires
        0 <= i < gs.len(),
        0 <= p <= gs[i].1.len(),
        all_nonneg(flat(gs)),
    ensures
        offset(gs, i) + gs[i].1.len() == offset(gs, i + 1) <= flat(gs).len(),
        p < gs[i].1.len() ==> flat(gs)[offset(gs, i) + p] == gs[i].1[p],
        all_nonneg(gs[i].1),
        0 <= total_quantity(gs[i].1.take(p)) <= total_quantity(flat(gs)),
{
    lemma_flat_split(gs, i);
    let f = flat(gs);
    lemma_piece_bound(flat(gs.take(i + 1)), flat(gs.skip(i + 1)));
    lemma_piece_bound(flat(gs.take(i)), gs[i].1);
    let g = gs[i].1;
    assert(g == g.take(p) + g.skip(p));
    lemma_piece_bound(g.take(p), g.skip(p));
    if p < g.len() {
        assert(flat(gs.take(i + 1))[offset(gs, i) + p] == g[p]);
        assert(f[offset(gs, i) + p] == flat(gs.take(i + 1))[offset(gs, i) + p]);
    }
}

/// The groups' occurrences hold the walk's leaves, so their quantities fit.
proof fn lemma_flat_fits(catalog: RecipeCatalog, recipe: LegendaryRecipe)
    requires
        nonneg_fit(walk(catalog, recipe)),
    ensures
        nonneg_fit(flat(groups_of(catalog, recipe))),
        all_nonneg(flat(groups_of(catalog, recipe))),
{
    let w = walk(catalog, recipe);
    let f = flat(groups_of(catalog, recipe));
    lemma_groups_keep_leaves(catalog, recipe);
    lemma_negatives(w);
    lemma_negatives(f);
}


proof fn lemma_owned_prefix(s: Seq<RecipeLeaf>, n: int, items: Map<u32, i64>, currencies: Map<u32, i64>)
    requires
        0 <= n <= s.len(),
    ensures
        0 <= abs_owned(s.take(n), items, currencies) <= abs_owned(s, items, currencies),
    decreases s.len() - n,
{
    if n < s.len() {
        lemma_owned_prefix(s, n + 1, items, currencies);
        assert(s.take(n + 1).drop_last() == s.take(n));
        assert(s.take(n + 1)[n] == s[n]);
        lemma_owned_nonneg(s.take(n), items, currencies);
    } else {
        assert(s.take(n) == s);
        lemma_owned_nonneg(s, items, currencies);
    }
}

proof fn lemma_owned_nonneg(s: Seq<RecipeLeaf>, items: Map<u32, i64>, currencies: Map<u32, i64>)
    ensures
        abs_owned(s, items, currencies) >= 0,
    decreases s.len(),
{
    if s.len() > 0 {
        lemma_owned_nonneg(s.drop_last(), items, currencies);
    }
}

/// A group's leaves weigh no more than all the groups' leaves.
proof fn lemma_group_weight(gs: Seq<Group>, i: int, items: Map<u32, i64>, currencies: Map<u32, i64>)
    requires
        0 <= i < gs.len(),
    ensures
        abs_total(gs[i].1) <= abs_total(flat(gs)),
        abs_owned(gs[i].1, items, currencies) <= abs_owned(flat(gs), items, currencies),
{
    lemma_flat_split(gs, i);
    lemma_concat_measures(flat(gs.take(i)), gs[i].1);
    lemma_concat_measures(flat(gs.take(i + 1)), flat(gs.skip(i + 1)));
    lemma_abs_nonneg_total(flat(gs.take(i)));
    lemma_abs_nonneg_total(flat(gs.skip(i + 1)));
    lemma_owned_nonneg(flat(gs.take(i)), items, currencies);
    lemma_owned_nonneg(flat(gs.skip(i + 1)), items, currencies);
}

/// The progress of group `i`, whose `len` occurrences start at `start`
/// among `occ`: each occurrence is credited greedily, the totals are summed,
/// and the leaves are sorted stably by missing quantity, largest first.
fn group_progress(
    occ: &Vec<&RecipeLeaf>,
    name: &String,
    start: usize,
    len: usize,
    items: &HashMap<u32, i64>,
    currencies: &HashMap<u32, i64>,
    Ghost(gs): Ghost<Seq<Group>>,
    Ghost(i): Ghost<int>,
) -> (r: ProgressGroup)
    requires
        derefs(occ@) == flat(gs),
        amounts_fit(flat(gs), items@, currencies@),
        0 <= i < gs.len(),
        start == offset(gs, i),
        len == gs[i].1.len(),
        name@ == gs[i].0,
    ensures
        group_matches(r, gs, i, items@, currencies@),
{
    let ghost f = flat(gs);
    let ghost g = gs[i].1;
    let ghost rp = raw_progress(gs, i, items@, currencies@);
    let mut raw: Vec<LeafProgress> = Vec::new();
    let mut keys: Vec<i64> = Vec::new();
    let mut g_needed: i64 = 0;
    let mut g_owned: i64 = 0;
    let mut g_complete: usize = 0;
    let mut p: usize = 0;
    proof {
        lemma_group_position(gs, i, 0);
        lemma_group_weight(gs, i, items@, currencies@);
        assert(derefs(occ@).len() == occ@.len());
        assert(g.take(0) == Seq::<RecipeLeaf>::empty());
        assert(raw@ == rp.take(0));
    }
    while p < len
        invariant
            0 <= i < gs.len(),
            f == flat(gs),
            g == gs[i].1,
            derefs(occ@) == f,
            occ@.len() == f.len(),
            amounts_fit(f, items@, currencies@),
            abs_total(g) + abs_owned(g, items@, currencies@) <= i64::MAX,
            rp == raw_progress(gs, i, items@, currencies@),
            start == offset(gs, i),
            len == g.len(),
            p <= len,
            raw@ == rp.take(p as int),
            keys@ == missing_desc(raw@),
            g_needed == sum_needed(raw@),
            g_needed == total_quantity(g.take(p as int)),
            g_owned == sum_owned(raw@),
            abs(g_needed as int) <= abs_total(g.take(p as int)),
            abs(g_owned as int) <= abs_total(g.take(p as int)) + abs_owned(
                g.take(p as int),
                items@,
                currencies@,
            ),
            g_complete == count_complete(raw@),
            g_complete <= p,
        decreases len - p,
    {
        proof {
            lemma_group_position(gs, i, p as int);
            lemma_group_position(gs, i, p + 1);
            assert(start + p < occ.len());
        }
        let pos = start + p;
        let l = occ[pos];
        assert(*l == g[p as int]);
        assert(f[pos as int] == *l);
        let own = owned_amount(items, currencies, l.kind, l.id);
        proof {
            lemma_owned_prefix(f, pos + 1, items@, currencies@);
            lemma_abs_prefix(f, pos + 1);
            assert(f.take(pos + 1).drop_last() == f.take(pos as int));
            assert(f.take(pos + 1).last() == *l);
            lemma_owned_nonneg(f.take(pos as int), items@, currencies@);
            lemma_abs_nonneg_total(f.take(pos as int));
            lemma_pool_bound(f, pos as int, own as int, l.kind, l.id);
            lemma_pool_sign(f, pos as int, own as int, l.kind, l.id);
            let t = g.take(p + 1);
            assert(t.drop_last() == g.take(p as int));
            assert(t.last() == g[p as int]);
            lemma_abs_prefix(g, p + 1);
            lemma_owned_prefix(g, p + 1, items@, currencies@);
        }
        let pool = pool_before(occ, pos, own, l.kind, l.id);
        let owned_here = if pool < l.quantity {
            pool
        } else {
            l.quantity
        };
        let missing = l.quantity - owned_here;
        let lp = LeafProgress {
            kind: l.kind,
            id: l.id,
            name: l.name.clone(),
            needed: l.quantity,
            owned: owned_here,
            missing,
            complete: missing == 0,
        };
        proof {
            assert(owned_here == allotted(f, pos as int, items@, currencies@));
            assert(lp == rp[p as int]);
        }
        let ghost before = raw@;
        raw.push(lp);
        keys.push(-missing);
        proof {
            assert(raw@ == rp.take(p + 1));
            assert(raw@.drop_last() == before);
            assert(keys@ =~= missing_desc(raw@));
        }
        g_needed = g_needed + l.quantity;
        g_owned = g_owned + owned_here;
        if missing == 0 {
            g_complete = g_complete + 1;
        }
        p = p + 1;
    }
    assert(rp.take(len as int) == rp);
    let (sorted, _sorted_keys) = stable_sort_by_key(raw, keys);
    ProgressGroup {
        name: name.clone(),
        total_needed: g_needed,
        total_owned: g_owned,
        leaves_total: len,
        leaves_complete: g_complete,
        leaves: sorted,
    }
}


/// Sum of the absolute quantities needed over the entries of `a`.
pub open spec fn abs_needed(a: Seq<AggregateLeaf>) -> int
    decreases a.len(),
{
    if a.len() == 0 {
        0
    } else {
        abs_needed(a.drop_last()) + abs(a.last().needed as int)
    }
}

/// Sum of the absolute owned counts over the entries of `a`.
pub open spec fn abs_entry_owned(a: Seq<AggregateLeaf>, items: Map<u32, i64>, currencies: Map<u32, i64>) -> int
    decreases a.len(),
{
    if a.len() == 0 {
        0
    } else {
        abs_entry_owned(a.drop_last(), items, currencies) + abs(
            owned_of(items, currencies, a.last().kind, a.last().id),
        )
    }
}

proof fn lemma_entry_sums_prefix(a: Seq<AggregateLeaf>, k: int, items: Map<u32, i64>, currencies: Map<u32, i64>)
    requires
        0 <= k <= a.len(),
    ensures
        0 <= abs_needed(a.take(k)) <= abs_needed(a),
        0 <= abs_entry_owned(a.take(k), items, currencies) <= abs_entry_owned(a, items, currencies),
    decreases a.len() - k,
{
    if k < a.len() {
        lemma_entry_sums_prefix(a, k + 1, items, currencies);
        assert(a.take(k + 1).drop_last() == a.take(k));
        assert(a.take(k + 1).last() == a[k]);
        lemma_entry_sums_nonneg(a.take(k), items, currencies);
    } else {
        assert(a.take(k) == a);
        lemma_entry_sums_nonneg(a, items, currencies);
    }
}

proof fn lemma_entry_sums_nonneg(a: Seq<AggregateLeaf>, items: Map<u32, i64>, currencies: Map<u32, i64>)
    ensures
        abs_needed(a) >= 0,
        abs_entry_owned(a, items, currencies) >= 0,
    decreases a.len(),
{
    if a.len() > 0 {
        lemma_entry_sums_nonneg(a.drop_last(), items, currencies);
    }
}

proof fn lemma_entry_sums_update(
    a: Seq<AggregateLeaf>,
    i: int,
    x: AggregateLeaf,
    items: Map<u32, i64>,
    currencies: Map<u32, i64>,
)
    requires
        0 <= i < a.len(),
        x.kind == a[i].kind,
        x.id == a[i].id,
    ensures
        abs_needed(a.update(i, x)) == abs_needed(a) - abs(a[i].needed as int) + abs(x.needed as int),
        abs_entry_owned(a.update(i, x), items, currencies) == abs_entry_owned(a, items, currencies),
    decreases a.len(),
{
    let u = a.update(i, x);
    if i == a.len() - 1 {
        assert(u.drop_last() == a.drop_last());
    } else {
        lemma_entry_sums_update(a.drop_last(), i, x, items, currencies);
        assert(u.drop_last() == a.drop_last().update(i, x));
    }
}

/// The aggregate's entries weigh no more than the leaves they sum.
proof fn lemma_aggregate_weight(s: Seq<RecipeLeaf>, items: Map<u32, i64>, currencies: Map<u32, i64>)
    requires
        quantities_fit(s),
    ensures
        abs_needed(aggregate(s)) <= abs_total(s),
        abs_entry_owned(aggregate(s), items, currencies) <= abs_owned(s, items, currencies),
    decreases s.len(),
{
    if s.len() > 0 {
        let p = s.drop_last();
        let l = s.last();
        lemma_abs_nonneg_total(p);
        lemma_aggregate_weight(p, items, currencies);
        lemma_aggregate(p);
        lemma_need_abs(s, l.kind, l.id);
        assert(need(s, l.kind, l.id) == need(p, l.kind, l.id) + l.quantity);
        let acc = aggregate(p);
        lemma_entry_index(acc, l.kind, l.id);
        match entry_index(acc, l.kind, l.id) {
            Some(i) => {
                let x = AggregateLeaf { needed: (acc[i].needed + l.quantity) as i64, ..acc[i] };
                lemma_entry_sums_update(acc, i, x, items, currencies);
            },
            None => {
                assert(acc.push(AggregateLeaf { kind: l.kind, id: l.id, name: l.name, needed: l.quantity }).drop_last() == acc);
            },
        }
    }
}

/// The header totals over the deduplicated aggregate `needs`: total
/// needed, total owned (owned capped at needed, per leaf), and the number
/// of leaves owned in full.
fn header_totals(
    needs: &Vec<AggregateLeaf>,
    items: &HashMap<u32, i64>,
    currencies: &HashMap<u32, i64>,
) -> (r: (i64, i64, usize))
    requires
        abs_needed(needs@) + abs_entry_owned(needs@, items@, currencies@) <= i64::MAX,
    ensures
        r.0 == header_needed(needs@),
        r.1 == header_owned(needs@, items@, currencies@),
        r.2 == header_complete(needs@, items@, currencies@),
{
    let mut total_needed: i64 = 0;
    let mut total_owned: i64 = 0;
    let mut complete: usize = 0;
    let mut k: usize = 0;
    while k < needs.len()
        invariant
            k <= needs.len(),
            abs_needed(needs@) + abs_entry_owned(needs@, items@, currencies@) <= i64::MAX,
            total_needed == header_needed(needs@.take(k as int)),
            total_owned == header_owned(needs@.take(k as int), items@, currencies@),
            complete == header_complete(needs@.take(k as int), items@, currencies@),
            abs(total_needed as int) <= abs_needed(needs@.take(k as int)),
            abs(total_owned as int) <= abs_needed(needs@.take(k as int)) + abs_entry_owned(
                needs@.take(k as int),
                items@,
                currencies@,
            ),
            complete <= k,
        decreases needs.len() - k,
    {
        proof {
            lemma_entry_sums_prefix(needs@, k + 1, items@, currencies@);
            let t = needs@.take(k + 1);
            assert(t.drop_last() == needs@.take(k as int));
            assert(t.last() == needs@[k as int]);
        }
        let e = &needs[k];
        let own = owned_amount(items, currencies, e.kind, e.id);
        total_needed = total_needed + e.needed;
        total_owned = total_owned + if own < e.needed {
            own
        } else {
            e.needed
        };
        if own >= e.needed {
            complete = complete + 1;
        }
        k = k + 1;
    }
    assert(needs@.take(k as int) == needs@);
    (total_needed, total_owned, complete)
}

/// Whether the amounts that the progress of `recipe` adds up fit in an
/// `i64` (see `amounts_fit`): the condition under which it is computed.
pub fn progress_fits(
    catalog: &RecipeCatalog,
    recipe: &LegendaryRecipe,
    owned_items: &HashMap<u32, i64>,
    owned_currencies: &HashMap<u32, i64>,
) -> (r: bool)
    ensures
        r == amounts_fit(walk(*catalog, *recipe), owned_items@, owned_currencies@),
{
    let leaves = walk_refs(catalog, recipe);
    let ghost s = walk(*catalog, *recipe);
    let mut total: i64 = 0;
    let mut i: usize = 0;
    while i < leaves.len()
        invariant
            i <= leaves.len(),
            s == walk(*catalog, *recipe),
            s == derefs(leaves@),
            s.len() == leaves.len(),
            total == abs_total(s.take(i as int)) + abs_owned(s.take(i as int), owned_items@, owned_currencies@),
            0 <= total,
        decreases leaves.len() - i,
    {
        let l = leaves[i];
        assert(s[i as int] == *l);
        proof {
            assert(s.take(i + 1).drop_last() == s.take(i as int));
            assert(s.take(i + 1).last() == s[i as int]);
            lemma_abs_prefix(s, i + 1);
            lemma_owned_prefix(s, i + 1, owned_items@, owned_currencies@);
            lemma_abs_nonneg_total(s.take(i as int));
            lemma_owned_nonneg(s.take(i as int), owned_items@, owned_currencies@);
        }
        let q = l.quantity;
        let o = owned_amount(owned_items, owned_currencies, l.kind, l.id);
        if q == i64::MIN || o == i64::MIN {
            return false;
        }
        let aq: i64 = if q < 0 {
            -q
        } else {
            q
        };
        let ao: i64 = if o < 0 {
            -o
        } else {
            o
        };
        if aq > i64::MAX - total {
            return false;
        }
        let t = total + aq;
        if ao > i64::MAX - t {
            return false;
        }
        total = t + ao;
        i = i + 1;
    }
    assert(s.take(i as int) == s);
    true
}

/// Compute grouped progress for one legendary against what the account
/// owns. One group per shared component (in `recipe.components` order),
/// then one per direct-leaf `group` label (first-seen order), unlabelled
/// direct leaves in a trailing "Specific" group. Owned quantity is
/// allocated greedily across the groups in order. The header totals are
/// computed over the deduplicated aggregate.
pub fn compute_progress(
    catalog: &RecipeCatalog,
    recipe: &LegendaryRecipe,
    owned_items: &HashMap<u32, i64>,
    owned_currencies: &HashMap<u32, i64>,
) -> (r: LegendaryProgress)
    requires
        amounts_fit(walk(*catalog, *recipe), owned_items@, owned_currencies@),
    ensures
        progress_matches(r, *catalog, *recipe, owned_items@, owned_currencies@),
{
    let ghost gs = groups_of(*catalog, *recipe);
    let ghost f = flat(gs);
    let ghost w = walk(*catalog, *recipe);
    let (names, members) = plan_groups(catalog, recipe);
    proof {
        lemma_groups_keep_leaves(*catalog, *recipe);
        assert(abs_owned(f, owned_items@, owned_currencies@) == abs_owned(w, owned_items@, owned_currencies@));
        lemma_owned_nonneg(w, owned_items@, owned_currencies@);
        assert forall|k: int| 0 <= k < gs.len() implies derefs((#[trigger] members@[k])@)
            == gs[k].1 by {
            assert(names@[k]@ == gs[k - 0].0);
        };
    }
    let occ = flatten_members(&members, Ghost(gs));
    let mut groups: Vec<ProgressGroup> = Vec::new();
    let mut start: usize = 0;
    let mut i: usize = 0;
    proof {
        assert(gs.take(0) == Seq::<Group>::empty());
        assert(derefs(occ@).len() == occ@.len());
    }
    while i < names.len()
        invariant
            plan_matches(names@, members@, gs, 0),
            gs == groups_of(*catalog, *recipe),
            f == flat(gs),
            derefs(occ@) == f,
            occ@.len() == f.len(),
            amounts_fit(f, owned_items@, owned_currencies@),
            amounts_fit(w, owned_items@, owned_currencies@),
            w == walk(*catalog, *recipe),
            i <= names.len(),
            start == offset(gs, i as int),
            groups@.len() == i,
            forall|k: int|
                0 <= k < i ==> #[trigger] group_matches(
                    groups@[k],
                    gs,
                    k,
                    owned_items@,
                    owned_currencies@,
                ),
        decreases names.len() - i,
    {
        proof {
            lemma_group_position(gs, i as int, 0);
            assert(names@[i as int]@ == gs[i - 0].0);
            assert(derefs(members@[i as int]@) == gs[i - 0].1);
            assert(derefs(members@[i as int]@).len() == members@[i as int]@.len());
        }
        let len = members[i].len();
        let g = group_progress(
            &occ,
            &names[i],
            start,
            len,
            owned_items,
            owned_currencies,
            Ghost(gs),
            Ghost(i as int),
        );
        groups.push(g);
        proof {
            assert(start + len <= occ.len());
        }
        start = start + len;
        i = i + 1;
    }
    let needs = aggregate_needs(catalog, recipe);
    proof {
        lemma_aggregate_weight(w, owned_items@, owned_currencies@);
    }
    let (total_needed, total_owned, leaves_complete) = header_totals(
        &needs,
        owned_items,
        owned_currencies,
    );
    LegendaryProgress {
        collection_key: recipe.collection_key.clone(),
        total_needed,
        total_owned,
        leaves_total: needs.len(),
        leaves_complete,
        groups,
    }
}


// ---------------------------------------------------------------------------
// Laws of the computed progress
// ---------------------------------------------------------------------------

/// Sum of the groups' totals owned.
pub open spec fn groups_total_owned(gs: Seq<ProgressGroup>) -> int
    decreases gs.len(),
{
    if gs.len() == 0 {
        0
    } else {
        groups_total_owned(gs.drop_last()) + gs.last().total_owned
    }
}

/// Sum of the groups' totals needed.
pub open spec fn groups_total_needed(gs: Seq<ProgressGroup>) -> int
    decreases gs.len(),
{
    if gs.len() == 0 {
        0
    } else {
        groups_total_needed(gs.drop_last()) + gs.last().total_needed
    }
}

proof fn lemma_group_totals_prefix(
    rg: Seq<ProgressGroup>,
    gs: Seq<Group>,
    n: int,
    items: Map<u32, i64>,
    currencies: Map<u32, i64>,
)
    requires
        0 <= n <= rg.len() == gs.len(),
        forall|i: int| 0 <= i < gs.len() ==> #[trigger] group_matches(rg[i], gs, i, items, currencies),
    ensures
        groups_total_owned(rg.take(n)) == groups_owned(gs, n, items, currencies),
        groups_total_needed(rg.take(n)) == groups_needed(gs, n, items, currencies),
    decreases n,
{
    if n > 0 {
        lemma_group_totals_prefix(rg, gs, n - 1, items, currencies);
        assert(rg.take(n).drop_last() == rg.take(n - 1));
        assert(rg.take(n).last() == rg[n - 1]);
        assert(group_matches(rg[n - 1], gs, n - 1, items, currencies));
    }
}

/// Owned quantity is allocated greedily across the groups in order, so the
/// per-group totals reconcile exactly with the deduplicated header: the
/// groups' totals owned add up to the header total owned, and their totals
/// needed to the header total needed.
pub proof fn lemma_progress_reconciles(
    r: LegendaryProgress,
    catalog: RecipeCatalog,
    recipe: LegendaryRecipe,
    items: Map<u32, i64>,
    currencies: Map<u32, i64>,
)
    requires
        progress_matches(r, catalog, recipe, items, currencies),
        nonneg_fit(walk(catalog, recipe)),
        owned_fits(items, currencies),
    ensures
        groups_total_owned(r.groups@) == r.total_owned,
        groups_total_needed(r.groups@) == r.total_needed,
{
    let gs = groups_of(catalog, recipe);
    lemma_group_totals_prefix(r.groups@, gs, gs.len() as int, items, currencies);
    assert(r.groups@.take(gs.len() as int) == r.groups@);
    lemma_groups_reconcile(catalog, recipe, items, currencies);
}

/// Each leaf occurrence is credited between nothing and what it needs, so
/// its missing quantity is between 0 and what it needs, and it is complete
/// exactly when nothing is missing.
proof fn lemma_raw_leaf(
    gs: Seq<Group>,
    i: int,
    p: int,
    items: Map<u32, i64>,
    currencies: Map<u32, i64>,
)
    requires
        0 <= i < gs.len(),
        0 <= p < gs[i].1.len(),
        all_nonneg(flat(gs)),
        owned_fits(items, currencies),
    ensures
        0 <= raw_progress(gs, i, items, currencies)[p].missing <= raw_progress(
            gs,
            i,
            items,
            currencies,
        )[p].needed,
        raw_progress(gs, i, items, currencies)[p].complete <==> raw_progress(
            gs,
            i,
            items,
            currencies,
        )[p].missing == 0,
        0 <= raw_progress(gs, i, items, currencies)[p].owned,
        raw_progress(gs, i, items, currencies)[p].owned + raw_progress(gs, i, items, currencies)[p].missing
            == raw_progress(gs, i, items, currencies)[p].needed,
{
    lemma_group_member(gs, i, p);
    let f = flat(gs);
    lemma_allotted_bounds(f, offset(gs, i) + p, items, currencies);
}

/// Within each group the leaves come largest missing quantity first, and
/// complete leaves (nothing missing) last; each leaf's owned and missing
/// quantities add up to what it needs.
pub proof fn lemma_group_leaves_ordered(
    r: LegendaryProgress,
    catalog: RecipeCatalog,
    recipe: LegendaryRecipe,
    items: Map<u32, i64>,
    currencies: Map<u32, i64>,
    i: int,
)
    requires
        progress_matches(r, catalog, recipe, items, currencies),
        nonneg_fit(walk(catalog, recipe)),
        owned_fits(items, currencies),
        0 <= i < r.groups.len(),
    ensures
        r.groups@[i].leaves.len() == r.groups@[i].leaves_total,
        forall|a: int, b: int|
            0 <= a < b < r.groups@[i].leaves.len() ==> (#[trigger] r.groups@[i].leaves@[a]).missing
                >= (#[trigger] r.groups@[i].leaves@[b]).missing,
        forall|a: int|
            0 <= a < r.groups@[i].leaves.len() ==> 0 <= (#[trigger] r.groups@[i].leaves@[a]).missing
                && (r.groups@[i].leaves@[a].complete <==> r.groups@[i].leaves@[a].missing == 0),
        forall|a: int|
            0 <= a < r.groups@[i].leaves.len() ==> 0 <= (#[trigger] r.groups@[i].leaves@[a]).owned
                && r.groups@[i].leaves@[a].owned + r.groups@[i].leaves@[a].missing
                == r.groups@[i].leaves@[a].needed,
{
    let gs = groups_of(catalog, recipe);
    lemma_flat_fits(catalog, recipe);
    assert(group_matches(r.groups@[i], gs, i, items, currencies));
    let raw = raw_progress(gs, i, items, currencies);
    let keys = missing_desc(raw);
    let key_of = |q: LeafProgress| (-q.missing) as i64;
    assert forall|m: int| 0 <= m < raw.len() implies #[trigger] keys[m] == key_of(raw[m]) by {};
    lemma_sorted_len(raw, keys);
    lemma_sorted_pairs(raw, keys, key_of);
    lemma_sorted_ascending(raw, keys);
    let sorted = stable_sorted(raw, keys);
    let leaves = r.groups@[i].leaves@;
    assert(leaves == sorted.0);
    assert forall|a: int| 0 <= a < leaves.len() implies 0 <= (#[trigger] leaves[a]).missing
        <= i64::MAX && (leaves[a].complete <==> leaves[a].missing == 0) && 0 <= leaves[a].owned
        && leaves[a].owned + leaves[a].missing == leaves[a].needed by {
        assert(raw.contains(sorted.0[a]));
        let m = choose|m: int| 0 <= m < raw.len() && raw[m] == sorted.0[a];
        lemma_raw_leaf(gs, i, m, items, currencies);
    };
    assert forall|a: int, b: int| 0 <= a < b < leaves.len() implies (#[trigger] leaves[a]).missing
        >= (#[trigger] leaves[b]).missing by {
        assert(sorted.1[a] <= sorted.1[b]);
        assert(sorted.1[a] == key_of(sorted.0[a]));
        assert(sorted.1[b] == key_of(sorted.0[b]));
        assert(0 <= leaves[a].missing <= i64::MAX);
        assert(0 <= leaves[b].missing <= i64::MAX);
    };
}

/// Whether the account owns leaf entry `e` in full: at least what it needs.
pub open spec fn owned_in_full(items: Map<u32, i64>, currencies: Map<u32, i64>) -> spec_fn(
    AggregateLeaf,
) -> bool {
    |e: AggregateLeaf| owned_of(items, currencies, e.kind, e.id) >= e.needed
}

proof fn lemma_complete_is_filter(agg: Seq<AggregateLeaf>, items: Map<u32, i64>, currencies: Map<u32, i64>)
    ensures
        header_complete(agg, items, currencies) == agg.filter(owned_in_full(items, currencies)).len(),
    decreases agg.len(),
{
    reveal(Seq::filter);
    if agg.len() > 0 {
        lemma_complete_is_filter(agg.drop_last(), items, currencies);
    }
}

/// The header counts as complete exactly the distinct leaves that the
/// account owns at least in full: owning exactly what a leaf needs
/// completes it. So no more leaves are complete than there are.
pub proof fn lemma_header_counts_full_leaves(
    r: LegendaryProgress,
    catalog: RecipeCatalog,
    recipe: LegendaryRecipe,
    items: Map<u32, i64>,
    currencies: Map<u32, i64>,
)
    requires
        progress_matches(r, catalog, recipe, items, currencies),
    ensures
        r.leaves_complete == aggregate(walk(catalog, recipe)).filter(owned_in_full(items, currencies)).len(),
        r.leaves_complete <= r.leaves_total,
{
    let agg = aggregate(walk(catalog, recipe));
    lemma_complete_is_filter(agg, items, currencies);
    agg.lemma_filter_len(owned_in_full(items, currencies));
}

} // verus!
