//! Stable sorting by key. Every ordering the overlay shows (upcoming events
//! by start time, recipe leaves by missing quantity, the events feed by
//! expansion and time) goes through `stable_sort_by_key`, which behaves as
//! `slice::sort_by_key`: ascending by key, ties kept in input order.
use vstd::prelude::*;

verus! {

/// A total preorder on keys.
pub trait SortOrder: Sized {
    spec fn le(self, other: Self) -> bool;

    proof fn le_total(a: Self, b: Self)
        ensures
            a.le(b) || b.le(a),
    ;

    proof fn le_trans(a: Self, b: Self, c: Self)
        requires
            a.le(b),
            b.le(c),
        ensures
            a.le(c),
    ;
}

/// A key whose order executable code can test, by `key_le`.
pub trait SortKey: SortOrder {
    fn key_le(&self, other: &Self) -> (r: bool)
        ensures
            r == self.le(*other),
    ;
}

impl SortOrder for i64 {
    open spec fn le(self, other: Self) -> bool {
        self <= other
    }

    proof fn le_total(a: Self, b: Self) {
    }

    proof fn le_trans(a: Self, b: Self, c: Self) {
    }
}

impl SortKey for i64 {
    fn key_le(&self, other: &Self) -> (r: bool) {
        *self <= *other
    }
}

impl SortOrder for i128 {
    open spec fn le(self, other: Self) -> bool {
        self <= other
    }

    proof fn le_total(a: Self, b: Self) {
    }

    proof fn le_trans(a: Self, b: Self, c: Self) {
    }
}

impl SortKey for i128 {
    fn key_le(&self, other: &Self) -> (r: bool) {
        *self <= *other
    }
}

/// `(items, keys)` with `x` (of key `k`) inserted after the last element
/// whose key is at most `k`.
pub open spec fn insert_sorted<T, K: SortOrder>(items: Seq<T>, keys: Seq<K>, x: T, k: K) -> (
    Seq<T>,
    Seq<K>,
)
    decreases keys.len(),
{
    if keys.len() == 0 || items.len() == 0 {
        (seq![x], seq![k])
    } else if keys.last().le(k) {
        (items.push(x), keys.push(k))
    } else {
        let r = insert_sorted(items.drop_last(), keys.drop_last(), x, k);
        (r.0.push(items.last()), r.1.push(keys.last()))
    }
}

/// The stable sort of `items` by `keys` (insertion of each element, in
/// input order, after every element already placed whose key is not greater).
pub open spec fn stable_sorted<T, K: SortOrder>(items: Seq<T>, keys: Seq<K>) -> (Seq<T>, Seq<K>)
    decreases items.len(),
{
    if items.len() == 0 || keys.len() == 0 {
        (Seq::empty(), Seq::empty())
    } else {
        let r = stable_sorted(items.drop_last(), keys.drop_last());
        insert_sorted(r.0, r.1, items.last(), keys.last())
    }
}

pub open spec fn keys_ascending<K: SortOrder>(keys: Seq<K>) -> bool {
    forall|i: int, j: int| 0 <= i < j < keys.len() ==> (#[trigger] keys[i]).le(#[trigger] keys[j])
}

proof fn lemma_insert_len<T, K: SortOrder>(items: Seq<T>, keys: Seq<K>, x: T, k: K)
    requires
        items.len() == keys.len(),
    ensures
        insert_sorted(items, keys, x, k).0.len() == items.len() + 1,
        insert_sorted(items, keys, x, k).1.len() == items.len() + 1,
    decreases keys.len(),
{
    if keys.len() > 0 && !keys.last().le(k) {
        lemma_insert_len(items.drop_last(), keys.drop_last(), x, k);
    }
}

pub proof fn lemma_sorted_len<T, K: SortOrder>(items: Seq<T>, keys: Seq<K>)
    requires
        items.len() == keys.len(),
    ensures
        stable_sorted(items, keys).0.len() == items.len(),
        stable_sorted(items, keys).1.len() == items.len(),
    decreases items.len(),
{
    if items.len() > 0 {
        lemma_sorted_len(items.drop_last(), keys.drop_last());
        let r = stable_sorted(items.drop_last(), keys.drop_last());
        lemma_insert_len(r.0, r.1, items.last(), keys.last());
    }
}

/// Inserting into an ascending sequence at the place `insert_sorted` picks
/// is a plain `Seq::insert` at position `p`, where `p` is the first index
/// whose key is greater than `k`.
proof fn lemma_insert_at<T, K: SortOrder>(items: Seq<T>, keys: Seq<K>, x: T, k: K, p: int)
    requires
        items.len() == keys.len(),
        0 <= p <= keys.len(),
        forall|i: int| 0 <= i < p ==> (#[trigger] keys[i]).le(k),
        forall|i: int| p <= i < keys.len() ==> !(#[trigger] keys[i]).le(k),
    ensures
        insert_sorted(items, keys, x, k) == (items.insert(p, x), keys.insert(p, k)),
    decreases keys.len(),
{
    if keys.len() == 0 {
        assert(items.insert(p, x) =~= seq![x]);
        assert(keys.insert(p, k) =~= seq![k]);
    } else if keys.last().le(k) {
        assert(p == keys.len());
        assert(items.insert(p, x) =~= items.push(x));
        assert(keys.insert(p, k) =~= keys.push(k));
    } else {
        lemma_insert_at(items.drop_last(), keys.drop_last(), x, k, p);
        assert(items.drop_last().insert(p, x).push(items.last()) =~= items.insert(p, x));
        assert(keys.drop_last().insert(p, k).push(keys.last()) =~= keys.insert(p, k));
    }
}

proof fn lemma_insert_ascending<K: SortOrder>(keys: Seq<K>, k: K, p: int)
    requires
        keys_ascending(keys),
        0 <= p <= keys.len(),
        forall|i: int| 0 <= i < p ==> (#[trigger] keys[i]).le(k),
        forall|i: int| p <= i < keys.len() ==> !(#[trigger] keys[i]).le(k),
    ensures
        keys_ascending(keys.insert(p, k)),
{
    let r = keys.insert(p, k);
    assert forall|i: int, j: int| 0 <= i < j < r.len() implies (#[trigger] r[i]).le(
        #[trigger] r[j],
    ) by {
        if j < p {
        } else if j == p {
        } else if i < p {
            K::le_total(keys[j - 1], k);
            K::le_trans(keys[i], k, keys[j - 1]);
        } else if i == p {
            K::le_total(keys[j - 1], k);
        } else {
        }
    };
}

/// Sorting keeps every key in order: the keys of the sorted output ascend.
pub proof fn lemma_sorted_ascending<T, K: SortOrder>(items: Seq<T>, keys: Seq<K>)
    requires
        items.len() == keys.len(),
    ensures
        keys_ascending(stable_sorted(items, keys).1),
    decreases items.len(),
{
    if items.len() > 0 {
        lemma_sorted_ascending(items.drop_last(), keys.drop_last());
        lemma_sorted_len(items.drop_last(), keys.drop_last());
        let r = stable_sorted(items.drop_last(), keys.drop_last());
        let k = keys.last();
        let p = choose_insert_point(r.1, k);
        lemma_insert_at(r.0, r.1, items.last(), k, p);
        lemma_insert_ascending(r.1, k, p);
    }
}

/// Sorting moves each item together with its key and takes its items from
/// the input: where every key is `key_of` of its item, the same holds of
/// the sorted output, and every sorted item occurs in the input.
pub proof fn lemma_sorted_pairs<T, K: SortOrder>(items: Seq<T>, keys: Seq<K>, key_of: spec_fn(T) -> K)
    requires
        items.len() == keys.len(),
        forall|i: int| 0 <= i < items.len() ==> #[trigger] keys[i] == key_of(items[i]),
    ensures
        forall|i: int|
            0 <= i < stable_sorted(items, keys).0.len() ==> #[trigger] stable_sorted(
                items,
                keys,
            ).1[i] == key_of(stable_sorted(items, keys).0[i]),
        forall|i: int|
            0 <= i < stable_sorted(items, keys).0.len() ==> items.contains(
                #[trigger] stable_sorted(items, keys).0[i],
            ),
    decreases items.len(),
{
    lemma_sorted_len(items, keys);
    if items.len() > 0 {
        let d = items.drop_last();
        let dk = keys.drop_last();
        assert forall|i: int| 0 <= i < d.len() implies #[trigger] dk[i] == key_of(d[i]) by {
            assert(dk[i] == keys[i] && d[i] == items[i]);
        };
        lemma_sorted_pairs(d, dk, key_of);
        lemma_sorted_ascending(d, dk);
        lemma_sorted_len(d, dk);
        let r = stable_sorted(d, dk);
        let x = items.last();
        let k = keys.last();
        assert(k == key_of(x)) by {
            assert(keys[items.len() - 1] == key_of(items[items.len() - 1]));
        };
        let p = choose_insert_point(r.1, k);
        lemma_insert_at(r.0, r.1, x, k, p);
        let s = stable_sorted(items, keys);
        assert(s == (r.0.insert(p, x), r.1.insert(p, k)));
        assert forall|i: int| 0 <= i < s.0.len() implies #[trigger] s.1[i] == key_of(s.0[i])
            && items.contains(s.0[i]) by {
            if i < p {
                assert(s.0[i] == r.0[i] && s.1[i] == r.1[i]);
                assert(d.contains(r.0[i]));
                let j = choose|j: int| 0 <= j < d.len() && d[j] == r.0[i];
                assert(items[j] == d[j]);
            } else if i == p {
                assert(items[items.len() - 1] == x);
            } else {
                assert(s.0[i] == r.0[i - 1] && s.1[i] == r.1[i - 1]);
                assert(d.contains(r.0[i - 1]));
                let j = choose|j: int| 0 <= j < d.len() && d[j] == r.0[i - 1];
                assert(items[j] == d[j]);
            }
        };
    }
}

/// Sorting keeps every item exactly once: the output is a permutation of
/// the input.
pub proof fn lemma_sorted_permutes<T, K: SortOrder>(items: Seq<T>, keys: Seq<K>)
    requires
        items.len() == keys.len(),
    ensures
        stable_sorted(items, keys).0.to_multiset() == items.to_multiset(),
    decreases items.len(),
{
    broadcast use vstd::seq_lib::group_to_multiset_ensures, vstd::multiset::group_multiset_axioms;

    if items.len() == 0 {
    } else {
        let d = items.drop_last();
        let dk = keys.drop_last();
        lemma_sorted_permutes(d, dk);
        lemma_sorted_ascending(d, dk);
        lemma_sorted_len(d, dk);
        let r = stable_sorted(d, dk);
        let x = items.last();
        let k = keys.last();
        let p = choose_insert_point(r.1, k);
        lemma_insert_at(r.0, r.1, x, k, p);
        let t = r.0.insert(p, x);
        assert(t.remove(p) =~= r.0);
        assert(t[p] == x);
        assert(t.to_multiset().remove(x) == r.0.to_multiset());
        assert(t.to_multiset().count(x) > 0) by {
            assert(t.contains(x));
        };
        assert(t.to_multiset() =~= r.0.to_multiset().insert(x));
        assert(d.push(x) == items);
        assert(items.to_multiset() =~= d.to_multiset().insert(x));
    }
}

proof fn lemma_insert_map<T, U, K: SortOrder>(
    items: Seq<T>,
    keys: Seq<K>,
    x: T,
    k: K,
    f: spec_fn(T) -> U,
)
    ensures
        insert_sorted(items.map_values(f), keys, f(x), k).0 == insert_sorted(
            items,
            keys,
            x,
            k,
        ).0.map_values(f),
        insert_sorted(items.map_values(f), keys, f(x), k).1 == insert_sorted(items, keys, x, k).1,
    decreases keys.len(),
{
    if keys.len() == 0 || items.len() == 0 {
        assert(seq![x].map_values(f) =~= seq![f(x)]);
    } else if keys.last().le(k) {
        assert(items.push(x).map_values(f) =~= items.map_values(f).push(f(x)));
    } else {
        lemma_insert_map(items.drop_last(), keys.drop_last(), x, k, f);
        assert(items.map_values(f).drop_last() =~= items.drop_last().map_values(f));
        assert(items.map_values(f).last() == f(items.last()));
        let r = insert_sorted(items.drop_last(), keys.drop_last(), x, k);
        assert(r.0.push(items.last()).map_values(f) =~= r.0.map_values(f).push(f(items.last())));
    }
}

/// Sorting commutes with mapping the items: the order depends on the keys
/// alone.
pub proof fn lemma_sorted_map<T, U, K: SortOrder>(items: Seq<T>, keys: Seq<K>, f: spec_fn(T) -> U)
    ensures
        stable_sorted(items.map_values(f), keys).0 == stable_sorted(items, keys).0.map_values(f),
        stable_sorted(items.map_values(f), keys).1 == stable_sorted(items, keys).1,
    decreases items.len(),
{
    if items.len() == 0 || keys.len() == 0 {
        assert(Seq::<T>::empty().map_values(f) =~= Seq::<U>::empty());
    } else {
        lemma_sorted_map(items.drop_last(), keys.drop_last(), f);
        assert(items.map_values(f).drop_last() =~= items.drop_last().map_values(f));
        assert(items.map_values(f).last() == f(items.last()));
        let r = stable_sorted(items.drop_last(), keys.drop_last());
        lemma_insert_map(r.0, r.1, items.last(), keys.last(), f);
    }
}

proof fn lemma_insert_view<T, K: SortOrder, V: SortOrder>(
    items: Seq<T>,
    keys: Seq<K>,
    x: T,
    k: K,
    f: spec_fn(K) -> V,
)
    requires
        forall|a: K, b: K| #[trigger] a.le(b) == f(a).le(f(b)),
    ensures
        insert_sorted(items, keys.map_values(f), x, f(k)).0 == insert_sorted(items, keys, x, k).0,
        insert_sorted(items, keys.map_values(f), x, f(k)).1 == insert_sorted(
            items,
            keys,
            x,
            k,
        ).1.map_values(f),
    decreases keys.len(),
{
    if keys.len() == 0 || items.len() == 0 {
        assert(seq![k].map_values(f) =~= seq![f(k)]);
    } else if keys.last().le(k) {
        assert(keys.map_values(f).last() == f(keys.last()));
        assert(keys.push(k).map_values(f) =~= keys.map_values(f).push(f(k)));
    } else {
        assert(keys.map_values(f).last() == f(keys.last()));
        lemma_insert_view(items.drop_last(), keys.drop_last(), x, k, f);
        assert(keys.map_values(f).drop_last() =~= keys.drop_last().map_values(f));
        let r = insert_sorted(items.drop_last(), keys.drop_last(), x, k);
        assert(r.1.push(keys.last()).map_values(f) =~= r.1.map_values(f).push(f(keys.last())));
    }
}

/// Sorting by keys gives the same order as sorting by views of the keys
/// that order the same way.
pub proof fn lemma_sorted_view<T, K: SortOrder, V: SortOrder>(
    items: Seq<T>,
    keys: Seq<K>,
    f: spec_fn(K) -> V,
)
    requires
        forall|a: K, b: K| #[trigger] a.le(b) == f(a).le(f(b)),
    ensures
        stable_sorted(items, keys.map_values(f)).0 == stable_sorted(items, keys).0,
        stable_sorted(items, keys.map_values(f)).1 == stable_sorted(items, keys).1.map_values(f),
    decreases items.len(),
{
    if items.len() == 0 || keys.len() == 0 {
        assert(Seq::<K>::empty().map_values(f) =~= Seq::<V>::empty());
    } else {
        lemma_sorted_view(items.drop_last(), keys.drop_last(), f);
        assert(keys.map_values(f).drop_last() =~= keys.drop_last().map_values(f));
        assert(keys.map_values(f).last() == f(keys.last()));
        let r = stable_sorted(items.drop_last(), keys.drop_last());
        lemma_insert_view(r.0, r.1, items.last(), keys.last(), f);
    }
}

/// The first index of an ascending sequence whose key is greater than `k`.
proof fn choose_insert_point<K: SortOrder>(keys: Seq<K>, k: K) -> (p: int)
    requires
        keys_ascending(keys),
    ensures
        0 <= p <= keys.len(),
        forall|i: int| 0 <= i < p ==> (#[trigger] keys[i]).le(k),
        forall|i: int| p <= i < keys.len() ==> !(#[trigger] keys[i]).le(k),
    decreases keys.len(),
{
    if keys.len() == 0 {
        0
    } else if keys.last().le(k) {
        assert forall|i: int| 0 <= i < keys.len() implies (#[trigger] keys[i]).le(k) by {
            if i < keys.len() - 1 {
                K::le_trans(keys[i], keys.last(), k);
            }
        };
        keys.len() as int
    } else {
        let d = keys.drop_last();
        let p = choose_insert_point(d, k);
        assert forall|i: int| 0 <= i < p implies (#[trigger] keys[i]).le(k) by {
            assert(keys[i] == d[i]);
        };
        assert forall|i: int| p <= i < keys.len() implies !(#[trigger] keys[i]).le(k) by {
            if i < keys.len() - 1 {
                assert(keys[i] == d[i]);
            }
        };
        p
    }
}

/// `items` reordered stably by `keys`, ascending (what `sort_by_key` does).
pub fn stable_sort_by_key<T, K: SortKey>(items: Vec<T>, keys: Vec<K>) -> (r: (Vec<T>, Vec<K>))
    requires
        items.len() == keys.len(),
    ensures
        (r.0@, r.1@) == stable_sorted(items@, keys@),
{
    let ghost orig_items = items@;
    let ghost orig_keys = keys@;
    let mut items = items;
    let mut keys = keys;
    // Consume from the back so that `stable_sorted`'s recursion on the
    // last element lines up: build the sort of the prefix first.
    let n = items.len();
    let mut rest_items: Vec<T> = Vec::new();
    let mut rest_keys: Vec<K> = Vec::new();
    // Reverse the inputs so popping yields them in input order.
    while items.len() > 0
        invariant
            items.len() == keys.len(),
            rest_items.len() == rest_keys.len(),
            items.len() + rest_items.len() == n,
            n == orig_items.len() == orig_keys.len(),
            items@ == orig_items.take(items.len() as int),
            keys@ == orig_keys.take(keys.len() as int),
            forall|i: int|
                0 <= i < rest_items.len() ==> rest_items@[i] == orig_items[n - 1 - i],
            forall|i: int| 0 <= i < rest_keys.len() ==> rest_keys@[i] == orig_keys[n - 1 - i],
        decreases items.len(),
    {
        let x = items.pop().unwrap();
        let k = keys.pop().unwrap();
        rest_items.push(x);
        rest_keys.push(k);
    }
    let mut out_items: Vec<T> = Vec::new();
    let mut out_keys: Vec<K> = Vec::new();
    let mut done: usize = 0;
    while rest_items.len() > 0
        invariant
            rest_items.len() == rest_keys.len(),
            done + rest_items.len() == n,
            n == orig_items.len() == orig_keys.len(),
            forall|i: int|
                0 <= i < rest_items.len() ==> rest_items@[i] == orig_items[n - 1 - i],
            forall|i: int| 0 <= i < rest_keys.len() ==> rest_keys@[i] == orig_keys[n - 1 - i],
            (out_items@, out_keys@) == stable_sorted(
                orig_items.take(done as int),
                orig_keys.take(done as int),
            ),
            out_items.len() == done,
            out_keys.len() == done,
            keys_ascending(out_keys@),
        decreases rest_items.len(),
    {
        let x = rest_items.pop().unwrap();
        let k = rest_keys.pop().unwrap();
        proof {
            assert(x == orig_items[done as int]);
            assert(k == orig_keys[done as int]);
        }
        let mut p = out_keys.len();
        while p > 0 && !out_keys[p - 1].key_le(&k)
            invariant
                p <= out_keys.len(),
                keys_ascending(out_keys@),
                forall|i: int| p <= i < out_keys.len() ==> !(#[trigger] out_keys@[i]).le(k),
            decreases p,
        {
            p = p - 1;
        }
        proof {
            assert forall|i: int| 0 <= i < p implies (#[trigger] out_keys@[i]).le(k) by {
                if i < p - 1 {
                    K::le_trans(out_keys@[i], out_keys@[p - 1], k);
                }
            };
            let ghost pi = orig_items.take(done as int);
            let ghost pk = orig_keys.take(done as int);
            assert(orig_items.take(done + 1).drop_last() == pi);
            assert(orig_keys.take(done + 1).drop_last() == pk);
            lemma_insert_at(out_items@, out_keys@, x, k, p as int);
            lemma_insert_ascending(out_keys@, k, p as int);
        }
        out_items.insert(p, x);
        out_keys.insert(p, k);
        done = done + 1;
    }
    proof {
        assert(orig_items.take(n as int) == orig_items);
        assert(orig_keys.take(n as int) == orig_keys);
    }
    (out_items, out_keys)
}

} // verus!
