//! Which definitions to fetch: the item and skin ids that the bits of pinned
//! achievements refer to, those not cached yet, the wallet currencies that
//! have no definition, and the batches in which ids are requested.
use vstd::prelude::*;

use crate::text::owned;
use crate::views::BitDef;

verus! {

/// The number of ids requested per call to a bulk endpoint.
pub const BATCH_SIZE: usize = 200;

/// The id that bit `d` refers to when it is of kind `kind`: its kind (the
/// empty text when absent) must be `kind` and its id a non-negative
/// integer, taken as `u32`.
pub open spec fn bit_id(d: BitDef, kind: Seq<char>) -> Option<u32> {
    let k = match d.kind {
        Some(k) => k@,
        None => ""@,
    };
    match d.id {
        Some(id) => if k == kind && id >= 0 {
            Some(id as u32)
        } else {
            None
        },
        None => None,
    }
}

/// The ids of the bits of kind `kind` in `defs`, in order.
pub open spec fn ids_of_kind(defs: Seq<BitDef>, kind: Seq<char>) -> Seq<u32>
    decreases defs.len(),
{
    if defs.len() == 0 {
        seq![]
    } else {
        let prev = ids_of_kind(defs.drop_last(), kind);
        match bit_id(defs.last(), kind) {
            Some(id) => prev.push(id),
            None => prev,
        }
    }
}

/// The ids of the bits of kind `kind` over several achievements' bit
/// lists, one list after another.
pub open spec fn ids_in_rows(rows: Seq<Vec<BitDef>>, kind: Seq<char>) -> Seq<u32>
    decreases rows.len(),
{
    if rows.len() == 0 {
        seq![]
    } else {
        ids_in_rows(rows.drop_last(), kind) + ids_of_kind(rows.last()@, kind)
    }
}

fn bit_id_of(d: &BitDef, kind: &str) -> (r: Option<u32>)
    ensures
        r == bit_id(*d, kind@),
{
    let k = match &d.kind {
        Some(k) => k.clone(),
        None => owned(""),
    };
    match d.id {
        Some(id) => if k == owned(kind) && id >= 0 {
            Some(id as u32)
        } else {
            None
        },
        None => None,
    }
}

/// The ids that the bits of kind `kind` (`"Item"`, `"Skin"`) refer to,
/// over the bit lists of several achievements, in order.
pub fn referenced_ids(rows: &Vec<Vec<BitDef>>, kind: &str) -> (r: Vec<u32>)
    ensures
        r@ == ids_in_rows(rows@, kind@),
{
    let mut out: Vec<u32> = Vec::new();
    let mut i: usize = 0;
    while i < rows.len()
        invariant
            i <= rows.len(),
            out@ == ids_in_rows(rows@.take(i as int), kind@),
        decreases rows.len() - i,
    {
        let row = &rows[i];
        let ghost before = out@;
        let mut j: usize = 0;
        while j < row.len()
            invariant
                j <= row.len(),
                out@ == before + ids_of_kind(row@.take(j as int), kind@),
            decreases row.len() - j,
        {
            assert(row@.take(j + 1).drop_last() == row@.take(j as int));
            match bit_id_of(&row[j], kind) {
                Some(id) => {
                    out.push(id);
                },
                None => {},
            }
            j = j + 1;
        }
        assert(row@.take(row.len() as int) == row@);
        assert(rows@.take(i + 1).drop_last() == rows@.take(i as int));
        i = i + 1;
    }
    assert(rows@.take(rows.len() as int) == rows@);
    out
}

/// The ids of `wanted` that are not in `cached`, each once, in the order of
/// their first appearance.
pub open spec fn uncached(wanted: Seq<u32>, cached: Seq<u32>) -> Seq<u32>
    decreases wanted.len(),
{
    if wanted.len() == 0 {
        seq![]
    } else {
        let prev = uncached(wanted.drop_last(), cached);
        let x = wanted.last();
        if cached.contains(x) || prev.contains(x) {
            prev
        } else {
            prev.push(x)
        }
    }
}

/// The ids of `wanted` for which `known` holds no entry, in order.
pub open spec fn unknown(wanted: Seq<u32>, known: Seq<u32>) -> Seq<u32>
    decreases wanted.len(),
{
    if wanted.len() == 0 {
        seq![]
    } else {
        let prev = unknown(wanted.drop_last(), known);
        if known.contains(wanted.last()) {
            prev
        } else {
            prev.push(wanted.last())
        }
    }
}

pub(crate) fn contains_id(v: &Vec<u32>, x: u32) -> (r: bool)
    ensures
        r == v@.contains(x),
{
    let mut i: usize = 0;
    while i < v.len()
        invariant
            i <= v.len(),
            forall|k: int| 0 <= k < i ==> v@[k] != x,
        decreases v.len() - i,
    {
        if v[i] == x {
            assert(v@[i as int] == x);
            return true;
        }
        i = i + 1;
    }
    false
}

/// The referenced ids that the cache does not hold yet, each once, in the
/// order in which they are first referenced.
pub fn missing_ids(wanted: &Vec<u32>, cached: &Vec<u32>) -> (r: Vec<u32>)
    ensures
        r@ == uncached(wanted@, cached@),
{
    let mut out: Vec<u32> = Vec::new();
    let mut i: usize = 0;
    while i < wanted.len()
        invariant
            i <= wanted.len(),
            out@ == uncached(wanted@.take(i as int), cached@),
        decreases wanted.len() - i,
    {
        let x = wanted[i];
        assert(wanted@.take(i + 1).drop_last() == wanted@.take(i as int));
        if !contains_id(cached, x) && !contains_id(&out, x) {
            out.push(x);
        }
        i = i + 1;
    }
    assert(wanted@.take(wanted.len() as int) == wanted@);
    out
}

/// The wallet's currency ids that have no cached definition, in wallet
/// order.
pub fn unknown_ids(wanted: &Vec<u32>, known: &Vec<u32>) -> (r: Vec<u32>)
    ensures
        r@ == unknown(wanted@, known@),
{
    let mut out: Vec<u32> = Vec::new();
    let mut i: usize = 0;
    while i < wanted.len()
        invariant
            i <= wanted.len(),
            out@ == unknown(wanted@.take(i as int), known@),
        decreases wanted.len() - i,
    {
        let x = wanted[i];
        assert(wanted@.take(i + 1).drop_last() == wanted@.take(i as int));
        if !contains_id(known, x) {
            out.push(x);
        }
        i = i + 1;
    }
    assert(wanted@.take(wanted.len() as int) == wanted@);
    out
}

/// The missing ids hold no id twice, and an id is missing exactly when it
/// is referenced and not cached.
pub proof fn lemma_uncached(wanted: Seq<u32>, cached: Seq<u32>)
    ensures
        uncached(wanted, cached).no_duplicates(),
        forall|x: u32|
            #[trigger] uncached(wanted, cached).contains(x) <==> (wanted.contains(x)
                && !cached.contains(x)),
    decreases wanted.len(),
{
    if wanted.len() > 0 {
        let w = wanted.drop_last();
        lemma_uncached(w, cached);
        assert forall|x: u32| wanted.contains(x) <==> (w.contains(x) || x == wanted.last()) by {
            if wanted.contains(x) {
                let k = choose|k: int| 0 <= k < wanted.len() && wanted[k] == x;
                if k < wanted.len() - 1 {
                    assert(w[k] == x);
                }
            }
            if w.contains(x) {
                let k = choose|k: int| 0 <= k < w.len() && w[k] == x;
                assert(wanted[k] == x);
            }
            if x == wanted.last() {
                assert(wanted[wanted.len() - 1] == x);
            }
        };
        let prev = uncached(w, cached);
        let y = wanted.last();
        if cached.contains(y) || prev.contains(y) {
            assert forall|x: u32| #[trigger] uncached(wanted, cached).contains(x) <==> (
            wanted.contains(x) && !cached.contains(x)) by {
                assert(uncached(wanted, cached) == prev);
                assert(prev.contains(x) <==> (w.contains(x) && !cached.contains(x)));
                assert(wanted.contains(x) <==> (w.contains(x) || x == y));
            };
        } else {
            assert forall|x: u32| prev.push(y).contains(x) <==> (prev.contains(x) || x == y) by {
                if prev.push(y).contains(x) {
                    let k = choose|k: int| 0 <= k < prev.len() + 1 && prev.push(y)[k] == x;
                    if k < prev.len() {
                        assert(prev[k] == x);
                    }
                }
                if prev.contains(x) {
                    let k = choose|k: int| 0 <= k < prev.len() && prev[k] == x;
                    assert(prev.push(y)[k] == x);
                }
                if x == y {
                    assert(prev.push(y)[prev.len() as int] == x);
                }
            };
            assert(prev.push(y).no_duplicates()) by {
                assert forall|a: int, b: int|
                    0 <= a < prev.len() + 1 && 0 <= b < prev.len() + 1 && a != b implies prev.push(
                    y,
                )[a] != prev.push(y)[b] by {
                    if a < prev.len() && b < prev.len() {
                    } else if a < prev.len() {
                        assert(prev.contains(prev[a]));
                    } else {
                        assert(prev.contains(prev[b]));
                    }
                };
            };
            assert forall|x: u32| #[trigger] uncached(wanted, cached).contains(x) <==> (
            wanted.contains(x) && !cached.contains(x)) by {
                assert(uncached(wanted, cached) == prev.push(y));
                assert(prev.contains(x) <==> (w.contains(x) && !cached.contains(x)));
                assert(prev.push(y).contains(x) <==> (prev.contains(x) || x == y));
                assert(wanted.contains(x) <==> (w.contains(x) || x == y));
            };
        }
    }
}

/// The ids of `ids` cut into consecutive batches of at most `size` ids:
/// every batch but the last holds exactly `size`.
pub open spec fn batches_of(ids: Seq<u32>, size: nat) -> Seq<Seq<u32>>
    decreases ids.len(),
{
    if ids.len() == 0 || size == 0 {
        seq![]
    } else if ids.len() <= size {
        seq![ids]
    } else {
        seq![ids.take(size as int)] + batches_of(ids.skip(size as int), size)
    }
}

/// The ids of consecutive batches, one batch after another.
pub open spec fn flatten_batches(bs: Seq<Seq<u32>>) -> Seq<u32>
    decreases bs.len(),
{
    if bs.len() == 0 {
        seq![]
    } else {
        bs[0] + flatten_batches(bs.drop_first())
    }
}

pub open spec fn views_of(bs: Seq<Vec<u32>>) -> Seq<Seq<u32>> {
    bs.map_values(|b: Vec<u32>| b@)
}

/// `ids` cut into batches of at most `size` ids, in order (`<[u32]>::chunks`).
pub fn id_batches(ids: &Vec<u32>, size: usize) -> (r: Vec<Vec<u32>>)
    requires
        size > 0,
    ensures
        views_of(r@) == batches_of(ids@, size as nat),
{
    let mut out: Vec<Vec<u32>> = Vec::new();
    let mut start: usize = 0;
    assert(ids@.skip(0) == ids@);
    assert(views_of(out@) == Seq::<Seq<u32>>::empty());
    while start < ids.len()
        invariant
            size > 0,
            start <= ids.len(),
            views_of(out@) + batches_of(ids@.skip(start as int), size as nat) == batches_of(
                ids@,
                size as nat,
            ),
        decreases ids.len() - start,
    {
        let end = if ids.len() - start <= size {
            ids.len()
        } else {
            start + size
        };
        let mut chunk: Vec<u32> = Vec::new();
        let mut k = start;
        while k < end
            invariant
                start <= k <= end <= ids.len(),
                chunk@ == ids@.subrange(start as int, k as int),
            decreases end - k,
        {
            chunk.push(ids[k]);
            k = k + 1;
        }
        let ghost rest = ids@.skip(start as int);
        proof {
            if ids.len() - start <= size {
                assert(chunk@ == rest);
                assert(ids@.skip(end as int).len() == 0);
            } else {
                assert(chunk@ == rest.take(size as int));
                assert(rest.skip(size as int) == ids@.skip(end as int));
            }
        }
        let ghost before = out@;
        out.push(chunk);
        proof {
            assert(views_of(out@) == views_of(before).push(chunk@));
            assert(views_of(before).push(chunk@) + batches_of(ids@.skip(end as int), size as nat)
                == views_of(before) + batches_of(rest, size as nat));
        }
        start = end;
    }
    assert(ids@.skip(start as int).len() == 0);
    assert(views_of(out@) + seq![] == views_of(out@));
    out
}

/// Batches cover the ids exactly, in order, and every batch holds between
/// one and `size` ids.
pub proof fn lemma_batches_cover(ids: Seq<u32>, size: nat)
    requires
        size > 0,
    ensures
        flatten_batches(batches_of(ids, size)) == ids,
        forall|i: int|
            0 <= i < batches_of(ids, size).len() ==> 1 <= #[trigger] batches_of(ids, size)[i].len()
                <= size,
        forall|i: int|
            0 <= i < batches_of(ids, size).len() - 1 ==> #[trigger] batches_of(ids, size)[i].len()
                == size,
    decreases ids.len(),
{
    if ids.len() == 0 {
    } else if ids.len() <= size {
        assert(flatten_batches(seq![ids]) == ids + flatten_batches(seq![ids].drop_first()));
        assert(seq![ids].drop_first() == Seq::<Seq<u32>>::empty());
    } else {
        let rest = ids.skip(size as int);
        lemma_batches_cover(rest, size);
        let bs = seq![ids.take(size as int)] + batches_of(rest, size);
        assert(bs.drop_first() == batches_of(rest, size));
        assert(ids.take(size as int) + rest == ids);
        assert forall|i: int| 0 <= i < bs.len() implies 1 <= #[trigger] bs[i].len() <= size by {
            if i > 0 {
                assert(bs[i] == batches_of(rest, size)[i - 1]);
            }
        };
        assert forall|i: int| 0 <= i < bs.len() - 1 implies #[trigger] bs[i].len() == size by {
            if i > 0 {
                assert(bs[i] == batches_of(rest, size)[i - 1]);
            }
        };
    }
}

} // verus!
