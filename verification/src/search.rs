//! The first element of a sequence that satisfies a predicate, the model
//! of `iter().find(..)` and `iter().position(..)` for every lookup of the
//! library.
use vstd::prelude::*;

verus! {

/// Index of the first element of `s` that satisfies `pred`.
pub open spec fn first_match<T>(s: Seq<T>, pred: spec_fn(T) -> bool) -> Option<int>
    decreases s.len(),
{
    if s.len() == 0 {
        None
    } else {
        match first_match(s.drop_last(), pred) {
            Some(i) => Some(i),
            None => if pred(s.last()) {
                Some(s.len() - 1)
            } else {
                None
            },
        }
    }
}

/// Scanning from the front: when no element before `n` matches and element
/// `n` does, the first match is `n`.
pub proof fn lemma_first_match_found<T>(s: Seq<T>, pred: spec_fn(T) -> bool, n: int)
    requires
        0 <= n < s.len(),
        first_match(s.take(n), pred) is None,
        pred(s[n]),
    ensures
        first_match(s, pred) == Some(n),
    decreases s.len() - n,
{
    assert(s.take(n + 1).drop_last() == s.take(n));
    if n + 1 < s.len() {
        lemma_first_match_keep(s, pred, n + 1);
    } else {
        assert(s.take(n + 1) == s);
    }
}

/// A match found in a prefix is the first match of the whole sequence.
pub proof fn lemma_first_match_keep<T>(s: Seq<T>, pred: spec_fn(T) -> bool, n: int)
    requires
        0 < n <= s.len(),
        first_match(s.take(n), pred) is Some,
    ensures
        first_match(s, pred) == first_match(s.take(n), pred),
    decreases s.len() - n,
{
    if n < s.len() {
        assert(s.take(n + 1).drop_last() == s.take(n));
        lemma_first_match_keep(s, pred, n + 1);
    } else {
        assert(s.take(n) == s);
    }
}

/// Scanning from the front one more element that does not match.
pub proof fn lemma_first_match_step<T>(s: Seq<T>, pred: spec_fn(T) -> bool, n: int)
    requires
        0 <= n < s.len(),
        first_match(s.take(n), pred) is None,
        !pred(s[n]),
    ensures
        first_match(s.take(n + 1), pred) is None,
{
    assert(s.take(n + 1).drop_last() == s.take(n));
}

/// The first match is a matching element.
pub proof fn lemma_first_match_bounds<T>(s: Seq<T>, pred: spec_fn(T) -> bool)
    ensures
        first_match(s, pred) matches Some(i) ==> 0 <= i < s.len() && pred(s[i]) && forall|k: int|
            0 <= k < i ==> !pred(#[trigger] s[k]),
        first_match(s, pred) is None ==> forall|k: int| 0 <= k < s.len() ==> !pred(#[trigger] s[k]),
    decreases s.len(),
{
    if s.len() > 0 {
        let d = s.drop_last();
        lemma_first_match_bounds(d, pred);
        assert(s[s.len() - 1] == s.last());
        match first_match(d, pred) {
            Some(i) => {
                assert(d[i] == s[i]);
                assert forall|k: int| 0 <= k < i implies !pred(#[trigger] s[k]) by {
                    assert(d[k] == s[k]);
                };
            },
            None => {
                assert forall|k: int| 0 <= k < d.len() implies !pred(#[trigger] s[k]) by {
                    assert(d[k] == s[k]);
                };
            },
        }
    }
}

} // verus!
