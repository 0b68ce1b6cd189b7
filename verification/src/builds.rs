//! The curated meta builds and the profession filter of the builds list.
use vstd::prelude::*;

use crate::text::{eq_ignore_ascii_case, opt_text, same_ignoring_ascii_case};

verus! {

#[derive(Debug, Clone)]
pub struct Build {
    pub id: String,
    pub profession: String,
    pub elite_spec: Option<String>,
    pub role: String,
    pub name: String,
    pub source: String,
    pub source_url: String,
    pub chat_code: String,
    pub gear_summary: Option<String>,
    pub weapons: Option<String>,
    pub difficulty: Option<u8>,
    pub notes: Option<String>,
}

/// The builds of `all` for `profession` (compared ignoring ASCII case),
/// in order; every build when no profession is given.
pub open spec fn builds_for(all: Seq<Build>, profession: Option<Seq<char>>) -> Seq<Build>
    decreases all.len(),
{
    if all.len() == 0 {
        Seq::empty()
    } else {
        let prev = builds_for(all.drop_last(), profession);
        match profession {
            Some(p) => if eq_ignore_ascii_case(all.last().profession@, p) {
                prev.push(all.last())
            } else {
                prev
            },
            None => prev.push(all.last()),
        }
    }
}


/// Keep the builds of `profession` (see `builds_for`).
pub fn filter_builds(all: Vec<Build>, profession: Option<String>) -> (r: Vec<Build>)
    ensures
        r@ == builds_for(all@, opt_text(profession)),
{
    let ghost orig = all@;
    let ghost prof = opt_text(profession);
    let n = all.len();
    let mut all = all;
    let mut rev: Vec<Build> = Vec::new();
    while all.len() > 0
        invariant
            all.len() + rev.len() == n == orig.len(),
            forall|k: int| 0 <= k < all.len() ==> #[trigger] all@[k] == orig[k],
            forall|k: int| 0 <= k < rev.len() ==> #[trigger] rev@[k] == orig[n - 1 - k],
        decreases all.len(),
    {
        let b = all.pop().unwrap();
        rev.push(b);
    }
    let mut out: Vec<Build> = Vec::new();
    let mut i: usize = 0;
    while rev.len() > 0
        invariant
            rev.len() + i == n == orig.len(),
            forall|k: int| 0 <= k < rev.len() ==> #[trigger] rev@[k] == orig[n - 1 - k],
            prof == opt_text(profession),
            out@ == builds_for(orig.take(i as int), prof),
        decreases rev.len(),
    {
        assert(orig.take(i + 1).drop_last() == orig.take(i as int));
        assert(orig.take(i + 1).last() == orig[i as int]);
        let b = rev.pop().unwrap();
        let keep = match &profession {
            Some(p) => same_ignoring_ascii_case(b.profession.as_str(), p.as_str()),
            None => true,
        };
        if keep {
            out.push(b);
        }
        i = i + 1;
    }
    assert(orig.take(i as int) == orig);
    out
}

} // verus!
