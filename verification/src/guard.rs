//! Range checks on host columns.

use vstd::prelude::*;

verus! {

/// The first entry of `lo..hi` that is not below `bound`.
pub open spec fn first_from(s: Seq<u32>, lo: int, hi: int, bound: int) -> Option<u32>
    decreases hi - lo,
{
    if lo >= hi {
        None
    } else if s[lo] >= bound {
        Some(s[lo])
    } else {
        first_from(s, lo + 1, hi, bound)
    }
}

/// The first entry that is not below `bound`.
pub open spec fn first_at_least(s: Seq<u32>, bound: int) -> Option<u32> {
    first_from(s, 0, s.len() as int, bound)
}

/// No entry is found exactly where all are below the bound.
pub proof fn lemma_first_from(s: Seq<u32>, lo: int, hi: int, bound: int)
    ensures
        first_from(s, lo, hi, bound) is None <==> forall|k: int| lo <= k < hi ==> #[trigger] s[k] < bound,
        first_from(s, lo, hi, bound) is Some ==> first_from(s, lo, hi, bound)->0 >= bound,
    decreases hi - lo,
{
    if lo < hi && s[lo] < bound {
        lemma_first_from(s, lo + 1, hi, bound);
        if first_from(s, lo + 1, hi, bound) is Some {
            assert(exists|k: int| lo + 1 <= k < hi && s[k] >= bound);
        }
    }
}

/// Finds the first entry of `lo..hi` that is not below `bound`.
pub fn find_from(s: &[u32], lo: usize, hi: usize, bound: usize) -> (r: Option<u32>)
    requires
        lo <= hi <= s@.len(),
    ensures
        r == first_from(s@, lo as int, hi as int, bound as int),
{
    let mut k: usize = lo;
    while k < hi
        invariant
            lo <= k <= hi,
            hi <= s@.len(),
            first_from(s@, lo as int, hi as int, bound as int) == first_from(s@, k as int, hi as int, bound as int),
        decreases hi - k,
    {
        if s[k] as usize >= bound {
            return Some(s[k]);
        }
        k = k + 1;
    }
    None
}

/// Finds the first entry that is not below `bound`.
pub fn find_at_least(s: &[u32], bound: usize) -> (r: Option<u32>)
    ensures
        r == first_at_least(s@, bound as int),
{
    find_from(s, 0, s.len(), bound)
}

} // verus!
