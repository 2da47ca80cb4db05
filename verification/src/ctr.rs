//! Categorical columns: how their categories are joined, and how the binarized columns and
//! the block winners come back from the device.

use vstd::prelude::*;
use crate::channel::Real;
use crate::split::{beats, best_of_blocks, named};

verus! {

/// The word that four bytes hold, the first byte lowest or highest.
pub open spec fn word_at(bytes: Seq<u8>, w: int, first_lowest: bool) -> u32 {
    if first_lowest {
        (bytes[4 * w] + 0x100 * bytes[4 * w + 1] + 0x1_0000 * bytes[4 * w + 2] + 0x100_0000 * bytes[4 * w
            + 3]) as u32
    } else {
        (bytes[4 * w + 3] + 0x100 * bytes[4 * w + 2] + 0x1_0000 * bytes[4 * w + 1] + 0x100_0000 * bytes[4
            * w]) as u32
    }
}

/// The words of a byte buffer.
pub open spec fn words_of(bytes: Seq<u8>, first_lowest: bool) -> Seq<u32> {
    Seq::new(bytes.len() / 4, |w: int| word_at(bytes, w, first_lowest))
}

/// The words are those of the buffer, in the byte order of some machine.
pub open spec fn reads_back(bytes: Seq<u8>, words: Seq<u32>) -> bool {
    words == words_of(bytes, true) || words == words_of(bytes, false)
}

/// Calls `bytemuck::pod_collect_to_vec`, which copies the bytes of a slice into a vector of
/// words that is just large enough. A buffer of whole words gives one word for every four
/// bytes, and no other. Which byte of a word is its lowest depends on the machine, so the
/// contract leaves that open; it says that all words are read in the same order.
#[verifier::external_body]
fn collect_words(bytes: &[u8]) -> (r: Vec<u32>)
    requires
        bytes@.len() % 4 == 0,
    ensures
        reads_back(bytes@, r@),
{
    bytemuck::pod_collect_to_vec::<u8, u32>(bytes)
}

/// The binarized columns, from the buffers that the device gave back.
pub fn read_ctr_columns(buffers: &[Vec<u8>]) -> (r: Vec<Vec<u32>>)
    requires
        forall|c: int| 0 <= c < buffers@.len() ==> (#[trigger] buffers@[c])@.len() % 4 == 0,
    ensures
        r@.len() == buffers@.len(),
        forall|c: int| 0 <= c < buffers@.len() ==> reads_back(buffers@[c]@, (#[trigger] r@[c])@),
{
    let n: usize = buffers.len();
    let mut columns: Vec<Vec<u32>> = Vec::new();
    let mut c: usize = 0;
    while c < n
        invariant
            c <= n,
            n == buffers@.len(),
            forall|c: int| 0 <= c < buffers@.len() ==> (#[trigger] buffers@[c])@.len() % 4 == 0,
            columns@.len() == c,
            forall|k: int| 0 <= k < c ==> reads_back(buffers@[k]@, (#[trigger] columns@[k])@),
        decreases n - c,
    {
        assert(buffers@[c as int]@.len() % 4 == 0);
        columns.push(collect_words(buffers[c].as_slice()));
        c = c + 1;
    }
    columns
}

/// The best of the block winners whose indices the device gave back.
pub open spec fn is_best_of<F: Real>(scores: Seq<F>, idxs: Seq<u32>, r: Option<u32>) -> bool {
    &&& r is None <==> forall|b: int| !(#[trigger] named(scores, idxs, b))
    &&& r is Some ==> exists|b: int| #[trigger] named(scores, idxs, b) && idxs[b] == r->0
    &&& r is Some ==> forall|b: int| #[trigger]
        named(scores, idxs, b) ==> beats(scores[r->0 as int], r->0 as int, scores[idxs[b] as int], idxs[b] as int)
}

/// Selects the best of the block winners, from the buffer of their indices. The scores
/// decide; the gains that the blocks computed do not.
pub fn select_from_readback<F: Real>(scores: &[F], best_idx_bytes: &[u8]) -> (r: Option<u32>)
    requires
        scores@.len() <= u32::MAX,
        best_idx_bytes@.len() % 4 == 0,
    ensures
        is_best_of(scores@, words_of(best_idx_bytes@, true), r) || is_best_of(
            scores@,
            words_of(best_idx_bytes@, false),
            r,
        ),
{
    let idxs: Vec<u32> = collect_words(best_idx_bytes);
    best_of_blocks(scores, idxs.as_slice())
}

/// How the categories of a column become one bin column.
pub enum CtrFold {
    /// The bins of the only member, and one more than the highest of them.
    Single { bins: Vec<u32>, buckets: usize },
    /// The members have to be combined.
    Combine,
}

/// One more than the highest bin; zero without bins.
pub open spec fn bucket_count(bins: Seq<u32>) -> nat
    decreases bins.len(),
{
    if bins.len() == 0 {
        0
    } else {
        let rest = bucket_count(bins.drop_last());
        if bins.last() >= rest {
            (bins.last() + 1) as nat
        } else {
            rest
        }
    }
}

/// Every bin lies in a bucket, and the last bucket is not empty.
pub proof fn law_buckets_hold_every_bin(bins: Seq<u32>)
    ensures
        forall|i: int| 0 <= i < bins.len() ==> #[trigger] bins[i] < bucket_count(bins),
        bins.len() > 0 ==> exists|i: int| 0 <= i < bins.len() && #[trigger] bins[i] + 1 == bucket_count(bins),
    decreases bins.len(),
{
    if bins.len() > 0 {
        let rest = bins.drop_last();
        law_buckets_hold_every_bin(rest);
        assert forall|i: int| 0 <= i < bins.len() implies #[trigger] bins[i] < bucket_count(bins) by {
            if i < rest.len() {
                assert(rest[i] == bins[i]);
            }
        }
        if bins.last() >= bucket_count(rest) {
            assert(bins[bins.len() - 1] + 1 == bucket_count(bins));
        } else {
            let i = choose|i: int| 0 <= i < rest.len() && #[trigger] rest[i] + 1 == bucket_count(rest);
            assert(bins[i] + 1 == bucket_count(bins));
        }
    }
}

/// Decides how the members of a categorical column become one bin column.
pub fn ctr_fold(member_bins: &[Vec<u32>]) -> (r: CtrFold)
    requires
        member_bins@.len() == 1 ==> bucket_count(member_bins@[0]@) <= usize::MAX,
    ensures
        if member_bins@.len() == 1 {
            r matches CtrFold::Single { bins, buckets } && bins@ == member_bins@[0]@ && buckets == bucket_count(
                member_bins@[0]@,
            )
        } else {
            r is Combine
        },
{
    if member_bins.len() != 1 {
        return CtrFold::Combine;
    }
    let source: &Vec<u32> = &member_bins[0];
    let n: usize = source.len();
    let mut bins: Vec<u32> = Vec::new();
    let mut buckets: u64 = 0;
    let mut i: usize = 0;
    assert(bins@ =~= source@.subrange(0, 0));
    while i < n
        invariant
            i <= n,
            n == source@.len(),
            bins@ == source@.subrange(0, i as int),
            buckets == bucket_count(source@.subrange(0, i as int)),
        decreases n - i,
    {
        let b: u32 = source[i];
        bins.push(b);
        proof {
            let next = source@.subrange(0, i + 1);
            assert(next.drop_last() =~= source@.subrange(0, i as int));
            assert(next.last() == b);
            assert(bins@ =~= next);
        }
        if b as u64 >= buckets {
            buckets = b as u64 + 1;
        }
        i = i + 1;
    }
    assert(source@.subrange(0, n as int) =~= source@);
    CtrFold::Single { bins, buckets: buckets as usize }
}

} // verus!
