//! Reductions and scans over segments, and reduction by key.

use vstd::prelude::*;
use crate::channel::{Additive, Channel};
use crate::pairwise::zeros;
use crate::scan::{fold_sum, lemma_fold_one, lemma_fold_split, lemma_fold_update, lemma_fold_zero, tree_fold};

verus! {

/// Lanes of a segment block.
pub const SEGMENT_LANES: usize = 32;

/// The start of the segment that `t` lies in: the last flagged position up to `t`, or zero.
pub open spec fn segment_start(flags: Seq<u32>, t: int) -> int
    decreases t,
{
    if t <= 0 || flags[t] != 0 {
        t
    } else {
        segment_start(flags, t - 1)
    }
}

/// A segment starts at or before each of its positions, and no later position of it is
/// flagged.
proof fn lemma_segment_start(flags: Seq<u32>, t: int)
    requires
        0 <= t,
    ensures
        0 <= segment_start(flags, t) <= t,
        forall|k: int| segment_start(flags, t) < k <= t ==> flags[k] == 0,
        segment_start(flags, t) > 0 ==> flags[segment_start(flags, t)] != 0,
    decreases t,
{
    if t > 0 && flags[t] == 0 {
        lemma_segment_start(flags, t - 1);
    }
}

/// Positions with no flag between them lie in the same segment.
proof fn lemma_same_segment(flags: Seq<u32>, a: int, b: int)
    requires
        0 <= a <= b,
        forall|k: int| a < k <= b ==> flags[k] == 0,
    ensures
        segment_start(flags, b) == segment_start(flags, a),
    decreases b - a,
{
    if a < b {
        lemma_same_segment(flags, a, b - 1);
    }
}

/// The sum of a segment up to `t`: with the element, or without it.
pub open spec fn segment_running_sum<F: Channel>(input: Seq<F>, flags: Seq<u32>, t: int, inclusive: bool) -> F {
    fold_sum(input, segment_start(flags, t), if inclusive { t + 1 } else { t })
}

/// What lane `t` holds after the doubling steps below `s`.
spec fn window_sum<F: Channel>(input: Seq<F>, flags: Seq<u32>, t: int, s: int) -> F {
    let head = segment_start(flags, t);
    fold_sum(input, if head > t + 1 - s { head } else { t + 1 - s }, t + 1)
}

/// Whether a flag lies in the window of lane `t`.
spec fn window_flag(flags: Seq<u32>, t: int, s: int) -> bool {
    exists|k: int| t - s < k <= t && 0 <= k && #[trigger] flags[k] != 0
}

/// One doubling step of a segmented scan.
proof fn lemma_window_step<F: Additive>(input: Seq<F>, flags: Seq<u32>, t: int, s: int)
    requires
        1 <= s,
        0 <= t,
    ensures
        t < s ==> window_sum(input, flags, t, s) == window_sum(input, flags, t, 2 * s),
        t < s ==> window_flag(flags, t, s) == window_flag(flags, t, 2 * s),
        t >= s && window_flag(flags, t, s) ==> window_sum(input, flags, t, s) == window_sum(input, flags, t, 2 * s),
        t >= s && !window_flag(flags, t, s) ==> window_sum(input, flags, t, 2 * s) == window_sum(
            input,
            flags,
            t,
            s,
        ).plus_spec(window_sum(input, flags, t - s, s)),
        t >= s ==> window_flag(flags, t, 2 * s) == (window_flag(flags, t, s) || window_flag(flags, t - s, s)),
{
    lemma_segment_start(flags, t);
    let head = segment_start(flags, t);
    if t >= s {
        if window_flag(flags, t, s) {
            let k = choose|k: int| t - s < k <= t && 0 <= k && #[trigger] flags[k] != 0;
            assert(head >= k);
        } else {
            assert forall|k: int| t - s < k <= t implies flags[k] == 0 by {}
            lemma_same_segment(flags, t - s, t);
            lemma_segment_start(flags, t - s);
            let lo = if head > t + 1 - 2 * s { head } else { t + 1 - 2 * s };
            lemma_fold_split(input, lo, t + 1 - s, t + 1);
            let front = fold_sum(input, lo, t + 1 - s);
            F::sum_laws(fold_sum(input, t + 1 - s, t + 1), front, front);
            assert(head <= t - s);
        }
        if window_flag(flags, t - s, s) {
            let k = choose|k: int| t - s - s < k <= t - s && 0 <= k && #[trigger] flags[k] != 0;
            assert(flags[k] != 0 && t - 2 * s < k <= t);
        }
        if window_flag(flags, t, 2 * s) {
            let k = choose|k: int| t - 2 * s < k <= t && 0 <= k && #[trigger] flags[k] != 0;
            if k <= t - s {
                assert(window_flag(flags, t - s, s));
            } else {
                assert(window_flag(flags, t, s));
            }
        }
    }
}

/// Scans one block of at most `SEGMENT_LANES` elements, segment by segment. A nonzero flag
/// starts a segment.
pub fn segmented_scan_kernel<F: Additive>(input: &[F], flags: &[u32], inclusive: bool) -> (r: Vec<F>)
    requires
        input@.len() == flags@.len(),
        input@.len() <= SEGMENT_LANES,
    ensures
        r@.len() == input@.len(),
        forall|t: int|
            0 <= t < r@.len() ==> #[trigger] r@[t] == segment_running_sum(input@, flags@, t, inclusive),
{
    let n: usize = input.len();
    let mut svals: Vec<F> = Vec::new();
    let mut sflags: Vec<bool> = Vec::new();
    let mut t: usize = 0;
    while t < n
        invariant
            t <= n,
            n == input@.len(),
            n == flags@.len(),
            svals@.len() == t,
            sflags@.len() == t,
            forall|k: int| 0 <= k < t ==> #[trigger] svals@[k] == input@[k],
            forall|k: int| 0 <= k < t ==> #[trigger] sflags@[k] == (flags@[k] != 0),
        decreases n - t,
    {
        svals.push(input[t]);
        sflags.push(flags[t] != 0);
        t = t + 1;
    }
    let mut s: usize = 1;
    proof {
        assert forall|k: int| 0 <= k < n implies #[trigger] svals@[k] == window_sum(input@, flags@, k, 1) by {
            lemma_segment_start(flags@, k);
            lemma_fold_one(input@, k);
        }
        assert forall|k: int| 0 <= k < n implies #[trigger] sflags@[k] == window_flag(flags@, k, 1) by {
            if flags@[k] != 0 {
                assert(window_flag(flags@, k, 1));
            }
        }
    }
    while s < SEGMENT_LANES
        invariant
            1 <= s <= 32,
            s == 1 || s == 2 || s == 4 || s == 8 || s == 16 || s == 32,
            n <= 32,
            n == input@.len(),
            n == flags@.len(),
            svals@.len() == n,
            sflags@.len() == n,
            forall|k: int| 0 <= k < n ==> #[trigger] svals@[k] == window_sum(input@, flags@, k, s as int),
            forall|k: int| 0 <= k < n ==> #[trigger] sflags@[k] == window_flag(flags@, k, s as int),
        decreases 64 - s,
    {
        let mut next_vals: Vec<F> = Vec::new();
        let mut next_flags: Vec<bool> = Vec::new();
        let mut tid: usize = 0;
        while tid < n
            invariant
                tid <= n,
                1 <= s < 32,
                n == input@.len(),
                svals@.len() == n,
                sflags@.len() == n,
                next_vals@.len() == tid,
                next_flags@.len() == tid,
                forall|k: int| 0 <= k < n ==> #[trigger] svals@[k] == window_sum(input@, flags@, k, s as int),
                forall|k: int| 0 <= k < n ==> #[trigger] sflags@[k] == window_flag(flags@, k, s as int),
                forall|k: int| 0 <= k < tid ==> #[trigger] next_vals@[k] == window_sum(input@, flags@, k, 2 * s),
                forall|k: int| 0 <= k < tid ==> #[trigger] next_flags@[k] == window_flag(flags@, k, 2 * s),
            decreases n - tid,
        {
            proof {
                lemma_window_step(input@, flags@, tid as int, s as int);
            }
            let mut v: F = svals[tid];
            let mut f: bool = sflags[tid];
            if tid >= s {
                if !f {
                    v = v.plus(svals[tid - s]);
                }
                if sflags[tid - s] {
                    f = true;
                }
            }
            next_vals.push(v);
            next_flags.push(f);
            tid = tid + 1;
        }
        svals = next_vals;
        sflags = next_flags;
        s = s * 2;
    }
    let mut out: Vec<F> = Vec::new();
    let mut i: usize = 0;
    while i < n
        invariant
            i <= n,
            n <= 32,
            n == input@.len(),
            n == flags@.len(),
            svals@.len() == n,
            forall|k: int| 0 <= k < n ==> #[trigger] svals@[k] == window_sum(input@, flags@, k, 32),
            out@.len() == i,
            forall|k: int| 0 <= k < i ==> #[trigger] out@[k] == segment_running_sum(input@, flags@, k, inclusive),
        decreases n - i,
    {
        proof {
            lemma_segment_start(flags@, i as int);
            let head = segment_start(flags@, i as int);
            let upto = fold_sum(input@, head, i as int);
            F::sum_laws(upto, input@[i as int], upto);
        }
        let incl: F = svals[i];
        let v: F = if inclusive {
            incl
        } else if flags[i] != 0 {
            F::zero()
        } else {
            incl.less(input[i])
        };
        out.push(v);
        i = i + 1;
    }
    out
}

/// Sums the elements `start..end` over lanes that take every `SEGMENT_LANES`th one, and
/// folds the lanes.
fn strided_sum<F: Additive>(input: &[F], start: usize, end: usize) -> (r: F)
    requires
        start <= end <= input@.len(),
    ensures
        r == fold_sum(input@, start as int, end as int),
{
    let mut lanes: Vec<F> = zeros(SEGMENT_LANES);
    proof {
        lemma_fold_zero(lanes@, 0, 32);
    }
    let mut i: usize = start;
    let mut t: usize = 0;
    while i < end
        invariant
            start <= i <= end,
            end <= input@.len(),
            t < 32,
            lanes@.len() == 32,
            fold_sum(lanes@, 0, 32) == fold_sum(input@, start as int, i as int),
        decreases end - i,
    {
        proof {
            lemma_fold_update(lanes@, t as int, input@[i as int]);
        }
        let v: F = lanes[t].plus(input[i]);
        lanes.set(t, v);
        t = if t == 31 { 0 } else { t + 1 };
        i = i + 1;
    }
    tree_fold(lanes)
}

/// Segment offsets that ascend within a column.
pub open spec fn offsets_ascend(seg_offsets: Seq<u32>, n: int) -> bool {
    &&& forall|s: int| #![trigger seg_offsets[s]]
        0 <= s < seg_offsets.len() - 1 ==> seg_offsets[s] <= seg_offsets[s + 1]
    &&& forall|s: int| 0 <= s < seg_offsets.len() ==> #[trigger] seg_offsets[s] <= n
}

/// Sums each segment of a column.
pub fn segmented_reduce_kernel<F: Additive>(input: &[F], seg_offsets: &[u32]) -> (r: Vec<F>)
    requires
        seg_offsets@.len() >= 1,
        offsets_ascend(seg_offsets@, input@.len() as int),
    ensures
        r@.len() == seg_offsets@.len() - 1,
        forall|s: int|
            0 <= s < r@.len() ==> #[trigger] r@[s] == fold_sum(input@, seg_offsets@[s] as int, seg_offsets@[s + 1] as int),
{
    let segments: usize = seg_offsets.len() - 1;
    let mut out: Vec<F> = Vec::new();
    let mut seg: usize = 0;
    while seg < segments
        invariant
            seg <= segments,
            segments == seg_offsets@.len() - 1,
            offsets_ascend(seg_offsets@, input@.len() as int),
            out@.len() == seg,
            forall|s: int|
                0 <= s < seg ==> #[trigger] out@[s] == fold_sum(input@, seg_offsets@[s] as int, seg_offsets@[s + 1] as int),
        decreases segments - seg,
    {
        assert(seg_offsets@[seg as int] <= seg_offsets@[seg + 1]);
        assert(seg_offsets@[seg + 1] <= input@.len());
        out.push(strided_sum(input, seg_offsets[seg] as usize, seg_offsets[seg + 1] as usize));
        seg = seg + 1;
    }
    out
}

/// Whether a key differs from the one before it.
pub open spec fn is_head(keys: Seq<u32>, i: int) -> bool {
    i == 0 || keys[i] != keys[i - 1]
}

/// Flags the first position of every run of equal keys.
pub fn key_head_flag_kernel(keys: &[u32]) -> (r: Vec<u64>)
    ensures
        r@.len() == keys@.len(),
        forall|i: int| 0 <= i < r@.len() ==> #[trigger] r@[i] == if is_head(keys@, i) { 1u64 } else { 0u64 },
{
    let n: usize = keys.len();
    let mut flags: Vec<u64> = Vec::new();
    let mut i: usize = 0;
    while i < n
        invariant
            i <= n,
            n == keys@.len(),
            flags@.len() == i,
            forall|k: int| 0 <= k < i ==> #[trigger] flags@[k] == if is_head(keys@, k) { 1u64 } else { 0u64 },
        decreases n - i,
    {
        let head: u64 = if i == 0 {
            1
        } else if keys[i] != keys[i - 1] {
            1
        } else {
            0
        };
        flags.push(head);
        i = i + 1;
    }
    flags
}

/// Writes the position of each flagged element to the slot of its segment. Where several
/// flagged elements name one slot, the last one stays.
pub fn segment_offset_scatter_kernel(flags: &[u64], seg_ids: &[u64], seg_offsets: &mut Vec<u32>)
    requires
        flags@.len() == seg_ids@.len(),
        flags@.len() <= u32::MAX,
        forall|i: int| 0 <= i < flags@.len() && flags@[i] != 0 ==> #[trigger] seg_ids@[i] < old(seg_offsets)@.len(),
    ensures
        final(seg_offsets)@ == scattered(old(seg_offsets)@, flags@, seg_ids@, flags@.len()),
{
    let ghost init = seg_offsets@;
    let n: usize = flags.len();
    let mut i: usize = 0;
    while i < n
        invariant
            i <= n,
            n == flags@.len(),
            n == seg_ids@.len(),
            n <= u32::MAX,
            seg_offsets@.len() == init.len(),
            seg_offsets@ == scattered(init, flags@, seg_ids@, i as nat),
            forall|k: int| 0 <= k < flags@.len() && flags@[k] != 0 ==> #[trigger] seg_ids@[k] < init.len(),
        decreases n - i,
    {
        if flags[i] != 0 {
            let slots: usize = seg_offsets.len();
            assert(seg_ids@[i as int] < slots);
            seg_offsets.set(seg_ids[i] as usize, i as u32);
        }
        i = i + 1;
    }
}

/// The slots after the first `upto` elements are scattered.
pub open spec fn scattered(init: Seq<u32>, flags: Seq<u64>, seg_ids: Seq<u64>, upto: nat) -> Seq<u32>
    decreases upto,
{
    if upto == 0 {
        init
    } else {
        let rest = scattered(init, flags, seg_ids, (upto - 1) as nat);
        if flags[upto - 1] != 0 {
            rest.update(seg_ids[upto - 1] as int, (upto - 1) as u32)
        } else {
            rest
        }
    }
}

/// The key and the sum of each segment.
pub fn reduce_by_key_kernel<F: Additive>(keys: &[u32], values: &[F], seg_offsets: &[u32]) -> (r: (Vec<u32>, Vec<F>))
    requires
        keys@.len() == values@.len(),
        seg_offsets@.len() >= 1,
        offsets_ascend(seg_offsets@, values@.len() as int),
        forall|s: int| 0 <= s < seg_offsets@.len() - 1 ==> #[trigger] seg_offsets@[s] < keys@.len(),
    ensures
        r.0@.len() == seg_offsets@.len() - 1,
        r.1@.len() == seg_offsets@.len() - 1,
        forall|s: int| 0 <= s < r.0@.len() ==> #[trigger] r.0@[s] == keys@[seg_offsets@[s] as int],
        forall|s: int|
            0 <= s < r.1@.len() ==> #[trigger] r.1@[s] == fold_sum(values@, seg_offsets@[s] as int, seg_offsets@[s + 1] as int),
{
    let segments: usize = seg_offsets.len() - 1;
    let mut out_keys: Vec<u32> = Vec::new();
    let mut seg: usize = 0;
    while seg < segments
        invariant
            seg <= segments,
            segments == seg_offsets@.len() - 1,
            forall|s: int| 0 <= s < seg_offsets@.len() - 1 ==> #[trigger] seg_offsets@[s] < keys@.len(),
            out_keys@.len() == seg,
            forall|s: int| 0 <= s < seg ==> #[trigger] out_keys@[s] == keys@[seg_offsets@[s] as int],
        decreases segments - seg,
    {
        assert(seg_offsets@[seg as int] < keys@.len());
        out_keys.push(keys[seg_offsets[seg] as usize]);
        seg = seg + 1;
    }
    (out_keys, segmented_reduce_kernel(values, seg_offsets))
}

/// The segment sums add up to the words between the first offset and the last.
pub proof fn law_segments_keep_the_total<F: Additive>(values: Seq<F>, seg_offsets: Seq<u32>, sums: Seq<F>)
    requires
        seg_offsets.len() >= 1,
        offsets_ascend(seg_offsets, values.len() as int),
        sums.len() == seg_offsets.len() - 1,
        forall|s: int|
            0 <= s < sums.len() ==> #[trigger] sums[s] == fold_sum(values, seg_offsets[s] as int, seg_offsets[s + 1] as int),
    ensures
        fold_sum(sums, 0, sums.len() as int) == fold_sum(values, seg_offsets[0] as int, seg_offsets.last() as int),
{
    lemma_segment_prefix(values, seg_offsets, sums, sums.len() as int);
}

proof fn lemma_segment_prefix<F: Additive>(values: Seq<F>, seg_offsets: Seq<u32>, sums: Seq<F>, k: int)
    requires
        seg_offsets.len() >= 1,
        offsets_ascend(seg_offsets, values.len() as int),
        sums.len() == seg_offsets.len() - 1,
        0 <= k <= sums.len(),
        forall|s: int|
            0 <= s < sums.len() ==> #[trigger] sums[s] == fold_sum(values, seg_offsets[s] as int, seg_offsets[s + 1] as int),
    ensures
        seg_offsets[0] <= seg_offsets[k],
        fold_sum(sums, 0, k) == fold_sum(values, seg_offsets[0] as int, seg_offsets[k] as int),
    decreases k,
{
    if k > 0 {
        lemma_segment_prefix(values, seg_offsets, sums, k - 1);
        let a = seg_offsets[0] as int;
        let m = seg_offsets[k - 1] as int;
        let b = seg_offsets[k] as int;
        assert(seg_offsets[k - 1] <= seg_offsets[(k - 1) + 1]);
        lemma_fold_split(values, a, m, b);
    }
}

} // verus!
