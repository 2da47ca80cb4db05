//! Block reductions and prefix sums.
//!
//! The summands are [`Additive`]: their sums depend neither on their order nor on how they
//! are grouped into lanes, planes and blocks.

use vstd::prelude::*;
use crate::channel::{Additive, Channel, Fixed, Real, law_fixed_words_are_exact};
use crate::modular::{lemma_wrap_add, lemma_wrap_small, wrap};
use crate::pairwise::zeros;

verus! {

/// Lanes of a plane.
pub const PLANE_DIM: usize = 32;

/// Elements of a scan block.
pub const SCAN_CUBE_DIM: usize = 32;

/// Most lanes of a reduction block.
pub const BLOCK_REDUCE_SHMEM: usize = 256;

/// A lane count that halves down to one.
pub open spec fn lane_count(x: int) -> bool {
    x == 1 || x == 2 || x == 4 || x == 8 || x == 16 || x == 32 || x == 64 || x == 128 || x == 256
}

/// The sum of the elements `lo..hi`, from the first to the last.
pub open spec fn fold_sum<F: Channel>(s: Seq<F>, lo: int, hi: int) -> F
    decreases hi - lo,
{
    if hi <= lo {
        F::zero_spec()
    } else {
        fold_sum(s, lo, hi - 1).plus_spec(s[hi - 1])
    }
}

/// The sum of the words `lo..hi`, as a number.
pub open spec fn range_sum(s: Seq<u64>, lo: int, hi: int) -> int
    decreases hi - lo,
{
    if hi <= lo {
        0
    } else {
        range_sum(s, lo, hi - 1) + s[hi - 1]
    }
}

/// A sum of words is what their number wraps to.
pub proof fn lemma_fold_is_wrapped(s: Seq<u64>, lo: int, hi: int)
    ensures
        fold_sum(s, lo, hi) == wrap(range_sum(s, lo, hi)),
    decreases hi - lo,
{
    if lo < hi {
        lemma_fold_is_wrapped(s, lo, hi - 1);
        lemma_wrap_add(range_sum(s, lo, hi - 1), s[hi - 1] as int);
    } else {
        lemma_wrap_small(0);
    }
}

/// Neighbouring ranges add up.
pub proof fn lemma_fold_split<F: Additive>(s: Seq<F>, lo: int, mid: int, hi: int)
    requires
        lo <= mid <= hi,
    ensures
        fold_sum(s, lo, mid).plus_spec(fold_sum(s, mid, hi)) == fold_sum(s, lo, hi),
    decreases hi - mid,
{
    let front = fold_sum(s, lo, mid);
    F::sum_laws(front, front, front);
    if mid < hi {
        lemma_fold_split(s, lo, mid, hi - 1);
        F::sum_laws(front, fold_sum(s, mid, hi - 1), s[hi - 1]);
    }
}

/// The sum of one element is the element.
pub proof fn lemma_fold_one<F: Additive>(s: Seq<F>, i: int)
    ensures
        fold_sum(s, i, i + 1) == s[i],
{
    reveal_with_fuel(fold_sum, 2);
    F::sum_laws(s[i], F::zero_spec(), s[i]);
}

/// Sequences that agree on a range have the same sum over it.
pub proof fn lemma_fold_same<F: Channel>(a: Seq<F>, b: Seq<F>, lo: int, hi: int)
    requires
        forall|k: int| lo <= k < hi ==> a[k] == b[k],
    ensures
        fold_sum(a, lo, hi) == fold_sum(b, lo, hi),
    decreases hi - lo,
{
    if lo < hi {
        lemma_fold_same(a, b, lo, hi - 1);
    }
}

/// A range of zeros sums to zero.
pub proof fn lemma_fold_zero<F: Additive>(s: Seq<F>, lo: int, hi: int)
    requires
        forall|k: int| lo <= k < hi ==> s[k] == F::zero_spec(),
    ensures
        fold_sum(s, lo, hi) == F::zero_spec(),
    decreases hi - lo,
{
    if lo < hi {
        lemma_fold_zero(s, lo, hi - 1);
        F::sum_laws(F::zero_spec(), F::zero_spec(), F::zero_spec());
    }
}

/// Adding two sums element by element.
proof fn lemma_crossed<F: Additive>(a: F, b: F, x: F, y: F)
    ensures
        a.plus_spec(b).plus_spec(x.plus_spec(y)) == a.plus_spec(x).plus_spec(b.plus_spec(y)),
{
    F::sum_laws(a.plus_spec(b), x, y);
    F::sum_laws(a, b, x);
    F::sum_laws(b, x, a);
    F::sum_laws(a, x, b);
    F::sum_laws(a.plus_spec(x), b, y);
}

/// Changing one element changes a sum by as much.
pub proof fn lemma_fold_update<F: Additive>(s: Seq<F>, i: int, v: F)
    requires
        0 <= i < s.len(),
    ensures
        fold_sum(s.update(i, s[i].plus_spec(v)), 0, s.len() as int) == fold_sum(s, 0, s.len() as int).plus_spec(v),
{
    let t = s.update(i, s[i].plus_spec(v));
    let n = s.len() as int;
    lemma_fold_split(s, 0, i, i + 1);
    lemma_fold_split(s, 0, i + 1, n);
    lemma_fold_split(t, 0, i, i + 1);
    lemma_fold_split(t, 0, i + 1, n);
    lemma_fold_same(s, t, 0, i);
    lemma_fold_same(s, t, i + 1, n);
    lemma_fold_one(s, i);
    lemma_fold_one(t, i);
    let a = fold_sum(s, 0, i);
    let b = fold_sum(s, i + 1, n);
    F::sum_laws(a, s[i], v);
    F::sum_laws(a.plus_spec(s[i]), v, b);
    F::sum_laws(v, b, a);
    F::sum_laws(a.plus_spec(s[i]), b, v);
}

/// Exchanging two elements does not change a sum.
pub proof fn law_sum_ignores_order<F: Additive>(s: Seq<F>, i: int, j: int)
    requires
        0 <= i < j < s.len(),
    ensures
        fold_sum(s.update(i, s[j]).update(j, s[i]), 0, s.len() as int) == fold_sum(s, 0, s.len() as int),
{
    let t = s.update(i, s[j]).update(j, s[i]);
    let n = s.len() as int;
    lemma_two_apart(s, i, j);
    lemma_two_apart(t, i, j);
    lemma_fold_same(s, t, 0, i);
    lemma_fold_same(s, t, i + 1, j);
    lemma_fold_same(s, t, j + 1, n);
    let a = fold_sum(s, 0, i);
    let m = fold_sum(s, i + 1, j);
    let x = s[i];
    let y = s[j];
    F::sum_laws(a, x, m);
    F::sum_laws(a, x.plus_spec(m), y);
    F::sum_laws(x, m, y);
    F::sum_laws(m, y, x);
    F::sum_laws(y, m, x);
    F::sum_laws(x, m.plus_spec(y), x);
    F::sum_laws(a, y.plus_spec(m), x);
    F::sum_laws(a, y, m);
}

/// A sum with two of its elements apart.
proof fn lemma_two_apart<F: Additive>(s: Seq<F>, i: int, j: int)
    requires
        0 <= i < j < s.len(),
    ensures
        fold_sum(s, 0, s.len() as int) == fold_sum(s, 0, i).plus_spec(s[i]).plus_spec(fold_sum(s, i + 1, j)).plus_spec(
            s[j],
        ).plus_spec(fold_sum(s, j + 1, s.len() as int)),
{
    let n = s.len() as int;
    lemma_fold_split(s, 0, i, i + 1);
    lemma_fold_split(s, 0, i + 1, j);
    lemma_fold_split(s, 0, j, j + 1);
    lemma_fold_split(s, 0, j + 1, n);
    lemma_fold_one(s, i);
    lemma_fold_one(s, j);
}

/// The end of a block of `cube_dim` elements.
pub open spec fn block_end(n: int, cube_pos: int, cube_dim: int) -> int {
    if (cube_pos + 1) * cube_dim < n {
        (cube_pos + 1) * cube_dim
    } else {
        n
    }
}

/// The elements of one block, padded with zeros to `cube_dim` lanes.
fn load_block<F: Channel>(input: &[F], cube_pos: usize, cube_dim: usize) -> (r: Vec<F>)
    requires
        0 < cube_dim <= BLOCK_REDUCE_SHMEM,
        cube_pos * cube_dim <= input@.len(),
    ensures
        r@.len() == cube_dim,
        forall|t: int|
            0 <= t < cube_dim ==> #[trigger] r@[t] == if cube_pos * cube_dim + t < input@.len() {
                input@[cube_pos * cube_dim + t]
            } else {
                F::zero_spec()
            },
{
    let n: usize = input.len();
    let start: usize = cube_pos * cube_dim;
    let mut lanes: Vec<F> = Vec::new();
    let mut t: usize = 0;
    while t < cube_dim
        invariant
            t <= cube_dim,
            n == input@.len(),
            start == cube_pos * cube_dim,
            start <= n,
            lanes@.len() == t,
            forall|k: int|
                0 <= k < t ==> #[trigger] lanes@[k] == if start + k < n {
                    input@[start + k]
                } else {
                    F::zero_spec()
                },
        decreases cube_dim - t,
    {
        let v: F = if t < n - start {
            input[start + t]
        } else {
            F::zero()
        };
        lanes.push(v);
        t = t + 1;
    }
    lanes
}

/// The padded lanes of a block sum to the block.
proof fn lemma_block_sum<F: Additive>(input: Seq<F>, lanes: Seq<F>, start: int, cube_dim: int, upto: int)
    requires
        0 <= start <= input.len(),
        lanes.len() == cube_dim,
        0 <= upto <= cube_dim,
        forall|t: int|
            0 <= t < cube_dim ==> #[trigger] lanes[t] == if start + t < input.len() {
                input[start + t]
            } else {
                F::zero_spec()
            },
    ensures
        fold_sum(lanes, 0, upto) == fold_sum(
            input,
            start,
            if start + upto < input.len() { start + upto } else { input.len() as int },
        ),
    decreases upto,
{
    if upto > 0 {
        lemma_block_sum(input, lanes, start, cube_dim, upto - 1);
        F::sum_laws(fold_sum(lanes, 0, upto - 1), F::zero_spec(), F::zero_spec());
        assert(lanes[upto - 1] == if start + (upto - 1) < input.len() { input[start + (upto - 1)] } else { F::zero_spec() });
    }
}

/// Folds the lanes pairwise until one is left.
pub(crate) fn tree_fold<F: Additive>(lanes: Vec<F>) -> (r: F)
    requires
        lane_count(lanes@.len() as int),
    ensures
        r == fold_sum(lanes@, 0, lanes@.len() as int),
{
    let ghost total = fold_sum(lanes@, 0, lanes@.len() as int);
    let mut shared: Vec<F> = lanes;
    let mut s: usize = shared.len() / 2;
    let ghost mut cover: int = shared@.len() as int;
    while s > 0
        invariant
            lane_count(cover),
            s == cover / 2,
            cover <= shared@.len() <= 256,
            fold_sum(shared@, 0, cover) == total,
        decreases s,
    {
        let ghost before = shared@;
        let mut tid: usize = 0;
        proof {
            F::sum_laws(F::zero_spec(), F::zero_spec(), F::zero_spec());
        }
        while tid < s
            invariant
                tid <= s,
                2 * s == cover,
                cover <= before.len(),
                shared@.len() == before.len(),
                before.len() <= 256,
                forall|k: int| tid <= k < before.len() ==> #[trigger] shared@[k] == before[k],
                fold_sum(shared@, 0, tid as int) == fold_sum(before, 0, tid as int).plus_spec(
                    fold_sum(before, s as int, s + tid),
                ),
            decreases s - tid,
        {
            let v: F = shared[tid + s];
            let sum: F = shared[tid].plus(v);
            let ghost prev = shared@;
            shared.set(tid, sum);
            proof {
                lemma_fold_same(prev, shared@, 0, tid as int);
                lemma_crossed(
                    fold_sum(before, 0, tid as int),
                    fold_sum(before, s as int, s + tid),
                    before[tid as int],
                    before[tid + s],
                );
            }
            tid = tid + 1;
        }
        proof {
            lemma_fold_split(before, 0, s as int, 2 * s);
            cover = s as int;
        }
        s = s / 2;
    }
    proof {
        lemma_fold_one(shared@, 0);
    }
    shared[0]
}

/// The sum of one plane of lanes.
fn plane_sum<F: Channel>(lanes: &Vec<F>, plane: usize) -> (r: F)
    requires
        (plane + 1) * 32 <= lanes@.len(),
        lanes@.len() <= BLOCK_REDUCE_SHMEM,
    ensures
        r == fold_sum(lanes@, plane * 32, plane * 32 + 32),
{
    let mut acc: F = F::zero();
    let mut t: usize = 0;
    while t < 32
        invariant
            t <= 32,
            (plane + 1) * 32 <= lanes@.len(),
            lanes@.len() <= 256,
            acc == fold_sum(lanes@, plane * 32, plane * 32 + t),
        decreases 32 - t,
    {
        acc = acc.plus(lanes[plane * 32 + t]);
        t = t + 1;
    }
    acc
}

/// The sums of the planes of a block.
fn plane_totals<F: Channel>(lanes: &Vec<F>) -> (r: Vec<F>)
    requires
        lanes@.len() <= BLOCK_REDUCE_SHMEM,
        lanes@.len() % 32 == 0,
    ensures
        r@.len() == lanes@.len() / 32,
        forall|p: int| 0 <= p < r@.len() ==> #[trigger] r@[p] == fold_sum(lanes@, p * 32, p * 32 + 32),
{
    let planes: usize = lanes.len() / 32;
    let mut totals: Vec<F> = Vec::new();
    let mut p: usize = 0;
    while p < planes
        invariant
            p <= planes,
            planes == lanes@.len() / 32,
            lanes@.len() <= 256,
            totals@.len() == p,
            forall|k: int| 0 <= k < p ==> #[trigger] totals@[k] == fold_sum(lanes@, k * 32, k * 32 + 32),
        decreases planes - p,
    {
        totals.push(plane_sum(lanes, p));
        p = p + 1;
    }
    totals
}

/// The first planes sum to their lanes.
proof fn lemma_plane_prefix<F: Additive>(lanes: Seq<F>, totals: Seq<F>, p: int)
    requires
        0 <= p <= totals.len(),
        forall|k: int| 0 <= k < totals.len() ==> #[trigger] totals[k] == fold_sum(lanes, k * 32, k * 32 + 32),
    ensures
        fold_sum(totals, 0, p) == fold_sum(lanes, 0, p * 32),
    decreases p,
{
    if p > 0 {
        lemma_plane_prefix(lanes, totals, p - 1);
        let q = p - 1;
        lemma_fold_split(lanes, 0, q * 32, q * 32 + 32);
    }
}

/// Sums one block, by planes or by a tree of lanes.
pub fn block_reduce_kernel<F: Additive>(input: &[F], cube_pos: usize, cube_dim: usize, use_plane: bool) -> (r: F)
    requires
        lane_count(cube_dim as int),
        use_plane ==> cube_dim >= 32,
        cube_pos * cube_dim <= input@.len(),
    ensures
        r == fold_sum(input@, cube_pos * cube_dim, block_end(input@.len() as int, cube_pos as int, cube_dim as int)),
{
    let lanes: Vec<F> = load_block(input, cube_pos, cube_dim);
    proof {
        lemma_block_sum(input@, lanes@, cube_pos * cube_dim, cube_dim as int, cube_dim as int);
        assert((cube_pos + 1) * cube_dim == cube_pos * cube_dim + cube_dim) by (nonlinear_arith);
    }
    if use_plane {
        let totals: Vec<F> = plane_totals(&lanes);
        let planes: usize = totals.len();
        let mut sum: F = F::zero();
        let mut p: usize = 0;
        while p < planes
            invariant
                p <= planes,
                planes == totals@.len(),
                sum == fold_sum(totals@, 0, p as int),
            decreases planes - p,
        {
            sum = sum.plus(totals[p]);
            p = p + 1;
        }
        proof {
            lemma_plane_prefix(lanes@, totals@, totals@.len() as int);
        }
        sum
    } else {
        tree_fold(lanes)
    }
}

/// Adds the sum of one block to an accumulator.
pub fn block_reduce_atomic_kernel<F: Additive>(
    input: &[F],
    acc: &mut F,
    cube_pos: usize,
    cube_dim: usize,
    use_plane: bool,
)
    requires
        lane_count(cube_dim as int),
        use_plane ==> cube_dim >= 32,
        cube_pos * cube_dim <= input@.len(),
    ensures
        *final(acc) == old(acc).plus_spec(
            fold_sum(input@, cube_pos * cube_dim, block_end(input@.len() as int, cube_pos as int, cube_dim as int)),
        ),
{
    let part: F = block_reduce_kernel(input, cube_pos, cube_dim, use_plane);
    *acc = acc.plus(part);
}

/// The blocks of a column.
pub open spec fn cube_count(n: int, cube_dim: int) -> int {
    (n + cube_dim - 1) / cube_dim
}

/// The fixed-point words of the block sums of a column.
pub open spec fn block_words<F: Real>(input: Seq<F>, cube_dim: int) -> Seq<u64> {
    Seq::new(
        cube_count(input.len() as int, cube_dim) as nat,
        |c: int| fold_sum(input, c * cube_dim, block_end(input.len() as int, c, cube_dim)).encode_spec(),
    )
}

/// Sums a column in fixed point: each block is summed, and the words of the block sums are
/// added to one accumulator.
pub fn block_reduce_fixedpoint_kernel<F: Real + Additive>(input: &[F], cube_dim: usize) -> (r: u64)
    requires
        lane_count(cube_dim as int),
    ensures
        r == fold_sum(
            block_words(input@, cube_dim as int),
            0,
            cube_count(input@.len() as int, cube_dim as int),
        ),
{
    let n: usize = input.len();
    let mut acc: u64 = 0;
    let mut cube: usize = 0;
    let mut start: usize = 0;
    proof {
        lemma_cubes(n as int, cube_dim as int, 0);
    }
    while start < n
        invariant
            n == input@.len(),
            lane_count(cube_dim as int),
            start <= n,
            cube <= start,
            start < n ==> start == cube * cube_dim,
            start == n ==> cube == cube_count(n as int, cube_dim as int),
            cube <= cube_count(n as int, cube_dim as int),
            acc == fold_sum(block_words(input@, cube_dim as int), 0, cube as int),
        decreases n - start,
    {
        proof {
            lemma_cubes(n as int, cube_dim as int, cube as int);
            assert((cube + 1) * cube_dim == cube * cube_dim + cube_dim) by (nonlinear_arith);
        }
        let part: F = block_reduce_kernel(input, cube, cube_dim, false);
        assert(block_words(input@, cube_dim as int)[cube as int] == part.encode_spec());
        acc = acc.plus(part.encode());
        start = if n - start > cube_dim { start + cube_dim } else { n };
        cube = cube + 1;
    }
    acc
}

/// Where a block lies relative to the last one.
proof fn lemma_cubes(n: int, cube_dim: int, cube: int)
    requires
        0 <= n,
        0 < cube_dim,
        0 <= cube,
    ensures
        cube * cube_dim < n ==> cube < cube_count(n, cube_dim),
        cube * cube_dim < n <= (cube + 1) * cube_dim ==> cube + 1 == cube_count(n, cube_dim),
        0 <= cube_count(n, cube_dim),
        n == 0 ==> cube_count(n, cube_dim) == 0,
{
    let x = n + cube_dim - 1;
    let q = x / cube_dim;
    vstd::arithmetic::div_mod::lemma_fundamental_div_mod(x, cube_dim);
    let r = x % cube_dim;
    assert(0 <= r < cube_dim);
    assert(cube * cube_dim < n ==> cube < q) by (nonlinear_arith)
        requires
            x == cube_dim * q + r,
            0 <= r < cube_dim,
            x == n + cube_dim - 1,
            0 < cube_dim,
    ;
    assert(n <= (cube + 1) * cube_dim ==> q <= cube + 1) by (nonlinear_arith)
        requires
            x == cube_dim * q + r,
            0 <= r < cube_dim,
            x == n + cube_dim - 1,
            0 < cube_dim,
    ;
    assert(0 <= q) by (nonlinear_arith)
        requires
            x == cube_dim * q + r,
            0 <= r < cube_dim,
            x >= 0,
            0 < cube_dim,
    ;
    assert(n == 0 ==> q <= 0) by (nonlinear_arith)
        requires
            x == cube_dim * q + r,
            0 <= r < cube_dim,
            x == n + cube_dim - 1,
            0 < cube_dim,
    ;
}

/// In fixed point the blocked sum of a column is exact: read back, it is the sum of the
/// column.
pub proof fn law_fixedpoint_reduction_is_exact(input: Seq<Fixed>, cube_dim: int)
    requires
        0 < cube_dim,
    ensures
        Fixed::decode_spec(
            fold_sum(block_words(input, cube_dim), 0, cube_count(input.len() as int, cube_dim)),
        ) == fold_sum(input, 0, input.len() as int),
{
    let n = input.len() as int;
    let m = cube_count(n, cube_dim);
    lemma_cubes(n, cube_dim, 0);
    if n > 0 {
        lemma_words_prefix(input, cube_dim, m - 1);
        lemma_last_cube(n, cube_dim);
    }
    lemma_words_prefix(input, cube_dim, m);
}

proof fn lemma_last_cube(n: int, cube_dim: int)
    requires
        0 < n,
        0 < cube_dim,
    ensures
        (cube_count(n, cube_dim) - 1) * cube_dim < n <= cube_count(n, cube_dim) * cube_dim,
{
    let x = n + cube_dim - 1;
    let q = x / cube_dim;
    let r = x % cube_dim;
    vstd::arithmetic::div_mod::lemma_fundamental_div_mod(x, cube_dim);
    assert((q - 1) * cube_dim < n <= q * cube_dim) by (nonlinear_arith)
        requires
            x == cube_dim * q + r,
            0 <= r < cube_dim,
            x == n + cube_dim - 1,
    ;
}

/// The end of the first `c` blocks.
spec fn blocks_end(n: int, cube_dim: int, c: int) -> int {
    if c * cube_dim < n {
        c * cube_dim
    } else {
        n
    }
}

proof fn lemma_words_prefix(input: Seq<Fixed>, cube_dim: int, c: int)
    requires
        0 < cube_dim,
        0 <= c <= cube_count(input.len() as int, cube_dim),
    ensures
        Fixed::decode_spec(fold_sum(block_words(input, cube_dim), 0, c)) == fold_sum(
            input,
            0,
            blocks_end(input.len() as int, cube_dim, c),
        ),
        fold_sum(block_words(input, cube_dim), 0, c) == fold_sum(
            input,
            0,
            blocks_end(input.len() as int, cube_dim, c),
        ).encode_spec(),
    decreases c,
{
    let n = input.len() as int;
    let words = block_words(input, cube_dim);
    let zero = Fixed { raw: 0 };
    law_fixed_words_are_exact(zero, zero);
    if c > 0 {
        let q = c - 1;
        lemma_words_prefix(input, cube_dim, q);
        lemma_last_cube_of(n, cube_dim, q);
        let lo = q * cube_dim;
        let hi = block_end(n, q, cube_dim);
        assert((q + 1) * cube_dim == lo + cube_dim) by (nonlinear_arith)
            requires
                lo == q * cube_dim,
        ;
        lemma_fold_split(input, 0, lo, hi);
        let a = fold_sum(input, 0, lo);
        let b = fold_sum(input, lo, hi);
        law_fixed_words_are_exact(a, b);
        law_fixed_words_are_exact(a.plus_spec(b), zero);
        assert(words[q] == b.encode_spec());
        lemma_encode_adds(a, b);
        assert((q + 1) * cube_dim == c * cube_dim);
    } else {
        lemma_wrap_small(0);
        assert(0 * cube_dim == 0);
    }
}

proof fn lemma_last_cube_of(n: int, cube_dim: int, q: int)
    requires
        0 < cube_dim,
        0 <= n,
        0 <= q < cube_count(n, cube_dim),
    ensures
        q * cube_dim < n,
        0 <= q * cube_dim,
{
    let x = n + cube_dim - 1;
    let m = x / cube_dim;
    let r = x % cube_dim;
    vstd::arithmetic::div_mod::lemma_fundamental_div_mod(x, cube_dim);
    assert(q * cube_dim < n) by (nonlinear_arith)
        requires
            x == cube_dim * m + r,
            0 <= r < cube_dim,
            x == n + cube_dim - 1,
            q + 1 <= m,
            0 < cube_dim,
    ;
    assert(0 <= q * cube_dim) by (nonlinear_arith)
        requires
            0 <= q,
            0 < cube_dim,
    ;
}

/// The word of a sum is the sum of the words.
proof fn lemma_encode_adds(a: Fixed, b: Fixed)
    ensures
        a.plus_spec(b).encode_spec() == a.encode_spec().plus_spec(b.encode_spec()),
{
    lemma_wrap_add(a.raw as int, b.raw as int);
    crate::channel::lemma_wrap_signed(a.raw + b.raw);
}

/// Running sums of the plane totals, in doubling steps.
fn doubling_scan<F: Additive>(totals: Vec<F>) -> (r: Vec<F>)
    requires
        totals@.len() <= BLOCK_REDUCE_SHMEM,
    ensures
        r@.len() == totals@.len(),
        forall|t: int| 0 <= t < r@.len() ==> #[trigger] r@[t] == fold_sum(totals@, 0, t + 1),
{
    let ghost init = totals@;
    let num: usize = totals.len();
    let mut partials: Vec<F> = totals;
    let mut s: usize = 1;
    proof {
        assert forall|t: int| 0 <= t < num implies #[trigger] partials@[t] == fold_sum(init, if t + 1 - s > 0 { t + 1 - s } else { 0 }, t + 1) by {
            lemma_fold_one(init, t);
        }
    }
    while s < num
        invariant
            1 <= s,
            num <= 256,
            num == init.len(),
            partials@.len() == num,
            forall|t: int|
                0 <= t < num ==> #[trigger] partials@[t] == fold_sum(init, if t + 1 - s > 0 { t + 1 - s } else { 0 }, t + 1),
        decreases 2 * num - s,
    {
        let mut next: Vec<F> = Vec::new();
        let mut tid: usize = 0;
        while tid < num
            invariant
                tid <= num,
                1 <= s < num,
                num == init.len(),
                partials@.len() == num,
                next@.len() == tid,
                forall|t: int|
                    0 <= t < num ==> #[trigger] partials@[t] == fold_sum(init, if t + 1 - s > 0 { t + 1 - s } else { 0 }, t + 1),
                forall|t: int|
                    0 <= t < tid ==> #[trigger] next@[t] == fold_sum(init, if t + 1 - 2 * s > 0 { t + 1 - 2 * s } else { 0 }, t + 1),
            decreases num - tid,
        {
            let mut v: F = partials[tid];
            if tid >= s {
                proof {
                    let lo = if tid + 1 - 2 * s > 0 { tid + 1 - 2 * s } else { 0 };
                    assert(partials@[tid - s] == fold_sum(init, lo, tid - s + 1));
                    lemma_fold_split(init, lo, tid - s + 1, tid + 1);
                }
                v = partials[tid - s].plus(v);
            }
            next.push(v);
            tid = tid + 1;
        }
        partials = next;
        s = s * 2;
    }
    partials
}

/// Scans one block of lanes: running sums inside each plane, plus the planes before it.
fn scan_lanes<F: Additive>(lanes: &Vec<F>, inclusive: bool) -> (r: Vec<F>)
    requires
        lanes@.len() <= BLOCK_REDUCE_SHMEM,
        lanes@.len() % 32 == 0,
    ensures
        r@.len() == lanes@.len(),
        forall|t: int|
            0 <= t < r@.len() ==> #[trigger] r@[t] == fold_sum(lanes@, 0, if inclusive { t + 1 } else { t }),
{
    let n: usize = lanes.len();
    let totals: Vec<F> = plane_totals(lanes);
    let ghost plane_sums = totals@;
    let partials: Vec<F> = doubling_scan(totals);
    let mut out: Vec<F> = Vec::new();
    let mut running: F = F::zero();
    let mut t: usize = 0;
    while t < n
        invariant
            t <= n,
            n == lanes@.len(),
            n <= 256,
            n % 32 == 0,
            plane_sums.len() == n / 32,
            partials@.len() == n / 32,
            forall|p: int| 0 <= p < plane_sums.len() ==> #[trigger] plane_sums[p] == fold_sum(lanes@, p * 32, p * 32 + 32),
            forall|p: int| 0 <= p < partials@.len() ==> #[trigger] partials@[p] == fold_sum(plane_sums, 0, p + 1),
            t % 32 != 0 ==> running == fold_sum(lanes@, (t / 32) * 32, t as int),
            out@.len() == t,
            forall|k: int|
                0 <= k < t ==> #[trigger] out@[k] == fold_sum(lanes@, 0, if inclusive { k + 1 } else { k }),
        decreases n - t,
    {
        let plane: usize = t / 32;
        if t % 32 == 0 {
            running = F::zero();
        }
        let before: F = running;
        running = running.plus(lanes[t]);
        let carry: F = if plane >= 1 {
            partials[plane - 1]
        } else {
            F::zero()
        };
        proof {
            lemma_plane_prefix(lanes@, plane_sums, plane as int);
            lemma_fold_split(lanes@, 0, plane * 32, t as int);
            lemma_fold_split(lanes@, 0, plane * 32, t + 1);
            let front = fold_sum(lanes@, 0, plane * 32);
            F::sum_laws(front, fold_sum(lanes@, plane * 32, t as int), front);
            F::sum_laws(front, fold_sum(lanes@, plane * 32, t + 1), front);
        }
        let scanned: F = if inclusive {
            running
        } else {
            before
        };
        out.push(scanned.plus(carry));
        t = t + 1;
    }
    out
}

/// Scans one block into `output` and returns the sum of the block.
pub fn block_scan_total_kernel<F: Additive>(
    input: &[F],
    output: &mut Vec<F>,
    cube_pos: usize,
    cube_dim: usize,
    inclusive: bool,
) -> (total: F)
    requires
        0 < cube_dim <= BLOCK_REDUCE_SHMEM,
        cube_dim % 32 == 0,
        cube_pos * cube_dim <= input@.len(),
        old(output)@.len() == input@.len(),
    ensures
        total == fold_sum(input@, cube_pos * cube_dim, block_end(input@.len() as int, cube_pos as int, cube_dim as int)),
        final(output)@.len() == old(output)@.len(),
        forall|i: int|
            0 <= i < input@.len() ==> #[trigger] final(output)@[i] == if cube_pos * cube_dim <= i < (cube_pos + 1) * cube_dim {
                fold_sum(input@, cube_pos * cube_dim, if inclusive { i + 1 } else { i })
            } else {
                old(output)@[i]
            },
{
    let n: usize = input.len();
    let start: usize = cube_pos * cube_dim;
    let lanes: Vec<F> = load_block(input, cube_pos, cube_dim);
    let scanned: Vec<F> = scan_lanes(&lanes, inclusive);
    let sums: Vec<F> = if inclusive {
        Vec::new()
    } else {
        scan_lanes(&lanes, true)
    };
    let ghost init = output@;
    let mut t: usize = 0;
    while t < cube_dim && t < n - start
        invariant
            t <= cube_dim,
            start <= n,
            t <= n - start,
            n == input@.len(),
            start == cube_pos * cube_dim,
            lanes@.len() == cube_dim,
            scanned@.len() == cube_dim,
            output@.len() == n,
            init.len() == n,
            forall|k: int|
                0 <= k < cube_dim ==> #[trigger] lanes@[k] == if start + k < n {
                    input@[start + k]
                } else {
                    F::zero_spec()
                },
            forall|k: int|
                0 <= k < cube_dim ==> #[trigger] scanned@[k] == fold_sum(lanes@, 0, if inclusive { k + 1 } else { k }),
            forall|i: int|
                0 <= i < n ==> #[trigger] output@[i] == if start <= i < start + t {
                    fold_sum(input@, start as int, if inclusive { i + 1 } else { i })
                } else {
                    init[i]
                },
        decreases cube_dim - t,
    {
        proof {
            lemma_block_sum(input@, lanes@, start as int, cube_dim as int, t as int);
            lemma_block_sum(input@, lanes@, start as int, cube_dim as int, t + 1);
        }
        output.set(start + t, scanned[t]);
        t = t + 1;
    }
    proof {
        assert((cube_pos + 1) * cube_dim == cube_pos * cube_dim + cube_dim) by (nonlinear_arith);
        lemma_block_sum(input@, lanes@, start as int, cube_dim as int, cube_dim as int);
    }
    if inclusive {
        scanned[cube_dim - 1]
    } else {
        sums[cube_dim - 1]
    }
}

/// Scans one block into `output`.
pub fn block_scan_kernel<F: Additive>(input: &[F], output: &mut Vec<F>, cube_pos: usize, cube_dim: usize, inclusive: bool)
    requires
        0 < cube_dim <= BLOCK_REDUCE_SHMEM,
        cube_dim % 32 == 0,
        cube_pos * cube_dim <= input@.len(),
        old(output)@.len() == input@.len(),
    ensures
        final(output)@.len() == old(output)@.len(),
        forall|i: int|
            0 <= i < input@.len() ==> #[trigger] final(output)@[i] == if cube_pos * cube_dim <= i < (cube_pos + 1) * cube_dim {
                fold_sum(input@, cube_pos * cube_dim, if inclusive { i + 1 } else { i })
            } else {
                old(output)@[i]
            },
{
    let _total: F = block_scan_total_kernel(input, output, cube_pos, cube_dim, inclusive);
}

/// Adds the offset of each block to its elements.
pub fn add_block_offset_kernel<F: Channel>(data: &mut Vec<F>, block_offsets: &[F], cube_dim: usize)
    requires
        cube_dim > 0,
        old(data)@.len() <= block_offsets@.len() * cube_dim,
    ensures
        final(data)@.len() == old(data)@.len(),
        forall|i: int|
            0 <= i < old(data)@.len() ==> #[trigger] final(data)@[i] == old(data)@[i].plus_spec(
                block_offsets@[i / (cube_dim as int)],
            ),
{
    let ghost init = data@;
    let n: usize = data.len();
    let mut i: usize = 0;
    while i < n
        invariant
            i <= n,
            cube_dim > 0,
            n == init.len(),
            data@.len() == n,
            n <= block_offsets@.len() * cube_dim,
            forall|k: int|
                0 <= k < n ==> #[trigger] data@[k] == if k < i {
                    init[k].plus_spec(block_offsets@[k / (cube_dim as int)])
                } else {
                    init[k]
                },
        decreases n - i,
    {
        proof {
            crate::histogram::lemma_line(i as int, cube_dim as int, block_offsets@.len() as int);
        }
        let v: F = data[i].plus(block_offsets[i / cube_dim]);
        data.set(i, v);
        i = i + 1;
    }
}

/// The running sums of a column: up to and with each element, or up to it.
pub open spec fn running_sums<F: Channel>(input: Seq<F>, inclusive: bool) -> Seq<F> {
    Seq::new(input.len(), |i: int| fold_sum(input, 0, if inclusive { i + 1 } else { i }))
}

/// The block sums before a block sum to the elements before it.
proof fn lemma_block_prefix<F: Additive>(input: Seq<F>, sums: Seq<F>, b: int)
    requires
        0 <= b <= sums.len(),
        b * 32 <= input.len(),
        forall|k: int| 0 <= k < b ==> #[trigger] sums[k] == fold_sum(input, k * 32, block_end(input.len() as int, k, 32)),
    ensures
        fold_sum(sums, 0, b) == fold_sum(input, 0, b * 32),
    decreases b,
{
    if b > 0 {
        let q = b - 1;
        lemma_block_prefix(input, sums, q);
        lemma_fold_split(input, 0, q * 32, b * 32);
    }
}

/// Computes the running sums of a column of any length: each block is scanned, the block
/// sums are scanned in turn, and each block is shifted by the sum of those before it.
pub fn full_scan<F: Additive>(input: &[F], inclusive: bool) -> (r: Vec<F>)
    ensures
        r@ == running_sums(input@, inclusive),
    decreases input@.len(),
{
    let n: usize = input.len();
    let mut out: Vec<F> = zeros(n);
    if n <= 32 {
        block_scan_kernel(input, &mut out, 0, SCAN_CUBE_DIM, inclusive);
        assert(out@ =~= running_sums(input@, inclusive));
        return out;
    }
    let num_cubes: usize = if n % 32 == 0 { n / 32 } else { n / 32 + 1 };
    let mut block_sums: Vec<F> = Vec::new();
    let mut cube: usize = 0;
    while cube < num_cubes
        invariant
            cube <= num_cubes,
            n == input@.len(),
            32 < n,
            num_cubes == if n % 32 == 0 { (n / 32) as int } else { n / 32 + 1 },
            out@.len() == n,
            block_sums@.len() == cube,
            forall|k: int|
                0 <= k < cube ==> #[trigger] block_sums@[k] == fold_sum(input@, k * 32, block_end(n as int, k, 32)),
            forall|i: int|
                0 <= i < n && i < cube * 32 ==> #[trigger] out@[i] == fold_sum(input@, (i / 32) * 32, if inclusive { i + 1 } else { i }),
        decreases num_cubes - cube,
    {
        let total: F = block_scan_total_kernel(input, &mut out, cube, SCAN_CUBE_DIM, inclusive);
        block_sums.push(total);
        cube = cube + 1;
    }
    let block_offsets: Vec<F> = full_scan(block_sums.as_slice(), false);
    let ghost scanned = out@;
    add_block_offset_kernel(&mut out, block_offsets.as_slice(), SCAN_CUBE_DIM);
    proof {
        assert forall|i: int| 0 <= i < n implies #[trigger] out@[i] == running_sums(input@, inclusive)[i] by {
            let b = i / 32;
            let end = if inclusive { i + 1 } else { i };
            assert(out@[i] == scanned[i].plus_spec(block_offsets@[b]));
            assert(block_offsets@[b] == fold_sum(block_sums@, 0, b));
            lemma_block_prefix(input@, block_sums@, b);
            lemma_fold_split(input@, 0, b * 32, end);
            let front = fold_sum(input@, 0, b * 32);
            F::sum_laws(front, fold_sum(input@, b * 32, end), front);
        }
        assert(out@ =~= running_sums(input@, inclusive));
    }
    out
}

/// An inclusive running sum is the exclusive one plus the element.
pub proof fn law_inclusive_is_exclusive_plus_element<F: Channel>(input: Seq<F>, i: int)
    requires
        0 <= i < input.len(),
    ensures
        running_sums(input, true)[i] == running_sums(input, false)[i].plus_spec(input[i]),
{
}

/// The last inclusive running sum is the sum of the column.
pub proof fn law_last_running_sum_is_the_total<F: Channel>(input: Seq<F>)
    requires
        input.len() > 0,
    ensures
        running_sums(input, true)[input.len() - 1] == fold_sum(input, 0, input.len() as int),
{
}

} // verus!
