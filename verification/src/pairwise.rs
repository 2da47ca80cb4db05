//! The pairwise driver: checked histogram fills, derivative sums, split scores and the
//! depth-one tree.

use vstd::prelude::*;
use crate::channel::{Channel, Real};
use crate::config::Backend;
use crate::error::{CbError, CbResult, Column, Degeneracy, DoubleUse, RangeFault};
use crate::guard::{find_at_least, first_at_least, lemma_first_from};
use crate::histogram::{
    add_where, all_below, bins_below, der_sums_fold, lemma_row, pair_hist_fold, pairwise_hist_8bit_atomics_kernel,
    pairwise_hist_binary_kernel, pairwise_hist_half_byte_kernel, pairwise_hist_nonbinary_kernel, pairwise_make_derivatives_kernel,
    PAIR_HIST_CHANNELS,
};
use crate::partition::{partition_split_kernel, routed};
use crate::session::{entry_or, get_or};
use crate::split::{
    all_allowed, cb_leaf_avg, leaf_avg, select_best_split_over_scores, selected_split, BestSplit,
};

verus! {

/// Objects of a launch block.
pub const CUBE_DIM: usize = 32;

/// The number of blocks that a launch over `n` elements takes: at least one.
pub fn launch_cubes(n: usize) -> (r: usize)
    ensures
        r >= 1,
        n <= r * CUBE_DIM,
        n > 0 ==> (r - 1) * CUBE_DIM < n,
        n == 0 ==> r == 1,
{
    let whole: usize = n / 32;
    if n == 0 {
        1
    } else if n % 32 == 0 {
        whole
    } else {
        whole + 1
    }
}

/// The length of a pairwise histogram.
pub open spec fn binsums_len(n_bins: int, n_features: int) -> int {
    n_features * n_bins * 4
}

/// The length of a pairwise histogram.
pub fn pair_hist_binsums_len(n_bins: usize, n_features: usize) -> (r: usize)
    requires
        binsums_len(n_bins as int, n_features as int) <= usize::MAX,
    ensures
        r == binsums_len(n_bins as int, n_features as int),
{
    proof {
        assert(0 <= n_features * n_bins) by (nonlinear_arith)
            requires
                0 <= n_features,
                0 <= n_bins,
        ;
    }
    n_features * n_bins * PAIR_HIST_CHANNELS
}

/// The length of a pairwise histogram, if it fits.
pub fn pair_hist_binsums_len_checked(n_bins: usize, n_features: usize) -> (r: Option<usize>)
    ensures
        r == if binsums_len(n_bins as int, n_features as int) <= usize::MAX {
            Some(binsums_len(n_bins as int, n_features as int) as usize)
        } else {
            None
        },
{
    match n_features.checked_mul(n_bins) {
        Some(v) => v.checked_mul(PAIR_HIST_CHANNELS),
        None => None,
    }
}

/// What is wrong with the columns of a pairwise fill, if anything. The checks come in this
/// order.
pub open spec fn pair_hist_fault(
    pair_i: Seq<u32>,
    pair_j: Seq<u32>,
    n_weights: int,
    cindex: Seq<u32>,
    n_objects: int,
    n_bins: int,
    n_features: int,
) -> Option<CbError> {
    let n_pairs = pair_i.len() as int;
    if pair_j.len() != n_pairs {
        Some(CbError::LengthMismatch { column: Column::PairJ, expected: n_pairs as usize, actual: pair_j.len() as usize })
    } else if n_weights != n_pairs {
        Some(CbError::LengthMismatch { column: Column::PairWeight, expected: n_pairs as usize, actual: n_weights as usize })
    } else if n_features * n_objects > usize::MAX {
        Some(CbError::OutOfRange(RangeFault::CindexStride { n_features: n_features as usize, n_objects: n_objects as usize }))
    } else if binsums_len(n_bins, n_features) > usize::MAX {
        Some(CbError::OutOfRange(RangeFault::BinSums { n_features: n_features as usize, n_bins: n_bins as usize }))
    } else if cindex.len() != n_features * n_objects {
        Some(
            CbError::LengthMismatch {
                column: Column::Cindex,
                expected: (n_features * n_objects) as usize,
                actual: cindex.len() as usize,
            },
        )
    } else if first_at_least(pair_i, n_objects) is Some {
        Some(
            CbError::OutOfRange(
                RangeFault::PairI { value: first_at_least(pair_i, n_objects)->0, n_objects: n_objects as usize },
            ),
        )
    } else if first_at_least(pair_j, n_objects) is Some {
        Some(
            CbError::OutOfRange(
                RangeFault::PairJ { value: first_at_least(pair_j, n_objects)->0, n_objects: n_objects as usize },
            ),
        )
    } else if first_at_least(cindex, n_bins) is Some {
        Some(
            CbError::OutOfRange(
                RangeFault::BinValue { value: first_at_least(cindex, n_bins)->0, n_bins: n_bins as usize },
            ),
        )
    } else {
        None
    }
}

/// Checks the columns of a pairwise fill.
pub fn check_pairwise_hist(
    pair_i: &[u32],
    pair_j: &[u32],
    n_weights: usize,
    cindex: &[u32],
    n_objects: usize,
    n_bins: usize,
    n_features: usize,
) -> (r: CbResult<()>)
    ensures
        r == match pair_hist_fault(pair_i@, pair_j@, n_weights as int, cindex@, n_objects as int, n_bins as int, n_features as int) {
            Some(e) => Err::<(), CbError>(e),
            None => Ok(()),
        },
{
    let n_pairs: usize = pair_i.len();
    if pair_j.len() != n_pairs {
        return Err(CbError::LengthMismatch { column: Column::PairJ, expected: n_pairs, actual: pair_j.len() });
    }
    if n_weights != n_pairs {
        return Err(CbError::LengthMismatch { column: Column::PairWeight, expected: n_pairs, actual: n_weights });
    }
    let stride: usize = match n_features.checked_mul(n_objects) {
        Some(stride) => stride,
        None => {
            return Err(CbError::OutOfRange(RangeFault::CindexStride { n_features, n_objects }));
        },
    };
    if pair_hist_binsums_len_checked(n_bins, n_features).is_none() {
        return Err(CbError::OutOfRange(RangeFault::BinSums { n_features, n_bins }));
    }
    if cindex.len() != stride {
        return Err(CbError::LengthMismatch { column: Column::Cindex, expected: stride, actual: cindex.len() });
    }
    match find_at_least(pair_i, n_objects) {
        Some(value) => {
            return Err(CbError::OutOfRange(RangeFault::PairI { value, n_objects }));
        },
        None => {},
    }
    match find_at_least(pair_j, n_objects) {
        Some(value) => {
            return Err(CbError::OutOfRange(RangeFault::PairJ { value, n_objects }));
        },
        None => {},
    }
    match find_at_least(cindex, n_bins) {
        Some(value) => {
            return Err(CbError::OutOfRange(RangeFault::BinValue { value, n_bins }));
        },
        None => {},
    }
    Ok(())
}

/// Checked columns have the shapes that a fill needs.
pub(crate) proof fn lemma_checked_shapes(
    pair_i: Seq<u32>,
    pair_j: Seq<u32>,
    n_weights: int,
    cindex: Seq<u32>,
    n_objects: int,
    n_bins: int,
    n_features: int,
)
    requires
        pair_hist_fault(pair_i, pair_j, n_weights, cindex, n_objects, n_bins, n_features) is None,
    ensures
        pair_i.len() == n_weights,
        pair_j.len() == n_weights,
        all_below(pair_i, n_objects),
        all_below(pair_j, n_objects),
        cindex.len() == n_features * n_objects,
        all_below(cindex, n_bins),
        bins_below(cindex, u32::MAX, n_bins),
        binsums_len(n_bins, n_features) == n_features * (n_bins * 4),
{
    lemma_first_from(pair_i, 0, pair_i.len() as int, n_objects);
    lemma_first_from(pair_j, 0, pair_j.len() as int, n_objects);
    lemma_first_from(cindex, 0, cindex.len() as int, n_bins);
    assert(forall|x: u32| #[trigger] (x & u32::MAX) == x) by (bit_vector);
    assert(n_features * n_bins * 4 == n_features * (n_bins * 4)) by (nonlinear_arith);
    assert forall|k: int| 0 <= k < cindex.len() implies (#[trigger] cindex[k] & u32::MAX) < n_bins by {
        assert(cindex[k] < n_bins);
    }
}

/// A histogram of one-byte features has 32, 64 or 128 bins.
pub open spec fn one_byte_width(bits: u32, n_bins: int) -> bool {
    (bits == 5 && n_bins == 32) || (bits == 6 && n_bins == 64) || (bits == 7 && n_bins == 128)
}

/// The outcome of a checked pairwise fill of one family: the columns are checked before
/// anything else, also where there is nothing to fill.
pub open spec fn pair_fill_outcome<F: Channel>(
    r: CbResult<Vec<F>>,
    pair_i: Seq<u32>,
    pair_j: Seq<u32>,
    pair_weight: Seq<F>,
    cindex: Seq<u32>,
    n_objects: int,
    n_bins: int,
    n_features: int,
    mask: u32,
    one_hot: bool,
    width: Option<CbError>,
) -> bool {
    match pair_hist_fault(pair_i, pair_j, pair_weight.len() as int, cindex, n_objects, n_bins, n_features) {
        Some(e) => r == Err::<Vec<F>, CbError>(e),
        None => if pair_i.len() == 0 || n_features == 0 || n_bins == 0 {
            r matches Ok(cells) && cells@.len() == 0
        } else {
            match width {
                Some(e) => r == Err::<Vec<F>, CbError>(e),
                None => r matches Ok(cells) && {
                    &&& cells@.len() == binsums_len(n_bins, n_features)
                    &&& forall|c: int|
                        0 <= c < cells@.len() ==> #[trigger] cells@[c] == pair_hist_fold(
                            F::zero_spec(),
                            pair_i,
                            pair_j,
                            pair_weight,
                            cindex,
                            n_objects,
                            n_bins,
                            mask,
                            one_hot,
                            c,
                            pair_weight.len(),
                        )
                },
            }
        },
    }
}

/// The outcome of a pairwise fill of one family. Without a pair, a feature or a bin there is
/// nothing to fill, whatever the other columns hold.
pub open spec fn pair_hist_outcome<F: Channel>(
    r: CbResult<Vec<F>>,
    pair_i: Seq<u32>,
    pair_j: Seq<u32>,
    pair_weight: Seq<F>,
    cindex: Seq<u32>,
    n_objects: int,
    n_bins: int,
    n_features: int,
    mask: u32,
    one_hot: bool,
    width: Option<CbError>,
) -> bool {
    if pair_i.len() == 0 || n_features == 0 || n_bins == 0 {
        r matches Ok(cells) && cells@.len() == 0
    } else {
        pair_fill_outcome(r, pair_i, pair_j, pair_weight, cindex, n_objects, n_bins, n_features, mask, one_hot, width)
    }
}

/// The width fault of the one-byte family, if it has one.
pub open spec fn one_byte_fault(bits: u32, n_bins: int) -> Option<CbError> {
    if one_byte_width(bits, n_bins) {
        None
    } else {
        Some(CbError::Degenerate(Degeneracy::FamilyWidth { bits, n_bins: n_bins as usize }))
    }
}

/// The width fault of the eight-bit family, if it has one.
pub open spec fn byte_fault(n_bins: int) -> Option<CbError> {
    if n_bins == 256 {
        None
    } else {
        Some(CbError::Degenerate(Degeneracy::ByteWidth { n_bins: n_bins as usize }))
    }
}

/// The width fault of the half-byte family, if it has one.
pub open spec fn half_byte_fault(n_bins: int) -> Option<CbError> {
    if n_bins == 16 {
        None
    } else {
        Some(CbError::Degenerate(Degeneracy::HalfByteWidth { n_bins: n_bins as usize }))
    }
}

/// The width fault of the binary family, if it has one.
pub open spec fn binary_fault(n_bins: int) -> Option<CbError> {
    if n_bins == 2 {
        None
    } else {
        Some(CbError::Degenerate(Degeneracy::BinaryWidth { n_bins: n_bins as usize }))
    }
}

/// A column of zeros.
pub(crate) fn zeros<F: Channel>(n: usize) -> (r: Vec<F>)
    ensures
        r@.len() == n,
        forall|c: int| 0 <= c < n ==> #[trigger] r@[c] == F::zero_spec(),
{
    let mut out: Vec<F> = Vec::new();
    let mut i: usize = 0;
    while i < n
        invariant
            i <= n,
            out@.len() == i,
            forall|c: int| 0 <= c < i ==> #[trigger] out@[c] == F::zero_spec(),
        decreases n - i,
    {
        out.push(F::zero());
        i = i + 1;
    }
    out
}

/// Checks the columns, then fills the pairwise histogram of one-byte features.
pub fn launch_pairwise_hist_into<F: Channel>(
    pair_i: &[u32],
    pair_j: &[u32],
    pair_weight: &[F],
    cindex: &[u32],
    n_objects: usize,
    n_bins: usize,
    n_features: usize,
    bits: u32,
    one_hot: bool,
) -> (r: CbResult<Vec<F>>)
    ensures
        pair_fill_outcome(
            r,
            pair_i@,
            pair_j@,
            pair_weight@,
            cindex@,
            n_objects as int,
            n_bins as int,
            n_features as int,
            u32::MAX,
            one_hot,
            one_byte_fault(bits, n_bins as int),
        ),
{
    match check_pairwise_hist(pair_i, pair_j, pair_weight.len(), cindex, n_objects, n_bins, n_features) {
        Ok(()) => {},
        Err(e) => {
            return Err(e);
        },
    }
    if pair_i.len() == 0 || n_features == 0 || n_bins == 0 {
        return Ok(Vec::new());
    }
    if !((bits == 5 && n_bins == 32) || (bits == 6 && n_bins == 64) || (bits == 7 && n_bins == 128)) {
        return Err(CbError::Degenerate(Degeneracy::FamilyWidth { bits, n_bins }));
    }
    proof {
        lemma_checked_shapes(pair_i@, pair_j@, pair_weight@.len() as int, cindex@, n_objects as int, n_bins as int, n_features as int);
    }
    let mut cells: Vec<F> = zeros(pair_hist_binsums_len(n_bins, n_features));
    pairwise_hist_nonbinary_kernel(pair_i, pair_j, pair_weight, cindex, &mut cells, n_features, n_objects, n_bins, one_hot);
    Ok(cells)
}

/// Fills the pairwise histogram of one-byte features, where there is something to fill.
pub fn launch_pairwise_hist<F: Channel>(
    pair_i: &[u32],
    pair_j: &[u32],
    pair_weight: &[F],
    cindex: &[u32],
    n_objects: usize,
    n_bins: usize,
    n_features: usize,
    bits: u32,
    one_hot: bool,
) -> (r: CbResult<Vec<F>>)
    ensures
        pair_hist_outcome(
            r,
            pair_i@,
            pair_j@,
            pair_weight@,
            cindex@,
            n_objects as int,
            n_bins as int,
            n_features as int,
            u32::MAX,
            one_hot,
            one_byte_fault(bits, n_bins as int),
        ),
{
    if pair_i.len() == 0 || n_features == 0 || n_bins == 0 {
        return Ok(Vec::new());
    }
    launch_pairwise_hist_into(pair_i, pair_j, pair_weight, cindex, n_objects, n_bins, n_features, bits, one_hot)
}

/// Checks the columns, then fills the pairwise histogram of eight-bit features.
pub fn launch_pairwise_hist_8bit_into<F: Channel>(
    pair_i: &[u32],
    pair_j: &[u32],
    pair_weight: &[F],
    cindex: &[u32],
    n_objects: usize,
    n_bins: usize,
    n_features: usize,
    one_hot: bool,
) -> (r: CbResult<Vec<F>>)
    ensures
        pair_fill_outcome(
            r,
            pair_i@,
            pair_j@,
            pair_weight@,
            cindex@,
            n_objects as int,
            n_bins as int,
            n_features as int,
            u32::MAX,
            one_hot,
            byte_fault(n_bins as int),
        ),
{
    match check_pairwise_hist(pair_i, pair_j, pair_weight.len(), cindex, n_objects, n_bins, n_features) {
        Ok(()) => {},
        Err(e) => {
            return Err(e);
        },
    }
    if pair_i.len() == 0 || n_features == 0 || n_bins == 0 {
        return Ok(Vec::new());
    }
    if n_bins != 256 {
        return Err(CbError::Degenerate(Degeneracy::ByteWidth { n_bins }));
    }
    proof {
        lemma_checked_shapes(pair_i@, pair_j@, pair_weight@.len() as int, cindex@, n_objects as int, n_bins as int, n_features as int);
    }
    let mut cells: Vec<F> = zeros(pair_hist_binsums_len(n_bins, n_features));
    pairwise_hist_8bit_atomics_kernel(pair_i, pair_j, pair_weight, cindex, &mut cells, n_features, n_objects, one_hot);
    Ok(cells)
}

/// Fills the pairwise histogram of eight-bit features, where there is something to fill.
pub fn launch_pairwise_hist_8bit<F: Channel>(
    pair_i: &[u32],
    pair_j: &[u32],
    pair_weight: &[F],
    cindex: &[u32],
    n_objects: usize,
    n_bins: usize,
    n_features: usize,
    one_hot: bool,
) -> (r: CbResult<Vec<F>>)
    ensures
        pair_hist_outcome(
            r,
            pair_i@,
            pair_j@,
            pair_weight@,
            cindex@,
            n_objects as int,
            n_bins as int,
            n_features as int,
            u32::MAX,
            one_hot,
            byte_fault(n_bins as int),
        ),
{
    if pair_i.len() == 0 || n_features == 0 || n_bins == 0 {
        return Ok(Vec::new());
    }
    launch_pairwise_hist_8bit_into(pair_i, pair_j, pair_weight, cindex, n_objects, n_bins, n_features, one_hot)
}

/// Checks the columns, then fills the pairwise histogram of half-byte features.
pub fn launch_pairwise_hist_half_byte_into<F: Channel>(
    pair_i: &[u32],
    pair_j: &[u32],
    pair_weight: &[F],
    cindex: &[u32],
    n_objects: usize,
    n_bins: usize,
    n_features: usize,
) -> (r: CbResult<Vec<F>>)
    ensures
        pair_fill_outcome(
            r,
            pair_i@,
            pair_j@,
            pair_weight@,
            cindex@,
            n_objects as int,
            n_bins as int,
            n_features as int,
            15,
            false,
            half_byte_fault(n_bins as int),
        ),
{
    match check_pairwise_hist(pair_i, pair_j, pair_weight.len(), cindex, n_objects, n_bins, n_features) {
        Ok(()) => {},
        Err(e) => {
            return Err(e);
        },
    }
    if pair_i.len() == 0 || n_features == 0 || n_bins == 0 {
        return Ok(Vec::new());
    }
    if n_bins != 16 {
        return Err(CbError::Degenerate(Degeneracy::HalfByteWidth { n_bins }));
    }
    proof {
        lemma_checked_shapes(pair_i@, pair_j@, pair_weight@.len() as int, cindex@, n_objects as int, n_bins as int, n_features as int);
    }
    let mut cells: Vec<F> = zeros(pair_hist_binsums_len(n_bins, n_features));
    pairwise_hist_half_byte_kernel(pair_i, pair_j, pair_weight, cindex, &mut cells, n_features, n_objects);
    Ok(cells)
}

/// Fills the pairwise histogram of half-byte features, where there is something to fill.
pub fn launch_pairwise_hist_half_byte<F: Channel>(
    pair_i: &[u32],
    pair_j: &[u32],
    pair_weight: &[F],
    cindex: &[u32],
    n_objects: usize,
    n_bins: usize,
    n_features: usize,
) -> (r: CbResult<Vec<F>>)
    ensures
        pair_hist_outcome(
            r,
            pair_i@,
            pair_j@,
            pair_weight@,
            cindex@,
            n_objects as int,
            n_bins as int,
            n_features as int,
            15,
            false,
            half_byte_fault(n_bins as int),
        ),
{
    if pair_i.len() == 0 || n_features == 0 || n_bins == 0 {
        return Ok(Vec::new());
    }
    launch_pairwise_hist_half_byte_into(pair_i, pair_j, pair_weight, cindex, n_objects, n_bins, n_features)
}

/// Checks the columns, then fills the pairwise histogram of binary features.
pub fn launch_pairwise_hist_binary_into<F: Channel>(
    pair_i: &[u32],
    pair_j: &[u32],
    pair_weight: &[F],
    cindex: &[u32],
    n_objects: usize,
    n_bins: usize,
    n_features: usize,
) -> (r: CbResult<Vec<F>>)
    ensures
        pair_fill_outcome(
            r,
            pair_i@,
            pair_j@,
            pair_weight@,
            cindex@,
            n_objects as int,
            n_bins as int,
            n_features as int,
            1,
            false,
            binary_fault(n_bins as int),
        ),
{
    match check_pairwise_hist(pair_i, pair_j, pair_weight.len(), cindex, n_objects, n_bins, n_features) {
        Ok(()) => {},
        Err(e) => {
            return Err(e);
        },
    }
    if pair_i.len() == 0 || n_features == 0 || n_bins == 0 {
        return Ok(Vec::new());
    }
    if n_bins != 2 {
        return Err(CbError::Degenerate(Degeneracy::BinaryWidth { n_bins }));
    }
    proof {
        lemma_checked_shapes(pair_i@, pair_j@, pair_weight@.len() as int, cindex@, n_objects as int, n_bins as int, n_features as int);
    }
    let mut cells: Vec<F> = zeros(pair_hist_binsums_len(n_bins, n_features));
    pairwise_hist_binary_kernel(pair_i, pair_j, pair_weight, cindex, &mut cells, n_features, n_objects);
    Ok(cells)
}

/// Fills the pairwise histogram of binary features, where there is something to fill.
pub fn launch_pairwise_hist_binary<F: Channel>(
    pair_i: &[u32],
    pair_j: &[u32],
    pair_weight: &[F],
    cindex: &[u32],
    n_objects: usize,
    n_bins: usize,
    n_features: usize,
) -> (r: CbResult<Vec<F>>)
    ensures
        pair_hist_outcome(
            r,
            pair_i@,
            pair_j@,
            pair_weight@,
            cindex@,
            n_objects as int,
            n_bins as int,
            n_features as int,
            1,
            false,
            binary_fault(n_bins as int),
        ),
{
    if pair_i.len() == 0 || n_features == 0 || n_bins == 0 {
        return Ok(Vec::new());
    }
    launch_pairwise_hist_binary_into(pair_i, pair_j, pair_weight, cindex, n_objects, n_bins, n_features)
}

/// The running sum of a cell over the bins of its line: neighbouring bins lie `channels`
/// cells apart, and a line has `line` cells.
pub open spec fn line_prefix<F: Channel>(cells: Seq<F>, channels: int, line: int, c: int) -> F
    decreases c,
{
    if c % line < channels || channels <= 0 || c < channels {
        cells[c]
    } else {
        line_prefix(cells, channels, line, c - channels).plus_spec(cells[c])
    }
}

fn scan_lines<F: Channel>(cells: &[F], channels: usize, line: usize) -> (r: Vec<F>)
    requires
        0 < channels <= line,
    ensures
        r@ == Seq::new(cells@.len(), |c: int| line_prefix(cells@, channels as int, line as int, c)),
{
    let n: usize = cells.len();
    let mut out: Vec<F> = Vec::new();
    let mut c: usize = 0;
    while c < n
        invariant
            c <= n,
            n == cells@.len(),
            0 < channels <= line,
            out@.len() == c,
            forall|k: int| 0 <= k < c ==> #[trigger] out@[k] == line_prefix(cells@, channels as int, line as int, k),
        decreases n - c,
    {
        let v: F = if c % line < channels || c < channels {
            cells[c]
        } else {
            out[c - channels].plus(cells[c])
        };
        out.push(v);
        c = c + 1;
    }
    assert(out@ =~= Seq::new(cells@.len(), |c: int| line_prefix(cells@, channels as int, line as int, c)));
    out
}

/// The running sums over the bins of a two-channel histogram.
pub fn scan_update_pointwise_kernel<F: Channel>(bin_sums: &[F], n_bins: usize) -> (r: Vec<F>)
    requires
        0 < n_bins,
        n_bins * 2 <= usize::MAX,
    ensures
        r@ == Seq::new(bin_sums@.len(), |c: int| line_prefix(bin_sums@, 2, n_bins * 2, c)),
{
    scan_lines(bin_sums, 2, n_bins * 2)
}

/// The running sums over the bins of a pairwise histogram.
pub fn scan_update_pairwise_kernel<F: Channel>(bin_sums: &[F], n_bins: usize) -> (r: Vec<F>)
    requires
        0 < n_bins,
        n_bins * 4 <= usize::MAX,
    ensures
        r@ == Seq::new(bin_sums@.len(), |c: int| line_prefix(bin_sums@, 4, n_bins * 4, c)),
{
    scan_lines(bin_sums, 4, n_bins * 4)
}

/// What keeps a pairwise histogram from being scanned, if anything.
pub open spec fn scan_fault(n_bins: int, n_features: int) -> Option<CbError> {
    if n_bins > 32 {
        Some(CbError::OutOfRange(RangeFault::ScanWidth { n_bins: n_bins as usize }))
    } else if binsums_len(n_bins, n_features) > usize::MAX {
        Some(CbError::OutOfRange(RangeFault::CumulativeSums { n_features: n_features as usize, n_bins: n_bins as usize }))
    } else if n_features * 4 > u32::MAX {
        Some(CbError::OutOfRange(RangeFault::ScanCubes { num_cubes: (n_features * 4) as usize }))
    } else {
        None
    }
}

/// Fills the pairwise histogram of one-byte features and takes the running sums over its
/// bins. A line has to fit one scan block.
pub fn launch_scan_update_pairwise<F: Channel>(
    pair_i: &[u32],
    pair_j: &[u32],
    pair_weight: &[F],
    cindex: &[u32],
    n_objects: usize,
    n_bins: usize,
    n_features: usize,
    bits: u32,
    one_hot: bool,
) -> (r: CbResult<Vec<F>>)
    ensures
        pair_i@.len() == 0 || n_features == 0 || n_bins == 0 ==> (r matches Ok(cells) && cells@.len() == 0),
        pair_i@.len() > 0 && n_features > 0 && n_bins > 0 ==> match scan_fault(n_bins as int, n_features as int) {
            Some(e) => r == Err::<Vec<F>, CbError>(e),
            None => match pair_hist_fault(pair_i@, pair_j@, pair_weight@.len() as int, cindex@, n_objects as int, n_bins as int, n_features as int) {
                Some(e) => r == Err::<Vec<F>, CbError>(e),
                None => match one_byte_fault(bits, n_bins as int) {
                    Some(e) => r == Err::<Vec<F>, CbError>(e),
                    None => r matches Ok(cells) && {
                        let hist = Seq::new(
                            binsums_len(n_bins as int, n_features as int) as nat,
                            |c: int|
                                pair_hist_fold(
                                    F::zero_spec(),
                                    pair_i@,
                                    pair_j@,
                                    pair_weight@,
                                    cindex@,
                                    n_objects as int,
                                    n_bins as int,
                                    u32::MAX,
                                    one_hot,
                                    c,
                                    pair_weight@.len(),
                                ),
                        );
                        cells@ == Seq::new(hist.len(), |c: int| line_prefix(hist, 4, n_bins * 4, c))
                    },
                },
            },
        },
{
    if pair_i.len() == 0 || n_features == 0 || n_bins == 0 {
        return Ok(Vec::new());
    }
    if n_bins > 32 {
        return Err(CbError::OutOfRange(RangeFault::ScanWidth { n_bins }));
    }
    if pair_hist_binsums_len_checked(n_bins, n_features).is_none() {
        return Err(CbError::OutOfRange(RangeFault::CumulativeSums { n_features, n_bins }));
    }
    proof {
        assert(n_features * 4 <= n_features * n_bins * 4) by (nonlinear_arith)
            requires
                n_features >= 0,
                n_bins >= 1,
        ;
    }
    let num_cubes: usize = n_features * PAIR_HIST_CHANNELS;
    if num_cubes as u64 > 0xffff_ffff {
        return Err(CbError::OutOfRange(RangeFault::ScanCubes { num_cubes }));
    }
    let cells: Vec<F> = match launch_pairwise_hist_into(pair_i, pair_j, pair_weight, cindex, n_objects, n_bins, n_features, bits, one_hot) {
        Ok(cells) => cells,
        Err(e) => {
            return Err(e);
        },
    };
    let out: Vec<F> = scan_update_pairwise_kernel(cells.as_slice(), n_bins);
    proof {
        let hist = Seq::new(
            binsums_len(n_bins as int, n_features as int) as nat,
            |c: int|
                pair_hist_fold(
                    F::zero_spec(),
                    pair_i@,
                    pair_j@,
                    pair_weight@,
                    cindex@,
                    n_objects as int,
                    n_bins as int,
                    u32::MAX,
                    one_hot,
                    c,
                    pair_weight@.len(),
                ),
        );
        assert(cells@ =~= hist);
    }
    Ok(out)
}

/// What is wrong with the columns of the derivative sums, if anything.
pub open spec fn der_sums_fault(
    n: int,
    cindex: Seq<u32>,
    indices: Seq<u32>,
    n_bins: int,
    n_features: int,
) -> Option<CbError> {
    if n_features * n > usize::MAX {
        Some(CbError::OutOfRange(RangeFault::ObjectStride { n_features: n_features as usize, n: n as usize }))
    } else if n_features * n_bins > usize::MAX {
        Some(CbError::OutOfRange(RangeFault::DerSums { n_features: n_features as usize, n_bins: n_bins as usize }))
    } else if cindex.len() != n_features * n {
        Some(
            CbError::LengthMismatch {
                column: Column::Cindex,
                expected: (n_features * n) as usize,
                actual: cindex.len() as usize,
            },
        )
    } else if indices.len() != n {
        Some(CbError::LengthMismatch { column: Column::Indices, expected: n as usize, actual: indices.len() as usize })
    } else if first_at_least(cindex, n_bins) is Some {
        Some(
            CbError::OutOfRange(
                RangeFault::DerBin { value: first_at_least(cindex, n_bins)->0, n_bins: n_bins as usize },
            ),
        )
    } else if first_at_least(indices, n) is Some {
        Some(CbError::OutOfRange(RangeFault::ObjectId { value: first_at_least(indices, n)->0, n: n as usize }))
    } else if n_bins > u32::MAX {
        Some(CbError::OutOfRange(RangeFault::BinAxis { n_bins: n_bins as usize }))
    } else {
        None
    }
}

/// The derivative sums of every bin of every feature.
pub open spec fn der_sums_of<F: Channel>(
    der1: Seq<F>,
    cindex: Seq<u32>,
    indices: Seq<u32>,
    n_bins: int,
    n_features: int,
) -> Seq<F> {
    Seq::new(
        (n_features * n_bins) as nat,
        |c: int| der_sums_fold(F::zero_spec(), der1, cindex, indices, n_bins, c, indices.len()),
    )
}

/// Sums the derivatives of every bin of every feature.
pub fn launch_pairwise_make_derivatives<F: Channel>(
    der1: &[F],
    cindex: &[u32],
    indices: &[u32],
    n_bins: usize,
    n_features: usize,
) -> (r: CbResult<Vec<F>>)
    ensures
        der1@.len() == 0 || n_features == 0 || n_bins == 0 ==> (r matches Ok(sums) && sums@.len() == 0),
        der1@.len() > 0 && n_features > 0 && n_bins > 0 ==> match der_sums_fault(
            der1@.len() as int,
            cindex@,
            indices@,
            n_bins as int,
            n_features as int,
        ) {
            Some(e) => r == Err::<Vec<F>, CbError>(e),
            None => r matches Ok(sums) && sums@ == der_sums_of(der1@, cindex@, indices@, n_bins as int, n_features as int),
        },
{
    let n: usize = der1.len();
    if n == 0 || n_features == 0 || n_bins == 0 {
        return Ok(Vec::new());
    }
    let stride: usize = match n_features.checked_mul(n) {
        Some(stride) => stride,
        None => {
            return Err(CbError::OutOfRange(RangeFault::ObjectStride { n_features, n }));
        },
    };
    let len: usize = match n_features.checked_mul(n_bins) {
        Some(len) => len,
        None => {
            return Err(CbError::OutOfRange(RangeFault::DerSums { n_features, n_bins }));
        },
    };
    if cindex.len() != stride {
        return Err(CbError::LengthMismatch { column: Column::Cindex, expected: stride, actual: cindex.len() });
    }
    if indices.len() != n {
        return Err(CbError::LengthMismatch { column: Column::Indices, expected: n, actual: indices.len() });
    }
    match find_at_least(cindex, n_bins) {
        Some(value) => {
            return Err(CbError::OutOfRange(RangeFault::DerBin { value, n_bins }));
        },
        None => {},
    }
    match find_at_least(indices, n) {
        Some(value) => {
            return Err(CbError::OutOfRange(RangeFault::ObjectId { value, n }));
        },
        None => {},
    }
    if n_bins as u64 > 0xffff_ffff {
        return Err(CbError::OutOfRange(RangeFault::BinAxis { n_bins }));
    }
    proof {
        lemma_first_from(cindex@, 0, cindex@.len() as int, n_bins as int);
        lemma_first_from(indices@, 0, indices@.len() as int, n as int);
    }
    let mut sums: Vec<F> = zeros(len);
    pairwise_make_derivatives_kernel(der1, cindex, indices, &mut sums, n_features, n_bins);
    assert(sums@ =~= der_sums_of(der1@, cindex@, indices@, n_bins as int, n_features as int));
    Ok(sums)
}

/// The error of a backend without double-precision channels.
pub fn pairwise_assemble_wgpu_reject() -> (r: CbError)
    ensures
        r == CbError::OutOfRange(RangeFault::NoDoubles(DoubleUse::PairwiseSystem)),
{
    CbError::OutOfRange(RangeFault::NoDoubles(DoubleUse::PairwiseSystem))
}

/// The packed pairwise system: its size, and the regularisation of its cells.
pub struct PairwiseSystem<F> {
    /// Rows of the system: one less than the leaves.
    pub rows: usize,
    /// Cells of the packed triangle.
    pub matrix_len: usize,
    /// Cells of the triangle and the right-hand side.
    pub out_len: usize,
    pub non_diag_reg: F,
    pub diag_reg: F,
}

/// What is wrong with a pairwise system, if anything.
pub open spec fn system_fault(backend: Backend, leaf_count: int, n_weights: int) -> Option<CbError> {
    if leaf_count * leaf_count > usize::MAX {
        Some(CbError::OutOfRange(RangeFault::WeightMatrix { leaf_count: leaf_count as usize }))
    } else if n_weights != leaf_count * leaf_count {
        Some(
            CbError::LengthMismatch {
                column: Column::WeightSums,
                expected: (leaf_count * leaf_count) as usize,
                actual: n_weights as usize,
            },
        )
    } else if backend == Backend::Wgpu {
        Some(CbError::OutOfRange(RangeFault::NoDoubles(DoubleUse::PairwiseSystem)))
    } else {
        None
    }
}

/// Sizes the pairwise system of a leaf set and regularises its cells: every cell of a row
/// shares the prior weight evenly. Fewer than two leaves have no system. The device fills the
/// cells.
pub fn launch_pairwise_assemble_system_into<F: Real>(
    backend: Backend,
    n_weights: usize,
    leaf_count: usize,
    l2_diag_reg: F,
    pairwise_bucket_weight_prior_reg: F,
) -> (r: CbResult<Option<PairwiseSystem<F>>>)
    ensures
        leaf_count <= 1 ==> r == Ok::<Option<PairwiseSystem<F>>, CbError>(None),
        leaf_count > 1 ==> match system_fault(backend, leaf_count as int, n_weights as int) {
            Some(e) => r == Err::<Option<PairwiseSystem<F>>, CbError>(e),
            None => r matches Ok(Some(s)) && {
                let m = leaf_count - 1;
                let cell_prior = F::one_spec().over_spec(F::count_spec(leaf_count));
                let prior = pairwise_bucket_weight_prior_reg;
                &&& s.rows == m
                &&& s.matrix_len == m * (m + 1) / 2
                &&& s.out_len == m * (m + 1) / 2 + m
                &&& s.non_diag_reg == prior.negated_spec().times_spec(cell_prior)
                &&& s.diag_reg == prior.times_spec(F::one_spec().minus_spec(cell_prior)).plus_spec(l2_diag_reg)
            },
        },
{
    if leaf_count <= 1 {
        return Ok(None);
    }
    let expected: usize = match leaf_count.checked_mul(leaf_count) {
        Some(expected) => expected,
        None => {
            return Err(CbError::OutOfRange(RangeFault::WeightMatrix { leaf_count }));
        },
    };
    if n_weights != expected {
        return Err(CbError::LengthMismatch { column: Column::WeightSums, expected, actual: n_weights });
    }
    let cell_prior: F = F::one().over(F::count(leaf_count));
    let non_diag_reg: F = pairwise_bucket_weight_prior_reg.negated().times(cell_prior);
    let diag_reg: F = pairwise_bucket_weight_prior_reg.times(F::one().minus(cell_prior)).plus(l2_diag_reg);
    let m: usize = leaf_count - 1;
    proof {
        assert(0 <= m * (m + 1) <= leaf_count * leaf_count) by (nonlinear_arith)
            requires
                m == leaf_count - 1,
                leaf_count >= 2,
        ;
        assert(m * (m + 1) / 2 + m <= leaf_count * leaf_count) by (nonlinear_arith)
            requires
                m == leaf_count - 1,
                leaf_count >= 2,
        ;
    }
    let matrix_len: usize = m * (m + 1) / 2;
    let out_len: usize = matrix_len + m;
    if backend == Backend::Wgpu {
        return Err(pairwise_assemble_wgpu_reject());
    }
    Ok(Some(PairwiseSystem { rows: m, matrix_len, out_len, non_diag_reg, diag_reg }))
}

/// Sizes and regularises the pairwise system of the leaves that `der_sums` has, from the
/// weights between each two of them. The device fills the cells.
pub fn assemble_pairwise_system_host<F: Real>(
    backend: Backend,
    weight_sums: &[F],
    der_sums: &[F],
    l2_diag_reg: F,
    pairwise_bucket_weight_prior_reg: F,
) -> (r: CbResult<Option<PairwiseSystem<F>>>)
    ensures
        der_sums@.len() <= 1 ==> r == Ok::<Option<PairwiseSystem<F>>, CbError>(None),
        der_sums@.len() > 1 ==> match system_fault(backend, der_sums@.len() as int, weight_sums@.len() as int) {
            Some(e) => r == Err::<Option<PairwiseSystem<F>>, CbError>(e),
            None => r matches Ok(Some(s)) && {
                let m = der_sums@.len() - 1;
                let cell_prior = F::one_spec().over_spec(F::count_spec(der_sums@.len() as usize));
                let prior = pairwise_bucket_weight_prior_reg;
                &&& s.rows == m
                &&& s.matrix_len == m * (m + 1) / 2
                &&& s.out_len == m * (m + 1) / 2 + m
                &&& s.non_diag_reg == prior.negated_spec().times_spec(cell_prior)
                &&& s.diag_reg == prior.times_spec(F::one_spec().minus_spec(cell_prior)).plus_spec(l2_diag_reg)
            },
        },
{
    launch_pairwise_assemble_system_into(
        backend,
        weight_sums.len(),
        der_sums.len(),
        l2_diag_reg,
        pairwise_bucket_weight_prior_reg,
    )
}

/// What the border scores of one feature at the root are solved from: the weighted pairs,
/// the leaf and the bucket of each object, and the derivative sums of each leaf's buckets.
pub struct PairwiseScoreInput<F> {
    pub pairs: Vec<(usize, usize, F)>,
    pub leaf_of: Vec<usize>,
    pub bucket_of: Vec<usize>,
    pub der_sums: Vec<Vec<F>>,
    pub leaf_count: usize,
    pub bucket_count: usize,
}

/// The weighted pairs of three columns, as far as all of them reach.
pub open spec fn weighted_pairs<F>(pair_i: Seq<u32>, pair_j: Seq<u32>, pair_weight: Seq<F>) -> Seq<(usize, usize, F)> {
    let ends = if pair_i.len() <= pair_j.len() {
        pair_i.len()
    } else {
        pair_j.len()
    };
    let count = if ends <= pair_weight.len() {
        ends
    } else {
        pair_weight.len()
    };
    Seq::new(count, |p: int| (pair_i[p] as usize, pair_j[p] as usize, pair_weight[p]))
}

/// Gathers what the border scores of `feature` are solved from. At the root every object is
/// in the one leaf, and the buckets are the bins of the feature; a bin or a derivative sum
/// past the end of its column is zero.
pub fn pairwise_score_input<F: Real>(
    der_sums: &[F],
    pair_i: &[u32],
    pair_j: &[u32],
    pair_weight: &[F],
    cindex: &[u32],
    n: usize,
    n_bins: usize,
    feature: usize,
) -> (r: PairwiseScoreInput<F>)
    requires
        feature * n + n <= usize::MAX,
        feature * n_bins + n_bins <= usize::MAX,
    ensures
        r.pairs@ == weighted_pairs(pair_i@, pair_j@, pair_weight@),
        r.leaf_of@ == Seq::new(n as nat, |obj: int| 0usize),
        r.bucket_of@ == Seq::new(n as nat, |obj: int| entry_or(cindex@, feature * n + obj, 0) as usize),
        r.der_sums@.len() == 1,
        r.der_sums@[0]@ == Seq::new(n_bins as nat, |b: int| entry_or(der_sums@, feature * n_bins + b, F::zero_spec())),
        r.leaf_count == 1,
        r.bucket_count == n_bins,
{
    let mut pairs: Vec<(usize, usize, F)> = Vec::new();
    let mut p: usize = 0;
    while p < pair_i.len() && p < pair_j.len() && p < pair_weight.len()
        invariant
            p <= weighted_pairs(pair_i@, pair_j@, pair_weight@).len(),
            pairs@ == weighted_pairs(pair_i@, pair_j@, pair_weight@).take(p as int),
        decreases pair_i@.len() - p,
    {
        pairs.push((pair_i[p] as usize, pair_j[p] as usize, pair_weight[p]));
        proof {
            assert(pairs@ =~= weighted_pairs(pair_i@, pair_j@, pair_weight@).take(p + 1));
        }
        p = p + 1;
    }
    let mut bucket_of: Vec<usize> = Vec::new();
    let mut obj: usize = 0;
    while obj < n
        invariant
            obj <= n,
            feature * n + n <= usize::MAX,
            bucket_of@.len() == obj,
            forall|k: int| 0 <= k < obj ==> #[trigger] bucket_of@[k] == entry_or(cindex@, feature * n + k, 0) as usize,
        decreases n - obj,
    {
        bucket_of.push(get_or(cindex, feature * n + obj, 0) as usize);
        obj = obj + 1;
    }
    let mut sums: Vec<F> = Vec::new();
    let mut b: usize = 0;
    while b < n_bins
        invariant
            b <= n_bins,
            feature * n_bins + n_bins <= usize::MAX,
            sums@.len() == b,
            forall|k: int| 0 <= k < b ==> #[trigger] sums@[k] == entry_or(der_sums@, feature * n_bins + k, F::zero_spec()),
        decreases n_bins - b,
    {
        sums.push(get_or(der_sums, feature * n_bins + b, F::zero()));
        b = b + 1;
    }
    let leaf_of: Vec<usize> = vec![0; n];
    let mut by_leaf: Vec<Vec<F>> = Vec::new();
    by_leaf.push(sums);
    PairwiseScoreInput { pairs, leaf_of, bucket_of, der_sums: by_leaf, leaf_count: 1, bucket_count: n_bins }
}

/// The scored borders of every feature, the derivative sums they rest on, and the selected
/// split.
pub struct PairwiseSplitScore<F> {
    pub scores: Vec<F>,
    pub der_sums: Vec<F>,
    pub best: Option<BestSplit<F>>,
}

/// The score of a border; the bottom score where the feature has none for it.
pub open spec fn border_score<F: Real>(feature_scores: Seq<Vec<F>>, n_splits: int, c: int) -> F {
    let feature = c / n_splits;
    let border = c % n_splits;
    if feature < feature_scores.len() && border < feature_scores[feature]@.len() {
        feature_scores[feature]@[border]
    } else {
        F::bottom_spec()
    }
}

/// What keeps a level from being scored, if anything. The checks come in this order.
pub open spec fn split_score_fault(
    n: int,
    pair_i: Seq<u32>,
    pair_j: Seq<u32>,
    n_weights: int,
    cindex: Seq<u32>,
    indices: Seq<u32>,
    n_bins: int,
    n_features: int,
) -> Option<CbError> {
    if n_bins != 32 && n_bins != 64 && n_bins != 128 {
        Some(CbError::Degenerate(Degeneracy::ScoreWidth { n_bins: n_bins as usize }))
    } else if pair_hist_fault(pair_i, pair_j, n_weights, cindex, n, n_bins, n_features) is Some {
        pair_hist_fault(pair_i, pair_j, n_weights, cindex, n, n_bins, n_features)
    } else if der_sums_fault(n, cindex, indices, n_bins, n_features) is Some {
        der_sums_fault(n, cindex, indices, n_bins, n_features)
    } else if n_features * (n_bins - 1) > u32::MAX {
        Some(
            CbError::OutOfRange(
                RangeFault::CandidateAxis { n_candidates: (n_features * (n_bins - 1)) as usize },
            ),
        )
    } else {
        None
    }
}

/// A scored level.
pub open spec fn level_scored<F: Real>(
    s: PairwiseSplitScore<F>,
    der1: Seq<F>,
    cindex: Seq<u32>,
    indices: Seq<u32>,
    n_bins: int,
    n_features: int,
    feature_scores: Seq<Vec<F>>,
) -> bool {
    let n_splits = n_bins - 1;
    &&& s.der_sums@ == der_sums_of(der1, cindex, indices, n_bins, n_features)
    &&& s.scores@ == Seq::new((n_features * n_splits) as nat, |c: int| border_score(feature_scores, n_splits, c))
    &&& selected_split(s.scores@, all_allowed(s.scores@.len()), n_splits, s.best)
}

/// Collects the border scores of every feature and selects the first of the best.
///
/// `feature_scores` are the scores of the pairwise systems solved from each feature's
/// `pairwise_score_input`, one column per feature and one entry per border.
pub fn launch_pairwise_split_score<F: Real>(
    der1: &[F],
    pair_i: &[u32],
    pair_j: &[u32],
    pair_weight: &[F],
    cindex: &[u32],
    indices: &[u32],
    n_bins: usize,
    n_features: usize,
    feature_scores: &[Vec<F>],
) -> (r: CbResult<PairwiseSplitScore<F>>)
    ensures
        der1@.len() == 0 || n_features == 0 || n_bins == 0 ==> (r matches Ok(s) && s.scores@.len() == 0 && s.der_sums@.len() == 0
            && s.best is None),
        der1@.len() > 0 && n_features > 0 && n_bins > 0 ==> match split_score_fault(
            der1@.len() as int,
            pair_i@,
            pair_j@,
            pair_weight@.len() as int,
            cindex@,
            indices@,
            n_bins as int,
            n_features as int,
        ) {
            Some(e) => r == Err::<PairwiseSplitScore<F>, CbError>(e),
            None => r matches Ok(s) && level_scored(s, der1@, cindex@, indices@, n_bins as int, n_features as int, feature_scores@),
        },
{
    let n: usize = der1.len();
    if n == 0 || n_features == 0 || n_bins == 0 {
        return Ok(PairwiseSplitScore { scores: Vec::new(), der_sums: Vec::new(), best: None });
    }
    if n_bins != 32 && n_bins != 64 && n_bins != 128 {
        return Err(CbError::Degenerate(Degeneracy::ScoreWidth { n_bins }));
    }
    match check_pairwise_hist(pair_i, pair_j, pair_weight.len(), cindex, n, n_bins, n_features) {
        Ok(()) => {},
        Err(e) => {
            return Err(e);
        },
    }
    let der_sums: Vec<F> = match launch_pairwise_make_derivatives(der1, cindex, indices, n_bins, n_features) {
        Ok(sums) => sums,
        Err(e) => {
            return Err(e);
        },
    };
    let n_splits: usize = n_bins - 1;
    proof {
        assert(n_features * n_splits <= n_features * n_bins) by (nonlinear_arith)
            requires
                n_splits <= n_bins,
                0 <= n_features,
        ;
    }
    let n_candidates: usize = n_features * n_splits;
    let mut scores: Vec<F> = Vec::new();
    let mut c: usize = 0;
    while c < n_candidates
        invariant
            c <= n_candidates,
            n_splits > 0,
            scores@.len() == c,
            forall|k: int| 0 <= k < c ==> #[trigger] scores@[k] == border_score(feature_scores@, n_splits as int, k),
        decreases n_candidates - c,
    {
        let feature: usize = c / n_splits;
        let border: usize = c % n_splits;
        let score: F = if feature < feature_scores.len() && border < feature_scores[feature].len() {
            feature_scores[feature][border]
        } else {
            F::bottom()
        };
        scores.push(score);
        c = c + 1;
    }
    proof {
        assert(scores@ =~= Seq::new((n_features * n_splits) as nat, |c: int| border_score(feature_scores@, n_splits as int, c)));
    }
    let best: Option<BestSplit<F>> = match select_best_split_over_scores(scores.as_slice(), n_splits) {
        Ok(best) => best,
        Err(e) => {
            return Err(e);
        },
    };
    Ok(PairwiseSplitScore { scores, der_sums, best })
}

/// A grown tree.
pub struct GrownTree<F> {
    pub splits: Vec<(u32, u32)>,
    pub leaf_of: Vec<u32>,
    pub leaf_values: Vec<F>,
    pub part_stats: Vec<F>,
}

/// A leaf statistic after the first `upto` objects of `indices`: the derivative, the weight
/// and the weighted curvature of a leaf, which is minus one per unit of weight, lie next to
/// each other.
pub open spec fn leaf_stats_fold<F: Real>(
    der1: Seq<F>,
    weight: Seq<F>,
    indices: Seq<u32>,
    leaf_of: Seq<u32>,
    c: int,
    upto: nat,
) -> F
    decreases upto,
{
    if upto == 0 {
        F::zero_spec()
    } else {
        let obj = indices[upto - 1] as int;
        add_where(
            leaf_stats_fold(der1, weight, indices, leaf_of, c, (upto - 1) as nat),
            leaf_of[obj] == c / 3,
            if c % 3 == 0 {
                der1[obj]
            } else if c % 3 == 1 {
                weight[obj]
            } else {
                weight[obj].negated_spec()
            },
        )
    }
}

/// The leaf statistics of a tree.
fn leaf_stats<F: Real>(der1: &[F], weight: &[F], indices: &[u32], leaf_of: &Vec<u32>, n_leaves: usize) -> (r: Vec<F>)
    requires
        n_leaves * 3 <= usize::MAX,
        all_below(indices@, indices@.len() as int),
        der1@.len() >= indices@.len(),
        weight@.len() >= indices@.len(),
        leaf_of@.len() >= indices@.len(),
        all_below(leaf_of@, n_leaves as int),
    ensures
        r@ == Seq::new((n_leaves * 3) as nat, |c: int| leaf_stats_fold(der1@, weight@, indices@, leaf_of@, c, indices@.len())),
{
    let n: usize = indices.len();
    let mut stats: Vec<F> = zeros(n_leaves * 3);
    let mut i: usize = 0;
    while i < n
        invariant
            i <= n,
            n == indices@.len(),
            n_leaves * 3 <= usize::MAX,
            stats@.len() == n_leaves * 3,
            all_below(indices@, indices@.len() as int),
            der1@.len() >= n,
            weight@.len() >= n,
            leaf_of@.len() >= n,
            all_below(leaf_of@, n_leaves as int),
            forall|c: int|
                0 <= c < stats@.len() ==> #[trigger] stats@[c] == leaf_stats_fold(der1@, weight@, indices@, leaf_of@, c, i as nat),
        decreases n - i,
    {
        let obj: usize = indices[i] as usize;
        let leaf: usize = leaf_of[obj] as usize;
        assert(leaf < n_leaves);
        let ghost before = stats@;
        let d: F = stats[leaf * 3].plus(der1[obj]);
        stats.set(leaf * 3, d);
        let w: F = stats[leaf * 3 + 1].plus(weight[obj]);
        stats.set(leaf * 3 + 1, w);
        let h: F = stats[leaf * 3 + 2].plus(weight[obj].negated());
        stats.set(leaf * 3 + 2, h);
        proof {
            assert forall|c: int| 0 <= c < stats@.len() implies #[trigger] stats@[c] == leaf_stats_fold(der1@, weight@, indices@, leaf_of@, c, (i + 1) as nat) by {
                assert(before[c] == leaf_stats_fold(der1@, weight@, indices@, leaf_of@, c, i as nat));
            }
        }
        i = i + 1;
    }
    assert(stats@ =~= Seq::new((n_leaves * 3) as nat, |c: int| leaf_stats_fold(der1@, weight@, indices@, leaf_of@, c, indices@.len())));
    stats
}

/// What keeps a pairwise tree from being grown before any split is scored, if anything.
pub open spec fn grow_fault(n: int, cindex_len: int, n_features: int, depth: int) -> Option<CbError> {
    if depth > 1 {
        Some(CbError::OutOfRange(RangeFault::Depth { depth: depth as usize }))
    } else if n_features * n > usize::MAX {
        Some(CbError::OutOfRange(RangeFault::TreeStride { n_features: n_features as usize, n: n as usize }))
    } else if cindex_len != n_features * n {
        Some(
            CbError::LengthMismatch {
                column: Column::Cindex,
                expected: (n_features * n) as usize,
                actual: cindex_len as usize,
            },
        )
    } else {
        None
    }
}

/// An object is routed to the right leaf by its bin where it takes part; others stay in
/// the left leaf.
pub open spec fn stump_leaf(cindex: Seq<u32>, indices: Seq<u32>, n: int, feature: u32, bin: u32, obj: int) -> u32 {
    if indices.contains(obj as u32) {
        routed(0, cindex[feature * n + obj] > bin, 0)
    } else {
        0
    }
}

/// The depth-one tree of a split.
pub open spec fn stump_grown<F: Real>(
    tree: GrownTree<F>,
    split: BestSplit<F>,
    der1: Seq<F>,
    weight: Seq<F>,
    cindex: Seq<u32>,
    indices: Seq<u32>,
    scaled_l2: F,
) -> bool {
    let n = der1.len() as int;
    &&& tree.splits@ == seq![(split.feature_id, split.bin_id)]
    &&& tree.leaf_of@ == Seq::new(n as nat, |obj: int| stump_leaf(cindex, indices, n, split.feature_id, split.bin_id, obj))
    &&& tree.part_stats@ == Seq::new(6, |c: int| leaf_stats_fold(der1, weight, indices, tree.leaf_of@, c, indices.len()))
    &&& tree.leaf_values@ == Seq::new(
        2,
        |leaf: int| leaf_avg(tree.part_stats@[leaf * 3], tree.part_stats@[leaf * 3 + 1], scaled_l2),
    )
}

/// Grows a pairwise tree of depth one by the best of the given border scores.
pub fn grow_oblivious_tree_pairwise<F: Real>(
    der1: &[F],
    weight: &[F],
    pair_i: &[u32],
    pair_j: &[u32],
    pair_weight: &[F],
    cindex: &[u32],
    indices: &[u32],
    n_bins: usize,
    n_features: usize,
    depth: usize,
    scaled_l2: F,
    feature_scores: &[Vec<F>],
) -> (r: CbResult<GrownTree<F>>)
    requires
        weight@.len() >= der1@.len(),
        der1@.len() <= u32::MAX,
    ensures
        der1@.len() == 0 || n_features == 0 || n_bins == 0 || depth == 0 ==> (r matches Ok(tree) && tree.splits@.len() == 0
            && tree.leaf_of@ == Seq::new(der1@.len(), |i: int| 0u32) && tree.leaf_values@.len() == 0 && tree.part_stats@.len() == 0),
        der1@.len() > 0 && n_features > 0 && n_bins > 0 && depth > 0 ==> match grow_fault(
            der1@.len() as int,
            cindex@.len() as int,
            n_features as int,
            depth as int,
        ) {
            Some(e) => r == Err::<GrownTree<F>, CbError>(e),
            None => match split_score_fault(
                der1@.len() as int,
                pair_i@,
                pair_j@,
                pair_weight@.len() as int,
                cindex@,
                indices@,
                n_bins as int,
                n_features as int,
            ) {
                Some(e) => r == Err::<GrownTree<F>, CbError>(e),
                None => exists|s: PairwiseSplitScore<F>| #[trigger]
                    level_scored(s, der1@, cindex@, indices@, n_bins as int, n_features as int, feature_scores@) && match s.best {
                        None => r == Err::<GrownTree<F>, CbError>(CbError::Degenerate(Degeneracy::NoSplit { level: 0 })),
                        Some(split) => r matches Ok(tree) && stump_grown(tree, split, der1@, weight@, cindex@, indices@, scaled_l2),
                    },
            },
        },
{
    let n: usize = der1.len();
    if n == 0 || n_features == 0 || n_bins == 0 || depth == 0 {
        let leaf_of: Vec<u32> = vec![0; n];
        assert(leaf_of@ =~= Seq::new(der1@.len(), |i: int| 0u32));
        return Ok(GrownTree { splits: Vec::new(), leaf_of, leaf_values: Vec::new(), part_stats: Vec::new() });
    }
    if depth > 1 {
        return Err(CbError::OutOfRange(RangeFault::Depth { depth }));
    }
    let stride: usize = match n_features.checked_mul(n) {
        Some(stride) => stride,
        None => {
            return Err(CbError::OutOfRange(RangeFault::TreeStride { n_features, n }));
        },
    };
    if cindex.len() != stride {
        return Err(CbError::LengthMismatch { column: Column::Cindex, expected: stride, actual: cindex.len() });
    }
    let scored: PairwiseSplitScore<F> = match launch_pairwise_split_score(
        der1,
        pair_i,
        pair_j,
        pair_weight,
        cindex,
        indices,
        n_bins,
        n_features,
        feature_scores,
    ) {
        Ok(scored) => scored,
        Err(e) => {
            return Err(e);
        },
    };
    let ghost level = scored;
    assert(level_scored(level, der1@, cindex@, indices@, n_bins as int, n_features as int, feature_scores@));
    let split: BestSplit<F> = match scored.best {
        Some(split) => split,
        None => {
            return Err(CbError::Degenerate(Degeneracy::NoSplit { level: 0 }));
        },
    };
    proof {
        lemma_first_from(indices@, 0, indices@.len() as int, n as int);
        lemma_split_feature(level.scores@, n_features as int, n_bins - 1, split);
        lemma_row(split.feature_id as int, n_features as int, n as int, n - 1);
        assert((split.feature_id + 1) * n == split.feature_id * n + n) by (nonlinear_arith);
    }
    let start: Vec<u32> = vec![0; n];
    let mut leaf_of: Vec<u32> = vec![0; n];
    partition_split_kernel(cindex, indices, start.as_slice(), &mut leaf_of, split.feature_id as usize, split.bin_id, 0, false);
    proof {
        assert(0u32 | (1u32 << 0u32) == 1) by (bit_vector);
        assert forall|obj: int| 0 <= obj < n implies #[trigger] leaf_of@[obj] == stump_leaf(cindex@, indices@, n as int, split.feature_id, split.bin_id, obj) by {
            if indices@.contains(obj as u32) {
                let i = choose|i: int| 0 <= i < indices@.len() && indices@[i] == obj as u32;
                assert(indices@[i] as int == obj);
            } else {
                assert forall|i: int| 0 <= i < indices@.len() implies indices@[i] != obj by {
                    if indices@[i] == obj {
                        assert(indices@[i] == obj as u32);
                    }
                }
            }
        }
        assert(leaf_of@ =~= Seq::new(n as nat, |obj: int| stump_leaf(cindex@, indices@, n as int, split.feature_id, split.bin_id, obj)));
    }
    let part_stats: Vec<F> = leaf_stats(der1, weight, indices, &leaf_of, 2);
    let left: F = cb_leaf_avg(part_stats[0], part_stats[1], scaled_l2);
    let right: F = cb_leaf_avg(part_stats[3], part_stats[4], scaled_l2);
    let leaf_values: Vec<F> = vec![left, right];
    let splits: Vec<(u32, u32)> = vec![(split.feature_id, split.bin_id)];
    let tree = GrownTree { splits, leaf_of, leaf_values, part_stats };
    proof {
        assert(tree.splits@ =~= seq![(split.feature_id, split.bin_id)]);
        assert(tree.leaf_values@ =~= Seq::new(
            2,
            |leaf: int| leaf_avg(tree.part_stats@[leaf * 3], tree.part_stats@[leaf * 3 + 1], scaled_l2),
        ));
        assert(stump_grown(tree, split, der1@, weight@, cindex@, indices@, scaled_l2));
    }
    Ok(tree)
}

/// A selected split names a feature.
proof fn lemma_split_feature<F: Real>(scores: Seq<F>, n_features: int, n_splits: int, split: BestSplit<F>)
    requires
        scores.len() == n_features * n_splits,
        n_splits > 0,
        n_features * n_splits <= u32::MAX,
        n_features > 0,
        selected_split(scores, all_allowed(scores.len()), n_splits, Some(split)),
    ensures
        split.feature_id < n_features,
        split.bin_id < n_splits,
{
    let c = choose|c: int|
        crate::split::first_best(scores, all_allowed(scores.len()), scores[c], c) && c < scores.len()
            && split == #[trigger] crate::split::split_of(scores, n_splits, c);
    crate::histogram::lemma_line(c, n_splits, n_features);
    assert(n_features <= n_features * n_splits) by (nonlinear_arith)
        requires
            n_splits >= 1,
            n_features >= 0,
    ;
    assert(n_splits <= n_features * n_splits) by (nonlinear_arith)
        requires
            n_features >= 1,
            n_splits >= 0,
    ;
}

} // verus!
