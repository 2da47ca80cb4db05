//! The errors the backend reports. Each one names the check that failed, with the
//! offending values, and has a message.

use vstd::prelude::*;
use vstd::string::StringExecFns;
use crate::text::{join_one, join_two, with_one, with_two};

verus! {

/// A host column whose length is checked before a launch.
#[derive(Clone, Copy, Debug, PartialEq, Eq, Structural)]
pub enum Column {
    PairJ,
    PairWeight,
    Cindex,
    Indices,
    BinsFeatureMajor,
    Weight,
    Target,
    Approx,
    WeightSums,
    OneHotFlags,
}

/// What needs double-precision channels.
#[derive(Clone, Copy, Debug, PartialEq, Eq, Structural)]
pub enum DoubleUse {
    /// The linear system of pairwise leaves.
    PairwiseSystem,
    /// The leaf block of several outputs.
    OutputBlock,
    /// The trajectory of ordered boosting.
    Trajectory,
    /// The derivatives of a query objective.
    QueryDer,
}

/// A stretch of the learning order.
#[derive(Clone, Copy, Debug, PartialEq, Eq, Structural)]
pub enum OrderedPart {
    /// The estimation prefix.
    Body,
    /// The approximated objects.
    Tail,
    /// The objects after the tail.
    Rest,
}

/// A value, or a length computed from the arguments, that is out of range.
#[derive(Clone, Copy, Debug, PartialEq, Eq, Structural)]
pub enum RangeFault {
    /// `n_features * n_objects` does not fit in `usize`.
    CindexStride { n_features: usize, n_objects: usize },
    /// `n_features * n` does not fit in `usize`.
    ObjectStride { n_features: usize, n: usize },
    /// `n_features * n` of a tree does not fit in `usize`.
    TreeStride { n_features: usize, n: usize },
    /// `n_features * n` of a packed table does not fit in `usize`.
    TableStride { n_features: usize, n: usize },
    /// A packed word offset that the `u32` axis cannot hold.
    WordOffset { offset: usize },
    /// `n_features * n_bins * channels` does not fit in `usize`.
    BinSums { n_features: usize, n_bins: usize },
    /// The running sums of a pairwise histogram do not fit in `usize`.
    CumulativeSums { n_features: usize, n_bins: usize },
    /// `n_features * n_bins` does not fit in `usize`.
    DerSums { n_features: usize, n_bins: usize },
    /// A candidate count that the `u32` argmax axis cannot hold.
    CandidateAxis { n_candidates: usize },
    /// A first object of a pair that would read a column out of bounds.
    PairI { value: u32, n_objects: usize },
    /// A second object of a pair that would read a column out of bounds.
    PairJ { value: u32, n_objects: usize },
    /// An object id that would read a column out of bounds.
    ObjectId { value: u32, n: usize },
    /// A bin value that would write a histogram out of bounds.
    BinValue { value: u32, n_bins: usize },
    /// A bin value that would write derivative sums out of bounds.
    DerBin { value: u32, n_bins: usize },
    /// A bin value that a packed field does not hold.
    BucketValue { value: u32, n_buckets: usize },
    /// A bin line wider than one scan block.
    ScanWidth { n_bins: usize },
    /// A scan cube count that the launch geometry cannot hold.
    ScanCubes { num_cubes: usize },
    /// A bin count that does not fit the `u32` bin axis of a kernel.
    BinAxis { n_bins: usize },
    /// `leaf_count * leaf_count` does not fit in `usize`.
    WeightMatrix { leaf_count: usize },
    /// A tree depth that the pairwise grower does not reach.
    Depth { depth: usize },
    /// `k * (k + 1)` does not fit in `usize`.
    PackedHessian { k: usize },
    /// `k * n` does not fit in `usize`.
    OutputBlock { k: usize, n: usize },
    /// `n` packed Hessians do not fit in `usize`.
    HessianBlock { n: usize, pk: usize },
    /// `bins + 1` does not fit in `u32`.
    PackBins { bins: u32 },
    /// A packed word count whose slots do not fit in `usize`.
    PackWords { num_words: usize, keys_per_word: u32 },
    /// A feature whose bucket count does not fit one packed word.
    BucketWidth { n_buckets: usize },
    /// The backend has no double-precision channels.
    NoDoubles(DoubleUse),
}

/// An input that no launch can serve.
#[derive(Clone, Copy, Debug, PartialEq, Eq, Structural)]
pub enum Degeneracy {
    /// A bin count that the one-byte histograms do not have.
    FamilyWidth { bits: u32, n_bins: usize },
    /// A bin count that the eight-bit histograms do not have.
    ByteWidth { n_bins: usize },
    /// A bin count that the half-byte histograms do not have.
    HalfByteWidth { n_bins: usize },
    /// A bin count that the binary histograms do not have.
    BinaryWidth { n_bins: usize },
    /// A bin count that the pairwise scorer does not have.
    ScoreWidth { n_bins: usize },
    /// No candidate split at a tree level.
    NoSplit { level: usize },
    /// `leaf_of` or `der` is shorter than the permutation.
    ShortColumn,
    /// A negative permutation entry.
    NegativeIndex { part: OrderedPart, position: usize },
    /// A permutation entry past the end of a column.
    IndexRange { part: OrderedPart, position: usize },
    /// A weight column that is neither empty nor one entry per object.
    WeightLength { expected: usize, actual: usize },
    /// Approximation and target columns of different lengths.
    TargetLength { approx: usize, target: usize },
    /// A query offset table without entries.
    NoQueryOffsets,
    /// A query offset table that does not ascend to the object count.
    QueryOffsets,
    /// No derivatives on the device.
    MissingDer1,
    /// No target on the device.
    MissingTarget,
}

/// What a backend call reports instead of a result.
#[derive(Clone, Copy, Debug, PartialEq, Eq, Structural)]
pub enum CbError {
    OutOfRange(RangeFault),
    LengthMismatch { column: Column, expected: usize, actual: usize },
    Degenerate(Degeneracy),
}

/// The result of a backend call.
pub type CbResult<T> = Result<T, CbError>;

/// The name of a column.
pub open spec fn column_text(column: Column) -> Seq<char> {
    match column {
        Column::PairJ => "pair_j"@,
        Column::PairWeight => "pair_weight"@,
        Column::Cindex => "cindex"@,
        Column::Indices => "indices"@,
        Column::BinsFeatureMajor => "bins_feature_major"@,
        Column::Weight => "weight"@,
        Column::Target => "target"@,
        Column::Approx => "approx"@,
        Column::WeightSums => "weight_sums"@,
        Column::OneHotFlags => "one_hot_flags"@,
    }
}

impl Column {
    /// The name of the column.
    pub fn name(self) -> (r: String)
        ensures
            r@ == column_text(self),
    {
        match self {
            Column::PairJ => "pair_j".to_owned(),
            Column::PairWeight => "pair_weight".to_owned(),
            Column::Cindex => "cindex".to_owned(),
            Column::Indices => "indices".to_owned(),
            Column::BinsFeatureMajor => "bins_feature_major".to_owned(),
            Column::Weight => "weight".to_owned(),
            Column::Target => "target".to_owned(),
            Column::Approx => "approx".to_owned(),
            Column::WeightSums => "weight_sums".to_owned(),
            Column::OneHotFlags => "one_hot_flags".to_owned(),
        }
    }
}

/// Why the backend cannot serve what needs doubles.
pub open spec fn doubles_text(need: DoubleUse) -> Seq<char> {
    match need {
        DoubleUse::PairwiseSystem => "device pairwise per-leaf linear-system assembly requires f64 device channels; the wgpu backend has none. Use the rocm/cuda/cpu backend for the pairwise Cholesky path."@,
        DoubleUse::OutputBlock => "multi-output block solve requires f64 device channels; the wgpu backend has none (WGSL has no f64). Use the rocm/cuda/cpu backend for the multi-output leaf block."@,
        DoubleUse::Trajectory => "ordered trajectory requires f64 device channels; the wgpu backend has none (WGSL has no f64). Use the rocm/cuda/cpu backend for the ordered per-permutation trajectory."@,
        DoubleUse::QueryDer => "device ranking der requires f64 + u64 device channels; the wgpu backend has neither (WR-01). Use the rocm/cuda/cpu backend for the query der."@,
    }
}

fn doubles_message(need: &DoubleUse) -> (r: String)
    ensures
        r@ == doubles_text(*need),
{
    match need {
        DoubleUse::PairwiseSystem => "device pairwise per-leaf linear-system assembly requires f64 device channels; the wgpu backend has none. Use the rocm/cuda/cpu backend for the pairwise Cholesky path.".to_owned(),
        DoubleUse::OutputBlock => "multi-output block solve requires f64 device channels; the wgpu backend has none (WGSL has no f64). Use the rocm/cuda/cpu backend for the multi-output leaf block.".to_owned(),
        DoubleUse::Trajectory => "ordered trajectory requires f64 device channels; the wgpu backend has none (WGSL has no f64). Use the rocm/cuda/cpu backend for the ordered per-permutation trajectory.".to_owned(),
        DoubleUse::QueryDer => "device ranking der requires f64 + u64 device channels; the wgpu backend has neither (WR-01). Use the rocm/cuda/cpu backend for the query der.".to_owned(),
    }
}

/// What is out of range.
pub open spec fn range_text(fault: RangeFault) -> Seq<char> {
    match fault {
        RangeFault::CindexStride { n_features, n_objects } => with_two(
                "n_features ("@,
                n_features as nat,
                ") * n_objects ("@,
                n_objects as nat,
                ") overflows usize (cindex stride)"@,
            ),
        RangeFault::ObjectStride { n_features, n } => with_two(
                "n_features ("@,
                n_features as nat,
                ") * n ("@,
                n as nat,
                ") overflows usize (cindex stride)"@,
            ),
        RangeFault::TreeStride { n_features, n } => with_two(
                "n_features ("@,
                n_features as nat,
                ") * n ("@,
                n as nat,
                ") overflows usize"@,
            ),
        RangeFault::TableStride { n_features, n } => with_two(
                "eff_n_features ("@,
                n_features as nat,
                ") * n ("@,
                n as nat,
                ") overflows usize (cindex stride)"@,
            ),
        RangeFault::WordOffset { offset } => with_one("packed word offset ("@, offset as nat, ") exceeds u32"@),
        RangeFault::BinSums { n_features, n_bins } => with_two(
                "n_features ("@,
                n_features as nat,
                ") * n_bins ("@,
                n_bins as nat,
                ") * 4 overflows usize (binSums length)"@,
            ),
        RangeFault::CumulativeSums { n_features, n_bins } => with_two(
                "n_features ("@,
                n_features as nat,
                ") * n_bins ("@,
                n_bins as nat,
                ") * 4 overflows usize (pairwise cumulative length)"@,
            ),
        RangeFault::DerSums { n_features, n_bins } => with_two(
                "n_features ("@,
                n_features as nat,
                ") * n_bins ("@,
                n_bins as nat,
                ") overflows usize (der-sums length)"@,
            ),
        RangeFault::CandidateAxis { n_candidates } => with_one(
                "n_candidates ("@,
                n_candidates as nat,
                ") exceeds u32 (argmin axis)"@,
            ),
        RangeFault::PairI { value, n_objects } => with_two(
                "pair_i value "@,
                value as nat,
                " >= n_objects ("@,
                n_objects as nat,
                "); object id would read cindex out of bounds"@,
            ),
        RangeFault::PairJ { value, n_objects } => with_two(
                "pair_j value "@,
                value as nat,
                " >= n_objects ("@,
                n_objects as nat,
                "); object id would read cindex out of bounds"@,
            ),
        RangeFault::ObjectId { value, n } => with_two(
                "indices value "@,
                value as nat,
                " >= n ("@,
                n as nat,
                "); object id would read der1/cindex out of bounds"@,
            ),
        RangeFault::BinValue { value, n_bins } => with_two(
                "cindex bin value "@,
                value as nat,
                " >= n_bins ("@,
                n_bins as nat,
                "); would write bin_sums out of bounds"@,
            ),
        RangeFault::DerBin { value, n_bins } => with_two(
                "cindex bin value "@,
                value as nat,
                " >= n_bins ("@,
                n_bins as nat,
                "); would write der_sums out of bounds"@,
            ),
        RangeFault::BucketValue { value, n_buckets } => with_two(
                "bin value "@,
                value as nat,
                " >= n_buckets ("@,
                n_buckets as nat,
                ")"@,
            ),
        RangeFault::ScanWidth { n_bins } => with_one(
                "launch_scan_update_pairwise supports n_bins <= 32 until the cross-cube scan carry lands (RESEARCH Open Q3, the tracked pairwise cross-cube-carry follow-up for 8-bit/256-bin features); got n_bins = "@,
                n_bins as nat,
                ""@,
            ),
        RangeFault::ScanCubes { num_cubes } => with_one("pairwise scan cube count ("@, num_cubes as nat, ") exceeds u32"@),
        RangeFault::BinAxis { n_bins } => with_one("n_bins ("@, n_bins as nat, ") exceeds u32 (kernel comptime line size)"@),
        RangeFault::WeightMatrix { leaf_count } => with_one(
                "leaf_count ("@,
                leaf_count as nat,
                ") squared overflows usize (weight-sum matrix length)"@,
            ),
        RangeFault::Depth { depth } => with_one(
                "grow_oblivious_tree_pairwise supports depth <= 1 until the partition-aware (per-leaf, leaf_count > 1) pairwise der-sum + pair-weight assembly lands (the depth-1 stump scores the single root leaf; a depth>1 level scores over 2^level partitions — the EXPLICIT tracked forward dependency); got depth = "@,
                depth as nat,
                ""@,
            ),
        RangeFault::PackedHessian { k } => with_one("packed hessian length overflows (k = "@, k as nat, ")"@),
        RangeFault::OutputBlock { k, n } => with_two("k·n overflows (k = "@, k as nat, ", n = "@, n as nat, ")"@),
        RangeFault::HessianBlock { n, pk } => with_two("n·pk overflows (n = "@, n as nat, ", pk = "@, pk as nat, ")"@),
        RangeFault::PackBins { bins } => with_one("bit_pack_layout: n_bins "@, bins as nat, " + 1 overflows u32"@),
        RangeFault::PackWords { num_words, keys_per_word } => with_two(
                "bit_pack_layout: num_words "@,
                num_words as nat,
                " * keys_per_word "@,
                keys_per_word as nat,
                " overflows usize"@,
            ),
        RangeFault::BucketWidth { n_buckets } => with_one("n_buckets ("@, n_buckets as nat, ") exceeds one packed word"@),
        RangeFault::NoDoubles(need) => doubles_text(need),
    }
}

fn range_message(fault: &RangeFault) -> (r: String)
    ensures
        r@ == range_text(*fault),
{
    match fault {
        RangeFault::CindexStride { n_features, n_objects } => join_two(
                "n_features (",
                *n_features as u64,
                ") * n_objects (",
                *n_objects as u64,
                ") overflows usize (cindex stride)",
            ),
        RangeFault::ObjectStride { n_features, n } => join_two(
                "n_features (",
                *n_features as u64,
                ") * n (",
                *n as u64,
                ") overflows usize (cindex stride)",
            ),
        RangeFault::TreeStride { n_features, n } => join_two(
                "n_features (",
                *n_features as u64,
                ") * n (",
                *n as u64,
                ") overflows usize",
            ),
        RangeFault::TableStride { n_features, n } => join_two(
                "eff_n_features (",
                *n_features as u64,
                ") * n (",
                *n as u64,
                ") overflows usize (cindex stride)",
            ),
        RangeFault::WordOffset { offset } => join_one("packed word offset (", *offset as u64, ") exceeds u32"),
        RangeFault::BinSums { n_features, n_bins } => join_two(
                "n_features (",
                *n_features as u64,
                ") * n_bins (",
                *n_bins as u64,
                ") * 4 overflows usize (binSums length)",
            ),
        RangeFault::CumulativeSums { n_features, n_bins } => join_two(
                "n_features (",
                *n_features as u64,
                ") * n_bins (",
                *n_bins as u64,
                ") * 4 overflows usize (pairwise cumulative length)",
            ),
        RangeFault::DerSums { n_features, n_bins } => join_two(
                "n_features (",
                *n_features as u64,
                ") * n_bins (",
                *n_bins as u64,
                ") overflows usize (der-sums length)",
            ),
        RangeFault::CandidateAxis { n_candidates } => join_one(
                "n_candidates (",
                *n_candidates as u64,
                ") exceeds u32 (argmin axis)",
            ),
        RangeFault::PairI { value, n_objects } => join_two(
                "pair_i value ",
                *value as u64,
                " >= n_objects (",
                *n_objects as u64,
                "); object id would read cindex out of bounds",
            ),
        RangeFault::PairJ { value, n_objects } => join_two(
                "pair_j value ",
                *value as u64,
                " >= n_objects (",
                *n_objects as u64,
                "); object id would read cindex out of bounds",
            ),
        RangeFault::ObjectId { value, n } => join_two(
                "indices value ",
                *value as u64,
                " >= n (",
                *n as u64,
                "); object id would read der1/cindex out of bounds",
            ),
        RangeFault::BinValue { value, n_bins } => join_two(
                "cindex bin value ",
                *value as u64,
                " >= n_bins (",
                *n_bins as u64,
                "); would write bin_sums out of bounds",
            ),
        RangeFault::DerBin { value, n_bins } => join_two(
                "cindex bin value ",
                *value as u64,
                " >= n_bins (",
                *n_bins as u64,
                "); would write der_sums out of bounds",
            ),
        RangeFault::BucketValue { value, n_buckets } => join_two(
                "bin value ",
                *value as u64,
                " >= n_buckets (",
                *n_buckets as u64,
                ")",
            ),
        RangeFault::ScanWidth { n_bins } => join_one(
                "launch_scan_update_pairwise supports n_bins <= 32 until the cross-cube scan carry lands (RESEARCH Open Q3, the tracked pairwise cross-cube-carry follow-up for 8-bit/256-bin features); got n_bins = ",
                *n_bins as u64,
                "",
            ),
        RangeFault::ScanCubes { num_cubes } => join_one("pairwise scan cube count (", *num_cubes as u64, ") exceeds u32"),
        RangeFault::BinAxis { n_bins } => join_one("n_bins (", *n_bins as u64, ") exceeds u32 (kernel comptime line size)"),
        RangeFault::WeightMatrix { leaf_count } => join_one(
                "leaf_count (",
                *leaf_count as u64,
                ") squared overflows usize (weight-sum matrix length)",
            ),
        RangeFault::Depth { depth } => join_one(
                "grow_oblivious_tree_pairwise supports depth <= 1 until the partition-aware (per-leaf, leaf_count > 1) pairwise der-sum + pair-weight assembly lands (the depth-1 stump scores the single root leaf; a depth>1 level scores over 2^level partitions — the EXPLICIT tracked forward dependency); got depth = ",
                *depth as u64,
                "",
            ),
        RangeFault::PackedHessian { k } => join_one("packed hessian length overflows (k = ", *k as u64, ")"),
        RangeFault::OutputBlock { k, n } => join_two("k·n overflows (k = ", *k as u64, ", n = ", *n as u64, ")"),
        RangeFault::HessianBlock { n, pk } => join_two("n·pk overflows (n = ", *n as u64, ", pk = ", *pk as u64, ")"),
        RangeFault::PackBins { bins } => join_one("bit_pack_layout: n_bins ", *bins as u64, " + 1 overflows u32"),
        RangeFault::PackWords { num_words, keys_per_word } => join_two(
                "bit_pack_layout: num_words ",
                *num_words as u64,
                " * keys_per_word ",
                *keys_per_word as u64,
                " overflows usize",
            ),
        RangeFault::BucketWidth { n_buckets } => join_one("n_buckets (", *n_buckets as u64, ") exceeds one packed word"),
        RangeFault::NoDoubles(need) => doubles_message(need),
    }
}

/// What no launch can serve.
pub open spec fn degeneracy_text(fault: Degeneracy) -> Seq<char> {
    match fault {
        Degeneracy::FamilyWidth { bits, n_bins } => with_two(
                "pairwise_hist non-binary fill expects bits in {5,6,7} with n_bins == 1 << bits, got bits="@,
                bits as nat,
                " n_bins="@,
                n_bins as nat,
                ""@,
            ),
        Degeneracy::ByteWidth { n_bins } => with_one(
                "pairwise_hist 8-bit-atomics fill expects n_bins == 256 (1 << 8), got n_bins="@,
                n_bins as nat,
                ""@,
            ),
        Degeneracy::HalfByteWidth { n_bins } => with_one(
                "pairwise_hist half-byte fill expects n_bins == 16 (1 << 4), got n_bins="@,
                n_bins as nat,
                ""@,
            ),
        Degeneracy::BinaryWidth { n_bins } => with_one(
                "pairwise_hist binary fill expects n_bins == 2 (1 << 1), got n_bins="@,
                n_bins as nat,
                ""@,
            ),
        Degeneracy::ScoreWidth { n_bins } => with_one(
                "launch_pairwise_split_score expects n_bins in {32,64,128} (1 << bits for bits in 5..=7, the FROZEN 7.4 one-byte non-binary family); got n_bins = "@,
                n_bins as nat,
                ""@,
            ),
        Degeneracy::NoSplit { level } => with_one(
                "grow_oblivious_tree_pairwise level "@,
                level as nat,
                ": no candidate split (degenerate)"@,
            ),
        Degeneracy::ShortColumn => "ordered_approx: leaf_of / der shorter than permutation"@,
        Degeneracy::NegativeIndex { part, .. } => match part {
            OrderedPart::Body => "ordered_approx: body permutation index is negative"@,
            OrderedPart::Tail => "ordered_approx: tail permutation index is negative"@,
            OrderedPart::Rest => "ordered_approx: permutation index is negative"@,
        },
        Degeneracy::IndexRange { part, .. } => match part {
            OrderedPart::Body => "ordered_approx: body permutation index out of range"@,
            OrderedPart::Tail => "ordered_approx: tail permutation index out of range"@,
            OrderedPart::Rest => "ordered_approx: permutation index out of range"@,
        },
        Degeneracy::WeightLength { expected, actual } => with_two(
                "ranking der: weights len "@,
                actual as nat,
                " != n "@,
                expected as nat,
                ""@,
            ),
        Degeneracy::TargetLength { approx, target } => with_two(
                "ranking der: approx len "@,
                approx as nat,
                " != target len "@,
                target as nat,
                ""@,
            ),
        Degeneracy::NoQueryOffsets => "ranking der: q_offsets must have n_groups + 1 entries (got 0)"@,
        Degeneracy::QueryOffsets => "ranking der: q_offsets do not cover the objects"@,
        Degeneracy::MissingDer1 => "grow_one: resident der1 handle missing after init"@,
        Degeneracy::MissingTarget => "grow_one: resident target handle missing after init"@,
    }
}

fn degeneracy_message(fault: &Degeneracy) -> (r: String)
    ensures
        r@ == degeneracy_text(*fault),
{
    match fault {
        Degeneracy::FamilyWidth { bits, n_bins } => join_two(
                "pairwise_hist non-binary fill expects bits in {5,6,7} with n_bins == 1 << bits, got bits=",
                *bits as u64,
                " n_bins=",
                *n_bins as u64,
                "",
            ),
        Degeneracy::ByteWidth { n_bins } => join_one(
                "pairwise_hist 8-bit-atomics fill expects n_bins == 256 (1 << 8), got n_bins=",
                *n_bins as u64,
                "",
            ),
        Degeneracy::HalfByteWidth { n_bins } => join_one(
                "pairwise_hist half-byte fill expects n_bins == 16 (1 << 4), got n_bins=",
                *n_bins as u64,
                "",
            ),
        Degeneracy::BinaryWidth { n_bins } => join_one(
                "pairwise_hist binary fill expects n_bins == 2 (1 << 1), got n_bins=",
                *n_bins as u64,
                "",
            ),
        Degeneracy::ScoreWidth { n_bins } => join_one(
                "launch_pairwise_split_score expects n_bins in {32,64,128} (1 << bits for bits in 5..=7, the FROZEN 7.4 one-byte non-binary family); got n_bins = ",
                *n_bins as u64,
                "",
            ),
        Degeneracy::NoSplit { level } => join_one(
                "grow_oblivious_tree_pairwise level ",
                *level as u64,
                ": no candidate split (degenerate)",
            ),
        Degeneracy::ShortColumn => "ordered_approx: leaf_of / der shorter than permutation".to_owned(),
        Degeneracy::NegativeIndex { part, .. } => match part {
            OrderedPart::Body => "ordered_approx: body permutation index is negative".to_owned(),
            OrderedPart::Tail => "ordered_approx: tail permutation index is negative".to_owned(),
            OrderedPart::Rest => "ordered_approx: permutation index is negative".to_owned(),
        },
        Degeneracy::IndexRange { part, .. } => match part {
            OrderedPart::Body => "ordered_approx: body permutation index out of range".to_owned(),
            OrderedPart::Tail => "ordered_approx: tail permutation index out of range".to_owned(),
            OrderedPart::Rest => "ordered_approx: permutation index out of range".to_owned(),
        },
        Degeneracy::WeightLength { expected, actual } => join_two(
                "ranking der: weights len ",
                *actual as u64,
                " != n ",
                *expected as u64,
                "",
            ),
        Degeneracy::TargetLength { approx, target } => join_two(
                "ranking der: approx len ",
                *approx as u64,
                " != target len ",
                *target as u64,
                "",
            ),
        Degeneracy::NoQueryOffsets => "ranking der: q_offsets must have n_groups + 1 entries (got 0)".to_owned(),
        Degeneracy::QueryOffsets => "ranking der: q_offsets do not cover the objects".to_owned(),
        Degeneracy::MissingDer1 => "grow_one: resident der1 handle missing after init".to_owned(),
        Degeneracy::MissingTarget => "grow_one: resident target handle missing after init".to_owned(),
    }
}

/// The message of an error.
pub open spec fn error_text(error: CbError) -> Seq<char> {
    match error {
        CbError::OutOfRange(fault) => range_text(fault),
        CbError::LengthMismatch { column, expected, actual } => column_text(column) + with_two(
            ": expected length "@,
            expected as nat,
            ", got "@,
            actual as nat,
            ""@,
        ),
        CbError::Degenerate(fault) => degeneracy_text(fault),
    }
}

impl CbError {
    /// The message of the error.
    pub fn message(&self) -> (r: String)
        ensures
            r@ == error_text(*self),
    {
        match self {
            CbError::OutOfRange(fault) => range_message(fault),
            CbError::LengthMismatch { column, expected, actual } => {
                let mut text: String = column.name();
                let lengths: String = join_two(": expected length ", *expected as u64, ", got ", *actual as u64, "");
                text.append(lengths.as_str());
                text
            },
            CbError::Degenerate(fault) => degeneracy_message(fault),
        }
    }
}

} // verus!
