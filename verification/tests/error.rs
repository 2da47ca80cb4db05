//! The messages of errors.

use cb_backend::error::{CbError, Column, Degeneracy, DoubleUse, OrderedPart, RangeFault};

#[test]
fn range_faults_say_what_does_not_fit() {
    let cases = [
        (
            RangeFault::CindexStride { n_features: 3, n_objects: 40 },
            "n_features (3) * n_objects (40) overflows usize (cindex stride)",
        ),
        (
            RangeFault::ObjectStride { n_features: 3, n: 40 },
            "n_features (3) * n (40) overflows usize (cindex stride)",
        ),
        (
            RangeFault::TreeStride { n_features: 3, n: 40 },
            "n_features (3) * n (40) overflows usize",
        ),
        (
            RangeFault::TableStride { n_features: 3, n: 40 },
            "eff_n_features (3) * n (40) overflows usize (cindex stride)",
        ),
        (
            RangeFault::WordOffset { offset: 5000000000 },
            "packed word offset (5000000000) exceeds u32",
        ),
        (
            RangeFault::BinSums { n_features: 3, n_bins: 70 },
            "n_features (3) * n_bins (70) * 4 overflows usize (binSums length)",
        ),
        (
            RangeFault::CumulativeSums { n_features: 3, n_bins: 70 },
            "n_features (3) * n_bins (70) * 4 overflows usize (pairwise cumulative length)",
        ),
        (
            RangeFault::DerSums { n_features: 3, n_bins: 70 },
            "n_features (3) * n_bins (70) overflows usize (der-sums length)",
        ),
        (
            RangeFault::CandidateAxis { n_candidates: 5000000000 },
            "n_candidates (5000000000) exceeds u32 (argmin axis)",
        ),
        (
            RangeFault::PairI { value: 99, n_objects: 40 },
            "pair_i value 99 >= n_objects (40); object id would read cindex out of bounds",
        ),
        (
            RangeFault::PairJ { value: 99, n_objects: 40 },
            "pair_j value 99 >= n_objects (40); object id would read cindex out of bounds",
        ),
        (
            RangeFault::ObjectId { value: 99, n: 40 },
            "indices value 99 >= n (40); object id would read der1/cindex out of bounds",
        ),
        (
            RangeFault::BinValue { value: 99, n_bins: 70 },
            "cindex bin value 99 >= n_bins (70); would write bin_sums out of bounds",
        ),
        (
            RangeFault::DerBin { value: 99, n_bins: 70 },
            "cindex bin value 99 >= n_bins (70); would write der_sums out of bounds",
        ),
        (
            RangeFault::BucketValue { value: 99, n_buckets: 12 },
            "bin value 99 >= n_buckets (12)",
        ),
        (
            RangeFault::ScanWidth { n_bins: 70 },
            "launch_scan_update_pairwise supports n_bins <= 32 until the cross-cube scan carry lands (RESEARCH Open Q3, the tracked pairwise cross-cube-carry follow-up for 8-bit/256-bin features); got n_bins = 70",
        ),
        (
            RangeFault::ScanCubes { num_cubes: 4294967296 },
            "pairwise scan cube count (4294967296) exceeds u32",
        ),
        (
            RangeFault::BinAxis { n_bins: 70 },
            "n_bins (70) exceeds u32 (kernel comptime line size)",
        ),
        (
            RangeFault::WeightMatrix { leaf_count: 1000 },
            "leaf_count (1000) squared overflows usize (weight-sum matrix length)",
        ),
        (
            RangeFault::Depth { depth: 2 },
            "grow_oblivious_tree_pairwise supports depth <= 1 until the partition-aware (per-leaf, leaf_count > 1) pairwise der-sum + pair-weight assembly lands (the depth-1 stump scores the single root leaf; a depth>1 level scores over 2^level partitions — the EXPLICIT tracked forward dependency); got depth = 2",
        ),
        (
            RangeFault::PackedHessian { k: 18446744073709551615 },
            "packed hessian length overflows (k = 18446744073709551615)",
        ),
        (
            RangeFault::OutputBlock { k: 18446744073709551615, n: 40 },
            "k·n overflows (k = 18446744073709551615, n = 40)",
        ),
        (
            RangeFault::HessianBlock { n: 40, pk: 10 },
            "n·pk overflows (n = 40, pk = 10)",
        ),
        (
            RangeFault::PackBins { bins: 4294967295 },
            "bit_pack_layout: n_bins 4294967295 + 1 overflows u32",
        ),
        (
            RangeFault::PackWords { num_words: 77, keys_per_word: 16 },
            "bit_pack_layout: num_words 77 * keys_per_word 16 overflows usize",
        ),
        (
            RangeFault::BucketWidth { n_buckets: 12 },
            "n_buckets (12) exceeds one packed word",
        ),
        (
            RangeFault::NoDoubles(DoubleUse::PairwiseSystem),
            "device pairwise per-leaf linear-system assembly requires f64 device channels; the wgpu backend has none. Use the rocm/cuda/cpu backend for the pairwise Cholesky path.",
        ),
        (
            RangeFault::NoDoubles(DoubleUse::OutputBlock),
            "multi-output block solve requires f64 device channels; the wgpu backend has none (WGSL has no f64). Use the rocm/cuda/cpu backend for the multi-output leaf block.",
        ),
        (
            RangeFault::NoDoubles(DoubleUse::Trajectory),
            "ordered trajectory requires f64 device channels; the wgpu backend has none (WGSL has no f64). Use the rocm/cuda/cpu backend for the ordered per-permutation trajectory.",
        ),
        (
            RangeFault::NoDoubles(DoubleUse::QueryDer),
            "device ranking der requires f64 + u64 device channels; the wgpu backend has neither (WR-01). Use the rocm/cuda/cpu backend for the query der.",
        ),
    ];
    for (fault, text) in cases {
        assert_eq!(CbError::OutOfRange(fault).message(), text);
    }
}

#[test]
fn degeneracies_say_what_is_wrong() {
    let cases = [
        (
            Degeneracy::FamilyWidth { bits: 9, n_bins: 70 },
            "pairwise_hist non-binary fill expects bits in {5,6,7} with n_bins == 1 << bits, got bits=9 n_bins=70",
        ),
        (
            Degeneracy::ByteWidth { n_bins: 70 },
            "pairwise_hist 8-bit-atomics fill expects n_bins == 256 (1 << 8), got n_bins=70",
        ),
        (
            Degeneracy::HalfByteWidth { n_bins: 70 },
            "pairwise_hist half-byte fill expects n_bins == 16 (1 << 4), got n_bins=70",
        ),
        (
            Degeneracy::BinaryWidth { n_bins: 70 },
            "pairwise_hist binary fill expects n_bins == 2 (1 << 1), got n_bins=70",
        ),
        (
            Degeneracy::ScoreWidth { n_bins: 70 },
            "launch_pairwise_split_score expects n_bins in {32,64,128} (1 << bits for bits in 5..=7, the FROZEN 7.4 one-byte non-binary family); got n_bins = 70",
        ),
        (
            Degeneracy::NoSplit { level: 0 },
            "grow_oblivious_tree_pairwise level 0: no candidate split (degenerate)",
        ),
        (
            Degeneracy::ShortColumn,
            "ordered_approx: leaf_of / der shorter than permutation",
        ),
        (
            Degeneracy::WeightLength { expected: 3, actual: 2 },
            "ranking der: weights len 2 != n 3",
        ),
        (
            Degeneracy::TargetLength { approx: 4, target: 5 },
            "ranking der: approx len 4 != target len 5",
        ),
        (
            Degeneracy::NoQueryOffsets,
            "ranking der: q_offsets must have n_groups + 1 entries (got 0)",
        ),
        (
            Degeneracy::QueryOffsets,
            "ranking der: q_offsets do not cover the objects",
        ),
        (
            Degeneracy::MissingDer1,
            "grow_one: resident der1 handle missing after init",
        ),
        (
            Degeneracy::MissingTarget,
            "grow_one: resident target handle missing after init",
        ),
        (
            Degeneracy::NegativeIndex { part: OrderedPart::Body, position: 6 },
            "ordered_approx: body permutation index is negative",
        ),
        (
            Degeneracy::IndexRange { part: OrderedPart::Body, position: 6 },
            "ordered_approx: body permutation index out of range",
        ),
        (
            Degeneracy::NegativeIndex { part: OrderedPart::Tail, position: 6 },
            "ordered_approx: tail permutation index is negative",
        ),
        (
            Degeneracy::IndexRange { part: OrderedPart::Tail, position: 6 },
            "ordered_approx: tail permutation index out of range",
        ),
        (
            Degeneracy::NegativeIndex { part: OrderedPart::Rest, position: 6 },
            "ordered_approx: permutation index is negative",
        ),
        (
            Degeneracy::IndexRange { part: OrderedPart::Rest, position: 6 },
            "ordered_approx: permutation index out of range",
        ),
    ];
    for (fault, text) in cases {
        assert_eq!(CbError::Degenerate(fault).message(), text);
    }
}

#[test]
fn length_mismatches_name_the_column() {
    let error = CbError::LengthMismatch { column: Column::PairJ, expected: 10, actual: 0 };
    assert_eq!(error.message(), "pair_j: expected length 10, got 0");
    let columns = [
        (Column::PairJ, "pair_j"),
        (Column::PairWeight, "pair_weight"),
        (Column::Cindex, "cindex"),
        (Column::Indices, "indices"),
        (Column::BinsFeatureMajor, "bins_feature_major"),
        (Column::Weight, "weight"),
        (Column::Target, "target"),
        (Column::Approx, "approx"),
        (Column::WeightSums, "weight_sums"),
        (Column::OneHotFlags, "one_hot_flags"),
    ];
    for (column, name) in columns {
        assert_eq!(column.name(), name);
    }
}
