//! Routing objects down a tree, packed tables, and partitions.

use cb_backend::cindex::{bit_pack_layout, pack_bins_kernel, pack_cindex, unpack_bins_kernel};
use cb_backend::error::{CbError, Column, RangeFault};
use cb_backend::partition::{
    cpu_leaf_index, partition_split_kernel, partition_split_packed, update_partition_offsets_kernel,
    update_partition_sizes_kernel, update_partitions,
};
use cb_backend::scan::full_scan;
use cb_backend::segment::key_head_flag_kernel;

fn route(bins: &[u32], n_buckets: usize, one_hot: bool, bin: u32, level_bit: u32) -> Vec<u32> {
    let n = bins.len();
    let packed = pack_cindex(bins, &[n_buckets], &[one_hot], n).expect("pack_cindex must succeed");
    let arrays = packed.device_arrays().expect("device_arrays");
    let leaf_of = vec![0u32; n];
    partition_split_packed(
        &packed.words,
        &leaf_of,
        arrays.offsets.first().copied().unwrap_or(0) as usize,
        arrays.shifts.first().copied().unwrap_or(0),
        arrays.masks.first().copied().unwrap_or(0),
        bin,
        level_bit,
        one_hot,
    )
}

#[test]
fn one_hot_partition_split_routes_on_equality() {
    let bins = [0u32, 1, 2, 1, 0];
    let got = route(&bins, 3, /* one_hot = */ true, /* bin = */ 1, 0);
    assert_eq!(
        got,
        vec![0u32, 1, 0, 1, 0],
        "an equality split must set the level bit for bins EQUAL to the value; the \
         threshold test would also let bin 2 through, giving [0, 1, 1, 1, 0]"
    );
}

#[test]
fn float_partition_split_is_unchanged_after_the_one_hot_arm() {
    let bins = [0u32, 1, 2, 1, 0];
    let got = route(&bins, 3, /* one_hot = */ false, /* bin = */ 1, 0);
    assert_eq!(
        got,
        vec![0u32, 0, 1, 0, 0],
        "the threshold arm must still be `bin > border` exactly"
    );

    let got_bit2 = route(&bins, 3, false, 0, 2);
    assert_eq!(
        got_bit2,
        vec![0u32, 4, 4, 4, 0],
        "the level bit position is independent of the split kind"
    );
}

#[test]
fn an_unpacked_split_sets_the_level_bit() {
    let cindex = vec![0u32, 5, 9, 2];
    let indices = vec![0u32, 1, 2, 3];
    let leaf_of = vec![1u32, 1, 0, 0];
    let mut next = vec![0u32; 4];
    partition_split_kernel(&cindex, &indices, &leaf_of, &mut next, 0, 4, 1, false);
    assert_eq!(next, vec![1, 3, 2, 0]);
    partition_split_kernel(&cindex, &indices, &leaf_of, &mut next, 0, 5, 1, true);
    assert_eq!(next, vec![1, 3, 0, 0]);
}

#[test]
fn a_leaf_index_holds_its_tests() {
    assert_eq!(cpu_leaf_index(&[]), 0);
    assert_eq!(cpu_leaf_index(&[true, false, true]), 5);
    assert_eq!(cpu_leaf_index(&[false, true]), 2);
    assert_eq!(cpu_leaf_index(&vec![true; usize::BITS as usize]), usize::MAX);
}

#[test]
fn packing_then_unpacking_gives_back_the_bins() {
    let bins: Vec<u32> = (0..37u32).map(|i| (i * 5) % 12).collect();
    let layout = bit_pack_layout(11, bins.len()).expect("a packable width");
    assert_eq!((layout.bits_per_key, layout.keys_per_word, layout.mask), (4, 8, 15));
    assert_eq!(layout.num_words, 5);
    let words = pack_bins_kernel(&bins, layout);
    assert_eq!(words.len(), 5);
    assert_ne!(words[0], bins[0]);
    let layout = bit_pack_layout(11, bins.len()).expect("a packable width");
    assert_eq!(unpack_bins_kernel(&words, layout, bins.len()), bins);
    assert!(matches!(
        bit_pack_layout(u32::MAX, 1),
        Err(CbError::OutOfRange(RangeFault::PackBins { bins: u32::MAX }))
    ));
}

#[test]
fn packed_tables_check_their_columns() {
    let short = pack_cindex(&[0, 1, 2], &[4, 4], &[false, false], 2);
    assert!(matches!(
        short,
        Err(CbError::LengthMismatch { column: Column::Cindex, expected: 4, actual: 3 })
    ));
    let flags = pack_cindex(&[0, 1, 2, 3], &[4, 4], &[false], 2);
    assert!(matches!(flags, Err(CbError::LengthMismatch { column: Column::OneHotFlags, expected: 2, actual: 1 })));
    let value = pack_cindex(&[0, 9], &[4], &[false], 2);
    assert!(matches!(value, Err(CbError::OutOfRange(RangeFault::BucketValue { value: 9, n_buckets: 4 }))));
    let good = pack_cindex(&[0, 1, 2, 3], &[4, 4], &[false, true], 2).expect("a valid table");
    let arrays = good.device_arrays().expect("small offsets");
    assert_eq!(arrays.flags, vec![false, true]);
    for f in 0..2 {
        for obj in 0..2 {
            let word = good.words[arrays.offsets[f] as usize + obj];
            assert_eq!((word >> arrays.shifts[f]) & arrays.masks[f], (f * 2 + obj) as u32);
        }
    }
}

#[test]
fn features_share_words_while_they_fit() {
    // Fields of 8, 16, 7, 5 and 1 bits: the fourth does not fit beside the first three.
    let buckets = [256usize, 65536, 128, 17, 1];
    let bins: Vec<u32> = vec![255, 1, 65535, 2, 127, 3, 16, 4, 0, 0];
    let packed = pack_cindex(&bins, &buckets, &[false; 5], 2).expect("a valid table");
    let places: Vec<(usize, u32, u32, u32)> =
        packed.features.iter().map(|f| (f.offset, f.shift, f.bits, f.mask)).collect();
    assert_eq!(
        places,
        vec![(0, 0, 8, 255), (0, 8, 16, 65535), (0, 24, 7, 127), (2, 0, 5, 31), (2, 5, 1, 1)]
    );
    assert_eq!(packed.words, vec![0x7fff_ffff, 0x0300_0201, 16, 4]);
    let none = pack_cindex(&[], &[], &[], 2).expect("no features");
    assert!(none.words.is_empty() && none.features.is_empty());
}

#[test]
fn partitions_tile_the_objects() {
    let ids = vec![0u32, 0, 2, 2, 2];
    let (offsets, sizes) = update_partitions(&ids, 4);
    assert_eq!(sizes, vec![2, 0, 3, 0]);
    let mut at = 0u32;
    for p in 0..4 {
        if sizes[p] > 0 {
            assert_eq!(offsets[p], at);
        }
        at += sizes[p];
    }
    assert_eq!(at as usize, ids.len());
}

#[test]
fn partition_steps_agree_with_the_whole() {
    let ids = vec![0u32, 1, 1, 3];
    let (offsets, sizes) = update_partitions(&ids, 4);
    let flags = key_head_flag_kernel(&ids);
    let run_ids = full_scan(&flags, false);
    let mut first = vec![0u32; 4];
    let mut run_keys = vec![0u32; 3];
    let mut run_starts = vec![0u32; 3];
    update_partition_offsets_kernel(&ids, &flags, &run_ids, &mut first, &mut run_keys, &mut run_starts);
    assert_eq!((run_keys.clone(), run_starts.clone()), (vec![0, 1, 3], vec![0, 1, 3]));
    let mut counted = vec![0u32; 4];
    update_partition_sizes_kernel(&run_keys, &run_starts, &mut counted, 4);
    assert_eq!(counted, sizes);
    assert_eq!(counted, vec![1, 2, 0, 1]);
    for p in [0, 1, 3] {
        assert_eq!(first[p], offsets[p]);
    }
}

#[test]
fn widths_beyond_a_word_are_refused() {
    let wide = pack_cindex(&[0], &[1 << 33], &[false], 1);
    assert!(matches!(wide, Err(CbError::OutOfRange(RangeFault::BucketWidth { n_buckets: 0x2_0000_0000 }))));
    let stride = pack_cindex(&[], &[4, 4], &[false, false], usize::MAX);
    assert!(matches!(stride, Err(CbError::OutOfRange(RangeFault::TableStride { n_features: 2, n: usize::MAX }))));
    let words = bit_pack_layout(3, usize::MAX);
    assert!(matches!(words, Err(CbError::OutOfRange(RangeFault::PackWords { keys_per_word: 16, .. }))));
}
