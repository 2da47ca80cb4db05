//! Packed columns: several bins to a word.

use vstd::prelude::*;
use crate::error::{CbError, CbResult, Column, RangeFault};
use crate::guard::{find_from, first_from, lemma_first_from};
use crate::histogram::lemma_row;
use crate::partition::field_of;

verus! {

/// How a column of bins is packed into words.
#[derive(Clone, Copy, Debug, PartialEq, Eq, Structural)]
pub struct BitPackLayout {
    pub bits_per_key: u32,
    pub keys_per_word: u32,
    pub mask: u32,
    pub num_words: usize,
}

/// The least number of bits, and at least one, that hold every value up to `top`.
pub open spec fn is_bit_length(top: u32, bits: u32) -> bool {
    &&& 1 <= bits <= 32
    &&& (top as u64) < (1u64 << bits)
    &&& (bits == 1 || (top as u64) >= (1u64 << ((bits - 1) as u32)))
}

/// The low `bits` bits.
pub open spec fn low_mask(bits: u32) -> u32 {
    ((1u64 << bits) - 1) as u32
}

/// The least number of bits, and at least one, that hold every value up to `top`.
fn bit_length(top: u32) -> (r: u32)
    ensures
        is_bit_length(top, r),
{
    let mut bits: u32 = 1;
    while bits < 32 && (1u64 << bits) <= top as u64
        invariant
            1 <= bits <= 32,
            bits == 1 || (top as u64) >= (1u64 << ((bits - 1) as u32)),
        decreases 32 - bits,
    {
        bits = bits + 1;
    }
    proof {
        assert(bits == 32 ==> (top as u64) < (1u64 << bits)) by (bit_vector);
    }
    bits
}

/// The mask of the low `bits` bits.
fn mask_of(bits: u32) -> (r: u32)
    requires
        1 <= bits <= 32,
    ensures
        r == low_mask(bits),
{
    proof {
        assert(1 <= (1u64 << bits) <= 0x1_0000_0000) by (bit_vector)
            requires
                1 <= bits <= 32,
        ;
    }
    ((1u64 << bits) - 1) as u32
}

/// The number of words that hold `n` keys, `per_word` to a word.
pub open spec fn words_for(n: int, per_word: int) -> int {
    if n % per_word == 0 {
        n / per_word
    } else {
        n / per_word + 1
    }
}

/// The layout of a column of `n` bins, each at most `n_bins`.
pub fn bit_pack_layout(n_bins: u32, n: usize) -> (r: CbResult<BitPackLayout>)
    ensures
        n_bins == u32::MAX ==> r == Err::<BitPackLayout, CbError>(CbError::OutOfRange(RangeFault::PackBins { bins: n_bins })),
        n_bins < u32::MAX ==> match r {
            Ok(layout) => {
                &&& is_bit_length(n_bins, layout.bits_per_key)
                &&& layout.keys_per_word == 32u32 / layout.bits_per_key
                &&& layout.mask == low_mask(layout.bits_per_key)
                &&& layout.num_words == words_for(n as int, layout.keys_per_word as int)
                &&& layout.num_words * layout.keys_per_word <= usize::MAX
            },
            Err(e) => exists|bits: u32| #[trigger] is_bit_length(n_bins, bits) && {
                let words = words_for(n as int, (32u32 / bits) as int);
                words * (32u32 / bits) > usize::MAX && e == CbError::OutOfRange(RangeFault::PackWords { num_words: words as usize, keys_per_word: 32u32 / bits })
            },
        },
{
    if n_bins == u32::MAX {
        return Err(CbError::OutOfRange(RangeFault::PackBins { bins: n_bins }));
    }
    let bits_per_key: u32 = bit_length(n_bins);
    let keys_per_word: u32 = 32 / bits_per_key;
    proof {
        assert(1 <= keys_per_word <= 32) by (nonlinear_arith)
            requires
                keys_per_word == 32u32 / bits_per_key,
                1 <= bits_per_key <= 32,
        ;
    }
    let mask: u32 = mask_of(bits_per_key);
    let per_word: usize = keys_per_word as usize;
    let num_words: usize = if n % per_word == 0 {
        n / per_word
    } else {
        proof {
            assert(n / per_word < n) by (nonlinear_arith)
                requires
                    n % per_word != 0,
                    per_word >= 1,
                    n >= 0,
            ;
        }
        n / per_word + 1
    };
    match num_words.checked_mul(per_word) {
        Some(_) => Ok(BitPackLayout { bits_per_key, keys_per_word, mask, num_words }),
        None => {
            assert(is_bit_length(n_bins, bits_per_key));
            Err(CbError::OutOfRange(RangeFault::PackWords { num_words, keys_per_word }))
        },
    }
}

/// The field of one slot of a word; zero where the column has ended.
pub open spec fn slot_field(bins: Seq<u32>, mask: u32, key: int) -> u32 {
    if key < bins.len() {
        bins[key] & mask
    } else {
        0
    }
}

/// A word with its first `slots` fields filled from the keys `base..`.
pub open spec fn packed_word(bins: Seq<u32>, base: int, bits: u32, mask: u32, slots: nat) -> u32
    decreases slots,
{
    if slots == 0 {
        0
    } else {
        packed_word(bins, base, bits, mask, (slots - 1) as nat) | (slot_field(bins, mask, base + slots - 1) << (((slots - 1) * bits) as u32))
    }
}

/// A field goes into clear bits above the word, and comes out again.
proof fn lemma_place_field(w: u32, v: u32, shift: u32, bits: u32, mask: u32)
    requires
        1 <= bits <= 32,
        shift + bits <= 32,
        (w as u64) < (1u64 << shift),
        mask == low_mask(bits),
        v <= mask,
    ensures
        ((w | (v << shift)) as u64) < (1u64 << ((shift + bits) as u32)),
        field_of(w | (v << shift), shift, mask) == v,
{
    let top = (shift + bits) as u32;
    let n = w | (v << shift);
    assert((n as u64) < (1u64 << top) && (n >> shift) & mask == v) by (bit_vector)
        requires
            1 <= bits <= 32,
            shift < 32,
            top == shift + bits,
            top <= 32,
            (w as u64) < (1u64 << shift),
            mask == ((1u64 << bits) - 1) as u32,
            v <= mask,
            n == w | (v << shift),
    ;
}

/// Placing a field changes none below it.
proof fn lemma_keep_field(w: u32, v: u32, shift: u32, below: u32, bits: u32, mask: u32)
    requires
        1 <= bits <= 32,
        below + bits <= shift,
        shift < 32,
        mask == low_mask(bits),
    ensures
        field_of(w | (v << shift), below, mask) == field_of(w, below, mask),
{
    let n = w | (v << shift);
    assert((n >> below) & mask == (w >> below) & mask) by (bit_vector)
        requires
            1 <= bits <= 32,
            below + bits <= shift,
            shift < 32,
            mask == ((1u64 << bits) - 1) as u32,
            n == w | (v << shift),
    ;
}

/// The fields of a word come out again.
proof fn lemma_packed_word(bins: Seq<u32>, base: int, bits: u32, mask: u32, slots: nat)
    requires
        1 <= bits <= 32,
        slots * bits <= 32,
        mask == low_mask(bits),
        0 <= base,
    ensures
        (packed_word(bins, base, bits, mask, slots) as u64) < (1u64 << ((slots * bits) as u32)),
        forall|s: int|
            0 <= s < slots ==> field_of(packed_word(bins, base, bits, mask, slots), #[trigger] slot_shift(s, bits), mask) == slot_field(bins, mask, base + s),
    decreases slots,
{
    if slots == 0 {
        assert(0u64 < (1u64 << 0u32)) by (bit_vector);
        assert(slots * bits == 0) by (nonlinear_arith)
            requires
                slots == 0,
        ;
    } else {
        let last = (slots - 1) as nat;
        assert(last * bits + bits == slots * bits) by (nonlinear_arith)
            requires
                last == slots - 1,
        ;
        lemma_packed_word(bins, base, bits, mask, last);
        let w = packed_word(bins, base, bits, mask, last);
        let v = slot_field(bins, mask, base + last);
        let shift = (last * bits) as u32;
        if base + last < bins.len() {
            let b = bins[base + last];
            assert(b & mask <= mask) by (bit_vector);
        }
        lemma_place_field(w, v, shift, bits, mask);
        assert forall|s: int| 0 <= s < slots implies field_of(packed_word(bins, base, bits, mask, slots), #[trigger] slot_shift(s, bits), mask) == slot_field(bins, mask, base + s) by {
            if s < last {
                assert(s * bits + bits <= last * bits) by (nonlinear_arith)
                    requires
                        s + 1 <= last,
                        bits >= 1,
                ;
                assert(0 <= s * bits) by (nonlinear_arith)
                    requires
                        s >= 0,
                ;
                lemma_keep_field(w, v, shift, slot_shift(s, bits), bits, mask);
            }
        }
    }
}

/// The place of a slot in its word.
pub open spec fn slot_shift(slot: int, bits: u32) -> u32 {
    (slot * bits) as u32
}

/// A layout whose slots fit a word.
pub open spec fn layout_ok(layout: BitPackLayout) -> bool {
    &&& 1 <= layout.bits_per_key <= 32
    &&& layout.keys_per_word == 32u32 / layout.bits_per_key
    &&& layout.mask == low_mask(layout.bits_per_key)
}

/// The slots of a word fit it.
proof fn lemma_slots_fit(layout: BitPackLayout)
    requires
        layout_ok(layout),
    ensures
        1 <= layout.keys_per_word <= 32,
        layout.keys_per_word * layout.bits_per_key <= 32,
{
    let k = layout.keys_per_word;
    let b = layout.bits_per_key;
    assert(1 <= k <= 32 && k * b <= 32) by (nonlinear_arith)
        requires
            k == 32u32 / b,
            1 <= b <= 32,
    ;
}

/// The words that a column of bins packs to.
pub open spec fn packed_words(bins: Seq<u32>, layout: BitPackLayout) -> Seq<u32> {
    Seq::new(
        layout.num_words as nat,
        |w: int|
            packed_word(bins, w * layout.keys_per_word, layout.bits_per_key, layout.mask, layout.keys_per_word as nat),
    )
}

/// Packs a column of bins.
pub fn pack_bins_kernel(bins: &[u32], layout: BitPackLayout) -> (r: Vec<u32>)
    requires
        layout_ok(layout),
        layout.num_words * layout.keys_per_word <= usize::MAX,
    ensures
        r@ == packed_words(bins@, layout),
{
    proof {
        lemma_slots_fit(layout);
    }
    let n: usize = bins.len();
    let per_word: usize = layout.keys_per_word as usize;
    let mut words: Vec<u32> = Vec::new();
    let mut word_idx: usize = 0;
    while word_idx < layout.num_words
        invariant
            word_idx <= layout.num_words,
            n == bins@.len(),
            layout_ok(layout),
            per_word == layout.keys_per_word,
            1 <= per_word <= 32,
            layout.keys_per_word * layout.bits_per_key <= 32,
            layout.num_words * layout.keys_per_word <= usize::MAX,
            words@.len() == word_idx,
            forall|w: int|
                0 <= w < word_idx ==> #[trigger] words@[w] == packed_word(
                    bins@,
                    w * layout.keys_per_word,
                    layout.bits_per_key,
                    layout.mask,
                    layout.keys_per_word as nat,
                ),
        decreases layout.num_words - word_idx,
    {
        proof {
            lemma_row(word_idx as int, layout.num_words as int, per_word as int, per_word - 1);
        }
        let base: usize = word_idx * per_word;
        let mut w: u32 = 0;
        let mut slot: u32 = 0;
        while slot < layout.keys_per_word
            invariant
                slot <= layout.keys_per_word,
                n == bins@.len(),
                layout_ok(layout),
                per_word == layout.keys_per_word,
                layout.keys_per_word * layout.bits_per_key <= 32,
                base + per_word <= usize::MAX,
                w == packed_word(bins@, base as int, layout.bits_per_key, layout.mask, slot as nat),
            decreases layout.keys_per_word - slot,
        {
            let key: usize = base + slot as usize;
            proof {
                let b = layout.bits_per_key;
                let k = layout.keys_per_word;
                assert(slot * b + b <= k * b) by (nonlinear_arith)
                    requires
                        slot + 1 <= k,
                        b >= 1,
                ;
                assert(0 <= slot * b) by (nonlinear_arith)
                    requires
                        slot >= 0,
                        b >= 1,
                ;
            }
            let shift: u32 = slot * layout.bits_per_key;
            if key < n {
                w = w | ((bins[key] & layout.mask) << shift);
            } else {
                proof {
                    assert(w | (0u32 << shift) == w) by (bit_vector);
                }
            }
            slot = slot + 1;
        }
        words.push(w);
        word_idx = word_idx + 1;
    }
    assert(words@ =~= packed_words(bins@, layout));
    words
}

/// The bin at `i` of a packed column.
pub open spec fn unpacked_bin(words: Seq<u32>, layout: BitPackLayout, i: int) -> u32 {
    let per_word = layout.keys_per_word as int;
    field_of(words[i / per_word], slot_shift(i % per_word, layout.bits_per_key), layout.mask)
}

/// Unpacks a column of `n` bins.
pub fn unpack_bins_kernel(words: &[u32], layout: BitPackLayout, n: usize) -> (r: Vec<u32>)
    requires
        layout_ok(layout),
        n <= words@.len() * layout.keys_per_word,
    ensures
        r@ == Seq::new(n as nat, |i: int| unpacked_bin(words@, layout, i)),
{
    proof {
        lemma_slots_fit(layout);
    }
    let per_word: usize = layout.keys_per_word as usize;
    let mut out: Vec<u32> = Vec::new();
    let mut i: usize = 0;
    while i < n
        invariant
            i <= n,
            layout_ok(layout),
            per_word == layout.keys_per_word,
            1 <= per_word <= 32,
            layout.keys_per_word * layout.bits_per_key <= 32,
            n <= words@.len() * layout.keys_per_word,
            out@.len() == i,
            forall|k: int| 0 <= k < i ==> #[trigger] out@[k] == unpacked_bin(words@, layout, k),
        decreases n - i,
    {
        let word_idx: usize = i / per_word;
        let slot: u32 = (i % per_word) as u32;
        proof {
            crate::histogram::lemma_line(i as int, per_word as int, words@.len() as int);
            let b = layout.bits_per_key;
            let k = layout.keys_per_word;
            assert(slot * b + b <= k * b) by (nonlinear_arith)
                requires
                    slot + 1 <= k,
                    b >= 1,
            ;
            assert(0 <= slot * b) by (nonlinear_arith)
                requires
                    slot >= 0,
                    b >= 1,
            ;
        }
        let shift: u32 = slot * layout.bits_per_key;
        out.push((words[word_idx] >> shift) & layout.mask);
        i = i + 1;
    }
    assert(out@ =~= Seq::new(n as nat, |i: int| unpacked_bin(words@, layout, i)));
    out
}

/// Unpacking gives back what was packed, for bins that the layout's mask holds.
pub proof fn law_unpack_gives_back_packed(bins: Seq<u32>, layout: BitPackLayout, i: int)
    requires
        layout_ok(layout),
        layout.num_words == words_for(bins.len() as int, layout.keys_per_word as int),
        0 <= i < bins.len(),
    ensures
        unpacked_bin(packed_words(bins, layout), layout, i) == bins[i] & layout.mask,
        bins[i] <= layout.mask ==> unpacked_bin(packed_words(bins, layout), layout, i) == bins[i],
{
    lemma_slots_fit(layout);
    let k = layout.keys_per_word as int;
    let bits = layout.bits_per_key;
    let mask = layout.mask;
    crate::histogram::lemma_line(i, k, layout.num_words as int);
    crate::histogram::lemma_line(bins.len() as int, k, 0);
    let n = bins.len() as int;
    let w = i / k;
    assert(i < layout.num_words * k) by (nonlinear_arith)
        requires
            i < n,
            n == (n / k) * k + n % k,
            0 <= n % k < k,
            layout.num_words == if n % k == 0 { n / k } else { n / k + 1 },
    ;
    assert(0 <= w * k) by (nonlinear_arith)
        requires
            w >= 0,
            k >= 1,
    ;
    lemma_packed_word(bins, w * k, bits, mask, k as nat);
    let s = i % k;
    assert(field_of(packed_word(bins, w * k, bits, mask, k as nat), slot_shift(s, bits), mask) == slot_field(bins, mask, w * k + s));
    assert(w * k + s == i);
    let b = bins[i];
    assert(b <= mask ==> b & mask == b) by (bit_vector)
        requires
            1 <= bits <= 32,
            mask == ((1u64 << bits) - 1) as u32,
    ;
}

/// Where a feature's bins lie: the bin of an object is a field of the word at `offset` plus
/// the object.
#[derive(Clone, Copy, Debug, PartialEq, Eq, Structural)]
pub struct PackedFeature {
    pub offset: usize,
    pub shift: u32,
    pub bits: u32,
    pub mask: u32,
    pub one_hot: bool,
}

/// A feature-major table of bins, several features to a word.
pub struct PackedCindex {
    pub words: Vec<u32>,
    pub features: Vec<PackedFeature>,
}

/// The bin of an object.
pub open spec fn packed_bin(words: Seq<u32>, feature: PackedFeature, obj: int) -> u32 {
    field_of(words[feature.offset + obj], feature.shift, feature.mask)
}

/// A feature's fields hold its row of the table.
pub open spec fn holds_row(words: Seq<u32>, feature: PackedFeature, bins: Seq<u32>, f: int, n: int) -> bool {
    &&& feature.offset + n <= words.len()
    &&& feature.shift < 32
    &&& forall|obj: int| 0 <= obj < n ==> #[trigger] packed_bin(words, feature, obj) == bins[f * n + obj]
}

/// What is wrong with the row of a feature, if anything.
pub open spec fn row_fault(bins: Seq<u32>, n_buckets: int, f: int, n: int) -> Option<CbError> {
    if n_buckets > 0x1_0000_0000 {
        Some(CbError::OutOfRange(RangeFault::BucketWidth { n_buckets: n_buckets as usize }))
    } else {
        match first_from(bins, f * n, f * n + n, n_buckets) {
            Some(value) => Some(CbError::OutOfRange(RangeFault::BucketValue { value, n_buckets: n_buckets as usize })),
            None => None,
        }
    }
}

/// The first fault among the rows from `f` on.
pub open spec fn rows_fault(bins: Seq<u32>, n_buckets: Seq<usize>, n: int, f: int) -> Option<CbError>
    decreases n_buckets.len() - f,
{
    if f >= n_buckets.len() {
        None
    } else {
        match row_fault(bins, n_buckets[f] as int, f, n) {
            Some(e) => Some(e),
            None => rows_fault(bins, n_buckets, n, f + 1),
        }
    }
}

/// What is wrong with a table, if anything.
pub open spec fn table_fault(bins: Seq<u32>, n_buckets: Seq<usize>, one_hot: Seq<bool>, n: int) -> Option<CbError> {
    let cells = n_buckets.len() * n;
    if cells > usize::MAX {
        Some(CbError::OutOfRange(RangeFault::TableStride { n_features: n_buckets.len() as usize, n: n as usize }))
    } else if bins.len() != cells {
        Some(CbError::LengthMismatch { column: Column::Cindex, expected: cells as usize, actual: bins.len() as usize })
    } else if one_hot.len() != n_buckets.len() {
        Some(
            CbError::LengthMismatch {
                column: Column::OneHotFlags,
                expected: n_buckets.len() as usize,
                actual: one_hot.len() as usize,
            },
        )
    } else {
        rows_fault(bins, n_buckets, n, 0)
    }
}

/// What holds of the features packed so far: the words of the open column are clear from
/// `shift` on, and every packed feature lies below, or in an earlier column.
spec fn packing(
    words: Seq<u32>,
    features: Seq<PackedFeature>,
    bins: Seq<u32>,
    n: int,
    start: int,
    shift: u32,
) -> bool {
    &&& shift <= 32
    &&& words.len() == start + n
    &&& 0 <= start
    &&& forall|obj: int| 0 <= obj < n ==> (#[trigger] words[start + obj] as u64) < (1u64 << shift)
    &&& forall|g: int| 0 <= g < features.len() ==> packing_of(words, #[trigger] features[g], bins, g, n, start, shift)
}

spec fn packing_of(
    words: Seq<u32>,
    feature: PackedFeature,
    bins: Seq<u32>,
    g: int,
    n: int,
    start: int,
    shift: u32,
) -> bool {
    &&& holds_row(words, feature, bins, g, n)
    &&& 1 <= feature.bits <= 32
    &&& feature.mask == low_mask(feature.bits)
    &&& feature.shift + feature.bits <= 32
    &&& n > 0 && feature.offset == start ==> feature.shift + feature.bits <= shift
    &&& feature.offset == start || feature.offset + n <= start
}

/// Puts the row of a feature into clear bits of a column of words.
fn place_row(words: &mut Vec<u32>, start: usize, shift: u32, bins: &[u32], row: usize, n: usize)
    requires
        start + n <= old(words)@.len(),
        row + n <= bins@.len(),
        shift < 32,
    ensures
        final(words)@.len() == old(words)@.len(),
        forall|k: int|
            0 <= k < old(words)@.len() ==> #[trigger] final(words)@[k] == if start <= k < start + n {
                old(words)@[k] | (bins@[row + (k - start)] << shift)
            } else {
                old(words)@[k]
            },
{
    let ghost init = words@;
    let total: usize = words.len();
    let cells: usize = bins.len();
    let mut obj: usize = 0;
    while obj < n
        invariant
            obj <= n,
            total == init.len(),
            words@.len() == total,
            cells == bins@.len(),
            start + n <= total,
            row + n <= cells,
            shift < 32,
            forall|k: int|
                0 <= k < total ==> #[trigger] words@[k] == if start <= k < start + obj {
                    init[k] | (bins@[row + (k - start)] << shift)
                } else {
                    init[k]
                },
        decreases n - obj,
    {
        let w: u32 = words[start + obj] | (bins[row + obj] << shift);
        words.set(start + obj, w);
        obj = obj + 1;
    }
}

/// Placing a row keeps the rows placed before it and adds the new one.
proof fn lemma_place_row(
    before: Seq<u32>,
    after: Seq<u32>,
    features: Seq<PackedFeature>,
    feature: PackedFeature,
    bins: Seq<u32>,
    n: int,
    start: int,
    shift: u32,
)
    requires
        packing(before, features, bins, n, start, shift),
        after.len() == before.len(),
        1 <= feature.bits <= 32,
        shift + feature.bits <= 32,
        feature.offset == start,
        feature.shift == shift,
        feature.mask == low_mask(feature.bits),
        (features.len() + 1) * n <= bins.len(),
        0 <= n,
        forall|obj: int| 0 <= obj < n ==> #[trigger] bins[features.len() * n + obj] <= feature.mask,
        forall|k: int|
            0 <= k < before.len() ==> #[trigger] after[k] == if start <= k < start + n {
                before[k] | (bins[features.len() * n + (k - start)] << shift)
            } else {
                before[k]
            },
    ensures
        packing(after, features.push(feature), bins, n, start, (shift + feature.bits) as u32),
{
    let f = features.len() as int;
    let top = (shift + feature.bits) as u32;
    assert forall|obj: int| 0 <= obj < n implies (#[trigger] after[start + obj] as u64) < (1u64 << top) by {
        lemma_place_field(before[start + obj], bins[f * n + obj], shift, feature.bits, feature.mask);
    }
    assert forall|obj: int| 0 <= obj < n implies #[trigger] packed_bin(after, feature, obj) == bins[f * n + obj] by {
        lemma_place_field(before[start + obj], bins[f * n + obj], shift, feature.bits, feature.mask);
    }
    assert forall|g: int| 0 <= g < f + 1 implies packing_of(after, #[trigger] features.push(feature)[g], bins, g, n, start, top) by {
        if g < f {
            let other = features[g];
            assert(packing_of(before, other, bins, g, n, start, shift));
            assert forall|obj: int| 0 <= obj < n implies #[trigger] packed_bin(after, other, obj) == bins[g * n + obj] by {
                assert(packed_bin(before, other, obj) == bins[g * n + obj]);
                let k = other.offset + obj;
                if other.offset == start {
                    assert(after[k] == before[k] | (bins[f * n + obj] << shift));
                    lemma_keep_field(before[k], bins[f * n + obj], shift, other.shift, other.bits, other.mask);
                } else {
                    assert(after[k] == before[k]);
                }
            }
        }
    }
}

/// Opening a clear column keeps the rows placed before.
proof fn lemma_new_column(before: Seq<u32>, features: Seq<PackedFeature>, bins: Seq<u32>, n: int, start: int, shift: u32)
    requires
        packing(before, features, bins, n, start, shift),
        0 <= n,
    ensures
        packing(before + Seq::new(n as nat, |k: int| 0u32), features, bins, n, start + n, 0),
{
    let after = before + Seq::new(n as nat, |k: int| 0u32);
    assert(0u64 < (1u64 << 0u32)) by (bit_vector);
    assert forall|g: int| 0 <= g < features.len() implies packing_of(after, #[trigger] features[g], bins, g, n, start + n, 0) by {
        let other = features[g];
        assert(packing_of(before, other, bins, g, n, start, shift));
        assert forall|obj: int| 0 <= obj < n implies #[trigger] packed_bin(after, other, obj) == bins[g * n + obj] by {
            assert(packed_bin(before, other, obj) == bins[g * n + obj]);
            assert(after[other.offset + obj] == before[other.offset + obj]);
        }
    }
}

/// The greatest bin of a feature with `n_buckets` buckets.
pub open spec fn top_bin(n_buckets: int) -> u32 {
    if n_buckets <= 0 {
        0
    } else {
        (n_buckets - 1) as u32
    }
}

/// The first bit above a feature's field.
pub open spec fn field_end(feature: PackedFeature) -> int {
    feature.shift + feature.bits
}

/// A feature takes as many bits as its buckets need. It shares the words of the feature before
/// it where these have room for its field, and opens a new column of `n` words exactly where
/// they do not.
pub open spec fn placed(features: Seq<PackedFeature>, n_buckets: int, f: int, n: int) -> bool {
    let feature = features[f];
    &&& is_bit_length(top_bin(n_buckets), feature.bits)
    &&& feature.mask == low_mask(feature.bits)
    &&& if f == 0 {
        feature.offset == 0 && feature.shift == 0
    } else if field_end(features[f - 1]) + feature.bits <= 32 {
        feature.offset == features[f - 1].offset && feature.shift == field_end(features[f - 1])
    } else {
        feature.offset == features[f - 1].offset + n && feature.shift == 0
    }
}

/// A feature is the last of its column: the words above its field are clear.
pub open spec fn clear_above(words: Seq<u32>, features: Seq<PackedFeature>, f: int, n: int) -> bool {
    f + 1 == features.len() || features[f + 1].shift == 0 ==> forall|obj: int|
        0 <= obj < n ==> (#[trigger] words[features[f].offset + obj] as u64) < (1u64 << (field_end(features[f]) as u32))
}

/// The features fill the columns of words one after the other, each column from its low bits
/// up, with no word left over.
pub open spec fn laid_out(words: Seq<u32>, features: Seq<PackedFeature>, n_buckets: Seq<usize>, n: int) -> bool {
    &&& words.len() == if features.len() == 0 {
        0
    } else {
        features.last().offset + n
    }
    &&& forall|f: int| 0 <= f < features.len() ==> #[trigger] placed(features, n_buckets[f] as int, f, n)
    &&& forall|f: int| 0 <= f < features.len() ==> #[trigger] clear_above(words, features, f, n)
}

/// Offsets ascend.
proof fn lemma_offsets_ascend(words: Seq<u32>, features: Seq<PackedFeature>, n_buckets: Seq<usize>, n: int, f: int, g: int)
    requires
        laid_out(words, features, n_buckets, n),
        0 <= n,
        0 <= f <= g < features.len(),
    ensures
        features[f].offset <= features[g].offset,
    decreases g - f,
{
    if f < g {
        lemma_offsets_ascend(words, features, n_buckets, n, f, g - 1);
        assert(placed(features, n_buckets[g] as int, g, n));
    }
}

/// A row placed above the last field, or in a new column, keeps the layout.
proof fn lemma_laid_out(
    before: Seq<u32>,
    after: Seq<u32>,
    features: Seq<PackedFeature>,
    feature: PackedFeature,
    n_buckets: Seq<usize>,
    n: int,
)
    requires
        laid_out(before, features, n_buckets, n),
        0 <= n,
        features.len() < n_buckets.len(),
        placed(features.push(feature), n_buckets[features.len() as int] as int, features.len() as int, n),
        after.len() == feature.offset + n,
        forall|k: int| 0 <= k < before.len() && !(feature.offset <= k < feature.offset + n) ==> #[trigger] after[k] == before[k],
        forall|obj: int|
            0 <= obj < n ==> (#[trigger] after[feature.offset + obj] as u64) < (1u64 << (field_end(feature) as u32)),
    ensures
        laid_out(after, features.push(feature), n_buckets, n),
{
    let all = features.push(feature);
    let last = features.len() as int;
    assert forall|f: int| 0 <= f < all.len() implies #[trigger] placed(all, n_buckets[f] as int, f, n) by {
        if f < last {
            assert(placed(features, n_buckets[f] as int, f, n));
        }
    }
    assert forall|f: int| 0 <= f < all.len() implies #[trigger] clear_above(after, all, f, n) by {
        if f < last && all[f + 1].shift == 0 {
            assert(clear_above(before, features, f, n));
            assert(placed(all, n_buckets[f + 1] as int, f + 1, n));
            assert(placed(all, n_buckets[f] as int, f, n));
            if f + 1 < last {
                lemma_offsets_ascend(before, features, n_buckets, n, f + 1, last - 1);
                assert(placed(all, n_buckets[last] as int, last, n));
            }
            lemma_offsets_ascend(before, features, n_buckets, n, f, last - 1);
            assert(all[f].offset + n <= feature.offset);
            assert forall|obj: int| 0 <= obj < n implies (#[trigger] after[all[f].offset + obj] as u64) < (1u64 << (field_end(
                all[f],
            ) as u32)) by {
                let k = features[f].offset + obj;
                assert((before[features[f].offset + obj] as u64) < (1u64 << (field_end(features[f]) as u32)));
                assert(after[k] == before[k]);
            }
        }
    }
}

/// The bits of a packed row hold its bins, and the rows lie one above the other.
pub open spec fn packed_rows(packed: PackedCindex, bins: Seq<u32>, n_buckets: Seq<usize>, one_hot: Seq<bool>, n: int) -> bool {
    &&& packed.features@.len() == one_hot.len()
    &&& laid_out(packed.words@, packed.features@, n_buckets, n)
    &&& forall|f: int|
        0 <= f < one_hot.len() ==> holds_row(packed.words@, #[trigger] packed.features@[f], bins, f, n)
            && packed.features@[f].one_hot == one_hot[f]
}

/// Packs a feature-major table of bins, each feature in as many bits as its buckets need, and
/// as many features to a word as fit it in their order.
pub fn pack_cindex(bins: &[u32], n_buckets: &[usize], one_hot: &[bool], n: usize) -> (r: CbResult<PackedCindex>)
    ensures
        match table_fault(bins@, n_buckets@, one_hot@, n as int) {
            Some(e) => r == Err::<PackedCindex, CbError>(e),
            None => r is Ok && packed_rows(r->Ok_0, bins@, n_buckets@, one_hot@, n as int),
        },
{
    let n_features: usize = n_buckets.len();
    let cells: usize = match n_features.checked_mul(n) {
        Some(cells) => cells,
        None => {
            return Err(CbError::OutOfRange(RangeFault::TableStride { n_features, n }));
        },
    };
    if bins.len() != cells {
        return Err(CbError::LengthMismatch { column: Column::Cindex, expected: cells, actual: bins.len() });
    }
    if one_hot.len() != n_features {
        return Err(CbError::LengthMismatch { column: Column::OneHotFlags, expected: n_features, actual: one_hot.len() });
    }
    let mut words: Vec<u32> = Vec::new();
    let mut features: Vec<PackedFeature> = Vec::new();
    let mut start: usize = 0;
    let mut shift: u32 = 0;
    let mut f: usize = 0;
    let mut open: bool = false;
    while f < n_features
        invariant
            f <= n_features,
            n_features == n_buckets@.len(),
            n_features == one_hot@.len(),
            cells == n_features * n,
            cells == bins@.len(),
            rows_fault(bins@, n_buckets@, n as int, 0) == rows_fault(bins@, n_buckets@, n as int, f as int),
            features@.len() == f,
            open ==> packing(words@, features@, bins@, n as int, start as int, shift),
            open ==> start + n <= f * n,
            !open ==> f == 0 && words@.len() == 0 && start == 0,
            open ==> f > 0 && start == features@.last().offset && shift == field_end(features@.last()),
            laid_out(words@, features@, n_buckets@, n as int),
            forall|g: int| 0 <= g < f ==> (#[trigger] features@[g]).one_hot == one_hot@[g],
        decreases n_features - f,
    {
        let buckets: usize = n_buckets[f];
        proof {
            assert(f * n + n <= n_features * n) by (nonlinear_arith)
                requires
                    f + 1 <= n_features,
                    n >= 0,
            ;
            assert((f + 1) * n == f * n + n) by (nonlinear_arith);
        }
        if buckets as u64 > 0x1_0000_0000 {
            return Err(CbError::OutOfRange(RangeFault::BucketWidth { n_buckets: buckets }));
        }
        match find_from(bins, f * n, f * n + n, buckets) {
            Some(value) => {
                return Err(CbError::OutOfRange(RangeFault::BucketValue { value, n_buckets: buckets }));
            },
            None => {},
        }
        let top: u32 = if buckets == 0 {
            0
        } else {
            (buckets - 1) as u32
        };
        let bits: u32 = bit_length(top);
        let mask: u32 = mask_of(bits);
        let ghost laid = words@;
        if !open || shift + bits > 32 {
            let ghost before = words@;
            let fresh: Vec<u32> = vec![0; n];
            let mut tail: Vec<u32> = fresh;
            words.append(&mut tail);
            proof {
                assert(words@ =~= before + Seq::new(n as nat, |k: int| 0u32));
                if open {
                    lemma_new_column(before, features@, bins@, n as int, start as int, shift);
                } else {
                    assert(0u64 < (1u64 << 0u32)) by (bit_vector);
                }
            }
            start = if open {
                start + n
            } else {
                0
            };
            shift = 0;
            open = true;
        }
        let feature = PackedFeature { offset: start, shift, bits, mask, one_hot: one_hot[f] };
        let ghost before = words@;
        place_row(&mut words, start, shift, bins, f * n, n);
        proof {
            lemma_first_from(bins@, f * n, f * n + n, buckets as int);
            assert(top <= mask) by (bit_vector)
                requires
                    1 <= bits <= 32,
                    (top as u64) < (1u64 << bits),
                    mask == ((1u64 << bits) - 1) as u32,
            ;
            assert forall|obj: int| 0 <= obj < n implies #[trigger] bins@[f * n + obj] <= mask by {
                assert(bins@[f * n + obj] < buckets);
            }
            lemma_place_row(before, words@, features@, feature, bins@, n as int, start as int, shift);
            assert(placed(features@.push(feature), n_buckets@[f as int] as int, f as int, n as int));
            lemma_laid_out(laid, words@, features@, feature, n_buckets@, n as int);
        }
        features.push(feature);
        shift = shift + bits;
        f = f + 1;
    }
    Ok(PackedCindex { words, features })
}

/// A packed table's columns of offsets, shifts, masks and one-hot flags.
pub struct DeviceArrays {
    pub offsets: Vec<u32>,
    pub shifts: Vec<u32>,
    pub masks: Vec<u32>,
    pub flags: Vec<bool>,
}

/// The first offset from `f` on that does not fit a `u32`.
pub open spec fn offset_fault(features: Seq<PackedFeature>, f: int) -> Option<usize>
    decreases features.len() - f,
{
    if f >= features.len() {
        None
    } else if features[f].offset > u32::MAX {
        Some(features[f].offset)
    } else {
        offset_fault(features, f + 1)
    }
}

impl PackedCindex {
    /// The columns that a device reads fields by.
    pub fn device_arrays(&self) -> (r: CbResult<DeviceArrays>)
        ensures
            match offset_fault(self.features@, 0) {
                Some(offset) => r == Err::<DeviceArrays, CbError>(CbError::OutOfRange(RangeFault::WordOffset { offset })),
                None => r matches Ok(a) && {
                    &&& a.offsets@ == Seq::new(self.features@.len(), |f: int| self.features@[f].offset as u32)
                    &&& a.shifts@ == Seq::new(self.features@.len(), |f: int| self.features@[f].shift)
                    &&& a.masks@ == Seq::new(self.features@.len(), |f: int| self.features@[f].mask)
                    &&& a.flags@ == Seq::new(self.features@.len(), |f: int| self.features@[f].one_hot)
                },
            },
    {
        let m: usize = self.features.len();
        let mut offsets: Vec<u32> = Vec::new();
        let mut shifts: Vec<u32> = Vec::new();
        let mut masks: Vec<u32> = Vec::new();
        let mut flags: Vec<bool> = Vec::new();
        let mut f: usize = 0;
        while f < m
            invariant
                f <= m,
                m == self.features@.len(),
                offsets@.len() == f,
                shifts@.len() == f,
                masks@.len() == f,
                flags@.len() == f,
                offset_fault(self.features@, 0) == offset_fault(self.features@, f as int),
                forall|g: int| 0 <= g < f ==> #[trigger] offsets@[g] == self.features@[g].offset,
                forall|g: int| 0 <= g < f ==> #[trigger] shifts@[g] == self.features@[g].shift,
                forall|g: int| 0 <= g < f ==> #[trigger] masks@[g] == self.features@[g].mask,
                forall|g: int| 0 <= g < f ==> #[trigger] flags@[g] == self.features@[g].one_hot,
            decreases m - f,
        {
            let feature: PackedFeature = self.features[f];
            if feature.offset as u64 > 0xffff_ffff {
                return Err(CbError::OutOfRange(RangeFault::WordOffset { offset: feature.offset }));
            }
            offsets.push(feature.offset as u32);
            shifts.push(feature.shift);
            masks.push(feature.mask);
            flags.push(feature.one_hot);
            f = f + 1;
        }
        assert(offsets@ =~= Seq::new(m as nat, |f: int| self.features@[f].offset as u32));
        assert(shifts@ =~= Seq::new(m as nat, |f: int| self.features@[f].shift));
        assert(masks@ =~= Seq::new(m as nat, |f: int| self.features@[f].mask));
        assert(flags@ =~= Seq::new(m as nat, |f: int| self.features@[f].one_hot));
        Ok(DeviceArrays { offsets, shifts, masks, flags })
    }
}

} // verus!
