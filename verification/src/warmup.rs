//! The shapes that a fit is warmed up with, and deterministic pools of bins.

use vstd::prelude::*;
use crate::histogram::lemma_line;

verus! {

/// The objects of a warm-up pool.
pub const WARMUP_OBJECTS: usize = 2048;

/// The features of a warm-up pool.
pub const WARMUP_FEATURES: usize = 2;

/// The histogram width that a border count needs: the next power of two above it, between
/// the narrowest and the widest line.
pub open spec fn hinted_width(border_count: int) -> usize {
    if border_count < 32 {
        32
    } else if border_count < 64 {
        64
    } else if border_count < 128 {
        128
    } else {
        256
    }
}

/// The width classes to warm up, the hinted one first.
pub open spec fn warmup_order(hint: usize) -> Seq<usize> {
    if hint == 32 {
        seq![32, 64, 128, 256]
    } else if hint == 64 {
        seq![64, 32, 128, 256]
    } else if hint == 128 {
        seq![128, 64, 32, 256]
    } else {
        seq![256, 64, 32, 128]
    }
}

/// The width classes to warm up for a border count.
pub fn warmup_classes(border_count_hint: usize) -> (r: Vec<usize>)
    requires
        border_count_hint <= isize::MAX,
    ensures
        r@ == warmup_order(hinted_width(border_count_hint as int)),
{
    let hint: usize = if border_count_hint < 32 {
        32
    } else if border_count_hint < 64 {
        64
    } else if border_count_hint < 128 {
        128
    } else {
        256
    };
    let mut classes: Vec<usize> = Vec::new();
    classes.push(hint);
    if hint != 64 {
        classes.push(64);
    }
    if hint != 32 {
        classes.push(32);
    }
    if hint != 128 {
        classes.push(128);
    }
    if hint != 256 {
        classes.push(256);
    }
    assert(classes@ =~= warmup_order(hinted_width(border_count_hint as int)));
    classes
}

/// Every width class is warmed up exactly once, and the one that the fit will use comes
/// first.
pub proof fn law_every_class_is_warmed_once(border_count: int)
    ensures
        warmup_order(hinted_width(border_count)).len() == 4,
        warmup_order(hinted_width(border_count))[0] == hinted_width(border_count),
        warmup_order(hinted_width(border_count)).no_duplicates(),
        warmup_order(hinted_width(border_count)).contains(32usize),
        warmup_order(hinted_width(border_count)).contains(64usize),
        warmup_order(hinted_width(border_count)).contains(128usize),
        warmup_order(hinted_width(border_count)).contains(256usize),
{
    let order = warmup_order(hinted_width(border_count));
    assert(order.contains(order[0]) && order.contains(order[1]) && order.contains(order[2]) && order.contains(order[3]));
}

/// The pool that one width class is warmed up with.
pub struct WarmupPool {
    pub depth: usize,
    pub n_borders: usize,
    pub columns: Vec<Vec<u32>>,
    pub target: Vec<u32>,
}

/// The bins of warm-up feature `f`.
pub open spec fn warmup_column(f: int, n_bins: int) -> Seq<u32> {
    Seq::new(WARMUP_OBJECTS as nat, |i: int| ((i * (f + 1)) % n_bins) as u32)
}

fn column_of_warmup(f: usize, n_bins: usize) -> (r: Vec<u32>)
    requires
        f < WARMUP_FEATURES,
        0 < n_bins <= u32::MAX,
    ensures
        r@ == warmup_column(f as int, n_bins as int),
{
    let mut column: Vec<u32> = Vec::new();
    let mut i: usize = 0;
    while i < WARMUP_OBJECTS
        invariant
            i <= WARMUP_OBJECTS,
            f < WARMUP_FEATURES,
            0 < n_bins <= u32::MAX,
            column@.len() == i,
            forall|k: int| 0 <= k < i ==> #[trigger] column@[k] == ((k * (f + 1)) % (n_bins as int)) as u32,
        decreases WARMUP_OBJECTS - i,
    {
        proof {
            assert(0 <= i * (f + 1) <= 2 * WARMUP_OBJECTS) by (nonlinear_arith)
                requires
                    0 <= i < WARMUP_OBJECTS,
                    0 <= f < 2,
            ;
        }
        column.push(((i * (f + 1)) % n_bins) as u32);
        i = i + 1;
    }
    assert(column@ =~= warmup_column(f as int, n_bins as int));
    column
}

/// The pool that a width class is warmed up with: two spread features and an alternating
/// target, at a depth between one and eight.
pub fn warmup_pool(depth: usize, n_bins: usize) -> (r: WarmupPool)
    requires
        0 < n_bins <= u32::MAX,
    ensures
        r.depth == if depth < 1 {
            1
        } else if depth > 8 {
            8
        } else {
            depth as int
        },
        r.n_borders == if n_bins > 1 {
            n_bins - 1
        } else {
            1
        },
        r.columns@.len() == WARMUP_FEATURES,
        forall|f: int| 0 <= f < WARMUP_FEATURES ==> (#[trigger] r.columns@[f])@ == warmup_column(f, n_bins as int),
        r.target@ == Seq::new(WARMUP_OBJECTS as nat, |i: int| (i % 2) as u32),
{
    let mut columns: Vec<Vec<u32>> = Vec::new();
    let mut f: usize = 0;
    while f < WARMUP_FEATURES
        invariant
            f <= WARMUP_FEATURES,
            0 < n_bins <= u32::MAX,
            columns@.len() == f,
            forall|k: int| 0 <= k < f ==> (#[trigger] columns@[k])@ == warmup_column(k, n_bins as int),
        decreases WARMUP_FEATURES - f,
    {
        columns.push(column_of_warmup(f, n_bins));
        f = f + 1;
    }
    let mut target: Vec<u32> = Vec::new();
    let mut i: usize = 0;
    while i < WARMUP_OBJECTS
        invariant
            i <= WARMUP_OBJECTS,
            target@.len() == i,
            forall|k: int| 0 <= k < i ==> #[trigger] target@[k] == (k % 2) as u32,
        decreases WARMUP_OBJECTS - i,
    {
        target.push((i % 2) as u32);
        i = i + 1;
    }
    let clamped: usize = if depth < 1 {
        1
    } else if depth > 8 {
        8
    } else {
        depth
    };
    let n_borders: usize = if n_bins > 1 {
        n_bins - 1
    } else {
        1
    };
    WarmupPool { depth: clamped, n_borders, columns, target }
}

/// The bin of an object in a feature-major pool: the first feature climbs with the object,
/// the others are spread.
pub open spec fn spread_bin(n: int, n_bins: int, feature: int, obj: int) -> int {
    if feature == 0 {
        let climbing = (obj * n_bins) / n;
        if climbing < n_bins {
            climbing
        } else {
            n_bins - 1
        }
    } else {
        (obj * (feature + 2) + feature) % n_bins
    }
}

/// The bins of a pool, feature-major.
pub fn cindex_feature_major(n: usize, n_features: usize, n_bins: usize) -> (r: Vec<u32>)
    requires
        0 < n_bins <= u32::MAX,
        n_features * n <= usize::MAX,
        n * n_bins <= usize::MAX,
        n * (n_features + 2) + n_features <= usize::MAX,
    ensures
        r@ == Seq::new(
            (n_features * n) as nat,
            |c: int| spread_bin(n as int, n_bins as int, c / (n as int), c % (n as int)) as u32,
        ),
{
    let total: usize = n_features * n;
    let mut out: Vec<u32> = Vec::new();
    let mut c: usize = 0;
    while c < total
        invariant
            c <= total,
            total == n_features * n,
            0 < n_bins <= u32::MAX,
            n * n_bins <= usize::MAX,
            n * (n_features + 2) + n_features <= usize::MAX,
            out@.len() == c,
            forall|k: int|
                0 <= k < c ==> #[trigger] out@[k] == spread_bin(n as int, n_bins as int, k / (n as int), k % (n as int)) as u32,
        decreases total - c,
    {
        proof {
            assert(n > 0) by (nonlinear_arith)
                requires
                    0 <= c < n_features * n,
                    n >= 0,
            ;
            lemma_line(c as int, n as int, n_features as int);
        }
        let feature: usize = c / n;
        let obj: usize = c % n;
        proof {
            assert(obj * n_bins <= n * n_bins) by (nonlinear_arith)
                requires
                    0 <= obj < n,
                    n_bins >= 0,
            ;
            assert(0 <= obj * (feature + 2) + feature <= n * (n_features + 2) + n_features) by (nonlinear_arith)
                requires
                    0 <= obj < n,
                    0 <= feature < n_features,
            ;
            assert(n_features + 2 <= n * (n_features + 2)) by (nonlinear_arith)
                requires
                    n >= 1,
                    n_features >= 0,
            ;
            assert(0 <= obj * (feature + 2)) by (nonlinear_arith)
                requires
                    0 <= obj,
                    0 <= feature,
            ;
        }
        let bin: usize = if feature == 0 {
            let climbing: usize = (obj * n_bins) / n;
            if climbing < n_bins {
                climbing
            } else {
                n_bins - 1
            }
        } else {
            (obj * (feature + 2) + feature) % n_bins
        };
        out.push(bin as u32);
        c = c + 1;
    }
    assert(out@ =~= Seq::new(
        (n_features * n) as nat,
        |c: int| spread_bin(n as int, n_bins as int, c / (n as int), c % (n as int)) as u32,
    ));
    out
}

} // verus!
