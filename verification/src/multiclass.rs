//! The multi-output driver: derivative layout and leaf blocks.

use vstd::prelude::*;
use crate::channel::{Channel, Real};
use crate::config::Backend;
use crate::coverage::MulticlassObjective;
use crate::error::{CbError, CbResult, Column, DoubleUse, RangeFault};
use crate::histogram::{add_where, lemma_line, lemma_line_cell, lemma_row};
use crate::pairwise::zeros;
use crate::session::{entry_or, get_or};
use crate::smooth::Smooth;

verus! {

/// The place of the diagonal entry `d` in a packed triangle of `k` rows: row `i` has
/// `k - i` entries.
pub open spec fn diag_pos(d: int, k: int) -> int
    decreases d,
{
    if d <= 0 {
        0
    } else {
        diag_pos(d - 1, k) + (k - (d - 1))
    }
}

/// The closed form of a diagonal place.
pub proof fn law_diagonal_place(d: int, k: int)
    requires
        0 <= d <= k,
    ensures
        diag_pos(d, k) == d * k - d * (d - 1) / 2,
        2 * diag_pos(d, k) == 2 * d * k - d * (d - 1),
        0 <= diag_pos(d, k),
    decreases d,
{
    if d > 0 {
        law_diagonal_place(d - 1, k);
        lemma_even_product(d);
        assert(2 * (d - 1) * k - (d - 1) * (d - 1 - 1) + 2 * (k - (d - 1)) == 2 * d * k - d * (d - 1)) by (nonlinear_arith);
        assert(2 * d * k == 2 * (d * k)) by (nonlinear_arith);
    } else {
        assert(2 * d * k - d * (d - 1) == 0 && d * k == 0 && d * (d - 1) == 0) by (nonlinear_arith)
            requires
                d == 0,
        ;
    }
}

/// Diagonal entries lie in ascending places inside the packed triangle.
pub proof fn law_diagonals_ascend(d: int, e: int, k: int)
    requires
        0 <= d < e < k,
    ensures
        diag_pos(d, k) < diag_pos(e, k),
        diag_pos(e, k) < packed_count(k),
    decreases e,
{
    if d + 1 < e {
        law_diagonals_ascend(d, e - 1, k);
    }
    lemma_diag_bound(e, k);
}

/// A diagonal entry lies inside the packed triangle.
pub(crate) proof fn lemma_diag_bound(d: int, k: int)
    requires
        0 <= d < k,
    ensures
        0 <= diag_pos(d, k) < packed_count(k),
{
    law_diagonal_place(d, k);
    assert(2 * d * k - d * (d - 1) + 2 <= k * (k + 1)) by (nonlinear_arith)
        requires
            0 <= d < k,
    ;
}

/// The entries of a packed triangle of `k` rows.
pub open spec fn packed_count(k: int) -> int {
    k * (k + 1) / 2
}

/// The place of a diagonal entry.
pub fn diag_index(d: usize, k: usize) -> (r: usize)
    requires
        d < k,
        k * (k + 1) <= usize::MAX,
    ensures
        r == diag_pos(d as int, k as int),
{
    if d == 0 {
        return 0;
    }
    proof {
        law_diagonal_place(d as int, k as int);
        assert(0 <= d * k <= k * (k + 1)) by (nonlinear_arith)
            requires
                0 <= d < k,
        ;
        assert(0 <= d * (d - 1) <= d * k) by (nonlinear_arith)
            requires
                1 <= d < k,
        ;
    }
    d * k - d * (d - 1) / 2
}

/// Of two neighbours one is even.
proof fn lemma_even_product(d: int)
    requires
        d >= 1,
    ensures
        (d * (d - 1)) % 2 == 0,
    decreases d,
{
    if d > 1 {
        lemma_even_product(d - 1);
        assert(d * (d - 1) == (d - 1) * (d - 2) + 2 * (d - 1)) by (nonlinear_arith);
    } else {
        assert(d * (d - 1) == 0) by (nonlinear_arith)
            requires
                d == 1,
        ;
    }
}

/// The entries of a packed Hessian of `k` outputs.
pub fn packed_len(k: usize) -> (r: CbResult<usize>)
    ensures
        r == if k * (k + 1) <= usize::MAX {
            Ok::<usize, CbError>(packed_count(k as int) as usize)
        } else {
            Err(CbError::OutOfRange(RangeFault::PackedHessian { k }))
        },
{
    if k == usize::MAX {
        proof {
            assert(k * (k + 1) > usize::MAX) by (nonlinear_arith)
                requires
                    k == usize::MAX,
                    usize::MAX >= 1,
            ;
        }
        return Err(CbError::OutOfRange(RangeFault::PackedHessian { k }));
    }
    match k.checked_mul(k + 1) {
        Some(p) => Ok(p / 2),
        None => Err(CbError::OutOfRange(RangeFault::PackedHessian { k })),
    }
}

/// The derivatives of one object as its loss gives them: one first derivative per output,
/// and the second derivatives, packed for a coupled loss and per output for the others.
pub struct ObjectDers<F> {
    pub d1: Vec<F>,
    pub d2: Vec<F>,
}

/// What a loss is asked for at one object.
pub enum LossInput<F> {
    /// The approximations of all outputs, and the object's class.
    Softmax { approx: Vec<F>, class: usize },
    /// The approximation of each output, and the object's class.
    OneVsAll { approx: Vec<F>, class: usize },
    /// The approximation and the target of each output.
    CrossEntropy { approx: Vec<F>, targets: Vec<F> },
    /// Nothing: the derivatives are taken from the columns.
    FromColumns,
    /// The approximated mean and log-scale, the target and the weight.
    Uncertainty { mean: F, log_scale: F, target: F, weight: F },
}

/// The class of an object: the index nearest to its target.
pub open spec fn class_at<F: Smooth>(target: Seq<F>, i: int) -> usize {
    entry_or(target, i, F::zero_spec()).class_spec()
}

/// The class of an object.
pub fn class_of<F: Smooth>(target: &[F], i: usize) -> (r: usize)
    ensures
        r == class_at(target@, i as int),
{
    get_or(target, i, F::zero()).class()
}

/// The entries of object `i` in an output-major column of `k` outputs.
pub open spec fn object_row<F: Channel>(column: Seq<F>, n: int, k: nat, i: int) -> Seq<F> {
    Seq::new(k, |d: int| entry_or(column, d * n + i, F::zero_spec()))
}

fn row_of_object<F: Channel>(column: &[F], n: usize, k: usize, i: usize) -> (r: Vec<F>)
    requires
        i < n,
        k * n <= usize::MAX,
    ensures
        r@ == object_row(column@, n as int, k as nat, i as int),
{
    let mut row: Vec<F> = Vec::new();
    let mut d: usize = 0;
    while d < k
        invariant
            d <= k,
            i < n,
            k * n <= usize::MAX,
            row@.len() == d,
            forall|e: int| 0 <= e < d ==> #[trigger] row@[e] == entry_or(column@, e * n + i, F::zero_spec()),
        decreases k - d,
    {
        proof {
            lemma_row(d as int, k as int, n as int, i as int);
        }
        row.push(get_or(column, d * n + i, F::zero()));
        d = d + 1;
    }
    assert(row@ =~= object_row(column@, n as int, k as nat, i as int));
    row
}

/// What the loss of an objective is asked for at object `i` of `n`.
pub fn loss_input<F: Smooth>(
    objective: MulticlassObjective,
    approx: &[F],
    target: &[F],
    weight: &[F],
    n: usize,
    k: usize,
    i: usize,
) -> (r: LossInput<F>)
    requires
        i < n,
        k * n <= usize::MAX,
        2 * n <= usize::MAX,
    ensures
        match objective {
            MulticlassObjective::Softmax => (r matches LossInput::Softmax { approx: a, class } && a@ == object_row(
                approx@,
                n as int,
                k as nat,
                i as int,
            ) && class == class_at(target@, i as int)),
            MulticlassObjective::OneVsAll => (r matches LossInput::OneVsAll { approx: a, class } && a@ == object_row(
                approx@,
                n as int,
                k as nat,
                i as int,
            ) && class == class_at(target@, i as int)),
            MulticlassObjective::MultiCrossEntropy => (r matches LossInput::CrossEntropy { approx: a, targets: t } && a@
                == object_row(approx@, n as int, k as nat, i as int) && t@ == object_row(
                target@,
                n as int,
                k as nat,
                i as int,
            )),
            MulticlassObjective::MultiRmse => r == LossInput::<F>::FromColumns,
            MulticlassObjective::RmseWithUncertainty => r == (LossInput::Uncertainty {
                mean: entry_or(approx@, i as int, F::zero_spec()),
                log_scale: entry_or(approx@, n + i, F::zero_spec()),
                target: entry_or(target@, i as int, F::zero_spec()),
                weight: entry_or(weight@, i as int, F::one_spec()),
            }),
        },
{
    match objective {
        MulticlassObjective::Softmax => LossInput::Softmax {
            approx: row_of_object(approx, n, k, i),
            class: class_of(target, i),
        },
        MulticlassObjective::OneVsAll => LossInput::OneVsAll {
            approx: row_of_object(approx, n, k, i),
            class: class_of(target, i),
        },
        MulticlassObjective::MultiCrossEntropy => LossInput::CrossEntropy {
            approx: row_of_object(approx, n, k, i),
            targets: row_of_object(target, n, k, i),
        },
        MulticlassObjective::MultiRmse => LossInput::FromColumns,
        MulticlassObjective::RmseWithUncertainty => LossInput::Uncertainty {
            mean: get_or(approx, i, F::zero()),
            log_scale: get_or(approx, n + i, F::zero()),
            target: get_or(target, i, F::zero()),
            weight: get_or(weight, i, F::one()),
        },
    }
}

/// A derivative of an object; zero where the loss gives none.
pub open spec fn der_entry<F: Real>(ders: Seq<ObjectDers<F>>, i: int, second: bool, j: int) -> F {
    if i < ders.len() {
        entry_or(if second { ders[i].d2@ } else { ders[i].d1@ }, j, F::zero_spec())
    } else {
        F::zero_spec()
    }
}

/// The outputs that an objective fills.
pub open spec fn filled_outputs(objective: MulticlassObjective, k: int) -> int {
    if objective == MulticlassObjective::RmseWithUncertainty && k > 2 {
        2
    } else {
        k
    }
}

/// The first derivative of output `d` of object `i`. A squared error is the distance to the
/// object's one target.
pub open spec fn der1_value<F: Real>(
    objective: MulticlassObjective,
    approx: Seq<F>,
    target: Seq<F>,
    weight: Seq<F>,
    ders: Seq<ObjectDers<F>>,
    n: int,
    k: int,
    d: int,
    i: int,
) -> F {
    let w = entry_or(weight, i, F::one_spec());
    match objective {
        MulticlassObjective::MultiRmse => w.times_spec(
            entry_or(target, i, F::zero_spec()).minus_spec(entry_or(approx, d * n + i, F::zero_spec())),
        ),
        MulticlassObjective::RmseWithUncertainty => if d < filled_outputs(objective, k) {
            der_entry(ders, i, false, d)
        } else {
            F::zero_spec()
        },
        _ => der_entry(ders, i, false, d).times_spec(w),
    }
}

/// The output whose diagonal entry lies at `j`, if one does.
pub open spec fn diag_output(k: int, j: int) -> Option<int> {
    if exists|d: int| 0 <= d < k && #[trigger] diag_pos(d, k) == j {
        Some(choose|d: int| 0 <= d < k && #[trigger] diag_pos(d, k) == j)
    } else {
        None
    }
}

/// The packed second derivative `j` of object `i`. Only a coupled loss has entries off the
/// diagonal.
pub open spec fn der2_value<F: Real>(
    objective: MulticlassObjective,
    weight: Seq<F>,
    ders: Seq<ObjectDers<F>>,
    k: int,
    i: int,
    j: int,
) -> F {
    let w = entry_or(weight, i, F::one_spec());
    if objective == MulticlassObjective::Softmax {
        der_entry(ders, i, true, j).times_spec(w)
    } else {
        match diag_output(k, j) {
            None => F::zero_spec(),
            Some(d) => match objective {
                MulticlassObjective::MultiRmse => w.negated_spec(),
                MulticlassObjective::RmseWithUncertainty => if d < filled_outputs(objective, k) {
                    der_entry(ders, i, true, d)
                } else {
                    F::zero_spec()
                },
                _ => der_entry(ders, i, true, d).times_spec(w),
            },
        }
    }
}

/// What the table of outputs holds at `q` once the first `upto` outputs are entered.
spec fn diag_entry(entry: Option<usize>, q: int, upto: int, k: int) -> bool {
    match entry {
        Some(e) => e < upto && diag_pos(e as int, k) == q,
        None => forall|e: int| 0 <= e < upto ==> #[trigger] diag_pos(e, k) != q,
    }
}

/// The output of each packed entry.
fn diag_table(k: usize, pk: usize) -> (r: Vec<Option<usize>>)
    requires
        k * (k + 1) <= usize::MAX,
        pk == packed_count(k as int),
    ensures
        r@.len() == pk,
        forall|j: int|
            0 <= j < pk ==> match #[trigger] r@[j] {
                Some(d) => diag_output(k as int, j) == Some(d as int),
                None => diag_output(k as int, j) is None,
            },
{
    let mut table: Vec<Option<usize>> = Vec::new();
    let mut j: usize = 0;
    while j < pk
        invariant
            j <= pk,
            table@.len() == j,
            forall|q: int| 0 <= q < j ==> #[trigger] table@[q] is None,
        decreases pk - j,
    {
        table.push(None);
        j = j + 1;
    }
    let mut d: usize = 0;
    while d < k
        invariant
            d <= k,
            k * (k + 1) <= usize::MAX,
            pk == packed_count(k as int),
            table@.len() == pk,
            forall|q: int| 0 <= q < pk ==> #[trigger] diag_entry(table@[q], q, d as int, k as int),
        decreases k - d,
    {
        proof {
            lemma_diag_bound(d as int, k as int);
            assert forall|e: int| 0 <= e < d implies #[trigger] diag_pos(e, k as int) != diag_pos(d as int, k as int) by {
                law_diagonals_ascend(e, d as int, k as int);
            }
        }
        let pos: usize = diag_index(d, k);
        let ghost before = table@;
        table.set(pos, Some(d));
        proof {
            assert forall|q: int| 0 <= q < pk implies #[trigger] diag_entry(table@[q], q, d + 1, k as int) by {
                assert(diag_entry(before[q], q, d as int, k as int));
            }
        }
        d = d + 1;
    }
    proof {
        assert forall|q: int| 0 <= q < pk implies match #[trigger] table@[q] {
            Some(e) => diag_output(k as int, q) == Some(e as int),
            None => diag_output(k as int, q) is None,
        } by {
            assert(diag_entry(table@[q], q, k as int, k as int));
            match table@[q] {
                Some(e) => {
                    let f = choose|f: int| 0 <= f < k && #[trigger] diag_pos(f, k as int) == q;
                    assert(diag_pos(e as int, k as int) == q);
                    if f < e {
                        law_diagonals_ascend(f, e as int, k as int);
                    } else if e < f {
                        law_diagonals_ascend(e as int, f, k as int);
                    }
                },
                None => {},
            }
        }
    }
    table
}

fn der_entry_of<F: Real>(ders: &[ObjectDers<F>], i: usize, second: bool, j: usize) -> (r: F)
    ensures
        r == der_entry(ders@, i as int, second, j as int),
{
    if i < ders.len() {
        if second {
            get_or(ders[i].d2.as_slice(), j, F::zero())
        } else {
            get_or(ders[i].d1.as_slice(), j, F::zero())
        }
    } else {
        F::zero()
    }
}

/// What is wrong with the columns of a multi-output block, if anything.
pub open spec fn multi_fault(approx_len: int, n: int, k: int) -> Option<CbError> {
    if k * (k + 1) > usize::MAX {
        Some(CbError::OutOfRange(RangeFault::PackedHessian { k: k as usize }))
    } else if k * n > usize::MAX {
        Some(CbError::OutOfRange(RangeFault::OutputBlock { k: k as usize, n: n as usize }))
    } else if n * packed_count(k) > usize::MAX {
        Some(CbError::OutOfRange(RangeFault::HessianBlock { n: n as usize, pk: packed_count(k) as usize }))
    } else if approx_len != k * n {
        Some(
            CbError::LengthMismatch { column: Column::Approx, expected: (k * n) as usize, actual: approx_len as usize },
        )
    } else {
        None
    }
}

/// The first derivatives of a block, output-major.
pub open spec fn block_der1<F: Real>(
    objective: MulticlassObjective,
    approx: Seq<F>,
    target: Seq<F>,
    weight: Seq<F>,
    ders: Seq<ObjectDers<F>>,
    n: int,
    k: int,
) -> Seq<F> {
    Seq::new((k * n) as nat, |c: int| der1_value(objective, approx, target, weight, ders, n, k, c / n, c % n))
}

/// The packed second derivatives of a block, object-major.
pub open spec fn block_der2<F: Real>(
    objective: MulticlassObjective,
    weight: Seq<F>,
    ders: Seq<ObjectDers<F>>,
    n: int,
    k: int,
) -> Seq<F> {
    let pk = packed_count(k);
    Seq::new((n * pk) as nat, |c: int| der2_value(objective, weight, ders, k, c / pk, c % pk))
}

/// Lays the derivatives of a multi-output objective out: first derivatives output-major,
/// packed second derivatives object-major, weighted by the objects.
///
/// `ders` are the derivatives that the loss gives per object. A squared-error objective is
/// taken from the columns alone: every output is measured against the object's one target.
pub fn assemble_multiclass_ders<F: Real>(
    objective: MulticlassObjective,
    approx: &[F],
    target: &[F],
    weight: &[F],
    ders: &[ObjectDers<F>],
    n: usize,
    k: usize,
) -> (r: CbResult<(Vec<F>, Vec<F>)>)
    ensures
        match multi_fault(approx@.len() as int, n as int, k as int) {
            Some(e) => r == Err::<(Vec<F>, Vec<F>), CbError>(e),
            None => r matches Ok((der1, der2)) && der1@ == block_der1(objective, approx@, target@, weight@, ders@, n as int, k as int)
                && der2@ == block_der2(objective, weight@, ders@, n as int, k as int),
        },
        r is Ok && (objective == MulticlassObjective::Softmax || objective == MulticlassObjective::OneVsAll
            || objective == MulticlassObjective::MultiCrossEntropy) ==> forall|d: int, i: int|
            0 <= d < k && 0 <= i < n && i < ders@.len() && d < ders@[i].d1@.len() ==> #[trigger] r->Ok_0.0@[d * n + i]
                == ders@[i].d1@[d].times_spec(if i < weight@.len() { weight@[i] } else { F::one_spec() }),
        r is Ok && objective == MulticlassObjective::MultiRmse ==> forall|d: int, i: int|
            0 <= d < k && 0 <= i < n && i < target@.len() ==> #[trigger] r->Ok_0.0@[d * n + i] == (if i < weight@.len() {
                weight@[i]
            } else {
                F::one_spec()
            }).times_spec(target@[i].minus_spec(approx@[d * n + i])),
{
    let pk: usize = match packed_len(k) {
        Ok(pk) => pk,
        Err(e) => {
            return Err(e);
        },
    };
    let k_n: usize = match k.checked_mul(n) {
        Some(v) => v,
        None => {
            return Err(CbError::OutOfRange(RangeFault::OutputBlock { k, n }));
        },
    };
    let n_pk: usize = match n.checked_mul(pk) {
        Some(v) => v,
        None => {
            return Err(CbError::OutOfRange(RangeFault::HessianBlock { n, pk }));
        },
    };
    if approx.len() != k_n {
        return Err(CbError::LengthMismatch { column: Column::Approx, expected: k_n, actual: approx.len() });
    }
    let filled: usize = if objective == MulticlassObjective::RmseWithUncertainty && k > 2 {
        2
    } else {
        k
    };
    let mut der1: Vec<F> = Vec::new();
    let mut c: usize = 0;
    while c < k_n
        invariant
            c <= k_n,
            k_n == k * n,
            filled == filled_outputs(objective, k as int),
            der1@.len() == c,
            forall|q: int|
                0 <= q < c ==> #[trigger] der1@[q] == der1_value(objective, approx@, target@, weight@, ders@, n as int, k as int, q / (n as int), q % (n as int)),
        decreases k_n - c,
    {
        proof {
            assert(n > 0) by (nonlinear_arith)
                requires
                    0 <= c < k * n,
                    n >= 0,
            ;
            lemma_line(c as int, n as int, k as int);
            lemma_row(c as int / n as int, k as int, n as int, c as int % n as int);
        }
        let d: usize = c / n;
        let i: usize = c % n;
        let w: F = get_or(weight, i, F::one());
        let v: F = match objective {
            MulticlassObjective::MultiRmse => w.times(get_or(target, i, F::zero()).minus(get_or(approx, d * n + i, F::zero()))),
            MulticlassObjective::RmseWithUncertainty => if d < filled {
                der_entry_of(ders, i, false, d)
            } else {
                F::zero()
            },
            _ => der_entry_of(ders, i, false, d).times(w),
        };
        der1.push(v);
        c = c + 1;
    }
    let table: Vec<Option<usize>> = diag_table(k, pk);
    let mut der2: Vec<F> = Vec::new();
    let mut e: usize = 0;
    while e < n_pk
        invariant
            e <= n_pk,
            n_pk == n * pk,
            pk == packed_count(k as int),
            filled == filled_outputs(objective, k as int),
            table@.len() == pk,
            forall|j: int|
                0 <= j < pk ==> match #[trigger] table@[j] {
                    Some(d) => diag_output(k as int, j) == Some(d as int),
                    None => diag_output(k as int, j) is None,
                },
            der2@.len() == e,
            forall|q: int|
                0 <= q < e ==> #[trigger] der2@[q] == der2_value(objective, weight@, ders@, k as int, q / (pk as int), q % (pk as int)),
        decreases n_pk - e,
    {
        proof {
            assert(pk > 0) by (nonlinear_arith)
                requires
                    0 <= e < n * pk,
                    pk >= 0,
            ;
            lemma_line(e as int, pk as int, n as int);
        }
        let i: usize = e / pk;
        let j: usize = e % pk;
        let w: F = get_or(weight, i, F::one());
        let v: F = if objective == MulticlassObjective::Softmax {
            der_entry_of(ders, i, true, j).times(w)
        } else {
            assert(table@[j as int] == table@[j as int]);
            match table[j] {
                None => F::zero(),
                Some(d) => match objective {
                    MulticlassObjective::MultiRmse => w.negated(),
                    MulticlassObjective::RmseWithUncertainty => if d < filled {
                        der_entry_of(ders, i, true, d)
                    } else {
                        F::zero()
                    },
                    _ => der_entry_of(ders, i, true, d).times(w),
                },
            }
        };
        der2.push(v);
        e = e + 1;
    }
    assert(der1@ =~= block_der1(objective, approx@, target@, weight@, ders@, n as int, k as int));
    assert(der2@ =~= block_der2(objective, weight@, ders@, n as int, k as int));
    proof {
        assert forall|d: int, i: int| 0 <= d < k && 0 <= i < n implies #[trigger] der1@[d * n + i] == der1_value(
            objective,
            approx@,
            target@,
            weight@,
            ders@,
            n as int,
            k as int,
            d,
            i,
        ) && d * n + i < approx@.len() by {
            lemma_row(d, k as int, n as int, i);
            lemma_line_cell(d, n as int, i);
        }
    }
    Ok((der1, der2))
}

/// The sum of one derivative over the objects of a leaf, among the first `upto`. Entries
/// past the end of the column are zero. `width` derivatives belong to a leaf; derivative
/// `j` of object `i` lies at `j * step_j + i * step_i`.
pub open spec fn leaf_sum<F: Real>(
    leaf_of: Seq<u32>,
    column: Seq<F>,
    step_j: int,
    step_i: int,
    leaf: int,
    j: int,
    upto: nat,
) -> F
    decreases upto,
{
    if upto == 0 {
        F::zero_spec()
    } else {
        let i = upto - 1;
        add_where(
            leaf_sum(leaf_of, column, step_j, step_i, leaf, j, i as nat),
            leaf_of[i] == leaf,
            entry_or(column, j * step_j + i * step_i, F::zero_spec()),
        )
    }
}

/// The leaf sums of a column, leaf-major.
pub open spec fn leaf_sums<F: Real>(
    leaf_of: Seq<u32>,
    column: Seq<F>,
    step_j: int,
    step_i: int,
    width: int,
    n_leaves: int,
) -> Seq<F> {
    Seq::new(
        (n_leaves * width) as nat,
        |c: int| leaf_sum(leaf_of, column, step_j, step_i, c / width, c % width, leaf_of.len()),
    )
}

fn sum_leaves<F: Real>(
    leaf_of: &[u32],
    column: &[F],
    step_j: usize,
    step_i: usize,
    width: usize,
    n_leaves: usize,
) -> (r: Vec<F>)
    requires
        n_leaves * width <= usize::MAX,
        forall|i: int, j: int|
            0 <= i < leaf_of@.len() && 0 <= j < width ==> #[trigger] place(j, step_j as int, i, step_i as int) <= usize::MAX,
    ensures
        r@ == leaf_sums(leaf_of@, column@, step_j as int, step_i as int, width as int, n_leaves as int),
{
    let n: usize = leaf_of.len();
    let mut sums: Vec<F> = zeros(n_leaves * width);
    let total: usize = sums.len();
    let mut i: usize = 0;
    while i < n
        invariant
            i <= n,
            n == leaf_of@.len(),
            total == n_leaves * width,
            sums@.len() == total,
            forall|i: int, j: int|
                0 <= i < leaf_of@.len() && 0 <= j < width ==> #[trigger] place(j, step_j as int, i, step_i as int) <= usize::MAX,
            forall|c: int|
                0 <= c < total ==> #[trigger] sums@[c] == leaf_sum(leaf_of@, column@, step_j as int, step_i as int, c / (width as int), c % (width as int), i as nat),
        decreases n - i,
    {
        let leaf: usize = leaf_of[i] as usize;
        let ghost start = sums@;
        if leaf < n_leaves {
            let mut j: usize = 0;
            while j < width
                invariant
                    j <= width,
                    i < n,
                    n == leaf_of@.len(),
                    leaf == leaf_of@[i as int],
                    leaf < n_leaves,
                    total == n_leaves * width,
                    sums@.len() == total,
                    start.len() == total,
                    forall|i: int, j: int|
                        0 <= i < leaf_of@.len() && 0 <= j < width ==> #[trigger] place(j, step_j as int, i, step_i as int) <= usize::MAX,
                    forall|c: int|
                        0 <= c < total ==> #[trigger] sums@[c] == if c / (width as int) == leaf && c % (width as int) < j {
                            start[c].plus_spec(entry_or(column@, (c % (width as int)) * step_j + i * step_i, F::zero_spec()))
                        } else {
                            start[c]
                        },
                decreases width - j,
            {
                proof {
                    lemma_row(leaf as int, n_leaves as int, width as int, j as int);
                    lemma_line_cell(leaf as int, width as int, j as int);
                    assert(place(j as int, step_j as int, i as int, step_i as int) <= usize::MAX);
                    assert(0 <= j * step_j) by (nonlinear_arith)
                        requires
                            0 <= j,
                            0 <= step_j,
                    ;
                    assert(0 <= i * step_i) by (nonlinear_arith)
                        requires
                            0 <= i,
                            0 <= step_i,
                    ;
                }
                let v: F = get_or(column, j * step_j + i * step_i, F::zero());
                let cell: usize = leaf * width + j;
                let ghost before = sums@;
                let s: F = sums[cell].plus(v);
                sums.set(cell, s);
                proof {
                    assert forall|c: int| 0 <= c < total implies #[trigger] sums@[c] == if c / (width as int) == leaf && c % (width as int) < j + 1 {
                        start[c].plus_spec(entry_or(column@, (c % (width as int)) * step_j + i * step_i, F::zero_spec()))
                    } else {
                        start[c]
                    } by {
                        lemma_line(c, width as int, leaf as int);
                        assert(before[c] == if c / (width as int) == leaf && c % (width as int) < j {
                            start[c].plus_spec(entry_or(column@, (c % (width as int)) * step_j + i * step_i, F::zero_spec()))
                        } else {
                            start[c]
                        });
                    }
                }
                j = j + 1;
            }
        }
        proof {
            assert forall|c: int| 0 <= c < total implies #[trigger] sums@[c] == leaf_sum(leaf_of@, column@, step_j as int, step_i as int, c / (width as int), c % (width as int), (i + 1) as nat) by {
                assert(width > 0) by (nonlinear_arith)
                    requires
                        0 <= c < n_leaves * width,
                        width >= 0,
                ;
                lemma_line(c, width as int, n_leaves as int);
                assert(start[c] == leaf_sum(leaf_of@, column@, step_j as int, step_i as int, c / (width as int), c % (width as int), i as nat));
            }
        }
        i = i + 1;
    }
    assert(sums@ =~= leaf_sums(leaf_of@, column@, step_j as int, step_i as int, width as int, n_leaves as int));
    sums
}

/// The place of derivative `j` of object `i`.
pub open spec fn place(j: int, step_j: int, i: int, step_i: int) -> int {
    j * step_j + i * step_i
}

/// The summed derivatives of every leaf.
pub struct LeafBlocks<F> {
    pub sum_der: Vec<F>,
    pub sum_der2_packed: Vec<F>,
    pub coupled: bool,
}

/// Sums the derivatives of the objects of each leaf, in ascending object order. Objects
/// whose leaf is out of range are left out.
pub fn accumulate_leaf_blocks<F: Real>(
    leaf_of: &[u32],
    der1: &[F],
    der2_packed: &[F],
    k: usize,
    pk: usize,
    n_leaves: usize,
) -> (r: (Vec<F>, Vec<F>))
    requires
        n_leaves * k <= usize::MAX,
        n_leaves * pk <= usize::MAX,
        k * leaf_of@.len() <= usize::MAX,
        leaf_of@.len() * pk <= usize::MAX,
    ensures
        r.0@ == leaf_sums(leaf_of@, der1@, leaf_of@.len() as int, 1, k as int, n_leaves as int),
        r.1@ == leaf_sums(leaf_of@, der2_packed@, 1, pk as int, pk as int, n_leaves as int),
{
    let n: usize = leaf_of.len();
    proof {
        assert forall|i: int, j: int| 0 <= i < n && 0 <= j < k implies #[trigger] place(j, n as int, i, 1) <= usize::MAX by {
            lemma_row(j, k as int, n as int, i);
        }
        assert forall|i: int, j: int| 0 <= i < n && 0 <= j < pk implies #[trigger] place(j, 1, i, pk as int) <= usize::MAX by {
            lemma_row(i, n as int, pk as int, j);
        }
    }
    (sum_leaves(leaf_of, der1, n, 1, k, n_leaves), sum_leaves(leaf_of, der2_packed, 1, pk, pk, n_leaves))
}

/// Sums the derivatives of a multi-output objective per leaf, for the device to solve. A
/// block without outputs or leaves has nothing to solve.
pub fn grow_multiclass_block<F: Real>(
    backend: Backend,
    objective: MulticlassObjective,
    leaf_of: &[u32],
    approx: &[F],
    target: &[F],
    weight: &[F],
    ders: &[ObjectDers<F>],
    k: usize,
    n_leaves: usize,
) -> (r: CbResult<Option<LeafBlocks<F>>>)
    requires
        n_leaves * k <= usize::MAX,
        n_leaves * packed_count(k as int) <= usize::MAX,
    ensures
        match multi_fault(approx@.len() as int, leaf_of@.len() as int, k as int) {
            Some(e) => r == Err::<Option<LeafBlocks<F>>, CbError>(e),
            None => if k == 0 || n_leaves == 0 {
                r == Ok::<Option<LeafBlocks<F>>, CbError>(None)
            } else if backend == Backend::Wgpu {
                r == Err::<Option<LeafBlocks<F>>, CbError>(CbError::OutOfRange(RangeFault::NoDoubles(DoubleUse::OutputBlock)))
            } else {
                let n = leaf_of@.len() as int;
                let pk = packed_count(k as int);
                let der1 = block_der1(objective, approx@, target@, weight@, ders@, n, k as int);
                let der2 = block_der2(objective, weight@, ders@, n, k as int);
                r matches Ok(Some(blocks)) && {
                    &&& blocks.sum_der@ == leaf_sums(leaf_of@, der1, n, 1, k as int, n_leaves as int)
                    &&& blocks.sum_der2_packed@ == leaf_sums(leaf_of@, der2, 1, pk, pk, n_leaves as int)
                    &&& blocks.coupled == (objective == MulticlassObjective::Softmax)
                }
            },
        },
{
    let n: usize = leaf_of.len();
    let (der1, der2) = match assemble_multiclass_ders(objective, approx, target, weight, ders, n, k) {
        Ok(ders) => ders,
        Err(e) => {
            return Err(e);
        },
    };
    let pk: usize = match packed_len(k) {
        Ok(pk) => pk,
        Err(e) => {
            return Err(e);
        },
    };
    if k == 0 || n_leaves == 0 {
        return Ok(None);
    }
    if backend == Backend::Wgpu {
        return Err(CbError::OutOfRange(RangeFault::NoDoubles(DoubleUse::OutputBlock)));
    }
    let (sum_der, sum_der2_packed) = accumulate_leaf_blocks(leaf_of, der1.as_slice(), der2.as_slice(), k, pk, n_leaves);
    Ok(Some(LeafBlocks { sum_der, sum_der2_packed, coupled: objective.is_coupled() }))
}

} // verus!
