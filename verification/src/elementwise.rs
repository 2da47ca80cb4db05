//! Element-by-element kernels.

use vstd::prelude::*;
use crate::channel::Real;
use crate::histogram::all_below;

verus! {

/// Sets every element of a column.
pub fn fill_kernel<F: Copy>(out: &mut Vec<F>, value: F)
    ensures
        final(out)@ == Seq::new(old(out)@.len(), |i: int| value),
{
    let n: usize = out.len();
    let mut i: usize = 0;
    while i < n
        invariant
            i <= n,
            out@.len() == n,
            forall|k: int| 0 <= k < i ==> #[trigger] out@[k] == value,
        decreases n - i,
    {
        out.set(i, value);
        i = i + 1;
    }
    assert(out@ =~= Seq::new(n as nat, |i: int| value));
}

/// Reads a column in the order of `indices`.
pub fn gather_kernel<F: Copy>(input: &[F], indices: &[u32]) -> (r: Vec<F>)
    requires
        all_below(indices@, input@.len() as int),
    ensures
        r@ == Seq::new(indices@.len(), |i: int| input@[indices@[i] as int]),
{
    let n: usize = indices.len();
    let mut out: Vec<F> = Vec::new();
    let mut i: usize = 0;
    while i < n
        invariant
            i <= n,
            n == indices@.len(),
            all_below(indices@, input@.len() as int),
            out@.len() == i,
            forall|k: int| 0 <= k < i ==> #[trigger] out@[k] == input@[indices@[k] as int],
        decreases n - i,
    {
        assert(indices@[i as int] < input@.len());
        out.push(input[indices[i] as usize]);
        i = i + 1;
    }
    assert(out@ =~= Seq::new(indices@.len(), |i: int| input@[indices@[i] as int]));
    out
}

/// An operation on two elements.
#[derive(Clone, Copy, Debug, PartialEq, Eq, Structural)]
pub enum Pairwise {
    Plus,
    Minus,
    Times,
    Over,
}

/// What an operation gives.
pub open spec fn applied<F: Real>(op: Pairwise, a: F, b: F) -> F {
    match op {
        Pairwise::Plus => a.plus_spec(b),
        Pairwise::Minus => a.minus_spec(b),
        Pairwise::Times => a.times_spec(b),
        Pairwise::Over => a.over_spec(b),
    }
}

/// What an operation gives for each pair of elements.
pub open spec fn applied_all<F: Real>(op: Pairwise, a: Seq<F>, b: Seq<F>) -> Seq<F> {
    Seq::new(a.len(), |i: int| applied(op, a[i], b[i]))
}

fn apply_all<F: Real>(op: Pairwise, a: &[F], b: &[F]) -> (r: Vec<F>)
    requires
        b@.len() >= a@.len(),
    ensures
        r@ == applied_all(op, a@, b@),
{
    let n: usize = a.len();
    let mut out: Vec<F> = Vec::new();
    let mut i: usize = 0;
    while i < n
        invariant
            i <= n,
            n == a@.len(),
            b@.len() >= n,
            out@.len() == i,
            forall|k: int| 0 <= k < i ==> #[trigger] out@[k] == applied(op, a@[k], b@[k]),
        decreases n - i,
    {
        let v: F = match op {
            Pairwise::Plus => a[i].plus(b[i]),
            Pairwise::Minus => a[i].minus(b[i]),
            Pairwise::Times => a[i].times(b[i]),
            Pairwise::Over => a[i].over(b[i]),
        };
        out.push(v);
        i = i + 1;
    }
    assert(out@ =~= applied_all(op, a@, b@));
    out
}

/// The sums of two columns.
pub fn vector_add_kernel<F: Real>(a: &[F], b: &[F]) -> (r: Vec<F>)
    requires
        b@.len() >= a@.len(),
    ensures
        r@ == applied_all(Pairwise::Plus, a@, b@),
{
    apply_all(Pairwise::Plus, a, b)
}

/// The differences of two columns.
pub fn vector_sub_kernel<F: Real>(a: &[F], b: &[F]) -> (r: Vec<F>)
    requires
        b@.len() >= a@.len(),
    ensures
        r@ == applied_all(Pairwise::Minus, a@, b@),
{
    apply_all(Pairwise::Minus, a, b)
}

/// The products of two columns.
pub fn vector_mul_kernel<F: Real>(a: &[F], b: &[F]) -> (r: Vec<F>)
    requires
        b@.len() >= a@.len(),
    ensures
        r@ == applied_all(Pairwise::Times, a@, b@),
{
    apply_all(Pairwise::Times, a, b)
}

/// The quotients of two columns.
pub fn vector_div_kernel<F: Real>(a: &[F], b: &[F]) -> (r: Vec<F>)
    requires
        b@.len() >= a@.len(),
    ensures
        r@ == applied_all(Pairwise::Over, a@, b@),
{
    apply_all(Pairwise::Over, a, b)
}

/// The weighted derivatives of a column.
pub fn histogram_scatter_kernel<F: Real>(der1: &[F], weight: &[F]) -> (r: Vec<F>)
    requires
        weight@.len() >= der1@.len(),
    ensures
        r@ == applied_all(Pairwise::Times, der1@, weight@),
{
    apply_all(Pairwise::Times, der1, weight)
}

/// The squared-error derivatives: what each approximation lacks to its target.
pub fn gradient_kernel<F: Real>(approx: &[F], target: &[F]) -> (r: Vec<F>)
    requires
        target@.len() >= approx@.len(),
    ensures
        r@ == Seq::new(approx@.len(), |i: int| target@[i].minus_spec(approx@[i])),
{
    let n: usize = approx.len();
    let mut out: Vec<F> = Vec::new();
    let mut i: usize = 0;
    while i < n
        invariant
            i <= n,
            n == approx@.len(),
            n <= target@.len(),
            out@.len() == i,
            forall|k: int| 0 <= k < i ==> #[trigger] out@[k] == target@[k].minus_spec(approx@[k]),
        decreases n - i,
    {
        out.push(target[i].minus(approx[i]));
        i = i + 1;
    }
    out
}

} // verus!
