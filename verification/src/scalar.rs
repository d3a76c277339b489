//! The numeric type of the samples that flow through a chain.
//!
//! Every stage is written once for any sample type with the arithmetic of a
//! real-number approximation (`f64` in practice). Two spec predicates describe
//! what a stage may assume about that arithmetic:
//!
//! * [`total_arith`]: every operator accepts every pair of operands. This is
//!   what the stages need in order never to fail.
//! * [`exact_ops`] (and `exact_arith` in `order`): the operators compute what
//!   their specifications say. Contracts that speak of computed values are
//!   conditional on it; the structural half of each contract is not.
use core::ops::{Add, Div, Mul, Neg, Sub};
use vstd::prelude::*;
use vstd::std_specs::convert::FromSpec;
use vstd::std_specs::ops::{AddSpec, DivSpec, MulSpec, NegSpec, SubSpec};

verus! {

/// A value that can flow through a signal chain: copyable, ordered, closed
/// under the four operations and negation, and built from small integers.
pub trait Scalar:
    Copy
    + Send
    + PartialOrd
    + Add<Output = Self>
    + Sub<Output = Self>
    + Mul<Output = Self>
    + Div<Output = Self>
    + Neg<Output = Self>
    + From<u32>
{
}

impl<T> Scalar for T
where
    T: Copy
        + Send
        + PartialOrd
        + Add<Output = T>
        + Sub<Output = T>
        + Mul<Output = T>
        + Div<Output = T>
        + Neg<Output = T>
        + From<u32>,
{
}

/// No arithmetic operator of `S` refuses its operands (true of IEEE floats).
pub open spec fn total_arith<S: Scalar>() -> bool {
    &&& forall|a: S, b: S| #[trigger] a.add_req(b)
    &&& forall|a: S, b: S| #[trigger] a.sub_req(b)
    &&& forall|a: S, b: S| #[trigger] a.mul_req(b)
    &&& forall|a: S, b: S| #[trigger] a.div_req(b)
    &&& forall|a: S| #[trigger] a.neg_req()
}

/// The arithmetic operators and the conversion from `u32` of `S` compute
/// exactly what their specifications say.
pub open spec fn exact_ops<S: Scalar>() -> bool {
    &&& S::obeys_add_spec()
    &&& S::obeys_sub_spec()
    &&& S::obeys_mul_spec()
    &&& S::obeys_div_spec()
    &&& S::obeys_neg_spec()
    &&& <S as FromSpec<u32>>::obeys_from_spec()
}

/// The sample that stands for the integer `n`.
pub open spec fn from_u32<S: Scalar>(n: u32) -> S {
    <S as FromSpec<u32>>::from_spec(n)
}

pub open spec fn zero<S: Scalar>() -> S {
    from_u32::<S>(0)
}

pub open spec fn one<S: Scalar>() -> S {
    from_u32::<S>(1)
}

pub open spec fn plus<S: Scalar>(a: S, b: S) -> S {
    a.add_spec(b)
}

pub open spec fn minus<S: Scalar>(a: S, b: S) -> S {
    a.sub_spec(b)
}

pub open spec fn times<S: Scalar>(a: S, b: S) -> S {
    a.mul_spec(b)
}

pub open spec fn quotient<S: Scalar>(a: S, b: S) -> S {
    a.div_spec(b)
}

pub open spec fn negated<S: Scalar>(a: S) -> S {
    a.neg_spec()
}

/// Negative zero: the neutral element from which a sum of samples starts, so
/// that adding it to any sample gives that sample back.
pub open spec fn sum_start<S: Scalar>() -> S {
    negated(zero::<S>())
}

/// The sum of a sequence of samples, added from the first to the last.
pub open spec fn seq_sum<S: Scalar>(s: Seq<S>) -> S
    decreases s.len(),
{
    if s.len() == 0 {
        sum_start::<S>()
    } else {
        plus(seq_sum(s.drop_last()), s.last())
    }
}

/// The sample that stands for a count `n` of items: the count is split into
/// its high and low 32-bit halves, each of which converts exactly.
pub open spec fn count_value<S: Scalar>(n: usize) -> S {
    let hi: u32 = (n as int / 0x1_0000_0000) as u32;
    let lo: u32 = (n as int % 0x1_0000_0000) as u32;
    let half = from_u32::<S>(0x1_0000);
    plus(times(times(from_u32::<S>(hi), half), half), from_u32::<S>(lo))
}

/// `a + b == b + a`
#[verifier::opaque]
pub open spec fn plus_commutes<S: Scalar>() -> bool {
    forall|a: S, b: S| #[trigger] plus(a, b) == plus(b, a)
}

/// `(a + b) + c == a + (b + c)`
#[verifier::opaque]
pub open spec fn plus_associates<S: Scalar>() -> bool {
    forall|a: S, b: S, c: S| #[trigger] plus(plus(a, b), c) == plus(a, plus(b, c))
}

/// `a + 0 == a`, `a + -a == 0` and `a - b == a + -b`
#[verifier::opaque]
pub open spec fn plus_inverts<S: Scalar>() -> bool {
    &&& forall|a: S| #[trigger] plus(a, zero::<S>()) == a
    &&& forall|a: S| #[trigger] plus(a, negated(a)) == zero::<S>()
    &&& forall|a: S, b: S| #[trigger] minus(a, b) == plus(a, negated(b))
}

/// `a * b == b * a`
#[verifier::opaque]
pub open spec fn times_commutes<S: Scalar>() -> bool {
    forall|a: S, b: S| #[trigger] times(a, b) == times(b, a)
}

/// `(a * b) * c == a * (b * c)`
#[verifier::opaque]
pub open spec fn times_associates<S: Scalar>() -> bool {
    forall|a: S, b: S, c: S| #[trigger] times(times(a, b), c) == times(a, times(b, c))
}

/// `a * 1 == a`, and dividing by a non-zero `b` undoes multiplying by it
#[verifier::opaque]
pub open spec fn times_inverts<S: Scalar>() -> bool {
    &&& forall|a: S| #[trigger] times(a, one::<S>()) == a
    &&& forall|a: S, b: S| b != zero::<S>() ==> #[trigger] times(quotient(a, b), b) == a
}

/// `a * (b + c) == a * b + a * c`
#[verifier::opaque]
pub open spec fn times_distributes<S: Scalar>() -> bool {
    forall|a: S, b: S, c: S| #[trigger] times(a, plus(b, c)) == plus(times(a, b), times(a, c))
}

/// The arithmetic of `S` obeys the laws of a field: `+` and `*` are
/// commutative and associative, with neutral elements zero and one; `*`
/// distributes over `+`; `-a` undoes `a` under `+` and `a - b` is `a + -b`;
/// and dividing by a non-zero `b` undoes multiplying by it. Exact rationals
/// obey these laws; IEEE floats do not.
pub open spec fn field_laws<S: Scalar>() -> bool {
    &&& plus_commutes::<S>()
    &&& plus_associates::<S>()
    &&& plus_inverts::<S>()
    &&& times_commutes::<S>()
    &&& times_associates::<S>()
    &&& times_inverts::<S>()
    &&& times_distributes::<S>()
}

/// The field laws at given samples.
pub proof fn lemma_field_laws_at<S: Scalar>(a: S, b: S, c: S)
    requires
        field_laws::<S>(),
    ensures
        plus(a, b) == plus(b, a),
        plus(plus(a, b), c) == plus(a, plus(b, c)),
        plus(a, zero::<S>()) == a,
        plus(a, negated(a)) == zero::<S>(),
        minus(a, b) == plus(a, negated(b)),
        times(a, b) == times(b, a),
        times(times(a, b), c) == times(a, times(b, c)),
        times(a, one::<S>()) == a,
        times(a, plus(b, c)) == plus(times(a, b), times(a, c)),
        b != zero::<S>() ==> times(quotient(a, b), b) == a,
{
    assert(plus(a, b) == plus(b, a)) by {
        reveal(plus_commutes);
    }
    assert(plus(plus(a, b), c) == plus(a, plus(b, c))) by {
        reveal(plus_associates);
    }
    assert(plus(a, zero::<S>()) == a && plus(a, negated(a)) == zero::<S>() && minus(a, b) == plus(
        a,
        negated(b),
    )) by {
        reveal(plus_inverts);
    }
    assert(times(a, b) == times(b, a)) by {
        reveal(times_commutes);
    }
    assert(times(times(a, b), c) == times(a, times(b, c))) by {
        reveal(times_associates);
    }
    assert(times(a, one::<S>()) == a && (b != zero::<S>() ==> times(quotient(a, b), b) == a)) by {
        reveal(times_inverts);
    }
    assert(times(a, plus(b, c)) == plus(times(a, b), times(a, c))) by {
        reveal(times_distributes);
    }
}

/// Under the field laws, adding the same sample on the left can be undone.
pub proof fn lemma_add_cancel<S: Scalar>(x: S, y: S, z: S)
    requires
        field_laws::<S>(),
        plus(x, y) == plus(x, z),
    ensures
        y == z,
{
    let nx = negated(x);
    lemma_field_laws_at(y, x, nx);
    lemma_field_laws_at(z, x, nx);
    lemma_field_laws_at(x, y, z);
    lemma_field_laws_at(x, z, y);
    lemma_field_laws_at(plus(x, y), nx, x);
    assert(y == plus(plus(y, x), nx));
    assert(z == plus(plus(z, x), nx));
}

/// Under the field laws, `a * 0 == 0`.
pub proof fn lemma_times_zero<S: Scalar>(a: S)
    requires
        field_laws::<S>(),
    ensures
        times(a, zero::<S>()) == zero::<S>(),
{
    let z = zero::<S>();
    let t = times(a, z);
    lemma_field_laws_at(z, z, z);
    lemma_field_laws_at(a, z, z);
    lemma_field_laws_at(t, z, z);
    assert(plus(t, t) == plus(t, z));
    lemma_add_cancel(t, t, z);
}

/// Under the field laws, `a * -b == -(a * b)`.
pub proof fn lemma_times_negated<S: Scalar>(a: S, b: S)
    requires
        field_laws::<S>(),
    ensures
        times(a, negated(b)) == negated(times(a, b)),
{
    let ab = times(a, b);
    lemma_field_laws_at(a, b, negated(b));
    lemma_field_laws_at(b, a, a);
    lemma_field_laws_at(ab, a, a);
    lemma_times_zero(a);
    assert(plus(ab, times(a, negated(b))) == plus(ab, negated(ab)));
    lemma_add_cancel(ab, times(a, negated(b)), negated(ab));
}

/// Under the field laws, `-(-x) == x`.
pub proof fn lemma_negated_twice<S: Scalar>(x: S)
    requires
        field_laws::<S>(),
    ensures
        negated(negated(x)) == x,
{
    let nx = negated(x);
    lemma_field_laws_at(x, nx, x);
    lemma_field_laws_at(nx, x, x);
    assert(plus(nx, x) == plus(nx, negated(nx)));
    lemma_add_cancel(nx, x, negated(nx));
}

/// Under the field laws, `p - v == -(v - p)`.
pub proof fn lemma_minus_swapped<S: Scalar>(v: S, p: S)
    requires
        field_laws::<S>(),
    ensures
        minus(p, v) == negated(minus(v, p)),
{
    let d = minus(v, p);
    let e = minus(p, v);
    let np = negated(p);
    let nv = negated(v);
    let z = zero::<S>();
    lemma_field_laws_at(v, p, p);
    lemma_field_laws_at(p, v, v);
    lemma_field_laws_at(d, d, d);
    lemma_field_laws_at(v, np, plus(p, nv));
    lemma_field_laws_at(np, p, nv);
    lemma_field_laws_at(p, np, np);
    lemma_field_laws_at(z, nv, nv);
    lemma_field_laws_at(nv, z, z);
    lemma_field_laws_at(v, nv, nv);
    assert(plus(np, plus(p, nv)) == plus(plus(np, p), nv));
    assert(plus(np, p) == z);
    assert(plus(z, nv) == nv);
    assert(plus(d, e) == z);
    lemma_add_cancel(d, e, negated(d));
}

/// The sample for the integer `n`.
pub fn sample_of<S: Scalar>(n: u32) -> (r: S)
    ensures
        exact_ops::<S>() ==> r == from_u32::<S>(n),
{
    S::from(n)
}

/// The sample for a count of items.
pub fn count_sample<S: Scalar>(n: usize) -> (r: S)
    requires
        total_arith::<S>(),
    ensures
        exact_ops::<S>() ==> r == count_value::<S>(n),
{
    let wide: u64 = n as u64;
    let hi: u32 = (wide / 0x1_0000_0000u64) as u32;
    let lo: u32 = (wide % 0x1_0000_0000u64) as u32;
    let half: S = S::from(0x1_0000u32);
    S::from(hi) * half * half + S::from(lo)
}

/// Negative zero, the start of every sum of samples.
pub fn start_of_sum<S: Scalar>() -> (r: S)
    requires
        total_arith::<S>(),
    ensures
        exact_ops::<S>() ==> r == sum_start::<S>(),
{
    S::from(0u32).neg()
}

} // verus!
