//! How samples compare.
//!
//! The comparisons of a sample type are described by its partial order, which
//! may leave two samples unordered (a NaN against anything).
use crate::scalar::{exact_ops, Scalar};
use core::cmp::Ordering;
use vstd::prelude::*;
use vstd::std_specs::cmp::{PartialEqSpec, PartialOrdSpec};

verus! {

/// The comparisons of `S` answer as its partial order says.
pub open spec fn exact_order<S: Scalar>() -> bool {
    &&& S::obeys_partial_cmp_spec()
    &&& S::obeys_eq_spec()
}

/// Both the arithmetic and the comparisons of `S` are exact.
pub open spec fn exact_arith<S: Scalar>() -> bool {
    exact_ops::<S>() && exact_order::<S>()
}

/// `a < b`
pub open spec fn is_less<S: Scalar>(a: S, b: S) -> bool {
    a.partial_cmp_spec(&b) == Some(Ordering::Less)
}

/// `a > b`
pub open spec fn is_greater<S: Scalar>(a: S, b: S) -> bool {
    a.partial_cmp_spec(&b) == Some(Ordering::Greater)
}

/// `a <= b`
pub open spec fn is_at_most<S: Scalar>(a: S, b: S) -> bool {
    a.partial_cmp_spec(&b) matches Some(Ordering::Less | Ordering::Equal)
}

/// The comparisons of `S` order the samples in `values` as a total order
/// does: of any two, one is less than the other or they are the same
/// sample, which compares equal to itself; `a < b` exactly when `b > a`; and
/// `<=` is transitive.
pub open spec fn totally_ordered<S: Scalar>(values: Set<S>) -> bool {
    &&& forall|a: S, b: S|
        #![trigger values.contains(a), values.contains(b)]
        values.contains(a) && values.contains(b) ==> {
            &&& is_less(a, b) || is_greater(a, b) || a == b
            &&& a == b ==> a.partial_cmp_spec(&b) == Some(Ordering::Equal)
            &&& is_less(a, b) == is_greater(b, a)
        }
    &&& forall|a: S, b: S, c: S|
        #![trigger values.contains(a), values.contains(b), values.contains(c)]
        values.contains(a) && values.contains(b) && values.contains(c) && is_at_most(a, b)
            && is_at_most(b, c) ==> is_at_most(a, c)
}

/// `a == b` as the sample type's own equality decides it.
pub open spec fn is_equal<S: Scalar>(a: S, b: S) -> bool {
    a.eq_spec(&b)
}

} // verus!
