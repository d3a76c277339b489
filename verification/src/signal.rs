//! The unit of data that a chain of stages transforms.
use crate::scalar::{exact_ops, one, sample_of, times, total_arith, zero, Scalar};
use vstd::prelude::*;
use vstd::string::StringExecFns;

verus! {

/// One reading: a value, when it was taken, how much it is trusted, and
/// where it came from.
#[derive(Clone, Debug)]
pub struct Signal<S> {
    pub value: S,
    pub timestamp: u64,
    pub confidence: S,
    pub source: String,
}

impl<S: Scalar> Signal<S> {
    /// A signal with every field given.
    pub fn new(value: S, timestamp: u64, confidence: S, source: &str) -> (r: Self)
        ensures
            r.value == value,
            r.timestamp == timestamp,
            r.confidence == confidence,
            r.source@ == source@,
    {
        Signal { value, timestamp, confidence, source: String::from_str(source) }
    }

    /// A fully trusted signal with no source.
    pub fn simple(value: S, timestamp: u64) -> (r: Self)
        ensures
            r.value == value,
            r.timestamp == timestamp,
            r.source@ == Seq::<char>::empty(),
            exact_ops::<S>() ==> r.confidence == one::<S>(),
    {
        Signal { value, timestamp, confidence: sample_of(1), source: String::new() }
    }

    /// The energy of the signal: the square of its value.
    pub fn energy(&self) -> (r: S)
        requires
            total_arith::<S>(),
        ensures
            exact_ops::<S>() ==> r == times(self.value, self.value),
    {
        self.value * self.value
    }
}

impl<S: Scalar> Default for Signal<S> {
    /// The empty signal: zero value and confidence, timestamp zero, no source.
    fn default() -> (r: Self)
        ensures
            r.timestamp == 0,
            r.source@ == Seq::<char>::empty(),
            exact_ops::<S>() ==> r.value == zero::<S>() && r.confidence == zero::<S>(),
    {
        Signal { value: sample_of(0), timestamp: 0, confidence: sample_of(0), source: String::new() }
    }
}

} // verus!
