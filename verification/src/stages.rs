//! The stages that a chain of signals is built from.
//!
//! Each stage turns one signal into one signal, possibly remembering
//! something for the next. The timestamp and the source of a signal pass
//! through every stage untouched.
use crate::order::{exact_arith, is_at_most, is_equal, is_greater, is_less, totally_ordered};
use crate::scalar::{
    count_sample, count_value, exact_ops, field_laws, lemma_field_laws_at, lemma_minus_swapped,
    lemma_negated_twice, lemma_times_negated, minus, negated, one, plus, quotient, sample_of,
    seq_sum, start_of_sum, times, total_arith, zero, Scalar,
};
use crate::signal::Signal;
use vstd::prelude::*;
use vstd::string::StringExecFns;

verus! {

/// The sum of the samples in `buf`, added from the first to the last.
fn sum_of<S: Scalar>(buf: &Vec<S>) -> (r: S)
    requires
        total_arith::<S>(),
    ensures
        exact_ops::<S>() ==> r == seq_sum(buf@),
{
    let mut total: S = start_of_sum();
    let mut i: usize = 0;
    while i < buf.len()
        invariant
            total_arith::<S>(),
            i <= buf.len(),
            exact_ops::<S>() ==> total == seq_sum(buf@.take(i as int)),
        decreases buf.len() - i,
    {
        proof {
            assert(buf@.take(i + 1).drop_last() =~= buf@.take(i as int));
        }
        total = total + buf[i];
        i = i + 1;
    }
    proof {
        assert(buf@.take(buf.len() as int) =~= buf@);
    }
    total
}

/// `|value - previous| <= threshold`, written as the two comparisons
/// `value - previous <= threshold` and `-(value - previous) <= threshold`,
/// which agree with the absolute value on every sample, NaN included.
pub open spec fn within_band<S: Scalar>(value: S, previous: S, threshold: S) -> bool {
    let d = minus(value, previous);
    is_at_most(d, threshold) && is_at_most(negated(d), threshold)
}

/// A value that lies more than `threshold` above or below `previous` is
/// outside the band, whichever side it lies on.
pub proof fn lemma_band_excludes_far_values<S: Scalar>(value: S, previous: S, threshold: S)
    ensures
        is_greater(minus(value, previous), threshold) ==> !within_band(value, previous, threshold),
        is_greater(negated(minus(value, previous)), threshold) ==> !within_band(
            value,
            previous,
            threshold,
        ),
{
}

/// Under the field laws the band is symmetric: whether `value` lies within
/// `threshold` of `previous` depends on their distance only, not on which of
/// the two is the larger. In particular a drop of more than `threshold`
/// (`previous - value > threshold`) leaves the band just as a rise does.
pub proof fn lemma_band_is_symmetric<S: Scalar>(value: S, previous: S, threshold: S)
    requires
        field_laws::<S>(),
    ensures
        within_band(value, previous, threshold) == within_band(previous, value, threshold),
        is_greater(minus(previous, value), threshold) ==> !within_band(value, previous, threshold),
{
    lemma_minus_swapped(value, previous);
    lemma_negated_twice(minus(value, previous));
    lemma_band_excludes_far_values(value, previous, threshold);
}

// ---------------------------------------------------------------------------
// DeadbandFilter
// ---------------------------------------------------------------------------

/// Lets a signal through unchanged only when its value differs from the last
/// value let through by more than `threshold`; any other signal comes out with
/// zero confidence. The first signal always goes through.
#[derive(Debug, Clone, Copy)]
pub struct DeadbandFilter<S> {
    threshold: S,
    last_value: Option<S>,
}

impl<S: Scalar> DeadbandFilter<S> {
    pub closed spec fn threshold(&self) -> S {
        self.threshold
    }

    /// The value of the last signal let through, if any.
    pub closed spec fn last_value(&self) -> Option<S> {
        self.last_value
    }

    /// Whether `input` falls inside the band around the last value let through.
    pub open spec fn suppresses(&self, input: Signal<S>) -> bool {
        match self.last_value() {
            Some(previous) => within_band(input.value, previous, self.threshold()),
            None => false,
        }
    }

    /// The signal that processing `input` gives.
    pub open spec fn output(&self, input: Signal<S>) -> Signal<S> {
        if self.suppresses(input) {
            Signal {
                value: input.value,
                timestamp: input.timestamp,
                confidence: zero::<S>(),
                source: input.source,
            }
        } else {
            input
        }
    }

    /// `next` is this filter once it has processed `input`.
    pub open spec fn advanced(&self, input: Signal<S>, next: Self) -> bool {
        &&& next.threshold() == self.threshold()
        &&& next.last_value() == if self.suppresses(input) {
            self.last_value()
        } else {
            Some(input.value)
        }
    }

    pub fn new(threshold: S) -> (r: Self)
        ensures
            r.threshold() == threshold,
            r.last_value() is None,
    {
        DeadbandFilter { threshold, last_value: None }
    }

    pub fn process_boxed(&mut self, input: Signal<S>) -> (r: Signal<S>)
        requires
            total_arith::<S>(),
        ensures
            final(self).threshold() == old(self).threshold(),
            r.value == input.value,
            r.timestamp == input.timestamp,
            r.source == input.source,
            old(self).last_value() is None ==> r == input && final(self).last_value() == Some(input.value),
            (r == input && final(self).last_value() == Some(input.value))
                || final(self).last_value() == old(self).last_value(),
            exact_arith::<S>() ==> r == old(self).output(input) && old(self).advanced(input, *final(self)),
            exact_arith::<S>() ==> (old(self).last_value() matches Some(p) && (is_greater(
                minus(input.value, p),
                old(self).threshold(),
            ) || is_greater(negated(minus(input.value, p)), old(self).threshold()))
                ==> r == input && final(self).last_value() == Some(input.value)),
            exact_arith::<S>() && field_laws::<S>() ==> (old(self).last_value() matches Some(p)
                && is_greater(minus(p, input.value), old(self).threshold()) ==> r == input
                && final(self).last_value() == Some(input.value)),
    {
        proof {
            if let Some(p) = self.last_value {
                lemma_band_excludes_far_values(input.value, p, self.threshold);
                if field_laws::<S>() {
                    lemma_band_is_symmetric(input.value, p, self.threshold);
                }
            }
        }
        match self.last_value {
            Some(previous) => {
                let d = input.value - previous;
                if d <= self.threshold && d.neg() <= self.threshold {
                    return Signal { confidence: sample_of(0), ..input };
                }
            },
            None => {},
        }
        self.last_value = Some(input.value);
        input
    }

    pub fn name(&self) -> (r: &str)
        ensures
            r@ == "DeadbandFilter"@,
    {
        proof {
            reveal_strlit("DeadbandFilter");
        }
        "DeadbandFilter"
    }
}

// ---------------------------------------------------------------------------
// MovingAverage
// ---------------------------------------------------------------------------

/// The average of the values of the last `window_size` signals.
#[derive(Debug)]
pub struct MovingAverage<S> {
    window_size: usize,
    buffer: Vec<S>,
}

/// The window after `value` has entered it: at most `size` values, the oldest
/// dropped first.
pub open spec fn slide<S>(window: Seq<S>, size: nat, value: S) -> Seq<S> {
    let w = window.push(value);
    if w.len() > size {
        w.drop_first()
    } else {
        w
    }
}

/// The window after each of `values` has entered it in turn.
pub open spec fn slide_all<S>(window: Seq<S>, size: nat, values: Seq<S>) -> Seq<S>
    decreases values.len(),
{
    if values.len() == 0 {
        window
    } else {
        slide(slide_all(window, size, values.drop_last()), size, values.last())
    }
}

/// A moving average that started empty holds the latest `size` values it
/// was given (all of them while there are fewer), oldest first.
pub proof fn lemma_window_holds_latest<S>(size: nat, values: Seq<S>)
    requires
        size > 0,
    ensures
        slide_all(Seq::<S>::empty(), size, values) == values.subrange(
            if values.len() > size {
                values.len() - size
            } else {
                0
            },
            values.len() as int,
        ),
    decreases values.len(),
{
    if values.len() > 0 {
        let n: int = values.len() as int;
        let before = values.drop_last();
        lemma_window_holds_latest(size, before);
        let start: int = if before.len() > size {
            before.len() - size
        } else {
            0
        };
        assert(before.subrange(start, n - 1).push(values.last()) =~= values.subrange(start, n));
        if n > size {
            assert(values.subrange(start, n).drop_first() =~= values.subrange(n - size, n));
        }
    } else {
        assert(values.subrange(0, 0) =~= Seq::<S>::empty());
    }
}

/// Under the field laws, the average of a window times the number of values
/// in it is the sum of those values (where that number is not zero in `S`):
/// every value of the window counts, each once.
pub proof fn lemma_average_times_count<S: Scalar>(window: Seq<S>)
    requires
        field_laws::<S>(),
        count_value::<S>(window.len() as usize) != zero::<S>(),
    ensures
        times(average(window), count_value::<S>(window.len() as usize)) == seq_sum(window),
{
    lemma_field_laws_at(seq_sum(window), count_value::<S>(window.len() as usize), zero::<S>());
}

/// The average of a non-empty window.
pub open spec fn average<S: Scalar>(window: Seq<S>) -> S {
    quotient(seq_sum(window), count_value::<S>(window.len() as usize))
}

impl<S> MovingAverage<S> {
    #[verifier::type_invariant]
    spec fn window_fits(&self) -> bool {
        0 < self.window_size && self.buffer.len() <= self.window_size
    }
}

impl<S: Scalar> MovingAverage<S> {
    pub closed spec fn window_size(&self) -> nat {
        self.window_size as nat
    }

    /// The values in the window, oldest first.
    pub closed spec fn window(&self) -> Seq<S> {
        self.buffer@
    }

    /// The signal that processing `input` gives.
    pub open spec fn output(&self, input: Signal<S>) -> Signal<S> {
        Signal {
            value: average(slide(self.window(), self.window_size(), input.value)),
            timestamp: input.timestamp,
            confidence: input.confidence,
            source: input.source,
        }
    }

    /// `next` is this stage once it has processed `input`.
    pub open spec fn advanced(&self, input: Signal<S>, next: Self) -> bool {
        &&& next.window_size() == self.window_size()
        &&& next.window() == slide(self.window(), self.window_size(), input.value)
    }

    /// A moving average over `window_size` signals; the window cannot be
    /// empty.
    pub fn new(window_size: usize) -> (r: Self)
        requires
            window_size > 0,
        ensures
            r.window_size() == window_size,
            r.window() == Seq::<S>::empty(),
    {
        MovingAverage { window_size, buffer: Vec::with_capacity(window_size) }
    }

    pub fn process_boxed(&mut self, input: Signal<S>) -> (r: Signal<S>)
        requires
            total_arith::<S>(),
        ensures
            old(self).advanced(input, *final(self)),
            0 < final(self).window().len() <= final(self).window_size(),
            r.timestamp == input.timestamp,
            r.confidence == input.confidence,
            r.source == input.source,
            exact_ops::<S>() ==> r == old(self).output(input),
            exact_ops::<S>() && field_laws::<S>() && count_value::<S>(
                final(self).window().len() as usize,
            ) != zero::<S>() ==> times(r.value, count_value::<S>(final(self).window().len() as usize))
                == seq_sum(final(self).window()),
    {
        proof {
            use_type_invariant(&*self);
            let w = slide(self.buffer@, self.window_size as nat, input.value);
            if field_laws::<S>() && count_value::<S>(w.len() as usize) != zero::<S>() {
                lemma_average_times_count(w);
            }
        }
        let mut buf: Vec<S> = Vec::new();
        std::mem::swap(&mut buf, &mut self.buffer);
        buf.push(input.value);
        if buf.len() > self.window_size {
            buf.remove(0);
        }
        let total = sum_of(&buf);
        let avg = total / count_sample(buf.len());
        self.buffer = buf;
        Signal { value: avg, ..input }
    }

    /// The window and its size are the same in both.
    pub open spec fn same_state(&self, other: &Self) -> bool {
        self.window_size() == other.window_size() && self.window() == other.window()
    }

    pub fn name(&self) -> (r: &str)
        ensures
            r@ == "MovingAverage"@,
    {
        proof {
            reveal_strlit("MovingAverage");
        }
        "MovingAverage"
    }
}

impl<S: Scalar> Clone for MovingAverage<S> {
    /// A copy with the same window.
    fn clone(&self) -> (r: Self)
        ensures
            r.same_state(self),
    {
        proof {
            use_type_invariant(self);
        }
        let mut buffer: Vec<S> = Vec::with_capacity(self.window_size);
        let mut i: usize = 0;
        while i < self.buffer.len()
            invariant
                i <= self.buffer.len(),
                buffer@ == self.buffer@.take(i as int),
            decreases self.buffer.len() - i,
        {
            buffer.push(self.buffer[i]);
            i = i + 1;
        }
        proof {
            assert(self.buffer@.take(self.buffer.len() as int) =~= self.buffer@);
        }
        MovingAverage { window_size: self.window_size, buffer }
    }
}

// ---------------------------------------------------------------------------
// ExponentialSmoothing
// ---------------------------------------------------------------------------

/// `0 <= x <= 1`
pub open spec fn in_unit_interval<S: Scalar>(x: S) -> bool {
    is_at_most(zero::<S>(), x) && is_at_most(x, one::<S>())
}

/// The value after smoothing `value` against the previous output `previous`:
/// `alpha * value + (1 - alpha) * previous`.
pub open spec fn smoothed<S: Scalar>(alpha: S, value: S, previous: S) -> S {
    plus(times(alpha, value), times(minus(one::<S>(), alpha), previous))
}

/// Under the field laws, smoothing moves from the previous output towards the
/// new value by exactly `alpha` of the gap between them:
/// `smoothed - previous == alpha * (value - previous)`.
pub proof fn lemma_smoothing_step<S: Scalar>(alpha: S, value: S, previous: S)
    requires
        field_laws::<S>(),
    ensures
        minus(smoothed(alpha, value, previous), previous) == times(alpha, minus(value, previous)),
{
    let o = one::<S>();
    let p = previous;
    let na = negated(alpha);
    let np = negated(p);
    let av = times(alpha, value);
    let x = negated(times(alpha, p));
    lemma_field_laws_at(minus(o, alpha), p, p);
    lemma_field_laws_at(o, alpha, alpha);
    lemma_field_laws_at(p, o, na);
    lemma_times_negated(p, alpha);
    lemma_field_laws_at(p, alpha, alpha);
    lemma_field_laws_at(value, p, p);
    lemma_field_laws_at(alpha, value, np);
    lemma_times_negated(alpha, p);
    let sm = smoothed(alpha, value, p);
    lemma_field_laws_at(sm, p, p);
    lemma_field_laws_at(av, plus(p, x), np);
    lemma_field_laws_at(p, x, np);
    lemma_field_laws_at(x, np, np);
    lemma_field_laws_at(p, np, x);
    lemma_field_laws_at(zero::<S>(), x, x);
    lemma_field_laws_at(x, x, x);
}

/// Exponential moving average with smoothing factor `alpha`:
/// `output = alpha * input + (1 - alpha) * previous output`; the first signal
/// passes unchanged.
#[derive(Debug, Clone, Copy)]
pub struct ExponentialSmoothing<S> {
    alpha: S,
    prev: Option<S>,
}

impl<S: Scalar> ExponentialSmoothing<S> {
    pub closed spec fn alpha(&self) -> S {
        self.alpha
    }

    /// The previous output, if any.
    pub closed spec fn previous(&self) -> Option<S> {
        self.prev
    }

    /// The signal that processing `input` gives.
    pub open spec fn output(&self, input: Signal<S>) -> Signal<S> {
        match self.previous() {
            Some(p) => Signal {
                value: smoothed(self.alpha(), input.value, p),
                timestamp: input.timestamp,
                confidence: input.confidence,
                source: input.source,
            },
            None => input,
        }
    }

    /// `next` is this stage once it has processed `input`.
    pub open spec fn advanced(&self, input: Signal<S>, next: Self) -> bool {
        &&& next.alpha() == self.alpha()
        &&& next.previous() == Some(self.output(input).value)
    }

    /// An exponential moving average; `alpha` must lie in `[0, 1]`.
    pub fn new(alpha: S) -> (r: Self)
        requires
            in_unit_interval(alpha),
        ensures
            r.alpha() == alpha,
            r.previous() is None,
    {
        ExponentialSmoothing { alpha, prev: None }
    }

    pub fn process_boxed(&mut self, input: Signal<S>) -> (r: Signal<S>)
        requires
            total_arith::<S>(),
        ensures
            final(self).alpha() == old(self).alpha(),
            final(self).previous() == Some(r.value),
            r.timestamp == input.timestamp,
            r.confidence == input.confidence,
            r.source == input.source,
            old(self).previous() is None ==> r == input,
            exact_ops::<S>() ==> r == old(self).output(input) && old(self).advanced(input, *final(self)),
            exact_ops::<S>() && field_laws::<S>() ==> (old(self).previous() matches Some(p) ==> minus(
                r.value,
                p,
            ) == times(old(self).alpha(), minus(input.value, p))),
    {
        proof {
            if field_laws::<S>() {
                if let Some(p) = self.prev {
                    lemma_smoothing_step(self.alpha, input.value, p);
                }
            }
        }
        let value = match self.prev {
            Some(p) => self.alpha * input.value + (sample_of::<S>(1) - self.alpha) * p,
            None => input.value,
        };
        self.prev = Some(value);
        Signal { value, ..input }
    }

    pub fn name(&self) -> (r: &str)
        ensures
            r@ == "ExponentialSmoothing"@,
    {
        proof {
            reveal_strlit("ExponentialSmoothing");
        }
        "ExponentialSmoothing"
    }
}

// ---------------------------------------------------------------------------
// ConfidenceGate
// ---------------------------------------------------------------------------

/// Zeroes the value and the confidence of every signal whose confidence is
/// below `threshold`; lets the others through unchanged.
#[derive(Debug, Clone, Copy)]
pub struct ConfidenceGate<S> {
    threshold: S,
}

impl<S: Scalar> ConfidenceGate<S> {
    pub closed spec fn threshold(&self) -> S {
        self.threshold
    }

    /// The signal that processing `input` gives.
    pub open spec fn output(&self, input: Signal<S>) -> Signal<S> {
        if is_less(input.confidence, self.threshold()) {
            Signal {
                value: zero::<S>(),
                timestamp: input.timestamp,
                confidence: zero::<S>(),
                source: input.source,
            }
        } else {
            input
        }
    }

    pub fn new(threshold: S) -> (r: Self)
        ensures
            r.threshold() == threshold,
    {
        ConfidenceGate { threshold }
    }

    pub fn process_boxed(&self, input: Signal<S>) -> (r: Signal<S>)
        ensures
            r.timestamp == input.timestamp,
            r.source == input.source,
            exact_arith::<S>() ==> r == self.output(input),
            exact_arith::<S>() && totally_ordered(set![input.confidence, self.threshold()])
                && is_at_most(self.threshold(), input.confidence) ==> r == input,
    {
        proof {
            if totally_ordered(set![input.confidence, self.threshold()]) {
                lemma_gate_threshold_inclusive(*self, input);
            }
        }
        if input.confidence < self.threshold {
            Signal { value: sample_of(0), confidence: sample_of(0), ..input }
        } else {
            input
        }
    }

    pub fn name(&self) -> (r: &str)
        ensures
            r@ == "ConfidenceGate"@,
    {
        proof {
            reveal_strlit("ConfidenceGate");
        }
        "ConfidenceGate"
    }
}

// ---------------------------------------------------------------------------
// Normalizer
// ---------------------------------------------------------------------------

/// With confidence and threshold totally ordered: a signal whose confidence
/// is at least the threshold (equal to it included) passes unchanged, and
/// one below it comes out with value and confidence zero.
pub proof fn lemma_gate_threshold_inclusive<S: Scalar>(gate: ConfidenceGate<S>, input: Signal<S>)
    requires
        totally_ordered(set![input.confidence, gate.threshold()]),
    ensures
        is_at_most(gate.threshold(), input.confidence) ==> gate.output(input) == input,
        is_less(input.confidence, gate.threshold()) ==> gate.output(input).value == zero::<S>()
            && gate.output(input).confidence == zero::<S>(),
{
    let values = set![input.confidence, gate.threshold()];
    assert(values.contains(input.confidence) && values.contains(gate.threshold()));
}

/// `x` clamped to `[0, 1]`, as `clamp` does it: below zero gives zero, above
/// one gives one, anything else (NaN included) stays.
pub open spec fn clamp_unit<S: Scalar>(x: S) -> S {
    let low = if is_less(x, zero::<S>()) {
        zero::<S>()
    } else {
        x
    };
    if is_greater(low, one::<S>()) {
        one::<S>()
    } else {
        low
    }
}

/// Where `0 <= 1` and the comparisons order `x`, zero and one totally, the
/// clamped sample lies in `[0, 1]`, and a sample already in that range comes
/// out as it is.
pub proof fn lemma_clamp_unit_in_range<S: Scalar>(x: S)
    requires
        is_at_most(zero::<S>(), one::<S>()),
        totally_ordered(set![x, zero::<S>(), one::<S>()]),
    ensures
        is_at_most(zero::<S>(), clamp_unit(x)),
        is_at_most(clamp_unit(x), one::<S>()),
        is_at_most(zero::<S>(), x) && is_at_most(x, one::<S>()) ==> clamp_unit(x) == x,
        is_greater(x, one::<S>()) ==> clamp_unit(x) == one::<S>(),
        is_less(x, zero::<S>()) ==> clamp_unit(x) == zero::<S>(),
{
    let values = set![x, zero::<S>(), one::<S>()];
    assert(values.contains(x) && values.contains(zero::<S>()) && values.contains(one::<S>()));
}

/// Under the field laws, with `max - min` not zero, `0 <= 1`, and the
/// comparisons ordering the ratio `q = (value - min) / (max - min)`, zero
/// and one totally: the normalized value lies in `[0, 1]`, and where `q`
/// does it scales back onto the input, `normalized * (max - min) == value -
/// min`.
pub proof fn lemma_normalized_in_range<S: Scalar>(n: Normalizer<S>, value: S)
    requires
        field_laws::<S>(),
        minus(n.max(), n.min()) != zero::<S>(),
        is_at_most(zero::<S>(), one::<S>()),
        totally_ordered(
            set![quotient(minus(value, n.min()), minus(n.max(), n.min())), zero::<S>(), one::<S>()],
        ),
    ensures
        is_at_most(zero::<S>(), n.normalized(value)),
        is_at_most(n.normalized(value), one::<S>()),
        ({
            let q = quotient(minus(value, n.min()), minus(n.max(), n.min()));
            is_at_most(zero::<S>(), q) && is_at_most(q, one::<S>()) ==> times(
                n.normalized(value),
                minus(n.max(), n.min()),
            ) == minus(value, n.min())
        }),
{
    let q = quotient(minus(value, n.min()), minus(n.max(), n.min()));
    lemma_clamp_unit_in_range(q);
    lemma_field_laws_at(minus(value, n.min()), minus(n.max(), n.min()), zero::<S>());
}

/// Maps values linearly from `[min, max]` onto `[0, 1]`, clamping the rest.
#[derive(Debug, Clone, Copy)]
pub struct Normalizer<S> {
    min: S,
    max: S,
}

impl<S: Scalar> Normalizer<S> {
    pub closed spec fn min(&self) -> S {
        self.min
    }

    pub closed spec fn max(&self) -> S {
        self.max
    }

    /// The normalized value of `value`.
    pub open spec fn normalized(&self, value: S) -> S {
        clamp_unit(quotient(minus(value, self.min()), minus(self.max(), self.min())))
    }

    /// The signal that processing `input` gives.
    pub open spec fn output(&self, input: Signal<S>) -> Signal<S> {
        Signal {
            value: self.normalized(input.value),
            timestamp: input.timestamp,
            confidence: input.confidence,
            source: input.source,
        }
    }

    /// A normalizer for `[min, max]`; `max` must exceed `min`.
    pub fn new(min: S, max: S) -> (r: Self)
        requires
            is_greater(max, min),
        ensures
            r.min() == min,
            r.max() == max,
    {
        Normalizer { min, max }
    }

    pub fn process_boxed(&self, input: Signal<S>) -> (r: Signal<S>)
        requires
            total_arith::<S>(),
        ensures
            r.timestamp == input.timestamp,
            r.confidence == input.confidence,
            r.source == input.source,
            exact_arith::<S>() ==> r == self.output(input),
    {
        let zero_s: S = sample_of(0);
        let one_s: S = sample_of(1);
        let mut x = (input.value - self.min) / (self.max - self.min);
        if x < zero_s {
            x = zero_s;
        }
        if x > one_s {
            x = one_s;
        }
        Signal { value: x, ..input }
    }

    pub fn name(&self) -> (r: &str)
        ensures
            r@ == "Normalizer"@,
    {
        proof {
            reveal_strlit("Normalizer");
        }
        "Normalizer"
    }
}

// ---------------------------------------------------------------------------
// Aggregator
// ---------------------------------------------------------------------------

/// How several signals are combined into one.
#[derive(Debug, Clone, Copy, PartialEq, Eq, Structural)]
pub enum AggregationMethod {
    Mean,
    Max,
    Weighted,
}

/// The values of the signals, in order.
pub open spec fn values_of<S>(signals: Seq<Signal<S>>) -> Seq<S> {
    signals.map_values(|s: Signal<S>| s.value)
}

/// The confidences of the signals, in order.
pub open spec fn confidences_of<S>(signals: Seq<Signal<S>>) -> Seq<S> {
    signals.map_values(|s: Signal<S>| s.confidence)
}

/// Each value multiplied by its confidence, in order.
pub open spec fn weighted_values_of<S: Scalar>(signals: Seq<Signal<S>>) -> Seq<S> {
    signals.map_values(|s: Signal<S>| times(s.value, s.confidence))
}

/// Negative infinity, reached as `-(1 / 0)`.
pub open spec fn lowest<S: Scalar>() -> S {
    negated(quotient(one::<S>(), zero::<S>()))
}

/// The largest value, folded from negative infinity: a value replaces the
/// running maximum only when it is greater, so NaN values are passed over.
pub open spec fn running_max<S: Scalar>(values: Seq<S>) -> S
    decreases values.len(),
{
    if values.len() == 0 {
        lowest::<S>()
    } else {
        let m = running_max(values.drop_last());
        if is_greater(values.last(), m) {
            values.last()
        } else {
            m
        }
    }
}

/// Where the comparisons order the values and negative infinity totally and
/// no value lies below negative infinity, the running maximum is at least
/// every value and, when there is a value, is one of them.
pub proof fn lemma_running_max_is_largest<S: Scalar>(values: Seq<S>, domain: Set<S>)
    requires
        totally_ordered(domain),
        domain.contains(lowest::<S>()),
        forall|i: int| 0 <= i < values.len() ==> #[trigger] domain.contains(values[i]),
        forall|i: int| 0 <= i < values.len() ==> is_at_most(lowest::<S>(), #[trigger] values[i]),
    ensures
        domain.contains(running_max(values)),
        forall|i: int| 0 <= i < values.len() ==> is_at_most(#[trigger] values[i], running_max(values)),
        values.len() > 0 ==> exists|i: int| 0 <= i < values.len() && running_max(values) == #[trigger] values[i],
    decreases values.len(),
{
    if values.len() > 0 {
        let rest = values.drop_last();
        let n: int = values.len() - 1;
        let v = values.last();
        assert forall|i: int| 0 <= i < rest.len() implies #[trigger] domain.contains(rest[i]) by {
            assert(domain.contains(values[i]));
        }
        assert forall|i: int| 0 <= i < rest.len() implies is_at_most(lowest::<S>(), #[trigger] rest[i]) by {
            assert(is_at_most(lowest::<S>(), values[i]));
        }
        lemma_running_max_is_largest(rest, domain);
        let m = running_max(rest);
        assert(domain.contains(v));
        assert(domain.contains(m));
        assert(values[n] == v);
        if is_greater(v, m) {
            assert forall|i: int| 0 <= i < values.len() implies is_at_most(#[trigger] values[i], running_max(values)) by {
                if i < n {
                    assert(rest[i] == values[i]);
                    assert(domain.contains(values[i]));
                    assert(is_at_most(values[i], m));
                }
            }
        } else {
            assert(is_at_most(v, m));
            assert forall|i: int| 0 <= i < values.len() implies is_at_most(#[trigger] values[i], running_max(values)) by {
                if i < n {
                    assert(rest[i] == values[i]);
                }
            }
            if rest.len() > 0 {
                let j = choose|j: int| 0 <= j < rest.len() && m == #[trigger] rest[j];
                assert(values[j] == rest[j]);
            } else {
                assert(is_at_most(lowest::<S>(), values[n]));
                assert(domain.contains(lowest::<S>()));
                assert(v == lowest::<S>());
            }
        }
    }
}

/// The latest timestamp of the signals (zero when there are none).
pub open spec fn latest_timestamp<S>(signals: Seq<Signal<S>>) -> u64
    decreases signals.len(),
{
    if signals.len() == 0 {
        0
    } else {
        let t: u64 = latest_timestamp(signals.drop_last());
        if signals.last().timestamp > t {
            signals.last().timestamp
        } else {
            t
        }
    }
}

/// The sources of the signals joined by `+`.
pub open spec fn joined_sources<S>(signals: Seq<Signal<S>>) -> Seq<char>
    decreases signals.len(),
{
    if signals.len() == 0 {
        Seq::empty()
    } else if signals.len() == 1 {
        signals[0].source@
    } else {
        joined_sources(signals.drop_last()) + seq!['+'] + signals.last().source@
    }
}

/// The mean of a non-empty sequence of samples.
pub open spec fn mean_of<S: Scalar>(s: Seq<S>) -> S {
    quotient(seq_sum(s), count_value::<S>(s.len() as usize))
}

/// Under the field laws, the mean aggregate of signals times their number is
/// the sum of their values (where that number is not zero in `S`): every
/// signal's value counts, each once, whatever their order.
pub proof fn lemma_mean_times_count<S: Scalar>(signals: Seq<Signal<S>>)
    requires
        field_laws::<S>(),
        count_value::<S>(signals.len() as usize) != zero::<S>(),
    ensures
        times(
            aggregated_value(AggregationMethod::Mean, signals),
            count_value::<S>(signals.len() as usize),
        ) == seq_sum(values_of(signals)),
{
    let values = values_of(signals);
    assert(values.len() == signals.len());
    lemma_field_laws_at(seq_sum(values), count_value::<S>(signals.len() as usize), zero::<S>());
}

/// Under the field laws, the confidence-weighted aggregate times the total
/// weight is the sum of each value times its confidence (where the total
/// weight is not zero).
pub proof fn lemma_weighted_times_weight<S: Scalar>(signals: Seq<Signal<S>>)
    requires
        field_laws::<S>(),
        seq_sum(confidences_of(signals)) != zero::<S>(),
    ensures
        times(
            aggregated_value(AggregationMethod::Weighted, signals),
            seq_sum(confidences_of(signals)),
        ) == seq_sum(weighted_values_of(signals)),
{
    lemma_field_laws_at(seq_sum(weighted_values_of(signals)), seq_sum(confidences_of(signals)), zero::<S>());
}

/// Under the field laws, the mean confidence times the number of signals is
/// the sum of their confidences (where that number is not zero in `S`).
pub proof fn lemma_mean_confidence_times_count<S: Scalar>(signals: Seq<Signal<S>>)
    requires
        field_laws::<S>(),
        count_value::<S>(signals.len() as usize) != zero::<S>(),
    ensures
        times(mean_of(confidences_of(signals)), count_value::<S>(signals.len() as usize)) == seq_sum(
            confidences_of(signals),
        ),
{
    assert(confidences_of(signals).len() == signals.len());
    lemma_field_laws_at(seq_sum(confidences_of(signals)), count_value::<S>(signals.len() as usize), zero::<S>());
}

/// Where the comparisons order the values and negative infinity totally and
/// no value lies below negative infinity, the maximum aggregate is at least
/// the value of every signal and is the value of one of them.
pub proof fn lemma_max_aggregate_is_largest<S: Scalar>(signals: Seq<Signal<S>>, domain: Set<S>)
    requires
        signals.len() > 0,
        totally_ordered(domain),
        domain.contains(lowest::<S>()),
        forall|i: int| 0 <= i < signals.len() ==> #[trigger] domain.contains(signals[i].value),
        forall|i: int| 0 <= i < signals.len() ==> is_at_most(lowest::<S>(), #[trigger] signals[i].value),
    ensures
        forall|i: int|
            0 <= i < signals.len() ==> is_at_most(
                #[trigger] signals[i].value,
                aggregated_value(AggregationMethod::Max, signals),
            ),
        exists|i: int|
            0 <= i < signals.len() && aggregated_value(AggregationMethod::Max, signals)
                == #[trigger] signals[i].value,
{
    let values = values_of(signals);
    assert forall|i: int| 0 <= i < values.len() implies #[trigger] domain.contains(values[i]) by {
        assert(values[i] == signals[i].value);
    }
    assert forall|i: int| 0 <= i < values.len() implies is_at_most(lowest::<S>(), #[trigger] values[i]) by {
        assert(values[i] == signals[i].value);
    }
    lemma_running_max_is_largest(values, domain);
    assert forall|i: int| 0 <= i < signals.len() implies is_at_most(
        #[trigger] signals[i].value,
        aggregated_value(AggregationMethod::Max, signals),
    ) by {
        assert(values[i] == signals[i].value);
    }
    let j = choose|j: int| 0 <= j < values.len() && running_max(values) == #[trigger] values[j];
    assert(values[j] == signals[j].value);
}

/// Whether the weights (confidences) of the signals add up to zero.
pub open spec fn weights_vanish<S: Scalar>(signals: Seq<Signal<S>>) -> bool {
    is_equal(seq_sum(confidences_of(signals)), zero::<S>())
}

/// The aggregated value of the signals under `method`.
pub open spec fn aggregated_value<S: Scalar>(method: AggregationMethod, signals: Seq<Signal<S>>) -> S {
    match method {
        AggregationMethod::Mean => mean_of(values_of(signals)),
        AggregationMethod::Max => running_max(values_of(signals)),
        AggregationMethod::Weighted => quotient(
            seq_sum(weighted_values_of(signals)),
            seq_sum(confidences_of(signals)),
        ),
    }
}

/// `r` is what aggregating `signals` under `method` gives: the empty signal
/// when weighting by confidences that add up to zero; otherwise the
/// aggregated value, the mean confidence, the latest timestamp and the joined
/// sources.
pub open spec fn is_aggregate<S: Scalar>(
    method: AggregationMethod,
    signals: Seq<Signal<S>>,
    r: Signal<S>,
) -> bool {
    if method == AggregationMethod::Weighted && weights_vanish(signals) {
        &&& r.value == zero::<S>()
        &&& r.confidence == zero::<S>()
        &&& r.timestamp == 0
        &&& r.source@ == Seq::<char>::empty()
    } else {
        &&& r.value == aggregated_value(method, signals)
        &&& r.confidence == mean_of(confidences_of(signals))
        &&& r.timestamp == latest_timestamp(signals)
        &&& r.source@ == joined_sources(signals)
    }
}

/// Combines several signals into one with the chosen method; in a chain it
/// passes a single signal through unchanged.
#[derive(Debug, Clone, Copy)]
pub struct Aggregator {
    method: AggregationMethod,
}

/// The sum of the values of the signals.
fn sum_values<S: Scalar>(signals: &[Signal<S>]) -> (r: S)
    requires
        total_arith::<S>(),
    ensures
        exact_ops::<S>() ==> r == seq_sum(values_of(signals@)),
{
    let mut total: S = start_of_sum();
    let mut i: usize = 0;
    while i < signals.len()
        invariant
            total_arith::<S>(),
            i <= signals.len(),
            exact_ops::<S>() ==> total == seq_sum(values_of(signals@.take(i as int))),
        decreases signals.len() - i,
    {
        proof {
            assert(values_of(signals@.take(i + 1)).drop_last() =~= values_of(signals@.take(i as int)));
        }
        total = total + signals[i].value;
        i = i + 1;
    }
    proof {
        assert(signals@.take(signals.len() as int) =~= signals@);
    }
    total
}

/// The sum of the confidences of the signals.
fn sum_confidences<S: Scalar>(signals: &[Signal<S>]) -> (r: S)
    requires
        total_arith::<S>(),
    ensures
        exact_ops::<S>() ==> r == seq_sum(confidences_of(signals@)),
{
    let mut total: S = start_of_sum();
    let mut i: usize = 0;
    while i < signals.len()
        invariant
            total_arith::<S>(),
            i <= signals.len(),
            exact_ops::<S>() ==> total == seq_sum(confidences_of(signals@.take(i as int))),
        decreases signals.len() - i,
    {
        proof {
            assert(confidences_of(signals@.take(i + 1)).drop_last() =~= confidences_of(
                signals@.take(i as int),
            ));
        }
        total = total + signals[i].confidence;
        i = i + 1;
    }
    proof {
        assert(signals@.take(signals.len() as int) =~= signals@);
    }
    total
}

/// The sum of each value multiplied by its confidence.
fn sum_weighted<S: Scalar>(signals: &[Signal<S>]) -> (r: S)
    requires
        total_arith::<S>(),
    ensures
        exact_ops::<S>() ==> r == seq_sum(weighted_values_of(signals@)),
{
    let mut total: S = start_of_sum();
    let mut i: usize = 0;
    while i < signals.len()
        invariant
            total_arith::<S>(),
            i <= signals.len(),
            exact_ops::<S>() ==> total == seq_sum(weighted_values_of(signals@.take(i as int))),
        decreases signals.len() - i,
    {
        proof {
            assert(weighted_values_of(signals@.take(i + 1)).drop_last() =~= weighted_values_of(
                signals@.take(i as int),
            ));
        }
        total = total + signals[i].value * signals[i].confidence;
        i = i + 1;
    }
    proof {
        assert(signals@.take(signals.len() as int) =~= signals@);
    }
    total
}

/// The largest value, folded from negative infinity as `f64::max` does.
fn max_value<S: Scalar>(signals: &[Signal<S>]) -> (r: S)
    requires
        total_arith::<S>(),
    ensures
        exact_arith::<S>() ==> r == running_max(values_of(signals@)),
{
    let mut best: S = (sample_of::<S>(1) / sample_of::<S>(0)).neg();
    let mut i: usize = 0;
    while i < signals.len()
        invariant
            total_arith::<S>(),
            i <= signals.len(),
            exact_arith::<S>() ==> best == running_max(values_of(signals@.take(i as int))),
        decreases signals.len() - i,
    {
        proof {
            assert(values_of(signals@.take(i + 1)).drop_last() =~= values_of(signals@.take(i as int)));
        }
        let v = signals[i].value;
        if v > best {
            best = v;
        }
        i = i + 1;
    }
    proof {
        assert(signals@.take(signals.len() as int) =~= signals@);
    }
    best
}

/// The latest timestamp.
fn latest<S: Scalar>(signals: &[Signal<S>]) -> (r: u64)
    ensures
        r == latest_timestamp(signals@),
{
    let mut best: u64 = 0;
    let mut i: usize = 0;
    while i < signals.len()
        invariant
            i <= signals.len(),
            best == latest_timestamp(signals@.take(i as int)),
        decreases signals.len() - i,
    {
        proof {
            assert(signals@.take(i + 1).drop_last() =~= signals@.take(i as int));
        }
        if signals[i].timestamp > best {
            best = signals[i].timestamp;
        }
        i = i + 1;
    }
    proof {
        assert(signals@.take(signals.len() as int) =~= signals@);
    }
    best
}

/// The sources joined by `+`.
fn join_sources<S: Scalar>(signals: &[Signal<S>]) -> (r: String)
    ensures
        r@ == joined_sources(signals@),
{
    let mut joined = String::new();
    let mut i: usize = 0;
    while i < signals.len()
        invariant
            i <= signals.len(),
            joined@ == joined_sources(signals@.take(i as int)),
        decreases signals.len() - i,
    {
        proof {
            assert(signals@.take(i + 1).drop_last() =~= signals@.take(i as int));
            reveal_strlit("+");
        }
        if i > 0 {
            joined.append("+");
        }
        joined.append(signals[i].source.as_str());
        i = i + 1;
    }
    proof {
        assert(signals@.take(signals.len() as int) =~= signals@);
    }
    joined
}

impl Aggregator {
    pub closed spec fn method(&self) -> AggregationMethod {
        self.method
    }

    pub fn new(method: AggregationMethod) -> (r: Self)
        ensures
            r.method() == method,
    {
        Aggregator { method }
    }

    /// Combines `signals` into one; there must be at least one.
    pub fn aggregate<S: Scalar>(&self, signals: &[Signal<S>]) -> (r: Signal<S>)
        requires
            signals@.len() > 0,
            total_arith::<S>(),
        ensures
            self.method() != AggregationMethod::Weighted ==> r.timestamp == latest_timestamp(
                signals@,
            ) && r.source@ == joined_sources(signals@),
            self.method() == AggregationMethod::Weighted ==> (r.timestamp == latest_timestamp(
                signals@,
            ) && r.source@ == joined_sources(signals@)) || (r.timestamp == 0 && r.source@
                == Seq::<char>::empty()),
            exact_arith::<S>() ==> is_aggregate(self.method(), signals@, r),
            exact_arith::<S>() && field_laws::<S>() && self.method() == AggregationMethod::Mean
                && count_value::<S>(signals@.len() as usize) != zero::<S>() ==> times(
                r.value,
                count_value::<S>(signals@.len() as usize),
            ) == seq_sum(values_of(signals@)),
            exact_arith::<S>() && field_laws::<S>() && self.method() == AggregationMethod::Weighted
                && !weights_vanish(signals@) && seq_sum(confidences_of(signals@)) != zero::<S>()
                ==> times(r.value, seq_sum(confidences_of(signals@))) == seq_sum(
                weighted_values_of(signals@),
            ),
            exact_arith::<S>() && field_laws::<S>() && !(self.method() == AggregationMethod::Weighted
                && weights_vanish(signals@)) && count_value::<S>(signals@.len() as usize) != zero::<
                S,
            >() ==> times(r.confidence, count_value::<S>(signals@.len() as usize)) == seq_sum(
                confidences_of(signals@),
            ),
    {
        proof {
            if field_laws::<S>() && count_value::<S>(signals@.len() as usize) != zero::<S>() {
                lemma_mean_times_count(signals@);
                lemma_mean_confidence_times_count(signals@);
            }
            if field_laws::<S>() && seq_sum(confidences_of(signals@)) != zero::<S>() {
                lemma_weighted_times_weight(signals@);
            }
        }
        let value = match self.method {
            AggregationMethod::Mean => sum_values(signals) / count_sample(signals.len()),
            AggregationMethod::Max => max_value(signals),
            AggregationMethod::Weighted => {
                let total_weight = sum_confidences(signals);
                if total_weight == sample_of(0) {
                    return Signal::default();
                }
                sum_weighted(signals) / total_weight
            },
        };
        let confidence = sum_confidences(signals) / count_sample(signals.len());
        let timestamp: u64 = latest(signals);
        let source = join_sources(signals);
        Signal { value, timestamp, confidence, source }
    }

    /// A single signal passes through unchanged.
    pub fn process_boxed<S: Scalar>(&self, input: Signal<S>) -> (r: Signal<S>)
        ensures
            r == input,
    {
        input
    }

    pub fn name(&self) -> (r: &str)
        ensures
            r@ == "Aggregator"@,
    {
        proof {
            reveal_strlit("Aggregator");
        }
        "Aggregator"
    }
}

} // verus!
