//! A chain of signal stages and the builder that assembles one.
use crate::order::{exact_arith, is_equal, is_greater};
use crate::scalar::{
    exact_ops, field_laws, lemma_field_laws_at, one, quotient, sample_of, seq_sum, start_of_sum,
    times, total_arith, zero, Scalar,
};
use crate::signal::Signal;
use crate::stages::{
    in_unit_interval, AggregationMethod, Aggregator, ConfidenceGate, DeadbandFilter,
    ExponentialSmoothing, MovingAverage, Normalizer,
};
use vstd::prelude::*;

verus! {

/// One stage of a chain.
#[derive(Debug)]
pub enum SignalStage<S> {
    Deadband(DeadbandFilter<S>),
    MovingAverage(MovingAverage<S>),
    Ema(ExponentialSmoothing<S>),
    ConfidenceGate(ConfidenceGate<S>),
    Normalizer(Normalizer<S>),
    Aggregator(Aggregator),
}

impl<S: Scalar> SignalStage<S> {
    /// The signal that this stage makes of `input`.
    pub open spec fn output(&self, input: Signal<S>) -> Signal<S> {
        match self {
            SignalStage::Deadband(d) => d.output(input),
            SignalStage::MovingAverage(m) => m.output(input),
            SignalStage::Ema(e) => e.output(input),
            SignalStage::ConfidenceGate(g) => g.output(input),
            SignalStage::Normalizer(n) => n.output(input),
            SignalStage::Aggregator(_) => input,
        }
    }

    /// `next` is this stage once it has processed `input`.
    pub open spec fn advanced(&self, input: Signal<S>, next: Self) -> bool {
        match (*self, next) {
            (SignalStage::Deadband(d), SignalStage::Deadband(n)) => d.advanced(input, n),
            (SignalStage::MovingAverage(m), SignalStage::MovingAverage(n)) => m.advanced(input, n),
            (SignalStage::Ema(e), SignalStage::Ema(n)) => e.advanced(input, n),
            (SignalStage::ConfidenceGate(g), SignalStage::ConfidenceGate(n)) => n == g,
            (SignalStage::Normalizer(z), SignalStage::Normalizer(n)) => n == z,
            (SignalStage::Aggregator(a), SignalStage::Aggregator(n)) => n == a,
            _ => false,
        }
    }

    /// Both stages are of the same kind and hold the same state.
    pub open spec fn same_state(&self, other: Self) -> bool {
        match (*self, other) {
            (SignalStage::MovingAverage(m), SignalStage::MovingAverage(n)) => m.same_state(&n),
            (SignalStage::MovingAverage(_), _) => false,
            _ => *self == other,
        }
    }

    /// Processes one signal.
    pub fn process_boxed(&mut self, input: Signal<S>) -> (r: Signal<S>)
        requires
            total_arith::<S>(),
        ensures
            r.timestamp == input.timestamp,
            r.source == input.source,
            exact_arith::<S>() ==> r == old(self).output(input) && old(self).advanced(
                input,
                *final(self),
            ),
    {
        match self {
            SignalStage::Deadband(d) => d.process_boxed(input),
            SignalStage::MovingAverage(m) => m.process_boxed(input),
            SignalStage::Ema(e) => e.process_boxed(input),
            SignalStage::ConfidenceGate(g) => g.process_boxed(input),
            SignalStage::Normalizer(n) => n.process_boxed(input),
            SignalStage::Aggregator(a) => a.process_boxed(input),
        }
    }

    /// The name of the stage's kind.
    pub fn name(&self) -> (r: &str)
        ensures
            r@ == match *self {
                SignalStage::Deadband(_) => "DeadbandFilter"@,
                SignalStage::MovingAverage(_) => "MovingAverage"@,
                SignalStage::Ema(_) => "ExponentialSmoothing"@,
                SignalStage::ConfidenceGate(_) => "ConfidenceGate"@,
                SignalStage::Normalizer(_) => "Normalizer"@,
                SignalStage::Aggregator(_) => "Aggregator"@,
            },
    {
        match self {
            SignalStage::Deadband(d) => d.name(),
            SignalStage::MovingAverage(m) => m.name(),
            SignalStage::Ema(e) => e.name(),
            SignalStage::ConfidenceGate(g) => g.name(),
            SignalStage::Normalizer(n) => n.name(),
            SignalStage::Aggregator(a) => a.name(),
        }
    }

    /// A copy of the stage with the same state.
    pub fn box_clone(&self) -> (r: Self)
        ensures
            r.same_state(*self),
    {
        match self {
            SignalStage::Deadband(d) => SignalStage::Deadband(*d),
            SignalStage::MovingAverage(m) => SignalStage::MovingAverage(m.clone()),
            SignalStage::Ema(e) => SignalStage::Ema(*e),
            SignalStage::ConfidenceGate(g) => SignalStage::ConfidenceGate(*g),
            SignalStage::Normalizer(n) => SignalStage::Normalizer(*n),
            SignalStage::Aggregator(a) => SignalStage::Aggregator(*a),
        }
    }
}

/// What the stages, in order, make of `input`: each stage processes what the
/// one before it gave.
pub open spec fn chain_output<S: Scalar>(stages: Seq<SignalStage<S>>, input: Signal<S>) -> Signal<S>
    decreases stages.len(),
{
    if stages.len() == 0 {
        input
    } else {
        stages.last().output(chain_output(stages.drop_last(), input))
    }
}

/// Running the stages `front + back` is running `front`, then `back` on what
/// `front` gave: a chain can be split anywhere.
pub proof fn lemma_chain_splits<S: Scalar>(
    front: Seq<SignalStage<S>>,
    back: Seq<SignalStage<S>>,
    input: Signal<S>,
)
    ensures
        chain_output(front + back, input) == chain_output(back, chain_output(front, input)),
    decreases back.len(),
{
    if back.len() == 0 {
        assert(front + back =~= front);
    } else {
        lemma_chain_splits(front, back.drop_last(), input);
        assert((front + back).drop_last() =~= front + back.drop_last());
    }
}

/// `next` is the stages once they have processed `input`: each stage has
/// advanced past what reached it.
pub open spec fn chain_advanced<S: Scalar>(
    stages: Seq<SignalStage<S>>,
    input: Signal<S>,
    next: Seq<SignalStage<S>>,
) -> bool {
    &&& next.len() == stages.len()
    &&& forall|i: int|
        0 <= i < stages.len() ==> #[trigger] stages[i].advanced(
            chain_output(stages.take(i), input),
            next[i],
        )
}

/// Processing `signals` one after another passes through `states`: the
/// stages start as `states[0]`, the `k`-th signal gives `outputs[k]` and
/// leaves the stages as `states[k + 1]`.
pub open spec fn chain_ran<S: Scalar>(
    states: Seq<Seq<SignalStage<S>>>,
    signals: Seq<Signal<S>>,
    outputs: Seq<Signal<S>>,
) -> bool {
    &&& states.len() == signals.len() + 1
    &&& outputs.len() == signals.len()
    &&& forall|k: int|
        #![trigger outputs[k]]
        0 <= k < signals.len() ==> outputs[k] == chain_output(states[k], signals[k])
            && chain_advanced(states[k], signals[k], states[k + 1])
}

/// Stages that hold the same state make the same signal of every input and
/// advance alike; so a copy of a chain (see `SignalChain::clone`) processes
/// every signal exactly as the chain itself does.
pub proof fn lemma_copies_process_alike<S: Scalar>(
    a: Seq<SignalStage<S>>,
    b: Seq<SignalStage<S>>,
    input: Signal<S>,
    next: Seq<SignalStage<S>>,
)
    requires
        a.len() == b.len(),
        forall|i: int| 0 <= i < a.len() ==> #[trigger] a[i].same_state(b[i]),
    ensures
        chain_output(a, input) == chain_output(b, input),
        chain_advanced(a, input, next) == chain_advanced(b, input, next),
    decreases a.len(),
{
    if a.len() > 0 {
        let n: int = a.len() - 1;
        assert(a[n].same_state(b[n]));
        lemma_copies_process_alike(a.drop_last(), b.drop_last(), input, next);
        assert(chain_output(a.drop_last(), input) == chain_output(b.drop_last(), input));
    }
    if chain_advanced(a, input, next) {
        assert forall|i: int| 0 <= i < b.len() implies #[trigger] b[i].advanced(
            chain_output(b.take(i), input),
            next[i],
        ) by {
            assert(a[i].same_state(b[i]));
            lemma_copies_process_alike(a.take(i), b.take(i), input, next);
            assert(a[i].advanced(chain_output(a.take(i), input), next[i]));
        }
    }
    if chain_advanced(b, input, next) {
        assert forall|i: int| 0 <= i < a.len() implies #[trigger] a[i].advanced(
            chain_output(a.take(i), input),
            next[i],
        ) by {
            assert(a[i].same_state(b[i]));
            lemma_copies_process_alike(a.take(i), b.take(i), input, next);
            assert(b[i].advanced(chain_output(b.take(i), input), next[i]));
        }
    }
}

/// A pipeline of stages; each signal passes through every stage in order.
#[derive(Debug)]
pub struct SignalChain<S> {
    stages: Vec<SignalStage<S>>,
}

impl<S: Scalar> SignalChain<S> {
    /// The stages, first to last.
    pub closed spec fn stages(&self) -> Seq<SignalStage<S>> {
        self.stages@
    }

    /// Processes a single signal through all stages.
    pub fn process(&mut self, signal: Signal<S>) -> (r: Signal<S>)
        requires
            total_arith::<S>(),
        ensures
            final(self).stages().len() == old(self).stages().len(),
            r.timestamp == signal.timestamp,
            r.source == signal.source,
            old(self).stages().len() == 0 ==> r == signal,
            exact_arith::<S>() ==> r == chain_output(old(self).stages(), signal) && chain_advanced(
                old(self).stages(),
                signal,
                final(self).stages(),
            ),
    {
        let ghost before = self.stages@;
        let mut x = signal;
        let mut i: usize = 0;
        while i < self.stages.len()
            invariant
                total_arith::<S>(),
                i <= self.stages@.len(),
                self.stages@.len() == before.len(),
                forall|j: int| i <= j < before.len() ==> self.stages@[j] == before[j],
                x.timestamp == signal.timestamp,
                x.source == signal.source,
                i == 0 ==> x == signal,
                exact_arith::<S>() ==> x == chain_output(before.take(i as int), signal),
                exact_arith::<S>() ==> forall|j: int|
                    0 <= j < i ==> #[trigger] before[j].advanced(
                        chain_output(before.take(j), signal),
                        self.stages@[j],
                    ),
            decreases self.stages@.len() - i,
        {
            proof {
                assert(before.take(i + 1).drop_last() =~= before.take(i as int));
            }
            x = self.stages[i].process_boxed(x);
            i = i + 1;
        }
        proof {
            assert(before.take(before.len() as int) =~= before);
        }
        x
    }

    /// Processes a batch of signals one after another.
    pub fn process_batch(&mut self, signals: Vec<Signal<S>>) -> (r: Vec<Signal<S>>)
        requires
            total_arith::<S>(),
        ensures
            final(self).stages().len() == old(self).stages().len(),
            r@.len() == signals@.len(),
            forall|k: int|
                #![trigger r@[k]]
                0 <= k < r@.len() ==> r@[k].timestamp == signals@[k].timestamp && r@[k].source
                    == signals@[k].source,
            exact_arith::<S>() ==> exists|states: Seq<Seq<SignalStage<S>>>|
                {
                    &&& #[trigger] chain_ran(states, signals@, r@)
                    &&& states[0] == old(self).stages()
                    &&& states.last() == final(self).stages()
                },
    {
        let ghost before = self.stages@;
        let ghost sigs = signals@;
        let mut out: Vec<Signal<S>> = Vec::with_capacity(signals.len());
        let ghost mut states: Seq<Seq<SignalStage<S>>> = seq![before];
        for s in it: signals
            invariant
                total_arith::<S>(),
                it.seq() == sigs,
                out@.len() == it.index(),
                self.stages@.len() == before.len(),
                forall|k: int|
                    #![trigger out@[k]]
                    0 <= k < out@.len() ==> out@[k].timestamp == sigs[k].timestamp && out@[k].source
                        == sigs[k].source,
                states.len() == out@.len() + 1,
                states[0] == before,
                states.last() == self.stages@,
                exact_arith::<S>() ==> chain_ran(states, sigs.take(it.index() as int), out@),
        {
            let ghost mid = self.stages@;
            let ghost k = out@.len() as int;
            let ghost done = out@;
            let y = self.process(s);
            out.push(y);
            proof {
                let t = sigs.take(k + 1);
                assert(t.drop_last() =~= sigs.take(k));
                assert(out@.drop_last() =~= done);
                assert(t.last() == s);
                assert(s == sigs[k]);
                states = states.push(self.stages@);
                if exact_arith::<S>() {
                    assert forall|j: int| #![trigger out@[j]] 0 <= j < t.len() implies out@[j]
                        == chain_output(states[j], t[j]) && chain_advanced(
                        states[j],
                        t[j],
                        states[j + 1],
                    ) by {
                        if j < k {
                            assert(out@[j] == done[j]);
                            assert(t[j] == sigs.take(k)[j]);
                        }
                    }
                }
            }
        }
        proof {
            assert(sigs.take(sigs.len() as int) =~= sigs);
        }
        out
    }

    /// Compares the total energy of `signals` with that of what the chain
    /// makes of them: `(input energy, output energy, output / input)`, the
    /// ratio being one when both are zero and infinite when only the input
    /// is.
    pub fn conservation_check(&mut self, signals: Vec<Signal<S>>) -> (r: (S, S, S))
        requires
            total_arith::<S>(),
        ensures
            final(self).stages().len() == old(self).stages().len(),
            exact_arith::<S>() ==> r.0 == seq_sum(energies_of(signals@)) && r.2 == energy_ratio(
                r.0,
                r.1,
            ),
            exact_arith::<S>() ==> exists|
                states: Seq<Seq<SignalStage<S>>>,
                outputs: Seq<Signal<S>>,
            |
                {
                    &&& #[trigger] chain_ran(states, signals@, outputs)
                    &&& states[0] == old(self).stages()
                    &&& states.last() == final(self).stages()
                    &&& r.1 == seq_sum(energies_of(outputs))
                },
            exact_arith::<S>() && field_laws::<S>() && r.0 != zero::<S>() && !is_equal(
                r.0,
                zero::<S>(),
            ) ==> times(r.2, r.0) == r.1,
    {
        let input_energy = total_energy(&signals);
        let outputs = self.process_batch(signals);
        let output_energy = total_energy(&outputs);
        let zero_s: S = sample_of(0);
        let one_s: S = sample_of(1);
        let ratio = if input_energy == zero_s {
            if output_energy == zero_s {
                one_s
            } else {
                one_s / zero_s
            }
        } else {
            output_energy / input_energy
        };
        proof {
            if field_laws::<S>() && input_energy != zero::<S>() && !is_equal(input_energy, zero::<S>()) {
                lemma_energy_ratio_scales(input_energy, output_energy);
            }
        }
        (input_energy, output_energy, ratio)
    }

    /// Number of stages in the chain.
    pub fn len(&self) -> (r: usize)
        ensures
            r == self.stages().len(),
    {
        self.stages.len()
    }

    /// Whether the chain is empty.
    pub fn is_empty(&self) -> (r: bool)
        ensures
            r == (self.stages().len() == 0),
    {
        self.stages.len() == 0
    }
}

/// The energy of each signal, in order.
pub open spec fn energies_of<S: Scalar>(signals: Seq<Signal<S>>) -> Seq<S> {
    signals.map_values(|s: Signal<S>| times(s.value, s.value))
}

/// Output energy over input energy; one when both are zero, `1 / 0`
/// (infinity) when only the input energy is zero.
pub open spec fn energy_ratio<S: Scalar>(input: S, output: S) -> S {
    if is_equal(input, zero::<S>()) {
        if is_equal(output, zero::<S>()) {
            one::<S>()
        } else {
            quotient(one::<S>(), zero::<S>())
        }
    } else {
        quotient(output, input)
    }
}

/// Under the field laws, where the input energy is not zero, the ratio times
/// the input energy is the output energy.
pub proof fn lemma_energy_ratio_scales<S: Scalar>(input: S, output: S)
    requires
        field_laws::<S>(),
        input != zero::<S>(),
        !is_equal(input, zero::<S>()),
    ensures
        times(energy_ratio(input, output), input) == output,
{
    lemma_field_laws_at(output, input, input);
}

/// The total energy of the signals.
fn total_energy<S: Scalar>(signals: &Vec<Signal<S>>) -> (r: S)
    requires
        total_arith::<S>(),
    ensures
        exact_ops::<S>() ==> r == seq_sum(energies_of(signals@)),
{
    let mut total: S = start_of_sum();
    let mut i: usize = 0;
    while i < signals.len()
        invariant
            total_arith::<S>(),
            i <= signals.len(),
            exact_ops::<S>() ==> total == seq_sum(energies_of(signals@.take(i as int))),
        decreases signals.len() - i,
    {
        proof {
            assert(energies_of(signals@.take(i + 1)).drop_last() =~= energies_of(
                signals@.take(i as int),
            ));
        }
        total = total + signals[i].energy();
        i = i + 1;
    }
    proof {
        assert(signals@.take(signals.len() as int) =~= signals@);
    }
    total
}

impl<S: Scalar> Clone for SignalChain<S> {
    /// A chain of copies of the stages, each holding the same state.
    fn clone(&self) -> (r: Self)
        ensures
            r.stages().len() == self.stages().len(),
            forall|i: int|
                0 <= i < self.stages().len() ==> #[trigger] r.stages()[i].same_state(self.stages()[i]),
    {
        let mut stages: Vec<SignalStage<S>> = Vec::with_capacity(self.stages.len());
        let mut i: usize = 0;
        while i < self.stages.len()
            invariant
                i <= self.stages@.len(),
                stages@.len() == i,
                forall|j: int| 0 <= j < i ==> #[trigger] stages@[j].same_state(self.stages@[j]),
            decreases self.stages@.len() - i,
        {
            stages.push(self.stages[i].box_clone());
            i = i + 1;
        }
        SignalChain { stages }
    }
}

// ---------------------------------------------------------------------------
// ChainBuilder
// ---------------------------------------------------------------------------

/// `after` is `before` with one more stage at the end.
pub open spec fn appended<S>(before: Seq<SignalStage<S>>, after: Seq<SignalStage<S>>) -> bool {
    after.len() == before.len() + 1 && after.drop_last() == before
}

/// Fluent builder for a [`SignalChain`]: each call appends one fresh stage.
#[derive(Debug)]
pub struct ChainBuilder<S> {
    stages: Vec<SignalStage<S>>,
}

impl<S: Scalar> ChainBuilder<S> {
    /// The stages added so far, first to last.
    pub closed spec fn stages(&self) -> Seq<SignalStage<S>> {
        self.stages@
    }

    /// A builder with no stages.
    pub fn new() -> (r: Self)
        ensures
            r.stages() == Seq::<SignalStage<S>>::empty(),
    {
        ChainBuilder { stages: Vec::new() }
    }

    fn with(self, stage: SignalStage<S>) -> (r: Self)
        ensures
            appended(self.stages(), r.stages()),
            r.stages().last() == stage,
    {
        let mut b = self;
        b.stages.push(stage);
        proof {
            assert(b.stages@.drop_last() =~= self.stages@);
        }
        b
    }

    /// Adds a [`DeadbandFilter`] stage.
    pub fn deadband(self, threshold: S) -> (r: Self)
        ensures
            appended(self.stages(), r.stages()),
            r.stages().last() matches SignalStage::Deadband(d) && d.threshold() == threshold
                && d.last_value() is None,
    {
        self.with(SignalStage::Deadband(DeadbandFilter::new(threshold)))
    }

    /// Adds a [`MovingAverage`] stage over `window_size` signals; the window
    /// cannot be empty.
    pub fn moving_average(self, window_size: usize) -> (r: Self)
        requires
            window_size > 0,
        ensures
            appended(self.stages(), r.stages()),
            r.stages().last() matches SignalStage::MovingAverage(m) && m.window_size()
                == window_size && m.window() == Seq::<S>::empty(),
    {
        self.with(SignalStage::MovingAverage(MovingAverage::new(window_size)))
    }

    /// Adds an [`ExponentialSmoothing`] stage; `alpha` must lie in `[0, 1]`.
    pub fn ema(self, alpha: S) -> (r: Self)
        requires
            in_unit_interval(alpha),
        ensures
            appended(self.stages(), r.stages()),
            r.stages().last() matches SignalStage::Ema(e) && e.alpha() == alpha
                && e.previous() is None,
    {
        self.with(SignalStage::Ema(ExponentialSmoothing::new(alpha)))
    }

    /// Adds a [`ConfidenceGate`] stage.
    pub fn confidence_gate(self, threshold: S) -> (r: Self)
        ensures
            appended(self.stages(), r.stages()),
            r.stages().last() matches SignalStage::ConfidenceGate(g) && g.threshold() == threshold,
    {
        self.with(SignalStage::ConfidenceGate(ConfidenceGate::new(threshold)))
    }

    /// Adds a [`Normalizer`] stage mapping `[min, max]` onto `[0, 1]`; `max`
    /// must exceed `min`.
    pub fn normalize(self, min: S, max: S) -> (r: Self)
        requires
            is_greater(max, min),
        ensures
            appended(self.stages(), r.stages()),
            r.stages().last() matches SignalStage::Normalizer(n) && n.min() == min && n.max() == max,
    {
        self.with(SignalStage::Normalizer(Normalizer::new(min, max)))
    }

    /// Adds an [`Aggregator`] stage, which passes single signals through.
    pub fn aggregate(self, method: AggregationMethod) -> (r: Self)
        ensures
            appended(self.stages(), r.stages()),
            r.stages().last() matches SignalStage::Aggregator(a) && a.method() == method,
    {
        self.with(SignalStage::Aggregator(Aggregator::new(method)))
    }

    /// The chain of the stages added, in order.
    pub fn build(self) -> (r: SignalChain<S>)
        ensures
            r.stages() == self.stages(),
    {
        SignalChain { stages: self.stages }
    }
}

impl<S: Scalar> Default for ChainBuilder<S> {
    fn default() -> (r: Self)
        ensures
            r.stages() == Seq::<SignalStage<S>>::empty(),
    {
        ChainBuilder::new()
    }
}

} // verus!
