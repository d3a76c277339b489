//! Sample-by-sample processing nodes and the chain that runs them in series.
use crate::order::{exact_arith, is_at_most, is_greater, is_less, totally_ordered};
use crate::scalar::{
    exact_ops, field_laws, lemma_field_laws_at, lemma_times_negated, minus, negated, one, plus,
    sample_of, times, total_arith, zero, Scalar,
};
use vstd::prelude::*;

verus! {

/// A processing node: turns one input sample into one output sample.
pub trait SignalNode<S: Scalar>: Send {
    /// Whether the node is able to process a sample; a node that can always
    /// process need not say anything.
    open spec fn ready(&self) -> bool {
        true
    }

    /// `output` is a sample that the node, in its present state, may give
    /// for `input`; a node that says nothing allows any.
    open spec fn gives(&self, input: S, output: S) -> bool {
        true
    }

    /// Whether the node holds no memory of earlier samples; a node that
    /// keeps none need not say anything.
    open spec fn at_rest(&self) -> bool {
        true
    }

    /// The node's configuration, which processing and resetting keep.
    open spec fn settings(&self) -> Seq<S> {
        Seq::empty()
    }

    /// What the node remembers of earlier samples, in the order in which it
    /// will use it.
    open spec fn memory(&self) -> Seq<S> {
        Seq::empty()
    }

    /// What the node will remember once it has processed `input`; a node
    /// without memory keeps none.
    open spec fn memory_after(&self, input: S) -> Seq<S> {
        self.memory()
    }

    /// Processes one input sample, producing one output sample.
    fn process(&mut self, input: S) -> (r: S)
        requires
            total_arith::<S>(),
            old(self).ready(),
        ensures
            final(self).ready(),
            old(self).gives(input, r),
            final(self).settings() == old(self).settings(),
            exact_arith::<S>() ==> final(self).memory() == old(self).memory_after(input),
    ;

    /// Resets internal state (delay buffers, filter memory).
    fn reset(&mut self)
        ensures
            old(self).ready() ==> final(self).ready(),
            final(self).settings() == old(self).settings(),
            old(self).memory() == Seq::<S>::empty() ==> final(self).memory() == old(self).memory(),
            final(self).at_rest(),
    ;
}

// ---------------------------------------------------------------------------
// Gain
// ---------------------------------------------------------------------------

/// Multiplies every sample by `amount`.
pub struct Gain<S> {
    pub amount: S,
}

impl<S: Scalar> Gain<S> {
    pub fn new(amount: S) -> (r: Self)
        ensures
            r.amount == amount,
    {
        Gain { amount }
    }
}

impl<S: Scalar> SignalNode<S> for Gain<S> {
    open spec fn settings(&self) -> Seq<S> {
        seq![self.amount]
    }

    open spec fn gives(&self, input: S, output: S) -> bool {
        exact_ops::<S>() ==> output == times(input, self.amount)
    }

    fn process(&mut self, input: S) -> (r: S)
        ensures
            *final(self) == *old(self),
            exact_ops::<S>() ==> r == times(input, old(self).amount),
    {
        input * self.amount
    }

    /// A gain keeps no memory: nothing to reset.
    fn reset(&mut self)
        ensures
            *final(self) == *old(self),
    {
    }
}

// ---------------------------------------------------------------------------
// Clipper
// ---------------------------------------------------------------------------

/// `x` clamped to `[-threshold, threshold]`, as `clamp` does it.
pub open spec fn clipped<S: Scalar>(x: S, threshold: S) -> S {
    let low = negated(threshold);
    let raised = if is_less(x, low) {
        low
    } else {
        x
    };
    if is_greater(raised, threshold) {
        threshold
    } else {
        raised
    }
}

/// Where `-threshold <= threshold` and the comparisons order `x` and the two
/// bounds totally, the clipped sample lies in `[-threshold, threshold]`, and
/// a sample already in that range comes out as it is.
pub proof fn lemma_clipped_in_range<S: Scalar>(x: S, threshold: S)
    requires
        is_at_most(negated(threshold), threshold),
        totally_ordered(set![x, threshold, negated(threshold)]),
    ensures
        is_at_most(negated(threshold), clipped(x, threshold)),
        is_at_most(clipped(x, threshold), threshold),
        is_at_most(negated(threshold), x) && is_at_most(x, threshold) ==> clipped(x, threshold)
            == x,
        is_greater(x, threshold) ==> clipped(x, threshold) == threshold,
        is_less(x, negated(threshold)) ==> clipped(x, threshold) == negated(threshold),
{
    let low = negated(threshold);
    let values = set![x, threshold, low];
    assert(values.contains(x) && values.contains(threshold) && values.contains(low));
}

/// Hard clipping: limits every sample to `[-threshold, threshold]`.
pub struct Clipper<S> {
    pub threshold: S,
}

impl<S: Scalar> Clipper<S> {
    pub fn new(threshold: S) -> (r: Self)
        ensures
            r.threshold == threshold,
    {
        Clipper { threshold }
    }
}

impl<S: Scalar> SignalNode<S> for Clipper<S> {
    /// Clamping to `[-threshold, threshold]` needs `-threshold <= threshold`;
    /// a negative or NaN threshold leaves no range to clamp to.
    open spec fn ready(&self) -> bool {
        is_at_most(negated(self.threshold), self.threshold)
    }

    open spec fn gives(&self, input: S, output: S) -> bool {
        exact_arith::<S>() ==> output == clipped(input, self.threshold)
    }

    open spec fn settings(&self) -> Seq<S> {
        seq![self.threshold]
    }

    fn process(&mut self, input: S) -> (r: S)
        ensures
            *final(self) == *old(self),
            exact_arith::<S>() ==> r == clipped(input, old(self).threshold),
    {
        let low = self.threshold.neg();
        let mut x = input;
        if x < low {
            x = low;
        }
        if x > self.threshold {
            x = self.threshold;
        }
        x
    }

    /// A clipper keeps no memory: nothing to reset.
    fn reset(&mut self)
        ensures
            *final(self) == *old(self),
    {
    }
}

// ---------------------------------------------------------------------------
// Delay
// ---------------------------------------------------------------------------

/// What a delay line gives for `input` when `delayed` comes out of it:
/// `input * (1 - mix) + delayed * mix`.
pub open spec fn delay_output<S: Scalar>(input: S, delayed: S, mix: S) -> S {
    plus(times(input, minus(one::<S>(), mix)), times(delayed, mix))
}

/// Under the field laws, a delay line's output lies `mix` of the way from the
/// input to the delayed sample: `input + mix * (delayed - input)`. So a silent
/// line gives `(1 - mix) * input`, and an echo comes out scaled by `mix`.
pub proof fn lemma_delay_output_mixes<S: Scalar>(input: S, delayed: S, mix: S)
    requires
        field_laws::<S>(),
    ensures
        delay_output(input, delayed, mix) == plus(input, times(mix, minus(delayed, input))),
{
    let o = one::<S>();
    let nm = negated(mix);
    let ni = negated(input);
    lemma_field_laws_at(o, mix, mix);
    lemma_field_laws_at(input, o, nm);
    lemma_times_negated(input, mix);
    lemma_field_laws_at(delayed, mix, mix);
    lemma_field_laws_at(delayed, input, input);
    lemma_field_laws_at(mix, delayed, ni);
    lemma_times_negated(mix, input);
    lemma_field_laws_at(mix, input, input);
    let x = negated(times(input, mix));
    let md = times(mix, delayed);
    lemma_field_laws_at(input, x, md);
    lemma_field_laws_at(x, md, md);
}

/// What goes back into the delay line: `input + delayed * feedback`.
pub open spec fn delay_feed<S: Scalar>(input: S, delayed: S, feedback: S) -> S {
    plus(input, times(delayed, feedback))
}

/// Under the field laws, what goes back into the line exceeds the input by
/// exactly the delayed sample times the feedback; with no feedback it is the
/// input itself.
pub proof fn lemma_delay_feed_adds_feedback<S: Scalar>(input: S, delayed: S, feedback: S)
    requires
        field_laws::<S>(),
    ensures
        minus(delay_feed(input, delayed, feedback), input) == times(delayed, feedback),
{
    let df = times(delayed, feedback);
    let ni = negated(input);
    lemma_field_laws_at(delay_feed(input, delayed, feedback), input, input);
    lemma_field_laws_at(input, df, ni);
    lemma_field_laws_at(df, ni, ni);
    lemma_field_laws_at(input, ni, df);
    lemma_field_laws_at(zero::<S>(), df, df);
    lemma_field_laws_at(df, df, df);
}

/// `line` read from `start` onwards, round to just before `start`.
pub open spec fn rotated<S>(line: Seq<S>, start: nat) -> Seq<S> {
    Seq::new(line.len(), |i: int| line[(start + i) % (line.len() as int)])
}

/// Writing `w` at `start` and moving one step on turns the rotated line
/// into its tail followed by `w`.
proof fn lemma_rotate_step<S>(line: Seq<S>, start: nat, w: S)
    requires
        start < line.len(),
    ensures
        rotated(line.update(start as int, w), (start + 1) % line.len()) =~= rotated(
            line,
            start,
        ).drop_first().push(w),
{
    let n: int = line.len() as int;
    let p: int = start as int;
    let written = line.update(p, w);
    let before = rotated(line, start);
    let after = rotated(written, (start + 1) % line.len());
    assert forall|i: int| 0 <= i < n implies after[i] == before.drop_first().push(w)[i] by {
        vstd::arithmetic::div_mod::lemma_add_mod_noop(p + 1, i, n);
        vstd::arithmetic::div_mod::lemma_small_mod(i as nat, n as nat);
        vstd::arithmetic::div_mod::lemma_mod_twice(p + 1, n);
        assert(((p + 1) % n + i) % n == (p + 1 + i) % n);
        if i == n - 1 {
            vstd::arithmetic::div_mod::lemma_mod_add_multiples_vanish(p, n);
            vstd::arithmetic::div_mod::lemma_small_mod(p as nat, n as nat);
            assert(p + 1 + i == n + p);
        } else {
            vstd::arithmetic::div_mod::lemma_small_mod((i + 1) as nat, n as nat);
            vstd::arithmetic::div_mod::lemma_mod_equivalence(p + 1 + i, p, n);
            vstd::arithmetic::div_mod::lemma_small_mod(p as nat, n as nat);
            assert((p + 1 + i) % n != p);
            assert(before[i + 1] == line[(p + (i + 1)) % n]);
        }
    }
}

/// A delay line of `delay_samples` samples with feedback, mixed with the dry
/// signal.
pub struct Delay<S> {
    buffer: Vec<S>,
    index: usize,
    feedback: S,
    mix: S,
}

impl<S: Scalar> Delay<S> {
    /// The samples in the delay line.
    pub closed spec fn line(&self) -> Seq<S> {
        self.buffer@
    }

    /// Where the next sample is read and written.
    pub closed spec fn position(&self) -> nat {
        self.index as nat
    }

    pub closed spec fn feedback(&self) -> S {
        self.feedback
    }

    pub closed spec fn mix(&self) -> S {
        self.mix
    }

    /// The sample that comes out of the line next.
    pub open spec fn delayed(&self) -> S {
        self.line()[self.position() as int]
    }

    /// `next` is this line one sample later: the position has moved one step
    /// round the line, and only the sample at the old position may differ.
    pub open spec fn stepped(&self, next: Self) -> bool {
        &&& next.line().len() == self.line().len()
        &&& next.position() == (self.position() + 1) % self.line().len()
        &&& next.feedback() == self.feedback()
        &&& next.mix() == self.mix()
        &&& forall|i: int|
            #![trigger next.line()[i]]
            0 <= i < self.line().len() && i != self.position() ==> next.line()[i] == self.line()[i]
    }

    /// A delay line of `delay_samples` zero samples.
    pub fn new(delay_samples: usize, feedback: S, mix: S) -> (r: Self)
        ensures
            r.line().len() == delay_samples,
            r.position() == 0,
            r.feedback() == feedback,
            r.mix() == mix,
            exact_ops::<S>() ==> r.line() == Seq::new(delay_samples as nat, |i: int| zero::<S>()),
    {
        let silence: S = sample_of(0);
        let mut buffer: Vec<S> = Vec::with_capacity(delay_samples);
        let mut i: usize = 0;
        while i < delay_samples
            invariant
                i <= delay_samples,
                buffer@ == Seq::new(i as nat, |j: int| silence),
            decreases delay_samples - i,
        {
            buffer.push(silence);
            i = i + 1;
        }
        Delay { buffer, index: 0, feedback, mix }
    }
}

impl<S: Scalar> SignalNode<S> for Delay<S> {
    /// The position lies in the line; a line of no samples has nothing to
    /// read.
    open spec fn ready(&self) -> bool {
        self.position() < self.line().len()
    }

    open spec fn gives(&self, input: S, output: S) -> bool {
        exact_ops::<S>() ==> output == delay_output(input, self.delayed(), self.mix())
    }

    open spec fn settings(&self) -> Seq<S> {
        seq![self.feedback(), self.mix()]
    }

    /// The line read from the position onwards, round to just before it: the
    /// sample that comes out next first.
    open spec fn memory(&self) -> Seq<S> {
        rotated(self.line(), self.position())
    }

    /// The next sample moves out and what is written back joins the end.
    open spec fn memory_after(&self, input: S) -> Seq<S> {
        self.memory().drop_first().push(delay_feed(input, self.delayed(), self.feedback()))
    }

    /// Silent and at the start of the line.
    open spec fn at_rest(&self) -> bool {
        &&& self.position() == 0
        &&& exact_ops::<S>() ==> self.line() == Seq::new(self.line().len(), |i: int| zero::<S>())
    }

    fn process(&mut self, input: S) -> (r: S)
        ensures
            old(self).stepped(*final(self)),
            exact_ops::<S>() ==> final(self).line()[old(self).position() as int] == delay_feed(
                input,
                old(self).delayed(),
                old(self).feedback(),
            ) && r == delay_output(input, old(self).delayed(), old(self).mix()),
            exact_ops::<S>() && field_laws::<S>() ==> r == plus(
                input,
                times(old(self).mix(), minus(old(self).delayed(), input)),
            ) && minus(final(self).line()[old(self).position() as int], input) == times(
                old(self).delayed(),
                old(self).feedback(),
            ),
    {
        let i: usize = self.index;
        let delayed = self.buffer[i];
        self.buffer.set(i, input + delayed * self.feedback);
        assert(i < self.buffer.len());
        self.index = (i + 1) % self.buffer.len();
        proof {
            lemma_rotate_step(old(self).buffer@, i as nat, self.buffer@[i as int]);
            assert(self.buffer@ == old(self).buffer@.update(i as int, self.buffer@[i as int]));
        }
        let ghost mix = self.mix;
        proof {
            if field_laws::<S>() {
                lemma_delay_output_mixes(input, delayed, mix);
                lemma_delay_feed_adds_feedback(input, delayed, self.feedback);
            }
        }
        input * (sample_of::<S>(1) - self.mix) + delayed * self.mix
    }

    fn reset(&mut self)
        ensures
            final(self).line().len() == old(self).line().len(),
            final(self).position() == 0,
            final(self).ready() == (old(self).line().len() > 0),
            final(self).feedback() == old(self).feedback(),
            final(self).mix() == old(self).mix(),
            exact_ops::<S>() ==> final(self).line() == Seq::new(
                old(self).line().len(),
                |i: int| zero::<S>(),
            ),
    {
        let silence: S = sample_of(0);
        self.index = 0;
        let mut i: usize = 0;
        while i < self.buffer.len()
            invariant
                i <= self.buffer@.len(),
                self.index == 0,
                self.buffer@.len() == old(self).buffer@.len(),
                self.feedback == old(self).feedback,
                self.mix == old(self).mix,
                forall|j: int| 0 <= j < i ==> self.buffer@[j] == silence,
            decreases self.buffer@.len() - i,
        {
            self.buffer.set(i, silence);
            i = i + 1;
        }
        proof {
            assert(exact_ops::<S>() ==> self.buffer@ =~= Seq::new(self.buffer@.len(), |j: int| zero::<S>()));
        }
    }
}

// ---------------------------------------------------------------------------
// Biquad filter memory
// ---------------------------------------------------------------------------

/// What a biquad filter in direct form I gives for `input`, with the
/// coefficients `(b0, b1, b2, a1, a2)` already divided by `a0`, the last two
/// inputs `x1`, `x2` and the last two outputs `y1`, `y2`:
/// `b0 * input + b1 * x1 + b2 * x2 - a1 * y1 - a2 * y2`, added left to right.
pub open spec fn biquad_output<S: Scalar>(
    coefficients: (S, S, S, S, S),
    input: S,
    x1: S,
    x2: S,
    y1: S,
    y2: S,
) -> S {
    let (b0, b1, b2, a1, a2) = coefficients;
    minus(
        minus(plus(plus(times(b0, input), times(b1, x1)), times(b2, x2)), times(a1, y1)),
        times(a2, y2),
    )
}

/// The memory of a biquad filter in direct form I: the last two inputs and
/// the last two outputs, newest first.
pub struct BiquadMemory<S> {
    x1: S,
    x2: S,
    y1: S,
    y2: S,
}

impl<S: Scalar> BiquadMemory<S> {
    /// The last two inputs, newest first.
    pub closed spec fn inputs(&self) -> (S, S) {
        (self.x1, self.x2)
    }

    /// The last two outputs, newest first.
    pub closed spec fn outputs(&self) -> (S, S) {
        (self.y1, self.y2)
    }

    /// Nothing remembered: every stored sample is zero.
    pub open spec fn is_silent(&self) -> bool {
        &&& self.inputs() == (zero::<S>(), zero::<S>())
        &&& self.outputs() == (zero::<S>(), zero::<S>())
    }

    /// A memory of silence.
    pub fn new() -> (r: Self)
        ensures
            exact_ops::<S>() ==> r.is_silent(),
    {
        let silence: S = sample_of(0);
        BiquadMemory { x1: silence, x2: silence, y1: silence, y2: silence }
    }

    /// Filters one sample with `coefficients` `(b0, b1, b2, a1, a2)` and
    /// remembers it and its output.
    pub fn step(&mut self, coefficients: (S, S, S, S, S), input: S) -> (r: S)
        requires
            total_arith::<S>(),
        ensures
            exact_ops::<S>() ==> r == biquad_output(
                coefficients,
                input,
                old(self).inputs().0,
                old(self).inputs().1,
                old(self).outputs().0,
                old(self).outputs().1,
            ),
            final(self).inputs() == (input, old(self).inputs().0),
            final(self).outputs() == (r, old(self).outputs().0),
    {
        let (b0, b1, b2, a1, a2) = coefficients;
        let output = b0 * input + b1 * self.x1 + b2 * self.x2 - a1 * self.y1 - a2 * self.y2;
        self.x2 = self.x1;
        self.x1 = input;
        self.y2 = self.y1;
        self.y1 = output;
        output
    }

    /// Forgets every stored sample.
    pub fn clear(&mut self)
        ensures
            exact_ops::<S>() ==> final(self).is_silent(),
    {
        let silence: S = sample_of(0);
        self.x1 = silence;
        self.x2 = silence;
        self.y1 = silence;
        self.y2 = silence;
    }
}

// ---------------------------------------------------------------------------
// SignalChain
// ---------------------------------------------------------------------------

/// How the chain holds a node: boxed, inside a one-element tuple. Verus
/// follows a tuple through the operations on a sequence, so the chain's
/// proofs can tell which node sits where.
pub type NodeSlot<S> = (Box<dyn SignalNode<S>>,);

/// Every node in `slots` is able to process a sample.
pub open spec fn all_ready<S: Scalar>(slots: Seq<NodeSlot<S>>) -> bool {
    forall|i: int| 0 <= i < slots.len() ==> #[trigger] slots[i].0.ready()
}

/// Every node in `slots` holds no memory of earlier samples.
pub open spec fn all_at_rest<S: Scalar>(slots: Seq<NodeSlot<S>>) -> bool {
    forall|i: int| 0 <= i < slots.len() ==> #[trigger] slots[i].0.at_rest()
}

/// Appending `slot` to `slots` adds one element at the end and keeps the
/// others, so readiness and rest are those of the old slots and the new one.
proof fn lemma_slot_appended<S: Scalar>(slots: Seq<NodeSlot<S>>, slot: NodeSlot<S>)
    ensures
        slots.push(slot).len() == slots.len() + 1,
        slots.push(slot).last() == slot,
        slots.push(slot).drop_last() == slots,
        all_ready(slots.push(slot)) == (all_ready(slots) && slot.0.ready()),
        all_at_rest(slots.push(slot)) == (all_at_rest(slots) && slot.0.at_rest()),
{
    let grown = slots.push(slot);
    assert(grown.drop_last() =~= slots);
    assert(grown[slots.len() as int] == slot);
    assert forall|i: int| 0 <= i < slots.len() implies grown[i] == slots[i] by {}
    if all_ready(grown) {
        assert(grown[slots.len() as int].0.ready());
        assert forall|i: int| 0 <= i < slots.len() implies #[trigger] slots[i].0.ready() by {
            assert(grown[i].0.ready());
        }
    }
    if all_ready(slots) && slot.0.ready() {
        assert forall|i: int| 0 <= i < grown.len() implies #[trigger] grown[i].0.ready() by {
            if i < slots.len() {
                assert(slots[i].0.ready());
            }
        }
    }
    if all_at_rest(grown) {
        assert(grown[slots.len() as int].0.at_rest());
        assert forall|i: int| 0 <= i < slots.len() implies #[trigger] slots[i].0.at_rest() by {
            assert(grown[i].0.at_rest());
        }
    }
    if all_at_rest(slots) && slot.0.at_rest() {
        assert forall|i: int| 0 <= i < grown.len() implies #[trigger] grown[i].0.at_rest() by {
            if i < slots.len() {
                assert(slots[i].0.at_rest());
            }
        }
    }
}

/// `values` threads a sample through `nodes`: each node may give
/// `values[i + 1]` for `values[i]`.
pub open spec fn threads<S: Scalar>(nodes: Seq<NodeSlot<S>>, values: Seq<S>) -> bool {
    &&& values.len() == nodes.len() + 1
    &&& forall|i: int|
        0 <= i < nodes.len() ==> #[trigger] nodes[i].0.gives(values[i], values[i + 1])
}

/// `next` is `nodes` once `values` has been threaded through them: node
/// `i` took `values[i]`, gave `values[i + 1]`, kept its settings and
/// remembers what it remembers after `values[i]`.
pub open spec fn steps<S: Scalar>(
    nodes: Seq<NodeSlot<S>>,
    next: Seq<NodeSlot<S>>,
    values: Seq<S>,
) -> bool {
    &&& threads(nodes, values)
    &&& next.len() == nodes.len()
    &&& forall|i: int|
        0 <= i < nodes.len() ==> #[trigger] next[i].0.settings() == nodes[i].0.settings()
    &&& exact_arith::<S>() ==> forall|i: int|
        0 <= i < nodes.len() ==> #[trigger] next[i].0.memory() == nodes[i].0.memory_after(values[i])
}

/// The nodes, in order, make `output` of `input` and are left as `next`:
/// the sample goes through the first node, what that gives through the
/// second, and so on.
pub open spec fn passes<S: Scalar>(
    nodes: Seq<NodeSlot<S>>,
    input: S,
    output: S,
    next: Seq<NodeSlot<S>>,
) -> bool {
    exists|values: Seq<S>|
        #![trigger steps(nodes, next, values)]
        steps(nodes, next, values) && values[0] == input && values.last() == output
}

/// Through no node, a sample comes out as it went in; through nodes with
/// one more at the end, it goes through the first ones and then through the
/// last: what the first ones give is what the last one takes.
pub proof fn lemma_passes_split<S: Scalar>(
    nodes: Seq<NodeSlot<S>>,
    input: S,
    output: S,
    next: Seq<NodeSlot<S>>,
)
    requires
        passes(nodes, input, output, next),
    ensures
        next.len() == nodes.len(),
        nodes.len() == 0 ==> output == input,
        nodes.len() > 0 ==> exists|mid: S|
            {
                &&& #[trigger] passes(nodes.drop_last(), input, mid, next.drop_last())
                &&& nodes.last().0.gives(mid, output)
                &&& next.last().0.settings() == nodes.last().0.settings()
                &&& exact_arith::<S>() ==> next.last().0.memory() == nodes.last().0.memory_after(mid)
            },
{
    let values = choose|values: Seq<S>|
        #![trigger steps(nodes, next, values)]
        steps(nodes, next, values) && values[0] == input && values.last() == output;
    if nodes.len() > 0 {
        let n: int = nodes.len() - 1;
        let first = nodes.drop_last();
        let rest = next.drop_last();
        let head = values.drop_last();
        assert forall|i: int| 0 <= i < first.len() implies #[trigger] first[i].0.gives(head[i], head[i + 1]) by {
            assert(nodes[i].0.gives(values[i], values[i + 1]));
        }
        assert forall|i: int| 0 <= i < first.len() implies #[trigger] rest[i].0.settings()
            == first[i].0.settings() by {
            assert(next[i].0.settings() == nodes[i].0.settings());
        }
        if exact_arith::<S>() {
            assert forall|i: int| 0 <= i < first.len() implies #[trigger] rest[i].0.memory()
                == first[i].0.memory_after(head[i]) by {
                assert(next[i].0.memory() == nodes[i].0.memory_after(values[i]));
            }
        }
        assert(steps(first, rest, head));
        assert(nodes[n].0.gives(values[n], values[n + 1]));
        assert(next[n].0.settings() == nodes[n].0.settings());
        assert(passes(first, input, values[n], rest));
    }
}

/// Processing `inputs` one after another takes the chain's nodes through
/// `states`: the nodes start as `states[0]`, and the `k`-th sample goes
/// through `states[k]`, gives `outputs[k]` and leaves `states[k + 1]`.
pub open spec fn runs<S: Scalar>(
    states: Seq<Seq<NodeSlot<S>>>,
    inputs: Seq<S>,
    outputs: Seq<S>,
) -> bool {
    &&& states.len() == inputs.len() + 1
    &&& outputs.len() == inputs.len()
    &&& forall|k: int|
        0 <= k < inputs.len() ==> #[trigger] passes(states[k], inputs[k], outputs[k], states[k + 1])
}

/// Nodes in series: each sample passes through every node in order.
#[verifier::reject_recursive_types(S)]
pub struct SignalChain<S: Scalar> {
    nodes: Vec<NodeSlot<S>>,
}

impl<S: Scalar> SignalChain<S> {
    /// The nodes, first to last.
    pub closed spec fn nodes(&self) -> Seq<NodeSlot<S>> {
        self.nodes@
    }

    /// The number of nodes.
    pub open spec fn node_count(&self) -> nat {
        self.nodes().len()
    }

    /// Every node is able to process a sample.
    pub closed spec fn ready(&self) -> bool {
        all_ready(self.nodes@)
    }

    /// An empty chain.
    pub fn new() -> (r: Self)
        ensures
            r.nodes() == Seq::<NodeSlot<S>>::empty(),
            r.node_count() == 0,
            r.ready(),
            r.at_rest(),
    {
        SignalChain { nodes: Vec::new() }
    }

    /// The chain with `node` appended at the end.
    ///
    /// Verus does not follow a node of a generic type into the trait object
    /// that boxes it, so this contract says where the node goes but not what
    /// it does there. A caller that needs the chain's behaviour boxes the
    /// node itself and calls `push_boxed`, whose contract follows the box.
    pub fn push<N: SignalNode<S> + 'static>(self, node: N) -> (r: Self)
        ensures
            r.node_count() == self.node_count() + 1,
            r.nodes().drop_last() == self.nodes(),
    {
        self.push_boxed(Box::new(node))
    }

    /// The chain with the boxed `node` appended at the end: the earlier
    /// nodes stay as they were, and the chain can process a sample exactly
    /// when it could before and the new node can.
    pub fn push_boxed(self, node: Box<dyn SignalNode<S>>) -> (r: Self)
        ensures
            r.node_count() == self.node_count() + 1,
            r.nodes().last().0 == node,
            r.nodes().drop_last() == self.nodes(),
            r.ready() == (self.ready() && node.ready()),
            r.at_rest() == (self.at_rest() && node.at_rest()),
    {
        let mut nodes = self.nodes;
        let ghost before = nodes@;
        let ghost boxed = node;
        let slot = (node,);
        assert(slot.0 == boxed);
        nodes.push(slot);
        proof {
            lemma_slot_appended(before, slot);
        }
        SignalChain { nodes }
    }

    /// Processes one sample through every node in order.
    pub fn process(&mut self, input: S) -> (r: S)
        requires
            total_arith::<S>(),
            old(self).ready(),
        ensures
            final(self).ready(),
            final(self).node_count() == old(self).node_count(),
            old(self).node_count() == 0 ==> r == input,
            passes(old(self).nodes(), input, r, final(self).nodes()),
    {
        let ghost before = self.nodes@;
        let ghost mut values: Seq<S> = seq![input];
        let mut sample = input;
        let mut i: usize = 0;
        while i < self.nodes.len()
            invariant
                total_arith::<S>(),
                self.ready(),
                self.nodes@.len() == before.len(),
                i <= self.nodes@.len(),
                i == 0 ==> sample == input,
                values.len() == i + 1,
                values[0] == input,
                values.last() == sample,
                forall|j: int| i <= j < before.len() ==> self.nodes@[j] == before[j],
                forall|j: int| 0 <= j < i ==> #[trigger] before[j].0.gives(values[j], values[j + 1]),
                forall|j: int|
                    0 <= j < i ==> #[trigger] self.nodes@[j].0.settings() == before[j].0.settings(),
                exact_arith::<S>() ==> forall|j: int|
                    0 <= j < i ==> #[trigger] self.nodes@[j].0.memory() == before[j].0.memory_after(
                        values[j],
                    ),
            decreases self.nodes@.len() - i,
        {
            let ghost earlier = self.nodes@;
            sample = self.nodes[i].0.process(sample);
            proof {
                let v = values.push(sample);
                assert forall|j: int| 0 <= j < i + 1 implies #[trigger] before[j].0.gives(v[j], v[j + 1]) by {
                    if j < i {
                        assert(v[j] == values[j]);
                        assert(v[j + 1] == values[j + 1]);
                    }
                }
                assert forall|j: int| 0 <= j < i + 1 implies #[trigger] self.nodes@[j].0.settings()
                    == before[j].0.settings() by {
                    if j < i {
                        assert(self.nodes@[j] == earlier[j]);
                    }
                }
                if exact_arith::<S>() {
                    assert forall|j: int| 0 <= j < i + 1 implies #[trigger] self.nodes@[j].0.memory()
                        == before[j].0.memory_after(v[j]) by {
                        if j < i {
                            assert(self.nodes@[j] == earlier[j]);
                            assert(v[j] == values[j]);
                        }
                    }
                }
                values = v;
            }
            i = i + 1;
        }
        proof {
            assert(steps(before, self.nodes@, values));
        }
        sample
    }

    /// Processes a whole buffer in place, sample after sample.
    pub fn process_buffer(&mut self, buffer: &mut [S])
        requires
            total_arith::<S>(),
            old(self).ready(),
        ensures
            final(self).ready(),
            final(self).node_count() == old(self).node_count(),
            final(buffer)@.len() == old(buffer)@.len(),
            old(self).node_count() == 0 ==> final(buffer)@ == old(buffer)@,
            exists|states: Seq<Seq<NodeSlot<S>>>|
                {
                    &&& #[trigger] runs(states, old(buffer)@, final(buffer)@)
                    &&& states[0] == old(self).nodes()
                    &&& states.last() == final(self).nodes()
                },
    {
        let ghost inputs = buffer@;
        let ghost mut states: Seq<Seq<NodeSlot<S>>> = seq![self.nodes@];
        let mut i: usize = 0;
        while i < buffer.len()
            invariant
                total_arith::<S>(),
                self.ready(),
                self.nodes@.len() == old(self).nodes@.len(),
                buffer@.len() == inputs.len(),
                i <= buffer@.len(),
                old(self).nodes@.len() == 0 ==> buffer@ == old(buffer)@,
                inputs == old(buffer)@,
                forall|j: int| i <= j < inputs.len() ==> buffer@[j] == inputs[j],
                states.len() == i + 1,
                states[0] == old(self).nodes@,
                states.last() == self.nodes@,
                forall|j: int|
                    0 <= j < i ==> #[trigger] passes(states[j], inputs[j], buffer@[j], states[j + 1]),
            decreases buffer@.len() - i,
        {
            let ghost before = buffer@;
            let ghost current = self.nodes@;
            let y = self.process(buffer[i]);
            buffer[i] = y;
            proof {
                let next = states.push(self.nodes@);
                assert forall|j: int| 0 <= j < i + 1 implies #[trigger] passes(
                    next[j],
                    inputs[j],
                    buffer@[j],
                    next[j + 1],
                ) by {
                    assert(next[j] == states[j]);
                    if j < i {
                        assert(buffer@[j] == before[j]);
                        assert(next[j + 1] == states[j + 1]);
                    } else {
                        assert(next[j + 1] == self.nodes@);
                        assert(states[j] == current);
                    }
                }
                states = next;
            }
            i = i + 1;
        }
        proof {
            assert(runs(states, inputs, buffer@));
        }
    }

    /// Every node holds no memory of earlier samples.
    pub closed spec fn at_rest(&self) -> bool {
        all_at_rest(self.nodes@)
    }

    /// Resets every node.
    pub fn reset(&mut self)
        ensures
            old(self).ready() ==> final(self).ready(),
            final(self).node_count() == old(self).node_count(),
            final(self).at_rest(),
            forall|i: int|
                0 <= i < old(self).node_count() ==> #[trigger] final(self).nodes()[i].0.settings()
                    == old(self).nodes()[i].0.settings(),
            forall|i: int|
                0 <= i < old(self).node_count() && old(self).nodes()[i].0.memory() == Seq::<S>::empty()
                    ==> #[trigger] final(self).nodes()[i].0.memory() == old(self).nodes()[i].0.memory(),
    {
        let ghost before = self.nodes@;
        let mut i: usize = 0;
        while i < self.nodes.len()
            invariant
                self.nodes@.len() == before.len(),
                i <= self.nodes@.len(),
                old(self).nodes@ == before,
                old(self).ready() ==> forall|j: int|
                    0 <= j < self.nodes@.len() ==> #[trigger] self.nodes@[j].0.ready(),
                forall|j: int| 0 <= j < i ==> #[trigger] self.nodes@[j].0.at_rest(),
                forall|j: int| i <= j < before.len() ==> self.nodes@[j] == before[j],
                forall|j: int|
                    0 <= j < i ==> #[trigger] self.nodes@[j].0.settings() == before[j].0.settings(),
                forall|j: int|
                    0 <= j < i && before[j].0.memory() == Seq::<S>::empty() ==> #[trigger] self.nodes@[j].0.memory()
                        == before[j].0.memory(),
            decreases self.nodes@.len() - i,
        {
            self.nodes[i].0.reset();
            i = i + 1;
        }
    }

    /// Number of nodes in the chain.
    pub fn len(&self) -> (r: usize)
        ensures
            r == self.node_count(),
    {
        self.nodes.len()
    }

    /// Whether the chain has no node.
    pub fn is_empty(&self) -> (r: bool)
        ensures
            r == (self.node_count() == 0),
    {
        self.nodes.len() == 0
    }
}

impl<S: Scalar> Default for SignalChain<S> {
    fn default() -> (r: Self)
        ensures
            r.node_count() == 0,
            r.ready(),
    {
        SignalChain::new()
    }
}

/// The shape of a run of a delay line: its length never changes and its
/// position advances one step per sample, round the line.
proof fn lemma_delay_run_shape<S: Scalar>(run: Seq<Delay<S>>, j: int)
    requires
        run.len() > 0,
        run[0].ready(),
        forall|m: int| 0 <= m < run.len() - 1 ==> #[trigger] run[m].stepped(run[m + 1]),
        0 <= j < run.len(),
    ensures
        run[j].line().len() == run[0].line().len(),
        run[j].position() == (run[0].position() + j) % (run[0].line().len() as int),
    decreases j,
{
    let n: int = run[0].line().len() as int;
    if j == 0 {
        vstd::arithmetic::div_mod::lemma_small_mod(run[0].position(), n as nat);
    } else {
        lemma_delay_run_shape(run, j - 1);
        let m: int = j - 1;
        assert(run[m].stepped(run[m + 1]));
        let p: int = run[0].position() as int;
        vstd::arithmetic::div_mod::lemma_add_mod_noop_right(1, p + j - 1, n);
    }
}

/// Between the write at sample `from` and sample `to` (less than a full
/// turn later), the cell written at `from` is left alone.
proof fn lemma_delay_cell_kept<S: Scalar>(run: Seq<Delay<S>>, from: int, to: int)
    requires
        run.len() > 0,
        run[0].ready(),
        forall|m: int| 0 <= m < run.len() - 1 ==> #[trigger] run[m].stepped(run[m + 1]),
        0 <= from < to < run.len(),
        to - from <= run[0].line().len(),
    ensures
        run[to].line()[run[from].position() as int] == run[from + 1].line()[run[from].position() as int],
    decreases to - from,
{
    if to > from + 1 {
        lemma_delay_cell_kept(run, from, to - 1);
        let n: int = run[0].line().len() as int;
        let p: int = run[0].position() as int;
        lemma_delay_run_shape(run, from);
        lemma_delay_run_shape(run, to - 1);
        let d: int = to - 1 - from;
        vstd::arithmetic::div_mod::lemma_small_mod(d as nat, n as nat);
        vstd::arithmetic::div_mod::lemma_mod_equivalence(p + to - 1, p + from, n);
        assert(run[to - 1].position() != run[from].position());
        let m: int = to - 1;
        assert(run[m].stepped(run[m + 1]));
        assert(run[from].position() < run[to - 1].line().len());
    }
}

/// A delay line of `n` samples gives back, `n` samples later, exactly what
/// was written into it: the sample that comes out at step `k` is the one
/// stored at step `k - n`.
pub proof fn lemma_delay_echo<S: Scalar>(run: Seq<Delay<S>>, k: int)
    requires
        run.len() > 0,
        run[0].ready(),
        forall|m: int| 0 <= m < run.len() - 1 ==> #[trigger] run[m].stepped(run[m + 1]),
        run[0].line().len() <= k < run.len(),
    ensures
        run[k].delayed() == run[k - run[0].line().len() + 1].line()[run[k
            - run[0].line().len()].position() as int],
{
    let n: int = run[0].line().len() as int;
    let p: int = run[0].position() as int;
    let from: int = k - n;
    lemma_delay_run_shape(run, from);
    lemma_delay_run_shape(run, k);
    lemma_delay_cell_kept(run, from, k);
    vstd::arithmetic::div_mod::lemma_mod_add_multiples_vanish(p + from, n);
    assert(p + k == n + (p + from));
}

/// With the samples `inputs` fed in, a delay line of `n` samples gives out
/// at step `k` what it was fed at step `k - n`, plus the feedback of what
/// came out then: `inputs[k - n] + delayed[k - n] * feedback`.
pub proof fn lemma_delay_echo_fed<S: Scalar>(run: Seq<Delay<S>>, inputs: Seq<S>, k: int)
    requires
        run.len() > 0,
        run[0].ready(),
        inputs.len() + 1 == run.len(),
        forall|m: int| 0 <= m < run.len() - 1 ==> #[trigger] run[m].stepped(run[m + 1]),
        forall|m: int|
            0 <= m < inputs.len() ==> #[trigger] run[m + 1].line()[run[m].position() as int]
                == delay_feed(inputs[m], run[m].delayed(), run[m].feedback()),
        run[0].line().len() <= k < run.len(),
    ensures
        run[k].delayed() == delay_feed(
            inputs[k - run[0].line().len()],
            run[k - run[0].line().len()].delayed(),
            run[0].feedback(),
        ),
{
    let n: int = run[0].line().len() as int;
    let m: int = k - n;
    lemma_delay_echo(run, k);
    assert(run[m + 1].line()[run[m].position() as int] == delay_feed(
        inputs[m],
        run[m].delayed(),
        run[m].feedback(),
    ));
    lemma_delay_feedback_constant(run, m);
}

/// The feedback of a delay line never changes while it runs.
proof fn lemma_delay_feedback_constant<S: Scalar>(run: Seq<Delay<S>>, j: int)
    requires
        forall|m: int| 0 <= m < run.len() - 1 ==> #[trigger] run[m].stepped(run[m + 1]),
        0 <= j < run.len(),
    ensures
        run[j].feedback() == run[0].feedback(),
    decreases j,
{
    if j > 0 {
        lemma_delay_feedback_constant(run, j - 1);
        let m: int = j - 1;
        assert(run[m].stepped(run[m + 1]));
    }
}

} // verus!
