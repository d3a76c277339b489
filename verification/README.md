# signal_chain

Composable signal-processing pipelines, verified with Verus.

* `src/` is the verified library. Every stage and node is generic over a
  `Scalar` sample type (`f64` in practice). What does not depend on the
  sample type's arithmetic is proved outright: what each stage and node
  remembers, which samples a window holds, how timestamps and sources travel,
  how many outputs a run gives. What the computed values are, and which
  stage's decision lets a signal through, is proved equal to its arithmetic
  specification whenever the sample type's operators and comparisons behave
  as specified; for `f64` that premise is not known, so on `f64` those
  clauses say nothing.
  * `scalar.rs`, `order.rs`: the sample type and how its arithmetic and
    comparisons are described.
  * `signal.rs`: the `Signal` record.
  * `stages.rs`: deadband filter, moving average, exponential smoothing,
    confidence gate, normalizer, aggregator.
  * `chain.rs`: the chain of stages and its builder.
  * `nodes.rs`: sample-by-sample nodes (gain, clipper, delay line), the
    memory of a biquad filter, and the chain that runs nodes in series.
    Verus follows a boxed node into the chain (`push_boxed`) but not a node
    of a generic type (`push`): what the chain does with a node it was given
    by `push` is known by its position only.
* `app/` holds what is trigonometric over `f64`: the low-pass filter's
  coefficients (its filtering is the library's biquad memory) and the sine
  oscillator.
* `tests/` exercises the library on `f64` samples.
