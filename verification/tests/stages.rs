use signal_chain::{
    AggregationMethod, Aggregator, ConfidenceGate, DeadbandFilter, ExponentialSmoothing,
    MovingAverage, Normalizer, Signal,
};

fn approx_eq(a: f64, b: f64, eps: f64) -> bool {
    (a - b).abs() < eps
}

// -- DeadbandFilter --
#[test]
fn deadband_first_always_passes() {
    let mut db = DeadbandFilter::<f64>::new(0.5);
    let out = db.process_boxed(Signal::simple(1.0, 0));
    assert!(approx_eq(out.value, 1.0, 1e-10));
    assert!(approx_eq(out.confidence, 1.0, 1e-10));
}

#[test]
fn deadband_suppresses_small_change() {
    let mut db = DeadbandFilter::<f64>::new(1.0);
    db.process_boxed(Signal::simple(5.0, 0));
    let out = db.process_boxed(Signal::simple(5.5, 1));
    assert!(out.confidence.abs() < 1e-10);
}

#[test]
fn deadband_passes_large_change() {
    let mut db = DeadbandFilter::<f64>::new(1.0);
    db.process_boxed(Signal::simple(5.0, 0));
    let out = db.process_boxed(Signal::simple(7.0, 1));
    assert!(approx_eq(out.value, 7.0, 1e-10));
    assert!(approx_eq(out.confidence, 1.0, 1e-10));
}

#[test]
fn deadband_compares_with_last_value_let_through() {
    // 5.0 passes; 5.8 is suppressed (memory stays 5.0); 6.5 is 1.5 away
    // from 5.0 and passes although it is only 0.7 away from 5.8.
    let mut db = DeadbandFilter::<f64>::new(1.0);
    db.process_boxed(Signal::simple(5.0, 0));
    let suppressed = db.process_boxed(Signal::simple(5.8, 1));
    assert_eq!(suppressed.confidence, 0.0);
    assert_eq!(suppressed.value, 5.8);
    let passed = db.process_boxed(Signal::simple(6.5, 2));
    assert_eq!(passed.confidence, 1.0);
    assert_eq!(passed.value, 6.5);
}

#[test]
fn deadband_boundary_is_suppressed() {
    // a change of exactly the threshold stays inside the band
    let mut db = DeadbandFilter::<f64>::new(2.0);
    db.process_boxed(Signal::simple(1.0, 0));
    let out = db.process_boxed(Signal::simple(3.0, 1));
    assert_eq!(out.confidence, 0.0);
    let below = db.process_boxed(Signal::simple(-1.0, 2));
    assert_eq!(below.confidence, 0.0);
}

#[test]
fn deadband_keeps_timestamp_and_source() {
    let mut db = DeadbandFilter::<f64>::new(1.0);
    db.process_boxed(Signal::new(5.0, 3, 0.7, "probe"));
    let out = db.process_boxed(Signal::new(5.1, 9, 0.7, "probe"));
    assert_eq!(out.timestamp, 9);
    assert_eq!(out.source, "probe");
    assert_eq!(out.value, 5.1);
}

#[test]
fn deadband_name() {
    let db = DeadbandFilter::<f64>::new(1.0);
    assert_eq!(db.name(), "DeadbandFilter");
}

// -- MovingAverage --
#[test]
fn moving_average_single() {
    let mut ma = MovingAverage::<f64>::new(3);
    let out = ma.process_boxed(Signal::simple(6.0, 0));
    assert!(approx_eq(out.value, 6.0, 1e-10));
}

#[test]
fn moving_average_window() {
    let mut ma = MovingAverage::<f64>::new(3);
    ma.process_boxed(Signal::simple(2.0, 0));
    ma.process_boxed(Signal::simple(4.0, 1));
    let out = ma.process_boxed(Signal::simple(6.0, 2));
    assert!(approx_eq(out.value, 4.0, 1e-10));
}

#[test]
fn moving_average_slides() {
    let mut ma = MovingAverage::<f64>::new(2);
    ma.process_boxed(Signal::simple(10.0, 0));
    let out = ma.process_boxed(Signal::simple(20.0, 1));
    assert!(approx_eq(out.value, 15.0, 1e-10));
}

#[test]
fn moving_average_drops_oldest() {
    let mut ma = MovingAverage::<f64>::new(2);
    ma.process_boxed(Signal::simple(10.0, 0));
    ma.process_boxed(Signal::simple(20.0, 1));
    let out = ma.process_boxed(Signal::simple(40.0, 2));
    assert_eq!(out.value, 30.0);
    assert_eq!(out.timestamp, 2);
}

#[test]
fn moving_average_window_of_one_is_passthrough() {
    let mut ma = MovingAverage::<f64>::new(1);
    for (i, v) in [3.0, -7.5, 0.25].iter().enumerate() {
        let out = ma.process_boxed(Signal::new(*v, i as u64, 0.4, "m"));
        assert_eq!(out.value, *v);
        assert_eq!(out.confidence, 0.4);
    }
}

#[test]
fn moving_average_clone_keeps_window() {
    let mut ma = MovingAverage::<f64>::new(3);
    ma.process_boxed(Signal::simple(3.0, 0));
    ma.process_boxed(Signal::simple(6.0, 1));
    let mut copy = ma.clone();
    let a = ma.process_boxed(Signal::simple(9.0, 2));
    let b = copy.process_boxed(Signal::simple(9.0, 2));
    assert_eq!(a.value, b.value);
    assert_eq!(a.value, 6.0);
}

// -- ExponentialSmoothing --
#[test]
fn ema_first_passthrough() {
    let mut ema = ExponentialSmoothing::<f64>::new(0.3);
    let out = ema.process_boxed(Signal::simple(10.0, 0));
    assert!(approx_eq(out.value, 10.0, 1e-10));
}

#[test]
fn ema_smooths() {
    let mut ema = ExponentialSmoothing::<f64>::new(0.5);
    ema.process_boxed(Signal::simple(0.0, 0));
    let out = ema.process_boxed(Signal::simple(10.0, 1));
    assert!(approx_eq(out.value, 5.0, 1e-10));
}

#[test]
fn ema_feeds_back_its_output() {
    // 0 → 0; then 0.5·8 + 0.5·0 = 4; then 0.5·8 + 0.5·4 = 6
    let mut ema = ExponentialSmoothing::<f64>::new(0.5);
    ema.process_boxed(Signal::simple(0.0, 0));
    ema.process_boxed(Signal::simple(8.0, 1));
    let out = ema.process_boxed(Signal::simple(8.0, 2));
    assert_eq!(out.value, 6.0);
}

#[test]
fn ema_alpha_zero_holds_first_value() {
    let mut ema = ExponentialSmoothing::<f64>::new(0.0);
    ema.process_boxed(Signal::simple(2.0, 0));
    let out = ema.process_boxed(Signal::simple(100.0, 1));
    assert_eq!(out.value, 2.0);
}

// -- ConfidenceGate --
#[test]
fn confidence_gate_passes() {
    let gate = ConfidenceGate::<f64>::new(0.5);
    let s = Signal::new(3.0, 0, 0.8, "ok");
    let out = gate.process_boxed(s);
    assert!(approx_eq(out.value, 3.0, 1e-10));
}

#[test]
fn confidence_gate_drops() {
    let gate = ConfidenceGate::<f64>::new(0.5);
    let s = Signal::new(3.0, 0, 0.1, "bad");
    let out = gate.process_boxed(s);
    assert!(out.value.abs() < 1e-10);
    assert!(out.confidence.abs() < 1e-10);
}

#[test]
fn confidence_gate_at_threshold_passes() {
    let gate = ConfidenceGate::<f64>::new(0.5);
    let out = gate.process_boxed(Signal::new(3.0, 7, 0.5, "edge"));
    assert_eq!(out.value, 3.0);
    assert_eq!(out.confidence, 0.5);
    let dropped = gate.process_boxed(Signal::new(3.0, 7, 0.49, "edge"));
    assert_eq!(dropped.value, 0.0);
    assert_eq!(dropped.timestamp, 7);
    assert_eq!(dropped.source, "edge");
}

// -- Normalizer --
#[test]
fn normalizer_midpoint() {
    let n = Normalizer::<f64>::new(0.0, 100.0);
    let out = n.process_boxed(Signal::simple(50.0, 0));
    assert!(approx_eq(out.value, 0.5, 1e-10));
}

#[test]
fn normalizer_clamps_low() {
    let n = Normalizer::<f64>::new(10.0, 20.0);
    let out = n.process_boxed(Signal::simple(5.0, 0));
    assert!(out.value.abs() < 1e-10);
}

#[test]
fn normalizer_clamps_high() {
    let n = Normalizer::<f64>::new(10.0, 20.0);
    let out = n.process_boxed(Signal::simple(25.0, 0));
    assert!(approx_eq(out.value, 1.0, 1e-10));
}

#[test]
fn normalizer_maps_ends_exactly() {
    let n = Normalizer::<f64>::new(-4.0, 4.0);
    assert_eq!(n.process_boxed(Signal::simple(-4.0, 0)).value, 0.0);
    assert_eq!(n.process_boxed(Signal::simple(4.0, 0)).value, 1.0);
    assert_eq!(n.process_boxed(Signal::simple(2.0, 0)).value, 0.75);
}

// -- Aggregator --
#[test]
fn aggregator_mean() {
    let agg = Aggregator::new(AggregationMethod::Mean);
    let signals = vec![
        Signal::new(2.0, 0, 1.0, "a"),
        Signal::new(4.0, 1, 1.0, "b"),
        Signal::new(6.0, 2, 1.0, "c"),
    ];
    let result = agg.aggregate(&signals);
    assert!(approx_eq(result.value, 4.0, 1e-10));
}

#[test]
fn aggregator_max() {
    let agg = Aggregator::new(AggregationMethod::Max);
    let signals = vec![
        Signal::new(2.0, 0, 1.0, "a"),
        Signal::new(9.0, 1, 1.0, "b"),
        Signal::new(4.0, 2, 1.0, "c"),
    ];
    let result = agg.aggregate(&signals);
    assert!(approx_eq(result.value, 9.0, 1e-10));
}

#[test]
fn aggregator_weighted() {
    let agg = Aggregator::new(AggregationMethod::Weighted);
    let signals = vec![
        Signal::new(0.0, 0, 1.0, "a"),
        Signal::new(10.0, 1, 3.0, "b"),
    ];
    let result = agg.aggregate(&signals);
    assert!(approx_eq(result.value, 7.5, 1e-10));
}

#[test]
fn aggregator_metadata() {
    let agg = Aggregator::new(AggregationMethod::Mean);
    let signals = vec![
        Signal::new(1.0, 5, 0.2, "x"),
        Signal::new(2.0, 9, 0.4, "y"),
        Signal::new(3.0, 7, 0.6, "z"),
    ];
    let result = agg.aggregate(&signals);
    assert_eq!(result.timestamp, 9);
    assert_eq!(result.source, "x+y+z");
    assert!(approx_eq(result.confidence, 0.4, 1e-12));
    assert_eq!(result.value, 2.0);
}

#[test]
fn aggregator_single_signal() {
    let agg = Aggregator::new(AggregationMethod::Max);
    let result = agg.aggregate(&[Signal::new(-3.0, 4, 0.5, "only")]);
    assert_eq!(result.value, -3.0);
    assert_eq!(result.source, "only");
    assert_eq!(result.timestamp, 4);
    assert_eq!(result.confidence, 0.5);
}

#[test]
fn aggregator_max_skips_nan() {
    let agg = Aggregator::new(AggregationMethod::Max);
    let signals = vec![Signal::new(f64::NAN, 0, 1.0, "a"), Signal::new(-2.0, 1, 1.0, "b")];
    assert_eq!(agg.aggregate(&signals).value, -2.0);
    let all_nan = vec![Signal::new(f64::NAN, 0, 1.0, "a")];
    assert_eq!(agg.aggregate(&all_nan).value, f64::NEG_INFINITY);
}

#[test]
fn aggregator_weighted_zero_weight_gives_default() {
    let agg = Aggregator::new(AggregationMethod::Weighted);
    let signals = vec![Signal::new(4.0, 3, 0.0, "a"), Signal::new(8.0, 6, 0.0, "b")];
    let result = agg.aggregate(&signals);
    assert_eq!(result.value, 0.0);
    assert_eq!(result.confidence, 0.0);
    assert_eq!(result.timestamp, 0);
    assert_eq!(result.source, "");
}

#[test]
fn aggregator_passes_single_signal_in_chain() {
    let agg = Aggregator::new(AggregationMethod::Mean);
    let out = agg.process_boxed(Signal::new(1.5, 2, 0.3, "s"));
    assert_eq!(out.value, 1.5);
    assert_eq!(out.confidence, 0.3);
    assert_eq!(out.source, "s");
    assert_eq!(agg.name(), "Aggregator");
}

#[test]
fn signal_defaults() {
    let d: Signal<f64> = Signal::default();
    assert_eq!(d.value, 0.0);
    assert_eq!(d.confidence, 0.0);
    assert_eq!(d.timestamp, 0);
    assert_eq!(d.source, "");
    let s = Signal::simple(2.5, 4);
    assert_eq!(s.confidence, 1.0);
    assert_eq!(s.energy(), 6.25);
}
