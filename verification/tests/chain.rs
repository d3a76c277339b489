use signal_chain::chain::SignalChain;
use signal_chain::{AggregationMethod, ChainBuilder, Signal};

fn approx_eq(a: f64, b: f64, eps: f64) -> bool {
    (a - b).abs() < eps
}

#[test]
fn empty_chain_passthrough() {
    let mut chain: SignalChain<f64> = ChainBuilder::<f64>::new().build();
    let out = chain.process(Signal::simple(42.0, 0));
    assert!(approx_eq(out.value, 42.0, 1e-10));
}

#[test]
fn chain_with_normalizer() {
    let mut chain = ChainBuilder::<f64>::new().normalize(0.0, 100.0).build();
    let out = chain.process(Signal::simple(50.0, 0));
    assert!(approx_eq(out.value, 0.5, 1e-10));
}

#[test]
fn chain_builder_multi_stage() {
    let chain = ChainBuilder::<f64>::new()
        .deadband(0.1)
        .ema(0.3)
        .normalize(0.0, 10.0)
        .build();
    assert_eq!(chain.len(), 3);
}

#[test]
fn process_batch_works() {
    let mut chain = ChainBuilder::<f64>::new().normalize(0.0, 10.0).build();
    let signals = vec![
        Signal::simple(2.5, 0),
        Signal::simple(5.0, 1),
        Signal::simple(10.0, 2),
    ];
    let results = chain.process_batch(signals);
    assert_eq!(results.len(), 3);
    assert!(approx_eq(results[0].value, 0.25, 1e-10));
    assert!(approx_eq(results[1].value, 0.5, 1e-10));
    assert!(approx_eq(results[2].value, 1.0, 1e-10));
}

#[test]
fn conservation_smooth_chain() {
    // An EMA chain with alpha=1.0 is passthrough → energy conserved
    let mut chain = ChainBuilder::<f64>::new().ema(1.0).build();
    let signals = vec![
        Signal::new(5.0, 0, 0.9, "a"),
        Signal::new(3.0, 1, 0.8, "b"),
    ];
    let (_, _, ratio) = chain.conservation_check(signals);
    assert!(approx_eq(ratio, 1.0, 1e-6));
}

#[test]
fn conservation_with_normalizer_shifts_energy() {
    let mut chain = ChainBuilder::<f64>::new().normalize(0.0, 100.0).build();
    let signals = vec![Signal::simple(50.0, 0)];
    let (_, _, ratio) = chain.conservation_check(signals);
    assert!(!approx_eq(ratio, 1.0, 0.01));
}

#[test]
fn deadband_in_chain() {
    let mut chain: SignalChain<f64> = ChainBuilder::<f64>::new().deadband(2.0).build();
    let out1 = chain.process(Signal::simple(10.0, 0));
    assert!(approx_eq(out1.value, 10.0, 1e-10));

    let out2 = chain.process(Signal::simple(10.5, 1));
    assert!(out2.confidence.abs() < 1e-10);
}

#[test]
fn moving_average_in_chain() {
    let mut chain = ChainBuilder::<f64>::new().moving_average(3).build();
    let signals = vec![
        Signal::simple(3.0, 0),
        Signal::simple(6.0, 1),
        Signal::simple(9.0, 2),
    ];
    let results = chain.process_batch(signals);
    assert!(approx_eq(results[2].value, 6.0, 1e-10));
}

#[test]
fn confidence_gate_in_chain() {
    let mut chain: SignalChain<f64> = ChainBuilder::<f64>::new().confidence_gate(0.5).build();
    let out = chain.process(Signal::new(10.0, 0, 0.3, "unreliable"));
    assert!(out.value.abs() < 1e-10);
}

#[test]
fn chain_clone_and_process() {
    let chain = ChainBuilder::<f64>::new().normalize(0.0, 100.0).build();
    let mut chain2 = chain.clone();
    let mut chain = chain;
    let out1 = chain.process(Signal::simple(25.0, 0));
    let out2 = chain2.process(Signal::simple(75.0, 0));
    assert!(approx_eq(out1.value, 0.25, 1e-10));
    assert!(approx_eq(out2.value, 0.75, 1e-10));
}

#[test]
fn full_pipeline() {
    let mut chain = ChainBuilder::<f64>::new()
        .deadband(0.5)
        .ema(0.5)
        .normalize(0.0, 10.0)
        .confidence_gate(0.3)
        .build();

    // First signal: passes deadband, ema=5.0, norm=0.5, confidence=0.9 > 0.3
    let out = chain.process(Signal::new(5.0, 0, 0.9, "s1"));
    assert!(approx_eq(out.value, 0.5, 1e-10));
}

#[test]
fn is_empty_and_len() {
    let empty: SignalChain<f64> = ChainBuilder::<f64>::new().build();
    assert!(empty.is_empty());
    assert_eq!(empty.len(), 0);

    let chain = ChainBuilder::<f64>::new().ema(0.5).build();
    assert!(!chain.is_empty());
    assert_eq!(chain.len(), 1);
}

#[test]
fn chain_keeps_timestamp_and_source() {
    let mut chain = ChainBuilder::<f64>::new()
        .deadband(1.0)
        .moving_average(2)
        .ema(0.25)
        .normalize(-1.0, 1.0)
        .confidence_gate(0.5)
        .aggregate(AggregationMethod::Max)
        .build();
    for t in 0..6u64 {
        let out = chain.process(Signal::new(t as f64 * 0.3, 100 + t, 0.2, "sensor-7"));
        assert_eq!(out.timestamp, 100 + t);
        assert_eq!(out.source, "sensor-7");
    }
}

#[test]
fn chain_batch_equals_sequential_processing() {
    let build = || ChainBuilder::<f64>::new().deadband(0.4).moving_average(3).ema(0.5).build();
    let inputs = [1.0, 1.2, 3.0, -2.0, 0.5, 0.6];
    let mut batch_chain = build();
    let batch = batch_chain.process_batch(
        inputs.iter().enumerate().map(|(i, v)| Signal::simple(*v, i as u64)).collect(),
    );
    let mut one_by_one = build();
    for (i, v) in inputs.iter().enumerate() {
        let out = one_by_one.process(Signal::simple(*v, i as u64));
        assert_eq!(out.value, batch[i].value);
        assert_eq!(out.confidence, batch[i].confidence);
    }
}

#[test]
fn chain_order_matters_for_stages() {
    // normalize then gate zeroes nothing; gate first on low confidence zeroes
    // the value, which the normalizer then maps to 0.5
    let mut a = ChainBuilder::<f64>::new().normalize(-10.0, 10.0).confidence_gate(0.5).build();
    let mut b = ChainBuilder::<f64>::new().confidence_gate(0.5).normalize(-10.0, 10.0).build();
    let sa = a.process(Signal::new(5.0, 0, 0.1, "x"));
    let sb = b.process(Signal::new(5.0, 0, 0.1, "x"));
    assert_eq!(sa.value, 0.0);
    assert_eq!(sb.value, 0.5);
}

#[test]
fn conservation_ratio_edge_cases() {
    // zero input and zero output energy: ratio one
    let mut chain = ChainBuilder::<f64>::new().ema(0.5).build();
    let (i, o, r) = chain.conservation_check(vec![Signal::simple(0.0, 0)]);
    assert_eq!((i, o, r), (0.0, 0.0, 1.0));
    // zero input energy, non-zero output energy: infinite ratio
    let mut norm = ChainBuilder::<f64>::new().normalize(-1.0, 1.0).build();
    let (i, o, r) = norm.conservation_check(vec![Signal::simple(0.0, 0)]);
    assert_eq!(i, 0.0);
    assert_eq!(o, 0.25);
    assert_eq!(r, f64::INFINITY);
    // exact energies and ratio
    let mut pass = ChainBuilder::<f64>::new().aggregate(AggregationMethod::Mean).build();
    let (i, o, r) = pass.conservation_check(vec![Signal::simple(3.0, 0), Signal::simple(4.0, 1)]);
    assert_eq!((i, o, r), (25.0, 25.0, 1.0));
}

#[test]
fn stage_names_in_order() {
    let chain = ChainBuilder::<f64>::new()
        .deadband(0.1)
        .moving_average(2)
        .ema(0.5)
        .confidence_gate(0.1)
        .normalize(0.0, 1.0)
        .aggregate(AggregationMethod::Weighted)
        .build();
    assert_eq!(chain.len(), 6);
    let builder: ChainBuilder<f64> = ChainBuilder::default();
    assert!(builder.build().is_empty());
}

#[test]
fn chain_splits_anywhere() {
    let mut whole = ChainBuilder::<f64>::new()
        .deadband(0.5)
        .moving_average(2)
        .normalize(0.0, 8.0)
        .build();
    let mut front = ChainBuilder::<f64>::new().deadband(0.5).build();
    let mut back = ChainBuilder::<f64>::new().moving_average(2).normalize(0.0, 8.0).build();
    for (i, v) in [2.0, 2.2, 6.0, 1.0, 7.5].iter().enumerate() {
        let a = whole.process(Signal::new(*v, i as u64, 0.9, "s"));
        let b = back.process(front.process(Signal::new(*v, i as u64, 0.9, "s")));
        assert_eq!(a.value, b.value);
        assert_eq!(a.confidence, b.confidence);
    }
}

#[test]
fn chain_clone_keeps_state() {
    let mut chain = ChainBuilder::<f64>::new().deadband(1.0).moving_average(3).ema(0.5).build();
    chain.process(Signal::simple(4.0, 0));
    chain.process(Signal::simple(8.0, 1));
    let mut copy = chain.clone();
    for (i, v) in [8.5, 1.0, 3.0].iter().enumerate() {
        let a = chain.process(Signal::simple(*v, 2 + i as u64));
        let b = copy.process(Signal::simple(*v, 2 + i as u64));
        assert_eq!(a.value, b.value);
        assert_eq!(a.confidence, b.confidence);
    }
}
