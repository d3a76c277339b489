use signal_chain::{BiquadMemory, Clipper, Delay, Gain, SignalChain, SignalNode};

/// A biquad low-pass filter over `f64`, built on the library's filter memory.
struct LowPass {
    cutoff: f64,
    sample_rate: f64,
    memory: BiquadMemory<f64>,
}

impl LowPass {
    fn new(cutoff: f64, sample_rate: f64) -> Self {
        Self { cutoff, sample_rate, memory: BiquadMemory::new() }
    }

    fn set_cutoff(&mut self, cutoff: f64) {
        self.cutoff = cutoff;
    }

    fn coefficients(&self) -> (f64, f64, f64, f64, f64) {
        let omega = 2.0 * std::f64::consts::PI * self.cutoff / self.sample_rate;
        let alpha = omega.sin() / (2.0 * 0.707);
        let b0 = (1.0 - omega.cos()) / 2.0;
        let b1 = 1.0 - omega.cos();
        let b2 = (1.0 - omega.cos()) / 2.0;
        let a0 = 1.0 + alpha;
        let a1 = -2.0 * omega.cos();
        let a2 = 1.0 - alpha;
        (b0 / a0, b1 / a0, b2 / a0, a1 / a0, a2 / a0)
    }
}

impl SignalNode<f64> for LowPass {
    fn process(&mut self, input: f64) -> f64 {
        let coefficients = self.coefficients();
        self.memory.step(coefficients, input)
    }

    fn reset(&mut self) {
        self.memory.clear();
    }
}

// === Gain ===

#[test]
fn test_gain() {
    let mut gain = Gain::<f64>::new(0.5);
    assert!((gain.process(1.0) - 0.5).abs() < 1e-10);
}

#[test]
fn gain_zero_silences() {
    let mut gain = Gain::<f64>::new(0.0);
    assert!((gain.process(1.0)).abs() < 1e-10);
}

#[test]
fn gain_negative_inverts_phase() {
    let mut gain = Gain::<f64>::new(-1.0);
    assert!((gain.process(0.7) + 0.7).abs() < 1e-10);
}

#[test]
fn gain_processes_zero() {
    let mut gain = Gain::<f64>::new(10.0);
    assert!((gain.process(0.0)).abs() < 1e-10);
}

#[test]
fn gain_double_precision_preserved() {
    let mut gain = Gain::<f64>::new(0.123456789);
    let out = gain.process(0.987654321);
    assert!((out - 0.123456789 * 0.987654321).abs() < 1e-15);
}

// === Clipper ===

#[test]
fn test_clipper() {
    let mut clip = Clipper::<f64>::new(0.8);
    assert!((clip.process(1.0) - 0.8).abs() < 1e-10);
    assert!((clip.process(-1.0) + 0.8).abs() < 1e-10);
}

#[test]
fn clipper_passes_below_threshold() {
    let mut clip = Clipper::<f64>::new(0.8);
    assert!((clip.process(0.5) - 0.5).abs() < 1e-10);
    assert!((clip.process(-0.3) + 0.3).abs() < 1e-10);
}

#[test]
fn clipper_at_exact_threshold_passes() {
    let mut clip = Clipper::<f64>::new(0.8);
    assert!((clip.process(0.8) - 0.8).abs() < 1e-10);
    assert!((clip.process(-0.8) + 0.8).abs() < 1e-10);
}

#[test]
fn clipper_zero_threshold_silences() {
    let mut clip = Clipper::<f64>::new(0.0);
    assert!((clip.process(1.0)).abs() < 1e-10);
}

#[test]
fn clipper_matches_clamp() {
    let mut clip = Clipper::<f64>::new(0.6);
    for x in [-2.0, -0.6, -0.1, 0.0, 0.59, 0.6, 3.0] {
        assert_eq!(clip.process(x), f64::clamp(x, -0.6, 0.6));
    }
}

// === Delay ===

#[test]
fn test_delay() {
    let mut delay = Delay::<f64>::new(4, 0.5, 1.0);
    let out0 = delay.process(1.0);
    assert!((out0).abs() < 1e-10); // first sample: no delayed output yet
}

#[test]
fn delay_produces_echo_after_n_samples() {
    let mut delay = Delay::<f64>::new(3, 0.0, 1.0); // no feedback, full mix
    delay.process(1.0); // sample 0
    delay.process(0.0); // sample 1
    delay.process(0.0); // sample 2
    let out = delay.process(0.0); // sample 3: should echo input from 3 samples ago
    assert!((out - 1.0).abs() < 1e-10, "echo should be 1.0, got {}", out);
}

#[test]
fn delay_feedback_builds_up() {
    let mut delay = Delay::<f64>::new(1, 0.9, 1.0);
    delay.process(1.0);
    let out1 = delay.process(0.0);
    assert!(out1.abs() > 0.5, "feedback should produce output from previous, got {}", out1);
}

#[test]
fn delay_mix_zero_is_passthrough() {
    let mut delay = Delay::<f64>::new(4, 0.5, 0.0); // mix=0 → dry signal only
    for i in 0..20 {
        let s = (i as f64 * 0.1).sin();
        let out = delay.process(s);
        assert!((out - s).abs() < 1e-10, "mix=0 should pass input unchanged");
    }
}

#[test]
fn delay_reset_clears_buffer() {
    let mut delay = Delay::<f64>::new(3, 0.5, 1.0);
    delay.process(1.0);
    delay.process(1.0);
    delay.reset();
    let out = delay.process(0.7);
    assert!((out - 0.0).abs() < 1e-10 || out.abs() < 0.01,
        "after reset, delayed output should be zero, got {}", out);
}

#[test]
fn delay_feedback_decays_exactly() {
    // an impulse through a one-sample line with feedback 0.5 and full mix
    // comes back as 1, 0.5, 0.25, ...
    let mut delay = Delay::<f64>::new(1, 0.5, 1.0);
    assert_eq!(delay.process(1.0), 0.0);
    assert_eq!(delay.process(0.0), 1.0);
    assert_eq!(delay.process(0.0), 0.5);
    assert_eq!(delay.process(0.0), 0.25);
}

#[test]
fn delay_half_mix() {
    let mut delay = Delay::<f64>::new(2, 0.0, 0.5);
    assert_eq!(delay.process(4.0), 2.0);
    assert_eq!(delay.process(2.0), 1.0);
    assert_eq!(delay.process(0.0), 2.0);
    assert_eq!(delay.process(0.0), 1.0);
    assert_eq!(delay.process(0.0), 0.0);
}

// === SignalChain ===

#[test]
fn test_chain() {
    let mut chain = SignalChain::<f64>::new()
        .push(Gain::<f64>::new(2.0))
        .push(Clipper::<f64>::new(1.0));
    let out = chain.process(0.3);
    assert!((out - 0.6).abs() < 1e-10);
}

#[test]
fn chain_empty_passes_signal() {
    let mut chain = SignalChain::<f64>::new();
    let out = chain.process(0.42);
    assert!((out - 0.42).abs() < 1e-10);
}

#[test]
fn chain_len_counts_nodes() {
    let chain = SignalChain::<f64>::new()
        .push(Gain::<f64>::new(1.0))
        .push(Clipper::<f64>::new(1.0))
        .push(Delay::<f64>::new(10, 0.5, 0.5));
    assert_eq!(chain.len(), 3);
}

#[test]
fn chain_is_empty_for_new() {
    let chain: SignalChain<f64> = SignalChain::<f64>::new();
    assert!(chain.is_empty());
}

#[test]
fn chain_is_not_empty_after_push() {
    let chain = SignalChain::<f64>::new().push(Gain::<f64>::new(1.0));
    assert!(!chain.is_empty());
}

#[test]
fn chain_process_buffer_transforms_all_samples() {
    let mut chain = SignalChain::<f64>::new().push(Gain::<f64>::new(0.5));
    let mut buf = [1.0, 0.5, -0.3, 0.0];
    chain.process_buffer(&mut buf);
    assert!((buf[0] - 0.5).abs() < 1e-10);
    assert!((buf[1] - 0.25).abs() < 1e-10);
    assert!((buf[2] + 0.15).abs() < 1e-10);
    assert!((buf[3]).abs() < 1e-10);
}

#[test]
fn chain_default_is_empty() {
    let chain: SignalChain<f64> = SignalChain::default();
    assert!(chain.is_empty());
    assert_eq!(chain.len(), 0);
}

#[test]
fn chain_multi_stage_gain_composes() {
    let mut chain = SignalChain::<f64>::new()
        .push(Gain::<f64>::new(0.5))
        .push(Gain::<f64>::new(0.5));
    let out = chain.process(1.0);
    assert!((out - 0.25).abs() < 1e-10);
}

#[test]
fn chain_order_matters() {
    let mut chain_a = SignalChain::<f64>::new()
        .push(Gain::<f64>::new(2.0))
        .push(Clipper::<f64>::new(0.8));
    let mut chain_b = SignalChain::<f64>::new()
        .push(Clipper::<f64>::new(0.8))
        .push(Gain::<f64>::new(2.0));
    let out_a = chain_a.process(0.5);
    let out_b = chain_b.process(0.5);
    assert!((out_a - 0.8).abs() < 1e-10);
    assert!((out_b - 1.0).abs() < 1e-10);
}

#[test]
fn chain_reset_clears_delay() {
    let mut chain = SignalChain::<f64>::new().push(Delay::<f64>::new(2, 0.5, 1.0));
    chain.process(1.0);
    chain.process(1.0);
    chain.reset();
    assert_eq!(chain.process(0.0), 0.0);
    assert_eq!(chain.process(0.0), 0.0);
}

#[test]
fn chain_process_buffer_matches_process() {
    let mut a = SignalChain::<f64>::new().push(Delay::<f64>::new(2, 0.3, 0.5)).push(Gain::<f64>::new(3.0));
    let mut b = SignalChain::<f64>::new().push(Delay::<f64>::new(2, 0.3, 0.5)).push(Gain::<f64>::new(3.0));
    let mut buf = [1.0, -1.0, 0.5, 0.25, 0.0, 2.0];
    let expected: Vec<f64> = buf.iter().map(|x| b.process(*x)).collect();
    a.process_buffer(&mut buf);
    assert_eq!(buf.to_vec(), expected);
}

// === SignalNode trait ===

#[test]
fn default_reset_is_noop() {
    let mut gain = Gain::<f64>::new(0.5);
    gain.process(1.0);
    gain.reset();
    assert!((gain.process(1.0) - 0.5).abs() < 1e-10);
}

#[test]
fn chain_reset_resets_all_nodes() {
    let mut chain = SignalChain::<f64>::new()
        .push(Delay::<f64>::new(4, 0.5, 1.0))
        .push(LowPass::new(1000.0, 44100.0));
    // Build up state
    for i in 0..100 {
        chain.process((i as f64 * 0.1).sin());
    }
    chain.reset();
    // After reset, the LowPass should have cleared state
    // The Delay should have zeroed its buffer
    // A zero input should produce near-zero output
    let out = chain.process(0.0);
    assert!(out.abs() < 0.1, "after reset, zero input should give near-zero output, got {}", out);
}

#[test]
fn chain_process_buffer_threads_state() {
    // the delay's state carries from one sample of the buffer to the next
    let mut chain = SignalChain::<f64>::new().push(Delay::<f64>::new(1, 0.0, 1.0));
    let mut buf = [1.0, 2.0, 3.0, 4.0];
    chain.process_buffer(&mut buf);
    assert_eq!(buf, [0.0, 1.0, 2.0, 3.0]);
    assert_eq!(chain.process(0.0), 4.0);
}

#[test]
fn chain_push_boxed_runs_nodes_in_push_order() {
    let gain: Box<dyn SignalNode<f64>> = Box::new(Gain::<f64>::new(2.0));
    let clip: Box<dyn SignalNode<f64>> = Box::new(Clipper::<f64>::new(0.8));
    let mut chain = SignalChain::<f64>::new().push_boxed(gain).push_boxed(clip);
    assert_eq!(chain.len(), 2);
    assert!((chain.process(0.3) - 0.6).abs() < 1e-10);
    assert!((chain.process(0.5) - 0.8).abs() < 1e-10);
}

#[test]
fn chain_push_and_push_boxed_agree() {
    let mut pushed = SignalChain::<f64>::new()
        .push(Delay::<f64>::new(2, 0.5, 0.5))
        .push(Gain::<f64>::new(3.0));
    let delay: Box<dyn SignalNode<f64>> = Box::new(Delay::<f64>::new(2, 0.5, 0.5));
    let gain: Box<dyn SignalNode<f64>> = Box::new(Gain::<f64>::new(3.0));
    let mut boxed = SignalChain::<f64>::new().push_boxed(delay).push_boxed(gain);
    for x in [1.0, -0.5, 0.25, 0.0, 2.0] {
        assert_eq!(pushed.process(x), boxed.process(x));
    }
}

#[test]
fn biquad_identity_coefficients_pass_input() {
    let mut memory = BiquadMemory::<f64>::new();
    for x in [1.0, -2.0, 0.5] {
        assert_eq!(memory.step((1.0, 0.0, 0.0, 0.0, 0.0), x), x);
    }
}

#[test]
fn biquad_remembers_last_two_inputs() {
    let mut memory = BiquadMemory::<f64>::new();
    let c = (0.0, 1.0, 10.0, 0.0, 0.0);
    assert_eq!(memory.step(c, 1.0), 0.0);
    assert_eq!(memory.step(c, 2.0), 1.0);
    assert_eq!(memory.step(c, 3.0), 2.0 + 10.0);
}

#[test]
fn biquad_feeds_back_outputs() {
    // y[n] = x[n] + 0.5 * y[n-1] - 0.25 * y[n-2]
    let mut memory = BiquadMemory::<f64>::new();
    let c = (1.0, 0.0, 0.0, -0.5, 0.25);
    assert_eq!(memory.step(c, 1.0), 1.0);
    assert_eq!(memory.step(c, 0.0), 0.5);
    assert_eq!(memory.step(c, 0.0), 0.0);
    assert_eq!(memory.step(c, 0.0), -0.125);
}

#[test]
fn biquad_clear_forgets_everything() {
    let mut memory = BiquadMemory::<f64>::new();
    let c = (0.5, 0.25, 0.125, -0.5, 0.25);
    memory.step(c, 1.0);
    memory.step(c, -1.0);
    memory.clear();
    let mut fresh = BiquadMemory::<f64>::new();
    assert_eq!(memory.step(c, 0.7), fresh.step(c, 0.7));
    assert_eq!(memory.step(c, 0.0), fresh.step(c, 0.0));
}

#[test]
fn lowpass_reset_clears_state() {
    let mut lp = LowPass::new(1000.0, 44100.0);
    // Process some samples to build state
    for i in 0..100 {
        lp.process((i as f64 * 0.01).sin());
    }
    lp.reset();
    // After reset, first sample of DC should behave like a fresh filter
    let mut lp2 = LowPass::new(1000.0, 44100.0);
    let out1 = lp.process(0.5);
    let out2 = lp2.process(0.5);
    assert!((out1 - out2).abs() < 1e-10, "reset should restore fresh state");
}

#[test]
fn lowpass_dc_gain_is_unity() {
    // At DC, a lowpass filter should pass the signal unchanged
    let mut lp = LowPass::new(1000.0, 44100.0);
    let mut last = 0.0;
    // Feed a constant signal and check it converges to unity
    for _ in 0..1000 {
        last = lp.process(1.0);
    }
    assert!((last - 1.0).abs() < 0.01, "DC gain should converge to 1.0, got {}", last);
}

#[test]
fn lowpass_attenuates_high_frequency() {
    // A high-frequency signal should be attenuated more than low
    let mut lp_low = LowPass::new(100.0, 44100.0);
    let mut lp_high = LowPass::new(10000.0, 44100.0);
    let freq = 15000.0_f64; // near Nyquist
    let mut max_low = 0.0_f64;
    let mut max_high = 0.0_f64;
    for i in 0..44100 {
        let s = (2.0 * std::f64::consts::PI * freq * i as f64 / 44100.0).sin();
        max_low = max_low.max(lp_low.process(s).abs());
        max_high = max_high.max(lp_high.process(s).abs());
    }
    assert!(max_low < max_high, "low cutoff should attenuate more: {} vs {}", max_low, max_high);
}

#[test]
fn lowpass_set_cutoff_changes_response() {
    let mut lp = LowPass::new(5000.0, 44100.0);
    // Feed a mid-range signal
    let freq = 2000.0_f64;
    let s = (2.0 * std::f64::consts::PI * freq * 100.0 / 44100.0).sin();
    let out1 = lp.process(s);
    lp.set_cutoff(100.0);
    let out2 = lp.process(s);
    // Different cutoffs should produce different responses
    assert!((out1 - out2).abs() > 1e-6, "changing cutoff should change output");
}

#[test]
fn lowpass_output_stable_for_bounded_input() {
    // A stable biquad should not blow up: output stays bounded
    let mut lp = LowPass::new(1000.0, 44100.0);
    let mut max_output = 0.0_f64;
    for i in 0..10000 {
        let s = ((i as f64 * 0.1).sin() * 0.9).max(-1.0).min(1.0);
        let out = lp.process(s).abs();
        if out > max_output {
            max_output = out;
        }
    }
    // Allow slight ringing/overshoot typical of biquad near resonance
    assert!(max_output < 2.0, "filter unstable: max output {}", max_output);
}
