use synth::fixed::ONE;
use synth::signals::{Const, Every, Gain, Sample, Signal, Sine, Sum};

fn osc(freq_hz_q16: i64) -> Signal {
    Signal::Sine(Sine::new_from_const(freq_hz_q16))
}

#[test]
fn constant_signal_returns_its_value_every_call() {
    let mut s = Signal::Const(Const::new(12345));
    for t in 0..10u64 {
        assert_eq!(s.sample(t), 12345);
    }
}

#[test]
fn gain_scales_by_a_q16_factor() {
    // 0.5 gain on a 1.0 constant gives 0.5
    let mut s = Signal::Gain(Gain::new(Signal::Const(Const::new(ONE)), 32768));
    assert_eq!(s.sample(0), 32768);
}

#[test]
fn mixer_sums_its_inputs() {
    let mut s = Signal::Sum(Sum::new(
        Signal::Const(Const::new(100)),
        Signal::Const(Const::new(23)),
    ));
    assert_eq!(s.sample(0), 123);
}

#[test]
fn mixer_is_commutative() {
    // two stateful, different oscillators in either order
    let ab = Signal::Sum(Sum::new(osc(440 * 65536), osc(523 * 65536)));
    let ba = Signal::Sum(Sum::new(osc(523 * 65536), osc(440 * 65536)));
    let mut ab = ab;
    let mut ba = ba;
    for t in 0..200u64 {
        assert_eq!(ab.sample(t), ba.sample(t));
    }
}

#[test]
fn oscillator_output_is_full_scale_at_phase_zero() {
    let mut s = osc(440 * 65536);
    assert_eq!(s.sample(0), ONE);
}

#[test]
fn oscillator_repeats_exactly_after_one_period() {
    // 11025 Hz advances a quarter turn per tick: period of four samples
    let mut s = osc(11025 * 65536);
    let mut outs = Vec::new();
    for t in 0..12u64 {
        outs.push(s.sample(t));
    }
    assert_eq!(&outs[0..4], &[ONE, 0, -ONE, 0]);
    assert_eq!(&outs[0..4], &outs[4..8]);
    assert_eq!(&outs[0..4], &outs[8..12]);
}

#[test]
fn oscillator_tracks_a_real_cosine_of_its_frequency() {
    let f = 441.0f64;
    let mut s = osc((441 * 65536) as i64);
    for i in 0..200u64 {
        let got = s.sample(i) as f64 / 65536.0;
        let want = (std::f64::consts::TAU * f * (i as f64) / 44100.0).cos();
        assert!((got - want).abs() < 0.01, "tick {}: {} vs {}", i, got, want);
    }
}

#[test]
fn pulse_train_is_a_pure_function_of_time() {
    let mut s = Signal::Every(Every::new(100, 30));
    for t in 0..300u64 {
        let want = if t % 100 < 30 { ONE } else { 0 };
        assert_eq!(s.sample(t), want);
    }
}

#[test]
fn pulse_train_with_zero_period_is_silent() {
    let mut s = Signal::Every(Every::new(0, 30));
    for t in 0..10u64 {
        assert_eq!(s.sample(t), 0);
    }
}

#[test]
fn sample_player_plays_once_while_gated_and_rewinds_on_release() {
    // gate high for two ticks out of every four
    let gate = Signal::Every(Every::new(4, 2));
    let mut s = Signal::Sample(Sample::new(gate, vec![655, 1310, 1965]));
    assert_eq!(s.sample(0), 655);
    assert_eq!(s.sample(1), 1310);
    assert_eq!(s.sample(2), 0); // gate low: silence, cursor rewound
    assert_eq!(s.sample(3), 0);
    assert_eq!(s.sample(4), 655); // retriggered from the start
    assert_eq!(s.sample(5), 1310);
}

#[test]
fn sample_player_emits_silence_past_the_end_of_the_recording() {
    let gate = Signal::Const(Const::new(ONE));
    let mut s = Signal::Sample(Sample::new(gate, vec![7, 8]));
    assert_eq!(s.sample(0), 7);
    assert_eq!(s.sample(1), 8);
    assert_eq!(s.sample(2), 0);
    assert_eq!(s.sample(3), 0);
}

#[test]
fn duplicate_continues_exactly_where_the_original_was() {
    let mut a = osc(11025 * 65536);
    // advance the original's phase by three quarter turns
    for t in 0..3u64 {
        a.sample(t);
    }
    let mut b = a.duplicate();
    // both produce the continuation of the original's sequence
    let mut a_outs = Vec::new();
    let mut b_outs = Vec::new();
    for t in 3..11u64 {
        a_outs.push(a.sample(t));
        b_outs.push(b.sample(t));
    }
    assert_eq!(a_outs, b_outs);
    assert_eq!(&a_outs[0..4], &[0, ONE, 0, -ONE]);
}

#[test]
fn duplicate_is_independent_of_the_original() {
    let mut a = osc(11025 * 65536);
    a.sample(0);
    let mut b = a.duplicate();
    let mut c = a.duplicate();
    // drive the original hard; b must behave exactly like the untouched c
    for t in 0..50u64 {
        a.sample(t);
    }
    for t in 0..8u64 {
        assert_eq!(b.sample(t), c.sample(t));
    }
}

#[test]
fn duplicate_copies_a_playback_cursor() {
    let gate = Signal::Const(Const::new(ONE));
    let mut s = Signal::Sample(Sample::new(gate, vec![10, 20, 30, 40]));
    s.sample(0);
    s.sample(1);
    let mut d = s.duplicate();
    assert_eq!(d.sample(2), 30);
    assert_eq!(d.sample(3), 40);
}
