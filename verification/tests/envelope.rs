use synth::envelope::{Envelope, Stage};
use synth::fixed::ONE;
use synth::signals::{Adsr, Const, Signal, StepSignal};

#[test]
fn envelope_walks_its_ramps_tick_by_tick() {
    // peak 1.0, sustain 0.5, each phase four ticks long
    let mut e = Envelope::new(65536, 4, 4, 32768, 4);
    let peak_q: i64 = 65536 * 65536;
    let sus_q: i64 = 32768 * 65536;
    let step_a = peak_q / 4;
    let step_d = (peak_q - sus_q) / 4;

    assert_eq!(e.stage, Stage::Idle);
    e.tick(true); // rising edge, first attack step
    assert_eq!(e.stage, Stage::Attack);
    assert_eq!(e.value, step_a);
    e.tick(true);
    e.tick(true);
    assert_eq!(e.value, 3 * step_a);
    e.tick(true); // reaches the peak: clamp and enter decay
    assert_eq!(e.stage, Stage::Decay);
    assert_eq!(e.value, peak_q);
    e.tick(true);
    assert_eq!(e.value, peak_q - step_d);
    e.tick(true);
    e.tick(true);
    e.tick(true); // reaches the sustain level: clamp and hold
    assert_eq!(e.stage, Stage::Sustain);
    assert_eq!(e.value, sus_q);
    e.tick(true);
    assert_eq!(e.value, sus_q);

    e.tick(false); // falling edge: release from the sustain level
    assert_eq!(e.stage, Stage::Release);
    let step_r = sus_q / 4;
    assert_eq!(e.value, sus_q - step_r);
    e.tick(false);
    e.tick(false);
    e.tick(false);
    assert_eq!(e.stage, Stage::Idle);
    assert_eq!(e.value, 0);
}

#[test]
fn envelope_holds_exactly_the_sustain_level_while_gated() {
    // the default configuration: attack 441 ticks, decay 13230 ticks
    let mut e = Envelope::new(65536, 441, 13230, 32768, 441);
    for _ in 0..(1 + 441 + 13230) {
        e.tick(true);
    }
    assert_eq!(e.stage, Stage::Sustain);
    assert_eq!(e.value, 32768i64 * 65536);
    for _ in 0..2000 {
        e.tick(true);
        assert_eq!(e.stage, Stage::Sustain);
        assert_eq!(e.value, 32768i64 * 65536);
    }
}

#[test]
fn envelope_full_cycle_passes_the_stages_in_order_and_ends_empty() {
    // one second high, one second low, at the default configuration
    let mut e = Envelope::new(65536, 441, 13230, 32768, 441);
    let mut stages: Vec<Stage> = vec![e.stage];
    for _ in 0..44100 {
        e.tick(true);
        if *stages.last().unwrap() != e.stage {
            stages.push(e.stage);
        }
    }
    assert_eq!(e.stage, Stage::Sustain);
    assert_eq!(e.value, 32768i64 * 65536);
    for _ in 0..44100 {
        e.tick(false);
        if *stages.last().unwrap() != e.stage {
            stages.push(e.stage);
        }
    }
    assert_eq!(
        stages,
        vec![Stage::Idle, Stage::Attack, Stage::Decay, Stage::Sustain, Stage::Release, Stage::Idle]
    );
    assert_eq!(e.value, 0);
}

#[test]
fn envelope_retriggers_from_its_current_level() {
    let mut e = Envelope::new(65536, 4, 4, 32768, 8);
    // drive to sustain, release briefly, then retrigger mid-release
    for _ in 0..10 {
        e.tick(true);
    }
    assert_eq!(e.stage, Stage::Sustain);
    e.tick(false);
    assert_eq!(e.stage, Stage::Release);
    let mid = e.value;
    assert!(mid > 0);
    e.tick(true); // rising edge: attack resumes from `mid`, not from zero
    assert_eq!(e.stage, Stage::Attack);
    assert!(e.value > mid);
}

#[test]
fn adsr_signal_scales_its_input_by_the_envelope_level() {
    // gate held high, input at full scale: the output is the level itself
    let gate = Signal::Const(Const::new(ONE));
    let input = Signal::Const(Const::new(ONE));
    let mut s = Signal::Adsr(Adsr::new(gate, input));
    let mut out: i64 = 0;
    for t in 0..(1 + 441 + 13230) as u64 {
        out = s.sample(t);
    }
    // exactly the default sustain level of 0.5
    assert_eq!(out, 32768);
}

#[test]
fn adsr_accepts_a_custom_envelope_configuration() {
    // a fast envelope: peak 1.0, four-tick ramps, sustain 0.25
    let env = Envelope::new(65536, 4, 4, 16384, 4);
    let gate = Signal::Const(Const::new(ONE));
    let input = Signal::Const(Const::new(ONE));
    let mut s = Signal::Adsr(Adsr::with_envelope(gate, input, env));
    let mut out: i64 = 0;
    for t in 0..20u64 {
        out = s.sample(t);
    }
    assert_eq!(out, 16384);
}

#[test]
fn adsr_over_a_step_gate_rings_and_falls_silent() {
    // gate: one second high, one second low, looping
    let gate = Signal::Step(StepSignal::new(vec![
        (Signal::Const(Const::new(ONE)), 44100),
        (Signal::Const(Const::new(0)), 44100),
    ]));
    let input = Signal::Const(Const::new(ONE));
    let mut s = Signal::Adsr(Adsr::new(gate, input));
    let mut outs: Vec<i64> = Vec::new();
    for t in 0..88200u64 {
        outs.push(s.sample(t));
    }
    // sustained at 0.5 before its gate drops
    assert_eq!(outs[44099], 32768);
    // silent at the end of the low second (release is 441 ticks)
    assert_eq!(outs[88199], 0);
    // and through most of the tail
    assert_eq!(outs[50000], 0);
}
