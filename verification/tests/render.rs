use synth::fixed::ONE;
use synth::render::{pan_split, render};
use synth::signals::{Const, Gain, Signal, Sine};

#[test]
fn pan_zero_is_centered() {
    assert_eq!(pan_split(12345, 0), (12345, 12345));
    assert_eq!(pan_split(-12345, 0), (-12345, -12345));
}

#[test]
fn pan_hard_right_silences_the_left_channel() {
    assert_eq!(pan_split(12345, ONE), (0, 12345));
    assert_eq!(pan_split(12345, -ONE), (12345, 0));
}

#[test]
fn pan_halfway_scales_one_channel_by_half() {
    assert_eq!(pan_split(20000, 32768), (10000, 20000));
}

#[test]
fn render_scales_by_the_master_volume() {
    let mut s = Signal::Const(Const::new(ONE));
    let frames = render(&mut s, 16, 32768, 0);
    assert_eq!(frames.len(), 16);
    for f in frames {
        assert_eq!(f, (32768, 32768));
    }
}

#[test]
fn render_samples_each_tick_once_in_order() {
    // a looping two-step gate seen through the render loop
    let mut s = Signal::Every(synth::signals::Every::new(4, 2));
    let frames = render(&mut s, 8, ONE, 0);
    let want = [ONE, ONE, 0, 0, ONE, ONE, 0, 0];
    for (i, f) in frames.iter().enumerate() {
        assert_eq!(*f, (want[i], want[i]));
    }
}

#[test]
fn one_second_of_a_halved_oscillator() {
    // a 440 Hz oscillator in a 0.5 gain, rendered for one second: the first
    // frame is 0.5 * cos(0) = 0.5 on both channels, and the RMS amplitude
    // over the second is close to 0.5 / sqrt(2)
    let osc = Signal::Sine(Sine::new_from_const(440 * 65536));
    let mut s = Signal::Gain(Gain::new(osc, 32768));
    let frames = render(&mut s, 44100, ONE, 0);
    assert_eq!(frames.len(), 44100);
    assert_eq!(frames[0], (32768, 32768));

    let mut sum_sq = 0.0f64;
    for f in &frames {
        let x = f.0 as f64 / 65536.0;
        sum_sq += x * x;
    }
    let rms = (sum_sq / 44100.0).sqrt();
    let want = 0.5 / 2.0f64.sqrt();
    assert!((rms - want).abs() < 0.005, "rms {} vs {}", rms, want);
}
