use synth::fixed::{clip, cos_q, mul_amp, phase_inc, sat_add, AMP_MAX, ONE, QUARTER, TURN};

#[test]
fn clip_passes_in_range_values() {
    assert_eq!(clip(0), 0);
    assert_eq!(clip(65536), 65536);
    assert_eq!(clip(-65536), -65536);
    assert_eq!(clip(AMP_MAX), AMP_MAX);
    assert_eq!(clip(-AMP_MAX), -AMP_MAX);
}

#[test]
fn clip_saturates_out_of_range_values() {
    assert_eq!(clip(AMP_MAX + 1), AMP_MAX);
    assert_eq!(clip(5000000000), AMP_MAX);
    assert_eq!(clip(-5000000000), -AMP_MAX);
}

#[test]
fn sat_add_is_exact_until_the_rail() {
    assert_eq!(sat_add(65536, 32768), 98304);
    assert_eq!(sat_add(-65536, 65536), 0);
    assert_eq!(sat_add(2000000000, 2000000000), AMP_MAX);
    assert_eq!(sat_add(-2000000000, -2000000000), -AMP_MAX);
}

#[test]
fn mul_amp_is_a_q16_product_toward_zero() {
    // 1.5 * 0.5 == 0.75
    assert_eq!(mul_amp(98304, 32768), 49152);
    assert_eq!(mul_amp(-98304, 32768), -49152);
    assert_eq!(mul_amp(98304, -32768), -49152);
    assert_eq!(mul_amp(-98304, -32768), 49152);
    // multiplying by full scale is the identity
    assert_eq!(mul_amp(12345, ONE), 12345);
    assert_eq!(mul_amp(-12345, ONE), -12345);
    // tiny products round toward zero, not toward minus infinity
    assert_eq!(mul_amp(1, 1), 0);
    assert_eq!(mul_amp(-1, 1), 0);
}

#[test]
fn cosine_hits_the_cardinal_points_exactly() {
    assert_eq!(cos_q(0), ONE);
    assert_eq!(cos_q(QUARTER), 0);
    assert_eq!(cos_q(2 * QUARTER), -ONE);
    assert_eq!(cos_q(3 * QUARTER), 0);
}

#[test]
fn cosine_an_eighth_of_a_turn_in() {
    // the quarter-wave polynomial at u = QUARTER/2, computed by hand
    assert_eq!(cos_q(QUARTER / 2), 46280);
}

#[test]
fn cosine_stays_within_full_scale_and_tracks_the_real_cosine() {
    let n = 1000u64;
    for i in 0..n {
        let p = i * (TURN / n);
        let got = cos_q(p);
        assert!(-ONE <= got && got <= ONE);
        let x = (p as f64) / (TURN as f64) * std::f64::consts::TAU;
        let want = x.cos();
        assert!(((got as f64) / 65536.0 - want).abs() < 0.01);
    }
}

#[test]
fn phase_increment_matches_the_frequency() {
    // 11025 Hz at 44100 ticks per second is a quarter turn per tick
    assert_eq!(phase_inc(11025 * 65536), QUARTER);
    // 22050 Hz is half a turn
    assert_eq!(phase_inc(22050 * 65536), 2 * QUARTER);
    // a non-positive frequency does not move the phase
    assert_eq!(phase_inc(0), 0);
    assert_eq!(phase_inc(-65536), 0);
}
