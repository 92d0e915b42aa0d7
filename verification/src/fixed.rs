//! Fixed-point amplitude and phase arithmetic.
//!
//! Amplitudes are Q16.16: the integer `ONE` stands for full scale 1.0. Every
//! amplitude the engine stores or emits is clipped to magnitude `AMP_MAX`
//! (32768.0 in full-scale units), which keeps all products inside `i64`.
//! Oscillator phase is a `u64` fraction of `TURN`: a phase `p` stands for
//! `p / TURN` of a whole cycle.

use vstd::prelude::*;

verus! {

/// Full scale 1.0 in Q16.16 amplitude units.
pub const ONE: i64 = 65536;

/// Largest amplitude magnitude the engine carries (2^31, i.e. 32768 full scales).
pub const AMP_MAX: i64 = 2147483648;

/// One whole oscillator cycle in phase units (2^32).
pub const TURN: u64 = 4294967296;

/// A quarter cycle in phase units (2^30).
pub const QUARTER: u64 = 1073741824;

/// Frames (ticks) per second: every signal is sampled at this fixed rate,
/// and one unit of time is one frame.
pub const SAMPLE_RATE: u64 = 44100;

/// Curvature of the quarter-cosine wave in Q16.16 (about 0.2337).
pub const COS_CURVE: u64 = 15316;

/// An integer within the range the engine guarantees for every amplitude.
pub open spec fn amp_in(x: int) -> bool {
    -(AMP_MAX as int) <= x <= AMP_MAX as int
}

/// An amplitude within the range the engine guarantees for every sample.
pub open spec fn amp_ok(a: i64) -> bool {
    amp_in(a as int)
}

/// Magnitude of an integer.
pub open spec fn iabs(x: int) -> int {
    if x < 0 {
        -x
    } else {
        x
    }
}

/// Saturation to the amplitude range: values beyond `AMP_MAX` in magnitude
/// are clamped, everything else passes through unchanged.
pub open spec fn clip_amp(x: int) -> int {
    if x < -(AMP_MAX as int) {
        -(AMP_MAX as int)
    } else if x > AMP_MAX as int {
        AMP_MAX as int
    } else {
        x
    }
}

/// Clamp an amplitude to the engine's range.
pub fn clip(x: i64) -> (r: i64)
    ensures
        r as int == clip_amp(x as int),
        amp_ok(r),
{
    if x < -AMP_MAX {
        -AMP_MAX
    } else if x > AMP_MAX {
        AMP_MAX
    } else {
        x
    }
}

/// Saturating amplitude addition: the exact sum, clipped to the range.
pub fn sat_add(a: i64, b: i64) -> (r: i64)
    requires
        amp_ok(a),
        amp_ok(b),
    ensures
        r as int == clip_amp(a as int + b as int),
        amp_ok(r),
{
    clip(a + b)
}

/// Q16.16 product rounded toward zero, then clipped: the meaning of scaling
/// one amplitude by another (a gain, an envelope level).
pub open spec fn mul_q16(a: int, b: int) -> int {
    let m = (iabs(a) * iabs(b)) / (ONE as int);
    clip_amp(
        if a * b >= 0 {
            m
        } else {
            -m
        },
    )
}

/// Multiply two amplitudes in Q16.16 (rounding toward zero), clipped.
pub fn mul_amp(a: i64, b: i64) -> (r: i64)
    requires
        amp_ok(a),
        amp_ok(b),
    ensures
        r as int == mul_q16(a as int, b as int),
        amp_ok(r),
{
    let neg = (a < 0) != (b < 0);
    let ma: u64 = if a < 0 {
        (-a) as u64
    } else {
        a as u64
    };
    let mb: u64 = if b < 0 {
        (-b) as u64
    } else {
        b as u64
    };
    proof {
        assert(ma as int == iabs(a as int));
        assert(mb as int == iabs(b as int));
        assert(ma as int * mb as int <= 0x4000000000000000) by (nonlinear_arith)
            requires
                0 <= ma as int <= 0x80000000,
                0 <= mb as int <= 0x80000000,
        ;
    }
    let p: u64 = ma * mb;
    let q: u64 = p / 65536;
    proof {
        assert(q <= p) by {
            vstd::arithmetic::div_mod::lemma_div_is_ordered_by_denominator(p as int, 1, 65536);
        }
        assert((a as int) * (b as int) >= 0 ==> iabs((a as int) * (b as int)) == (a as int) * (
        b as int)) by (nonlinear_arith);
        if a < 0 && b < 0 {
            assert((a as int) * (b as int) == ma as int * mb as int) by (nonlinear_arith)
                requires
                    ma as int == -(a as int),
                    mb as int == -(b as int),
            ;
        }
        if a >= 0 && b >= 0 {
            assert((a as int) * (b as int) >= 0) by (nonlinear_arith)
                requires
                    a as int >= 0,
                    b as int >= 0,
            ;
        }
        if a < 0 && b >= 0 {
            assert((a as int) * (b as int) == -(ma as int * mb as int)) by (nonlinear_arith)
                requires
                    ma as int == -(a as int),
                    mb as int == b as int,
            ;
        }
        if a >= 0 && b < 0 {
            assert((a as int) * (b as int) == -(ma as int * mb as int)) by (nonlinear_arith)
                requires
                    ma as int == a as int,
                    mb as int == -(b as int),
            ;
        }
    }
    let s: i64 = if neg {
        -(q as i64)
    } else {
        q as i64
    };
    clip(s)
}

/// The quarter-cosine wave in Q16.16: for `u` phase units into the quarter
/// cycle (`0 <= u <= QUARTER`), the value `(1 - x^2) * (1 - 0.2337 x^2)`
/// where `x = u / QUARTER`, a close polynomial fit of `cos(x * pi/2)` that is
/// exactly `ONE` at `u == 0` and exactly `0` at `u == QUARTER`.
pub open spec fn cos_wave(u: int) -> int {
    let s = (u * u) / 17592186044416;  // x^2 in Q16.16 (2^60 / 2^44 == 2^16)
    let t = (ONE as int) - s;
    let w = (ONE as int) - (COS_CURVE as int) * s / (ONE as int);
    (t * w) / (ONE as int)
}

/// The engine's cosine waveform over a whole cycle of phase `p`
/// (`0 <= p < TURN`), assembled from the quarter wave by mirror symmetry.
pub open spec fn spec_cos(p: int) -> int {
    let q = p / (QUARTER as int);
    let r = p % (QUARTER as int);
    if q == 0 {
        cos_wave(r)
    } else if q == 1 {
        -cos_wave((QUARTER as int) - r)
    } else if q == 2 {
        -cos_wave(r)
    } else {
        cos_wave((QUARTER as int) - r)
    }
}

proof fn lemma_cos_wave_bounds(u: int)
    requires
        0 <= u <= QUARTER as int,
    ensures
        0 <= cos_wave(u) <= ONE as int,
        u == 0 ==> cos_wave(u) == ONE as int,
        u == QUARTER as int ==> cos_wave(u) == 0,
{
    let s = (u * u) / 17592186044416;
    assert(0 <= u * u <= 1152921504606846976) by (nonlinear_arith)
        requires
            0 <= u <= 1073741824,
    ;
    assert(0 <= s <= 65536) by (nonlinear_arith)
        requires
            0 <= u * u <= 1152921504606846976,
            s == (u * u) / 17592186044416,
    ;
    let t = (ONE as int) - s;
    let cs = (COS_CURVE as int) * s;
    assert(0 <= cs <= 15316 * 65536) by (nonlinear_arith)
        requires
            0 <= s <= 65536,
            cs == 15316 * s,
    ;
    let w = (ONE as int) - cs / (ONE as int);
    assert(0 <= cs / 65536 <= 15316) by (nonlinear_arith)
        requires
            0 <= cs <= 15316 * 65536,
    ;
    assert(0 <= t * w <= 65536 * 65536) by (nonlinear_arith)
        requires
            0 <= t <= 65536,
            0 <= w <= 65536,
    ;
    assert(0 <= (t * w) / (ONE as int) <= 65536) by (nonlinear_arith)
        requires
            0 <= t * w <= 65536 * 65536,
    ;
    if u == 0 {
        assert(s == 0);
        assert(t * w == 65536 * 65536);
    }
    if u == QUARTER as int {
        assert(u * u == 1152921504606846976) by (nonlinear_arith)
            requires
                u == 1073741824,
        ;
        assert(1152921504606846976int / 17592186044416 == 65536) by (nonlinear_arith);
        assert(s == 65536);
        assert(t == 0);
        assert(t * w == 0) by (nonlinear_arith)
            requires
                t == 0,
        ;
    }
}

/// The engine's cosine is bounded by full scale and hits `ONE`, `0`, `-ONE`
/// exactly at phase 0 and at the quarter- and half-cycle marks.
pub proof fn lemma_cos_bounds(p: int)
    requires
        0 <= p < TURN as int,
    ensures
        -(ONE as int) <= spec_cos(p) <= ONE as int,
        p == 0 ==> spec_cos(p) == ONE as int,
        p == QUARTER as int ==> spec_cos(p) == 0,
        p == 2 * QUARTER as int ==> spec_cos(p) == -(ONE as int),
{
    let q = p / (QUARTER as int);
    let r = p % (QUARTER as int);
    assert(0 <= r < QUARTER as int && 0 <= q <= 3 && p == q * (QUARTER as int) + r) by (
    nonlinear_arith)
        requires
            0 <= p < 4294967296,
            q == p / 1073741824,
            r == p % 1073741824,
    ;
    lemma_cos_wave_bounds(r);
    lemma_cos_wave_bounds((QUARTER as int) - r);
}

/// Exec form of the quarter wave.
fn cos_wave_x(u: u64) -> (r: i64)
    requires
        u <= QUARTER,
    ensures
        r as int == cos_wave(u as int),
        0 <= r as int <= ONE as int,
{
    proof {
        lemma_cos_wave_bounds(u as int);
        assert(u as int * u as int <= 1152921504606846976) by (nonlinear_arith)
            requires
                0 <= u as int <= 1073741824,
        ;
        assert((u as int * u as int) / 17592186044416 <= 65536) by (nonlinear_arith)
            requires
                0 <= u as int * u as int <= 1152921504606846976,
        ;
    }
    let s: u64 = (u * u) / 17592186044416;
    let t: u64 = 65536 - s;
    let w: u64 = 65536 - (COS_CURVE * s) / 65536;
    proof {
        assert(COS_CURVE * s <= 15316 * 65536) by (nonlinear_arith)
            requires
                0 <= s <= 65536,
        ;
        assert((COS_CURVE as int * s as int) / 65536 <= 15316) by (nonlinear_arith)
            requires
                0 <= COS_CURVE as int * s as int <= 15316 * 65536,
        ;
        assert(t * w <= 65536 * 65536) by (nonlinear_arith)
            requires
                0 <= t <= 65536,
                0 <= w <= 65536,
        ;
    }
    ((t * w) / 65536) as i64
}

/// The engine's cosine of a phase, exactly as `spec_cos` states it.
pub fn cos_q(p: u64) -> (r: i64)
    requires
        p < TURN,
    ensures
        r as int == spec_cos(p as int),
        -(ONE as int) <= r as int <= ONE as int,
{
    proof {
        lemma_cos_bounds(p as int);
        assert(p as int / (QUARTER as int) <= 3 && p as int % (QUARTER as int) < QUARTER as int)
            by (nonlinear_arith)
            requires
                0 <= (p as int) && (p as int) < 4294967296,
        ;
    }
    let q = p / QUARTER;
    let r = p % QUARTER;
    if q == 0 {
        cos_wave_x(r)
    } else if q == 1 {
        -cos_wave_x(QUARTER - r)
    } else if q == 2 {
        -cos_wave_x(r)
    } else {
        cos_wave_x(QUARTER - r)
    }
}

/// Phase advance per tick for a frequency signal's output `f` (Q16.16 Hz):
/// `f / SAMPLE_RATE` of a whole `TURN`, rounded down; a non-positive
/// frequency does not advance the phase.
pub open spec fn spec_phase_inc(f: int) -> int {
    if f <= 0 {
        0
    } else {
        (f * (TURN as int)) / ((SAMPLE_RATE as int) * (ONE as int))
    }
}

/// Compute the per-tick phase advance for frequency `f`.
pub fn phase_inc(f: i64) -> (r: u64)
    requires
        amp_ok(f),
    ensures
        r as int == spec_phase_inc(f as int),
        r < TURN,
{
    if f <= 0 {
        0
    } else {
        proof {
            assert(f as int * TURN as int <= 0x8000000000000000) by (nonlinear_arith)
                requires
                    0 < f as int <= 2147483648,
            ;
            assert((f as int * TURN as int) / 2890137600 < 4294967296) by (nonlinear_arith)
                requires
                    0 < f as int * TURN as int <= 0x8000000000000000,
            ;
        }
        ((f as u64) * TURN) / (SAMPLE_RATE * 65536)
    }
}

} // verus!
