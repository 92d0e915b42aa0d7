//! The render loop: drive a composed signal tree through a fixed number of
//! frames, sampling the root exactly once per frame at time `i` ticks,
//! scaling by a master volume and placing the mono result in a stereo frame.

use vstd::prelude::*;
use crate::fixed::{amp_ok, mul_amp, mul_q16, ONE};
use crate::signals::{spec_sample, SigView, Signal};

verus! {

/// The tree after `n` ticks, having been sampled at times `0, 1, ..., n-1`.
pub open spec fn run_n(v: SigView, n: nat) -> SigView
    decreases n,
{
    if n == 0 {
        v
    } else {
        spec_sample(run_n(v, (n - 1) as nat), n - 1).0
    }
}

/// The amplitude the tree emits at tick `i` of such a run.
pub open spec fn out_at(v: SigView, i: nat) -> int {
    spec_sample(run_n(v, i), i as int).1
}

/// The left- and right-channel gains of a pan position: zero is centered
/// (both channels at full gain), a positive pan lowers the left channel
/// linearly, a negative one the right.
pub open spec fn pan_gains(pan: int) -> (int, int) {
    (
        (ONE as int) - (
        if pan > 0 {
            pan
        } else {
            0
        }),
        (ONE as int) + (
        if pan < 0 {
            pan
        } else {
            0
        }),
    )
}

/// Split an amplitude into a stereo pair by a Q16.16 pan position in
/// `[-ONE, ONE]`.
pub fn pan_split(amp: i64, pan: i64) -> (r: (i64, i64))
    requires
        amp_ok(amp),
        -(ONE as int) <= pan as int <= ONE as int,
    ensures
        r.0 as int == mul_q16(amp as int, pan_gains(pan as int).0),
        r.1 as int == mul_q16(amp as int, pan_gains(pan as int).1),
        amp_ok(r.0),
        amp_ok(r.1),
{
    let lg: i64 = if pan > 0 {
        ONE - pan
    } else {
        ONE
    };
    let rg: i64 = if pan < 0 {
        ONE + pan
    } else {
        ONE
    };
    (mul_amp(amp, lg), mul_amp(amp, rg))
}

/// One stereo frame of a run: the tick's amplitude scaled by the master
/// volume, then split by the pan position.
pub open spec fn spec_frame(v: SigView, i: nat, volume: int, pan: int) -> (int, int) {
    let a = mul_q16(out_at(v, i), volume);
    (mul_q16(a, pan_gains(pan).0), mul_q16(a, pan_gains(pan).1))
}

/// Render `frames` stereo frames from the root signal: at each tick the root
/// is sampled exactly once, at time `i`; no other call touches it.
#[verifier::loop_isolation(false)]
pub fn render(signal: &mut Signal, frames: usize, volume: i64, pan: i64) -> (out: Vec<(i64, i64)>)
    requires
        old(signal)@.wf(),
        amp_ok(volume),
        -(ONE as int) <= pan as int <= ONE as int,
    ensures
        out@.len() == frames as int,
        final(signal)@ == run_n(old(signal)@, frames as nat),
        forall|i: int|
            0 <= i < frames as int ==> ((#[trigger] out@[i]).0 as int == spec_frame(
                old(signal)@,
                i as nat,
                volume as int,
                pan as int,
            ).0 && out@[i].1 as int == spec_frame(
                old(signal)@,
                i as nat,
                volume as int,
                pan as int,
            ).1),
        final(signal)@.wf(),
{
    let ghost orig = old(signal)@;
    let mut out: Vec<(i64, i64)> = Vec::new();
    let mut i: usize = 0;
    while i < frames
        invariant
            i <= frames,
            out@.len() == i,
            signal@ == run_n(orig, i as nat),
            signal@.wf(),
            forall|j: int|
                0 <= j < i as int ==> ((#[trigger] out@[j]).0 as int == spec_frame(
                    orig,
                    j as nat,
                    volume as int,
                    pan as int,
                ).0 && out@[j].1 as int == spec_frame(orig, j as nat, volume as int, pan as int).1),
        decreases frames - i,
    {
        let t: u64 = i as u64;
        let sample = signal.sample(t);
        proof {
            assert(run_n(orig, i as nat + 1) == spec_sample(run_n(orig, i as nat), i as int).0);
            assert(sample as int == out_at(orig, i as nat));
        }
        let scaled = mul_amp(sample, volume);
        let frame = pan_split(scaled, pan);
        out.push(frame);
        i = i + 1;
    }
    out
}

} // verus!
