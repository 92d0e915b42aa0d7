//! Laws of the signal graph, stated over views and proved once and for all:
//! how an oscillator's phase evolves and when it repeats, that the step
//! sequencer loops and hands each segment a local time, that mixing is
//! commutative, and that a duplicated tree evolves independently.

use vstd::prelude::*;
use crate::fixed::{clip_amp, spec_cos, spec_phase_inc, TURN};
use crate::signals::{spec_sample, SigView};
use crate::steps::{find_seg, offset_of, sum_durs};
use vstd::arithmetic::div_mod::{
    lemma_add_mod_noop, lemma_mod_bound, lemma_mod_multiples_vanish, lemma_mod_twice,
    lemma_small_mod,
};

verus! {

/// The tree after being sampled once at each time in `ts`, in order.
pub open spec fn run_times(v: SigView, ts: Seq<int>) -> SigView
    decreases ts.len(),
{
    if ts.len() == 0 {
        v
    } else {
        run_times(spec_sample(v, ts[0]).0, ts.drop_first())
    }
}

/// The amplitudes produced by sampling once at each time in `ts`, in order.
pub open spec fn outputs(v: SigView, ts: Seq<int>) -> Seq<int>
    decreases ts.len(),
{
    if ts.len() == 0 {
        Seq::empty()
    } else {
        seq![spec_sample(v, ts[0]).1] + outputs(spec_sample(v, ts[0]).0, ts.drop_first())
    }
}

/// A constant-frequency oscillator at a given phase.
pub open spec fn osc(f: int, phase: int) -> SigView {
    SigView::Sine { freq: Box::new(SigView::Const { value: f }), phase }
}

/// One sample of a constant-frequency oscillator: the engine's cosine of the
/// current phase comes out, and the phase advances by the frequency's
/// per-tick increment, modulo a whole turn.
pub proof fn lemma_osc_step(f: int, phase: int, t: int)
    ensures
        spec_sample(osc(f, phase), t) == (
            osc(f, (phase + spec_phase_inc(f)) % (TURN as int)),
            spec_cos(phase),
        ),
{
    assert(spec_sample(SigView::Const { value: f }, t) == (SigView::Const { value: f }, f));
}

/// After sampling a constant-frequency oscillator once per entry of `ts`,
/// its phase is the starting phase plus one increment per sample, modulo a
/// whole turn — whatever the times were, since a constant frequency ignores
/// them.
pub proof fn lemma_osc_phase(f: int, phase: int, ts: Seq<int>)
    requires
        0 <= phase < TURN as int,
    ensures
        run_times(osc(f, phase), ts) == osc(
            f,
            (phase + ts.len() * spec_phase_inc(f)) % (TURN as int),
        ),
    decreases ts.len(),
{
    let tt = TURN as int;
    let d = spec_phase_inc(f);
    assert(d >= 0);
    if ts.len() == 0 {
        assert(phase * 0 == 0) by (nonlinear_arith);
        lemma_small_mod(phase as nat, TURN as nat);
    } else {
        lemma_osc_step(f, phase, ts[0]);
        let p1 = (phase + d) % tt;
        lemma_mod_bound(phase + d, tt);
        lemma_osc_phase(f, p1, ts.drop_first());
        let n = ts.len() as int;
        let rest = (n - 1) * d;
        assert((n - 1) * d >= 0) by (nonlinear_arith)
            requires
                d >= 0,
                n >= 1,
        ;
        // fold the inner reduction into one: ((x % T) + r) % T == (x + r) % T
        lemma_mod_twice(phase + d, tt);
        lemma_add_mod_noop(p1, rest, tt);
        lemma_add_mod_noop(phase + d, rest, tt);
        assert((p1 + rest) % tt == (phase + d + rest) % tt);
        assert(d + (n - 1) * d == n * d) by (nonlinear_arith);
        assert(run_times(osc(f, phase), ts) == run_times(osc(f, p1), ts.drop_first()));
    }
}

/// Oscillator periodicity: when a whole number of samples advances the phase
/// by a whole number of turns — one period of the frequency — the oscillator
/// returns to exactly its starting state, so any sampling that follows
/// produces exactly what it produced from the start.
pub proof fn lemma_oscillator_periodic(f: int, phase: int, ts: Seq<int>, after: Seq<int>)
    requires
        0 <= phase < TURN as int,
        (ts.len() * spec_phase_inc(f)) % (TURN as int) == 0,
    ensures
        run_times(osc(f, phase), ts) == osc(f, phase),
        outputs(run_times(osc(f, phase), ts), after) == outputs(osc(f, phase), after),
{
    let tt = TURN as int;
    let d = spec_phase_inc(f);
    let n = ts.len() as int;
    let nd = n * d;
    lemma_osc_phase(f, phase, ts);
    assert(n * d >= 0) by (nonlinear_arith)
        requires
            d >= 0,
            n >= 0,
    ;
    lemma_small_mod(phase as nat, TURN as nat);
    lemma_add_mod_noop(phase, nd, tt);
    assert(((phase % tt) + (nd % tt)) % tt == (phase + nd) % tt);
    assert((phase + nd) % tt == phase);
}

/// Step-sequencer looping: the sequencer is a pure function of the time
/// modulo its total duration, so shifting the time by any whole number of
/// loops changes neither the output nor the successor state.
pub proof fn lemma_step_looping(steps: Seq<(SigView, int)>, t: int, k: int)
    requires
        sum_durs(steps) > 0,
        0 <= t,
        0 <= k,
    ensures
        spec_sample(SigView::Step { steps, total: sum_durs(steps) }, t + k * sum_durs(steps))
            == spec_sample(SigView::Step { steps, total: sum_durs(steps) }, t),
{
    let total = sum_durs(steps);
    lemma_mod_multiples_vanish(k, t, total);
    assert(total * k + t == t + k * total) by (nonlinear_arith);
    assert((t + k * total) % total == t % total);
}

/// Step-sequencer local time: within a two-segment sequence, a time that
/// falls in the second segment's window samples that segment's sub-signal at
/// the time elapsed since the segment began — not at the absolute time.
pub proof fn lemma_step_local_time(a: SigView, d1: int, b: SigView, d2: int, t: int)
    requires
        0 <= d1 <= t,
        t < d1 + d2,
    ensures
        ({
            let v = SigView::Step { steps: seq![(a, d1), (b, d2)], total: d1 + d2 };
            let (b2, out) = spec_sample(b, t - d1);
            spec_sample(v, t) == (
                SigView::Step { steps: seq![(a, d1), (b2, d2)], total: d1 + d2 },
                out,
            )
        }),
{
    let ss = seq![(a, d1), (b, d2)];
    let total = d1 + d2;
    assert(ss.drop_first() == seq![(b, d2)]);
    assert(seq![(b, d2)].drop_first() =~= Seq::<(SigView, int)>::empty());
    assert(sum_durs(seq![(b, d2)].drop_first()) == 0);
    assert(sum_durs(seq![(b, d2)]) == d2);
    assert(sum_durs(ss) == d1 + d2);
    lemma_small_mod(t as nat, total as nat);
    assert(t % total == t);
    assert(find_seg(seq![(b, d2)], t - d1) == 0);
    assert(find_seg(ss, t) == 1);
    assert(ss.take(1) =~= seq![(a, d1)]);
    assert(seq![(a, d1)].drop_first() =~= Seq::<(SigView, int)>::empty());
    assert(sum_durs(seq![(a, d1)].drop_first()) == 0);
    assert(sum_durs(ss.take(1)) == d1);
    assert(offset_of(ss, 1) == d1);
    let (b2, out) = spec_sample(b, t - d1);
    assert(ss.update(1, (b2, ss[1].1)) =~= seq![(a, d1), (b2, d2)]);
}

/// Mixer commutativity: summing two sub-signals in either order produces the
/// same amplitude, and the two sub-signals advance to the same states.
pub proof fn lemma_mixer_commutative(a: SigView, b: SigView, t: int)
    ensures
        spec_sample(SigView::Sum { a: Box::new(a), b: Box::new(b) }, t).1 == spec_sample(
            SigView::Sum { a: Box::new(b), b: Box::new(a) },
            t,
        ).1,
        spec_sample(SigView::Sum { a: Box::new(a), b: Box::new(b) }, t).0 == (SigView::Sum {
            a: Box::new(spec_sample(a, t).0),
            b: Box::new(spec_sample(b, t).0),
        }),
        spec_sample(SigView::Sum { a: Box::new(b), b: Box::new(a) }, t).0 == (SigView::Sum {
            a: Box::new(spec_sample(b, t).0),
            b: Box::new(spec_sample(a, t).0),
        }),
{
    let oa = spec_sample(a, t).1;
    let ob = spec_sample(b, t).1;
    assert(clip_amp(oa + ob) == clip_amp(ob + oa));
}

/// Duplicate independence: a duplicate is the very same tree value
/// ([`crate::signals::Signal::duplicate`] ensures `r@ == self@`), and a run
/// is a function of a tree value and its own sample times alone — so however
/// one copy is driven, the other's outputs and states are untouched, and the
/// duplicate behaves exactly as a continuation of the original would.
pub proof fn lemma_duplicate_independence(
    original: SigView,
    duplicate: SigView,
    ts_original: Seq<int>,
    ts_duplicate: Seq<int>,
)
    requires
        duplicate == original,
    ensures
        outputs(duplicate, ts_duplicate) == outputs(original, ts_duplicate),
        run_times(duplicate, ts_duplicate) == run_times(original, ts_duplicate),
        outputs(original, ts_original) == outputs(duplicate, ts_original),
{
}

} // verus!
