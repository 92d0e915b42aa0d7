//! The melody builder: a pure transformation from a list of notes and a
//! tempo to a pair of looping step sequences, one carrying each note's voice
//! and one carrying a gate that articulates it.
//!
//! A note is `(frequency, duration)`: the frequency in Q16.16 Hz and the
//! duration in millibeats (a thousandth of a beat). With the tempo in beats
//! per minute, a millibeat lasts `60 * SAMPLE_RATE / (1000 * bpm)` ticks,
//! i.e. `2646 / bpm`; durations in ticks are rounded down.
//!
//! Each note's voice is a harmonic stack: the saturating sum of ten
//! oscillators at integer multiples of the note's frequency, each scaled by a
//! fixed volume table (a piano-like timbre). A gate sequence holds its level
//! high for the note's duration less a fixed 20-millibeat silence gap, then
//! low for the gap, so consecutive notes retrigger the envelope; a note
//! shorter than the gap is all silence, never a negative segment.

use vstd::prelude::*;
use crate::fixed::{amp_in, amp_ok, clip, clip_amp, ONE};
use crate::signals::{
    lemma_view_steps, view_sig, view_steps, Const, Gain, SigView, Signal, Sine, StepSignal, Sum,
};
use crate::steps::{lemma_sum_durs_bound, lemma_sum_durs_peel_last, sum_durs};

verus! {

/// Ticks per millibeat, scaled by the tempo: a millibeat at `bpm` beats per
/// minute lasts `MB_TICK_SCALE / bpm` ticks (`60 * SAMPLE_RATE / 1000`).
pub const MB_TICK_SCALE: u64 = 2646;

/// The forced silence between consecutive notes, in millibeats (0.02 beats).
pub const SILENCE_MILLIBEATS: u64 = 20;

/// Largest note duration the builder accepts, in millibeats.
pub const MAX_NOTE_MILLIBEATS: u64 = 1000000000;

/// Largest number of notes the builder accepts.
pub const MAX_NOTES: usize = 1000000;

/// The Q16.16 volumes of the first ten harmonics of a piano-like voice.
pub open spec fn harmonic_volumes() -> Seq<int> {
    seq![45875int, 15925int, 15008int, 6226int, 9110int, 5702int, 18874int, 13042int, 8126int, 5898int]
}

/// The harmonic-volume table as a vector.
pub fn harmonics() -> (r: Vec<i64>)
    ensures
        r@.map_values(|x: i64| x as int) == harmonic_volumes(),
        forall|i: int| 0 <= i < r@.len() ==> amp_ok(#[trigger] r@[i]),
        r@.len() == 10,
{
    let mut r: Vec<i64> = Vec::new();
    r.push(45875);
    r.push(15925);
    r.push(15008);
    r.push(6226);
    r.push(9110);
    r.push(5702);
    r.push(18874);
    r.push(13042);
    r.push(8126);
    r.push(5898);
    proof {
        assert(r@.map_values(|x: i64| x as int) =~= harmonic_volumes());
    }
    r
}

/// The voice of one note: for volumes `v_1 .. v_n`, the saturating sum
/// `gain(osc(1 * base), v_1) + ... + gain(osc(n * base), v_n)` folded over a
/// zero constant, every oscillator starting at phase zero and every multiple
/// of the base frequency clipped to the amplitude range.
pub open spec fn harmonic_stack(base: int, vols: Seq<int>) -> SigView
    decreases vols.len(),
{
    if vols.len() == 0 {
        SigView::Const { value: 0 }
    } else {
        SigView::Sum {
            a: Box::new(harmonic_stack(base, vols.drop_last())),
            b: Box::new(
                SigView::Gain {
                    inner: Box::new(
                        SigView::Sine {
                            freq: Box::new(
                                SigView::Const { value: clip_amp(base * vols.len() as int) },
                            ),
                            phase: 0,
                        },
                    ),
                    gain: vols[vols.len() - 1],
                },
            ),
        }
    }
}

/// A harmonic stack over in-range volumes is well formed.
pub proof fn lemma_harmonic_stack_wf(base: int, vols: Seq<int>)
    requires
        forall|i: int| 0 <= i < vols.len() ==> amp_in(#[trigger] vols[i]),
    ensures
        harmonic_stack(base, vols).wf(),
    decreases vols.len(),
{
    if vols.len() > 0 {
        assert(forall|i: int|
            0 <= i < vols.drop_last().len() ==> amp_in(#[trigger] vols.drop_last()[i]));
        lemma_harmonic_stack_wf(base, vols.drop_last());
        let c = SigView::Const { value: clip_amp(base * vols.len() as int) };
        let o = SigView::Sine { freq: Box::new(c), phase: 0 };
        let g = SigView::Gain { inner: Box::new(o), gain: vols[vols.len() - 1] };
        assert(c.wf());
        assert(o.wf());
        assert(g.wf());
        assert(harmonic_stack(base, vols) == (SigView::Sum {
            a: Box::new(harmonic_stack(base, vols.drop_last())),
            b: Box::new(g),
        }));
    }
}

/// Build one note's harmonic-stack voice from its base frequency and a
/// volume table.
#[verifier::loop_isolation(false)]
pub fn play_note(base_freq: Const, harmonics: &Vec<i64>) -> (r: Signal)
    requires
        amp_ok(base_freq.value),
        harmonics@.len() <= 65536,
        forall|i: int| 0 <= i < harmonics@.len() ==> amp_ok(#[trigger] harmonics@[i]),
    ensures
        r@ == harmonic_stack(base_freq.value as int, harmonics@.map_values(|x: i64| x as int)),
        r@.wf(),
{
    let ghost vols = harmonics@.map_values(|x: i64| x as int);
    let mut acc: Signal = Signal::Const(Const::new(0));
    let mut i: usize = 0;
    while i < harmonics.len()
        invariant
            i <= harmonics@.len(),
            acc@ == harmonic_stack(base_freq.value as int, vols.take(i as int)),
            acc@.wf(),
        decreases harmonics@.len() - i,
    {
        let k: i64 = (i as i64) + 1;
        proof {
            assert(base_freq.value as int * k as int <= 0x1000000000000
                && -0x1000000000000 <= base_freq.value as int * k as int) by (nonlinear_arith)
                requires
                    -0x80000000 <= base_freq.value as int <= 0x80000000,
                    1 <= k as int <= 65537,
            ;
        }
        let freq = clip(base_freq.value * k);
        let s_osc = Signal::Sine(Sine::new_from_const(freq));
        let ghost v_osc = s_osc@;
        proof {
            assert(view_sig(Signal::Const(Const { value: freq })) == (SigView::Const {
                value: freq as int,
            }));
            assert(v_osc == (SigView::Sine {
                freq: Box::new(SigView::Const { value: freq as int }),
                phase: 0,
            }));
            assert((SigView::Const { value: freq as int }).wf());
            assert(v_osc.wf());
        }
        let s_gain = Signal::Gain(Gain { signal: Box::new(s_osc), gain: harmonics[i] });
        let ghost v_gain = s_gain@;
        proof {
            assert(v_gain == (SigView::Gain { inner: Box::new(v_osc), gain: vols[i as int] }));
        }
        let ghost v_acc = acc@;
        acc = Signal::Sum(Sum { a: Box::new(acc), b: Box::new(s_gain) });
        proof {
            let taken = vols.take(i as int + 1);
            assert(taken.drop_last() == vols.take(i as int));
            assert(taken[taken.len() - 1] == vols[i as int]);
            assert(acc@ == (SigView::Sum { a: Box::new(v_acc), b: Box::new(v_gain) }));
            assert(acc@ == harmonic_stack(base_freq.value as int, taken));
            assert(v_gain.wf());
        }
        i = i + 1;
    }
    proof {
        assert(vols.take(vols.len() as int) == vols);
    }
    acc
}

/// A chord: the voices of several base frequencies summed over a zero
/// constant, in order.
pub open spec fn chord_stack(freqs: Seq<int>, vols: Seq<int>) -> SigView
    decreases freqs.len(),
{
    if freqs.len() == 0 {
        SigView::Const { value: 0 }
    } else {
        SigView::Sum {
            a: Box::new(chord_stack(freqs.drop_last(), vols)),
            b: Box::new(harmonic_stack(freqs[freqs.len() - 1], vols)),
        }
    }
}

/// Build a chord signal: one harmonic-stack voice per base frequency, summed.
#[verifier::loop_isolation(false)]
pub fn chord_signal(base_freqs: &Vec<i64>, harmonics: &Vec<i64>) -> (r: Signal)
    requires
        forall|i: int| 0 <= i < base_freqs@.len() ==> amp_ok(#[trigger] base_freqs@[i]),
        harmonics@.len() <= 65536,
        forall|i: int| 0 <= i < harmonics@.len() ==> amp_ok(#[trigger] harmonics@[i]),
    ensures
        r@ == chord_stack(
            base_freqs@.map_values(|x: i64| x as int),
            harmonics@.map_values(|x: i64| x as int),
        ),
        r@.wf(),
{
    let ghost fv = base_freqs@.map_values(|x: i64| x as int);
    let mut acc: Signal = Signal::Const(Const::new(0));
    let mut i: usize = 0;
    while i < base_freqs.len()
        invariant
            i <= base_freqs@.len(),
            acc@ == chord_stack(fv.take(i as int), harmonics@.map_values(|x: i64| x as int)),
            acc@.wf(),
        decreases base_freqs@.len() - i,
    {
        let voice = play_note(Const::new(base_freqs[i]), harmonics);
        acc = Signal::Sum(Sum { a: Box::new(acc), b: Box::new(voice) });
        proof {
            let taken = fv.take(i as int + 1);
            assert(taken.drop_last() == fv.take(i as int));
            assert(taken[taken.len() - 1] == fv[i as int]);
        }
        i = i + 1;
    }
    proof {
        assert(fv.take(fv.len() as int) == fv);
    }
    acc
}


/// Ticks of one whole note at the given tempo, rounded down.
pub open spec fn spec_note_ticks(dur: int, bpm: int) -> int {
    dur * 2646 / bpm
}

/// Ticks of the forced silence after a note, capped at the note's own length
/// so a note shorter than the gap never yields a negative gate segment.
pub open spec fn spec_gate_off(dur: int, bpm: int) -> int {
    let off = 20int * 2646 / bpm;
    if off <= spec_note_ticks(dur, bpm) {
        off
    } else {
        spec_note_ticks(dur, bpm)
    }
}

/// Ticks a note's gate stays high: the note's length less the silence gap.
pub open spec fn spec_gate_on(dur: int, bpm: int) -> int {
    spec_note_ticks(dur, bpm) - spec_gate_off(dur, bpm)
}

/// The frequency step sequence of a melody: one segment per note, carrying
/// the note's harmonic-stack voice for the note's whole duration.
pub open spec fn freq_steps(notes: Seq<(int, int)>, bpm: int, vols: Seq<int>) -> Seq<
    (SigView, int),
> {
    Seq::new(
        notes.len(),
        |i: int| (harmonic_stack(notes[i].0, vols), spec_note_ticks(notes[i].1, bpm)),
    )
}

/// A melody's gate step sequence: per note, a full-scale segment while
/// the note sounds, then a zero segment for the silence gap.
pub open spec fn gate_steps(notes: Seq<(int, int)>, bpm: int) -> Seq<(SigView, int)> {
    Seq::new(
        2 * notes.len(),
        |j: int|
            if j % 2 == 0 {
                (SigView::Const { value: ONE as int }, spec_gate_on(notes[j / 2].1, bpm))
            } else {
                (SigView::Const { value: 0 }, spec_gate_off(notes[j / 2].1, bpm))
            },
    )
}

/// Turn a note list and a tempo into the melody's two step sequences: the
/// first carries each note's voice, the second a gate that articulates it.
/// Notes are `(frequency in Q16.16 Hz, duration in millibeats)`.
#[verifier::loop_isolation(false)]
pub fn generate_melody(notes: &Vec<(i64, u64)>, bpm: u32) -> (r: (Signal, Signal))
    requires
        1 <= bpm,
        notes@.len() <= MAX_NOTES as int,
        forall|i: int| 0 <= i < notes@.len() ==> amp_ok((#[trigger] notes@[i]).0),
        forall|i: int| 0 <= i < notes@.len() ==> (#[trigger] notes@[i]).1 <= MAX_NOTE_MILLIBEATS,
    ensures
        ({
            let nv = notes@.map_values(|p: (i64, u64)| (p.0 as int, p.1 as int));
            let fsteps = freq_steps(nv, bpm as int, harmonic_volumes());
            let gsteps = gate_steps(nv, bpm as int);
            &&& r.0@ == (SigView::Step { steps: fsteps, total: sum_durs(fsteps) })
            &&& r.1@ == (SigView::Step { steps: gsteps, total: sum_durs(gsteps) })
            &&& r.0@.wf()
            &&& r.1@.wf()
        }),
{
    let ghost nv = notes@.map_values(|p: (i64, u64)| (p.0 as int, p.1 as int));
    let vols_vec = harmonics();
    let ghost hv = harmonic_volumes();
    let ghost fsteps = freq_steps(nv, bpm as int, hv);
    let ghost gsteps = gate_steps(nv, bpm as int);
    let mut freqs: Vec<(Signal, u64)> = Vec::new();
    let mut gates: Vec<(Signal, u64)> = Vec::new();
    let mut i: usize = 0;
    while i < notes.len()
        invariant
            i <= notes@.len(),
            freqs@.len() == i,
            gates@.len() == 2 * i,
            view_steps(freqs@) == fsteps.take(i as int),
            view_steps(gates@) == gsteps.take(2 * i as int),
            forall|j: int| 0 <= j < freqs@.len() ==> #[trigger] freqs@[j].1 <= 2646000000000,
            forall|j: int| 0 <= j < gates@.len() ==> #[trigger] gates@[j].1 <= 2646000000000,
        decreases notes@.len() - i,
    {
        let note = notes[i];
        let dur = note.1;
        proof {
            assert(dur * MB_TICK_SCALE <= 2646000000000) by (nonlinear_arith)
                requires
                    0 <= dur <= 1000000000,
                    MB_TICK_SCALE == 2646,
            ;
        }
        let scaled = dur * MB_TICK_SCALE;
        let full = scaled / (bpm as u64);
        let offc = (SILENCE_MILLIBEATS * MB_TICK_SCALE) / (bpm as u64);
        let off = if offc < full {
            offc
        } else {
            full
        };
        let on = full - off;
        proof {
            assert(full <= scaled) by (nonlinear_arith)
                requires
                    1 <= bpm as int,
                    0 <= scaled,
                    full as int == scaled as int / bpm as int,
            ;
        }
        let voice = play_note(Const::new(note.0), &vols_vec);
        let ghost v_voice = voice@;
        let ghost fprev = freqs@;
        freqs.push((voice, full));
        let s_on = Signal::Const(Const::new(ONE));
        let s_off = Signal::Const(Const::new(0));
        let ghost gprev = gates@;
        gates.push((s_on, on));
        let ghost gmid = gates@;
        gates.push((s_off, off));
        proof {
            lemma_view_steps(fprev);
            lemma_view_steps(freqs@);
            assert(v_voice == fsteps[i as int].0);
            assert(full as int == spec_note_ticks(nv[i as int].1, bpm as int));
            assert forall|j: int|
                0 <= j < freqs@.len() implies view_steps(freqs@)[j] == fsteps.take(i as int + 1)[j] by {
                if j < i as int {
                    assert(freqs@[j] == fprev[j]);
                    assert(view_steps(fprev)[j] == fsteps.take(i as int)[j]);
                }
            }
            assert(view_steps(freqs@) =~= fsteps.take(i as int + 1));

            lemma_view_steps(gprev);
            lemma_view_steps(gmid);
            lemma_view_steps(gates@);
            assert(on as int == spec_gate_on(nv[i as int].1, bpm as int));
            assert(off as int == spec_gate_off(nv[i as int].1, bpm as int));
            assert forall|j: int|
                0 <= j < gates@.len() implies view_steps(gates@)[j] == gsteps.take(
                2 * (i as int + 1),
            )[j] by {
                if j < 2 * i as int {
                    assert(gates@[j] == gprev[j]);
                    assert(view_steps(gprev)[j] == gsteps.take(2 * i as int)[j]);
                } else if j == 2 * i as int {
                    assert(gates@[j] == gmid[j]);
                    assert(view_sig(gates@[j].0) == (SigView::Const { value: ONE as int }));
                } else {
                    assert(view_sig(gates@[j].0) == (SigView::Const { value: 0 }));
                }
            }
            assert(view_steps(gates@) =~= gsteps.take(2 * (i as int + 1)));
        }
        i = i + 1;
    }
    proof {
        assert(fsteps.take(fsteps.len() as int) == fsteps);
        assert(gsteps.take(gsteps.len() as int) == gsteps);
        lemma_view_steps(freqs@);
        lemma_view_steps(gates@);
        assert forall|j: int| 0 <= j < fsteps.len() implies 0 <= #[trigger] fsteps[j].1
            <= 2646000000000 by {
            assert(fsteps[j].1 == freqs@[j].1 as int);
        }
        assert forall|j: int| 0 <= j < gsteps.len() implies 0 <= #[trigger] gsteps[j].1
            <= 2646000000000 by {
            assert(gsteps[j].1 == gates@[j].1 as int);
        }
        lemma_sum_durs_bound(fsteps, 2646000000000);
        lemma_sum_durs_bound(gsteps, 2646000000000);
        assert(fsteps.len() * 2646000000000 <= 2646000000000000000000) by (nonlinear_arith)
            requires
                0 <= fsteps.len() <= 1000000,
        ;
        assert(gsteps.len() * 2646000000000 <= 5292000000000000000) by (nonlinear_arith)
            requires
                0 <= gsteps.len() <= 2000000,
        ;
    }
    let freq_sig = StepSignal::new(freqs);
    let gate_sig = StepSignal::new(gates);
    proof {
        assert forall|j: int| 0 <= j < fsteps.len() implies (#[trigger] fsteps[j]).0.wf() by {
            assert(forall|k: int| 0 <= k < hv.len() ==> amp_in(#[trigger] hv[k]));
            lemma_harmonic_stack_wf(nv[j].0, hv);
        }
        crate::signals::lemma_wf_steps(fsteps);
        assert forall|j: int| 0 <= j < gsteps.len() implies (#[trigger] gsteps[j]).0.wf() by {}
        crate::signals::lemma_wf_steps(gsteps);
    }
    (Signal::Step(freq_sig), Signal::Step(gate_sig))
}


/// The two sequences a melody builds span exactly the same total duration —
/// each note's high and low gate segments add up to the note's whole length —
/// so the frequency and gate sequences loop in lockstep.
pub proof fn lemma_melody_totals(notes: Seq<(int, int)>, bpm: int, vols: Seq<int>)
    ensures
        sum_durs(gate_steps(notes, bpm)) == sum_durs(freq_steps(notes, bpm, vols)),
    decreases notes.len(),
{
    let f = freq_steps(notes, bpm, vols);
    let g = gate_steps(notes, bpm);
    if notes.len() == 0 {
        assert(sum_durs(f) == 0);
        assert(sum_durs(g) == 0);
    } else {
        let n = notes.len() as int;
        let prev = notes.drop_last();
        lemma_melody_totals(prev, bpm, vols);
        let fp = freq_steps(prev, bpm, vols);
        let gp = gate_steps(prev, bpm);
        assert(f.drop_last() =~= fp);
        assert(g.drop_last().drop_last() =~= gp);
        lemma_sum_durs_peel_last(f);
        lemma_sum_durs_peel_last(g);
        lemma_sum_durs_peel_last(g.drop_last());
        assert((2 * n - 1) / 2 == n - 1 && (2 * n - 1) % 2 == 1);
        assert((2 * n - 2) / 2 == n - 1 && (2 * n - 2) % 2 == 0);
        assert(g[2 * n - 1].1 == spec_gate_off(notes[n - 1].1, bpm));
        assert(g.drop_last()[2 * n - 2] == g[2 * n - 2]);
        assert(g[2 * n - 2].1 == spec_gate_on(notes[n - 1].1, bpm));
        assert(f[n - 1].1 == spec_note_ticks(notes[n - 1].1, bpm));
    }
}

} // verus!
