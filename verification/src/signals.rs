//! The signal graph: every generator is a tree of `Signal` nodes, sampled
//! once per tick. Sampling a node returns one amplitude and advances the
//! node's internal state (an oscillator phase, an envelope level, a playback
//! cursor) exactly once, so a node must be sampled once per frame.
//!
//! The mathematical model of a tree is its [`SigView`]: the same tree over
//! `int`, `Seq` and [`Envelope`]. What [`Signal::sample`] computes and how it
//! moves the state is stated once, by [`spec_sample`] on views, and every
//! node's behaviour is proved against it.

use vstd::prelude::*;
use crate::envelope::{Envelope, Stage};
use crate::fixed::{
    amp_in, amp_ok, clip_amp, cos_q, mul_amp, mul_q16, phase_inc, sat_add, spec_cos,
    spec_phase_inc, AMP_MAX, ONE, TURN,
};
use crate::fixed::lemma_cos_bounds;
use crate::steps::{
    durs_nonneg, find_seg, lemma_find_seg_at, lemma_find_seg_in_range, lemma_offset_monotone,
    lemma_offset_step, lemma_offset_total, lemma_sum_durs_same, offset_of, sum_durs,
};

verus! {

/// A constant amplitude; also serves as a literal frequency or gate level.
pub struct Const {
    pub value: i64,
}

/// A cosine oscillator: the output is the engine's cosine of an internal
/// phase, and the phase advances each tick by the frequency sub-signal's
/// current output (Q16.16 Hz) as a fraction of a whole turn.
pub struct Sine {
    pub freq: Box<Signal>,
    pub state: u64,
}

/// A sub-signal scaled by a constant Q16.16 factor.
pub struct Gain {
    pub signal: Box<Signal>,
    pub gain: i64,
}

/// The saturating sum of two sub-signals.
pub struct Sum {
    pub a: Box<Signal>,
    pub b: Box<Signal>,
}

/// A pulse train: `ONE` while `t mod period < duration`, else silence.
/// A pure function of absolute time; no state.
pub struct Every {
    pub period: u64,
    pub duration: u64,
}

/// An ADSR envelope shaping an input sub-signal by a gate sub-signal: the
/// gate is read as a boolean (`> 0`), the envelope machine ticks once, and
/// the output is the input's sample scaled by the machine's current level.
pub struct Adsr {
    pub gate: Box<Signal>,
    pub input: Box<Signal>,
    pub env: Envelope,
}

/// One-shot playback of a recorded sequence of samples, triggered by a gate
/// sub-signal: while it reads high the cursor walks the recording once and
/// then emits silence; a low reading emits silence and rewinds the cursor.
pub struct Sample {
    pub gate: Box<Signal>,
    pub samples: Vec<i64>,
    pub index: usize,
}

/// A looping, time-sliced concatenation of sub-signals: time is wrapped
/// around the total duration, the ordered segments partition it, and the
/// selected segment's sub-signal is sampled at a local, zero-based time.
pub struct StepSignal {
    pub steps: Vec<(Signal, u64)>,
    pub total_time: u64,
}

/// The tree of signal generators.
pub enum Signal {
    Const(Const),
    Sine(Sine),
    Gain(Gain),
    Sum(Sum),
    Adsr(Adsr),
    Sample(Sample),
    Every(Every),
    Step(StepSignal),
}

/// The mathematical mirror of a [`Signal`] tree.
pub enum SigView {
    Const { value: int },
    Sine { freq: Box<SigView>, phase: int },
    Gain { inner: Box<SigView>, gain: int },
    Sum { a: Box<SigView>, b: Box<SigView> },
    Adsr { gate: Box<SigView>, input: Box<SigView>, env: Envelope },
    Sample { gate: Box<SigView>, samples: Seq<int>, index: int },
    Every { period: int, duration: int },
    Step { steps: Seq<(SigView, int)>, total: int },
}

/// The view of a signal tree.
pub open spec fn view_sig(s: Signal) -> SigView
    decreases s,
{
    match s {
        Signal::Const(c) => SigView::Const { value: c.value as int },
        Signal::Sine(o) => SigView::Sine { freq: Box::new(view_sig(*o.freq)), phase: o.state as int },
        Signal::Gain(g) => SigView::Gain {
            inner: Box::new(view_sig(*g.signal)),
            gain: g.gain as int,
        },
        Signal::Sum(m) => SigView::Sum {
            a: Box::new(view_sig(*m.a)),
            b: Box::new(view_sig(*m.b)),
        },
        Signal::Adsr(a) => SigView::Adsr {
            gate: Box::new(view_sig(*a.gate)),
            input: Box::new(view_sig(*a.input)),
            env: a.env,
        },
        Signal::Sample(p) => SigView::Sample {
            gate: Box::new(view_sig(*p.gate)),
            samples: p.samples@.map_values(|x: i64| x as int),
            index: p.index as int,
        },
        Signal::Every(e) => SigView::Every { period: e.period as int, duration: e.duration as int },
        Signal::Step(st) => SigView::Step {
            steps: view_steps(st.steps@),
            total: st.total_time as int,
        },
    }
}

/// The view of a step list: each sub-signal viewed, each duration widened.
pub open spec fn view_steps(ss: Seq<(Signal, u64)>) -> Seq<(SigView, int)>
    decreases ss,
{
    if ss.len() == 0 {
        Seq::empty()
    } else {
        view_steps(ss.drop_last()).push((view_sig(ss[ss.len() - 1].0), ss[ss.len() - 1].1 as int))
    }
}

/// The step-list view is pointwise: same length, each pair viewed in place.
pub proof fn lemma_view_steps(ss: Seq<(Signal, u64)>)
    ensures
        view_steps(ss).len() == ss.len(),
        forall|i: int|
            0 <= i < ss.len() ==> #[trigger] view_steps(ss)[i] == (view_sig(ss[i].0), ss[i].1 as int),
    decreases ss.len(),
{
    if ss.len() > 0 {
        lemma_view_steps(ss.drop_last());
    }
}

impl View for Signal {
    type V = SigView;

    open spec fn view(&self) -> SigView {
        view_sig(*self)
    }
}

impl SigView {
    /// Every stored amplitude is in range, every phase within a turn:
    /// what constructors establish and sampling preserves.
    pub open spec fn wf(self) -> bool
        decreases self,
    {
        match self {
            SigView::Const { value } => amp_in(value),
            SigView::Sine { freq, phase } => 0 <= phase < TURN as int && freq.wf(),
            SigView::Gain { inner, gain } => amp_in(gain) && inner.wf(),
            SigView::Sum { a, b } => a.wf() && b.wf(),
            SigView::Adsr { gate, input, env } => env.wf() && gate.wf() && input.wf(),
            SigView::Sample { gate, samples, index } => {
                &&& gate.wf()
                &&& forall|i: int| 0 <= i < samples.len() ==> amp_in(#[trigger] samples[i])
                &&& 0 <= index <= samples.len()
            },
            SigView::Every { period, duration } => 0 <= period && 0 <= duration,
            SigView::Step { steps, total } => {
                &&& durs_nonneg(steps)
                &&& total == sum_durs(steps)
                &&& wf_steps(steps)
            },
        }
    }
}

/// Every sub-signal of a step list is well formed.
pub open spec fn wf_steps(ss: Seq<(SigView, int)>) -> bool
    decreases ss,
{
    if ss.len() == 0 {
        true
    } else {
        ss[ss.len() - 1].0.wf() && wf_steps(ss.drop_last())
    }
}

/// The pointwise reading of `wf_steps`.
pub proof fn lemma_wf_steps(ss: Seq<(SigView, int)>)
    ensures
        wf_steps(ss) <==> (forall|i: int| 0 <= i < ss.len() ==> (#[trigger] ss[i]).0.wf()),
    decreases ss.len(),
{
    if ss.len() > 0 {
        lemma_wf_steps(ss.drop_last());
        if wf_steps(ss) {
            assert forall|i: int| 0 <= i < ss.len() implies (#[trigger] ss[i]).0.wf() by {
                if i < ss.len() - 1 {
                    assert(ss.drop_last()[i] == ss[i]);
                }
            }
        }
        if forall|i: int| 0 <= i < ss.len() ==> (#[trigger] ss[i]).0.wf() {
            assert forall|i: int|
                0 <= i < ss.drop_last().len() implies (#[trigger] ss.drop_last()[i]).0.wf() by {
                assert(ss.drop_last()[i] == ss[i]);
            }
        }
    }
}

/// One sampling step on views: the new tree and the amplitude produced, for
/// a tick at absolute time `t`.
pub open spec fn spec_sample(v: SigView, t: int) -> (SigView, int)
    decreases v,
{
    match v {
        SigView::Const { value } => (v, value),
        SigView::Sine { freq, phase } => {
            let (freq2, fo) = spec_sample(*freq, t);
            (
                SigView::Sine {
                    freq: Box::new(freq2),
                    phase: (phase + spec_phase_inc(fo)) % (TURN as int),
                },
                spec_cos(phase),
            )
        },
        SigView::Gain { inner, gain } => {
            let (inner2, o) = spec_sample(*inner, t);
            (SigView::Gain { inner: Box::new(inner2), gain }, mul_q16(o, gain))
        },
        SigView::Sum { a, b } => {
            let (a2, oa) = spec_sample(*a, t);
            let (b2, ob) = spec_sample(*b, t);
            (SigView::Sum { a: Box::new(a2), b: Box::new(b2) }, clip_amp(oa + ob))
        },
        SigView::Adsr { gate, input, env } => {
            let (gate2, go) = spec_sample(*gate, t);
            let env2 = env.spec_tick(go > 0);
            let (input2, io) = spec_sample(*input, t);
            (
                SigView::Adsr { gate: Box::new(gate2), input: Box::new(input2), env: env2 },
                mul_q16(env2.level(), io),
            )
        },
        SigView::Sample { gate, samples, index } => {
            let (gate2, go) = spec_sample(*gate, t);
            if go <= 0 {
                (SigView::Sample { gate: Box::new(gate2), samples, index: 0 }, 0)
            } else if index < samples.len() {
                (
                    SigView::Sample { gate: Box::new(gate2), samples, index: index + 1 },
                    samples[index],
                )
            } else {
                (SigView::Sample { gate: Box::new(gate2), samples, index }, 0)
            }
        },
        SigView::Every { period, duration } => (
            v,
            if period > 0 && t % period < duration {
                ONE as int
            } else {
                0
            },
        ),
        SigView::Step { steps, total } => {
            if total <= 0 {
                (v, 0)
            } else {
                let tm = t % total;
                let i = find_seg(steps, tm);
                if i < 0 {
                    (v, 0)
                } else {
                    proof {
                        crate::steps::lemma_find_seg_range(steps, tm);
                        assert(decreases_to!(v => steps));
                        assert(decreases_to!(steps => steps[i]));
                        assert(decreases_to!(steps[i] => steps[i].0));
                    }
                    let (sub2, o) = spec_sample(steps[i].0, tm - offset_of(steps, i));
                    (SigView::Step { steps: steps.update(i, (sub2, steps[i].1)), total }, o)
                }
            }
        },
    }
}

impl Signal {
    /// Produce the amplitude for the tick at absolute time `t`, advancing the
    /// node's internal state exactly once, as `spec_sample` states.
    #[verifier::loop_isolation(false)]
    pub fn sample(&mut self, t: u64) -> (out: i64)
        requires
            old(self)@.wf(),
        ensures
            (final(self)@, out as int) == spec_sample(old(self)@, t as int),
            final(self)@.wf(),
            amp_ok(out),
        decreases *old(self),
    {
        match self {
            Signal::Const(c) => c.value,
            Signal::Sine(o) => {
                let out = cos_q(o.state);
                proof {
                    lemma_cos_bounds(o.state as int);
                }
                let fo = o.freq.sample(t);
                o.state = (o.state + phase_inc(fo)) % TURN;
                out
            },
            Signal::Gain(g) => {
                let o = g.signal.sample(t);
                mul_amp(o, g.gain)
            },
            Signal::Sum(m) => {
                let oa = m.a.sample(t);
                let ob = m.b.sample(t);
                sat_add(oa, ob)
            },
            Signal::Adsr(a) => {
                let go = a.gate.sample(t);
                a.env.tick(go > 0);
                let io = a.input.sample(t);
                let level = envelope_level(&a.env);
                mul_amp(level, io)
            },
            Signal::Sample(p) => {
                let go = p.gate.sample(t);
                if go <= 0 {
                    p.index = 0;
                    0
                } else if p.index < p.samples.len() {
                    let s = p.samples[p.index];
                    p.index = p.index + 1;
                    s
                } else {
                    0
                }
            },
            Signal::Every(e) => {
                if e.period > 0 && t % e.period < e.duration {
                    ONE
                } else {
                    0
                }
            },
            Signal::Step(st) => {
                if st.total_time == 0 {
                    0
                } else {
                    let ghost ss0 = st.steps@;
                    let ghost vss = view_steps(ss0);
                    let ghost total = st.total_time as int;
                    let tm = t % st.total_time;
                    proof {
                        lemma_view_steps(ss0);
                        lemma_wf_steps(vss);
                        lemma_find_seg_in_range(vss, tm as int);
                    }
                    let ghost target = find_seg(vss, tm as int);
                    let mut i: usize = 0;
                    let mut acc: u64 = 0;
                    while i < st.steps.len()
                        invariant
                            st.steps@ == ss0,
                            st.total_time as int == total,
                            0 <= i <= ss0.len(),
                            acc as int == offset_of(vss, i as int),
                            acc <= tm,
                        decreases ss0.len() - i,
                    {
                        let dur = st.steps[i].1;
                        proof {
                            lemma_offset_step(vss, i as int);
                            lemma_offset_monotone(vss, i as int + 1, vss.len() as int);
                            lemma_offset_total(vss);
                        }
                        if tm < acc + dur {
                            proof {
                                lemma_find_seg_at(vss, tm as int, i as int);
                                let st0 = old(self)->Step_0;
                                assert(decreases_to!(*old(self) => st0));
                                assert(decreases_to!(st0 => st0.steps));
                                assert(decreases_to!(st0.steps => st0.steps@));
                                assert(st0.steps@ == ss0);
                                assert(decreases_to!(ss0 => ss0[i as int]));
                                assert(decreases_to!(ss0[i as int] => ss0[i as int].0));
                            }
                            let local = tm - acc;
                            let elem = &mut st.steps[i];
                            let out = elem.0.sample(local);
                            proof {
                                let ss1 = ss0.update(i as int, *final(elem));
                                lemma_view_steps(ss1);
                                let w = (view_sig(final(elem).0), ss0[i as int].1 as int);
                                assert(view_steps(ss1) =~= vss.update(i as int, w));
                                lemma_sum_durs_same(vss, vss.update(i as int, w));
                                lemma_wf_steps(vss.update(i as int, w));
                            }
                            return out;
                        }
                        acc = acc + dur;
                        i = i + 1;
                    }
                    proof {
                        lemma_offset_total(vss);
                        assert(false);
                    }
                    0
                }
            },
        }
    }

    /// An independent deep copy: the copy is the same tree value, state
    /// included, so driven with the same times it behaves exactly as a
    /// continuation of the original would, and neither copy can affect the
    /// other.
    #[verifier::loop_isolation(false)]
    pub fn duplicate(&self) -> (r: Signal)
        ensures
            r@ == self@,
        decreases *self,
    {
        match self {
            Signal::Const(c) => Signal::Const(Const { value: c.value }),
            Signal::Sine(o) => Signal::Sine(
                Sine { freq: Box::new(o.freq.duplicate()), state: o.state },
            ),
            Signal::Gain(g) => Signal::Gain(
                Gain { signal: Box::new(g.signal.duplicate()), gain: g.gain },
            ),
            Signal::Sum(m) => Signal::Sum(
                Sum { a: Box::new(m.a.duplicate()), b: Box::new(m.b.duplicate()) },
            ),
            Signal::Adsr(a) => Signal::Adsr(
                Adsr {
                    gate: Box::new(a.gate.duplicate()),
                    input: Box::new(a.input.duplicate()),
                    env: a.env,
                },
            ),
            Signal::Sample(p) => {
                let mut samples: Vec<i64> = Vec::new();
                let mut i: usize = 0;
                while i < p.samples.len()
                    invariant
                        i <= p.samples.len(),
                        samples@ == p.samples@.take(i as int),
                    decreases p.samples.len() - i,
                {
                    samples.push(p.samples[i]);
                    i = i + 1;
                }
                proof {
                    assert(samples@ == p.samples@);
                }
                Signal::Sample(
                    Sample { gate: Box::new(p.gate.duplicate()), samples, index: p.index },
                )
            },
            Signal::Every(e) => Signal::Every(Every { period: e.period, duration: e.duration }),
            Signal::Step(st) => {
                let ghost ss0 = st.steps@;
                let mut steps: Vec<(Signal, u64)> = Vec::new();
                let mut i: usize = 0;
                while i < st.steps.len()
                    invariant
                        st.steps@ == ss0,
                        i <= ss0.len(),
                        view_steps(steps@) == view_steps(ss0.take(i as int)),
                        steps@.len() == i,
                    decreases ss0.len() - i,
                {
                    proof {
                        let st0 = self->Step_0;
                        assert(decreases_to!(*self => st0));
                        assert(decreases_to!(st0 => st0.steps));
                        assert(decreases_to!(st0.steps => st0.steps@));
                        assert(st0.steps@ == ss0);
                        assert(decreases_to!(ss0 => ss0[i as int]));
                        assert(decreases_to!(ss0[i as int] => ss0[i as int].0));
                    }
                    let elem = &st.steps[i];
                    let sig = elem.0.duplicate();
                    let dur = elem.1;
                    let ghost prev = steps@;
                    let ghost sigv = sig@;
                    steps.push((sig, dur));
                    proof {
                        lemma_view_steps(prev);
                        lemma_view_steps(steps@);
                        lemma_view_steps(ss0.take(i as int));
                        lemma_view_steps(ss0.take(i as int + 1));
                        assert(sigv == view_sig(ss0[i as int].0));
                        assert forall|j: int|
                            0 <= j < steps@.len() implies view_steps(steps@)[j] == view_steps(
                            ss0.take(i as int + 1),
                        )[j] by {
                            assert(ss0.take(i as int + 1)[j] == ss0[j]);
                            if j < i as int {
                                assert(steps@[j] == prev[j]);
                                assert(view_steps(prev)[j] == view_steps(ss0.take(i as int))[j]);
                                assert(ss0.take(i as int)[j] == ss0[j]);
                            } else {
                                assert(view_sig(steps@[j].0) == sigv);
                            }
                        }
                        assert(view_steps(steps@) =~= view_steps(ss0.take(i as int + 1)));
                    }
                    i = i + 1;
                }
                proof {
                    assert(ss0.take(ss0.len() as int) == ss0);
                }
                Signal::Step(StepSignal { steps, total_time: st.total_time })
            },
        }
    }
}

/// The Q16.16 amplitude a well-formed envelope currently applies: its level
/// in amplitude units, between zero and its peak.
fn envelope_level(env: &Envelope) -> (r: i64)
    requires
        env.wf(),
    ensures
        r as int == env.level(),
        amp_ok(r),
        0 <= r,
{
    proof {
        assert(0 <= env.value as int / 65536 <= env.peak_level) by (nonlinear_arith)
            requires
                0 <= env.value as int <= env.peak_level * 65536,
        ;
    }
    let q = (env.value as u64) / 65536;
    proof {
        assert(env.value as int / 65536 == env.value as u64 as int / 65536);
    }
    q as i64
}


/// Default envelope peak level: full scale.
pub const ADSR_PEAK_LEVEL: i64 = 65536;

/// Default attack duration: 0.01 s of ticks.
pub const ADSR_ATTACK: u64 = 441;

/// Default decay duration: 0.3 s of ticks.
pub const ADSR_DECAY: u64 = 13230;

/// Default sustain level: half scale.
pub const ADSR_SUSTAIN_LEVEL: i64 = 32768;

/// Default release duration: 0.01 s of ticks.
pub const ADSR_RELEASE: u64 = 441;

impl Const {
    /// A constant signal holding `value`.
    pub fn new(value: i64) -> (c: Const)
        requires
            amp_ok(value),
        ensures
            c.value == value,
    {
        Const { value }
    }
}

impl Sine {
    /// An oscillator at phase zero driven by the given frequency signal.
    pub fn new(freq: Signal) -> (o: Sine)
        ensures
            *o.freq == freq,
            o.state == 0,
    {
        Sine { freq: Box::new(freq), state: 0 }
    }

    /// An oscillator at phase zero with a fixed frequency (Q16.16 Hz).
    pub fn new_from_const(freq: i64) -> (o: Sine)
        requires
            amp_ok(freq),
        ensures
            *o.freq == Signal::Const(Const { value: freq }),
            o.state == 0,
    {
        Sine { freq: Box::new(Signal::Const(Const::new(freq))), state: 0 }
    }
}

impl Gain {
    /// `signal` scaled by the Q16.16 factor `gain`.
    pub fn new(signal: Signal, gain: i64) -> (g: Gain)
        requires
            amp_ok(gain),
        ensures
            *g.signal == signal,
            g.gain == gain,
    {
        Gain { signal: Box::new(signal), gain }
    }
}

impl Sum {
    /// The saturating sum of `a` and `b`.
    pub fn new(a: Signal, b: Signal) -> (m: Sum)
        ensures
            *m.a == a,
            *m.b == b,
    {
        Sum { a: Box::new(a), b: Box::new(b) }
    }
}

impl Adsr {
    /// An idle envelope with the default configuration (peak 1.0, attack
    /// 0.01 s, decay 0.3 s, sustain 0.5, release 0.01 s), gated by `gate`
    /// and shaping `input`.
    pub fn new(gate: Signal, input: Signal) -> (a: Adsr)
        ensures
            *a.gate == gate,
            *a.input == input,
            a.env == (Envelope {
                stage: Stage::Idle,
                peak_level: ADSR_PEAK_LEVEL,
                attack: ADSR_ATTACK,
                decay: ADSR_DECAY,
                sustain_level: ADSR_SUSTAIN_LEVEL,
                release: ADSR_RELEASE,
                beg_value: 0,
                value: 0,
                gate_last: false,
            }),
            a.env.wf(),
    {
        Adsr {
            gate: Box::new(gate),
            input: Box::new(input),
            env: Envelope::new(
                ADSR_PEAK_LEVEL,
                ADSR_ATTACK,
                ADSR_DECAY,
                ADSR_SUSTAIN_LEVEL,
                ADSR_RELEASE,
            ),
        }
    }

    /// An envelope-shaped signal with an explicit machine configuration.
    pub fn with_envelope(gate: Signal, input: Signal, env: Envelope) -> (a: Adsr)
        ensures
            *a.gate == gate,
            *a.input == input,
            a.env == env,
    {
        Adsr { gate: Box::new(gate), input: Box::new(input), env }
    }
}

impl Sample {
    /// A player over an already-decoded recording, triggered by `gate`,
    /// with its cursor at the start.
    pub fn new(gate: Signal, samples: Vec<i64>) -> (p: Sample)
        requires
            forall|i: int| 0 <= i < samples@.len() ==> amp_ok(#[trigger] samples@[i]),
        ensures
            *p.gate == gate,
            p.samples@ == samples@,
            p.index == 0,
    {
        Sample { gate: Box::new(gate), samples, index: 0 }
    }
}

impl Every {
    /// A pulse train of the given period and pulse duration, in ticks.
    pub fn new(period: u64, duration: u64) -> (e: Every)
        ensures
            e.period == period,
            e.duration == duration,
    {
        Every { period, duration }
    }
}

impl StepSignal {
    /// A looping sequence of the given `(sub-signal, duration)` segments;
    /// the total time is the sum of the durations.
    #[verifier::loop_isolation(false)]
    pub fn new(steps: Vec<(Signal, u64)>) -> (r: StepSignal)
        requires
            sum_durs(view_steps(steps@)) <= u64::MAX,
        ensures
            r.steps@ == steps@,
            r.total_time as int == sum_durs(view_steps(steps@)),
    {
        let ghost vss = view_steps(steps@);
        proof {
            lemma_view_steps(steps@);
            assert(durs_nonneg(vss));
        }
        let mut total: u64 = 0;
        let mut i: usize = 0;
        while i < steps.len()
            invariant
                0 <= i <= steps@.len(),
                total as int == offset_of(vss, i as int),
            decreases steps@.len() - i,
        {
            proof {
                lemma_offset_step(vss, i as int);
                lemma_offset_monotone(vss, i as int + 1, vss.len() as int);
                lemma_offset_total(vss);
            }
            total = total + steps[i].1;
            i = i + 1;
        }
        proof {
            lemma_offset_total(vss);
        }
        StepSignal { steps, total_time: total }
    }
}

} // verus!
