//! The ADSR (attack-decay-sustain-release) envelope state machine.
//!
//! The machine is the scalar heart of the `Adsr` signal node: once per tick it
//! reads its gate input as a boolean and moves its level along one of four
//! ramps. Levels are kept in Q32.32 (`value` is the Q16.16 amplitude scaled by
//! a further 65536) so that even second-long ramps advance by a nonzero step
//! each tick; the amplitude actually applied to the input is `value / 65536`.
//!
//! A rising gate edge enters `Attack` from the current level; a falling edge
//! enters `Release` from the current level, so a retrigger ramps from wherever
//! the envelope happens to be, never from zero. Ramp steps are divided by the
//! phase duration in ticks (floored at one tick) and rounded up, so a phase
//! always completes within its configured duration.

use vstd::prelude::*;
use crate::fixed::{amp_ok, AMP_MAX};

verus! {

/// The five phases of the envelope.
#[derive(Clone, Copy, PartialEq, Eq, Structural, Debug)]
pub enum Stage {
    Idle,
    Attack,
    Decay,
    Sustain,
    Release,
}

/// The envelope machine: ramp configuration plus mutable ramp state.
///
/// `peak_level` and `sustain_level` are Q16.16 amplitudes; `attack`, `decay`
/// and `release` are phase durations in ticks; `value` and `beg_value` are
/// Q32.32 levels.
#[derive(Clone, Copy, PartialEq, Eq, Structural, Debug)]
pub struct Envelope {
    pub stage: Stage,
    pub peak_level: i64,
    pub attack: u64,
    pub decay: u64,
    pub sustain_level: i64,
    pub release: u64,
    pub beg_value: i64,
    pub value: i64,
    pub gate_last: bool,
}

/// Division rounded up (for a positive divisor).
pub open spec fn ceil_div(a: int, b: int) -> int {
    a / b + if a % b == 0 {
        0int
    } else {
        1int
    }
}

/// A duration floored at one tick, the denominator of every ramp step.
pub open spec fn at_least_one(d: u64) -> int {
    if d == 0 {
        1
    } else {
        d as int
    }
}

impl Envelope {
    /// The configuration is sane and the ramp state is within it.
    pub open spec fn wf(self) -> bool {
        &&& 0 <= self.sustain_level <= self.peak_level
        &&& self.peak_level <= AMP_MAX as int
        &&& 0 <= self.value <= self.level_peak()
        &&& 0 <= self.beg_value <= self.level_peak()
    }

    /// `peak_level` in Q32.32 level units.
    pub open spec fn level_peak(self) -> int {
        self.peak_level * 65536
    }

    /// `sustain_level` in Q32.32 level units.
    pub open spec fn level_sustain(self) -> int {
        self.sustain_level * 65536
    }

    /// The Q16.16 amplitude the envelope currently applies to its input.
    pub open spec fn level(self) -> int {
        self.value / 65536
    }

    /// Per-tick step of the attack ramp.
    pub open spec fn attack_step(self) -> int {
        ceil_div(self.level_peak(), at_least_one(self.attack))
    }

    /// Per-tick step of the decay ramp.
    pub open spec fn decay_step(self) -> int {
        ceil_div(self.level_peak() - self.level_sustain(), at_least_one(self.decay))
    }

    /// Per-tick step of the release ramp, proportional to the level the
    /// release started from.
    pub open spec fn release_step(self) -> int {
        ceil_div(self.beg_value as int, at_least_one(self.release))
    }

    /// Gate edge handling: a rising edge records the current level and enters
    /// `Attack`; a falling edge records it and enters `Release`.
    pub open spec fn spec_edge(self, gate_on: bool) -> Envelope {
        if !self.gate_last && gate_on {
            Envelope { beg_value: self.value, stage: Stage::Attack, gate_last: true, ..self }
        } else if self.gate_last && !gate_on {
            Envelope { beg_value: self.value, stage: Stage::Release, gate_last: false, ..self }
        } else {
            Envelope { gate_last: gate_on, ..self }
        }
    }

    /// One ramp move of the current phase, after edges have been handled.
    pub open spec fn spec_ramp(self) -> Envelope {
        match self.stage {
            Stage::Idle => Envelope { beg_value: 0, ..self },
            Stage::Attack => {
                let v = self.value + self.attack_step();
                if v >= self.level_peak() {
                    Envelope { value: self.level_peak() as i64, stage: Stage::Decay, ..self }
                } else {
                    Envelope { value: v as i64, ..self }
                }
            },
            Stage::Decay => {
                let v = self.value - self.decay_step();
                if v <= self.level_sustain() {
                    Envelope { value: self.level_sustain() as i64, stage: Stage::Sustain, ..self }
                } else {
                    Envelope { value: v as i64, ..self }
                }
            },
            Stage::Sustain => Envelope { value: self.level_sustain() as i64, ..self },
            Stage::Release => {
                let v = self.value - self.release_step();
                if v <= 0 {
                    Envelope { value: 0, stage: Stage::Idle, ..self }
                } else {
                    Envelope { value: v as i64, ..self }
                }
            },
        }
    }

    /// One whole tick: edges first, then one ramp move.
    pub open spec fn spec_tick(self, gate_on: bool) -> Envelope {
        self.spec_edge(gate_on).spec_ramp()
    }

    /// A fresh, idle envelope with the given ramp configuration.
    pub fn new(peak_level: i64, attack: u64, decay: u64, sustain_level: i64, release: u64) -> (e:
        Envelope)
        requires
            0 <= sustain_level <= peak_level,
            peak_level <= AMP_MAX as int,
        ensures
            e == (Envelope {
                stage: Stage::Idle,
                peak_level,
                attack,
                decay,
                sustain_level,
                release,
                beg_value: 0,
                value: 0,
                gate_last: false,
            }),
            e.wf(),
    {
        Envelope {
            stage: Stage::Idle,
            peak_level,
            attack,
            decay,
            sustain_level,
            release,
            beg_value: 0,
            value: 0,
            gate_last: false,
        }
    }

    /// Advance the machine by one tick of the given gate reading.
    pub fn tick(&mut self, gate_on: bool)
        requires
            old(self).wf(),
        ensures
            *final(self) == old(self).spec_tick(gate_on),
            final(self).wf(),
    {
        proof {
            lemma_tick_wf(*self, gate_on);
        }
        let gate_last = self.gate_last;
        if !gate_last && gate_on {
            self.beg_value = self.value;
            self.stage = Stage::Attack;
        } else if gate_last && !gate_on {
            self.beg_value = self.value;
            self.stage = Stage::Release;
        }
        self.gate_last = gate_on;

        match self.stage {
            Stage::Idle => {
                self.beg_value = 0;
            },
            Stage::Attack => {
                let peak_q = self.peak_level * 65536;
                let step = exec_ceil_div(peak_q, self.attack);
                let v = self.value + step;
                if v >= peak_q {
                    self.value = peak_q;
                    self.stage = Stage::Decay;
                } else {
                    self.value = v;
                }
            },
            Stage::Decay => {
                let peak_q = self.peak_level * 65536;
                let sus_q = self.sustain_level * 65536;
                let step = exec_ceil_div(peak_q - sus_q, self.decay);
                let v = self.value - step;
                if v <= sus_q {
                    self.value = sus_q;
                    self.stage = Stage::Sustain;
                } else {
                    self.value = v;
                }
            },
            Stage::Sustain => {
                self.value = self.sustain_level * 65536;
            },
            Stage::Release => {
                let step = exec_ceil_div(self.beg_value, self.release);
                let v = self.value - step;
                if v <= 0 {
                    self.value = 0;
                    self.stage = Stage::Idle;
                } else {
                    self.value = v;
                }
            },
        }
    }
}

/// `ceil_div(a, at_least_one(d))` for a nonnegative level `a`.
fn exec_ceil_div(a: i64, d: u64) -> (r: i64)
    requires
        0 <= a <= AMP_MAX as int * 65536,
    ensures
        r as int == ceil_div(a as int, at_least_one(d)),
        0 <= r <= a,
{
    let dd: u64 = if d == 0 {
        1
    } else {
        d
    };
    let q = (a as u64) / dd;
    let m = (a as u64) % dd;
    proof {
        assert(a as int / dd as int <= a as int) by (nonlinear_arith)
            requires
                0 <= a as int,
                1 <= dd as int,
        ;
        if m != 0 {
            assert((a as int / dd as int) < a as int) by (nonlinear_arith)
                requires
                    0 <= a as int,
                    1 <= dd as int,
                    a as int % dd as int != 0,
            ;
        }
    }
    if m == 0 {
        q as i64
    } else {
        (q as i64) + 1
    }
}

/// One tick keeps the machine well formed: the level stays between zero and
/// the configured peak.
pub proof fn lemma_tick_wf(e: Envelope, gate_on: bool)
    requires
        e.wf(),
    ensures
        e.spec_tick(gate_on).wf(),
        e.spec_tick(gate_on).peak_level == e.peak_level,
        e.spec_tick(gate_on).sustain_level == e.sustain_level,
        e.spec_tick(gate_on).attack == e.attack,
        e.spec_tick(gate_on).decay == e.decay,
        e.spec_tick(gate_on).release == e.release,
        e.spec_tick(gate_on).gate_last == gate_on,
{
    let e1 = e.spec_edge(gate_on);
    let p = e1.level_peak();
    let s = e1.level_sustain();
    assert(0 <= s <= p) by (nonlinear_arith)
        requires
            0 <= e1.sustain_level <= e1.peak_level,
            p == e1.peak_level * 65536,
            s == e1.sustain_level * 65536,
    ;
    assert(p <= AMP_MAX as int * 65536) by (nonlinear_arith)
        requires
            e1.peak_level <= AMP_MAX as int,
            p == e1.peak_level * 65536,
    ;
    match e1.stage {
        Stage::Attack => {
            lemma_ceil_div_bounds(p, at_least_one(e1.attack));
        },
        Stage::Decay => {
            lemma_ceil_div_bounds(p - s, at_least_one(e1.decay));
        },
        Stage::Release => {
            lemma_ceil_div_bounds(e1.beg_value as int, at_least_one(e1.release));
        },
        _ => {},
    }
}

/// Bounds of the rounded-up quotient: it is between zero and the dividend,
/// and `d` of them cover the dividend.
pub proof fn lemma_ceil_div_bounds(a: int, d: int)
    requires
        0 <= a,
        1 <= d,
    ensures
        0 <= ceil_div(a, d) <= a,
        d * ceil_div(a, d) >= a,
{
    let q = a / d;
    let m = a % d;
    vstd::arithmetic::div_mod::lemma_fundamental_div_mod(a, d);
    assert(0 <= m < d) by (nonlinear_arith)
        requires
            1 <= d,
            m == a % d,
    ;
    assert(0 <= q) by (nonlinear_arith)
        requires
            0 <= a,
            1 <= d,
            q == a / d,
    ;
    assert(q <= a) by (nonlinear_arith)
        requires
            0 <= a,
            1 <= d,
            q == a / d,
    ;
    if m == 0 {
        assert(d * q >= a) by (nonlinear_arith)
            requires
                a == d * q + m,
                m == 0,
        ;
    } else {
        assert(d * (q + 1) >= a) by (nonlinear_arith)
            requires
                a == d * q + m,
                m < d,
        ;
        if q == a {
            assert(a == d * a + m && m >= 1 && d >= 1 ==> a >= d * a + 1) by (nonlinear_arith);
            assert(d * a >= a) by (nonlinear_arith)
                requires
                    0 <= a,
                    1 <= d,
            ;
            assert(false);
        }
    }
}


/// The machine after `n` ticks of a constant gate reading.
pub open spec fn ticks_gate(e: Envelope, gate_on: bool, n: nat) -> Envelope
    decreases n,
{
    if n == 0 {
        e
    } else {
        ticks_gate(e.spec_tick(gate_on), gate_on, (n - 1) as nat)
    }
}

/// Ticking in two stretches is ticking in one.
pub proof fn lemma_ticks_gate_add(e: Envelope, gate_on: bool, m: nat, k: nat)
    ensures
        ticks_gate(e, gate_on, m + k) == ticks_gate(ticks_gate(e, gate_on, m), gate_on, k),
    decreases m,
{
    if m > 0 {
        lemma_ticks_gate_add(e.spec_tick(gate_on), gate_on, (m - 1) as nat, k);
    }
}

/// Ticking preserves well-formedness and the whole ramp configuration.
pub proof fn lemma_ticks_gate_wf(e: Envelope, gate_on: bool, n: nat)
    requires
        e.wf(),
    ensures
        ticks_gate(e, gate_on, n).wf(),
        ticks_gate(e, gate_on, n).peak_level == e.peak_level,
        ticks_gate(e, gate_on, n).sustain_level == e.sustain_level,
        ticks_gate(e, gate_on, n).attack == e.attack,
        ticks_gate(e, gate_on, n).decay == e.decay,
        ticks_gate(e, gate_on, n).release == e.release,
    decreases n,
{
    if n > 0 {
        lemma_tick_wf(e, gate_on);
        lemma_ticks_gate_wf(e.spec_tick(gate_on), gate_on, (n - 1) as nat);
    }
}

/// Rounding up as a single division: `ceil_div(a, b) == (a + b - 1) / b`.
proof fn lemma_ceil_div_formula(a: int, b: int)
    requires
        1 <= b,
        0 <= a,
    ensures
        ceil_div(a, b) == (a + b - 1) / b,
{
    let q = a / b;
    let r = a % b;
    vstd::arithmetic::div_mod::lemma_fundamental_div_mod(a, b);
    assert(0 <= r < b) by (nonlinear_arith)
        requires
            1 <= b,
            r == a % b,
    ;
    if r == 0 {
        assert(a + b - 1 == q * b + (b - 1)) by (nonlinear_arith)
            requires
                a == b * q + r,
                r == 0,
        ;
        vstd::arithmetic::div_mod::lemma_fundamental_div_mod_converse_div(a + b - 1, b, q, b - 1);
    } else {
        assert(a + b - 1 == (q + 1) * b + (r - 1)) by (nonlinear_arith)
            requires
                a == b * q + r,
        ;
        vstd::arithmetic::div_mod::lemma_fundamental_div_mod_converse_div(
            a + b - 1,
            b,
            q + 1,
            r - 1,
        );
    }
}

/// `d` rounded-up steps of size `ceil_div(a, d)` cover `a`; conversely a
/// bound `a <= b * c` bounds the rounded-up quotient by `c`.
proof fn lemma_ceil_div_le(a: int, b: int, c: int)
    requires
        1 <= b,
        0 <= a <= b * c,
        0 <= c,
    ensures
        ceil_div(a, b) <= c,
{
    lemma_ceil_div_formula(a, b);
    assert(a + b - 1 <= b * c + b - 1);
    vstd::arithmetic::div_mod::lemma_div_is_ordered(a + b - 1, b * c + b - 1, b);
    assert((b * c + b - 1) == c * b + (b - 1)) by (nonlinear_arith);
    vstd::arithmetic::div_mod::lemma_fundamental_div_mod_converse_div(b * c + b - 1, b, c, b - 1);
}

/// Rounding up is monotone in the dividend.
proof fn lemma_ceil_div_monotone(a1: int, a2: int, b: int)
    requires
        1 <= b,
        0 <= a1 <= a2,
    ensures
        ceil_div(a1, b) <= ceil_div(a2, b),
{
    lemma_ceil_div_formula(a1, b);
    lemma_ceil_div_formula(a2, b);
    vstd::arithmetic::div_mod::lemma_div_is_ordered(a1 + b - 1, a2 + b - 1, b);
}

/// One step of size `b` lowers the rounded-up quotient by exactly one.
proof fn lemma_ceil_div_dec(a: int, b: int)
    requires
        1 <= b,
    ensures
        ceil_div(a - b, b) == ceil_div(a, b) - 1,
{
    let q = a / b;
    let r = a % b;
    vstd::arithmetic::div_mod::lemma_fundamental_div_mod(a, b);
    assert(0 <= r < b) by (nonlinear_arith)
        requires
            1 <= b,
            r == a % b,
    ;
    assert(a - b == (q - 1) * b + r) by (nonlinear_arith)
        requires
            a == b * q + r,
    ;
    vstd::arithmetic::div_mod::lemma_fundamental_div_mod_converse_div(a - b, b, q - 1, r);
    vstd::arithmetic::div_mod::lemma_fundamental_div_mod_converse_mod(a - b, b, q - 1, r);
}

/// The sustained state a high gate drives the machine into: holding at
/// exactly the sustain level.
pub open spec fn sustained(e: Envelope) -> bool {
    &&& e.stage == Stage::Sustain
    &&& e.value == e.level_sustain()
    &&& e.gate_last
}

/// The spent state a low gate drives the machine into: idle at level zero.
pub open spec fn spent(e: Envelope) -> bool {
    &&& e.stage == Stage::Idle
    &&& e.value == 0
    &&& !e.gate_last
}

/// Ticks until a high gate reaches the sustained state, from the stage the
/// machine is in.
pub open spec fn sustain_rank(e: Envelope) -> int {
    match e.stage {
        Stage::Attack => {
            let r = if e.attack_step() <= 0 {
                1int
            } else {
                ceil_div(e.level_peak() - e.value, e.attack_step())
            };
            (if r < 1 {
                1int
            } else {
                r
            }) + at_least_one(e.decay)
        },
        Stage::Decay => {
            let r = if e.decay_step() <= 0 {
                1int
            } else {
                ceil_div(e.value - e.level_sustain(), e.decay_step())
            };
            if r < 1 {
                1int
            } else {
                r
            }
        },
        Stage::Sustain => 1,
        _ => 0,
    }
}

/// Once sustained, a high gate keeps the machine sustained.
pub proof fn lemma_sustained_stays(e: Envelope, n: nat)
    requires
        e.wf(),
        sustained(e),
    ensures
        sustained(ticks_gate(e, true, n)),
        ticks_gate(e, true, n).wf(),
        ticks_gate(e, true, n).sustain_level == e.sustain_level,
    decreases n,
{
    if n > 0 {
        lemma_tick_wf(e, true);
        lemma_sustained_stays(e.spec_tick(true), (n - 1) as nat);
    }
}

/// Once spent, a low gate keeps the machine spent.
pub proof fn lemma_spent_stays(e: Envelope, n: nat)
    requires
        e.wf(),
        spent(e),
    ensures
        spent(ticks_gate(e, false, n)),
        ticks_gate(e, false, n).wf(),
    decreases n,
{
    if n > 0 {
        lemma_tick_wf(e, false);
        lemma_spent_stays(e.spec_tick(false), (n - 1) as nat);
    }
}

/// The attack phase cannot need more ticks than the configured attack
/// duration, nor the decay phase more than the decay duration.
proof fn lemma_sustain_rank_bound(e: Envelope)
    requires
        e.wf(),
        e.stage == Stage::Attack || e.stage == Stage::Decay || e.stage == Stage::Sustain,
    ensures
        1 <= sustain_rank(e) <= at_least_one(e.attack) + at_least_one(e.decay),
        e.stage == Stage::Decay ==> sustain_rank(e) <= at_least_one(e.decay),
{
    let p = e.level_peak();
    let su = e.level_sustain();
    assert(0 <= su <= p) by (nonlinear_arith)
        requires
            0 <= e.sustain_level <= e.peak_level,
            p == e.peak_level * 65536,
            su == e.sustain_level * 65536,
    ;
    match e.stage {
        Stage::Attack => {
            let sa = e.attack_step();
            let a = at_least_one(e.attack);
            if sa > 0 && e.value < p {
                lemma_ceil_div_bounds(p, a);
                lemma_ceil_div_monotone(p - e.value, p, sa);
                lemma_ceil_div_le(p, sa, a);
            } else if sa > 0 {
                assert((p - e.value) / sa <= 0) by (nonlinear_arith)
                    requires
                        p - e.value <= 0,
                        sa >= 1,
                ;
            }
        },
        Stage::Decay => {
            let sd = e.decay_step();
            let d = at_least_one(e.decay);
            if sd > 0 && e.value > su {
                lemma_ceil_div_bounds(p - su, d);
                lemma_ceil_div_monotone(e.value - su, p - su, sd);
                lemma_ceil_div_le(p - su, sd, d);
            } else if sd > 0 {
                assert((e.value - su) / sd <= 0) by (nonlinear_arith)
                    requires
                        e.value - su <= 0,
                        sd >= 1,
                ;
            }
        },
        _ => {},
    }
}

/// Under a high gate reading every tick, the machine reaches the sustained
/// state within
/// its rank, and is sustained from then on.
proof fn lemma_reach_sustained(e: Envelope, n: nat)
    requires
        e.wf(),
        e.gate_last,
        e.stage == Stage::Attack || e.stage == Stage::Decay || e.stage == Stage::Sustain,
        n >= sustain_rank(e),
        n >= 1,
    ensures
        sustained(ticks_gate(e, true, n)),
        ticks_gate(e, true, n).wf(),
        ticks_gate(e, true, n).sustain_level == e.sustain_level,
    decreases n,
{
    lemma_tick_wf(e, true);
    let e1 = e.spec_tick(true);
    let p = e.level_peak();
    let su = e.level_sustain();
    assert(0 <= su <= p) by (nonlinear_arith)
        requires
            0 <= e.sustain_level <= e.peak_level,
            p == e.peak_level * 65536,
            su == e.sustain_level * 65536,
    ;
    match e.stage {
        Stage::Sustain => {
            assert(sustained(e1));
            lemma_sustained_stays(e1, (n - 1) as nat);
        },
        Stage::Attack => {
            let sa = e.attack_step();
            lemma_ceil_div_bounds(p, at_least_one(e.attack));
            if e.value + sa >= p {
                // the ramp tops out now: decay starts next tick
                assert(e1.stage == Stage::Decay && e1.value == p);
                lemma_sustain_rank_bound(e1);
                assert(sustain_rank(e1) <= at_least_one(e.decay));
                lemma_reach_sustained(e1, (n - 1) as nat);
            } else {
                assert(e1.stage == Stage::Attack && e1.value == e.value + sa);
                assert(sa >= 1) by {
                    assert(at_least_one(e.attack) * sa >= p);
                    assert(p >= 1);
                    if sa <= 0 {
                        assert(at_least_one(e.attack) * sa <= 0) by (nonlinear_arith)
                            requires
                                at_least_one(e.attack) >= 1,
                                sa <= 0,
                        ;
                    }
                }
                lemma_ceil_div_dec(p - e.value, sa);
                assert(ceil_div(p - e1.value, sa) == ceil_div(p - e.value, sa) - 1);
                assert(ceil_div(p - e.value, sa) >= 2) by {
                    if ceil_div(p - e.value, sa) <= 1 {
                        lemma_ceil_div_bounds(p - e.value, sa);
                        assert(sa * ceil_div(p - e.value, sa) >= p - e.value);
                        assert(sa * 1 >= sa * ceil_div(p - e.value, sa)) by (nonlinear_arith)
                            requires
                                ceil_div(p - e.value, sa) <= 1,
                                sa >= 1,
                        ;
                    }
                }
                assert(sustain_rank(e1) == sustain_rank(e) - 1);
                lemma_reach_sustained(e1, (n - 1) as nat);
            }
        },
        Stage::Decay => {
            let sd = e.decay_step();
            if e.value - sd <= su {
                assert(e1.stage == Stage::Sustain && e1.value == su);
                assert(sustained(e1));
                lemma_sustained_stays(e1, (n - 1) as nat);
            } else {
                // still above the sustain level: the step cannot be zero
                assert(sd >= 1) by {
                    if sd <= 0 {
                        lemma_ceil_div_bounds(p - su, at_least_one(e.decay));
                    }
                }
                assert(e1.stage == Stage::Decay && e1.value == e.value - sd);
                lemma_ceil_div_dec(e.value - su, sd);
                assert(ceil_div(e1.value - su, sd) == ceil_div(e.value - su, sd) - 1);
                assert(ceil_div(e.value - su, sd) >= 2) by {
                    if ceil_div(e.value - su, sd) <= 1 {
                        lemma_ceil_div_bounds(e.value - su, sd);
                        assert(sd * ceil_div(e.value - su, sd) >= e.value - su);
                        assert(sd * 1 >= sd * ceil_div(e.value - su, sd)) by (nonlinear_arith)
                            requires
                                ceil_div(e.value - su, sd) <= 1,
                                sd >= 1,
                        ;
                    }
                }
                assert(sustain_rank(e1) == sustain_rank(e) - 1);
                lemma_reach_sustained(e1, (n - 1) as nat);
            }
        },
        _ => {},
    }
}

/// A gate held continuously high from a rising edge for at least the attack
/// and decay durations (plus the edge tick) drives the level to exactly the
/// sustain level, and it stays there for as long as the reading stays high.
pub proof fn lemma_envelope_sustain(e: Envelope, n: nat)
    requires
        e.wf(),
        !e.gate_last,
        n >= 1 + at_least_one(e.attack) + at_least_one(e.decay),
    ensures
        ticks_gate(e, true, n).stage == Stage::Sustain,
        ticks_gate(e, true, n).value == e.level_sustain(),
        ticks_gate(e, true, n).level() == e.sustain_level,
        ticks_gate(e, true, n).gate_last,
        ticks_gate(e, true, n).wf(),
{
    lemma_tick_wf(e, true);
    let e1 = e.spec_tick(true);
    assert(e1.stage == Stage::Attack || e1.stage == Stage::Decay);
    lemma_sustain_rank_bound(e1);
    lemma_reach_sustained(e1, (n - 1) as nat);
    let e2 = ticks_gate(e, true, n);
    assert(e2 == ticks_gate(e1, true, (n - 1) as nat));
    assert(e2.value == e2.sustain_level * 65536);
    assert(e2.value / 65536 == e2.sustain_level) by (nonlinear_arith)
        requires
            e2.value == e2.sustain_level * 65536,
    ;
}

/// Ticks until a low gate empties the machine from the release phase.
pub open spec fn release_rank(e: Envelope) -> int {
    match e.stage {
        Stage::Release => {
            let r = if e.release_step() <= 0 {
                1int
            } else {
                ceil_div(e.value as int, e.release_step())
            };
            if r < 1 {
                1int
            } else {
                r
            }
        },
        Stage::Idle => 1,
        _ => 0,
    }
}

/// Under a low gate reading every tick, a releasing machine empties within
/// its rank and
/// stays spent.
proof fn lemma_reach_spent(e: Envelope, n: nat)
    requires
        e.wf(),
        !e.gate_last,
        e.stage == Stage::Release || (e.stage == Stage::Idle && e.value == 0),
        e.stage == Stage::Release ==> e.value <= e.beg_value,
        n >= release_rank(e),
        n >= 1,
    ensures
        spent(ticks_gate(e, false, n)),
        ticks_gate(e, false, n).wf(),
    decreases n,
{
    lemma_tick_wf(e, false);
    let e1 = e.spec_tick(false);
    match e.stage {
        Stage::Idle => {
            assert(spent(e1));
            lemma_spent_stays(e1, (n - 1) as nat);
        },
        Stage::Release => {
            let sr = e.release_step();
            if e.value - sr <= 0 {
                assert(e1.stage == Stage::Idle && e1.value == 0);
                lemma_spent_stays(e1, (n - 1) as nat);
            } else {
                assert(sr >= 1) by {
                    if sr <= 0 {
                        lemma_ceil_div_bounds(e.beg_value as int, at_least_one(e.release));
                        assert(e.release_step() * at_least_one(e.release) >= e.beg_value) by (
                        nonlinear_arith)
                            requires
                                at_least_one(e.release) * e.release_step() >= e.beg_value,
                        ;
                    }
                }
                assert(e1.stage == Stage::Release && e1.value == e.value - sr);
                assert(e1.beg_value == e.beg_value && e1.release_step() == sr);
                lemma_ceil_div_dec(e.value as int, sr);
                assert(ceil_div(e1.value as int, sr) == ceil_div(e.value as int, sr) - 1);
                assert(ceil_div(e.value as int, sr) >= 2) by {
                    if ceil_div(e.value as int, sr) <= 1 {
                        lemma_ceil_div_bounds(e.value as int, sr);
                        assert(sr * 1 >= sr * ceil_div(e.value as int, sr)) by (nonlinear_arith)
                            requires
                                ceil_div(e.value as int, sr) <= 1,
                                sr >= 1,
                        ;
                    }
                }
                assert(release_rank(e1) == release_rank(e) - 1);
                lemma_reach_spent(e1, (n - 1) as nat);
            }
        },
        _ => {},
    }
}

/// A full cycle: held high for at least the attack and decay durations the
/// machine settles at the sustain level; dropped low for at least the
/// release duration it then empties to level zero and goes idle.
pub proof fn lemma_envelope_full_cycle(e: Envelope, n_hi: nat, n_lo: nat)
    requires
        e.wf(),
        !e.gate_last,
        n_hi >= 1 + at_least_one(e.attack) + at_least_one(e.decay),
        n_lo >= 1 + at_least_one(e.release),
    ensures
        ({
            let hi = ticks_gate(e, true, n_hi);
            let lo = ticks_gate(hi, false, n_lo);
            &&& hi.stage == Stage::Sustain
            &&& hi.value == e.level_sustain()
            &&& lo.stage == Stage::Idle
            &&& lo.value == 0
            &&& lo.level() == 0
        }),
{
    lemma_envelope_sustain(e, n_hi);
    let hi = ticks_gate(e, true, n_hi);
    lemma_ticks_gate_wf(e, true, n_hi);
    lemma_tick_wf(hi, false);
    let edge = hi.spec_edge(false);
    assert(edge.stage == Stage::Release && edge.beg_value == hi.value && !edge.gate_last);
    let l1 = hi.spec_tick(false);
    assert(l1 == edge.spec_ramp());
    assert(l1.stage == Stage::Release || l1.stage == Stage::Idle);
    assert(l1.beg_value == hi.value);
    if l1.stage == Stage::Release {
        assert(l1.value <= l1.beg_value);
        assert(release_rank(l1) <= at_least_one(hi.release)) by {
            let sr = l1.release_step();
            if sr > 0 {
                lemma_ceil_div_monotone(l1.value as int, l1.beg_value as int, sr);
                lemma_ceil_div_bounds(l1.beg_value as int, at_least_one(l1.release));
                lemma_ceil_div_le(l1.beg_value as int, sr, at_least_one(l1.release));
            }
        }
        lemma_reach_spent(l1, (n_lo - 1) as nat);
        lemma_ticks_gate_add(hi, false, 1, (n_lo - 1) as nat);
    } else {
        assert(l1.value == 0);
        lemma_spent_stays(l1, (n_lo - 1) as nat);
        lemma_ticks_gate_add(hi, false, 1, (n_lo - 1) as nat);
    }
}

} // verus!
