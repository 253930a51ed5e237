//! One voice: its state, its envelope, and what every voice keeps.

use crate::alu::{Alu, Op, Sem};
use crate::cells;
use crate::consts::{F0, F0_85, F1, F1E_4, F1_02};
use crate::word;
use crate::word::{Bits, WideBits};
use vstd::prelude::*;

verus! {

/// How many overtones a voice sums.
pub const NPART: usize = 16;

/// Where a voice is in its envelope.
#[derive(Clone, Copy, Debug, PartialEq, Eq)]
pub enum Stage {
    Idle,
    Attack,
    Decay,
    Sustain,
    Release,
    /// A stolen voice on its forced way out.
    Kill,
}

/// The state of one voice.
#[derive(Clone, Copy, Debug)]
pub struct Voice {
    pub on: bool,
    pub gate: bool,
    pub note: u8,
    /// Pitch in cycles per second.
    pub f0: Bits,
    pub vel: Bits,
    /// When the note started, on the engine's clock.
    pub age: WideBits,
    /// Time since the note started.
    pub t: Bits,
    /// Phase of the sub oscillator.
    pub ph_s: Bits,
    /// Phases of the overtones.
    pub ph_a: [Bits; 16],
    /// Read heads of the texture.
    pub ph_t: Bits,
    pub ph_t2: Bits,
    /// Fade-in of the current grain, and samples until the next one.
    pub g_fade: Bits,
    pub g_cnt: i32,
    pub env: Bits,
    pub stage: Stage,
    /// The noise sample before this one.
    pub pn: Bits,
    /// How many samples of noise the click has left.
    pub tr_samp: i32,
}

impl Voice {
    /// A voice that sounds and is not on its way out of the fade pool: its
    /// gate is open unless it is being released.
    pub open spec fn playing_ok(self) -> bool {
        &&& self.tr_samp >= 0
        &&& self.on ==> {
            &&& self.stage !is Idle
            &&& self.stage !is Kill
            &&& (self.gate <==> self.stage !is Release)
        }
    }

    /// A voice of the fade pool: when it sounds it is being killed, its gate
    /// is closed and its click is spent.
    pub open spec fn fading_ok(self) -> bool {
        &&& self.tr_samp >= 0
        &&& self.on ==> self.stage is Kill && !self.gate && self.tr_samp == 0
    }

    /// A voice that is being released or killed, with its envelope below
    /// 1e-4.
    pub open spec fn faded(self) -> bool {
        (self.stage is Release || self.stage is Kill) && word::below(self.env, F1E_4)
    }

    /// What time does to a voice, whatever the arithmetic gives: it ends the
    /// voice only where it has faded, never starts it, leaves the note alone,
    /// moves the envelope forward only, and never gives the click samples
    /// back.
    pub open spec fn aged_into(self, later: Voice) -> bool {
        &&& later.on ==> self.on
        &&& self.on && !later.on ==> later.faded()
        &&& later.gate == self.gate
        &&& later.note == self.note
        &&& later.f0 == self.f0
        &&& later.vel == self.vel
        &&& later.age == self.age
        &&& later.tr_samp <= self.tr_samp
        &&& self.tr_samp >= 0 ==> later.tr_samp >= 0
        &&& follows(self.stage, later.stage)
        &&& !self.on ==> later == self
    }

    /// A voice that is silent and has never sounded.
    pub open spec fn silent() -> Voice {
        Voice {
            on: false,
            gate: false,
            note: 0,
            f0: F0,
            vel: F1,
            age: 0,
            t: F0,
            ph_s: F0,
            ph_a: cells::filled(F0),
            ph_t: F0,
            ph_t2: F0,
            g_fade: F1,
            g_cnt: 0,
            env: F0,
            stage: Stage::Idle,
            pn: F0,
            tr_samp: 0,
        }
    }

    pub fn new() -> (v: Voice)
        ensures
            v == Voice::silent(),
    {
        Voice {
            on: false,
            gate: false,
            note: 0,
            f0: F0,
            vel: F1,
            age: 0,
            t: F0,
            ph_s: F0,
            ph_a: [F0; 16],
            ph_t: F0,
            ph_t2: F0,
            g_fade: F1,
            g_cnt: 0,
            env: F0,
            stage: Stage::Idle,
            pn: F0,
            tr_samp: 0,
        }
    }
}

/// Attack leads to decay and decay to sustain; every other stage lasts.
pub open spec fn follows(before: Stage, after: Stage) -> bool {
    match before {
        Stage::Attack => after is Attack || after is Decay || after is Sustain,
        Stage::Decay => after is Decay || after is Sustain,
        _ => after == before,
    }
}

/// The envelope's share of what is fixed for a block: the sustain level and
/// how much of the way to its goal each stage goes in one sample.
#[derive(Clone, Copy, Debug)]
pub struct Slopes {
    pub sustain: Bits,
    pub attack: Bits,
    pub decay: Bits,
    pub release: Bits,
}

/// The envelope one sample later.
///
/// Attack aims a little above one and ends there. Decay ends within 1e-4 of
/// the sustain level, and sustain keeps following that level. Release and
/// kill shrink the envelope and end the voice below 1e-4.
pub open spec fn enveloped(m: Sem, k: Slopes, v: Voice) -> Voice {
    match v.stage {
        Stage::Attack => {
            let env = m.lerp(v.env, F1_02, k.attack);
            if word::at_least(env, F1) {
                Voice { env: F1, stage: Stage::Decay, ..v }
            } else {
                Voice { env, ..v }
            }
        },
        Stage::Decay => {
            let env = m.lerp(v.env, k.sustain, k.decay);
            if word::below(word::abs_of(m.sub(env, k.sustain)), F1E_4) {
                Voice { env, stage: Stage::Sustain, ..v }
            } else {
                Voice { env, ..v }
            }
        },
        Stage::Sustain => Voice { env: m.lerp(v.env, k.sustain, k.decay), ..v },
        Stage::Release => {
            let env = m.sub(v.env, m.mul(v.env, k.release));
            Voice { env, on: v.on && !word::below(env, F1E_4), ..v }
        },
        Stage::Kill => {
            let env = m.mul(v.env, F0_85);
            Voice { env, on: v.on && !word::below(env, F1E_4), ..v }
        },
        Stage::Idle => v,
    }
}

pub fn envelope<F: Fn(Op, Bits, Bits) -> Bits>(alu: &Alu<F>, k: &Slopes, v: Voice) -> (r: Voice)
    requires
        alu.ready(),
        v.on,
    ensures
        forall|m: Sem| #[trigger] alu.computes(m) ==> r == enveloped(m, *k, v),
        r == (Voice { env: r.env, stage: r.stage, on: r.on, ..v }),
        v.aged_into(r),
        r.on <==> !r.faded(),
{
    let mut v = v;
    match v.stage {
        Stage::Attack => {
            v.env = alu.lerp(v.env, F1_02, k.attack);
            if word::ge(v.env, F1) {
                v.env = F1;
                v.stage = Stage::Decay;
            }
        },
        Stage::Decay => {
            v.env = alu.lerp(v.env, k.sustain, k.decay);
            let off = alu.sub(v.env, k.sustain);
            if word::lt(word::abs(off), F1E_4) {
                v.stage = Stage::Sustain;
            }
        },
        Stage::Sustain => {
            v.env = alu.lerp(v.env, k.sustain, k.decay);
        },
        Stage::Release => {
            let part = alu.mul(v.env, k.release);
            v.env = alu.sub(v.env, part);
            if word::lt(v.env, F1E_4) {
                v.on = false;
            }
        },
        Stage::Kill => {
            v.env = alu.mul(v.env, F0_85);
            if word::lt(v.env, F1E_4) {
                v.on = false;
            }
        },
        Stage::Idle => {},
    }
    v
}

} // verus!
