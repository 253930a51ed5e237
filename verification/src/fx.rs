//! The effect rack on the summed voices: distortion, then the analog section
//! (phaser, chorus, tremolo), then the hybrid section (delay and reverb).

use crate::alu::{Alu, Op, Sem};
use crate::consts::{F0, F0_001, F0_004, F0_012, F1, F2};
use crate::fx::analog::{AnalogBlock, Chorus, Phaser};
use crate::fx::distortion::{Distortion, DistortionBlock};
use crate::fx::hybrid::{Delay, HybridBlock, Reverb};
use crate::params;
use crate::params::map_p;
use crate::rng;
use crate::word;
use crate::word::Bits;
use vstd::prelude::*;

pub mod analog;
pub mod distortion;
pub mod hybrid;
pub mod ring;

verus! {

/// Where the rack's own noise starts.
pub const FX_SEED: u32 = 0x51f1_5eed;

/// The state of the rack.
pub struct Fx {
    pub rng: u32,
    /// A slow random walk that pulls at every sweep of the analog section.
    pub drift: Bits,
    pub dist: Distortion,
    pub phaser: Phaser,
    pub chorus: Chorus,
    pub trem_ph: Bits,
    pub delay: Delay,
    pub reverb: Reverb,
}

/// Which sections are heard: those with a mix above 0.001.
#[derive(Clone, Copy, Debug)]
pub struct Gates {
    pub dist: bool,
    pub phaser: bool,
    pub chorus: bool,
    pub trem: bool,
    pub delay: bool,
    pub reverb: bool,
}

impl Gates {
    pub open spec fn analog(self) -> bool {
        self.phaser || self.chorus || self.trem
    }

    pub open spec fn hybrid(self) -> bool {
        self.delay || self.reverb
    }

    pub open spec fn any(self) -> bool {
        self.dist || self.analog() || self.hybrid()
    }
}

/// Parameter `i` is set above 0.001.
pub open spec fn audible(m: Sem, q: [Bits; 63], i: int) -> bool {
    word::below(F0_001, params::mapped(m, i, q[i]))
}

pub open spec fn gates_of(m: Sem, q: [Bits; 63]) -> Gates {
    Gates {
        dist: audible(m, q, 62),
        phaser: audible(m, q, 41),
        chorus: audible(m, q, 44),
        trem: audible(m, q, 47),
        delay: audible(m, q, 50),
        reverb: audible(m, q, 54),
    }
}

/// What is fixed for a block.
pub struct RackBlock {
    pub gates: Gates,
    pub dist: DistortionBlock,
    pub analog: AnalogBlock,
    pub hybrid: HybridBlock,
}

/// One sample through the analog section, with the gain wobble of the drift.
pub open spec fn analog_step(m: Sem, b: RackBlock, s: Fx, x: Bits) -> (Fx, Bits) {
    let (s, x) = if b.gates.phaser {
        let (phaser, x) = analog::phased(m, b.analog, s.phaser, x);
        (Fx { phaser, ..s }, x)
    } else {
        (s, x)
    };
    let (s, x) = if b.gates.chorus {
        let (chorus, x) = analog::chorused(m, b.analog, s.chorus, x);
        (Fx { chorus, ..s }, x)
    } else {
        (s, x)
    };
    let (s, x) = if b.gates.trem {
        let (trem_ph, x) = analog::trembled(m, b.analog, s.trem_ph, x);
        (Fx { trem_ph, ..s }, x)
    } else {
        (s, x)
    };
    (s, m.mul(x, m.add(F1, m.mul(b.analog.drift, F0_012))))
}

/// One sample through the hybrid section: the dry sample, the echo and the
/// reverb are summed.
pub open spec fn hybrid_step(m: Sem, b: RackBlock, s: Fx, x: Bits) -> (Fx, Bits) {
    let (delay, echo) = hybrid::delayed(m, b.hybrid, s.delay, x);
    let (reverb, wet) = if b.gates.reverb {
        hybrid::reverberated(m, b.hybrid, s.reverb, x, echo)
    } else {
        (s.reverb, F0)
    };
    (
        Fx { delay, reverb, ..s },
        m.add(m.add(x, m.mul(echo, b.hybrid.delay_mix)), m.mul(wet, b.hybrid.reverb_mix)),
    )
}

/// One sample through the rack. A section that is not heard is left alone.
pub open spec fn rack_step(m: Sem, b: RackBlock, s: Fx, x: Bits) -> (Fx, Bits) {
    let (s, x) = if b.gates.dist {
        let (dist, x) = distortion::distorted(m, b.dist, s.dist, x);
        (Fx { dist, ..s }, x)
    } else {
        (s, x)
    };
    let (s, x) = if b.gates.analog() {
        analog_step(m, b, s, x)
    } else {
        (s, x)
    };
    if b.gates.hybrid() {
        hybrid_step(m, b, s, x)
    } else {
        (s, x)
    }
}

/// The first `k` samples of `out` through the rack.
pub open spec fn rack_run(m: Sem, b: RackBlock, s: Fx, out: Seq<Bits>, k: nat) -> (Fx, Seq<Bits>)
    decreases k,
{
    if k == 0 {
        (s, out)
    } else {
        let i = k - 1;
        let (s, out) = rack_run(m, b, s, out, i as nat);
        let (s, y) = rack_step(m, b, s, out[i]);
        (s, out.update(i, y))
    }
}

/// The random walk moved on by one step.
pub open spec fn wandered(m: Sem, s: Fx) -> Fx {
    let next = rng::next_of(s.rng);
    let wander = m.sub(m.mul(rng::ratio_of(next), F2), F1);
    Fx { rng: next, drift: m.lerp(s.drift, wander, F0_004), ..s }
}

pub open spec fn rack_block(m: Sem, q: [Bits; 63], sr: Bits, drift: Bits) -> RackBlock {
    RackBlock {
        gates: gates_of(m, q),
        dist: distortion::block_of(m, q, sr),
        analog: analog::block_of(m, q, sr, m.mul(drift, params::mapped(m, 49, q[49]))),
        hybrid: hybrid::block_of(m, q, sr),
    }
}

/// A block through the rack. Where no section is heard, neither the block
/// nor the rack changes.
pub open spec fn racked(m: Sem, q: [Bits; 63], sr: Bits, s: Fx, out: Seq<Bits>) -> (Fx, Seq<Bits>) {
    if gates_of(m, q).any() {
        let s = wandered(m, s);
        let b = rack_block(m, q, sr, s.drift);
        let s = Fx {
            delay: hybrid::delay_moved(m, b.hybrid, s.delay),
            reverb: hybrid::reverb_moved(m, b.hybrid, s.reverb),
            ..s
        };
        rack_run(m, b, s, out, out.len())
    } else {
        (s, out)
    }
}

fn heard<F: Fn(Op, Bits, Bits) -> Bits>(alu: &Alu<F>, q: &[Bits; 63], i: usize) -> (r: bool)
    requires
        alu.ready(),
        i < 63,
    ensures
        forall|m: Sem| #[trigger] alu.computes(m) ==> r == audible(m, *q, i as int),
{
    let mix = map_p(alu, i, q[i]);
    word::lt(F0_001, mix)
}

impl Fx {
    pub open spec fn wf(self) -> bool {
        self.chorus.wf() && self.delay.wf() && self.reverb.wf()
    }

    pub open spec fn at_rest() -> Fx {
        Fx {
            rng: FX_SEED,
            drift: F0,
            dist: Distortion::at_rest(),
            phaser: Phaser::at_rest(),
            chorus: Chorus::at_rest(),
            trem_ph: F0,
            delay: Delay::at_rest(),
            reverb: Reverb::at_rest(),
        }
    }

    pub fn new() -> (r: Fx)
        ensures
            r == Fx::at_rest(),
            r.wf(),
    {
        Fx {
            rng: FX_SEED,
            drift: F0,
            dist: Distortion::new(),
            phaser: Phaser::new(),
            chorus: Chorus::new(),
            trem_ph: F0,
            delay: Delay::new(),
            reverb: Reverb::new(),
        }
    }

    /// The next value of the rack's noise, 0 ..= 1.
    pub fn fx_rand(&mut self) -> (r: Bits)
        ensures
            *final(self) == (Fx { rng: rng::next_of(old(self).rng), ..*old(self) }),
            r == rng::ratio_of(rng::next_of(old(self).rng)),
    {
        self.rng = rng::next(self.rng);
        rng::ratio(self.rng)
    }

    fn analog<F: Fn(Op, Bits, Bits) -> Bits>(&mut self, alu: &Alu<F>, b: &RackBlock, x: Bits) -> (r:
        Bits)
        requires
            alu.ready(),
            old(self).wf(),
        ensures
            final(self).wf(),
            forall|m: Sem| #[trigger]
                alu.computes(m) ==> (*final(self), r) == analog_step(m, *b, *old(self), x),
    {
        let mut x = x;
        if b.gates.phaser {
            x = self.phaser.step(alu, &b.analog, x);
        }
        if b.gates.chorus {
            x = self.chorus.step(alu, &b.analog, x);
        }
        if b.gates.trem {
            let (ph, y) = analog::tremble(alu, &b.analog, self.trem_ph, x);
            self.trem_ph = ph;
            x = y;
        }
        let off = alu.mul(b.analog.drift, F0_012);
        let gain = alu.add(F1, off);
        alu.mul(x, gain)
    }

    fn hybrid<F: Fn(Op, Bits, Bits) -> Bits>(&mut self, alu: &Alu<F>, b: &RackBlock, x: Bits) -> (r:
        Bits)
        requires
            alu.ready(),
            old(self).wf(),
            b.hybrid.wf(),
        ensures
            final(self).wf(),
            forall|m: Sem| #[trigger]
                alu.computes(m) ==> (*final(self), r) == hybrid_step(m, *b, *old(self), x),
    {
        let echo = self.delay.step(alu, &b.hybrid, x);
        let wet = if b.gates.reverb {
            self.reverb.step(alu, &b.hybrid, x, echo)
        } else {
            F0
        };
        let a = alu.mul(echo, b.hybrid.delay_mix);
        let sum = alu.add(x, a);
        let c = alu.mul(wet, b.hybrid.reverb_mix);
        alu.add(sum, c)
    }

    fn step<F: Fn(Op, Bits, Bits) -> Bits>(&mut self, alu: &Alu<F>, b: &RackBlock, x: Bits) -> (r:
        Bits)
        requires
            alu.ready(),
            old(self).wf(),
            b.hybrid.wf(),
        ensures
            final(self).wf(),
            forall|m: Sem| #[trigger]
                alu.computes(m) ==> (*final(self), r) == rack_step(m, *b, *old(self), x),
    {
        let mut x = x;
        if b.gates.dist {
            x = self.dist.step(alu, &b.dist, x);
        }
        if b.gates.phaser || b.gates.chorus || b.gates.trem {
            x = self.analog(alu, b, x);
        }
        if b.gates.delay || b.gates.reverb {
            x = self.hybrid(alu, b, x);
        }
        x
    }

    /// Sends a block through the rack, with the parameter settings `q`.
    pub fn process_fx<F: Fn(Op, Bits, Bits) -> Bits>(
        &mut self,
        alu: &Alu<F>,
        sr: Bits,
        q: &[Bits; 63],
        out: &mut [Bits],
    )
        requires
            alu.ready(),
            old(self).wf(),
        ensures
            final(self).wf(),
            final(out)@.len() == old(out)@.len(),
            forall|m: Sem| #[trigger]
                alu.computes(m) ==> (*final(self), final(out)@) == racked(
                    m,
                    *q,
                    sr,
                    *old(self),
                    old(out)@,
                ),
    {
        let gates = Gates {
            dist: heard(alu, q, 62),
            phaser: heard(alu, q, 41),
            chorus: heard(alu, q, 44),
            trem: heard(alu, q, 47),
            delay: heard(alu, q, 50),
            reverb: heard(alu, q, 54),
        };
        if !(gates.dist || gates.phaser || gates.chorus || gates.trem || gates.delay
            || gates.reverb) {
            return;
        }
        let u = self.fx_rand();
        let twice = alu.mul(u, F2);
        let wander = alu.sub(twice, F1);
        self.drift = alu.lerp(self.drift, wander, F0_004);
        let amount = map_p(alu, 49, q[49]);
        let drift = alu.mul(self.drift, amount);
        let b = RackBlock {
            gates,
            dist: distortion::block(alu, q, sr),
            analog: analog::block(alu, q, sr, drift),
            hybrid: hybrid::block(alu, q, sr),
        };
        self.delay.glide(alu, &b.hybrid);
        self.reverb.glide(alu, &b.hybrid);
        let ghost s1 = *self;
        let ghost o1 = out@;
        let n: usize = out.len();
        let mut k: usize = 0;
        while k < n
            invariant
                alu.ready(),
                self.wf(),
                b.hybrid.wf(),
                k <= n,
                n == out@.len(),
                n == o1.len(),
                forall|m: Sem| #[trigger]
                    alu.computes(m) ==> (*self, out@) == rack_run(m, b, s1, o1, k as nat),
            decreases n - k,
        {
            let y = self.step(alu, &b, out[k]);
            out[k] = y;
            k = k + 1;
        }
    }
}

} // verus!
