//! The analog section: six-stage phaser, dual-tap chorus, tremolo.

use crate::alu::{Alu, Op, Sem};
use crate::cells;
use crate::consts::{
    F0, F0_009, F0_012, F0_04, F0_05, F0_07, F0_1, F0_35, F0_5, F1, F1_31, F2, F220, F2_094, F3_4,
    PI, TAU,
};
use crate::fx::ring;
use crate::params;
use crate::params::map_p;
use crate::word::Bits;
use vstd::prelude::*;

verus! {

/// Cells of the chorus ring.
pub const CHORUS_LEN: usize = 8192;

/// Half a unit, give or take half a sine of a phase: 0 ..= 1.
pub open spec fn swing_of(m: Sem, angle: Bits) -> Bits {
    m.add(F0_5, m.mul(F0_5, m.sin(angle)))
}

fn swing<F: Fn(Op, Bits, Bits) -> Bits>(alu: &Alu<F>, angle: Bits) -> (r: Bits)
    requires
        alu.ready(),
    ensures
        forall|m: Sem| #[trigger] alu.computes(m) ==> r == swing_of(m, angle),
{
    let s = alu.sin(angle);
    let h = alu.mul(F0_5, s);
    alu.add(F0_5, h)
}

/// What is fixed for a block.
#[derive(Clone, Copy, Debug)]
pub struct AnalogBlock {
    pub sr: Bits,
    pub dt: Bits,
    pub phaser_mix: Bits,
    pub phaser_rate: Bits,
    pub phaser_fb: Bits,
    pub chorus_mix: Bits,
    pub chorus_rate: Bits,
    /// Shortest delay of the first tap, and how far both are swept.
    pub chorus_base: Bits,
    pub chorus_depth: Bits,
    pub trem_depth: Bits,
    pub trem_rate: Bits,
    /// The drift of the moment.
    pub drift: Bits,
}

/// A parameter of the section, pulled off its setting by the drift.
pub open spec fn drifted(m: Sem, x: Bits, drift: Bits, pull: Bits) -> Bits {
    m.mul(x, m.add(F1, m.mul(drift, pull)))
}

fn pulled<F: Fn(Op, Bits, Bits) -> Bits>(alu: &Alu<F>, x: Bits, drift: Bits, pull: Bits) -> (r: Bits)
    requires
        alu.ready(),
    ensures
        forall|m: Sem| #[trigger] alu.computes(m) ==> r == drifted(m, x, drift, pull),
{
    let off = alu.mul(drift, pull);
    let k = alu.add(F1, off);
    alu.mul(x, k)
}

pub open spec fn block_of(m: Sem, q: [Bits; 63], sr: Bits, drift: Bits) -> AnalogBlock {
    let depth = drifted(m, params::mapped(m, 46, q[46]), drift, F0_1);
    AnalogBlock {
        sr,
        dt: m.div(F1, sr),
        phaser_mix: params::mapped(m, 41, q[41]),
        phaser_rate: drifted(m, params::mapped(m, 42, q[42]), drift, F0_07),
        phaser_fb: params::mapped(m, 43, q[43]),
        chorus_mix: params::mapped(m, 44, q[44]),
        chorus_rate: drifted(m, params::mapped(m, 45, q[45]), drift, F0_05),
        chorus_base: m.mul(F0_012, sr),
        chorus_depth: m.mul(m.mul(depth, F0_009), sr),
        trem_depth: params::mapped(m, 47, q[47]),
        trem_rate: drifted(m, params::mapped(m, 48, q[48]), drift, F0_04),
        drift,
    }
}

pub fn block<F: Fn(Op, Bits, Bits) -> Bits>(
    alu: &Alu<F>,
    q: &[Bits; 63],
    sr: Bits,
    drift: Bits,
) -> (r: AnalogBlock)
    requires
        alu.ready(),
    ensures
        forall|m: Sem| #[trigger] alu.computes(m) ==> r == block_of(m, *q, sr, drift),
{
    let dt = alu.div(F1, sr);
    let phaser_mix = map_p(alu, 41, q[41]);
    let rate = map_p(alu, 42, q[42]);
    let phaser_rate = pulled(alu, rate, drift, F0_07);
    let phaser_fb = map_p(alu, 43, q[43]);
    let chorus_mix = map_p(alu, 44, q[44]);
    let rate = map_p(alu, 45, q[45]);
    let chorus_rate = pulled(alu, rate, drift, F0_05);
    let set = map_p(alu, 46, q[46]);
    let depth = pulled(alu, set, drift, F0_1);
    let chorus_base = alu.mul(F0_012, sr);
    let seconds = alu.mul(depth, F0_009);
    let chorus_depth = alu.mul(seconds, sr);
    let trem_depth = map_p(alu, 47, q[47]);
    let rate = map_p(alu, 48, q[48]);
    let trem_rate = pulled(alu, rate, drift, F0_04);
    AnalogBlock {
        sr,
        dt,
        phaser_mix,
        phaser_rate,
        phaser_fb,
        chorus_mix,
        chorus_rate,
        chorus_base,
        chorus_depth,
        trem_depth,
        trem_rate,
        drift,
    }
}

// ---------------------------------------------------------------------------
// Phaser
// ---------------------------------------------------------------------------

#[derive(Clone, Copy, Debug)]
pub struct Phaser {
    pub ph: Bits,
    /// Last input and last output of each stage.
    pub ap_x: [Bits; 6],
    pub ap_y: [Bits; 6],
    pub fb: Bits,
}

/// `k` all-pass stages with coefficient `a`, one into the next.
pub open spec fn staged(m: Sem, a: Bits, s: Phaser, t: Bits, k: nat) -> (Phaser, Bits)
    decreases k,
{
    if k == 0 {
        (s, t)
    } else {
        let i = k - 1;
        let (s, t) = staged(m, a, s, t, i as nat);
        let y = m.add(m.mul(a, m.sub(t, s.ap_y[i])), s.ap_x[i]);
        (Phaser { ap_x: cells::put(s.ap_x, i, t), ap_y: cells::put(s.ap_y, i, y), ..s }, y)
    }
}

/// One sample through the phaser.
pub open spec fn phased(m: Sem, b: AnalogBlock, s: Phaser, x: Bits) -> (Phaser, Bits) {
    let ph = m.turn(s.ph, m.mul(b.phaser_rate, b.dt));
    let sweep = swing_of(m, m.mul(TAU, ph));
    let wc = m.div(m.mul(PI, m.mul(F220, m.pow(F2, m.mul(sweep, F3_4)))), b.sr);
    let a = m.div(m.sub(F1, wc), m.add(F1, wc));
    let t = m.add(x, m.mul(s.fb, b.phaser_fb));
    let (s, t) = staged(m, a, Phaser { ph, ..s }, t, 6);
    (
        Phaser { fb: t, ..s },
        m.div(m.add(x, m.mul(t, b.phaser_mix)), m.add(F1, m.mul(b.phaser_mix, F0_35))),
    )
}

impl Phaser {
    pub open spec fn at_rest() -> Phaser {
        Phaser { ph: F0, ap_x: cells::filled(F0), ap_y: cells::filled(F0), fb: F0 }
    }

    pub fn new() -> (r: Phaser)
        ensures
            r == Phaser::at_rest(),
    {
        Phaser { ph: F0, ap_x: [F0; 6], ap_y: [F0; 6], fb: F0 }
    }

    fn stages<F: Fn(Op, Bits, Bits) -> Bits>(&mut self, alu: &Alu<F>, a: Bits, t: Bits) -> (r: Bits)
        requires
            alu.ready(),
        ensures
            forall|m: Sem| #[trigger]
                alu.computes(m) ==> (*final(self), r) == staged(m, a, *old(self), t, 6),
    {
        let mut out: Bits = t;
        let mut k: usize = 0;
        while k < 6
            invariant
                alu.ready(),
                k <= 6,
                forall|m: Sem| #[trigger]
                    alu.computes(m) ==> (*self, out) == staged(m, a, *old(self), t, k as nat),
            decreases 6 - k,
        {
            let gap = alu.sub(out, self.ap_y[k]);
            let part = alu.mul(a, gap);
            let y = alu.add(part, self.ap_x[k]);
            self.ap_x[k] = out;
            self.ap_y[k] = y;
            out = y;
            k = k + 1;
        }
        out
    }

    pub fn step<F: Fn(Op, Bits, Bits) -> Bits>(
        &mut self,
        alu: &Alu<F>,
        b: &AnalogBlock,
        x: Bits,
    ) -> (r: Bits)
        requires
            alu.ready(),
        ensures
            forall|m: Sem| #[trigger]
                alu.computes(m) ==> (*final(self), r) == phased(m, *b, *old(self), x),
    {
        let inc = alu.mul(b.phaser_rate, b.dt);
        self.ph = alu.turn(self.ph, inc);
        let angle = alu.mul(TAU, self.ph);
        let sweep = swing(alu, angle);
        let up = alu.mul(sweep, F3_4);
        let ratio = alu.pow(F2, up);
        let centre = alu.mul(F220, ratio);
        let half_turn = alu.mul(PI, centre);
        let wc = alu.div(half_turn, b.sr);
        let below = alu.sub(F1, wc);
        let above = alu.add(F1, wc);
        let a = alu.div(below, above);
        let back = alu.mul(self.fb, b.phaser_fb);
        let t = alu.add(x, back);
        let t = self.stages(alu, a, t);
        self.fb = t;
        let wet = alu.mul(t, b.phaser_mix);
        let sum = alu.add(x, wet);
        let more = alu.mul(b.phaser_mix, F0_35);
        let level = alu.add(F1, more);
        alu.div(sum, level)
    }
}

// ---------------------------------------------------------------------------
// Chorus
// ---------------------------------------------------------------------------

pub struct Chorus {
    pub ring: Box<[Bits; 8192]>,
    pub w: usize,
    pub ph: Bits,
}

/// One sample through the chorus: it is written to the ring, which is read
/// at two swept distances.
pub open spec fn chorused(m: Sem, b: AnalogBlock, s: Chorus, x: Bits) -> (Chorus, Bits) {
    let ph = m.turn(s.ph, m.mul(b.chorus_rate, b.dt));
    let ring = cells::put(*s.ring, s.w as int, x);
    let angle = m.mul(TAU, ph);
    let d1 = m.add(b.chorus_base, m.mul(b.chorus_depth, swing_of(m, angle)));
    let d2 = m.add(
        m.mul(b.chorus_base, F1_31),
        m.mul(b.chorus_depth, swing_of(m, m.add(angle, F2_094))),
    );
    let r = m.add(
        m.add(F0, ring::tapped(m, ring, s.w as int, d1)),
        ring::tapped(m, ring, s.w as int, d2),
    );
    (
        Chorus { ring: Box::new(ring), w: ring::after(s.w as int, 8192) as usize, ph },
        m.add(
            m.mul(x, m.sub(F1, m.mul(b.chorus_mix, F0_5))),
            m.mul(m.mul(r, F0_5), b.chorus_mix),
        ),
    )
}

impl Chorus {
    pub open spec fn wf(self) -> bool {
        self.w < 8192
    }

    pub open spec fn at_rest() -> Chorus {
        Chorus { ring: Box::new(cells::filled(F0)), w: 0, ph: F0 }
    }

    pub fn new() -> (r: Chorus)
        ensures
            r == Chorus::at_rest(),
    {
        Chorus { ring: Box::new([F0; 8192]), w: 0, ph: F0 }
    }

    pub fn step<F: Fn(Op, Bits, Bits) -> Bits>(
        &mut self,
        alu: &Alu<F>,
        b: &AnalogBlock,
        x: Bits,
    ) -> (r: Bits)
        requires
            alu.ready(),
            old(self).wf(),
        ensures
            final(self).wf(),
            forall|m: Sem| #[trigger]
                alu.computes(m) ==> (*final(self), r) == chorused(m, *b, *old(self), x),
    {
        let inc = alu.mul(b.chorus_rate, b.dt);
        self.ph = alu.turn(self.ph, inc);
        self.ring[self.w] = x;
        let angle = alu.mul(TAU, self.ph);
        let s1 = swing(alu, angle);
        let swept = alu.mul(b.chorus_depth, s1);
        let d1 = alu.add(b.chorus_base, swept);
        let base2 = alu.mul(b.chorus_base, F1_31);
        let shifted = alu.add(angle, F2_094);
        let s2 = swing(alu, shifted);
        let swept = alu.mul(b.chorus_depth, s2);
        let d2 = alu.add(base2, swept);
        let t1 = ring::tap(alu, &self.ring, self.w, d1);
        let r = alu.add(F0, t1);
        let t2 = ring::tap(alu, &self.ring, self.w, d2);
        let r = alu.add(r, t2);
        self.w = if self.w + 1 < CHORUS_LEN {
            self.w + 1
        } else {
            0
        };
        let half = alu.mul(b.chorus_mix, F0_5);
        let dry = alu.sub(F1, half);
        let a = alu.mul(x, dry);
        let mean = alu.mul(r, F0_5);
        let wet = alu.mul(mean, b.chorus_mix);
        alu.add(a, wet)
    }
}

// ---------------------------------------------------------------------------
// Tremolo
// ---------------------------------------------------------------------------

/// One sample through the tremolo: its phase and the value.
pub open spec fn trembled(m: Sem, b: AnalogBlock, ph: Bits, x: Bits) -> (Bits, Bits) {
    let ph = m.turn(ph, m.mul(b.trem_rate, b.dt));
    (ph, m.mul(x, m.sub(F1, m.mul(b.trem_depth, swing_of(m, m.mul(TAU, ph))))))
}

pub fn tremble<F: Fn(Op, Bits, Bits) -> Bits>(alu: &Alu<F>, b: &AnalogBlock, ph: Bits, x: Bits) -> (r:
    (Bits, Bits))
    requires
        alu.ready(),
    ensures
        forall|m: Sem| #[trigger] alu.computes(m) ==> r == trembled(m, *b, ph, x),
{
    let inc = alu.mul(b.trem_rate, b.dt);
    let ph = alu.turn(ph, inc);
    let angle = alu.mul(TAU, ph);
    let s = swing(alu, angle);
    let dip = alu.mul(b.trem_depth, s);
    let gain = alu.sub(F1, dip);
    let y = alu.mul(x, gain);
    (ph, y)
}

} // verus!
