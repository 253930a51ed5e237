//! Digital distortion: six curves, a tone tilt and a block against the
//! constant part that the biased ones leave behind.

use crate::alu::{Alu, Op, Sem};
use crate::consts::{
    F0, F0_0009, F0_004, F0_012, F0_02, F0_05, F0_18, F0_45, F0_5, F0_55, F0_6, F0_6667, F0_8, F0_9,
    F0_92, F0_995, F1, F10, F11, F12, F120, F14, F1_35, F1_45, F1_5, F2, F23, F3, F300, F4, F4_5,
    F59, F7, PI, TAU,
};
use crate::params;
use crate::params::map_p;
use crate::word;
use crate::word::Bits;
use vstd::prelude::*;

verus! {

/// The curves.
#[derive(Clone, Copy, Debug, PartialEq, Eq)]
pub enum Curve {
    /// Cubic soft clipper with hard rails.
    Clip,
    /// Crossover notch and uneven rails.
    Push,
    /// Slew limit into a rail clip.
    Slew,
    /// Gain driven by a level follower.
    Comp,
    /// Sample hold and coarse steps.
    Crush,
    /// Resonant feedback howl.
    Scream,
}

/// Curve `n` of the list; every number from 5 on is the last.
pub open spec fn curve_of(n: u32) -> Curve {
    if n == 0 {
        Curve::Clip
    } else if n == 1 {
        Curve::Push
    } else if n == 2 {
        Curve::Slew
    } else if n == 3 {
        Curve::Comp
    } else if n == 4 {
        Curve::Crush
    } else {
        Curve::Scream
    }
}

pub fn curve(n: u32) -> (r: Curve)
    ensures
        r == curve_of(n),
{
    match n {
        0 => Curve::Clip,
        1 => Curve::Push,
        2 => Curve::Slew,
        3 => Curve::Comp,
        4 => Curve::Crush,
        _ => Curve::Scream,
    }
}

/// What lasts from sample to sample.
#[derive(Clone, Copy, Debug)]
pub struct Distortion {
    pub slew_y: Bits,
    pub comp_env: Bits,
    pub crush_hold: Bits,
    pub crush_cnt: i32,
    pub scr_lp: Bits,
    pub scr_bp: Bits,
    pub scr_env: Bits,
    pub tone_lp: Bits,
    pub dc_x: Bits,
    pub dc_y: Bits,
}

/// What is fixed for a block.
#[derive(Clone, Copy, Debug)]
pub struct DistortionBlock {
    pub mix: Bits,
    pub curve: Curve,
    pub drive: Bits,
    pub tone: Bits,
    pub bias: Bits,
    /// Input gain and offset.
    pub gain: Bits,
    pub offset: Bits,
    /// Coefficient of the tone filter.
    pub tone_k: Bits,
    /// Most that the slew limiter moves in a sample.
    pub slew: Bits,
    /// Steps per unit, and samples per hold, of the crusher.
    pub crush_q: Bits,
    pub crush_n: i32,
    /// Frequency and feedback of the howl.
    pub scr_f: Bits,
    pub scr_fb: Bits,
}

/// Coefficient of a one-pole low-pass whose cutoff lies `octaves * x` octaves
/// above `base`.
pub open spec fn pole_of(m: Sem, base: Bits, octaves: Bits, x: Bits, sr: Bits) -> Bits {
    let cutoff = m.mul(base, m.pow(F2, m.mul(x, octaves)));
    m.sub(F1, m.exp(m.div(m.mul(word::neg_of(TAU), cutoff), sr)))
}

pub fn pole<F: Fn(Op, Bits, Bits) -> Bits>(
    alu: &Alu<F>,
    base: Bits,
    octaves: Bits,
    x: Bits,
    sr: Bits,
) -> (r: Bits)
    requires
        alu.ready(),
    ensures
        forall|m: Sem| #[trigger] alu.computes(m) ==> r == pole_of(m, base, octaves, x, sr),
{
    let up = alu.mul(x, octaves);
    let ratio = alu.pow(F2, up);
    let cutoff = alu.mul(base, ratio);
    let turn = alu.mul(word::neg(TAU), cutoff);
    let per_sample = alu.div(turn, sr);
    let left = alu.exp(per_sample);
    alu.sub(F1, left)
}

pub open spec fn block_of(m: Sem, q: [Bits; 63], sr: Bits) -> DistortionBlock {
    let drive = params::mapped(m, 58, q[58]);
    let tone = params::mapped(m, 60, q[60]);
    let bias = params::mapped(m, 61, q[61]);
    DistortionBlock {
        mix: params::mapped(m, 62, q[62]),
        curve: curve_of(
            word::saturated(
                word::trunc_of(word::round_of(params::mapped(m, 59, q[59]))),
                0,
                u32::MAX as int,
            ) as u32,
        ),
        drive,
        tone,
        bias,
        gain: m.add(F1, m.mul(m.mul(drive, drive), F59)),
        offset: m.mul(m.sub(bias, F0_5), F0_6),
        tone_k: pole_of(m, F300, F4, tone, sr),
        slew: m.div(F0_45, m.add(F1, m.mul(drive, F14))),
        crush_q: m.pow(F2, m.sub(F12, m.mul(drive, F10))),
        crush_n: 1i32.wrapping_add(
            word::saturated(
                word::trunc_of(m.mul(drive, F23)),
                i32::MIN as int,
                i32::MAX as int,
            ) as i32,
        ),
        scr_f: m.sin(
            m.mul(
                PI,
                word::min_of(F0_45, m.div(m.mul(F120, m.pow(F2, m.mul(tone, F4_5))), sr)),
            ),
        ),
        scr_fb: m.mul(drive, F1_35),
    }
}

pub fn block<F: Fn(Op, Bits, Bits) -> Bits>(alu: &Alu<F>, q: &[Bits; 63], sr: Bits) -> (r:
    DistortionBlock)
    requires
        alu.ready(),
    ensures
        forall|m: Sem| #[trigger] alu.computes(m) ==> r == block_of(m, *q, sr),
{
    let mix = map_p(alu, 62, q[62]);
    let drive = map_p(alu, 58, q[58]);
    let number = map_p(alu, 59, q[59]);
    let curve = curve(word::to_u32(word::round(number)));
    let tone = map_p(alu, 60, q[60]);
    let bias = map_p(alu, 61, q[61]);
    let squared = alu.mul(drive, drive);
    let boost = alu.mul(squared, F59);
    let gain = alu.add(F1, boost);
    let lean = alu.sub(bias, F0_5);
    let offset = alu.mul(lean, F0_6);
    let tone_k = pole(alu, F300, F4, tone, sr);
    let haste = alu.mul(drive, F14);
    let brake = alu.add(F1, haste);
    let slew = alu.div(F0_45, brake);
    let lost = alu.mul(drive, F10);
    let depth = alu.sub(F12, lost);
    let crush_q = alu.pow(F2, depth);
    let held = alu.mul(drive, F23);
    let crush_n: i32 = 1i32.wrapping_add(word::to_i32(held));
    let up = alu.mul(tone, F4_5);
    let ratio = alu.pow(F2, up);
    let cutoff = alu.mul(F120, ratio);
    let part = alu.div(cutoff, sr);
    let angle = alu.mul(PI, word::min(F0_45, part));
    let scr_f = alu.sin(angle);
    let scr_fb = alu.mul(drive, F1_35);
    DistortionBlock {
        mix,
        curve,
        drive,
        tone,
        bias,
        gain,
        offset,
        tone_k,
        slew,
        crush_q,
        crush_n,
        scr_f,
        scr_fb,
    }
}

// ---------------------------------------------------------------------------
// The curves
// ---------------------------------------------------------------------------

/// `v - v^3 / 3` between the rails, two thirds beyond them, times 1.5.
pub open spec fn clipped(m: Sem, v: Bits) -> Bits {
    let y = if word::below(F1, v) {
        F0_6667
    } else if word::below(v, word::neg_of(F1)) {
        word::neg_of(F0_6667)
    } else {
        m.sub(v, m.div(m.mul(m.mul(v, v), v), F3))
    };
    m.mul(y, F1_5)
}

/// Small values are squeezed towards zero; then a saturation whose slope
/// differs on the two sides of zero.
pub open spec fn pushed(m: Sem, bias: Bits, v: Bits) -> Bits {
    let notch = m.add(F0_02, m.mul(bias, F0_05));
    let size = word::abs_of(v);
    let v = if word::below(size, notch) {
        m.mul(v, m.div(size, notch))
    } else {
        v
    };
    let lean = m.mul(m.sub(bias, F0_5), F0_8);
    if word::at_least(v, F0) {
        m.tanh(m.mul(v, m.add(F1, lean)))
    } else {
        m.tanh(m.mul(v, m.sub(F1, lean)))
    }
}

/// What the curve of a block makes of `x`, driven up to `v`: the state that
/// it leaves and the value.
pub open spec fn curved(m: Sem, b: DistortionBlock, s: Distortion, x: Bits, v: Bits) -> (
    Distortion,
    Bits,
) {
    match b.curve {
        Curve::Clip => (s, clipped(m, v)),
        Curve::Push => (s, pushed(m, b.bias, v)),
        Curve::Slew => {
            let y = m.add(
                s.slew_y,
                word::clamp_of(m.sub(v, s.slew_y), word::neg_of(b.slew), b.slew),
            );
            (
                Distortion { slew_y: y, ..s },
                m.div(word::clamp_of(y, word::neg_of(F0_9), F0_9), F0_9),
            )
        },
        Curve::Comp => {
            let size = word::abs_of(x);
            let k = if word::below(s.comp_env, size) {
                F0_012
            } else {
                F0_0009
            };
            let env = m.lerp(s.comp_env, size, k);
            let over = m.mul(v, m.add(F1, m.mul(b.drive, F7)));
            let under = m.add(F1, m.mul(m.mul(env, b.drive), F11));
            (Distortion { comp_env: env, ..s }, m.tanh(m.mul(m.div(over, under), F0_6)))
        },
        Curve::Crush => {
            let cnt = s.crush_cnt.wrapping_sub(1);
            let (hold, cnt) = if cnt <= 0 {
                (m.tanh(v), b.crush_n)
            } else {
                (s.crush_hold, cnt)
            };
            (
                Distortion { crush_hold: hold, crush_cnt: cnt, ..s },
                m.div(word::round_of(m.mul(hold, b.crush_q)), b.crush_q),
            )
        },
        Curve::Scream => {
            let swell = m.add(F1, m.mul(s.scr_env, F0_5));
            let y = m.tanh(m.add(v, m.mul(m.mul(s.scr_bp, b.scr_fb), swell)));
            let hp = m.sub(m.sub(y, s.scr_lp), m.mul(F0_18, s.scr_bp));
            let bp = word::clamp_of(
                m.add(s.scr_bp, m.mul(b.scr_f, hp)),
                word::neg_of(F3),
                F3,
            );
            (
                Distortion {
                    scr_env: m.lerp(s.scr_env, word::abs_of(y), F0_004),
                    scr_bp: bp,
                    scr_lp: m.add(s.scr_lp, m.mul(b.scr_f, bp)),
                    ..s
                },
                m.mul(y, F0_92),
            )
        },
    }
}

/// One sample through the distortion: the curve, the tone tilt, the block
/// against the constant part, and the mix with the dry signal.
pub open spec fn distorted(m: Sem, b: DistortionBlock, s: Distortion, x: Bits) -> (
    Distortion,
    Bits,
) {
    let v = m.add(m.mul(x, b.gain), b.offset);
    let (s, y) = curved(m, b, s, x, v);
    let low = m.chase(s.tone_lp, y, b.tone_k);
    let tilt = m.mul(b.tone, F0_9);
    let tilted = m.add(
        m.mul(low, m.sub(F1_45, tilt)),
        m.mul(m.sub(y, low), m.add(F0_55, tilt)),
    );
    let wet = m.add(m.sub(tilted, s.dc_x), m.mul(F0_995, s.dc_y));
    (
        Distortion { tone_lp: low, dc_x: tilted, dc_y: wet, ..s },
        m.add(m.mul(x, m.sub(F1, b.mix)), m.mul(wet, b.mix)),
    )
}

fn clip<F: Fn(Op, Bits, Bits) -> Bits>(alu: &Alu<F>, v: Bits) -> (r: Bits)
    requires
        alu.ready(),
    ensures
        forall|m: Sem| #[trigger] alu.computes(m) ==> r == clipped(m, v),
{
    let y = if word::lt(F1, v) {
        F0_6667
    } else if word::lt(v, word::neg(F1)) {
        word::neg(F0_6667)
    } else {
        let v2 = alu.mul(v, v);
        let v3 = alu.mul(v2, v);
        let third = alu.div(v3, F3);
        alu.sub(v, third)
    };
    alu.mul(y, F1_5)
}

fn push<F: Fn(Op, Bits, Bits) -> Bits>(alu: &Alu<F>, bias: Bits, v: Bits) -> (r: Bits)
    requires
        alu.ready(),
    ensures
        forall|m: Sem| #[trigger] alu.computes(m) ==> r == pushed(m, bias, v),
{
    let wide = alu.mul(bias, F0_05);
    let notch = alu.add(F0_02, wide);
    let size = word::abs(v);
    let v = if word::lt(size, notch) {
        let part = alu.div(size, notch);
        alu.mul(v, part)
    } else {
        v
    };
    let off = alu.sub(bias, F0_5);
    let lean = alu.mul(off, F0_8);
    let slope = if word::ge(v, F0) {
        alu.add(F1, lean)
    } else {
        alu.sub(F1, lean)
    };
    let driven = alu.mul(v, slope);
    alu.tanh(driven)
}

impl Distortion {
    pub open spec fn at_rest() -> Distortion {
        Distortion {
            slew_y: F0,
            comp_env: F0,
            crush_hold: F0,
            crush_cnt: 0,
            scr_lp: F0,
            scr_bp: F0,
            scr_env: F0,
            tone_lp: F0,
            dc_x: F0,
            dc_y: F0,
        }
    }

    pub fn new() -> (r: Distortion)
        ensures
            r == Distortion::at_rest(),
    {
        Distortion {
            slew_y: F0,
            comp_env: F0,
            crush_hold: F0,
            crush_cnt: 0,
            scr_lp: F0,
            scr_bp: F0,
            scr_env: F0,
            tone_lp: F0,
            dc_x: F0,
            dc_y: F0,
        }
    }

    fn shape<F: Fn(Op, Bits, Bits) -> Bits>(
        &mut self,
        alu: &Alu<F>,
        b: &DistortionBlock,
        x: Bits,
        v: Bits,
    ) -> (r: Bits)
        requires
            alu.ready(),
        ensures
            forall|m: Sem| #[trigger]
                alu.computes(m) ==> (*final(self), r) == curved(m, *b, *old(self), x, v),
    {
        match b.curve {
            Curve::Clip => clip(alu, v),
            Curve::Push => push(alu, b.bias, v),
            Curve::Slew => {
                let jump = alu.sub(v, self.slew_y);
                let step = word::clamp(jump, word::neg(b.slew), b.slew);
                self.slew_y = alu.add(self.slew_y, step);
                alu.div(word::clamp(self.slew_y, word::neg(F0_9), F0_9), F0_9)
            },
            Curve::Comp => {
                let size = word::abs(x);
                let k = if word::lt(self.comp_env, size) {
                    F0_012
                } else {
                    F0_0009
                };
                self.comp_env = alu.lerp(self.comp_env, size, k);
                let more = alu.mul(b.drive, F7);
                let gain = alu.add(F1, more);
                let over = alu.mul(v, gain);
                let level = alu.mul(self.comp_env, b.drive);
                let less = alu.mul(level, F11);
                let under = alu.add(F1, less);
                let held = alu.div(over, under);
                let soft = alu.mul(held, F0_6);
                alu.tanh(soft)
            },
            Curve::Crush => {
                self.crush_cnt = self.crush_cnt.wrapping_sub(1);
                if self.crush_cnt <= 0 {
                    self.crush_cnt = b.crush_n;
                    self.crush_hold = alu.tanh(v);
                }
                let fine = alu.mul(self.crush_hold, b.crush_q);
                alu.div(word::round(fine), b.crush_q)
            },
            Curve::Scream => {
                let rise = alu.mul(self.scr_env, F0_5);
                let swell = alu.add(F1, rise);
                let back = alu.mul(self.scr_bp, b.scr_fb);
                let howl = alu.mul(back, swell);
                let fed = alu.add(v, howl);
                let y = alu.tanh(fed);
                self.scr_env = alu.lerp(self.scr_env, word::abs(y), F0_004);
                let above = alu.sub(y, self.scr_lp);
                let damp = alu.mul(F0_18, self.scr_bp);
                let hp = alu.sub(above, damp);
                let rush = alu.mul(b.scr_f, hp);
                let bp = alu.add(self.scr_bp, rush);
                self.scr_bp = word::clamp(bp, word::neg(F3), F3);
                let drift = alu.mul(b.scr_f, self.scr_bp);
                self.scr_lp = alu.add(self.scr_lp, drift);
                alu.mul(y, F0_92)
            },
        }
    }

    pub fn step<F: Fn(Op, Bits, Bits) -> Bits>(
        &mut self,
        alu: &Alu<F>,
        b: &DistortionBlock,
        x: Bits,
    ) -> (r: Bits)
        requires
            alu.ready(),
        ensures
            forall|m: Sem| #[trigger]
                alu.computes(m) ==> (*final(self), r) == distorted(m, *b, *old(self), x),
    {
        let up = alu.mul(x, b.gain);
        let v = alu.add(up, b.offset);
        let y = self.shape(alu, b, x, v);
        self.tone_lp = alu.chase(self.tone_lp, y, b.tone_k);
        let tilt = alu.mul(b.tone, F0_9);
        let dark = alu.sub(F1_45, tilt);
        let low = alu.mul(self.tone_lp, dark);
        let rest = alu.sub(y, self.tone_lp);
        let bright = alu.add(F0_55, tilt);
        let high = alu.mul(rest, bright);
        let tilted = alu.add(low, high);
        let moved = alu.sub(tilted, self.dc_x);
        let kept = alu.mul(F0_995, self.dc_y);
        let wet = alu.add(moved, kept);
        self.dc_x = tilted;
        self.dc_y = wet;
        let dry = alu.sub(F1, b.mix);
        let a = alu.mul(x, dry);
        let c = alu.mul(wet, b.mix);
        alu.add(a, c)
    }
}

} // verus!
