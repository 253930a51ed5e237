//! The parameters: what range each one spans, and how its normalized setting
//! maps onto that range.

use crate::alu::{Alu, Op, Sem};
use crate::consts::{
    F0, F0_001, F0_002, F0_005, F0_02, F0_05, F0_08, F0_1, F0_4, F0_5, F0_9, F0_95, F1, F12, F1_2,
    F2, F3, F30, F4, F5, F6, F8,
};
use crate::word;
use crate::word::Bits;
use vstd::prelude::*;

verus! {

/// How many parameters there are.
pub const NP: usize = 63;

/// Lower end, upper end, and whether the scale between them is exponential.
pub const RANGES: [(Bits, Bits, bool); 63] = [
    // sub level, morph, drive
    (F0, F1, false),
    (F0, F1, false),
    (F0, F1, false),
    // pitch drop, its decay
    (F0, F1, false),
    (F0_005, F0_4, true),
    // click level, its decay
    (F0, F1, false),
    (F0_002, F0_08, true),
    // overtone level, tilt, spread
    (F0, F1, false),
    (F0, F1, false),
    (F0, F1, false),
    // overtones 1 to 16
    (F0, F1, false),
    (F0, F1, false),
    (F0, F1, false),
    (F0, F1, false),
    (F0, F1, false),
    (F0, F1, false),
    (F0, F1, false),
    (F0, F1, false),
    (F0, F1, false),
    (F0, F1, false),
    (F0, F1, false),
    (F0, F1, false),
    (F0, F1, false),
    (F0, F1, false),
    (F0, F1, false),
    (F0, F1, false),
    // texture level, morph, grain, detune
    (F0, F1, false),
    (F0, F1, false),
    (F0, F1, false),
    (F0, F1, false),
    // attack, decay, sustain, release
    (F0_001, F2, true),
    (F0_02, F4, true),
    (F0, F1, false),
    (F0_02, F6, true),
    // first sweep: rate, depth, shape
    (F0_05, F30, true),
    (F0, F1, false),
    (F0, F3, false),
    // master
    (F0, F1, false),
    // second sweep: rate, depth, shape
    (F0_05, F30, true),
    (F0, F1, false),
    (F0, F3, false),
    // phaser mix, rate, regeneration
    (F0, F1, false),
    (F0_05, F8, true),
    (F0, F0_9, false),
    // chorus mix, rate, depth
    (F0, F1, false),
    (F0_1, F5, true),
    (F0, F1, false),
    // tremolo depth, rate
    (F0, F1, false),
    (F0_5, F12, true),
    // drift
    (F0, F1, false),
    // delay mix, time, feedback, color
    (F0, F1, false),
    (F0_02, F1_2, true),
    (F0, F0_95, false),
    (F0, F1, false),
    // reverb mix, size, decay, bleed
    (F0, F1, false),
    (F0, F1, false),
    (F0, F1, false),
    (F0, F1, false),
    // distortion drive, mode, tone
    (F0, F1, false),
    (F0, F5, false),
    (F0, F1, false),
    // distortion bias, mix
    (F0, F1, false),
    (F0, F1, false),
];

/// What setting `x` of parameter `i` stands for: `x` is brought into 0 ..= 1
/// and placed on the parameter's range, in proportion or, on an exponential
/// scale, by ratio.
pub open spec fn mapped(m: Sem, i: int, x: Bits) -> Bits {
    let (lo, hi, exponential) = RANGES[i];
    let x = word::clamp_of(x, F0, F1);
    if exponential {
        m.mul(lo, m.pow(m.div(hi, lo), x))
    } else {
        m.add(lo, m.mul(m.sub(hi, lo), x))
    }
}

pub fn map_p<F: Fn(Op, Bits, Bits) -> Bits>(alu: &Alu<F>, i: usize, x: Bits) -> (r: Bits)
    requires
        alu.ready(),
        i < NP,
    ensures
        forall|m: Sem| #[trigger] alu.computes(m) ==> r == mapped(m, i as int, x),
{
    let (lo, hi, exponential) = RANGES[i];
    let x = word::clamp(x, F0, F1);
    if exponential {
        let ratio = alu.div(hi, lo);
        let p = alu.pow(ratio, x);
        alu.mul(lo, p)
    } else {
        let span = alu.sub(hi, lo);
        let p = alu.mul(span, x);
        alu.add(lo, p)
    }
}

} // verus!
