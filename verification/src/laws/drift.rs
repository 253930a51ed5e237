//! What holds of the drift, the sweeps and the delay time of the rack.

use crate::alu::Sem;
use crate::consts::{
    F0, F0_004, F0_02, F0_03, F0_04, F0_05, F0_07, F0_1, F0_5, F1, F12, F131068, F1_2, F5, F8,
};
use crate::fx;
use crate::fx::analog;
use crate::fx::analog::Phaser;
use crate::fx::hybrid;
use crate::fx::{Fx, RackBlock};
use crate::laws;
use crate::laws::phases::usual_rate;
use crate::params;
use crate::params::RANGES;
use crate::rng;
use crate::rounding;
use crate::word;
use crate::word::Bits;
use vstd::arithmetic::power2::*;
use vstd::prelude::*;

verus! {

/// The drift lies in -1 ..= 1, the phases of phaser, chorus and tremolo lie in
/// 0 ..= 1, and the delay time lies within the ring.
pub open spec fn steady(s: Fx) -> bool {
    &&& word::between(0xbf80_0000, s.drift, F1)
    &&& word::between(F0, s.phaser.ph, F1)
    &&& word::between(F0, s.chorus.ph, F1)
    &&& word::between(F0, s.trem_ph, F1)
    &&& word::between(F0, s.delay.smp, F131068)
}

proof fn lemma_marks()
    ensures
        word::value(0xbf80_0000) == -word::one(),
        word::value(0x4000_0000) == 2 * word::one(),
        word::value(0x4200_0000) == 32 * word::one(),
        word::value(0x4900_0000) == 0x8_0000 * word::one(),
        word::value(F5) <= 12 * word::one(),
        word::value(F8) <= 12 * word::one(),
        word::value(F12) == 12 * word::one(),
        word::value(F1_2) <= word::value(0x3fc0_0000),
        2 * word::value(0x3fc0_0000) == 3 * word::one(),
{
    lemma2_to64();
    rounding::lemma_one();
    rounding::lemma_power(0x4000_0000);
    rounding::lemma_power(0x4200_0000);
    rounding::lemma_power(0x4900_0000);
    lemma_pow2_adds(149, 1);
    lemma_pow2_adds(149, 5);
    lemma_pow2_adds(149, 19);
    lemma_pow2_adds(20, 129);
    lemma_pow2_adds(23, 126);
    assert(word::value(F12) == 0xc0_0000 * pow2(129));
    assert(word::value(0x3fc0_0000) == 0xc0_0000 * pow2(126));
    rounding::lemma_rank_is_value(F5, F12);
    rounding::lemma_rank_is_value(F8, F12);
    rounding::lemma_rank_is_value(F1_2, 0x3fc0_0000);
    assert(word::value(0xbf80_0000) == -word::value(F1));
}

/// The random walk stays in -1 ..= 1.
proof fn lemma_wandered(m: Sem, s: Fx)
    requires
        m.rounds(),
        word::between(0xbf80_0000, s.drift, F1),
    ensures
        word::between(0xbf80_0000, fx::wandered(m, s).drift, F1),
{
    rounding::lemma_one();
    lemma_marks();
    let ratio = rng::ratio_of(rng::next_of(s.rng));
    rng::law_ratio_range(rng::next_of(s.rng));
    laws::modulation::lemma_twice(m, ratio);
    let goal = m.sub(m.mul(ratio, 0x4000_0000), F1);
    rounding::lemma_between(0xbf80_0000, goal, F1);
    rounding::lemma_between(0xbf80_0000, s.drift, F1);
    assert(word::value(0xc000_0000) == -word::value(0x4000_0000));
    rounding::lemma_difference(m, goal, s.drift, 0xc000_0000, 0x4000_0000);
    rounding::lemma_lerp_between(m, s.drift, goal, F0_004);
    rounding::lemma_between(0xbf80_0000, m.lerp(s.drift, goal, F0_004), F1);
}

/// A product of two values in -1 ..= 1 and 0 ..= 1.
proof fn lemma_damped(m: Sem, x: Bits, k: Bits)
    requires
        m.rounds(),
        word::between(0xbf80_0000, x, F1),
        word::between(F0, k, F1),
    ensures
        word::between(0xbf80_0000, m.mul(x, k), F1),
{
    rounding::lemma_one();
    lemma_marks();
    rounding::lemma_between(0xbf80_0000, x, F1);
    rounding::lemma_between(F0, k, F1);
    let one = word::one() as int;
    let v = word::value(x);
    let w = word::value(k);
    assert((-one) * one <= v * w <= one * one) by (nonlinear_arith)
        requires
            -one <= v <= one,
            0 <= w <= one,
    ;
    rounding::lemma_product(m, x, k, 0xbf80_0000, F1);
}

/// A rate of the section, pulled by the drift, moves a phase by less than one
/// turn a sample.
proof fn lemma_pulled(m: Sem, sr: Bits, rate: Bits, drift: Bits, pull: Bits)
    requires
        m.rounds(),
        usual_rate(sr),
        word::finite(rate),
        0 <= word::value(rate) <= 16 * word::one(),
        word::between(0xbf80_0000, drift, F1),
        word::between(F0, pull, F1),
    ensures
        word::between(F0, m.mul(analog::drifted(m, rate, drift, pull), m.div(F1, sr)), F1),
{
    rounding::lemma_one();
    lemma_marks();
    lemma_damped(m, drift, pull);
    let off = m.mul(drift, pull);
    rounding::lemma_between(0xbf80_0000, off, F1);
    rounding::lemma_sum(m, F1, off, F0, 0x4000_0000);
    laws::phases::lemma_times(m, rate, m.add(F1, off), 16, 2, 0x4200_0000);
    laws::phases::lemma_rate(sr);
    laws::phases::lemma_moves(m, sr, analog::drifted(m, rate, drift, pull));
}

/// The delay time glides towards its goal within the ring.
proof fn lemma_glides(m: Sem, smp: Bits, goal: Bits)
    requires
        m.rounds(),
        word::between(F0, smp, F131068),
        word::between(F0, goal, F131068),
    ensures
        word::between(F0, m.lerp(smp, goal, F0_03), F131068),
{
    rounding::lemma_one();
    rounding::lemma_between(F0, smp, F131068);
    rounding::lemma_between(F0, goal, F131068);
    let low = word::neg_of(F131068);
    assert(word::value(low) == -word::value(F131068));
    rounding::lemma_difference(m, goal, smp, low, F131068);
    rounding::lemma_lerp_between(m, smp, goal, F0_03);
    rounding::lemma_between(F0, m.lerp(smp, goal, F0_03), F131068);
}

proof fn lemma_delay_goal(m: Sem, q: [Bits; 63], sr: Bits)
    requires
        m.rounds(),
        m.powers_in_range(),
        usual_rate(sr),
        !word::is_nan(q[51]),
    ensures
        word::between(F0, hybrid::block_of(m, q, sr).delay_goal, F131068),
{
    rounding::lemma_one();
    lemma_marks();
    assert(RANGES[51] == (F0_02, F1_2, true));
    laws::settings::law_ratio(m, 51, q[51]);
    let time = params::mapped(m, 51, q[51]);
    rounding::lemma_rank_is_value(F0, F0_02);
    rounding::lemma_rank_is_value(F0_02, time);
    laws::phases::lemma_rate(sr);
    laws::phases::lemma_times(m, time, sr, 2, 0x4_0000, 0x4900_0000);
    rounding::lemma_rank_is_value(F0, m.mul(time, sr));
}

proof fn lemma_staged_phase(m: Sem, a: Bits, s: Phaser, t: Bits, k: nat)
    ensures
        analog::staged(m, a, s, t, k).0.ph == s.ph,
    decreases k,
{
    if k > 0 {
        lemma_staged_phase(m, a, s, t, (k - 1) as nat);
    }
}

/// The phases of the section move by less than one turn a sample.
spec fn slow(m: Sem, b: RackBlock) -> bool {
    let a = b.analog;
    &&& word::between(F0, m.mul(a.phaser_rate, a.dt), F1)
    &&& word::between(F0, m.mul(a.chorus_rate, a.dt), F1)
    &&& word::between(F0, m.mul(a.trem_rate, a.dt), F1)
}

proof fn lemma_steady_step(m: Sem, b: RackBlock, s: Fx, x: Bits)
    requires
        m.rounds(),
        slow(m, b),
        steady(s),
    ensures
        steady(fx::rack_step(m, b, s, x).0),
{
    let a = b.analog;
    laws::modulation::lemma_turn(m, s.phaser.ph, m.mul(a.phaser_rate, a.dt));
    laws::modulation::lemma_turn(m, s.chorus.ph, m.mul(a.chorus_rate, a.dt));
    laws::modulation::lemma_turn(m, s.trem_ph, m.mul(a.trem_rate, a.dt));
    assert forall|y: Bits| (#[trigger] analog::phased(m, a, s.phaser, y)).0.ph == m.turn(
        s.phaser.ph,
        m.mul(a.phaser_rate, a.dt),
    ) by {
        lemma_phased(m, a, s.phaser, y);
    }
}

pub proof fn lemma_phased(m: Sem, a: analog::AnalogBlock, s: Phaser, x: Bits)
    ensures
        analog::phased(m, a, s, x).0.ph == m.turn(s.ph, m.mul(a.phaser_rate, a.dt)),
{
    assert forall|k: Bits, t: Bits|
        (#[trigger] analog::staged(
            m,
            k,
            Phaser { ph: m.turn(s.ph, m.mul(a.phaser_rate, a.dt)), ..s },
            t,
            6,
        )).0.ph == m.turn(s.ph, m.mul(a.phaser_rate, a.dt)) by {
        lemma_staged_phase(
            m,
            k,
            Phaser { ph: m.turn(s.ph, m.mul(a.phaser_rate, a.dt)), ..s },
            t,
            6,
        );
    }
}

proof fn lemma_steady_run(m: Sem, b: RackBlock, s: Fx, out: Seq<Bits>, k: nat)
    requires
        m.rounds(),
        slow(m, b),
        steady(s),
    ensures
        steady(fx::rack_run(m, b, s, out, k).0),
    decreases k,
{
    if k > 0 {
        let i = k - 1;
        lemma_steady_run(m, b, s, out, i as nat);
        let (s1, o1) = fx::rack_run(m, b, s, out, i as nat);
        lemma_steady_step(m, b, s1, o1[i]);
    }
}

/// A new rack is steady, and every block leaves a steady one steady: the drift
/// stays in -1 ..= 1, the phases in 0 ..= 1 and the delay time within the ring.
pub proof fn law_rack_stays_steady(m: Sem, q: [Bits; 63], sr: Bits, s: Fx, out: Seq<Bits>)
    requires
        m.rounds(),
        m.powers_in_range(),
        usual_rate(sr),
        !word::is_nan(q[42]),
        !word::is_nan(q[45]),
        !word::is_nan(q[48]),
        !word::is_nan(q[49]),
        !word::is_nan(q[51]),
        steady(s),
    ensures
        steady(Fx::at_rest()),
        steady(fx::racked(m, q, sr, s, out).0),
{
    if fx::gates_of(m, q).any() {
        let w = fx::wandered(m, s);
        let b = fx::rack_block(m, q, sr, w.drift);
        rounding::lemma_one();
        lemma_marks();
        lemma_wandered(m, s);
        assert(RANGES[42] == (F0_05, F8, true));
        assert(RANGES[45] == (F0_1, F5, true));
        assert(RANGES[48] == (F0_5, F12, true));
        assert(RANGES[49] == (F0, F1, false));
        laws::settings::law_ratio(m, 42, q[42]);
        laws::settings::law_ratio(m, 45, q[45]);
        laws::settings::law_ratio(m, 48, q[48]);
        laws::settings::law_proportion(m, 49, q[49]);
        let dr = m.mul(w.drift, params::mapped(m, 49, q[49]));
        lemma_damped(m, w.drift, params::mapped(m, 49, q[49]));
        let x = params::mapped(m, 42, q[42]);
        let y = params::mapped(m, 45, q[45]);
        let z = params::mapped(m, 48, q[48]);
        rounding::lemma_rank_is_value(F0, x);
        rounding::lemma_rank_is_value(F0, y);
        rounding::lemma_rank_is_value(F0, z);
        lemma_pulled(m, sr, x, dr, F0_07);
        lemma_pulled(m, sr, y, dr, F0_05);
        lemma_pulled(m, sr, z, dr, F0_04);
        lemma_delay_goal(m, q, sr);
        lemma_glides(m, s.delay.smp, b.hybrid.delay_goal);
        let s1 = Fx {
            delay: hybrid::delay_moved(m, b.hybrid, w.delay),
            reverb: hybrid::reverb_moved(m, b.hybrid, w.reverb),
            ..w
        };
        lemma_steady_run(m, b, s1, out, out.len());
    }
}

} // verus!
