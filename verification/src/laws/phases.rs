//! What holds of the phases and clocks of a voice.

use crate::alu::Sem;
use crate::block;
use crate::block::Block;
use crate::consts::{
    F0, F0_0009, F0_005, F0_012, F0_4, F0_48, F1, F1E_5, F6, GRAIN_FADE,
};
use crate::engine;
use crate::engine::RiotCore;
use crate::laws;
use crate::laws::rack::RATE_MOST;
use crate::laws::voices::{voice_of, RATE_LEAST};
use crate::params;
use crate::params::RANGES;
use crate::pool;
use crate::render;
use crate::rng;
use crate::rounding;
use crate::voice;
use crate::voice::Voice;
use crate::word;
use crate::word::{Bits, WideBits};
use vstd::arithmetic::power2::*;
use vstd::prelude::*;

verus! {

/// The sample rates that the laws on phases speak of: 8000 to 192000.
pub open spec fn usual_rate(sr: Bits) -> bool {
    word::between(RATE_LEAST, sr, RATE_MOST)
}

/// Phases and fade of a voice lie in 0 ..= 1: those of the overtones and the
/// fade always, those of the texture where the pitch is 0.9 of the sample rate
/// at most, that of the sub oscillator, whose pitch starts up to seven times
/// higher, where it is an eighth at most. The time since the note started
/// stands still behind 8192 seconds.
pub open spec fn in_phase(v: Voice, sr: Bits) -> bool {
    &&& word::between(F0, v.f0, 0x4c80_0000)
    &&& word::between(F0, v.t, 0x4600_0001)
    &&& word::between(F0, v.g_fade, F1)
    &&& forall|p: int| 0 <= p < 16 ==> word::between(F0, #[trigger] v.ph_a[p], F1)
    &&& 10 * word::value(v.f0) <= 9 * word::value(sr) ==> {
        &&& word::between(F0, v.ph_t, F1)
        &&& word::between(F0, v.ph_t2, F1)
    }
    &&& 8 * word::value(v.f0) <= word::value(sr) ==> word::between(F0, v.ph_s, F1)
}

// ---------------------------------------------------------------------------
// How far a phase moves
// ---------------------------------------------------------------------------

proof fn lemma_marks()
    ensures
        word::value(0x4180_0000) == 16 * word::one(),
        word::value(0x4380_0000) == 256 * word::one(),
        word::value(0x4480_0000) == 1024 * word::one(),
        word::value(0x4580_0000) == 4096 * word::one(),
        word::value(0x4680_0000) == 0x4000 * word::one(),
        word::value(0x4880_0000) == 0x4_0000 * word::one(),
        word::value(0x4c80_0000) == 0x400_0000 * word::one(),
        word::value(0x4e80_0000) == 0x4000_0000 * word::one(),
        256 * word::value(0x3b80_0000) == word::one(),
        64 * word::value(0x3c80_0000) == word::one(),
        4096 * word::value(0x3980_0000) == word::one(),
        word::value(F6) == 6 * word::one(),
{
    lemma2_to64();
    rounding::lemma_one();
    rounding::lemma_power(0x4180_0000);
    rounding::lemma_power(0x4380_0000);
    rounding::lemma_power(0x4480_0000);
    rounding::lemma_power(0x4580_0000);
    rounding::lemma_power(0x4680_0000);
    rounding::lemma_power(0x4880_0000);
    rounding::lemma_power(0x4c80_0000);
    rounding::lemma_power(0x4e80_0000);
    rounding::lemma_power(0x3b80_0000);
    rounding::lemma_power(0x3c80_0000);
    rounding::lemma_power(0x3980_0000);
    lemma_pow2_adds(149, 4);
    lemma_pow2_adds(149, 8);
    lemma_pow2_adds(149, 10);
    lemma_pow2_adds(149, 12);
    lemma_pow2_adds(149, 14);
    lemma_pow2_adds(149, 18);
    lemma_pow2_adds(149, 26);
    lemma_pow2_adds(149, 30);
    lemma_pow2_adds(141, 8);
    lemma_pow2_adds(143, 6);
    lemma_pow2_adds(137, 12);
    lemma_pow2_adds(21, 128);
    assert(word::value(F6) == 0xc0_0000 * pow2(128));
}

pub proof fn lemma_rate(sr: Bits)
    requires
        usual_rate(sr),
    ensures
        word::finite(sr),
        4096 * word::one() <= word::value(sr) <= 0x4_0000 * word::one(),
{
    lemma_marks();
    rounding::lemma_between(RATE_LEAST, sr, RATE_MOST);
    rounding::lemma_rank_is_value(0x4580_0000, RATE_LEAST);
    rounding::lemma_rank_is_value(RATE_MOST, 0x4880_0000);
}

/// A pitch below the sample rate moves a phase by less than one turn a sample.
pub proof fn lemma_moves(m: Sem, sr: Bits, f: Bits)
    requires
        m.rounds(),
        usual_rate(sr),
        word::finite(f),
        0 <= 100 * word::value(f) <= 99 * word::value(sr),
    ensures
        word::between(F0, m.mul(f, m.div(F1, sr)), F1),
{
    rounding::lemma_one();
    rounding::lemma_far();
    lemma_rate(sr);
    laws::voices::lemma_sample_time(m, sr);
    let one = word::one() as int;
    let oo = one * one;
    let dt = m.div(F1, sr);
    rounding::lemma_between(F0, dt, 0x3980_0000);
    let s = word::value(sr);
    let d = word::value(dt);
    let v = word::value(f);
    let least = word::value(0x0080_0000);
    let inf = word::value(0x7f80_0000);
    assert(least * s <= oo) by (nonlinear_arith)
        requires
            0 < 0x1_0000_0000 * least <= one,
            0 <= s <= 0x4_0000 * one,
            oo == one * one,
    ;
    assert(oo < inf * s) by (nonlinear_arith)
        requires
            inf >= 0x1_0000_0000 * one,
            s >= 4096 * one,
            one > 0,
            oo == one * one,
    ;
    assert(rounding::nearest(dt, oo, s)) by {
        reveal(Sem::rounds);
    }
    rounding::lemma_nearest_close(dt, oo, s);
    assert(0 <= 100 * (v * d) <= 99 * (d * s)) by (nonlinear_arith)
        requires
            0 <= 100 * v <= 99 * s,
            d >= 0,
    ;
    assert(0 * one == 0) by (nonlinear_arith);
    rounding::lemma_product(m, f, dt, F0, F1);
}

/// What passes the guard at 0.48 of the sample rate lies below it.
pub proof fn lemma_guarded(m: Sem, sr: Bits, pitch: Bits)
    requires
        m.rounds(),
        usual_rate(sr),
        word::finite(pitch),
        !word::below(m.mul(sr, F0_48), pitch),
    ensures
        100 * word::value(pitch) <= 99 * word::value(sr),
{
    lemma2_to64();
    rounding::lemma_one();
    rounding::lemma_far();
    lemma_rate(sr);
    let one = word::one() as int;
    let limit = m.mul(sr, F0_48);
    rounding::lemma_power(0x3f00_0000);
    lemma_pow2_adds(148, 1);
    rounding::lemma_rank_is_value(F0_48, 0x3f00_0000);
    rounding::lemma_rank_is_value(F0, F0_48);
    rounding::lemma_part(m, sr, F0_48);
    let s = word::value(sr);
    let c = word::value(F0_48);
    let l = word::value(limit);
    let inf = word::value(0x7f80_0000);
    assert(0 <= 2 * (s * c) <= s * one) by (nonlinear_arith)
        requires
            0 <= 2 * c <= one,
            s >= 0,
    ;
    assert(s * one < inf * one) by (nonlinear_arith)
        requires
            s < inf,
            one > 0,
    ;
    assert(rounding::nearest(limit, s * c, one)) by {
        reveal(Sem::rounds);
    }
    rounding::lemma_nearest_near(limit, s * c, one);
    assert(100 * (l * one) <= 51 * (s * one) + 100 * one);
    assert(100 * l <= 51 * s + 100) by (nonlinear_arith)
        requires
            100 * (l * one) <= 51 * (s * one) + 100 * one,
            one > 0,
    ;
    rounding::lemma_rank_is_value(limit, pitch);
}

/// A product of two values that are not negative, by bounds counted in ones.
pub proof fn lemma_times(m: Sem, x: Bits, y: Bits, a: int, b: int, hi: Bits)
    requires
        m.rounds(),
        word::finite(x),
        word::finite(y),
        word::finite(hi),
        0 <= word::value(x) <= a * word::one(),
        0 <= word::value(y) <= b * word::one(),
        a * b * word::one() <= word::value(hi),
        a >= 0,
        b >= 0,
    ensures
        word::finite(m.mul(x, y)),
        0 <= word::value(m.mul(x, y)) <= word::value(hi),
{
    rounding::lemma_one();
    let one = word::one() as int;
    let v = word::value(x);
    let w = word::value(y);
    let h = word::value(hi);
    assert(0 * one <= v * w <= h * one) by (nonlinear_arith)
        requires
            0 <= v <= a * one,
            0 <= w <= b * one,
            a * b * one <= h,
            a >= 0,
            b >= 0,
            one > 0,
    ;
    rounding::lemma_product(m, x, y, F0, hi);
}

/// The pitch of an overtone is a finite value.
pub proof fn lemma_partial_pitch(m: Sem, b: Block, f0: Bits, i: int)
    requires
        m.rounds(),
        word::between(F0, b.spread, F1),
        word::between(F0, f0, 0x4c80_0000),
        0 <= i < 16,
    ensures
        word::finite(render::partial_pitch(m, b, f0, i)),
        word::value(render::partial_pitch(m, b, f0, i)) >= 0,
{
    lemma2_to64();
    rounding::lemma_one();
    lemma_marks();
    rounding::lemma_between(F0, f0, 0x4c80_0000);
    let one = word::one() as int;
    let n = word::from_nat((i + 1) as nat);
    rounding::lemma_whole(i + 1);
    assert(0 <= (i + 1) * one <= 16 * one) by (nonlinear_arith)
        requires
            0 <= i < 16,
            one > 0,
    ;
    rounding::lemma_rank_is_value(F0, F0_0009);
    rounding::lemma_rank_is_value(F0_0009, F1);
    rounding::lemma_part(m, F0_0009, b.spread);
    let wide = m.mul(b.spread, F0_0009);
    lemma_times(m, wide, n, 1, 16, 0x4180_0000);
    let wide = m.mul(wide, n);
    lemma_times(m, wide, n, 16, 16, 0x4380_0000);
    let wide = m.mul(wide, n);
    rounding::lemma_sum(m, F1, wide, F0, 0x4480_0000);
    lemma_times(m, f0, n, 0x400_0000, 16, 0x4e80_0000);
    rounding::lemma_power(0x5380_0000);
    lemma_pow2_adds(149, 40);
    lemma_pow2_adds(20, 20);
    let c = pow2(40) as int;
    let k = pow2(20) as int;
    assert(0x4000_0000 * 1024 * one <= word::value(0x5380_0000)) by (nonlinear_arith)
        requires
            word::value(0x5380_0000) == one * c,
            c == k * k,
            k == 0x10_0000,
            one > 0,
    ;
    lemma_times(m, m.mul(f0, n), m.add(F1, wide), 0x4000_0000, 1024, 0x5380_0000);
}

// ---------------------------------------------------------------------------
// One sample
// ---------------------------------------------------------------------------

/// The time since the note started stands still where a sample is lost in
/// rounding.
proof fn lemma_time(m: Sem, t: Bits, dt: Bits)
    requires
        m.rounds(),
        word::between(F0, t, 0x4600_0001),
        word::between(F0, dt, 0x3980_0000),
    ensures
        word::between(F0, m.add(t, dt), 0x4600_0001),
{
    lemma2_to64();
    rounding::lemma_one();
    lemma_marks();
    let top: Bits = 0x4600_0001;
    let next: Bits = 0x4600_0002;
    rounding::lemma_between(F0, t, top);
    rounding::lemma_between(F0, dt, 0x3980_0000);
    let c = pow2(139) as int;
    lemma_pow2_adds(139, 10);
    lemma_pow2_adds(137, 2);
    assert(word::value(top) == 0x80_0001 * c && word::value(next) == 0x80_0002 * c);
    rounding::lemma_power(0x3980_0000);
    let r = m.add(t, dt);
    let sum = word::value(t) + word::value(dt);
    assert(rounding::nearest(r, sum, 1)) by {
        reveal(Sem::rounds);
    }
    rounding::lemma_nearest_within(r, sum, 1, F0, next);
    let v = word::value(r);
    rounding::lemma_rank_is_value(r, top);
    rounding::lemma_rank_is_value(r, next);
    if v > word::value(top) {
        assert(word::value(top) * 1 == word::value(top) && v * 1 == v);
        assert(rounding::gap(v * 1, sum) <= rounding::gap(word::value(top) * 1, sum)) by {
            reveal(rounding::nearest);
        }
    }
    rounding::lemma_between(F0, r, top);
}

/// What the settings of a block leave a voice to work with.
pub open spec fn mild(m: Sem, b: Block) -> bool {
    &&& usual_rate(b.sr)
    &&& b.dt == m.div(F1, b.sr)
    &&& b.p_top <= 16
    &&& word::between(F0, b.p_drop, F1)
    &&& word::finite(b.p_dec)
    &&& 256 * word::value(b.p_dec) >= word::one()
    &&& word::value(b.p_dec) <= word::one()
    &&& word::between(F0, b.spread, F1)
    &&& word::between(F0, b.det, F1)
}

pub proof fn lemma_decayed(m: Sem, t: Bits, time: Bits)
    requires
        m.rounds(),
        m.decays(),
        word::between(F0, t, 0x4600_0001),
        word::finite(time),
        256 * word::value(time) >= word::one(),
    ensures
        word::between(F0, render::decayed(m, t, time), F1),
{
    lemma2_to64();
    rounding::lemma_one();
    lemma_marks();
    rounding::lemma_between(F0, t, 0x4600_0001);
    rounding::lemma_rank_is_value(0x4600_0001, 0x4680_0000);
    let one = word::one() as int;
    let back = word::neg_of(t);
    let lo: Bits = 0xca80_0000;
    rounding::lemma_power(0x4a80_0000);
    lemma_pow2_adds(149, 22);
    assert(word::value(lo) == -word::value(0x4a80_0000));
    let v = word::value(t);
    let w = word::value(time);
    assert(word::value(back) == -v);
    let l = word::value(lo);
    assert(l * w <= (-v) * one <= 0 * w) by (nonlinear_arith)
        requires
            l == -0x40_0000 * one,
            256 * w >= one,
            0 <= v <= 0x4000 * one,
            one > 0,
    ;
    rounding::lemma_quotient(m, back, time, lo, F0);
    rounding::lemma_between(lo, m.div(back, time), F0);
    reveal(Sem::decays);
}

proof fn lemma_sub_phase(m: Sem, b: Block, v: Voice)
    requires
        m.rounds(),
        m.decays(),
        mild(m, b),
        in_phase(v, b.sr),
        8 * word::value(v.f0) <= word::value(b.sr),
    ensures
        word::between(F0, render::sub_tone(m, b, v).0, F1),
{
    rounding::lemma_one();
    rounding::lemma_far();
    lemma_marks();
    lemma_rate(b.sr);
    rounding::lemma_between(F0, v.f0, 0x4c80_0000);
    lemma_decayed(m, v.t, b.p_dec);
    rounding::lemma_part(m, F6, b.p_drop);
    let drop = m.mul(b.p_drop, F6);
    let left = render::decayed(m, v.t, b.p_dec);
    rounding::lemma_part(m, drop, left);
    let above = m.mul(drop, left);
    lemma_seven();
    rounding::lemma_sum(m, F1, above, F0, 0x40e0_0000);
    let ratio = m.add(F1, above);
    lemma_scaled_pitch(m, v.f0, ratio);
    lemma_moves(m, b.sr, m.mul(v.f0, ratio));
    laws::modulation::lemma_turn(m, v.ph_s, m.mul(m.mul(v.f0, ratio), b.dt));
}

proof fn lemma_seven()
    ensures
        word::value(0x40e0_0000) == 7 * word::one(),
{
    lemma2_to64();
    lemma_pow2_adds(21, 128);
    assert(word::value(0x40e0_0000) == 0xe0_0000 * pow2(128));
}

/// A pitch raised by a ratio of up to 7, or up to 65/64.
pub proof fn lemma_scaled_pitch(m: Sem, f0: Bits, ratio: Bits)
    requires
        m.rounds(),
        word::between(F0, f0, 0x4c80_0000),
        word::finite(ratio),
        0 <= word::value(ratio) <= 7 * word::one(),
    ensures
        word::finite(m.mul(f0, ratio)),
        0 <= word::value(m.mul(f0, ratio)),
        1000 * word::value(m.mul(f0, ratio)) <= 7001 * word::value(f0) + 1000,
        64 * word::value(ratio) <= 65 * word::one() ==> 1000 * word::value(m.mul(f0, ratio))
            <= 1016 * word::value(f0) + 1000,
{
    rounding::lemma_one();
    rounding::lemma_far();
    lemma_marks();
    rounding::lemma_between(F0, f0, 0x4c80_0000);
    let one = word::one() as int;
    let v = word::value(f0);
    let w = word::value(ratio);
    let inf = word::value(0x7f80_0000);
    lemma_times(m, f0, ratio, 0x400_0000, 7, 0x4e80_0000);
    assert(0 <= v * w < inf * one) by (nonlinear_arith)
        requires
            0 <= v <= 0x400_0000 * one,
            0 <= w <= 7 * one,
            inf >= 0x1_0000_0000 * one,
            one > 0,
    ;
    assert(rounding::nearest(m.mul(f0, ratio), v * w, one)) by {
        reveal(Sem::rounds);
    }
    rounding::lemma_nearest_near(m.mul(f0, ratio), v * w, one);
    let p = word::value(m.mul(f0, ratio));
    let vo = v * one;
    assert(v * w <= 7 * vo) by (nonlinear_arith)
        requires
            vo == v * one,
            0 <= v,
            w <= 7 * one,
    ;
    assert(1000 * p <= 7001 * v + 1000) by (nonlinear_arith)
        requires
            1000 * (p * one) <= 7001 * vo + 1000 * one,
            vo == v * one,
            one > 0,
    ;
    if 64 * w <= 65 * one {
        assert(64 * (v * w) <= 65 * vo) by (nonlinear_arith)
            requires
                vo == v * one,
                0 <= v,
                64 * w <= 65 * one,
        ;
        assert(1000 * p <= 1016 * v + 1000) by (nonlinear_arith)
            requires
                1000 * (p * one) <= 1016 * vo + 1000 * one,
                vo == v * one,
                one > 0,
        ;
    }
}

pub proof fn lemma_overtone_phases(m: Sem, b: Block, f0: Bits, ph: [Bits; 16], k: nat)
    requires
        m.rounds(),
        mild(m, b),
        word::between(F0, f0, 0x4c80_0000),
        k <= 16,
        forall|p: int| 0 <= p < 16 ==> word::between(F0, #[trigger] ph[p], F1),
    ensures
        forall|p: int|
            0 <= p < 16 ==> word::between(
                F0,
                #[trigger] render::partials(m, b, f0, ph, k).0[p],
                F1,
            ),
    decreases k,
{
    if k > 0 {
        let i = k - 1;
        lemma_overtone_phases(m, b, f0, ph, i as nat);
        let before = render::partials(m, b, f0, ph, i as nat).0;
        let pitch = render::partial_pitch(m, b, f0, i);
        lemma_partial_pitch(m, b, f0, i);
        if !(word::below(b.w[i], F1E_5) || word::below(m.mul(b.sr, F0_48), pitch)) {
            lemma_guarded(m, b.sr, pitch);
            lemma_moves(m, b.sr, pitch);
            assert(word::between(F0, before[i], F1));
            laws::modulation::lemma_turn(m, before[i], m.mul(pitch, b.dt));
        }
    }
}

proof fn lemma_grain_phase(m: Sem, b: Block, v: Voice, state: u32)
    requires
        m.rounds(),
        in_phase(v, b.sr),
    ensures
        in_phase(render::grained(m, b, v, state).0, b.sr),
        render::grained(m, b, v, state).0.f0 == v.f0,
{
    rounding::lemma_one();
    if b.grain_len > 0 {
        let cnt = v.g_cnt.wrapping_sub(1);
        let s2 = rng::next_of(rng::next_of(state));
        rng::law_unit_range(s2);
        let fade = if cnt <= 0 {
            F0
        } else {
            v.g_fade
        };
        rounding::lemma_between(F0, fade, F1);
        rounding::lemma_rank_is_value(F0, GRAIN_FADE);
        rounding::lemma_rank_is_value(GRAIN_FADE, F1);
        lemma_marks();
        rounding::lemma_sum(m, fade, GRAIN_FADE, F0, 0x4180_0000);
    }
}

proof fn lemma_texture_phase(m: Sem, b: Block, t: [Bits; 131072], v: Voice, state: u32)
    requires
        m.rounds(),
        mild(m, b),
        in_phase(v, b.sr),
    ensures
        in_phase(render::textured(m, b, t, v, state).0, b.sr),
        render::textured(m, b, t, v, state).0.f0 == v.f0,
{
    lemma_grain_phase(m, b, v, state);
    let g = render::grained(m, b, v, state).0;
    if 10 * word::value(v.f0) <= 9 * word::value(b.sr) {
        rounding::lemma_one();
        lemma_marks();
        lemma_rate(b.sr);
        rounding::lemma_between(F0, v.f0, 0x4c80_0000);
        lemma_moves(m, b.sr, v.f0);
        laws::modulation::lemma_turn(m, g.ph_t, m.mul(v.f0, b.dt));
        rounding::lemma_rank_is_value(F0, F0_012);
        rounding::lemma_rank_is_value(F0_012, 0x3c80_0000);
        rounding::lemma_part(m, F0_012, b.det);
        let off = m.mul(b.det, F0_012);
        lemma_slightly();
        rounding::lemma_sum(m, F1, off, F0, 0x3f82_0000);
        let ratio = m.add(F1, off);
        lemma_scaled_pitch(m, v.f0, ratio);
        lemma_moves(m, b.sr, m.mul(v.f0, ratio));
        laws::modulation::lemma_turn(m, g.ph_t2, m.mul(m.mul(v.f0, ratio), b.dt));
    }
}

proof fn lemma_slightly()
    ensures
        64 * word::value(0x3f82_0000) == 65 * word::one(),
{
    lemma2_to64();
    lemma_pow2_adds(23, 126);
    assert(word::value(0x3f82_0000) == 0x82_0000 * pow2(126));
}

/// A voice as the texture finds it is in phase.
pub proof fn lemma_before_texture(m: Sem, b: Block, v: Voice, state: u32)
    requires
        m.rounds(),
        m.decays(),
        mild(m, b),
        in_phase(v, b.sr),
    ensures
        ({
            let e = voice::enveloped(m, b.slopes, v);
            let v1 = render::sub_step(m, b, e, state).0;
            let v2 = Voice {
                ph_a: render::partials(m, b, v1.f0, v1.ph_a, b.p_top as nat).0,
                ..v1
            };
            in_phase(v2, b.sr)
        }),
{
    let e = voice::enveloped(m, b.slopes, v);
    assert(in_phase(e, b.sr));
    if 8 * word::value(v.f0) <= word::value(b.sr) {
        lemma_sub_phase(m, b, e);
    }
    let v1 = render::sub_step(m, b, e, state).0;
    assert(in_phase(v1, b.sr));
    lemma_overtone_phases(m, b, v1.f0, v1.ph_a, b.p_top as nat);
}

pub proof fn lemma_sample_phase(m: Sem, b: Block, t: [Bits; 131072], v: Voice, state: u32)
    requires
        m.rounds(),
        m.decays(),
        mild(m, b),
        in_phase(v, b.sr),
    ensures
        in_phase(render::voiced(m, b, t, v, state).0, b.sr),
{
    let e = voice::enveloped(m, b.slopes, v);
    assert(in_phase(e, b.sr));
    if e.on {
        let (v1, state1, _) = render::sub_step(m, b, e, state);
        lemma_before_texture(m, b, v, state);
        let v2 = Voice {
            ph_a: render::partials(m, b, v1.f0, v1.ph_a, b.p_top as nat).0,
            ..v1
        };
        lemma_texture_phase(m, b, t, v2, state1);
        lemma_rate(b.sr);
        laws::voices::lemma_sample_time(m, b.sr);
        lemma_time(m, v2.t, b.dt);
    }
}

// ---------------------------------------------------------------------------
// A block
// ---------------------------------------------------------------------------

pub proof fn lemma_run_phase(m: Sem, b: Block, t: [Bits; 131072], from: render::Track, k: nat)
    requires
        m.rounds(),
        m.decays(),
        mild(m, b),
        in_phase(from.voice, b.sr),
    ensures
        in_phase(render::voice_run(m, b, t, from, k).voice, b.sr),
    decreases k,
{
    if k > 0 {
        lemma_run_phase(m, b, t, from, (k - 1) as nat);
        let s = render::voice_run(m, b, t, from, (k - 1) as nat);
        if s.voice.on {
            lemma_sample_phase(m, b, t, s.voice, s.state);
        }
    }
}

pub proof fn lemma_mild(m: Sem, q: [Bits; 63], sr: Bits, active: nat, n_frames: nat)
    requires
        m.rounds(),
        m.powers_in_range(),
        usual_rate(sr),
        !word::is_nan(q[3]),
        !word::is_nan(q[4]),
        !word::is_nan(q[9]),
        !word::is_nan(q[29]),
    ensures
        mild(m, block::block_of(m, q, sr, active, n_frames)),
        block::block_of(m, q, sr, active, n_frames).sr == sr,
{
    lemma_marks();
    assert(RANGES[3] == (F0, F1, false));
    assert(RANGES[4] == (F0_005, F0_4, true));
    assert(RANGES[9] == (F0, F1, false));
    assert(RANGES[29] == (F0, F1, false));
    laws::settings::law_proportion(m, 3, q[3]);
    laws::settings::law_ratio(m, 4, q[4]);
    laws::settings::law_proportion(m, 9, q[9]);
    laws::settings::law_proportion(m, 29, q[29]);
    let dec = params::mapped(m, 4, q[4]);
    rounding::lemma_rank_is_value(F0_005, dec);
    rounding::lemma_rank_is_value(0x3b80_0000, F0_005);
    lemma_half();
    rounding::lemma_rank_is_value(F0_4, 0x3f00_0000);
    rounding::lemma_one();
}

proof fn lemma_half()
    ensures
        2 * word::value(0x3f00_0000) == word::one(),
{
    lemma2_to64();
    rounding::lemma_power(0x3f00_0000);
    lemma_pow2_adds(148, 1);
}

/// A block leaves every phase, fade and clock of a voice in bounds.
pub proof fn law_phases_bounded(
    m: Sem,
    c: spec_fn(WideBits, usize, Bits) -> WideBits,
    s: RiotCore,
    n: usize,
    i: int,
)
    requires
        m.rounds(),
        m.powers_in_range(),
        m.decays(),
        usual_rate(s.sr),
        !word::is_nan(laws::voices::modulated(m, s, n)[3]),
        !word::is_nan(laws::voices::modulated(m, s, n)[4]),
        !word::is_nan(laws::voices::modulated(m, s, n)[9]),
        !word::is_nan(laws::voices::modulated(m, s, n)[29]),
        0 <= i < 10,
        in_phase(voice_of(s, i), s.sr),
    ensures
        in_phase(voice_of(engine::processed(m, c, s, n).0, i), s.sr),
{
    let q = laws::voices::modulated(m, s, n);
    let b = laws::voices::shared(m, s, n);
    lemma_mild(m, q, s.sr, engine::sounding(s), s.n_frames as nat);
    let r = laws::voices::lemma_block_voice(m, c, s, n, i);
    lemma_run_phase(m, b, *s.table, r, n as nat);
}

/// Where the phases, fades and clocks of all voices are in bounds, those of
/// every voice still are after a note has started, has ended or was cut off;
/// those of a voice that has never sounded are in any case.
pub proof fn law_notes_stay_in_phase(m: Sem, s: RiotCore, note: u8, vel: Bits, i: int)
    requires
        m.rounds(),
        m.doubles(),
        forall|j: int| 0 <= j < 10 ==> in_phase(#[trigger] voice_of(s, j), s.sr),
        0 <= i < 10,
    ensures
        in_phase(Voice::silent(), s.sr),
        in_phase(voice_of(engine::started(m, s, note, vel), i), s.sr),
        in_phase(engine::released(voice_of(s, i), note), s.sr),
        in_phase(engine::hushed(voice_of(s, i)), s.sr),
{
    laws::settings::lemma_pitch_range(m, note);
    pool::lemma_slots(s.voices@);
    pool::lemma_slots(s.tails@);
    let r1 = rng::next_of(s.rng);
    rng::law_unit_range(r1);
    rng::law_unit_range(rng::next_of(r1));
    assert(in_phase(voice_of(s, i), s.sr));
    let after = engine::started(m, s, note, vel);
    let j = pool::slot_for_note(s.voices@) as int;
    assert(in_phase(voice_of(s, j), s.sr));
    if i < 8 {
        if i != j {
            assert(after.voices[i] == s.voices[i]);
        }
    } else {
        let taken = s.voices@[j];
        assert(taken == s.voices[j]);
        assert(after.tails[i - 8] == s.tails[i - 8] || after.tails[i - 8] == pool::tail_of(taken));
    }
}

} // verus!
