//! How fast the phases of a voice move.

use crate::alu::Sem;
use crate::block::Block;
use crate::consts::{F0, F0_0009, F0_001, F0_012, F0_48, F1, F1E_5, F6};
use crate::engine;
use crate::engine::RiotCore;
use crate::laws;
use crate::laws::phases::{in_phase, mild, usual_rate};
use crate::laws::voices::voice_of;
use crate::params;
use crate::params::RANGES;
use crate::render;
use crate::rounding;
use crate::rounding::reals;
use crate::rounding::reals::{dist, near, num, size};
use crate::voice;
use crate::voice::Voice;
use crate::word;
use crate::word::{Bits, WideBits};
use vstd::arithmetic::power2::*;
use vstd::prelude::*;

verus! {

/// A phase has gone from `a` to `b` by way of `way` turns, give or take
/// `most`, whole turns apart.
pub open spec fn moved(a: Bits, b: Bits, way: real, most: real) -> bool {
    exists|k: int| dist(#[trigger] turned(b, k), num(a) + way) <= most
}

/// A phase and `k` whole turns.
pub open spec fn turned(x: Bits, k: int) -> real {
    num(x) + (k as real)
}

proof fn lemma_moved_on(a: Bits, b: Bits, c: Bits, w1: real, w2: real, t1: real, t2: real)
    requires
        moved(a, b, w1, t1),
        moved(b, c, w2, t2),
    ensures
        moved(a, c, w1 + w2, t1 + t2),
{
    let j = choose|k: int| dist(#[trigger] turned(b, k), num(a) + w1) <= t1;
    let l = choose|k: int| dist(#[trigger] turned(c, k), num(b) + w2) <= t2;
    let k = j + l;
    assert(k as real == (j as real) + (l as real));
    assert(dist(turned(c, k), num(a) + (w1 + w2)) <= t1 + t2);
}

proof fn lemma_not_moved(a: Bits)
    ensures
        moved(a, a, 0real, 0real),
{
    let k = 0int;
    assert(dist(turned(a, k), num(a) + 0real) <= 0real);
}

pub proof fn lemma_rate(sr: Bits)
    requires
        usual_rate(sr),
    ensures
        word::finite(sr),
        4096real <= num(sr) <= 262144real,
{
    laws::phases::lemma_rate(sr);
    rounding::lemma_one();
    reals::lemma_num(F0, F1);
    reals::lemma_multiples(F1, sr, 4096, 1);
    reals::lemma_multiples(sr, F1, 1, 0x4_0000);
}

/// What one sample at the pitch `f` comes to.
pub proof fn lemma_inc(m: Sem, sr: Bits, f: Bits)
    requires
        m.rounds(),
        usual_rate(sr),
        word::finite(f),
        0real <= 100real * num(f) <= 99real * num(sr),
    ensures
        dist(num(m.mul(f, m.div(F1, sr))), num(f) / num(sr)) <= 3real / 8388608real,
        0real <= num(f) / num(sr) <= 99real / 100real,
        word::between(F0, m.mul(f, m.div(F1, sr)), F1),
{
    reals::lemma_tiny();
    reals::lemma_num(F0, F1);
    lemma_rate(sr);
    reals::lemma_multiples(F0, f, 1, 100);
    reals::lemma_multiples(f, sr, 100, 99);
    rounding::lemma_one();
    laws::phases::lemma_moves(m, sr, f);
    let s = num(sr);
    let v = num(f);
    let dt = m.div(F1, sr);
    let q = 1real / s;
    assert(0real < q && q * s == 1real && q <= 1real) by (nonlinear_arith)
        requires
            q == 1real / s,
            s >= 4096real,
    ;
    reals::lemma_div(m, F1, sr);
    let d = num(dt);
    let way = v / s;
    assert(way == v * q) by (nonlinear_arith)
        requires
            way == v / s,
            q == 1real / s,
            s > 0real,
    ;
    assert(0real <= way && 100real * way <= 99real) by (nonlinear_arith)
        requires
            way == v * q,
            q * s == 1real,
            q > 0real,
            0real <= 100real * v <= 99real * s,
    ;
    let t = reals::tiny();
    assert(dist(v * d, way) <= way / 8388608real + v * t) by (nonlinear_arith)
        requires
            way == v * q,
            v >= 0real,
            dist(d, q) <= q / 8388608real + t,
            dist(d, q) == d - q || dist(d, q) == q - d,
            dist(v * d, way) == v * d - way || dist(v * d, way) == way - v * d,
    ;
    assert(v * t <= 262144real * t) by (nonlinear_arith)
        requires
            v <= 262144real,
            t > 0real,
    ;
    reals::lemma_mul(m, f, dt);
    let inc = m.mul(f, dt);
}

/// One sample at the pitch `f` moves a phase by `f / sr` turns.
pub proof fn lemma_moves(m: Sem, sr: Bits, ph: Bits, f: Bits)
    requires
        m.rounds(),
        usual_rate(sr),
        word::between(F0, ph, F1),
        word::finite(f),
        0real <= 100real * num(f) <= 99real * num(sr),
    ensures
        moved(
            ph,
            m.turn(ph, m.mul(f, m.div(F1, sr))),
            num(f) / num(sr),
            8real / 8388608real,
        ),
        word::between(F0, m.turn(ph, m.mul(f, m.div(F1, sr))), F1),
{
    reals::lemma_tiny();
    reals::lemma_num(F0, F1);
    reals::lemma_within(F0, ph, F1);
    lemma_inc(m, sr, f);
    let inc = m.mul(f, m.div(F1, sr));
    let way = num(f) / num(sr);
    reals::lemma_within(F0, inc, F1);
    laws::modulation::lemma_turn(m, ph, inc);
    reals::lemma_add(m, ph, inc);
    let p = m.add(ph, inc);
    let r = m.turn(ph, inc);
    reals::lemma_num(p, F1);
    if word::at_least(p, F1) {
        reals::lemma_sub(m, p, F1);
        let k = 1int;
        assert(dist(turned(r, k), num(ph) + way) <= 8real / 8388608real);
    } else {
        let k = 0int;
        assert(dist(turned(r, k), num(ph) + way) <= 8real / 8388608real);
    }
}

/// What a block adds to a phase, where it may be many turns.
pub proof fn lemma_any_inc(m: Sem, sr: Bits, f: Bits, e: real)
    requires
        m.rounds(),
        usual_rate(sr),
        near(f, e, 3real / 4real),
        0real <= e <= 3100000real,
    ensures
        near(m.mul(f, m.div(F1, sr)), e / num(sr), 1real / 800real),
        0real <= e / num(sr) <= 757real,
{
    reals::lemma_tiny();
    reals::lemma_num(F0, F1);
    lemma_rate(sr);
    let s = num(sr);
    let one = 1real / s;
    assert(one * s == 1real && 0real < one <= 1real / 4096real) by (nonlinear_arith)
        requires
            one == 1real / s,
            s >= 4096real,
    ;
    assert(one >= 1real / 262144real) by (nonlinear_arith)
        requires
            one * s == 1real,
            0real < s <= 262144real,
    ;
    reals::lemma_div(m, F1, sr);
    let dt = m.div(F1, sr);
    let d = num(dt);
    let p = num(f);
    let way = e / s;
    assert(way == e * one) by (nonlinear_arith)
        requires
            way == e / s,
            one == 1real / s,
            s > 0real,
    ;
    assert(0real <= way <= 757real) by (nonlinear_arith)
        requires
            way == e * one,
            0real <= e <= 3100000real,
            0real < one <= 1real / 4096real,
    ;
    reals::lemma_bounded(p - e, one, 3real / 4real, 1real / 4096real);
    assert((p - e) * one == p * one - way) by (nonlinear_arith)
        requires
            way == e * one,
    ;
    reals::lemma_bounded(p, d - one, 3100001real, 1real / 4096real * 2real / 8388608real);
    assert(p * (d - one) == p * d - p * one) by (nonlinear_arith);
    reals::lemma_mul(m, f, dt);
}

// ---------------------------------------------------------------------------
// The sub oscillator
// ---------------------------------------------------------------------------

/// The pitch of the sub oscillator: that of the voice, raised by the drop.
proof fn lemma_dropped(m: Sem, b: Block, v: Voice) -> (x: Bits)
    requires
        m.rounds(),
        m.decays(),
        mild(m, b),
        in_phase(v, b.sr),
    ensures
        word::finite(x),
        dist(num(x) * num(b.p_dec), -num(v.t)) <= num(v.t) / 4194304real + 1real / 1000000000real,
        0real <= num(m.exp(x)) <= 1real,
        ({
            let ratio = 1real + 6real * (num(b.p_drop) * num(m.exp(x)));
            let f = num(v.f0);
            let pitch = m.mul(
                v.f0,
                m.add(
                    F1,
                    m.mul(m.mul(b.p_drop, F6), render::decayed(m, v.t, b.p_dec)),
                ),
            );
            &&& word::finite(pitch)
            &&& 0real <= num(pitch)
            &&& 1real <= ratio <= 7real
            &&& dist(num(pitch), f * ratio) <= 30real * f / 8388608real + reals::tiny()
        }),
{
    lemma2_to64();
    rounding::lemma_one();
    reals::lemma_tiny();
    reals::lemma_const(F6);
    reals::lemma_const(0x3b80_0000);
    reals::lemma_const(0x4600_0001);
    let t = reals::tiny();
    assert(num(0x4600_0001) == 8388609real / 1024real);
    reals::lemma_within(F0, v.t, 0x4600_0001);
    reals::lemma_within(F0, b.p_drop, F1);
    reals::lemma_multiples(F1, b.p_dec, 1, 256);
    reals::lemma_multiples(b.p_dec, F1, 1, 1);
    let dec = num(b.p_dec);
    let back = word::neg_of(v.t);
    lemma_negated(v.t);
    let tt = num(v.t);
    let way = (-tt) / dec;
    assert(way * dec == -tt) by (nonlinear_arith)
        requires
            way == (-tt) / dec,
            dec > 0real,
    ;
    assert(-3000000real <= way <= 0real) by (nonlinear_arith)
        requires
            way * dec == -tt,
            256real * dec >= 1real,
            0real <= tt <= 8193real,
    ;
    reals::lemma_div(m, back, b.p_dec);
    let x = m.div(back, b.p_dec);
    let nx = num(x);
    assert(dist(nx * dec, -tt) <= tt / 4194304real + 1real / 1000000000real) by (nonlinear_arith)
        requires
            way * dec == -tt,
            dec > 0real,
            dec <= 1real,
            dist(nx, way) <= -way / 8388608real + t,
            dist(nx, way) == nx - way || dist(nx, way) == way - nx,
            0real <= tt <= 8193real,
            0real < t <= 1real / 1000000000real,
            dist(nx * dec, -tt) == nx * dec + tt || dist(nx * dec, -tt) == -tt - nx * dec,
    ;
    laws::phases::lemma_decayed(m, v.t, b.p_dec);
    let left = render::decayed(m, v.t, b.p_dec);
    assert(left == m.exp(x));
    reals::lemma_within(F0, left, F1);
    let l = num(left);
    let pd = num(b.p_drop);
    let six = num(F6);
    assert(pow2(21) == 2097152);
    assert(six == 12582912real / 2097152real);
    assert(0real <= pd * six <= 6real) by (nonlinear_arith)
        requires
            0real <= pd <= 1real,
            six == 6real,
    ;
    reals::lemma_mul(m, b.p_drop, F6);
    let drop = m.mul(b.p_drop, F6);
    let d = num(drop);
    let dl = d * l;
    let pl = pd * l;
    assert(0real <= pl <= 1real) by (nonlinear_arith)
        requires
            pl == pd * l,
            0real <= pd <= 1real,
            0real <= l <= 1real,
    ;
    assert(dist(d, 6real * pd) <= 7real / 8388608real) by (nonlinear_arith)
        requires
            dist(d, pd * six) <= size(pd * six) / 8388608real + t,
            size(pd * six) == pd * six,
            six == 6real,
            pd <= 1real,
            dist(d, pd * six) == d - pd * six || dist(d, pd * six) == pd * six - d,
            dist(d, 6real * pd) == d - 6real * pd || dist(d, 6real * pd) == 6real * pd - d,
            t <= 1real / 1000000000real,
    ;
    assert(dist(dl, 6real * pl) <= 7real / 8388608real) by (nonlinear_arith)
        requires
            dl == d * l,
            pl == pd * l,
            0real <= l <= 1real,
            dist(d, 6real * pd) <= 7real / 8388608real,
            dist(d, 6real * pd) == d - 6real * pd || dist(d, 6real * pd) == 6real * pd - d,
            dist(d, 6real * pd) >= 0real,
            dist(dl, 6real * pl) == dl - 6real * pl || dist(dl, 6real * pl) == 6real * pl - dl,
    ;
    reals::lemma_mul(m, drop, left);
    let above = m.mul(drop, left);
    assert(dist(num(above), 6real * pl) <= 14real / 8388608real);
    reals::lemma_add(m, F1, above);
    let rise = m.add(F1, above);
    let ratio = 1real + 6real * pl;
    let n = num(rise);
    assert(dist(n, ratio) <= 22real / 8388608real);
    reals::lemma_within(F0, v.f0, 0x4c80_0000);
    lemma_pitch_top(v.f0);
    let f = num(v.f0);
    assert(0real <= f * n && f * n <= 8real * f) by (nonlinear_arith)
        requires
            0real <= f,
            0real <= n <= 8real,
    ;
    reals::lemma_mul(m, v.f0, rise);
    let pitch = m.mul(v.f0, rise);
    assert(f * n <= f * (701real / 100real)) by (nonlinear_arith)
        requires
            0real <= f,
            n <= 701real / 100real,
    ;
    assert(dist(f * n, f * ratio) <= f * (22real / 8388608real)) by (nonlinear_arith)
        requires
            0real <= f,
            dist(n, ratio) <= 22real / 8388608real,
            dist(n, ratio) == n - ratio || dist(n, ratio) == ratio - n,
            dist(f * n, f * ratio) == f * n - f * ratio || dist(f * n, f * ratio) == f * ratio - f
                * n,
    ;
    assert(dist(num(pitch), f * ratio) <= 30real * f / 8388608real + t);
    lemma_positive(m, v.f0, rise);
    x
}

/// A product of two values that are not negative is not negative.
pub proof fn lemma_positive(m: Sem, x: Bits, y: Bits)
    requires
        m.rounds(),
        word::finite(x),
        word::finite(y),
        num(x) >= 0real,
        num(y) >= 0real,
        word::finite(m.mul(x, y)),
    ensures
        num(m.mul(x, y)) >= 0real,
{
    rounding::lemma_one();
    reals::lemma_num(F0, x);
    reals::lemma_num(F0, y);
    reals::lemma_num(F0, m.mul(x, y));
    rounding::lemma_rank_is_value(F0, x);
    rounding::lemma_rank_is_value(F0, y);
    let a = word::value(x);
    let b = word::value(y);
    let top = word::value(0x7f80_0000);
    let one = word::one() as int;
    rounding::lemma_rank_is_value(x, 0x7f80_0000);
    assert(0 <= a * b) by (nonlinear_arith)
        requires
            a >= 0,
            b >= 0,
    ;
    let r = m.mul(x, y);
    assert(rounding::nearest(r, a * b, one)) by {
        reveal(Sem::rounds);
    }
    if word::value(r) < 0 {
        let w = word::value(r);
        assert(w * one < 0 && 0 * one == 0) by (nonlinear_arith)
            requires
                w < 0,
                one > 0,
        ;
        reveal(rounding::nearest);
        assert(rounding::gap(w * one, a * b) <= rounding::gap(word::value(F0) * one, a * b));
    }
    rounding::lemma_rank_is_value(F0, r);
}

pub proof fn lemma_pitch_top(f: Bits)
    requires
        word::between(F0, f, 0x4c80_0000),
    ensures
        word::finite(f),
        0real <= num(f) <= 67108864real,
{
    lemma2_to64();
    reals::lemma_within(F0, f, 0x4c80_0000);
    rounding::lemma_one();
    rounding::lemma_power(0x4c80_0000);
    lemma_pow2_adds(149, 26);
    reals::lemma_counted(0x4c80_0000, 0x400_0000, 1);
}

pub proof fn lemma_negated(x: Bits)
    requires
        !word::is_nan(x),
    ensures
        num(word::neg_of(x)) == -num(x),
        word::finite(x) ==> word::finite(word::neg_of(x)),
{
    rounding::lemma_one();
    let one = word::one() as real;
    assert(word::value(word::neg_of(x)) == -word::value(x));
    let v = word::value(x) as real;
    assert((-v) / one == -(v / one)) by (nonlinear_arith)
        requires
            one > 0real,
    ;
}

pub proof fn lemma_relax(a: Bits, b: Bits, w1: real, t1: real, w2: real, t2: real)
    requires
        moved(a, b, w1, t1),
        dist(w1, w2) + t1 <= t2,
    ensures
        moved(a, b, w2, t2),
{
    let k = choose|k: int| dist(#[trigger] turned(b, k), num(a) + w1) <= t1;
    assert(dist(turned(b, k), num(a) + w2) <= t2);
}

/// One sample of the sub oscillator.
proof fn lemma_sub_step(m: Sem, b: Block, v: Voice) -> (x: Bits)
    requires
        m.rounds(),
        m.decays(),
        mild(m, b),
        in_phase(v, b.sr),
        8real * num(v.f0) <= num(b.sr),
    ensures
        word::finite(x),
        dist(num(x) * num(b.p_dec), -num(v.t)) <= num(v.t) / 4194304real + 1real / 1000000000real,
        moved(
            v.ph_s,
            render::sub_tone(m, b, v).0,
            num(v.f0) / num(b.sr) * (1real + 6real * (num(b.p_drop) * num(m.exp(x)))),
            16real / 8388608real,
        ),
{
    let x = lemma_dropped(m, b, v);
    lemma_rate(b.sr);
    reals::lemma_tiny();
    reals::lemma_multiples(v.f0, b.sr, 8, 1);
    lemma_pitch_top(v.f0);
    let ratio = 1real + 6real * (num(b.p_drop) * num(m.exp(x)));
    let f = num(v.f0);
    let s = num(b.sr);
    let pitch = m.mul(
        v.f0,
        m.add(F1, m.mul(m.mul(b.p_drop, F6), render::decayed(m, v.t, b.p_dec))),
    );
    let p = num(pitch);
    let t = reals::tiny();
    assert(f * ratio <= 7real * f) by (nonlinear_arith)
        requires
            f >= 0real,
            ratio <= 7real,
    ;
    assert(100real * p <= 99real * s);
    lemma_moves(m, b.sr, v.ph_s, pitch);
    let q = f / s;
    assert(dist(p / s, q * ratio) <= 5real / 8388608real) by (nonlinear_arith)
        requires
            q == f / s,
            dist(p, f * ratio) <= 30real * f / 8388608real + t,
            dist(p, f * ratio) == p - f * ratio || dist(p, f * ratio) == f * ratio - p,
            dist(p / s, q * ratio) == p / s - q * ratio || dist(p / s, q * ratio) == q * ratio - p
                / s,
            8real * f <= s,
            s >= 4096real,
            0real < t <= 1real / 1000000000real,
    ;
    lemma_relax(
        v.ph_s,
        render::sub_tone(m, b, v).0,
        p / s,
        8real / 8388608real,
        q * ratio,
        16real / 8388608real,
    );
    x
}

/// One sample of the sub oscillator at any pitch up to the sample rate: the phase
/// moves by the pitch, raised by what is left of the drop, over the sample rate.
/// Above an eighth of the rate a raised pitch may go by more than a turn a
/// sample, of which one is taken off at a time.
pub proof fn law_sub_sample_moves(m: Sem, b: Block, v: Voice)
    requires
        m.rounds(),
        m.decays(),
        mild(m, b),
        in_phase(v, b.sr),
        word::finite(v.ph_s),
        0real <= num(v.ph_s) <= 1000real,
        num(v.f0) <= num(b.sr),
    ensures
        exists|x: Bits|
            {
                let left = num(b.p_drop) * num(#[trigger] m.exp(x));
                let way = num(v.f0) / num(b.sr) * (1real + 6real * left);
                let after = render::sub_tone(m, b, v).0;
                &&& word::finite(x)
                &&& dist(num(x) * num(b.p_dec), -num(v.t)) <= num(v.t) / 4194304real + 1real
                    / 1000000000real
                &&& near(after, num(v.ph_s) + way, 1real / 2000real) || near(
                    after,
                    num(v.ph_s) + way - 1real,
                    1real / 2000real,
                )
                &&& num(v.ph_s) + way > 1001real / 1000real ==> near(
                    after,
                    num(v.ph_s) + way - 1real,
                    1real / 2000real,
                )
                &&& num(v.ph_s) + way < 999real / 1000real ==> near(
                    after,
                    num(v.ph_s) + way,
                    1real / 2000real,
                )
            },
{
    let x = lemma_dropped(m, b, v);
    lemma_rate(b.sr);
    reals::lemma_tiny();
    reals::lemma_num(F0, F1);
    reals::lemma_num(F0, v.f0);
    let ratio = 1real + 6real * (num(b.p_drop) * num(m.exp(x)));
    let f = num(v.f0);
    let s = num(b.sr);
    let pitch = m.mul(
        v.f0,
        m.add(F1, m.mul(m.mul(b.p_drop, F6), render::decayed(m, v.t, b.p_dec))),
    );
    let p = num(pitch);
    let t = reals::tiny();
    let a = f * ratio;
    assert(0real <= a <= 7real * s) by (nonlinear_arith)
        requires
            a == f * ratio,
            0real <= f <= s,
            0real <= ratio <= 7real,
    ;
    let one = 1real / s;
    assert(one * s == 1real && 0real < one <= 1real / 4096real) by (nonlinear_arith)
        requires
            one == 1real / s,
            s >= 4096real,
    ;
    reals::lemma_div(m, F1, b.sr);
    let d = num(b.dt);
    let way = f / s * ratio;
    assert(way == a * one && 0real <= way <= 7real) by (nonlinear_arith)
        requires
            way == f / s * ratio,
            a == f * ratio,
            one == 1real / s,
            one * s == 1real,
            one > 0real,
            s >= 4096real,
            0real <= a <= 7real * s,
    ;
    let k = 1real / 8388608real;
    let c = 31real * s / 8388608real;
    assert(dist(p, a) <= c);
    let e = p - a;
    assert(-31real * k <= e * one <= 31real * k) by (nonlinear_arith)
        requires
            -c <= e <= c,
            c == 31real * s / 8388608real,
            k == 1real / 8388608real,
            one * s == 1real,
            one > 0real,
    ;
    assert(p * one == way + e * one) by (nonlinear_arith)
        requires
            way == a * one,
            e == p - a,
    ;
    let g = 2real * one / 8388608real;
    assert(one >= 1real / 262144real) by (nonlinear_arith)
        requires
            one * s == 1real,
            0real < s <= 262144real,
    ;
    reals::lemma_bounded(p, d - one, 8real * s, g);
    assert(8real * s * g == 16real * k) by (nonlinear_arith)
        requires
            one * s == 1real,
            g == 2real * one / 8388608real,
            k == 1real / 8388608real,
    ;
    assert(p * (d - one) == p * d - p * one) by (nonlinear_arith);
    reals::lemma_mul(m, pitch, b.dt);
    let inc = m.mul(pitch, b.dt);
    assert(near(inc, way, 60real * k));
    let ph = num(v.ph_s);
    reals::lemma_near_add(m, v.ph_s, inc, ph, way, 0real, 60real * k, 1008real);
    let sum = m.add(v.ph_s, inc);
    reals::lemma_num(F1, sum);
    reals::lemma_num(sum, F1);
    if word::at_least(sum, F1) {
        reals::lemma_near_sub(m, sum, F1, ph + way, 1real, 2100real * k, 0real, 1008real);
    }
    let after = render::sub_tone(m, b, v).0;
    assert(dist(num(x) * num(b.p_dec), -num(v.t)) <= num(v.t) / 4194304real + 1real / 1000000000real);
}

proof fn lemma_sub_run(m: Sem, b: Block, t: [Bits; 131072], from: render::Track, k: nat)
    requires
        m.rounds(),
        m.decays(),
        mild(m, b),
        in_phase(from.voice, b.sr),
        8real * num(from.voice.f0) <= num(b.sr),
        num(b.p_drop) == 0real,
        render::voice_run(m, b, t, from, k).voice.on,
    ensures
        moved(
            from.voice.ph_s,
            render::voice_run(m, b, t, from, k).voice.ph_s,
            (k as real) * (num(from.voice.f0) / num(b.sr)),
            (k as real) * (16real / 8388608real),
        ),
    decreases k,
{
    let f = num(from.voice.f0) / num(b.sr);
    if k == 0 {
        lemma_not_moved(from.voice.ph_s);
        assert((k as real) * f == 0real) by (nonlinear_arith)
            requires
                k == 0,
        ;
        assert((k as real) * (16real / 8388608real) == 0real);
    } else {
        let j = (k - 1) as nat;
        laws::voices::lemma_sounded(m, b, t, from, j, k);
        lemma_sub_run(m, b, t, from, j);
        laws::phases::lemma_run_phase(m, b, t, from, j);
        laws::voices::lemma_run_ages(m, b, t, from, j);
        let s = render::voice_run(m, b, t, from, j);
        let e = voice::enveloped(m, b.slopes, s.voice);
        let x = lemma_sub_step(m, b, e);
        let w = render::voice_run(m, b, t, from, k).voice;
        assert(w.ph_s == render::sub_tone(m, b, e).0);
        let z = num(m.exp(x));
        assert(f * (1real + 6real * (num(b.p_drop) * z)) == f) by (nonlinear_arith)
            requires
                num(b.p_drop) == 0real,
        ;
        lemma_moved_on(
            from.voice.ph_s,
            e.ph_s,
            w.ph_s,
            (j as real) * f,
            f,
            (j as real) * (16real / 8388608real),
            16real / 8388608real,
        );
        assert((j as real) * f + f == (k as real) * f) by (nonlinear_arith)
            requires
                k as real == (j as real) + 1real,
        ;
    }
}

// ---------------------------------------------------------------------------
// Overtones
// ---------------------------------------------------------------------------

/// The pitch of overtone `p` on a note of `f0` cycles per second: a multiple,
/// stretched by the spread.
pub open spec fn overtone_pitch(f0: real, p: int, spread: real) -> real {
    let n = (p + 1) as real;
    f0 * n * (1real + spread * (9real / 10000real) * (n * n))
}

proof fn lemma_small_part()
    ensures
        dist(num(F0_0009), 9real / 10000real) <= 1real / 10000000000real,
        word::finite(F0_0009),
{
    lemma2_to64();
    reals::lemma_const(0x3a6b_edfa);
    lemma_pow2_adds(17, 17);
    let a = pow2(17) as int;
    let b = pow2(34) as int;
    assert(b == 0x4_0000_0000) by (nonlinear_arith)
        requires
            b == a * a,
            a == 0x2_0000,
    ;
    assert(num(F0_0009) == 15461882real / 17179869184real);
}

proof fn lemma_overtone_pitch(m: Sem, b: Block, f0: Bits, i: int)
    requires
        m.rounds(),
        word::between(F0, b.spread, F1),
        word::between(F0, f0, 0x4c80_0000),
        0 <= i < 16,
    ensures
        word::finite(render::partial_pitch(m, b, f0, i)),
        num(render::partial_pitch(m, b, f0, i)) >= 0real,
        dist(num(render::partial_pitch(m, b, f0, i)), overtone_pitch(num(f0), i, num(b.spread)))
            <= num(f0) * ((i + 1) as real) / 1000000real + reals::tiny() * 8real,
{
    reals::lemma_tiny();
    rounding::lemma_one();
    lemma_small_part();
    lemma_pitch_top(f0);
    reals::lemma_within(F0, b.spread, F1);
    rounding::lemma_whole(i + 1);
    let t = reals::tiny();
    let n = word::from_nat((i + 1) as nat);
    reals::lemma_counted(n, i + 1, 1);
    let k = (i + 1) as real;
    assert(num(n) == k && 1real <= k <= 16real);
    let f = num(f0);
    let s = num(b.spread);
    let c = num(F0_0009);
    assert(0real <= s * c <= 1real / 1000real) by (nonlinear_arith)
        requires
            0real <= s <= 1real,
            0real <= c <= 1real / 1000real,
    ;
    reals::lemma_mul(m, b.spread, F0_0009);
    let w1 = m.mul(b.spread, F0_0009);
    let a = num(w1);
    let g = s * (9real / 10000real);
    assert(dist(s * c, g) <= 1real / 10000000000real) by (nonlinear_arith)
        requires
            g == s * (9real / 10000real),
            0real <= s <= 1real,
            dist(c, 9real / 10000real) <= 1real / 10000000000real,
            dist(c, 9real / 10000real) == c - 9real / 10000real || dist(c, 9real / 10000real)
                == 9real / 10000real - c,
            dist(c, 9real / 10000real) >= 0real,
            dist(s * c, g) == s * c - g || dist(s * c, g) == g - s * c,
    ;
    assert(dist(a, g) <= 3real / 10000000000real);
    assert(dist(a * k, g * k) <= 48real / 10000000000real && size(a * k) <= 2real / 100real)
        by (nonlinear_arith)
        requires
            1real <= k <= 16real,
            dist(a, g) <= 3real / 10000000000real,
            dist(a, g) == a - g || dist(a, g) == g - a,
            dist(a, g) >= 0real,
            dist(a * k, g * k) == a * k - g * k || dist(a * k, g * k) == g * k - a * k,
            -1real / 1000real <= a <= 11real / 10000real,
            size(a * k) == a * k || size(a * k) == -(a * k),
    ;
    reals::lemma_mul(m, w1, n);
    let w2 = m.mul(w1, n);
    let d = num(w2);
    let gk = g * k;
    assert(0real <= gk <= 144real / 10000real && 0real <= gk * k <= 2304real / 10000real)
        by (nonlinear_arith)
        requires
            gk == g * k,
            0real <= g <= 9real / 10000real,
            1real <= k <= 16real,
    ;
    assert(dist(d, gk) <= 75real / 10000000000real);
    assert(dist(d * k, gk * k) <= 1200real / 10000000000real && size(d * k) <= 32real / 100real)
        by (nonlinear_arith)
        requires
            1real <= k <= 16real,
            dist(d, gk) <= 75real / 10000000000real,
            dist(d, gk) == d - gk || dist(d, gk) == gk - d,
            dist(d, gk) >= 0real,
            dist(d * k, gk * k) == d * k - gk * k || dist(d * k, gk * k) == gk * k - d * k,
            -2real / 100real <= d <= 2real / 100real,
            size(d * k) == d * k || size(d * k) == -(d * k),
    ;
    reals::lemma_mul(m, w2, n);
    let w3 = m.mul(w2, n);
    let h = num(w3);
    let exact = 1real + g * (k * k);
    assert(gk * k == g * (k * k)) by (nonlinear_arith)
        requires
            gk == g * k,
    ;
    assert(dist(h, gk * k) <= 1700real / 10000000000real);
    reals::lemma_add(m, F1, w3);
    let wide = m.add(F1, w3);
    let u = num(wide);
    reals::lemma_num(F0, F1);
    assert(dist(u, exact) <= 4000real / 10000000000real);
    assert(0real <= f * k <= 16real * f) by (nonlinear_arith)
        requires
            1real <= k <= 16real,
            f >= 0real,
    ;
    reals::lemma_mul(m, f0, n);
    let base = m.mul(f0, n);
    lemma_positive(m, f0, n);
    let y = num(base);
    let fk = f * k;
    assert(size(y * u) <= 2real * y) by (nonlinear_arith)
        requires
            y >= 0real,
            0real <= u <= 2real,
            size(y * u) == y * u || size(y * u) == -(y * u),
    ;
    reals::lemma_mul(m, base, wide);
    lemma_positive(m, base, wide);
    assert(dist(y * u, fk * exact) <= fk * (6000real / 10000000000real) + 2real * t)
        by (nonlinear_arith)
        requires
            y >= 0real,
            fk >= 0real,
            0real <= u <= 2real,
            dist(y, fk) <= fk / 8388608real + t,
            dist(y, fk) == y - fk || dist(y, fk) == fk - y,
            dist(u, exact) <= 4000real / 10000000000real,
            dist(u, exact) == u - exact || dist(u, exact) == exact - u,
            dist(y * u, fk * exact) == y * u - fk * exact || dist(y * u, fk * exact) == fk * exact
                - y * u,
            u <= 13real / 10real,
            t > 0real,
    ;
    let pitch = m.mul(base, wide);
    assert(render::partial_pitch(m, b, f0, i) == pitch);
    assert(overtone_pitch(f, i, s) == fk * exact);
    assert(size(y * u) <= 13real / 10real * y) by (nonlinear_arith)
        requires
            y >= 0real,
            0real <= u <= 13real / 10real,
            size(y * u) == y * u || size(y * u) == -(y * u),
    ;
    assert(y <= fk + fk / 8388608real + t);
}

proof fn lemma_partial_moves(m: Sem, b: Block, f0: Bits, ph: [Bits; 16], k: nat, p: int)
    requires
        m.rounds(),
        mild(m, b),
        word::between(F0, f0, 0x4c80_0000),
        0 <= p < k <= 16,
        word::between(F0, ph[p], F1),
        !word::below(b.w[p], F1E_5),
        !word::below(m.mul(b.sr, F0_48), render::partial_pitch(m, b, f0, p)),
    ensures
        moved(
            ph[p],
            render::partials(m, b, f0, ph, k).0[p],
            overtone_pitch(num(f0), p, num(b.spread)) / num(b.sr),
            24real / 8388608real,
        ),
    decreases k,
{
    if k > p + 1 {
        lemma_partial_moves(m, b, f0, ph, (k - 1) as nat, p);
    } else {
        lemma_partial_waits(m, b, f0, ph, p as nat, p);
        let pitch = render::partial_pitch(m, b, f0, p);
        lemma_overtone_pitch(m, b, f0, p);
        laws::phases::lemma_guarded(m, b.sr, pitch);
        lemma_rate(b.sr);
        reals::lemma_tiny();
        reals::lemma_multiples(pitch, b.sr, 100, 99);
        lemma_moves(m, b.sr, ph[p], pitch);
        lemma_pitch_top(f0);
        reals::lemma_within(F0, b.spread, F1);
        let s = num(b.sr);
        let v = num(pitch);
        let exact = overtone_pitch(num(f0), p, num(b.spread));
        let n = (p + 1) as real;
        let fk = num(f0) * n;
        let c = num(b.spread) * (9real / 10000real) * (n * n);
        assert(c >= 0real) by (nonlinear_arith)
            requires
                c == num(b.spread) * (9real / 10000real) * (n * n),
                num(b.spread) >= 0real,
                n >= 1real,
        ;
        assert(0real <= fk <= exact) by (nonlinear_arith)
            requires
                fk == num(f0) * n,
                exact == num(f0) * n * (1real + c),
                num(f0) >= 0real,
                n >= 1real,
                c >= 0real,
        ;
        let t = reals::tiny();
        assert(fk <= s);
        assert(dist(v / s, exact / s) <= 10real / 8388608real) by (nonlinear_arith)
            requires
                dist(v, exact) <= fk / 1000000real + t * 8real,
                dist(v, exact) == v - exact || dist(v, exact) == exact - v,
                dist(v / s, exact / s) == v / s - exact / s || dist(v / s, exact / s) == exact / s
                    - v / s,
                fk <= s,
                s >= 4096real,
                t <= 1real / 1000000000000real,
        ;
        lemma_relax(
            ph[p],
            render::partials(m, b, f0, ph, k).0[p],
            v / s,
            8real / 8388608real,
            exact / s,
            24real / 8388608real,
        );
    }
}

proof fn lemma_partial_waits(m: Sem, b: Block, f0: Bits, ph: [Bits; 16], k: nat, p: int)
    requires
        k <= p < 16,
    ensures
        render::partials(m, b, f0, ph, k).0[p] == ph[p],
    decreases k,
{
    if k > 0 {
        lemma_partial_waits(m, b, f0, ph, (k - 1) as nat, p);
    }
}

proof fn lemma_overtone_run(
    m: Sem,
    b: Block,
    t: [Bits; 131072],
    from: render::Track,
    k: nat,
    p: int,
)
    requires
        m.rounds(),
        m.decays(),
        mild(m, b),
        in_phase(from.voice, b.sr),
        0 <= p < 16,
        !laws::voices::passed_over(m, b, from.voice.f0, p),
        render::voice_run(m, b, t, from, k).voice.on,
    ensures
        moved(
            from.voice.ph_a[p],
            render::voice_run(m, b, t, from, k).voice.ph_a[p],
            (k as real) * (overtone_pitch(num(from.voice.f0), p, num(b.spread)) / num(b.sr)),
            (k as real) * (24real / 8388608real),
        ),
    decreases k,
{
    let f = overtone_pitch(num(from.voice.f0), p, num(b.spread)) / num(b.sr);
    if k == 0 {
        lemma_not_moved(from.voice.ph_a[p]);
        assert((k as real) * f == 0real) by (nonlinear_arith)
            requires
                k == 0,
        ;
        assert((k as real) * (24real / 8388608real) == 0real);
    } else {
        let j = (k - 1) as nat;
        laws::voices::lemma_sounded(m, b, t, from, j, k);
        lemma_overtone_run(m, b, t, from, j, p);
        laws::phases::lemma_run_phase(m, b, t, from, j);
        laws::voices::lemma_run_ages(m, b, t, from, j);
        let s = render::voice_run(m, b, t, from, j);
        let e = voice::enveloped(m, b.slopes, s.voice);
        let v1 = render::sub_step(m, b, e, s.state).0;
        let w = render::voice_run(m, b, t, from, k).voice;
        assert(word::between(F0, s.voice.ph_a[p], F1));
        assert(w.ph_a == render::partials(m, b, v1.f0, v1.ph_a, b.p_top as nat).0);
        lemma_partial_moves(m, b, v1.f0, v1.ph_a, b.p_top as nat, p);
        lemma_moved_on(
            from.voice.ph_a[p],
            s.voice.ph_a[p],
            w.ph_a[p],
            (j as real) * f,
            f,
            (j as real) * (24real / 8388608real),
            24real / 8388608real,
        );
        assert((j as real) * f + f == (k as real) * f) by (nonlinear_arith)
            requires
                k as real == (j as real) + 1real,
        ;
    }
}

// ---------------------------------------------------------------------------
// The texture's heads
// ---------------------------------------------------------------------------

proof fn lemma_heads(m: Sem, b: Block, t: [Bits; 131072], v: Voice, state: u32)
    requires
        m.rounds(),
        mild(m, b),
        in_phase(v, b.sr),
        10real * num(v.f0) <= 9real * num(b.sr),
        word::below(F0_001, b.tex_lv),
        b.grain_len <= 0,
    ensures
        moved(
            v.ph_t,
            render::textured(m, b, t, v, state).0.ph_t,
            num(v.f0) / num(b.sr),
            24real / 8388608real,
        ),
        moved(
            v.ph_t2,
            render::textured(m, b, t, v, state).0.ph_t2,
            num(v.f0) / num(b.sr) * (1real + num(b.det) * (12real / 1000real)),
            24real / 8388608real,
        ),
{
    lemma2_to64();
    lemma_rate(b.sr);
    reals::lemma_tiny();
    reals::lemma_multiples(v.f0, b.sr, 10, 9);
    lemma_pitch_top(v.f0);
    reals::lemma_num(F0, F1);
    reals::lemma_within(F0, b.det, F1);
    reals::lemma_const(0x3c44_9ba6);
    assert(pow2(30) == 0x4000_0000);
    let c = num(F0_012);
    assert(c == 12884902real / 1073741824real);
    let w = render::textured(m, b, t, v, state).0;
    let f = num(v.f0);
    let s = num(b.sr);
    let u = reals::tiny();
    lemma_moves(m, b.sr, v.ph_t, v.f0);
    lemma_relax(v.ph_t, w.ph_t, f / s, 8real / 8388608real, f / s, 24real / 8388608real);
    let d = num(b.det);
    assert(0real <= d * c <= 2real / 100real) by (nonlinear_arith)
        requires
            0real <= d <= 1real,
            0real <= c <= 2real / 100real,
    ;
    reals::lemma_mul(m, b.det, F0_012);
    let off = m.mul(b.det, F0_012);
    let exact = 1real + d * (12real / 1000real);
    assert(dist(d * c, d * (12real / 1000real)) <= 1real / 1000000000real) by (nonlinear_arith)
        requires
            0real <= d <= 1real,
            c == 12884902real / 1073741824real,
            dist(d * c, d * (12real / 1000real)) == d * c - d * (12real / 1000real) || dist(
                d * c,
                d * (12real / 1000real),
            ) == d * (12real / 1000real) - d * c,
    ;
    reals::lemma_add(m, F1, off);
    let ratio = m.add(F1, off);
    let r = num(ratio);
    assert(dist(r, exact) <= 2real / 8388608real);
    assert(0real <= f * r && f * r <= f * (102real / 100real)) by (nonlinear_arith)
        requires
            f >= 0real,
            0real <= r <= 102real / 100real,
    ;
    reals::lemma_mul(m, v.f0, ratio);
    lemma_positive(m, v.f0, ratio);
    let pitch = m.mul(v.f0, ratio);
    let p = num(pitch);
    assert(dist(f * r, f * exact) <= f * (2real / 8388608real)) by (nonlinear_arith)
        requires
            f >= 0real,
            dist(r, exact) <= 2real / 8388608real,
            dist(r, exact) == r - exact || dist(r, exact) == exact - r,
            dist(f * r, f * exact) == f * r - f * exact || dist(f * r, f * exact) == f * exact - f
                * r,
    ;
    lemma_moves(m, b.sr, v.ph_t2, pitch);
    let q = f / s;
    assert(dist(p / s, q * exact) <= 5real / 8388608real) by (nonlinear_arith)
        requires
            q == f / s,
            dist(p, f * exact) <= 4real * f / 8388608real + u,
            dist(p, f * exact) == p - f * exact || dist(p, f * exact) == f * exact - p,
            dist(p / s, q * exact) == p / s - q * exact || dist(p / s, q * exact) == q * exact - p
                / s,
            f <= s,
            s >= 4096real,
            0real < u <= 1real / 1000000000real,
    ;
    lemma_relax(v.ph_t2, w.ph_t2, p / s, 8real / 8388608real, q * exact, 24real / 8388608real);
}

proof fn lemma_heads_run(m: Sem, b: Block, t: [Bits; 131072], from: render::Track, k: nat)
    requires
        m.rounds(),
        m.decays(),
        mild(m, b),
        in_phase(from.voice, b.sr),
        10real * num(from.voice.f0) <= 9real * num(b.sr),
        word::below(F0_001, b.tex_lv),
        b.grain_len <= 0,
        render::voice_run(m, b, t, from, k).voice.on,
    ensures
        moved(
            from.voice.ph_t,
            render::voice_run(m, b, t, from, k).voice.ph_t,
            (k as real) * (num(from.voice.f0) / num(b.sr)),
            (k as real) * (24real / 8388608real),
        ),
        moved(
            from.voice.ph_t2,
            render::voice_run(m, b, t, from, k).voice.ph_t2,
            (k as real) * (num(from.voice.f0) / num(b.sr) * (1real + num(b.det) * (12real
                / 1000real))),
            (k as real) * (24real / 8388608real),
        ),
    decreases k,
{
    let f = num(from.voice.f0) / num(b.sr);
    let g = f * (1real + num(b.det) * (12real / 1000real));
    if k == 0 {
        lemma_not_moved(from.voice.ph_t);
        lemma_not_moved(from.voice.ph_t2);
        assert((k as real) * f == 0real && (k as real) * g == 0real) by (nonlinear_arith)
            requires
                k == 0,
        ;
        assert((k as real) * (24real / 8388608real) == 0real);
    } else {
        let j = (k - 1) as nat;
        laws::voices::lemma_sounded(m, b, t, from, j, k);
        lemma_heads_run(m, b, t, from, j);
        laws::phases::lemma_run_phase(m, b, t, from, j);
        laws::voices::lemma_run_ages(m, b, t, from, j);
        let s = render::voice_run(m, b, t, from, j);
        laws::phases::lemma_before_texture(m, b, s.voice, s.state);
        let e = voice::enveloped(m, b.slopes, s.voice);
        let (v1, state1, _) = render::sub_step(m, b, e, s.state);
        let v2 = Voice {
            ph_a: render::partials(m, b, v1.f0, v1.ph_a, b.p_top as nat).0,
            ..v1
        };
        let w = render::voice_run(m, b, t, from, k).voice;
        lemma_heads(m, b, t, v2, state1);
        let after = render::textured(m, b, t, v2, state1).0;
        assert(w.ph_t == after.ph_t && w.ph_t2 == after.ph_t2);
        let tol = (j as real) * (24real / 8388608real);
        let more = 24real / 8388608real;
        lemma_moved_on(from.voice.ph_t, v2.ph_t, w.ph_t, (j as real) * f, f, tol, more);
        lemma_moved_on(from.voice.ph_t2, v2.ph_t2, w.ph_t2, (j as real) * g, g, tol, more);
        assert((j as real) * f + f == (k as real) * f && (j as real) * g + g == (k as real) * g)
            by (nonlinear_arith)
            requires
                k as real == (j as real) + 1real,
        ;
    }
}

// ---------------------------------------------------------------------------
// A block
// ---------------------------------------------------------------------------

/// A block that the laws on motion speak of: a usual sample rate, settings of
/// drop, spread and detune that are numbers, and voice `i` in phase and
/// sounding to the end.
pub open spec fn sounds_through(
    m: Sem,
    c: spec_fn(WideBits, usize, Bits) -> WideBits,
    s: RiotCore,
    n: usize,
    i: int,
) -> bool {
    let q = laws::voices::modulated(m, s, n);
    &&& 0 <= i < 10
    &&& usual_rate(s.sr)
    &&& !word::is_nan(q[3])
    &&& !word::is_nan(q[4])
    &&& !word::is_nan(q[9])
    &&& !word::is_nan(q[29])
    &&& in_phase(voice_of(s, i), s.sr)
    &&& voice_of(engine::processed(m, c, s, n).0, i).on
}

/// Without a pitch drop the sub oscillator sounds at the pitch of its note:
/// over `n` samples its phase makes `n * f0 / sr` turns.
pub proof fn law_sub_sounds_at_pitch(
    m: Sem,
    c: spec_fn(WideBits, usize, Bits) -> WideBits,
    s: RiotCore,
    n: usize,
    i: int,
)
    requires
        m.rounds(),
        m.decays(),
        m.powers_in_range(),
        sounds_through(m, c, s, n, i),
        8real * num(voice_of(s, i).f0) <= num(s.sr),
        word::at_least(F0, laws::voices::modulated(m, s, n)[3]),
    ensures
        moved(
            voice_of(s, i).ph_s,
            voice_of(engine::processed(m, c, s, n).0, i).ph_s,
            (n as real) * (num(voice_of(s, i).f0) / num(s.sr)),
            (n as real) / 500000real,
        ),
{
    let q = laws::voices::modulated(m, s, n);
    let b = laws::voices::shared(m, s, n);
    laws::phases::lemma_mild(m, q, s.sr, engine::sounding(s), s.n_frames as nat);
    let r = laws::voices::lemma_block_voice(m, c, s, n, i);
    assert(RANGES[3] == (F0, F1, false));
    laws::settings::law_proportion(m, 3, q[3]);
    reals::lemma_num(F0, F1);
    lemma_sub_run(m, b, *s.table, r, n as nat);
    let way = (n as real) * (num(voice_of(s, i).f0) / num(s.sr));
    lemma_relax(
        voice_of(s, i).ph_s,
        voice_of(engine::processed(m, c, s, n).0, i).ph_s,
        way,
        (n as real) * (16real / 8388608real),
        way,
        (n as real) / 500000real,
    );
}

/// From voice `v` to voice `w` the phase of the sub oscillator has moved by
/// `f0 / sr` times one plus six times what is left of the drop: the drop times
/// the exponential of minus the time since the note started over `time`.
pub open spec fn drops(m: Sem, v: Voice, w: Voice, sr: real, drop: real, time: real) -> bool {
    exists|x: Bits|
        {
            &&& word::finite(x)
            &&& dist(num(x) * time, -num(v.t)) <= num(v.t) / 4194304real + 1real / 1000000000real
            &&& moved(
                v.ph_s,
                w.ph_s,
                num(v.f0) / sr * (1real + 6real * (drop * num(#[trigger] m.exp(x)))),
                1real / 500000real,
            )
        }
}

proof fn lemma_drops(m: Sem, b: Block, t: [Bits; 131072], from: render::Track)
    requires
        m.rounds(),
        m.decays(),
        mild(m, b),
        in_phase(from.voice, b.sr),
        8real * num(from.voice.f0) <= num(b.sr),
        render::voice_run(m, b, t, from, 1).voice.on,
    ensures
        drops(
            m,
            from.voice,
            render::voice_run(m, b, t, from, 1).voice,
            num(b.sr),
            num(b.p_drop),
            num(b.p_dec),
        ),
{
    let v = from.voice;
    laws::voices::lemma_sounded(m, b, t, from, 0, 1);
    assert(render::voice_run(m, b, t, from, 0) == from);
    let w = render::voice_run(m, b, t, from, 1).voice;
    let e = voice::enveloped(m, b.slopes, v);
    let x = lemma_sub_step(m, b, e);
    assert(w.ph_s == render::sub_tone(m, b, e).0);
    let way = num(v.f0) / num(b.sr) * (1real + 6real * (num(b.p_drop) * num(m.exp(x))));
    lemma_relax(v.ph_s, w.ph_s, way, 16real / 8388608real, way, 1real / 500000real);
}

/// With a pitch drop every sample moves the phase of the sub oscillator by
/// `f0 / sr` times one plus six times the drop, of which what is left decays
/// with the time since the note started.
pub proof fn law_sub_drops(
    m: Sem,
    c: spec_fn(WideBits, usize, Bits) -> WideBits,
    s: RiotCore,
    i: int,
)
    requires
        m.rounds(),
        m.decays(),
        m.powers_in_range(),
        sounds_through(m, c, s, 1, i),
        8real * num(voice_of(s, i).f0) <= num(s.sr),
    ensures
        drops(
            m,
            voice_of(s, i),
            voice_of(engine::processed(m, c, s, 1).0, i),
            num(s.sr),
            num(params::mapped(m, 3, laws::voices::modulated(m, s, 1)[3])),
            num(params::mapped(m, 4, laws::voices::modulated(m, s, 1)[4])),
        ),
{
    let q = laws::voices::modulated(m, s, 1);
    let b = laws::voices::shared(m, s, 1);
    laws::phases::lemma_mild(m, q, s.sr, engine::sounding(s), s.n_frames as nat);
    let r = laws::voices::lemma_block_voice(m, c, s, 1, i);
    lemma_drops(m, b, *s.table, r);
}

/// An overtone that is not passed over sounds at its multiple of the pitch,
/// stretched by the spread.
pub proof fn law_overtone_sounds_at_pitch(
    m: Sem,
    c: spec_fn(WideBits, usize, Bits) -> WideBits,
    s: RiotCore,
    n: usize,
    i: int,
    p: int,
)
    requires
        m.rounds(),
        m.decays(),
        m.powers_in_range(),
        sounds_through(m, c, s, n, i),
        0 <= p < 16,
        !laws::voices::passed_over(m, laws::voices::shared(m, s, n), voice_of(s, i).f0, p),
    ensures
        moved(
            voice_of(s, i).ph_a[p],
            voice_of(engine::processed(m, c, s, n).0, i).ph_a[p],
            (n as real) * (overtone_pitch(
                num(voice_of(s, i).f0),
                p,
                num(params::mapped(m, 9, laws::voices::modulated(m, s, n)[9])),
            ) / num(s.sr)),
            (n as real) / 250000real,
        ),
{
    let q = laws::voices::modulated(m, s, n);
    let b = laws::voices::shared(m, s, n);
    laws::phases::lemma_mild(m, q, s.sr, engine::sounding(s), s.n_frames as nat);
    let r = laws::voices::lemma_block_voice(m, c, s, n, i);
    lemma_overtone_run(m, b, *s.table, r, n as nat, p);
    let way = (n as real) * (overtone_pitch(num(voice_of(s, i).f0), p, num(b.spread)) / num(s.sr));
    lemma_relax(
        voice_of(s, i).ph_a[p],
        voice_of(engine::processed(m, c, s, n).0, i).ph_a[p],
        way,
        (n as real) * (24real / 8388608real),
        way,
        (n as real) / 250000real,
    );
}

/// Where the texture is heard and not cut into grains, its first head reads
/// the table at the pitch of the note and the second one above it by 1.2 parts
/// in a hundred of the detune.
pub proof fn law_texture_sounds_at_pitch(
    m: Sem,
    c: spec_fn(WideBits, usize, Bits) -> WideBits,
    s: RiotCore,
    n: usize,
    i: int,
)
    requires
        m.rounds(),
        m.decays(),
        m.powers_in_range(),
        sounds_through(m, c, s, n, i),
        10real * num(voice_of(s, i).f0) <= 9real * num(s.sr),
        word::below(F0_001, params::mapped(m, 26, laws::voices::modulated(m, s, n)[26])),
        !word::below(F0, params::mapped(m, 28, laws::voices::modulated(m, s, n)[28])),
    ensures
        ({
            let v = voice_of(s, i);
            let w = voice_of(engine::processed(m, c, s, n).0, i);
            let detune = num(params::mapped(m, 29, laws::voices::modulated(m, s, n)[29]));
            let way = (n as real) * (num(v.f0) / num(s.sr));
            let most = (n as real) / 250000real;
            &&& moved(v.ph_t, w.ph_t, way, most)
            &&& moved(v.ph_t2, w.ph_t2, way * (1real + detune * (12real / 1000real)), most)
        }),
{
    let q = laws::voices::modulated(m, s, n);
    let b = laws::voices::shared(m, s, n);
    laws::phases::lemma_mild(m, q, s.sr, engine::sounding(s), s.n_frames as nat);
    let r = laws::voices::lemma_block_voice(m, c, s, n, i);
    lemma_heads_run(m, b, *s.table, r, n as nat);
    let v = voice_of(s, i);
    let w = voice_of(engine::processed(m, c, s, n).0, i);
    let k = n as real;
    let f = num(v.f0) / num(s.sr);
    let d = 1real + num(b.det) * (12real / 1000real);
    assert(k * (f * d) == (k * f) * d) by (nonlinear_arith);
    let most = k * (24real / 8388608real);
    lemma_relax(v.ph_t, w.ph_t, k * f, most, k * f, k / 250000real);
    lemma_relax(v.ph_t2, w.ph_t2, k * (f * d), most, (k * f) * d, k / 250000real);
}

} // verus!
