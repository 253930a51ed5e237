//! What the envelope of a voice does, in numbers.

use crate::alu::Sem;
use crate::block::Block;
use crate::consts::{F0, F0_25, F0_85, F1, F1E_4, F1_02};
use crate::engine;
use crate::engine::RiotCore;
use crate::laws;
use crate::laws::voices::{sound, voice_of, RATE_LEAST};
use crate::params;
use crate::render;
use crate::rounding;
use crate::rounding::reals;
use crate::rounding::reals::{dist, num, size};
use crate::voice;
use crate::voice::{Slopes, Stage, Voice};
use crate::word;
use crate::word::{Bits, WideBits};
use vstd::arithmetic::power2::*;
use vstd::prelude::*;

verus! {

// ---------------------------------------------------------------------------
// One sample
// ---------------------------------------------------------------------------

/// Where the part `c` of the way from `x` to `goal` ends.
pub open spec fn nearer(x: real, goal: real, c: real) -> real {
    goal + (x - goal) * (1real - c)
}

proof fn lemma_goals()
    ensures
        word::finite(F1_02),
        word::finite(F0_85),
        word::finite(F1E_4),
        dist(num(F1_02), 102real / 100real) <= 1real / 10000000real,
        dist(num(F0_85), 85real / 100real) <= 1real / 10000000real,
        dist(num(F1E_4), 1real / 10000real) <= 1real / 10000000000real,
        num(F0_25) == 1real / 4real,
        num(F0) == 0real,
        num(F1) == 1real,
{
    lemma2_to64();
    reals::lemma_num(F0, F1);
    reals::lemma_const(0x3f82_8f5c);
    reals::lemma_const(0x3f59_999a);
    reals::lemma_const(0x38d1_b717);
    reals::lemma_const(0x3e80_0000);
    assert(pow2(23) == 8388608 && pow2(24) == 16777216 && pow2(25) == 33554432);
    lemma_pow2_adds(25, 12);
    let a = pow2(25) as int;
    let b = pow2(12) as int;
    assert(pow2(37) == 137438953472) by (nonlinear_arith)
        requires
            pow2(37) as int == a * b,
            a == 33554432,
            b == 4096,
    ;
    assert(num(F1_02) == 8556380real / 8388608real);
    assert(num(F0_85) == 14260634real / 16777216real);
    assert(num(F1E_4) == 13743895real / 137438953472real);
    assert(num(F0_25) == 8388608real / 33554432real);
}

/// `a + (b - a) * k` is the part `k` of the way from `a` to `b`.
proof fn lemma_nearer(m: Sem, a: Bits, b: Bits, k: Bits)
    requires
        m.rounds(),
        word::finite(a),
        word::finite(b),
        word::between(F0, k, F1),
        size(num(a)) <= 11real / 10real,
        size(num(b)) <= 11real / 10real,
    ensures
        dist(num(m.lerp(a, b, k)), nearer(num(a), num(b), num(k))) <= 8real / 10000000real,
{
    reals::lemma_tiny();
    reals::lemma_lerp(m, a, b, k, 11real / 10real);
    let x = num(a);
    let y = num(b);
    let c = num(k);
    assert(x + (y - x) * c == y + (x - y) * (1real - c)) by (nonlinear_arith);
}

/// What one sample makes of an envelope in 0 ..= 1. The attack goes its part of
/// the way to 1.02 and ends at 1; decay and sustain go theirs to the sustain
/// level, from either side, and the decay ends within 1e-4 of it; the release
/// loses its part of what there is, and the kill fifteen parts in a hundred.
pub proof fn law_envelope_in_numbers(m: Sem, k: Slopes, v: Voice)
    requires
        m.rounds(),
        sound(k),
        word::between(F0, v.env, F1),
    ensures
        ({
            let w = voice::enveloped(m, k, v);
            let x = num(v.env);
            let y = num(w.env);
            let level = num(k.sustain);
            let most = 1real / 1000000real;
            match v.stage {
                Stage::Attack => {
                    let goal = nearer(x, 102real / 100real, num(k.attack));
                    ||| w.stage is Attack && dist(y, goal) <= most && y < 1real
                    ||| w.stage is Decay && y == 1real && goal >= 1real - most
                },
                Stage::Decay => {
                    &&& dist(y, nearer(x, level, num(k.decay))) <= most
                    &&& w.stage is Sustain ==> dist(y, level) <= 1real / 10000real + most
                    &&& w.stage is Decay ==> dist(y, level) >= 1real / 10000real - most
                    &&& w.stage is Sustain || w.stage is Decay
                },
                Stage::Sustain => {
                    &&& dist(y, nearer(x, level, num(k.decay))) <= most
                    &&& w.stage is Sustain
                },
                Stage::Release => {
                    &&& dist(y, nearer(x, 0real, num(k.release))) <= most
                    &&& w.stage is Release
                    &&& w.on ==> y >= 1real / 10000real - most
                    &&& v.on && !w.on ==> y <= 1real / 10000real + most
                },
                Stage::Kill => {
                    &&& dist(y, nearer(x, 0real, 15real / 100real)) <= most
                    &&& w.stage is Kill
                    &&& w.on ==> y >= 1real / 10000real - most
                    &&& v.on && !w.on ==> y <= 1real / 10000real + most
                },
                Stage::Idle => w == v,
            }
        }),
{
    lemma_goals();
    reals::lemma_tiny();
    reals::lemma_within(F0, v.env, F1);
    reals::lemma_within(F0, k.sustain, F1);
    reals::lemma_within(F0, k.attack, F1);
    reals::lemma_within(F0, k.decay, F0_25);
    reals::lemma_within(F0, k.decay, F1);
    reals::lemma_within(F0, k.release, F1);
    laws::voices::lemma_envelope_step(m, k, v);
    let w = voice::enveloped(m, k, v);
    reals::lemma_within(F0, w.env, F1);
    reals::lemma_num(w.env, F1E_4);
    match v.stage {
        Stage::Attack => {
            lemma_nearer(m, v.env, F1_02, k.attack);
            let a = num(F1_02);
            let c = num(k.attack);
            let x = num(v.env);
            assert(nearer(x, a, c) - nearer(x, 102real / 100real, c) == (a - 102real / 100real) * c)
                by (nonlinear_arith)
                requires
                    nearer(x, a, c) == a + (x - a) * (1real - c),
                    nearer(x, 102real / 100real, c) == 102real / 100real + (x - 102real / 100real)
                        * (1real - c),
            ;
            let o = a - 102real / 100real;
            assert(-1real / 10000000real <= o * c <= 1real / 10000000real) by (nonlinear_arith)
                requires
                    -1real / 10000000real <= o <= 1real / 10000000real,
                    0real <= c <= 1real,
            ;
            reals::lemma_num(m.lerp(v.env, F1_02, k.attack), F1);
        },
        Stage::Decay => {
            lemma_nearer(m, v.env, k.sustain, k.decay);
            let r = m.lerp(v.env, k.sustain, k.decay);
            reals::lemma_sub(m, r, k.sustain);
            let d = m.sub(r, k.sustain);
            lemma_abs(d);
            reals::lemma_num(word::abs_of(d), F1E_4);
        },
        Stage::Sustain => {
            lemma_nearer(m, v.env, k.sustain, k.decay);
        },
        Stage::Release => {
            let x = num(v.env);
            let c = num(k.release);
            assert(0real <= x * c <= 1real && nearer(x, 0real, c) == x - x * c) by (nonlinear_arith)
                requires
                    0real <= x <= 1real,
                    0real <= c <= 1real,
                    nearer(x, 0real, c) == 0real + (x - 0real) * (1real - c),
            ;
            reals::lemma_mul(m, v.env, k.release);
            reals::lemma_sub(m, v.env, m.mul(v.env, k.release));
        },
        Stage::Kill => {
            let x = num(v.env);
            let c = num(F0_85);
            let near = nearer(x, 0real, 15real / 100real);
            assert(dist(x * c, near) <= 1real / 10000000real && 0real <= x * c <= 1real)
                by (nonlinear_arith)
                requires
                    0real <= x <= 1real,
                    near == 0real + (x - 0real) * (1real - 15real / 100real),
                    dist(c, 85real / 100real) <= 1real / 10000000real,
                    dist(c, 85real / 100real) >= c - 85real / 100real,
                    dist(c, 85real / 100real) >= 85real / 100real - c,
                    dist(x * c, near) == x * c - near || dist(x * c, near) == near - x * c,
            ;
            reals::lemma_mul(m, v.env, F0_85);
        },
        Stage::Idle => {},
    }
}

pub proof fn lemma_abs(x: Bits)
    requires
        word::finite(x),
    ensures
        num(word::abs_of(x)) == size(num(x)),
        word::finite(word::abs_of(x)),
{
    rounding::lemma_one();
    reals::lemma_num(x, F0);
    rounding::lemma_rank_is_value(x, F0);
    let one = word::one() as real;
    let a = word::abs_of(x);
    assert(word::value(a) == word::value(x) || word::value(a) == -word::value(x));
    assert(word::value(a) >= 0);
    let v = word::value(x) as real;
    assert((-v) / one == -(v / one)) by (nonlinear_arith)
        requires
            one > 0real,
    ;
    reals::lemma_num(a, F0);
    rounding::lemma_rank_is_value(a, F0);
}

// ---------------------------------------------------------------------------
// A held note
// ---------------------------------------------------------------------------

/// `r` to the power of `n`.
pub open spec fn power(r: real, n: nat) -> real
    decreases n,
{
    if n == 0 {
        1real
    } else {
        r * power(r, (n - 1) as nat)
    }
}

proof fn lemma_power(r: real, n: nat)
    requires
        0real <= r <= 1real,
    ensures
        0real <= power(r, n) <= 1real,
        power(r, n) * (1real + (n as real) * (1real - r)) <= 1real,
    decreases n,
{
    if n > 0 {
        let j = (n - 1) as nat;
        lemma_power(r, j);
        let p = power(r, j);
        let k = j as real;
        assert(0real <= r * p <= 1real) by (nonlinear_arith)
            requires
                0real <= r <= 1real,
                0real <= p <= 1real,
        ;
        assert(r * p * (1real + (k + 1real) * (1real - r)) <= p * (1real + k * (1real - r)))
            by (nonlinear_arith)
            requires
                0real <= r <= 1real,
                0real <= p,
                k >= 0real,
        ;
        assert(n as real == k + 1real);
    } else {
        assert((n as real) * (1real - r) == 0real) by (nonlinear_arith)
            requires
                n == 0,
        ;
    }
}

proof fn lemma_sustain_run(m: Sem, b: Block, t: [Bits; 131072], from: render::Track, k: nat)
    requires
        m.rounds(),
        sound(b.slopes),
        word::between(F0, from.voice.env, F1),
        from.voice.on,
        from.voice.stage is Sustain,
    ensures
        ({
            let w = render::voice_run(m, b, t, from, k).voice;
            let level = num(b.slopes.sustain);
            let c = num(b.slopes.decay);
            &&& w.on
            &&& w.stage is Sustain
            &&& word::between(F0, w.env, F1)
            &&& c * dist(num(w.env), level) <= c * (power(1real - c, k) * dist(
                num(from.voice.env),
                level,
            )) + 1real / 1000000real
        }),
    decreases k,
{
    lemma_goals();
    reals::lemma_within(F0, b.slopes.decay, F0_25);
    let level = num(b.slopes.sustain);
    let c = num(b.slopes.decay);
    let d0 = dist(num(from.voice.env), level);
    if k == 0 {
        assert(power(1real - c, 0) * d0 == d0);
    } else {
        let j = (k - 1) as nat;
        lemma_sustain_run(m, b, t, from, j);
        let s = render::voice_run(m, b, t, from, j);
        law_envelope_in_numbers(m, b.slopes, s.voice);
        laws::voices::lemma_envelope_step(m, b.slopes, s.voice);
        let e = voice::enveloped(m, b.slopes, s.voice);
        let w = render::voice_run(m, b, t, from, k).voice;
        assert(w.env == e.env && w.stage == e.stage && w.on == e.on);
        let x = num(s.voice.env);
        let y = num(w.env);
        let d1 = dist(x, level);
        let d2 = dist(y, level);
        let near = nearer(x, level, c);
        let r = 1real - c;
        assert(dist(near, level) == r * d1) by (nonlinear_arith)
            requires
                near == level + (x - level) * r,
                r >= 0real,
                d1 == x - level || d1 == level - x,
                d1 >= 0real,
                dist(near, level) == near - level || dist(near, level) == level - near,
                dist(near, level) >= 0real,
        ;
        let most = 1real / 1000000real;
        assert(d2 <= r * d1 + most);
        let p = power(r, j);
        assert(power(r, k) == r * p);
        assert(c * d2 <= c * ((r * p) * d0) + most) by (nonlinear_arith)
            requires
                d2 <= r * d1 + most,
                c * d1 <= c * (p * d0) + most,
                r == 1real - c,
                0real <= c <= 1real,
                most > 0real,
        ;
    }
}

/// A held note follows its sustain level, from either side: with the part `c`
/// of the way gone in each sample, `n` samples leave the part `(1 - c)^n` of
/// the distance, and what rounding adds.
pub proof fn law_sustain_follows_level(
    m: Sem,
    c: spec_fn(WideBits, usize, Bits) -> WideBits,
    s: RiotCore,
    n: usize,
    i: int,
)
    requires
        m.rounds(),
        m.powers_in_range(),
        m.decays(),
        word::finite(s.sr),
        word::at_least(s.sr, RATE_LEAST),
        forall|j: int|
            30 <= j <= 33 ==> !word::is_nan(#[trigger] laws::voices::modulated(m, s, n)[j]),
        0 <= i < 10,
        word::between(F0, voice_of(s, i).env, F1),
        voice_of(s, i).on,
        voice_of(s, i).stage is Sustain,
    ensures
        ({
            let level = num(params::mapped(m, 32, laws::voices::modulated(m, s, n)[32]));
            let part = num(laws::voices::shared(m, s, n).slopes.decay);
            let w = voice_of(engine::processed(m, c, s, n).0, i);
            let before = dist(num(voice_of(s, i).env), level);
            let after = dist(num(w.env), level);
            &&& w.on
            &&& w.stage is Sustain
            &&& 0real <= part <= 1real / 4real
            &&& part * after <= part * (power(1real - part, n as nat) * before) + 1real
                / 1000000real
            // Held long enough, it comes to the level.
            &&& part >= 1real / 400real && (n as real) * part >= 2000real ==> after <= 1real
                / 1000real
        }),
{
    let q = laws::voices::modulated(m, s, n);
    let b = laws::voices::shared(m, s, n);
    laws::voices::lemma_slopes(m, q, s.sr, engine::sounding(s), s.n_frames as nat);
    let r = laws::voices::lemma_block_voice(m, c, s, n, i);
    lemma_sustain_run(m, b, *s.table, r, n as nat);
    lemma_goals();
    reals::lemma_within(F0, b.slopes.decay, F0_25);
    reals::lemma_within(F0, b.slopes.sustain, F1);
    reals::lemma_within(F0, voice_of(s, i).env, F1);
    let part = num(b.slopes.decay);
    let level = num(b.slopes.sustain);
    let before = dist(num(voice_of(s, i).env), level);
    let after = dist(num(voice_of(engine::processed(m, c, s, n).0, i).env), level);
    let p = power(1real - part, n as nat);
    lemma_power(1real - part, n as nat);
    if part >= 1real / 400real && (n as real) * part >= 2000real {
        let k = (n as real) * part;
        assert(k == (n as real) * (1real - (1real - part)));
        assert(p * 2000real <= 1real) by (nonlinear_arith)
            requires
                p * (1real + k) <= 1real,
                k >= 2000real,
                p >= 0real,
        ;
        assert(p * before <= 1real / 2000real) by (nonlinear_arith)
            requires
                0real <= p,
                p * 2000real <= 1real,
                0real <= before <= 1real,
        ;
        assert(after <= 1real / 1000real) by (nonlinear_arith)
            requires
                part * after <= part * (p * before) + 1real / 1000000real,
                p * before <= 1real / 2000real,
                part >= 1real / 400real,
        ;
    }
}

} // verus!
