//! What the parts of a voice sound like, in numbers.

use crate::alu::Sem;
use crate::block::Block;
use crate::consts::{
    F0, F0_001, F0_48, F0_5, F1, F1E_5, F2, GRAIN_FADE, TAU, TWO_OVER_PI,
};
use crate::laws;
use crate::laws::echo::held;
use crate::laws::numbers;
use crate::render;
use crate::rng;
use crate::rounding;
use crate::rounding::reals;
use crate::rounding::reals::{dist, num, size};
use crate::table;
use crate::voice::Voice;
use crate::word;
use crate::word::Bits;
use vstd::prelude::*;

verus! {

// ---------------------------------------------------------------------------
// Sub oscillator
// ---------------------------------------------------------------------------

/// The sub oscillator's wave: of the sine of its phase, and the triangle that
/// is the arc of it, the mix that the morph sets, driven, clipped, and brought
/// back to its level.
pub open spec fn sub_is(m: Sem, b: Block, ph: Bits, y: Bits) -> bool {
    let sine = m.sin(m.mul(TAU, ph));
    let arc = num(m.asin(sine)) * (636619772real / 1000000000real);
    let shaped = num(sine) + (arc - num(sine)) * num(b.morph);
    exists|x: Bits|
        {
            &&& word::finite(x)
            &&& dist(num(x), shaped * num(b.g)) <= 1real / 10000real
            &&& dist(num(y), num(#[trigger] m.tanh(x)) * num(b.g_inv)) <= 1real / 1000000real
        }
}

/// What the sub oscillator gives at its phase.
pub proof fn law_sub_wave(m: Sem, b: Block, v: Voice)
    requires
        m.rounds(),
        m.sines_bounded(),
        word::between(F0, render::sub_tone(m, b, v).0, F1),
        word::between(F0, b.morph, F1),
        held(b.g, 11real),
        held(b.g_inv, 2real),
        ({
            let sine = m.sin(m.mul(TAU, render::sub_tone(m, b, v).0));
            held(m.asin(sine), 2real)
        }),
        forall|x: Bits| word::finite(x) ==> held(#[trigger] m.tanh(x), 1real),
    ensures
        sub_is(m, b, render::sub_tone(m, b, v).0, render::sub_tone(m, b, v).1),
{
    reals::lemma_tiny();
    reals::lemma_num(F0, F1);
    numbers::law_numbers_part();
    let (ph, y) = render::sub_tone(m, b, v);
    reals::lemma_within(F0, ph, F1);
    laws::sweeps::law_angle_in_numbers(m, ph);
    let sine = m.sin(m.mul(TAU, ph));
    assert(word::between(0xbf80_0000, sine, F1)) by {
        reveal(Sem::sines_bounded);
    }
    laws::sweeps::lemma_signed_unit(sine);
    let a = num(m.asin(sine));
    let k = num(TWO_OVER_PI);
    let c = 636619772real / 1000000000real;
    assert(size(k * a) <= 14real / 10real && dist(k * a, a * c) <= 2real / 8388608real)
        by (nonlinear_arith)
        requires
            -2real <= a <= 2real,
            dist(k, c) <= c / 10000000real,
            dist(k, c) >= k - c,
            dist(k, c) >= c - k,
            c == 636619772real / 1000000000real,
            size(k * a) == k * a || size(k * a) == -(k * a),
            dist(k * a, a * c) == k * a - a * c || dist(k * a, a * c) == a * c - k * a,
    ;
    reals::lemma_mul(m, TWO_OVER_PI, m.asin(sine));
    let tri = m.mul(TWO_OVER_PI, m.asin(sine));
    reals::lemma_lerp(m, sine, tri, b.morph, 15real / 10real);
    reals::lemma_within(F0, b.morph, F1);
    let shaped = m.chase(sine, tri, b.morph);
    let s = num(sine);
    let arc = a * c;
    let r = num(b.morph);
    let t = num(tri);
    assert(dist(s + (t - s) * r, s + (arc - s) * r) <= 4real / 8388608real) by (nonlinear_arith)
        requires
            0real <= r <= 1real,
            -4real / 8388608real <= t - arc <= 4real / 8388608real,
            dist(s + (t - s) * r, s + (arc - s) * r) == (s + (t - s) * r) - (s + (arc - s) * r)
                || dist(s + (t - s) * r, s + (arc - s) * r) == (s + (arc - s) * r) - (s + (t - s)
                * r),
    ;
    let exact = s + (arc - s) * r;
    assert(-15real / 10real <= exact <= 15real / 10real) by (nonlinear_arith)
        requires
            exact == s + (arc - s) * r,
            0real <= r <= 1real,
            -1real <= s <= 1real,
            -15real / 10real <= arc <= 15real / 10real,
    ;
    let h = num(shaped);
    let g = num(b.g);
    assert(dist(h, exact) <= 14real / 8388608real);
    assert(size(h * g) <= 20real && dist(h * g, exact * g) <= 160real / 8388608real)
        by (nonlinear_arith)
        requires
            -16real / 10real <= h <= 16real / 10real,
            -11real <= g <= 11real,
            -14real / 8388608real <= h - exact <= 14real / 8388608real,
            size(h * g) == h * g || size(h * g) == -(h * g),
            dist(h * g, exact * g) == h * g - exact * g || dist(h * g, exact * g) == exact * g - h
                * g,
    ;
    reals::lemma_mul(m, shaped, b.g);
    let x = m.mul(shaped, b.g);
    let w = num(m.tanh(x));
    let i = num(b.g_inv);
    assert(held(m.tanh(x), 1real));
    assert(size(w * i) <= 2real) by (nonlinear_arith)
        requires
            -1real <= w <= 1real,
            -2real <= i <= 2real,
            size(w * i) == w * i || size(w * i) == -(w * i),
    ;
    reals::lemma_mul(m, m.tanh(x), b.g_inv);
    assert(y == m.mul(m.tanh(x), b.g_inv));
    assert(dist(num(x), exact * g) <= 1real / 10000real);
    assert(dist(num(y), num(m.tanh(x)) * num(b.g_inv)) <= 1real / 1000000real);
}

/// The click that is added to the sub oscillator: half the step of the noise,
/// at its level, of which what is left decays with the time since the note
/// started. It is added while its level is up and it has samples left, and
/// uses one of them up; else nothing is, and the noise stands still.
pub open spec fn click_is(m: Sem, b: Block, v: Voice, state: u32) -> bool {
    let (w, next, y) = render::sub_step(m, b, v, state);
    let (ph, plain) = render::sub_tone(m, b, v);
    if num(b.tr_lv) > 0real && v.tr_samp > 0 {
        &&& next == rng::next_of(state)
        &&& w.tr_samp == v.tr_samp - 1
        &&& dist(num(w.pn), 2real * num(rng::unit_of(next)) - 1real) <= 1real / 1000000real
        &&& exists|x: Bits|
            {
                &&& word::finite(x)
                &&& dist(num(x) * num(b.tr_dec), -num(v.t)) <= num(v.t) / 4194304real + 1real
                    / 1000000000real
                &&& dist(
                    num(y),
                    num(plain) + (num(w.pn) - num(v.pn)) / 2real * num(b.tr_lv) * num(
                        #[trigger] m.exp(x),
                    ),
                ) <= 1real / 100000real
            }
    } else {
        &&& next == state
        &&& w.tr_samp == v.tr_samp
        &&& w.pn == v.pn
        &&& y == plain
    }
}

/// What the click adds while it has samples left.
pub proof fn law_click(m: Sem, b: Block, v: Voice, state: u32)
    requires
        m.rounds(),
        m.decays(),
        word::between(F0, b.tr_lv, F1),
        word::finite(b.tr_dec),
        1real / 1000real <= num(b.tr_dec) <= 1real,
        word::between(F0, v.t, 0x4600_0001),
        held(v.pn, 1real),
        held(render::sub_tone(m, b, v).1, 4real),
    ensures
        click_is(m, b, v, state),
{
    reals::lemma_tiny();
    reals::lemma_num(F0, F1);
    reals::lemma_num(F0, b.tr_lv);
    reals::lemma_within(F0, b.tr_lv, F1);
    numbers::law_numbers_whole();
    numbers::law_numbers_part();
    let (w, next, y) = render::sub_step(m, b, v, state);
    let (ph, plain) = render::sub_tone(m, b, v);
    if num(b.tr_lv) > 0real && v.tr_samp > 0 {
        rng::law_unit_range(next);
        let n = rng::unit_of(next);
        reals::lemma_within(F0, n, F1);
        let two = num(F2);
        assert(num(n) * two == 2real * num(n)) by (nonlinear_arith)
            requires
                two == 2real,
        ;
        reals::lemma_mul(m, n, F2);
        reals::lemma_sub(m, m.mul(n, F2), F1);
        laws::modulation::lemma_twice(m, n);
        laws::sweeps::lemma_signed_unit(w.pn);
        reals::lemma_sub(m, w.pn, v.pn);
        let edge = m.sub(w.pn, v.pn);
        let e = num(edge);
        let half = num(F0_5);
        assert(e * half == e / 2real) by (nonlinear_arith)
            requires
                half == 1real / 2real,
        ;
        reals::lemma_mul(m, edge, F0_5);
        let h = m.mul(edge, F0_5);
        let exact = (num(w.pn) - num(v.pn)) / 2real;
        assert(dist(num(h), exact) <= 3real / 8388608real);
        lemma_times(m, h, b.tr_lv, exact, num(b.tr_lv), 3real / 8388608real);
        let loud = m.mul(h, b.tr_lv);
        let x = lemma_left(m, v.t, b.tr_dec);
        let left = render::decayed(m, v.t, b.tr_dec);
        lemma_times(
            m,
            loud,
            left,
            exact * num(b.tr_lv),
            num(left),
            6real / 8388608real,
        );
        let click = m.mul(loud, left);
        let goal = exact * num(b.tr_lv) * num(left);
        assert(dist(num(click), goal) <= 9real / 8388608real);
        assert(size(goal) <= 2real) by (nonlinear_arith)
            requires
                goal == exact * num(b.tr_lv) * num(left),
                -1real <= exact <= 1real,
                0real <= num(b.tr_lv) <= 1real,
                0real <= num(left) <= 1real,
                size(goal) == goal || size(goal) == -goal,
        ;
        reals::lemma_add(m, plain, click);
        assert(y == m.add(plain, click));
        assert(num(m.exp(x)) == num(left));
    }
}

/// A product of a value near `a`, of 1.5 at most in size, and one in 0 ..= 1.
proof fn lemma_times(m: Sem, x: Bits, y: Bits, a: real, b: real, off: real)
    requires
        m.rounds(),
        word::finite(x),
        word::finite(y),
        dist(num(x), a) <= off,
        off <= 1real / 1000real,
        size(a) <= 15real / 10real,
        num(y) == b,
        0real <= b <= 1real,
    ensures
        word::finite(m.mul(x, y)),
        dist(num(m.mul(x, y)), a * b) <= off + 3real / 8388608real,
        size(a * b) <= 15real / 10real,
{
    reals::lemma_tiny();
    let v = num(x);
    let c = num(y);
    assert(size(v * c) <= 16real / 10real && dist(v * c, a * b) <= off && size(a * b) <= 15real
        / 10real) by (nonlinear_arith)
        requires
            -16real / 10real <= v <= 16real / 10real,
            -15real / 10real <= a <= 15real / 10real,
            c == b,
            0real <= b <= 1real,
            -off <= v - a <= off,
            size(v * c) == v * c || size(v * c) == -(v * c),
            size(a * b) == a * b || size(a * b) == -(a * b),
            dist(v * c, a * b) == v * c - a * b || dist(v * c, a * b) == a * b - v * c,
    ;
    reals::lemma_mul(m, x, y);
}

/// What is left after the time `t`, with the time constant `time`.
proof fn lemma_left(m: Sem, t: Bits, time: Bits) -> (x: Bits)
    requires
        m.rounds(),
        m.decays(),
        word::between(F0, t, 0x4600_0001),
        word::finite(time),
        1real / 1000real <= num(time) <= 1real,
    ensures
        word::finite(x),
        dist(num(x) * num(time), -num(t)) <= num(t) / 4194304real + 1real / 1000000000real,
        render::decayed(m, t, time) == m.exp(x),
        word::finite(m.exp(x)),
        0real <= num(m.exp(x)) <= 1real,
{
    vstd::arithmetic::power2::lemma2_to64();
    reals::lemma_tiny();
    reals::lemma_num(F0, F1);
    reals::lemma_const(0x4600_0001);
    assert(num(0x4600_0001) == 8388609real / 1024real);
    reals::lemma_within(F0, t, 0x4600_0001);
    laws::motion::lemma_negated(t);
    let back = word::neg_of(t);
    let tt = num(t);
    let dec = num(time);
    let u = reals::tiny();
    let way = (-tt) / dec;
    assert(way * dec == -tt && -10000000real <= way <= 0real) by (nonlinear_arith)
        requires
            way == (-tt) / dec,
            1real / 1000real <= dec,
            0real <= tt <= 8193real,
    ;
    reals::lemma_div(m, back, time);
    let x = m.div(back, time);
    let nx = num(x);
    assert(dist(nx * dec, -tt) <= tt / 4194304real + 1real / 1000000000real) by (nonlinear_arith)
        requires
            way * dec == -tt,
            dec > 0real,
            dec <= 1real,
            dist(nx, way) <= -way / 8388608real + u,
            dist(nx, way) >= nx - way,
            dist(nx, way) >= way - nx,
            0real <= tt,
            0real < u <= 1real / 1000000000real,
            dist(nx * dec, -tt) == nx * dec + tt || dist(nx * dec, -tt) == -tt - nx * dec,
    ;
    laws::controls::lemma_not_positive(m, back, time);
    rounding::lemma_one();
    assert(word::between(F0, m.exp(x), F1)) by {
        reveal(Sem::decays);
    }
    reals::lemma_within(F0, m.exp(x), F1);
    x
}

// ---------------------------------------------------------------------------
// Overtones
// ---------------------------------------------------------------------------

/// Overtone `p` is heard: its level is not below 1e-5, nor its pitch above the
/// guard.
pub open spec fn is_heard(m: Sem, b: Block, f0: Bits, p: int) -> bool {
    !word::below(b.w[p], F1E_5) && !word::below(
        m.mul(b.sr, F0_48),
        render::partial_pitch(m, b, f0, p),
    )
}

/// The sum of the first `k` overtones: of each that is heard, the sine of its
/// phase at its level.
pub open spec fn chord(m: Sem, b: Block, f0: Bits, ph: [Bits; 16], k: nat) -> real
    decreases k,
{
    if k == 0 {
        0real
    } else {
        chord(m, b, f0, ph, (k - 1) as nat) + if is_heard(m, b, f0, k - 1) {
            num(b.w[k - 1]) * num(m.sin(m.mul(TAU, ph[k - 1])))
        } else {
            0real
        }
    }
}

/// The overtones of a sample are the sines of their phases after it, at their
/// levels, added up.
pub proof fn law_overtones_add_up(m: Sem, b: Block, f0: Bits, ph: [Bits; 16], most: real)
    requires
        m.rounds(),
        m.sines_bounded(),
        b.p_top <= 16,
        1real <= most <= 1000real,
        forall|p: int| 0 <= p < 16 ==> held(#[trigger] b.w[p], most),
        forall|p: int|
            0 <= p < 16 ==> word::between(
                F0,
                #[trigger] render::partials(m, b, f0, ph, b.p_top as nat).0[p],
                F1,
            ),
    ensures
        ({
            let (after, sum) = render::partials(m, b, f0, ph, b.p_top as nat);
            &&& word::finite(sum)
            &&& dist(num(sum), chord(m, b, f0, after, b.p_top as nat)) <= most / 10000real
        }),
{
    reals::lemma_tiny();
    let n = b.p_top as nat;
    let after = render::partials(m, b, f0, ph, n).0;
    lemma_chord(m, b, f0, ph, after, n, n, most);
    let k = n as real;
    assert(k * (20real * most / 8388608real) <= most / 10000real) by (nonlinear_arith)
        requires
            0real <= k <= 16real,
            most > 0real,
    ;
}

proof fn lemma_chord(
    m: Sem,
    b: Block,
    f0: Bits,
    ph: [Bits; 16],
    after: [Bits; 16],
    n: nat,
    k: nat,
    most: real,
)
    requires
        m.rounds(),
        m.sines_bounded(),
        k <= n <= 16,
        after == render::partials(m, b, f0, ph, n).0,
        1real <= most <= 1000real,
        forall|p: int| 0 <= p < 16 ==> held(#[trigger] b.w[p], most),
        forall|p: int| 0 <= p < 16 ==> word::between(F0, #[trigger] after[p], F1),
    ensures
        ({
            let sum = render::partials(m, b, f0, ph, k).1;
            &&& word::finite(sum)
            &&& dist(num(sum), chord(m, b, f0, after, k)) <= (k as real) * (20real * most
                / 8388608real)
            &&& size(chord(m, b, f0, after, k)) <= (k as real) * most
        }),
    decreases k,
{
    reals::lemma_tiny();
    reals::lemma_num(F0, F1);
    if k == 0 {
        assert((k as real) * (20real * most / 8388608real) == 0real && (k as real) * most == 0real)
            by (nonlinear_arith)
            requires
                k == 0,
        ;
    } else {
        let j = (k - 1) as nat;
        let i = k - 1;
        lemma_chord(m, b, f0, ph, after, n, j, most);
        let before = render::partials(m, b, f0, ph, j);
        let c = j as real;
        let unit = 20real * most / 8388608real;
        assert((c + 1real) * unit == c * unit + unit && (c + 1real) * most == c * most + most && c
            * unit <= 16real * unit && 0real <= c * most <= 16real * most && 0real <= c * unit)
            by (nonlinear_arith)
            requires
                0real <= c <= 16real,
                unit >= 0real,
                most >= 0real,
        ;
        assert(k as real == c + 1real);
        if is_heard(m, b, f0, i) {
            lemma_settled(m, b, f0, ph, n, k, i);
            let p = after[i];
            assert(word::between(F0, p, F1));
            reals::lemma_within(F0, p, F1);
            laws::sweeps::law_angle_in_numbers(m, p);
            let s = m.sin(m.mul(TAU, p));
            assert(word::between(0xbf80_0000, s, F1)) by {
                reveal(Sem::sines_bounded);
            }
            laws::sweeps::lemma_signed_unit(s);
            let w = b.w[i];
            assert(held(w, most));
            let a = num(w);
            let q = num(s);
            assert(size(a * q) <= most) by (nonlinear_arith)
                requires
                    -most <= a <= most,
                    -1real <= q <= 1real,
                    size(a * q) == a * q || size(a * q) == -(a * q),
            ;
            reals::lemma_mul(m, w, s);
            lemma_one_tone(m, before.1, m.mul(w, s), chord(m, b, f0, after, j), a * q, c * unit, most);
            assert(render::partials(m, b, f0, ph, k).1 == m.add(before.1, m.mul(w, s)));
        }
    }
}

proof fn lemma_one_tone(m: Sem, sum: Bits, part: Bits, a: real, p: real, off: real, most: real)
    requires
        m.rounds(),
        word::finite(sum),
        word::finite(part),
        dist(num(sum), a) <= off,
        off <= 320real * most / 8388608real,
        size(a) <= 16real * most,
        dist(num(part), p) <= reals::slack(p),
        size(p) <= most,
        1real <= most <= 1000real,
    ensures
        word::finite(m.add(sum, part)),
        dist(num(m.add(sum, part)), a + p) <= off + 20real * most / 8388608real,
{
    reals::lemma_tiny();
    assert(size(num(sum) + num(part)) <= 18real * most);
    reals::lemma_add(m, sum, part);
}

/// Once its turn is over, a phase does not change in a sample.
proof fn lemma_settled(m: Sem, b: Block, f0: Bits, ph: [Bits; 16], n: nat, k: nat, i: int)
    requires
        0 <= i < k <= n <= 16,
    ensures
        render::partials(m, b, f0, ph, n).0[i] == render::partials(m, b, f0, ph, k).0[i],
    decreases n,
{
    if k < n {
        lemma_settled(m, b, f0, ph, (n - 1) as nat, k, i);
    }
}

// ---------------------------------------------------------------------------
// Texture
// ---------------------------------------------------------------------------

/// The texture is the mean of what its two heads read, the first one faded in
/// where it is cut into grains; where its level is 0.001 or less it is silent
/// and stands still.
pub proof fn law_texture_in_numbers(
    m: Sem,
    b: Block,
    t: [Bits; 131072],
    v: Voice,
    state: u32,
    most: real,
)
    requires
        m.rounds(),
        1real <= most <= 1000000real,
        ({
            let w = render::textured(m, b, t, v, state).0;
            &&& held(table::table_value(m, t, b.fi as int, b.ff, w.ph_t), most)
            &&& held(table::table_value(m, t, b.fi as int, b.ff, w.ph_t2), most)
            &&& word::between(F0, w.g_fade, F1)
        }),
    ensures
        ({
            let (w, next, y) = render::textured(m, b, t, v, state);
            let h1 = num(table::table_value(m, t, b.fi as int, b.ff, w.ph_t));
            let h2 = num(table::table_value(m, t, b.fi as int, b.ff, w.ph_t2));
            let fade = if b.grain_len > 0 {
                num(w.g_fade)
            } else {
                1real
            };
            if word::below(F0_001, b.tex_lv) {
                dist(num(y), (h1 * fade + h2) / 2real) <= most / 1000000real
            } else {
                num(y) == 0real && w == v && next == state
            }
        }),
{
    reals::lemma_tiny();
    reals::lemma_num(F0, F1);
    numbers::law_numbers_part();
    let (w, next, y) = render::textured(m, b, t, v, state);
    if word::below(F0_001, b.tex_lv) {
        reals::lemma_within(F0, w.g_fade, F1);
        let r1 = table::table_value(m, t, b.fi as int, b.ff, w.ph_t);
        let r2 = table::table_value(m, t, b.fi as int, b.ff, w.ph_t2);
        let fade = if b.grain_len > 0 {
            w.g_fade
        } else {
            F1
        };
        let a = num(r1);
        let f = num(fade);
        assert(size(a * f) <= most) by (nonlinear_arith)
            requires
                -most <= a <= most,
                0real <= f <= 1real,
                size(a * f) == a * f || size(a * f) == -(a * f),
        ;
        reals::lemma_mul(m, r1, fade);
        let h1 = m.mul(r1, fade);
        reals::lemma_add(m, h1, r2);
        let sum = m.add(h1, r2);
        let s = num(sum);
        let half = num(F0_5);
        assert(s * half == s / 2real) by (nonlinear_arith)
            requires
                half == 1real / 2real,
        ;
        reals::lemma_mul(m, sum, F0_5);
        assert(y == m.mul(sum, F0_5));
    }
}

/// A grain counts down by one a sample. When its count runs out a new one
/// starts: it lasts from one to two times the shortest length, starts where
/// the noise says, and fades in from zero, by one part in 384 a sample and to
/// one at most.
pub proof fn law_grains_in_numbers(m: Sem, b: Block, v: Voice, state: u32)
    requires
        m.rounds(),
        word::between(F0, v.g_fade, F1),
        0 < b.grain_len <= 1000000,
        v.g_cnt > i32::MIN,
    ensures
        ({
            let (w, next) = render::grained(m, b, v, state);
            let start = if v.g_cnt <= 1 {
                0real
            } else {
                num(v.g_fade)
            };
            let up = start + 1real / 384real;
            let n = b.grain_len as real;
            &&& dist(
                num(w.g_fade),
                if up < 1real {
                    up
                } else {
                    1real
                },
            ) <= 1real / 1000000real
            &&& if v.g_cnt <= 1 {
                let s1 = rng::next_of(state);
                let exact = n + n * num(rng::unit_of(s1));
                &&& next == rng::next_of(s1)
                &&& w.ph_t == rng::unit_of(next)
                &&& exact - 12real / 10real <= w.g_cnt as real <= exact + 2real / 10real
            } else {
                &&& next == state
                &&& w.ph_t == v.ph_t
                &&& w.g_cnt == v.g_cnt - 1
            }
            &&& w == (Voice { g_cnt: w.g_cnt, g_fade: w.g_fade, ph_t: w.ph_t, ..v })
        }),
{
    reals::lemma_tiny();
    reals::lemma_num(F0, F1);
    numbers::law_numbers_tiny();
    reals::lemma_within(F0, v.g_fade, F1);
    let (w, next) = render::grained(m, b, v, state);
    let cnt = v.g_cnt.wrapping_sub(1);
    assert(cnt == v.g_cnt - 1);
    let fade = if cnt <= 0 {
        F0
    } else {
        v.g_fade
    };
    reals::lemma_add(m, fade, GRAIN_FADE);
    let up = m.add(fade, GRAIN_FADE);
    reals::lemma_num(fade, F1);
    reals::lemma_num(F1, up);
    if cnt <= 0 {
        let s1 = rng::next_of(state);
        rng::law_unit_range(s1);
        let x = rng::unit_of(s1);
        reals::lemma_within(F0, x, F1);
        reals::lemma_integer(b.grain_len as int);
        let n = word::from_nat(b.grain_len as nat);
        let k = b.grain_len as real;
        let a = num(x);
        assert(0real <= a * k <= k && a * k == k * a) by (nonlinear_arith)
            requires
                0real <= a <= 1real,
                k >= 0real,
        ;
        reals::lemma_mul(m, x, n);
        laws::motion::lemma_positive(m, x, n);
        let more = m.mul(x, n);
        reals::lemma_trunc(more);
        let extra = word::trunc_of(more);
        assert(extra as real <= k + 1real);
        assert(0 <= extra <= 1000001);
        assert(w.g_cnt == b.grain_len + extra);
    }
}

} // verus!
