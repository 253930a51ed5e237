//! What the delay, the chorus, the phaser and the two saturating curves make of
//! a sample, in numbers.

use crate::alu::Sem;
use crate::consts::{
    F0, F0_0009, F0_009, F0_012, F0_02, F0_05, F0_1, F0_18, F0_35, F0_45, F0_5, F0_6, F0_8, F0_92, F1,
    F10, F11, F12, F14, F142, F1_31, F2, F220, F2_094, F3, F379, F3_4, F48000, F7, PI, TAU,
};
use crate::fx;
use crate::fx::analog;
use crate::fx::analog::{AnalogBlock, Phaser};
use crate::fx::distortion;
use crate::fx::distortion::{Distortion, DistortionBlock};
use crate::fx::hybrid;
use crate::fx::hybrid::{Delay, HybridBlock};
use crate::fx::ring;
use crate::laws;
use crate::laws::echo::held;
use crate::laws::frames::unit;
use crate::laws::numbers;
use crate::laws::phases::usual_rate;
use crate::laws::wet::{part, tame};
use crate::params;
use crate::params::RANGES;
use crate::rounding;
use crate::rounding::reals;
use crate::rounding::reals::{dist, near, num, size};
use crate::word;
use crate::word::Bits;
use vstd::arithmetic::div_mod::*;
use vstd::prelude::*;

verus! {

/// A quotient times its divisor is what was divided, where the quotient is no
/// larger than `p` and the divisor no larger than `q`.
pub proof fn lemma_quotient(
    m: Sem,
    x: Bits,
    y: Bits,
    a: real,
    b: real,
    e: real,
    f: real,
    p: real,
    q: real,
)
    requires
        m.rounds(),
        near(x, a, e),
        near(y, b, f),
        0real < num(y) <= q,
        size(num(x)) <= p * num(y),
        1real / 1000000real <= p <= 1000000real,
        1real / 1000000real <= q <= 1000000real,
    ensures
        word::finite(m.div(x, y)),
        size(num(m.div(x, y))) <= 2real * p,
        dist(num(m.div(x, y)) * b, a) <= e + 2real * p * f + 2real * (p * q) / 8388608real,
{
    reals::lemma_tiny();
    let u = num(x);
    let v = num(y);
    let w = u / v;
    assert(w * v == u) by (nonlinear_arith)
        requires
            w == u / v,
            v > 0real,
    ;
    assert(-p <= w <= p) by (nonlinear_arith)
        requires
            w * v == u,
            v > 0real,
            -(p * v) <= u <= p * v,
    ;
    reals::lemma_div(m, x, y);
    let z = num(m.div(x, y));
    let s = 2real * p / 8388608real;
    assert(dist(z, w) <= s);
    reals::lemma_bounded(z - w, v, s, q);
    assert(z * v - u == (z - w) * v) by (nonlinear_arith)
        requires
            w * v == u,
    ;
    assert(s * q == 2real * (p * q) / 8388608real) by (nonlinear_arith)
        requires
            s == 2real * p / 8388608real,
    ;
    reals::lemma_bounded(z, b - v, 2real * p, f);
    assert(z * b - z * v == z * (b - v)) by (nonlinear_arith);
}

// ---------------------------------------------------------------------------
// Delay
// ---------------------------------------------------------------------------

/// The delay damps its echo and writes it, turned down, under the sample.
pub proof fn law_delay_in_numbers(m: Sem, b: HybridBlock, s: Delay, x: Bits)
    requires
        m.rounds(),
        s.wf(),
        tame(x),
        tame(s.lp),
        part(b.color_k),
        part(b.delay_fb),
        tame(ring::tapped(m, *s.ring, s.w as int, s.smp)),
    ensures
        ({
            let (t, echo) = hybrid::delayed(m, b, s, x);
            let damped = num(s.lp) + (num(echo) - num(s.lp)) * num(b.color_k);
            &&& echo == ring::tapped(m, *s.ring, s.w as int, s.smp)
            &&& near(t.lp, damped, 1real / 1000real)
            &&& near(t.ring[s.w as int], num(x) + num(t.lp) * num(b.delay_fb), 1real / 1000real)
            &&& forall|c: int| 0 <= c < 131072 && c != s.w ==> #[trigger] t.ring[c] == s.ring[c]
            &&& t.w == (s.w + 1) % 131072
            &&& t.smp == s.smp
        }),
{
    reals::lemma_tiny();
    reals::lemma_num(F0, F1);
    laws::wet::lemma_part(b.color_k);
    laws::wet::lemma_part(b.delay_fb);
    let (t, echo) = hybrid::delayed(m, b, s, x);
    reals::lemma_lerp(m, s.lp, echo, b.color_k, 1000real);
    let p = num(s.lp);
    let c = num(b.color_k);
    let way = num(echo) - p;
    assert(-1000real <= p + way * c <= 1000real) by (nonlinear_arith)
        requires
            -1000real <= p <= 1000real,
            -1000real <= p + way <= 1000real,
            0real <= c <= 1real,
    ;
    let l = num(t.lp);
    let f = num(b.delay_fb);
    reals::lemma_near_mul(m, t.lp, b.delay_fb, l, f, 0real, 0real, 1001real, 1real);
    reals::lemma_near_add(
        m,
        x,
        m.mul(t.lp, b.delay_fb),
        num(x),
        l * f,
        0real,
        2002real / 8388608real,
        2002real,
    );
}

/// The diffusers of the reverb are as long as 142 and 379 samples at 48 kHz,
/// as far as their rings hold them.
pub proof fn law_spans_in_numbers(m: Sem, q: [Bits; 63], sr: Bits)
    requires
        m.rounds(),
        usual_rate(sr),
    ensures
        ({
            let b = hybrid::block_of(m, q, sr);
            let k = num(sr) / 48000real;
            &&& spans(b.span1 as int, 142real * k, 510)
            &&& spans(b.span2 as int, 379real * k, 1022)
        }),
{
    numbers::law_numbers_large();
    laws::motion::lemma_rate(sr);
    let s = num(sr);
    let k = num(F48000);
    assert(s / k == s / 48000real);
    reals::lemma_div(m, sr, F48000);
    reals::lemma_tiny();
    let sr_k = m.div(sr, F48000);
    let r = s / 48000real;
    assert(near(sr_k, r, 6real / 8388608real));
    lemma_span(m, F142, 142real, sr_k, r, 510);
    lemma_span(m, F379, 379real, sr_k, r, 1022);
}

/// A whole number of cells next below `x`, and `most` from there on.
pub open spec fn spans(n: int, x: real, most: int) -> bool {
    if n < most {
        x - 101real / 100real < n as real <= x + 1real / 100real
    } else {
        n == most && (most as real) <= x + 1real / 100real
    }
}

proof fn lemma_span(m: Sem, per: Bits, p: real, sr_k: Bits, r: real, most: int)
    requires
        m.rounds(),
        word::finite(per),
        num(per) == p,
        100real <= p <= 400real,
        near(sr_k, r, 6real / 8388608real),
        8real / 100real <= r <= 6real,
        0 < most <= 2000,
    ensures
        spans(hybrid::span_of(m, per, sr_k, most) as int, p * r, most),
{
    reals::lemma_near_mul(
        m,
        per,
        sr_k,
        p,
        r,
        0real,
        6real / 8388608real,
        400real,
        7real,
    );
    let c = m.mul(per, sr_k);
    assert(8real <= p * r <= 2400real) by (nonlinear_arith)
        requires
            100real <= p <= 400real,
            8real / 100real <= r <= 6real,
    ;
    reals::lemma_trunc(c);
    let t = word::trunc_of(c);
    assert(0 <= t <= 2401);
}

// ---------------------------------------------------------------------------
// Chorus
// ---------------------------------------------------------------------------

/// The drift that reaches the section is that of the rack, as far as it is let
/// through.
pub proof fn law_drift_reaches(m: Sem, q: [Bits; 63], sr: Bits, drift: Bits)
    requires
        m.rounds(),
        held(drift, 1real),
        !word::is_nan(q[49]),
    ensures
        near(
            fx::rack_block(m, q, sr, drift).analog.drift,
            num(drift) * unit(num(q[49])),
            1real / 1000000real,
        ),
{
    reals::lemma_num(F0, F1);
    numbers::law_ranges();
    laws::frames::law_unit_setting(m, 49, q[49]);
    let k = params::mapped(m, 49, q[49]);
    laws::wet::lemma_part(k);
    reals::lemma_near_mul(m, drift, k, num(drift), num(k), 0real, 0real, 1real, 1real);
}

/// The first tap of the chorus starts 12 ms back, and both are swept over 9 ms
/// of the depth, which the drift pulls at by a tenth.
pub proof fn law_chorus_reach(m: Sem, q: [Bits; 63], sr: Bits, drift: Bits)
    requires
        m.rounds(),
        usual_rate(sr),
        held(drift, 1real),
        !word::is_nan(q[46]),
    ensures
        ({
            let b = analog::block_of(m, q, sr, drift);
            let depth = unit(num(q[46])) * (1real + num(drift) * (1real / 10real));
            &&& near(b.chorus_base, 3real / 250real * num(sr), 1real / 100real)
            &&& near(b.chorus_depth, depth * (9real / 1000real) * num(sr), 1real / 10real)
        }),
{
    reals::lemma_num(F0, F1);
    numbers::law_ranges();
    numbers::law_numbers_tiny();
    numbers::law_numbers_small();
    laws::motion::lemma_rate(sr);
    laws::frames::law_unit_setting(m, 46, q[46]);
    let z = params::mapped(m, 46, q[46]);
    laws::wet::lemma_part(z);
    let s = num(sr);
    let c = 3real / 250real;
    reals::lemma_near_mul(m, F0_012, sr, c, s, c / 10000000real, 0real, 13real / 1000real, 262144real);
    let d = num(drift);
    let tenth = 1real / 10real;
    reals::lemma_near_mul(
        m,
        drift,
        F0_1,
        d,
        tenth,
        0real,
        tenth / 10000000real,
        1real,
        2real / 10real,
    );
    let off = m.mul(drift, F0_1);
    assert(size(d * tenth) <= tenth);
    reals::lemma_near_add(m, F1, off, 1real, d * tenth, 0real, 1real / 8388608real, 12real / 10real);
    let k = 1real + d * tenth;
    let pulled = m.add(F1, off);
    reals::lemma_near_mul(m, z, pulled, num(z), k, 0real, 4real / 8388608real, 1real, 12real / 10real);
    let depth = m.mul(z, pulled);
    let e = num(z) * k;
    let nine = 9real / 1000real;
    reals::lemma_near_mul(
        m,
        depth,
        F0_009,
        e,
        nine,
        7real / 8388608real,
        nine / 10000000real,
        13real / 10real,
        1real / 100real,
    );
    reals::lemma_near_mul(
        m,
        m.mul(depth, F0_009),
        sr,
        e * nine,
        s,
        2real / 10000000real,
        0real,
        14real / 1000real,
        262144real,
    );
}

/// The taps read at the shortest delay, for the second one 1.31 times it, and
/// the depth times a swing that for the second one is a third of a turn ahead.
pub proof fn law_chorus_taps(m: Sem, b: AnalogBlock, ph: Bits)
    requires
        m.rounds(),
        m.sines_bounded(),
        part(ph),
        held(b.chorus_base, 4000real),
        held(b.chorus_depth, 4000real),
    ensures
        ({
            let angle = m.mul(TAU, ph);
            let next = m.add(angle, F2_094);
            let d1 = m.add(b.chorus_base, m.mul(b.chorus_depth, analog::swing_of(m, angle)));
            let d2 = m.add(
                m.mul(b.chorus_base, F1_31),
                m.mul(b.chorus_depth, analog::swing_of(m, next)),
            );
            let base = num(b.chorus_base);
            let depth = num(b.chorus_depth);
            let c = 6283185307real / 1000000000real;
            &&& near(angle, num(ph) * c, 1real / 100000real)
            &&& near(next, num(ph) * c + 1047real / 500real, 1real / 50000real)
            &&& near(d1, base + depth * (1real / 2real + num(m.sin(angle)) / 2real), 1real / 50real)
            &&& near(
                d2,
                base * (131real / 100real) + depth * (1real / 2real + num(m.sin(next)) / 2real),
                1real / 50real,
            )
        }),
{
    reals::lemma_num(F0, F1);
    numbers::law_numbers_mixed();
    laws::wet::lemma_part(ph);
    laws::sweeps::law_angle_in_numbers(m, ph);
    let angle = m.mul(TAU, ph);
    let c = 6283185307real / 1000000000real;
    let turn = num(ph) * c;
    assert(0real <= turn <= 7real);
    let third = 1047real / 500real;
    reals::lemma_near_add(
        m,
        angle,
        F2_094,
        turn,
        third,
        1real / 150000real,
        third / 10000000real,
        10real,
    );
    let next = m.add(angle, F2_094);
    laws::wet::lemma_swing(m, angle);
    laws::wet::lemma_swing(m, next);
    let base = num(b.chorus_base);
    let depth = num(b.chorus_depth);
    let h = 131real / 100real;
    reals::lemma_near_mul(
        m,
        b.chorus_base,
        F1_31,
        base,
        h,
        0real,
        h / 10000000real,
        4000real,
        2real,
    );
    let x = m.mul(b.chorus_base, F1_31);
    assert(size(base * h) <= 5241real);
    lemma_tap(m, b.chorus_base, base, 0real, b.chorus_depth, angle);
    lemma_tap(m, x, base * h, 3real / 1000real, b.chorus_depth, next);
}

proof fn lemma_tap(m: Sem, x: Bits, a: real, e: real, depth: Bits, angle: Bits)
    requires
        m.rounds(),
        near(x, a, e),
        0real <= e <= 3real / 1000real,
        size(a) <= 5241real,
        held(depth, 4000real),
        near(
            analog::swing_of(m, angle),
            1real / 2real + num(m.sin(angle)) / 2real,
            4real / 8388608real,
        ),
        size(num(m.sin(angle))) <= 1real,
    ensures
        near(
            m.add(x, m.mul(depth, analog::swing_of(m, angle))),
            a + num(depth) * (1real / 2real + num(m.sin(angle)) / 2real),
            1real / 50real,
        ),
{
    let w = 1real / 2real + num(m.sin(angle)) / 2real;
    let d = num(depth);
    reals::lemma_near_mul(
        m,
        depth,
        analog::swing_of(m, angle),
        d,
        w,
        0real,
        4real / 8388608real,
        4000real,
        11real / 10real,
    );
    reals::lemma_near_add(
        m,
        x,
        m.mul(depth, analog::swing_of(m, angle)),
        a,
        d * w,
        e,
        24800real / 8388608real,
        9700real,
    );
}

// ---------------------------------------------------------------------------
// Phaser
// ---------------------------------------------------------------------------

/// The coefficient of the phaser's stages: `(1 - w) / (1 + w)` for half the
/// angle `w` that a sample takes at 220 Hz, raised by 3.4 octaves of the swing.
pub open spec fn stage_is(m: Sem, a: Bits, swing: real, sr: real) -> bool {
    exists|w: Bits, y: Bits|
        {
            &&& near(y, swing * (17real / 5real), 1real / 100000real)
            &&& word::finite(w)
            &&& dist(
                #[trigger] num(w) * sr,
                1570796327real / 500000000real * (220real * num(#[trigger] m.pow(F2, y))),
            ) <= 1real
            &&& word::finite(a)
            &&& dist(num(a) * (1real + num(w)), 1real - num(w)) <= 1real / 60000real
        }
}

/// One sample through the phaser: with a part of what it gave before, the sample
/// runs through six stages; the result is mixed to the sample, and both are
/// turned down by as much as 1 in 1.35.
pub proof fn law_phaser_in_numbers(m: Sem, b: AnalogBlock, s: Phaser, x: Bits, y: Bits)
    requires
        m.rounds(),
        m.sines_bounded(),
        usual_rate(b.sr),
        tame(x),
        tame(s.fb),
        part(b.phaser_fb),
        part(b.phaser_mix),
        part(analog::phased(m, b, s, x).0.ph),
        tame(analog::phased(m, b, s, x).0.fb),
        y == m.mul(analog::swing_of(m, m.mul(TAU, analog::phased(m, b, s, x).0.ph)), F3_4),
        held(m.pow(F2, y), 16real),
        num(m.pow(F2, y)) >= 0real,
    ensures
        ({
            let (t, out) = analog::phased(m, b, s, x);
            let swing = 1real / 2real + num(m.sin(m.mul(TAU, t.ph))) / 2real;
            let mix = num(b.phaser_mix);
            &&& dist(num(out) * (1real + mix * (7real / 20real)), num(x) + num(t.fb) * mix) <= 1real
                / 100real
            &&& exists|a: Bits, d: Bits|
                {
                    &&& stage_is(m, a, swing, num(b.sr))
                    &&& near(d, num(x) + num(s.fb) * num(b.phaser_fb), 1real / 1000real)
                    &&& ({
                        let (r, o) = #[trigger] analog::staged(m, a, Phaser { ph: t.ph, ..s }, d, 6);
                        t == Phaser { fb: o, ..r }
                    })
                }
        }),
{
    reals::lemma_num(F0, F1);
    laws::wet::lemma_part(b.phaser_fb);
    laws::wet::lemma_part(b.phaser_mix);
    let (t, out) = analog::phased(m, b, s, x);
    let turned = Phaser { ph: m.turn(s.ph, m.mul(b.phaser_rate, b.dt)), ..s };
    laws::drift::lemma_phased(m, b, s, x);
    let sweep = analog::swing_of(m, m.mul(TAU, turned.ph));
    let w = m.div(m.mul(PI, m.mul(F220, m.pow(F2, m.mul(sweep, F3_4)))), b.sr);
    let a = m.div(m.sub(F1, w), m.add(F1, w));
    let d = m.add(x, m.mul(s.fb, b.phaser_fb));
    let (r, o) = analog::staged(m, a, turned, d, 6);
    assert(t == Phaser { fb: o, ..r });
    lemma_stage(m, t.ph, b.sr, y);
    let f = num(b.phaser_fb);
    reals::lemma_near_mul(m, s.fb, b.phaser_fb, num(s.fb), f, 0real, 0real, 1000real, 1real);
    reals::lemma_near_add(
        m,
        x,
        m.mul(s.fb, b.phaser_fb),
        num(x),
        num(s.fb) * f,
        0real,
        2000real / 8388608real,
        2001real,
    );
    assert(turned == Phaser { ph: t.ph, ..s });
    lemma_phaser_mix(m, x, o, b.phaser_mix);
}

proof fn lemma_phaser_mix(m: Sem, x: Bits, t: Bits, mix: Bits)
    requires
        m.rounds(),
        tame(x),
        tame(t),
        part(mix),
    ensures
        dist(
            num(m.div(m.add(x, m.mul(t, mix)), m.add(F1, m.mul(mix, F0_35)))) * (1real + num(mix) * (
            7real / 20real)),
            num(x) + num(t) * num(mix),
        ) <= 1real / 100real,
{
    reals::lemma_num(F0, F1);
    numbers::law_numbers_part();
    laws::wet::lemma_part(mix);
    let k = num(mix);
    let c = 7real / 20real;
    reals::lemma_near_mul(m, t, mix, num(t), k, 0real, 0real, 1000real, 1real);
    let e = 2000real / 8388608real;
    reals::lemma_near_add(m, x, m.mul(t, mix), num(x), num(t) * k, 0real, e, 2001real);
    let up = m.add(x, m.mul(t, mix));
    reals::lemma_near_mul(m, mix, F0_35, k, c, 0real, c / 10000000real, 1real, 1real);
    assert(0real <= k * c <= c) by (nonlinear_arith)
        requires
            0real <= k <= 1real,
            c == 7real / 20real,
    ;
    let f = 3real / 8388608real;
    reals::lemma_near_add(m, F1, m.mul(mix, F0_35), 1real, k * c, 0real, f, 2real);
    let under = m.add(F1, m.mul(mix, F0_35));
    let v = num(under);
    assert(size(num(up)) <= 2001real);
    assert(2001real <= 2002real * v);
    lemma_quotient(
        m,
        up,
        under,
        num(x) + num(t) * k,
        1real + k * c,
        6002real / 8388608real,
        7real / 8388608real,
        2002real,
        2real,
    );
}

proof fn lemma_stage(m: Sem, ph: Bits, sr: Bits, y: Bits)
    requires
        m.rounds(),
        m.sines_bounded(),
        usual_rate(sr),
        part(ph),
        y == m.mul(analog::swing_of(m, m.mul(TAU, ph)), F3_4),
        held(m.pow(F2, y), 16real),
        num(m.pow(F2, y)) >= 0real,
    ensures
        ({
            let w = m.div(m.mul(PI, m.mul(F220, m.pow(F2, y))), sr);
            stage_is(
                m,
                m.div(m.sub(F1, w), m.add(F1, w)),
                1real / 2real + num(m.sin(m.mul(TAU, ph))) / 2real,
                num(sr),
            )
        }),
{
    reals::lemma_tiny();
    reals::lemma_num(F0, F1);
    numbers::law_numbers_mixed();
    numbers::law_numbers_large();
    laws::motion::lemma_rate(sr);
    laws::wet::lemma_part(ph);
    laws::sweeps::law_angle_in_numbers(m, ph);
    let angle = m.mul(TAU, ph);
    laws::wet::lemma_swing(m, angle);
    let swing = 1real / 2real + num(m.sin(angle)) / 2real;
    let c = 17real / 5real;
    reals::lemma_near_mul(
        m,
        analog::swing_of(m, angle),
        F3_4,
        swing,
        c,
        4real / 8388608real,
        c / 10000000real,
        2real,
        4real,
    );
    let p = m.pow(F2, y);
    let g = num(p);
    reals::lemma_near_mul(m, F220, p, 220real, g, 0real, 0real, 220real, 16real);
    let hz = m.mul(F220, p);
    let pi = 1570796327real / 500000000real;
    let e = 7040real / 8388608real;
    reals::lemma_near_mul(m, PI, hz, pi, 220real * g, pi / 10000000real, e, 4real, 3521real);
    let up = m.mul(PI, hz);
    let exact = pi * (220real * g);
    assert(0real <= exact <= 12000real);
    let s = num(sr);
    assert(size(num(up)) <= 12001real);
    assert(12001real <= 3real * s);
    lemma_quotient(m, up, sr, exact, s, 8real / 1000real, 0real, 3real, 262144real);
    let w = m.div(up, sr);
    let z = num(w);
    assert(dist(z * s, exact) <= 1real);
    assert(z >= -1real / 4096real) by (nonlinear_arith)
        requires
            z * s >= -1real,
            s >= 4096real,
    ;
    reals::lemma_near_sub(m, F1, w, 1real, z, 0real, 0real, 7real);
    reals::lemma_near_add(m, F1, w, 1real, z, 0real, 0real, 7real);
    let f = 14real / 8388608real;
    let lower = m.sub(F1, w);
    let upper = m.add(F1, w);
    assert(size(num(lower)) <= 2real * num(upper));
    lemma_quotient(m, lower, upper, 1real - z, 1real + z, f, f, 2real, 8real);
    let a = m.div(lower, upper);
    assert(near(y, swing * c, 1real / 100000real));
    assert(dist(num(w) * s, pi * (220real * num(m.pow(F2, y)))) <= 1real);
    assert(dist(num(a) * (1real + num(w)), 1real - num(w)) <= 1real / 60000real);
}

// ---------------------------------------------------------------------------
// Saturation
// ---------------------------------------------------------------------------

/// What the crossover curve hands to its saturation: below the notch the value
/// times its share of the notch, and above it the value; times a slope that
/// leans with the bias, to one side for positive and to the other for negative
/// values.
pub open spec fn push_is(m: Sem, out: Bits, v: real, bias: real) -> bool {
    exists|w: Bits|
        {
            let notch = 1real / 50real + bias * (1real / 20real);
            let lean = (bias - 1real / 2real) * (8real / 10real);
            let slope = if v < 0real {
                1real - lean
            } else {
                1real + lean
            };
            &&& out == #[trigger] m.tanh(w)
            &&& word::finite(w)
            &&& size(v) > notch + 1real / 1000000real ==> dist(num(w), v * slope) <= 1real / 500real
            &&& size(v) < notch - 1real / 1000000real ==> dist(
                num(w) * notch,
                v * size(v) * slope,
            ) <= 1real / 1000000real
        }
}

/// The crossover curve squeezes small values and leans by its bias.
pub proof fn law_push_curve(m: Sem, b: DistortionBlock, s: Distortion, x: Bits, v: Bits)
    requires
        m.rounds(),
        b.curve is Push,
        tame(v),
        part(b.bias),
    ensures
        push_is(m, distortion::curved(m, b, s, x, v).1, num(v), num(b.bias)),
        distortion::curved(m, b, s, x, v).0 == s,
{
    reals::lemma_tiny();
    reals::lemma_num(F0, F1);
    numbers::law_numbers_small();
    numbers::law_numbers_part();
    laws::wet::lemma_part(b.bias);
    laws::adsr::lemma_abs(v);
    let k = num(b.bias);
    let h = 1real / 20real;
    reals::lemma_near_mul(m, b.bias, F0_05, k, h, 0real, h / 10000000real, 1real, 6real / 100real);
    let two = 1real / 50real;
    assert(0real <= k * h <= h) by (nonlinear_arith)
        requires
            0real <= k <= 1real,
            h == 1real / 20real,
    ;
    let f = 2real / 10000000real;
    reals::lemma_near_add(
        m,
        F0_02,
        m.mul(b.bias, F0_05),
        two,
        k * h,
        two / 10000000real,
        f / 10real,
        8real / 100real,
    );
    let notch = m.add(F0_02, m.mul(b.bias, F0_05));
    let exact = two + k * h;
    assert(near(notch, exact, f));
    let abs = word::abs_of(v);
    reals::lemma_num(abs, notch);
    let half = 1real / 2real;
    reals::lemma_near_sub(m, b.bias, F0_5, k, half, 0real, 0real, 1real);
    let eight = 8real / 10real;
    reals::lemma_near_mul(
        m,
        m.sub(b.bias, F0_5),
        F0_8,
        k - half,
        eight,
        2real / 8388608real,
        eight / 10000000real,
        51real / 100real,
        81real / 100real,
    );
    let lean = m.mul(m.sub(b.bias, F0_5), F0_8);
    let l = (k - half) * eight;
    assert(size(l) <= 4real / 10real);
    let g = 4real / 8388608real;
    reals::lemma_near_add(m, F1, lean, 1real, l, 0real, g, 15real / 10real);
    reals::lemma_near_sub(m, F1, lean, 1real, l, 0real, g, 15real / 10real);
    let a = num(v);
    if word::below(abs, notch) {
        lemma_quotient(m, abs, notch, size(a), exact, 0real, f, 1real, 8real / 100real);
        let share = m.div(abs, notch);
        lemma_squeezed(m, v, share, exact, lean, l);
    } else {
        reals::lemma_num(F0, v);
        lemma_leaned(m, v, a, 0real, lean, l);
    }
}

proof fn lemma_leaned(m: Sem, v: Bits, a: real, e: real, lean: Bits, l: real)
    requires
        m.rounds(),
        near(v, a, e),
        0real <= e <= 1real,
        size(a) <= 1000real,
        size(l) <= 4real / 10real,
        near(m.add(F1, lean), 1real + l, 8real / 8388608real),
        near(m.sub(F1, lean), 1real - l, 8real / 8388608real),
    ensures
        near(
            m.mul(v, m.add(F1, lean)),
            a * (1real + l),
            (e + 1real / 1000000real) * (15real / 10real) + (size(a) + e) * (15real / 10000000real),
        ),
        near(
            m.mul(v, m.sub(F1, lean)),
            a * (1real - l),
            (e + 1real / 1000000real) * (15real / 10real) + (size(a) + e) * (15real / 10000000real),
        ),
{
    let f = 8real / 8388608real;
    let p = size(a) + e + 1real / 1000000real;
    let q = 15real / 10real;
    reals::lemma_near_mul(m, v, m.add(F1, lean), a, 1real + l, e, f, p, q);
    reals::lemma_near_mul(m, v, m.sub(F1, lean), a, 1real - l, e, f, p, q);
}

proof fn lemma_squeezed(m: Sem, v: Bits, share: Bits, notch: real, lean: Bits, l: real)
    requires
        m.rounds(),
        held(v, 8real / 100real),
        held(share, 2real),
        1real / 50real <= notch <= 7real / 100real,
        dist(num(share) * notch, size(num(v))) <= 5real / 10000000real,
        size(l) <= 4real / 10real,
        near(m.add(F1, lean), 1real + l, 8real / 8388608real),
        near(m.sub(F1, lean), 1real - l, 8real / 8388608real),
    ensures
        ({
            let u = m.mul(v, share);
            let w = if word::at_least(u, F0) {
                m.mul(u, m.add(F1, lean))
            } else {
                m.mul(u, m.sub(F1, lean))
            };
            let slope = if num(v) < 0real {
                1real - l
            } else {
                1real + l
            };
            &&& word::finite(w)
            &&& dist(num(w) * notch, num(v) * size(num(v)) * slope) <= 1real / 1000000real
        }),
{
    reals::lemma_num(F0, F1);
    let a = num(v);
    let z = num(share);
    reals::lemma_near_mul(m, v, share, a, z, 0real, 0real, 8real / 100real, 2real);
    let u = m.mul(v, share);
    let g = num(u);
    let e = 4real / 100000000real;
    assert(near(u, a * z, e));
    reals::lemma_num(F0, u);
    lemma_leaned(m, u, g, 0real, lean, l);
    let r = if word::at_least(u, F0) {
        1real + l
    } else {
        1real - l
    };
    let t = if a < 0real {
        1real - l
    } else {
        1real + l
    };
    let w = if word::at_least(u, F0) {
        m.mul(u, m.add(F1, lean))
    } else {
        m.mul(u, m.sub(F1, lean))
    };
    let c = num(w);
    assert(dist(c, g * r) <= 3real / 1000000real);
    reals::lemma_bounded(c - g * r, notch, 3real / 1000000real, 7real / 100real);
    assert((c - g * r) * notch == c * notch - r * (g * notch)) by (nonlinear_arith);
    reals::lemma_bounded(g - a * z, notch, e, 7real / 100real);
    let x = a * (z * notch);
    assert((g - a * z) * notch == g * notch - x) by (nonlinear_arith)
        requires
            x == a * (z * notch),
    ;
    let y = a * size(a);
    reals::lemma_bounded(a, z * notch - size(a), 8real / 100real, 5real / 10000000real);
    assert(a * (z * notch - size(a)) == x - y) by (nonlinear_arith)
        requires
            x == a * (z * notch),
            y == a * size(a),
    ;
    let h = g * notch;
    assert((g >= 0real ==> h >= 0real) && (g < 0real ==> h <= 0real)) by (nonlinear_arith)
        requires
            h == g * notch,
            notch > 0real,
    ;
    assert((a >= 0real ==> y >= 0real) && (a < 0real ==> y <= 0real)) by (nonlinear_arith)
        requires
            y == a * size(a),
            size(a) >= 0real,
    ;
    let small = 1real / 10000000real;
    assert(size(h - y) <= small);
    if r == t {
        reals::lemma_bounded(r, h - y, 14real / 10real, small);
        assert(r * (h - y) == r * h - y * t) by (nonlinear_arith)
            requires
                r == t,
        ;
    } else {
        reals::lemma_bounded(r, h, 14real / 10real, small);
        reals::lemma_bounded(y, t, small, 14real / 10real);
    }
}

/// What the level follower's curve hands to its saturation: the value, up to 8
/// times as loud by the drive, over 1 and 11 times the level times the drive;
/// six tenths of that.
pub open spec fn comp_is(m: Sem, out: Bits, v: real, drive: real, level: real) -> bool {
    exists|w: Bits|
        {
            let over = v * (1real + drive * 7real);
            let under = 1real + level * drive * 11real;
            &&& out == #[trigger] m.tanh(w)
            &&& word::finite(w)
            &&& dist(num(w) * under, over * (6real / 10real)) <= 1real / 4real
        }
}

/// The level follower rises by 0.012 of its way and falls by 0.0009, and turns
/// the value down by the level.
pub proof fn law_comp_curve(m: Sem, b: DistortionBlock, s: Distortion, x: Bits, v: Bits)
    requires
        m.rounds(),
        b.curve is Comp,
        held(v, 300real),
        held(x, 4real),
        held(s.comp_env, 4real),
        num(s.comp_env) >= 0real,
        part(b.drive),
    ensures
        ({
            let (t, y) = distortion::curved(m, b, s, x, v);
            let env = num(s.comp_env);
            let loud = size(num(x));
            let k = if loud > env {
                3real / 250real
            } else {
                9real / 10000real
            };
            &&& near(t.comp_env, env + (loud - env) * k, 1real / 100000real)
            &&& t == (Distortion { comp_env: t.comp_env, ..s })
            &&& comp_is(m, y, num(v), num(b.drive), num(t.comp_env))
        }),
{
    reals::lemma_tiny();
    reals::lemma_num(F0, F1);
    numbers::law_numbers_tiny();
    numbers::law_numbers_small();
    laws::wet::lemma_part(b.drive);
    laws::adsr::lemma_abs(x);
    let (t, y) = distortion::curved(m, b, s, x, v);
    let abs = word::abs_of(x);
    reals::lemma_num(s.comp_env, abs);
    let env = num(s.comp_env);
    let loud = size(num(x));
    let k = if loud > env {
        F0_012
    } else {
        F0_0009
    };
    let c = if loud > env {
        3real / 250real
    } else {
        9real / 10000real
    };
    reals::lemma_num(F0, k);
    reals::lemma_num(k, F1);
    reals::lemma_lerp(m, s.comp_env, abs, k, 4real);
    reals::lemma_bounded(loud - env, num(k) - c, 4real, 1real / 100000000real);
    assert((loud - env) * num(k) - (loud - env) * c == (loud - env) * (num(k) - c))
        by (nonlinear_arith);
    let way = (loud - env) * num(k);
    assert(-1real / 10real <= env + way <= 41real / 10real) by (nonlinear_arith)
        requires
            way == (loud - env) * num(k),
            0real <= num(k) <= 1real,
            0real <= loud <= 4real,
            0real <= env <= 4real,
    ;
    assert(env + way >= 0real) by (nonlinear_arith)
        requires
            way == (loud - env) * num(k),
            0real <= num(k) <= 1real,
            0real <= loud,
            0real <= env,
    ;
    lemma_turned_down(m, v, b.drive, t.comp_env);
}

proof fn lemma_turned_down(m: Sem, v: Bits, drive: Bits, env: Bits)
    requires
        m.rounds(),
        held(v, 300real),
        part(drive),
        held(env, 42real / 10real),
        num(env) >= -1real / 100000real,
    ensures
        ({
            let over = m.mul(v, m.add(F1, m.mul(drive, F7)));
            let under = m.add(F1, m.mul(m.mul(env, drive), F11));
            comp_is(
                m,
                m.tanh(m.mul(m.div(over, under), F0_6)),
                num(v),
                num(drive),
                num(env),
            )
        }),
{
    reals::lemma_num(F0, F1);
    numbers::law_numbers_part();
    numbers::law_numbers_whole();
    laws::wet::lemma_part(drive);
    let d = num(drive);
    reals::lemma_near_mul(m, drive, F7, d, 7real, 0real, 0real, 1real, 7real);
    reals::lemma_near_add(
        m,
        F1,
        m.mul(drive, F7),
        1real,
        d * 7real,
        0real,
        14real / 8388608real,
        81real / 10real,
    );
    let up = m.add(F1, m.mul(drive, F7));
    reals::lemma_near_mul(
        m,
        v,
        up,
        num(v),
        1real + d * 7real,
        0real,
        31real / 8388608real,
        300real,
        81real / 10real,
    );
    let over = m.mul(v, up);
    let a = num(v) * (1real + d * 7real);
    let g = num(env);
    reals::lemma_near_mul(m, env, drive, g, d, 0real, 0real, 43real / 10real, 1real);
    let level = g * d;
    assert(-1real / 100000real <= level <= 43real / 10real) by (nonlinear_arith)
        requires
            level == g * d,
            -1real / 100000real <= g <= 43real / 10real,
            0real <= d <= 1real,
    ;
    reals::lemma_near_mul(
        m,
        m.mul(env, drive),
        F11,
        level,
        11real,
        9real / 8388608real,
        0real,
        44real / 10real,
        11real,
    );
    let f = 200real / 8388608real;
    reals::lemma_near_add(
        m,
        F1,
        m.mul(m.mul(env, drive), F11),
        1real,
        level * 11real,
        0real,
        f,
        50real,
    );
    let under = m.add(F1, m.mul(m.mul(env, drive), F11));
    let b = 1real + level * 11real;
    let e = 15000real / 8388608real;
    assert(near(over, a, e));
    assert(size(a) <= 2430real);
    assert(num(under) >= 99real / 100real);
    assert(size(num(over)) <= 2500real * num(under));
    lemma_quotient(m, over, under, a, b, e, 300real / 8388608real, 2500real, 50real);
    let q = m.div(over, under);
    let z = num(q);
    let six = 6real / 10real;
    reals::lemma_near_mul(
        m,
        q,
        F0_6,
        z,
        six,
        0real,
        six / 10000000real,
        5000real,
        61real / 100real,
    );
    let w = m.mul(q, F0_6);
    let c = num(w);
    reals::lemma_bounded(c - z * six, b, 2real / 1000real, 50real);
    assert(c * b - (z * b) * six == (c - z * six) * b) by (nonlinear_arith);
    assert(word::finite(w) && dist(c * b, a * six) <= 1real / 4real);
}

// ---------------------------------------------------------------------------
// Slew, steps and howl
// ---------------------------------------------------------------------------

/// Which curve is heard: the one whose number lies nearest to the setting.
pub proof fn law_curve_by_setting(m: Sem, q: [Bits; 63], sr: Bits)
    requires
        m.rounds(),
        !word::is_nan(q[59]),
    ensures
        ({
            let c = distortion::block_of(m, q, sr).curve;
            let x = num(params::mapped(m, 59, q[59]));
            &&& x < 1real / 2real ==> c is Clip
            &&& 1real / 2real < x < 3real / 2real ==> c is Push
            &&& 3real / 2real < x < 5real / 2real ==> c is Slew
            &&& 5real / 2real < x < 7real / 2real ==> c is Comp
            &&& 7real / 2real < x < 9real / 2real ==> c is Crush
            &&& 9real / 2real < x ==> c is Scream
        }),
{
    reals::lemma_num(F0, F1);
    numbers::law_ranges();
    numbers::law_numbers_whole();
    laws::settings::law_proportion(m, 59, q[59]);
    let x = params::mapped(m, 59, q[59]);
    reals::lemma_within(F0, x, RANGES[59].1);
    laws::sweeps::lemma_round(x);
    let k = word::trunc_of(word::round_of(x));
    let c = distortion::block_of(m, q, sr).curve;
    assert(0 <= k <= 6);
    assert(c == distortion::curve_of(k as u32));
}

/// The slew limit is 0.45, turned down by 15 at full drive; the crusher has 2 to
/// the power of 12 less 10 times the drive steps.
pub proof fn law_slew_and_steps(m: Sem, q: [Bits; 63], sr: Bits)
    requires
        m.rounds(),
        !word::is_nan(q[58]),
    ensures
        ({
            let b = distortion::block_of(m, q, sr);
            let d = unit(num(q[58]));
            &&& word::finite(b.slew)
            &&& dist(num(b.slew) * (1real + 14real * d), 9real / 20real) <= 1real / 100000real
            &&& exists|y: Bits|
                near(y, 12real - 10real * d, 1real / 100000real) && b.crush_q == #[trigger] m.pow(
                    F2,
                    y,
                )
        }),
{
    reals::lemma_num(F0, F1);
    numbers::law_ranges();
    numbers::law_numbers_part();
    numbers::law_numbers_whole();
    laws::frames::law_unit_setting(m, 58, q[58]);
    let b = distortion::block_of(m, q, sr);
    laws::wet::lemma_part(b.drive);
    let d = num(b.drive);
    reals::lemma_near_mul(m, b.drive, F14, d, 14real, 0real, 0real, 1real, 14real);
    let e = 28real / 8388608real;
    reals::lemma_near_add(m, F1, m.mul(b.drive, F14), 1real, d * 14real, 0real, e, 16real);
    let under = m.add(F1, m.mul(b.drive, F14));
    let c = 9real / 20real;
    lemma_quotient(
        m,
        F0_45,
        under,
        c,
        1real + d * 14real,
        c / 10000000real,
        60real / 8388608real,
        46real / 100real,
        16real,
    );
    reals::lemma_near_mul(m, b.drive, F10, d, 10real, 0real, 0real, 1real, 10real);
    reals::lemma_near_sub(
        m,
        F12,
        m.mul(b.drive, F10),
        12real,
        d * 10real,
        0real,
        20real / 8388608real,
        13real,
    );
    let y = m.sub(F12, m.mul(b.drive, F10));
    assert(b.crush_q == m.pow(F2, y));
}

/// Rounding to a whole number, on both sides of zero.
proof fn lemma_rounded(x: Bits)
    requires
        held(x, 8000real),
    ensures
        ({
            let k = word::trunc_of(word::round_of(x));
            &&& word::finite(word::round_of(x))
            &&& num(word::round_of(x)) == k as real
            &&& dist(k as real, num(x)) <= 1real / 2real
        }),
{
    vstd::arithmetic::power2::lemma2_to64();
    rounding::lemma_one();
    laws::adsr::lemma_abs(x);
    let y = word::abs_of(x);
    reals::lemma_num(F0, F1);
    reals::lemma_num(F0, y);
    rounding::lemma_rank_is_value(F0, y);
    let one = word::one() as int;
    let u = word::units(x) as int;
    assert(word::units(y) == u);
    let k = (2 * u + one) / (2 * one);
    lemma_fundamental_div_mod(2 * u + one, 2 * one);
    lemma_mod_bound(2 * u + one, 2 * one);
    reals::lemma_product(2 * one, k);
    reals::lemma_const(0x4600_0000);
    assert(num(0x4600_0000) == 8388608real / 1024real);
    reals::lemma_num(y, 0x4600_0000);
    assert(word::has_fraction_bits(x));
    let o = one as real;
    let r = k as real;
    let w = u as real;
    assert(num(y) == w / o) by {
        if word::negative(y) {
            assert(u == 0);
        }
    }
    assert(-1real / 2real <= r - w / o <= 1real / 2real) by (nonlinear_arith)
        requires
            2real * o * r <= 2real * w + o,
            2real * w + o < 2real * o * r + 2real * o,
            o > 0real,
    ;
    assert(-1real <= r <= 8001real);
    assert(k >= 0) by (nonlinear_arith)
        requires
            k == (2 * u + one) / (2 * one),
            u >= 0,
            one > 0,
    ;
    reals::lemma_integer(k);
    let c = word::from_nat(k as nat);
    laws::motion::lemma_negated(c);
    let f = word::round_of(x);
    if word::negative(x) {
        reals::lemma_integer(-k);
        assert(num(x) == -(w / o)) by {
            let v = word::value(x) as real;
            assert(v == -w);
            assert((-w) / o == -(w / o)) by (nonlinear_arith)
                requires
                    o > 0real,
            ;
        }
        laws::echo::lemma_trunc_whole(f, -k);
    } else {
        assert(num(x) == w / o);
        laws::echo::lemma_trunc_whole(f, k);
    }
}

/// In `steps` steps to one, `k` is the whole number of them nearest to `x`, and
/// `y` is as many.
pub open spec fn steps_to(k: int, x: real, y: real, steps: real) -> bool {
    &&& dist(k as real, x * steps) <= 1real / 2real + 1real / 500real
    &&& dist(y * steps, k as real) <= 1real / 100real
}

/// What the crusher gives is a whole number of steps: the one nearest to the
/// value that it holds.
pub proof fn law_crush_steps(m: Sem, b: DistortionBlock, s: Distortion, x: Bits, v: Bits)
    requires
        m.rounds(),
        b.curve is Crush,
        held(b.crush_q, 5000real),
        num(b.crush_q) >= 1real,
        held(distortion::curved(m, b, s, x, v).0.crush_hold, 1real),
    ensures
        ({
            let (t, y) = distortion::curved(m, b, s, x, v);
            let steps = num(b.crush_q);
            exists|k: int| steps_to(k, num(t.crush_hold), num(y), steps)
        }),
{
    let (t, y) = distortion::curved(m, b, s, x, v);
    let g = num(b.crush_q);
    let h = num(t.crush_hold);
    reals::lemma_near_mul(m, t.crush_hold, b.crush_q, h, g, 0real, 0real, 1real, 5000real);
    let p = m.mul(t.crush_hold, b.crush_q);
    lemma_rounded(p);
    let f = word::round_of(p);
    let k = word::trunc_of(f);
    let z = h * g;
    assert(-g <= z <= g) by (nonlinear_arith)
        requires
            z == h * g,
            -1real <= h <= 1real,
            g >= 1real,
    ;
    assert(size(num(f)) <= 2real * g);
    lemma_quotient(m, f, b.crush_q, k as real, g, 0real, 0real, 2real, 5000real);
    assert(steps_to(k, h, num(y), g));
}

/// The howl's filter: a band of what comes out less what is low and 0.18 of the
/// band, and a low that follows the band, each by the filter's coefficient.
pub open spec fn resounds(b: DistortionBlock, s: Distortion, t: Distortion, y: Bits) -> bool {
    exists|z: Bits|
        {
            let p = num(s.scr_bp);
            let high = #[trigger] num(z) - num(s.scr_lp) - p * (9real / 50real);
            let band = p + num(b.scr_f) * high;
            let most = 1real / 100real;
            &&& near(y, num(z) * (92real / 100real), 1real / 1000000real)
            &&& band > 3real + most ==> num(t.scr_bp) == 3real
            &&& band < -3real - most ==> num(t.scr_bp) == -3real
            &&& -3real <= band <= 3real ==> near(t.scr_bp, band, most)
            &&& near(t.scr_lp, num(s.scr_lp) + num(b.scr_f) * num(t.scr_bp), most)
        }
}

/// The howl resounds in its filter.
pub proof fn law_howl_resounds(m: Sem, b: DistortionBlock, s: Distortion, x: Bits, v: Bits)
    requires
        m.rounds(),
        b.curve is Scream,
        held(s.scr_bp, 3real),
        tame(s.scr_lp),
        part(b.scr_f),
        forall|z: Bits| held(#[trigger] m.tanh(z), 1real),
    ensures
        resounds(
            b,
            s,
            distortion::curved(m, b, s, x, v).0,
            distortion::curved(m, b, s, x, v).1,
        ),
{
    reals::lemma_num(F0, F1);
    numbers::law_numbers_part();
    numbers::law_numbers_small();
    numbers::law_numbers_whole();
    laws::motion::lemma_negated(F3);
    laws::wet::lemma_part(b.scr_f);
    let (t, y) = distortion::curved(m, b, s, x, v);
    let swell = m.add(F1, m.mul(s.scr_env, F0_5));
    let z = m.tanh(m.add(v, m.mul(m.mul(s.scr_bp, b.scr_fb), swell)));
    assert(held(z, 1real));
    let c = 92real / 100real;
    reals::lemma_near_mul(m, z, F0_92, num(z), c, 0real, c / 10000000real, 1real, 1real);
    let p = num(s.scr_bp);
    let l = num(s.scr_lp);
    let u = num(z);
    reals::lemma_near_sub(m, z, s.scr_lp, u, l, 0real, 0real, 1001real);
    let k = 9real / 50real;
    reals::lemma_near_mul(m, F0_18, s.scr_bp, k, p, k / 10000000real, 0real, 1real, 3real);
    assert(k * p == p * k);
    reals::lemma_near_sub(
        m,
        m.sub(z, s.scr_lp),
        m.mul(F0_18, s.scr_bp),
        u - l,
        p * k,
        2002real / 8388608real,
        7real / 8388608real,
        1002real,
    );
    let hp = m.sub(m.sub(z, s.scr_lp), m.mul(F0_18, s.scr_bp));
    let high = u - l - p * k;
    let f = num(b.scr_f);
    let e = 4013real / 8388608real;
    reals::lemma_near_mul(m, b.scr_f, hp, f, high, 0real, e, 1real, 1003real);
    let g = 6020real / 8388608real;
    reals::lemma_near_add(m, s.scr_bp, m.mul(b.scr_f, hp), p, f * high, 0real, g, 1007real);
    let raw = m.add(s.scr_bp, m.mul(b.scr_f, hp));
    reals::lemma_num(raw, word::neg_of(F3));
    reals::lemma_num(F3, raw);
    let bp = t.scr_bp;
    let n = num(bp);
    assert(-3real <= n <= 3real && word::finite(bp));
    reals::lemma_near_mul(m, b.scr_f, bp, f, n, 0real, 0real, 1real, 3real);
    reals::lemma_near_add(
        m,
        s.scr_lp,
        m.mul(b.scr_f, bp),
        l,
        f * n,
        0real,
        6real / 8388608real,
        1004real,
    );
}

} // verus!
