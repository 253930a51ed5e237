//! What the analog and the hybrid section make of a sample, in numbers.

use crate::alu::Sem;
use crate::consts::{
    F0, F0_012, F0_26, F0_35, F0_5, F0_55, F0_72, F1, TAU,
};
use crate::fx;
use crate::fx::analog;
use crate::fx::analog::{AnalogBlock, Chorus, Phaser};
use crate::fx::hybrid;
use crate::fx::hybrid::{Diffuser, HybridBlock, Line, Reverb};
use crate::fx::ring;
use crate::fx::{Fx, RackBlock};
use crate::laws;
use crate::laws::echo::held;
use crate::laws::frames::unit;
use crate::laws::numbers;
use crate::params;
use crate::params::RANGES;
use crate::rounding::reals;
use crate::rounding::reals::{dist, near, num, size};
use crate::word;
use crate::word::Bits;
use vstd::prelude::*;

verus! {

/// A sample that the laws on the rack speak of, 1000 at most in size.
pub open spec fn tame(x: Bits) -> bool {
    held(x, 1000real)
}

/// A part, in 0 ..= 1.
pub open spec fn part(x: Bits) -> bool {
    word::between(F0, x, F1)
}

pub proof fn lemma_part(x: Bits)
    requires
        part(x),
    ensures
        word::finite(x),
        0real <= num(x) <= 1real,
        near(x, num(x), 0real),
{
    reals::lemma_num(F0, F1);
    reals::lemma_within(F0, x, F1);
}

// ---------------------------------------------------------------------------
// Hybrid
// ---------------------------------------------------------------------------

/// Echo and reverb are added to the sample, each at its mix; without reverb
/// there is nothing of it, and it stands still.
pub proof fn law_hybrid_mix(m: Sem, b: RackBlock, s: Fx, x: Bits)
    requires
        m.rounds(),
        tame(x),
        part(b.hybrid.delay_mix),
        part(b.hybrid.reverb_mix),
        tame(hybrid::delayed(m, b.hybrid, s.delay, x).1),
        ({
            let echo = hybrid::delayed(m, b.hybrid, s.delay, x).1;
            tame(hybrid::reverberated(m, b.hybrid, s.reverb, x, echo).1)
        }),
    ensures
        ({
            let (t, y) = fx::hybrid_step(m, b, s, x);
            let echo = hybrid::delayed(m, b.hybrid, s.delay, x).1;
            let wet = if b.gates.reverb {
                num(hybrid::reverberated(m, b.hybrid, s.reverb, x, echo).1)
            } else {
                0real
            };
            &&& near(
                y,
                num(x) + num(echo) * num(b.hybrid.delay_mix) + wet * num(b.hybrid.reverb_mix),
                1real / 200real,
            )
            &&& !b.gates.reverb ==> t.reverb == s.reverb
            &&& t.dist == s.dist && t.phaser == s.phaser && t.chorus == s.chorus
            &&& t.trem_ph == s.trem_ph && t.drift == s.drift && t.rng == s.rng
        }),
{
    reals::lemma_num(F0, F1);
    let (delay, echo) = hybrid::delayed(m, b.hybrid, s.delay, x);
    let wet = if b.gates.reverb {
        hybrid::reverberated(m, b.hybrid, s.reverb, x, echo).1
    } else {
        F0
    };
    let dm = b.hybrid.delay_mix;
    let rm = b.hybrid.reverb_mix;
    lemma_part(dm);
    lemma_part(rm);
    reals::lemma_near_mul(m, echo, dm, num(echo), num(dm), 0real, 0real, 1000real, 1real);
    reals::lemma_near_mul(m, wet, rm, num(wet), num(rm), 0real, 0real, 1000real, 1real);
    let e = 2000real / 8388608real;
    let a = num(echo) * num(dm);
    let c = num(wet) * num(rm);
    reals::lemma_near_add(m, x, m.mul(echo, dm), num(x), a, 0real, e, 2001real);
    let sum = m.add(x, m.mul(echo, dm));
    reals::lemma_near_add(
        m,
        sum,
        m.mul(wet, rm),
        num(x) + a,
        c,
        e + 4002real / 8388608real,
        e,
        3002real,
    );
}

/// What goes into the reverb is 0.55 of the sample and of what bleeds in of the
/// echo; what comes out is 0.35 of the four lines together; and each line is
/// fed what the diffusers leave and its scatter of the four, halved, at the
/// gain.
pub proof fn law_reverb_in_numbers(m: Sem, b: HybridBlock, s: Reverb, x: Bits, echo: Bits)
    requires
        m.rounds(),
        tame(x),
        tame(echo),
        part(b.bleed),
        part(b.reverb_gain),
        ({
            let into = m.mul(m.add(x, m.mul(echo, b.bleed)), F0_55);
            let d1 = hybrid::diffused(m, s.ap1, b.span1, into).1;
            &&& tame(hybrid::diffused(m, s.ap2, b.span2, d1).1)
            &&& tame(hybrid::heard(m, s.l0).lp)
            &&& tame(hybrid::heard(m, s.l1).lp)
            &&& tame(hybrid::heard(m, s.l2).lp)
            &&& tame(hybrid::heard(m, s.l3).lp)
        }),
    ensures
        ({
            let (t, wet) = hybrid::reverberated(m, b, s, x, echo);
            let into = m.mul(m.add(x, m.mul(echo, b.bleed)), F0_55);
            let d1 = hybrid::diffused(m, s.ap1, b.span1, into).1;
            let d = num(hybrid::diffused(m, s.ap2, b.span2, d1).1);
            let g = num(b.reverb_gain);
            let h0 = hybrid::heard(m, s.l0);
            let h1 = hybrid::heard(m, s.l1);
            let h2 = hybrid::heard(m, s.l2);
            let h3 = hybrid::heard(m, s.l3);
            let (p, q, r, u) = (num(h0.lp), num(h1.lp), num(h2.lp), num(h3.lp));
            let most = 1real / 100real;
            &&& near(into, (num(x) + num(echo) * num(b.bleed)) * (55real / 100real), most)
            &&& near(wet, (p + q + r + u) * (35real / 100real), most)
            &&& near(t.l0.ring[h0.i as int], d + g * ((p + q + r + u) / 2real), most)
            &&& near(t.l1.ring[h1.i as int], d + g * ((p - q + r - u) / 2real), most)
            &&& near(t.l2.ring[h2.i as int], d + g * ((p + q - r - u) / 2real), most)
            &&& near(t.l3.ring[h3.i as int], d + g * ((p - q - r + u) / 2real), most)
        }),
{
    reals::lemma_num(F0, F1);
    numbers::law_numbers_part();
    lemma_part(b.bleed);
    lemma_part(b.reverb_gain);
    let into = m.mul(m.add(x, m.mul(echo, b.bleed)), F0_55);
    reals::lemma_near_mul(m, echo, b.bleed, num(echo), num(b.bleed), 0real, 0real, 1000real, 1real);
    let e = 2000real / 8388608real;
    let c = num(echo) * num(b.bleed);
    reals::lemma_near_add(m, x, m.mul(echo, b.bleed), num(x), c, 0real, e, 2001real);
    reals::lemma_near_mul(
        m,
        m.add(x, m.mul(echo, b.bleed)),
        F0_55,
        num(x) + c,
        55real / 100real,
        6002real / 8388608real,
        1real / 10000000real,
        2001real,
        1real,
    );
    let d1 = hybrid::diffused(m, s.ap1, b.span1, into).1;
    let d = hybrid::diffused(m, s.ap2, b.span2, d1).1;
    let h0 = hybrid::heard(m, s.l0);
    let h1 = hybrid::heard(m, s.l1);
    let h2 = hybrid::heard(m, s.l2);
    let h3 = hybrid::heard(m, s.l3);
    lemma_four(m, h0.lp, h1.lp, h2.lp, h3.lp);
    let (m0, m1, m2, m3) = hybrid::scattered(m, h0.lp, h1.lp, h2.lp, h3.lp);
    let (p, q, r, u) = (num(h0.lp), num(h1.lp), num(h2.lp), num(h3.lp));
    let g = b.reverb_gain;
    lemma_fed(m, d, g, m0, (p + q + r + u) / 2real);
    lemma_fed(m, d, g, m1, (p - q + r - u) / 2real);
    lemma_fed(m, d, g, m2, (p + q - r - u) / 2real);
    lemma_fed(m, d, g, m3, (p - q - r + u) / 2real);
    let sum = m.add(m.add(m.add(h0.lp, h1.lp), h2.lp), h3.lp);
    reals::lemma_near_mul(
        m,
        sum,
        F0_35,
        p + q + r + u,
        35real / 100real,
        20000real / 8388608real,
        1real / 20000000real,
        4001real,
        1real,
    );
}

proof fn lemma_fed(m: Sem, d: Bits, g: Bits, y: Bits, exact: real)
    requires
        m.rounds(),
        tame(d),
        part(g),
        near(y, exact, 22000real / 8388608real),
        size(exact) <= 2000real,
    ensures
        near(m.add(d, m.mul(g, y)), num(d) + num(g) * exact, 1real / 100real),
{
    lemma_part(g);
    reals::lemma_near_mul(
        m,
        g,
        y,
        num(g),
        exact,
        0real,
        22000real / 8388608real,
        1real,
        2001real,
    );
    reals::lemma_near_add(
        m,
        d,
        m.mul(g, y),
        num(d),
        num(g) * exact,
        0real,
        26002real / 8388608real,
        3003real,
    );
}

/// The sums and differences of four values.
proof fn lemma_four(m: Sem, a: Bits, b: Bits, c: Bits, d: Bits)
    requires
        m.rounds(),
        tame(a),
        tame(b),
        tame(c),
        tame(d),
    ensures
        ({
            let (p, q, r, u) = (num(a), num(b), num(c), num(d));
            let (m0, m1, m2, m3) = hybrid::scattered(m, a, b, c, d);
            let e = 22000real / 8388608real;
            &&& near(m.add(m.add(m.add(a, b), c), d), p + q + r + u, 20000real / 8388608real)
            &&& near(m0, (p + q + r + u) / 2real, e)
            &&& near(m1, (p - q + r - u) / 2real, e)
            &&& near(m2, (p + q - r - u) / 2real, e)
            &&& near(m3, (p - q - r + u) / 2real, e)
        }),
{
    let (p, q, r, u) = (num(a), num(b), num(c), num(d));
    let e1 = 4000real / 8388608real;
    let e2 = 10002real / 8388608real;
    reals::lemma_near_add(m, a, b, p, q, 0real, 0real, 2000real);
    reals::lemma_near_sub(m, a, b, p, q, 0real, 0real, 2000real);
    let s = m.add(a, b);
    let f = m.sub(a, b);
    reals::lemma_near_add(m, s, c, p + q, r, e1, 0real, 3001real);
    reals::lemma_near_sub(m, s, c, p + q, r, e1, 0real, 3001real);
    reals::lemma_near_add(m, f, c, p - q, r, e1, 0real, 3001real);
    reals::lemma_near_sub(m, f, c, p - q, r, e1, 0real, 3001real);
    reals::lemma_near_add(m, m.add(s, c), d, p + q + r, u, e2, 0real, 4001real);
    reals::lemma_near_sub(m, m.add(f, c), d, p - q + r, u, e2, 0real, 4001real);
    reals::lemma_near_sub(m, m.sub(s, c), d, p + q - r, u, e2, 0real, 4001real);
    reals::lemma_near_add(m, m.sub(f, c), d, p - q - r, u, e2, 0real, 4001real);
    lemma_half(m, m.add(m.add(s, c), d), p + q + r + u);
    lemma_half(m, m.sub(m.add(f, c), d), p - q + r - u);
    lemma_half(m, m.sub(m.sub(s, c), d), p + q - r - u);
    lemma_half(m, m.add(m.sub(f, c), d), p - q - r + u);
}

proof fn lemma_half(m: Sem, x: Bits, exact: real)
    requires
        m.rounds(),
        near(x, exact, 20000real / 8388608real),
        size(exact) <= 4000real,
    ensures
        near(m.mul(x, F0_5), exact / 2real, 22000real / 8388608real),
{
    numbers::law_numbers_part();
    reals::lemma_near_mul(
        m,
        x,
        F0_5,
        exact,
        1real / 2real,
        20000real / 8388608real,
        0real,
        4001real,
        1real / 2real,
    );
    assert(exact * (1real / 2real) == exact / 2real);
}

/// A diffuser gives back what it holds less half of what it takes in, which is
/// the sample and half of what it holds.
pub proof fn law_diffuser_in_numbers<const N: usize>(m: Sem, s: Diffuser<N>, span: usize, d: Bits)
    requires
        m.rounds(),
        s.wf(),
        tame(d),
        tame(s.ring[s.i as int]),
    ensures
        ({
            let (t, y) = hybrid::diffused(m, s, span, d);
            let held = num(s.ring[s.i as int]);
            let taken = num(d) + held / 2real;
            &&& near(t.ring[s.i as int], taken, 1real / 500real)
            &&& near(y, held - taken / 2real, 1real / 250real)
            &&& forall|c: int| 0 <= c < N && c != s.i ==> #[trigger] t.ring[c] == s.ring[c]
            &&& t.i == if s.i + 1 < span {
                s.i + 1
            } else {
                0
            }
        }),
{
    numbers::law_numbers_part();
    let r = s.ring[s.i as int];
    let h = num(r);
    let half = 1real / 2real;
    reals::lemma_near_mul(m, F0_5, r, half, h, 0real, 0real, half, 1000real);
    assert(half * h == h / 2real);
    let e1 = 1000real / 8388608real;
    reals::lemma_near_add(m, d, m.mul(F0_5, r), num(d), h / 2real, 0real, e1, 1501real);
    let t = m.add(d, m.mul(F0_5, r));
    let e2 = 4002real / 8388608real;
    let taken = num(d) + h / 2real;
    reals::lemma_near_mul(m, F0_5, t, half, taken, 0real, e2, half, 1501real);
    assert(half * taken == taken / 2real);
    let e3 = 4000real / 8388608real;
    reals::lemma_near_sub(m, r, m.mul(F0_5, t), h, taken / 2real, 0real, e3, 1751real);
}

/// A line is read at its place, which starts over at the end of what is in use,
/// and goes 0.35 of the way to what it reads there.
pub proof fn law_line_in_numbers(m: Sem, s: Line)
    requires
        m.rounds(),
        tame(s.lp),
        forall|c: int| 0 <= c < 16384 ==> tame(#[trigger] s.ring[c]),
        word::between(F0, s.len, 0x467f_f000),
    ensures
        ({
            let t = hybrid::heard(m, s);
            let n = word::trunc_of(s.len);
            let use_ = if n < 32 {
                32
            } else {
                n
            };
            let i = if s.i >= use_ {
                0
            } else {
                s.i as int
            };
            &&& t.i == i
            &&& (n as real) <= num(s.len) < (n as real) + 1real
            &&& t.ring == s.ring && t.len == s.len
            &&& near(
                t.lp,
                num(s.lp) + (num(s.ring[i]) - num(s.lp)) * (35real / 100real),
                1real / 500real,
            )
        }),
{
    reals::lemma_tiny();
    reals::lemma_num(F0, F1);
    numbers::law_numbers_part();
    numbers::law_numbers_large();
    reals::lemma_within(F0, s.len, 0x467f_f000);
    reals::lemma_trunc(s.len);
    let t = hybrid::heard(m, s);
    let n = word::trunc_of(s.len);
    assert(0 <= n <= 16380);
    let i = t.i as int;
    assert(0 <= i < 16384);
    let x = s.ring[i];
    assert(tame(x));
    reals::lemma_num(F0_35, F1);
    assert(word::between(F0, F0_35, F1));
    reals::lemma_lerp(m, s.lp, x, F0_35, 1000real);
    let k = num(F0_35);
    let e = num(x) - num(s.lp);
    reals::lemma_bounded(e, k - 35real / 100real, 2000real, 1real / 20000000real);
    assert(e * k - e * (35real / 100real) == e * (k - 35real / 100real)) by (nonlinear_arith);
}

/// The gain of the reverb runs from 0.72 to 0.98.
pub proof fn law_reverb_gain(m: Sem, q: [Bits; 63], sr: Bits)
    requires
        m.rounds(),
        !word::is_nan(q[56]),
    ensures
        near(
            hybrid::block_of(m, q, sr).reverb_gain,
            72real / 100real + unit(num(q[56])) * (26real / 100real),
            1real / 1000000real,
        ),
{
    reals::lemma_num(F0, F1);
    numbers::law_numbers_part();
    numbers::law_numbers_small();
    assert(RANGES[56] == (F0, F1, false));
    laws::frames::law_unit_setting(m, 56, q[56]);
    let x = params::mapped(m, 56, q[56]);
    lemma_part(x);
    reals::lemma_near_mul(
        m,
        x,
        F0_26,
        num(x),
        26real / 100real,
        0real,
        26real / 1000000000real,
        1real,
        1real / 2real,
    );
    reals::lemma_near_add(
        m,
        F0_72,
        m.mul(x, F0_26),
        72real / 100real,
        num(x) * (26real / 100real),
        72real / 1000000000real,
        26real / 1000000000real + 1real / 8388608real,
        1real,
    );
}

// ---------------------------------------------------------------------------
// Analog
// ---------------------------------------------------------------------------

/// A sweep of the section: half a turn of the sine up from one half.
pub proof fn lemma_swing(m: Sem, angle: Bits)
    requires
        m.rounds(),
        m.sines_bounded(),
        word::finite(angle),
    ensures
        near(
            analog::swing_of(m, angle),
            1real / 2real + num(m.sin(angle)) / 2real,
            4real / 8388608real,
        ),
        size(num(m.sin(angle))) <= 1real,
{
    numbers::law_numbers_part();
    assert(word::between(0xbf80_0000, m.sin(angle), F1)) by {
        reveal(Sem::sines_bounded);
    }
    laws::sweeps::lemma_signed_unit(m.sin(angle));
    let s = num(m.sin(angle));
    let half = 1real / 2real;
    reals::lemma_near_mul(m, F0_5, m.sin(angle), half, s, 0real, 0real, half, 1real);
    assert(half * s == s / 2real);
    reals::lemma_near_add(
        m,
        F0_5,
        m.mul(F0_5, m.sin(angle)),
        half,
        s / 2real,
        0real,
        1real / 8388608real,
        1001real / 1000real,
    );
}

/// The tremolo turns the level down by its depth times a half and a half of
/// the sine of its phase.
pub proof fn law_tremolo_in_numbers(m: Sem, b: AnalogBlock, ph: Bits, x: Bits)
    requires
        m.rounds(),
        m.sines_bounded(),
        tame(x),
        part(b.trem_depth),
        part(analog::trembled(m, b, ph, x).0),
    ensures
        ({
            let (after, y) = analog::trembled(m, b, ph, x);
            let swing = 1real / 2real + num(m.sin(m.mul(TAU, after))) / 2real;
            near(y, num(x) * (1real - num(b.trem_depth) * swing), 1real / 250real)
        }),
{
    reals::lemma_num(F0, F1);
    let (after, y) = analog::trembled(m, b, ph, x);
    lemma_part(after);
    lemma_part(b.trem_depth);
    laws::sweeps::law_angle_in_numbers(m, after);
    let angle = m.mul(TAU, after);
    lemma_swing(m, angle);
    let w = analog::swing_of(m, angle);
    let swing = 1real / 2real + num(m.sin(angle)) / 2real;
    let d = num(b.trem_depth);
    let e = 4real / 8388608real;
    reals::lemma_near_mul(m, b.trem_depth, w, d, swing, 0real, e, 1real, 2real);
    reals::lemma_near_sub(
        m,
        F1,
        m.mul(b.trem_depth, w),
        1real,
        d * swing,
        0real,
        8real / 8388608real,
        4real,
    );
    reals::lemma_near_mul(
        m,
        x,
        m.sub(F1, m.mul(b.trem_depth, w)),
        num(x),
        1real - d * swing,
        0real,
        16real / 8388608real,
        1000real,
        31real / 10real,
    );
}

/// The chorus keeps the sample in its ring and mixes it, turned down by half
/// its mix, with half of what two taps read, at its mix.
pub proof fn law_chorus_in_numbers(m: Sem, b: AnalogBlock, s: Chorus, x: Bits, d1: Bits, d2: Bits)
    requires
        m.rounds(),
        s.wf(),
        tame(x),
        part(b.chorus_mix),
        ({
            let (t, _) = analog::chorused(m, b, s, x);
            let angle = m.mul(TAU, t.ph);
            &&& d1 == m.add(b.chorus_base, m.mul(b.chorus_depth, analog::swing_of(m, angle)))
            &&& d2 == m.add(
                m.mul(b.chorus_base, 0x3fa7_ae14),
                m.mul(b.chorus_depth, analog::swing_of(m, m.add(angle, 0x4006_0419))),
            )
            &&& tame(ring::tapped(m, *t.ring, s.w as int, d1))
            &&& tame(ring::tapped(m, *t.ring, s.w as int, d2))
        }),
    ensures
        ({
            let (t, y) = analog::chorused(m, b, s, x);
            let r1 = num(ring::tapped(m, *t.ring, s.w as int, d1));
            let r2 = num(ring::tapped(m, *t.ring, s.w as int, d2));
            let k = num(b.chorus_mix);
            &&& t.ring[s.w as int] == x
            &&& forall|c: int| 0 <= c < 8192 && c != s.w ==> #[trigger] t.ring[c] == s.ring[c]
            &&& t.w == (s.w + 1) % 8192
            &&& near(y, num(x) * (1real - k / 2real) + (r1 + r2) / 2real * k, 1real / 100real)
        }),
{
    reals::lemma_num(F0, F1);
    numbers::law_numbers_part();
    lemma_part(b.chorus_mix);
    let (t, y) = analog::chorused(m, b, s, x);
    let k = num(b.chorus_mix);
    let half = 1real / 2real;
    let t1 = ring::tapped(m, *t.ring, s.w as int, d1);
    let t2 = ring::tapped(m, *t.ring, s.w as int, d2);
    let r1 = num(t1);
    let r2 = num(t2);
    reals::lemma_near_add(m, F0, t1, 0real, r1, 0real, 0real, 1000real);
    let a = m.add(F0, t1);
    reals::lemma_near_add(m, a, t2, r1, r2, 2000real / 8388608real, 0real, 2001real);
    let r = m.add(a, t2);
    let e1 = 6002real / 8388608real;
    reals::lemma_near_mul(m, r, F0_5, r1 + r2, half, e1, 0real, 2001real, half);
    assert((r1 + r2) * half == (r1 + r2) / 2real);
    let h = m.mul(r, F0_5);
    let e2 = 5003real / 8388608real;
    reals::lemma_near_mul(
        m,
        h,
        b.chorus_mix,
        (r1 + r2) / 2real,
        k,
        e2,
        0real,
        1001real,
        1real,
    );
    let wet = m.mul(h, b.chorus_mix);
    reals::lemma_near_mul(m, b.chorus_mix, F0_5, k, half, 0real, 0real, 1real, half);
    assert(k * half == k / 2real);
    reals::lemma_near_sub(
        m,
        F1,
        m.mul(b.chorus_mix, F0_5),
        1real,
        k / 2real,
        0real,
        1real / 8388608real,
        1001real / 1000real,
    );
    let down = m.sub(F1, m.mul(b.chorus_mix, F0_5));
    reals::lemma_near_mul(
        m,
        x,
        down,
        num(x),
        1real - k / 2real,
        0real,
        4real / 8388608real,
        1000real,
        1001real / 1000real,
    );
    let dry = m.mul(x, down);
    reals::lemma_near_add(
        m,
        dry,
        wet,
        num(x) * (1real - k / 2real),
        (r1 + r2) / 2real * k,
        6003real / 8388608real,
        7006real / 8388608real,
        2005real,
    );
}

/// The gain of the analog section wobbles with the drift.
pub proof fn law_wobble_in_numbers(m: Sem, b: RackBlock, s: Fx, x: Bits)
    requires
        m.rounds(),
        tame(x),
        held(b.analog.drift, 1real),
        !b.gates.phaser,
        !b.gates.chorus,
        !b.gates.trem,
    ensures
        near(
            fx::analog_step(m, b, s, x).1,
            num(x) * (1real + num(b.analog.drift) * (12real / 1000real)),
            1real / 1000real,
        ),
{
    reals::lemma_num(F0, F1);
    numbers::law_numbers_small();
    let d = num(b.analog.drift);
    let c = 12real / 1000real;
    reals::lemma_near_mul(
        m,
        b.analog.drift,
        F0_012,
        d,
        c,
        0real,
        12real / 10000000000real,
        1real,
        1real / 50real,
    );
    reals::lemma_near_add(
        m,
        F1,
        m.mul(b.analog.drift, F0_012),
        1real,
        d * c,
        0real,
        1real / 8388608real,
        2real,
    );
    reals::lemma_near_mul(
        m,
        x,
        m.add(F1, m.mul(b.analog.drift, F0_012)),
        num(x),
        1real + d * c,
        0real,
        5real / 8388608real,
        1000real,
        41real / 40real,
    );
}

/// A stage of the phaser: the coefficient times the way from its last output to
/// its input, and its last input.
pub proof fn law_phaser_stage(m: Sem, a: Bits, s: Phaser, t: Bits, k: nat)
    requires
        m.rounds(),
        1 <= k <= 6,
        held(a, 1real),
        tame(analog::staged(m, a, s, t, (k - 1) as nat).1),
        tame(s.ap_x[k - 1]),
        tame(s.ap_y[k - 1]),
    ensures
        ({
            let (before, x) = analog::staged(m, a, s, t, (k - 1) as nat);
            let (after, y) = analog::staged(m, a, s, t, k);
            &&& near(y, num(a) * (num(x) - num(s.ap_y[k - 1])) + num(s.ap_x[k - 1]), 1real / 500real)
            &&& after.ap_x[k - 1] == x
            &&& after.ap_y[k - 1] == y
        }),
{
    lemma_later_stage(m, a, s, t, (k - 1) as nat, k - 1);
    let (before, x) = analog::staged(m, a, s, t, (k - 1) as nat);
    let p = s.ap_y[k - 1];
    let q = s.ap_x[k - 1];
    assert(before.ap_y[k - 1] == p && before.ap_x[k - 1] == q);
    reals::lemma_near_sub(m, x, p, num(x), num(p), 0real, 0real, 2000real);
    let d = m.sub(x, p);
    reals::lemma_near_mul(
        m,
        a,
        d,
        num(a),
        num(x) - num(p),
        0real,
        4000real / 8388608real,
        1real,
        2001real,
    );
    reals::lemma_near_add(
        m,
        m.mul(a, d),
        q,
        num(a) * (num(x) - num(p)),
        num(q),
        8002real / 8388608real,
        0real,
        3002real,
    );
}

/// Stages that have not had their turn are as they were.
proof fn lemma_later_stage(m: Sem, a: Bits, s: Phaser, t: Bits, k: nat, i: int)
    requires
        k <= i < 6,
    ensures
        analog::staged(m, a, s, t, k).0.ap_x[i] == s.ap_x[i],
        analog::staged(m, a, s, t, k).0.ap_y[i] == s.ap_y[i],
    decreases k,
{
    if k > 0 {
        lemma_later_stage(m, a, s, t, (k - 1) as nat, i);
    }
}

} // verus!
