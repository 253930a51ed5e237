//! What the distortion makes of a sample, in numbers.

use crate::alu::Sem;
use crate::consts::{
    F0, F0_004, F0_5, F0_55, F0_6, F0_6667, F0_9, F0_92, F0_995, F1, F1_35, F1_45, F1_5, F23,
    F3, F59,
};
use crate::fx::distortion;
use crate::fx::distortion::{Distortion, DistortionBlock};
use crate::laws;
use crate::laws::echo::held;
use crate::laws::frames::unit;
use crate::laws::numbers;
use crate::laws::wet::{part, tame};
use crate::params::RANGES;
use crate::rounding::reals;
use crate::rounding::reals::{near, num, size};
use crate::word;
use crate::word::Bits;
use vstd::prelude::*;

verus! {

/// What goes into the curve is the sample at the gain, and the offset.
pub open spec fn driven(m: Sem, b: DistortionBlock, x: Bits) -> Bits {
    m.add(m.mul(x, b.gain), b.offset)
}

/// Drive and bias: the gain runs from 1 to 60 with the square of the drive, the
/// offset from -0.3 to 0.3, the howl's feedback up to 1.35, and the crusher holds
/// from 1 to 24 samples.
pub proof fn law_drive_and_bias(m: Sem, q: [Bits; 63], sr: Bits)
    requires
        m.rounds(),
        !word::is_nan(q[58]),
        !word::is_nan(q[60]),
        !word::is_nan(q[61]),
        !word::is_nan(q[62]),
    ensures
        ({
            let b = distortion::block_of(m, q, sr);
            let d = unit(num(q[58]));
            let bias = unit(num(q[61]));
            &&& num(b.mix) == unit(num(q[62]))
            &&& num(b.drive) == d
            &&& num(b.tone) == unit(num(q[60]))
            &&& num(b.bias) == bias
            &&& near(b.gain, 1real + 59real * (d * d), 1real / 20000real)
            &&& near(b.offset, (bias - 1real / 2real) * (6real / 10real), 1real / 1000000real)
            &&& near(b.scr_fb, d * (135real / 100real), 1real / 1000000real)
            &&& d * 23real - 1real / 1000real <= b.crush_n as real <= d * 23real + 1001real
                / 1000real
        }),
{
    reals::lemma_tiny();
    reals::lemma_num(F0, F1);
    numbers::law_numbers_part();
    numbers::law_numbers_mixed();
    numbers::law_numbers_whole();
    assert(RANGES[58] == (F0, F1, false) && RANGES[60] == (F0, F1, false));
    assert(RANGES[61] == (F0, F1, false) && RANGES[62] == (F0, F1, false));
    laws::frames::law_unit_setting(m, 58, q[58]);
    laws::frames::law_unit_setting(m, 60, q[60]);
    laws::frames::law_unit_setting(m, 61, q[61]);
    laws::frames::law_unit_setting(m, 62, q[62]);
    let b = distortion::block_of(m, q, sr);
    laws::wet::lemma_part(b.drive);
    laws::wet::lemma_part(b.bias);
    let d = num(b.drive);
    let k = num(b.bias);
    reals::lemma_near_mul(m, b.drive, b.drive, d, d, 0real, 0real, 1real, 1real);
    let dd = m.mul(b.drive, b.drive);
    reals::lemma_near_mul(
        m,
        dd,
        F59,
        d * d,
        59real,
        2real / 8388608real,
        0real,
        1001real / 1000real,
        59real,
    );
    assert(d * d * 59real == 59real * (d * d));
    reals::lemma_near_add(
        m,
        F1,
        m.mul(dd, F59),
        1real,
        59real * (d * d),
        0real,
        240real / 8388608real,
        61real,
    );
    let half = 1real / 2real;
    reals::lemma_near_sub(m, b.bias, F0_5, k, half, 0real, 0real, 1real);
    let off = m.sub(b.bias, F0_5);
    reals::lemma_near_mul(
        m,
        off,
        F0_6,
        k - half,
        6real / 10real,
        2real / 8388608real,
        6real / 100000000real,
        1real,
        7real / 10real,
    );
    reals::lemma_near_mul(
        m,
        b.drive,
        F1_35,
        d,
        135real / 100real,
        0real,
        135real / 1000000000real,
        1real,
        14real / 10real,
    );
    reals::lemma_near_mul(m, b.drive, F23, d, 23real, 0real, 0real, 1real, 23real);
    laws::motion::lemma_positive(m, b.drive, F23);
    let h = m.mul(b.drive, F23);
    reals::lemma_trunc(h);
    let t = word::trunc_of(h);
    assert(t as real <= 24real);
    assert(0 <= t <= 24);
    assert(b.crush_n == 1 + t);
}

/// The distortion: the curve's value, tilted by the tone and freed of its
/// constant part, is mixed with the sample.
pub proof fn law_distortion_in_numbers(m: Sem, b: DistortionBlock, s: Distortion, x: Bits)
    requires
        m.rounds(),
        tame(x),
        part(b.mix),
        part(b.tone),
        part(b.tone_k),
        tame(s.tone_lp),
        tame(s.dc_x),
        tame(s.dc_y),
        tame(distortion::curved(m, b, s, x, driven(m, b, x)).1),
    ensures
        ({
            let (t, z) = distortion::distorted(m, b, s, x);
            let y = num(distortion::curved(m, b, s, x, driven(m, b, x)).1);
            let low = num(s.tone_lp) + (y - num(s.tone_lp)) * num(b.tone_k);
            let tone = num(b.tone);
            let tilted = low * (145real / 100real - tone * (9real / 10real)) + (y - low) * (55real
                / 100real + tone * (9real / 10real));
            let wet = tilted - num(s.dc_x) + num(s.dc_y) * (995real / 1000real);
            let most = 1real / 50real;
            &&& near(t.tone_lp, low, most)
            &&& near(t.dc_x, tilted, most)
            &&& near(t.dc_y, wet, most)
            &&& near(z, num(x) * (1real - num(b.mix)) + wet * num(b.mix), 3real / 100real)
        }),
{
    reals::lemma_tiny();
    reals::lemma_num(F0, F1);
    laws::wet::lemma_part(b.mix);
    laws::wet::lemma_part(b.tone);
    laws::wet::lemma_part(b.tone_k);
    let (s1, y) = distortion::curved(m, b, s, x, driven(m, b, x));
    lemma_kept(m, b, s, x);
    reals::lemma_lerp(m, s.tone_lp, y, b.tone_k, 1000real);
    let low = m.chase(s.tone_lp, y, b.tone_k);
    let l = num(s.tone_lp) + (num(y) - num(s.tone_lp)) * num(b.tone_k);
    let c = num(b.tone_k);
    assert(-1000real <= l <= 1000real) by (nonlinear_arith)
        requires
            l == num(s.tone_lp) + (num(y) - num(s.tone_lp)) * c,
            0real <= c <= 1real,
            -1000real <= num(s.tone_lp) <= 1000real,
            -1000real <= num(y) <= 1000real,
    ;
    assert(near(low, l, 6001real / 8388608real));
    lemma_tilted(m, b.tone, low, y, l);
    let tone = num(b.tone);
    let tilt = m.mul(b.tone, F0_9);
    let tilted = m.add(
        m.mul(low, m.sub(F1_45, tilt)),
        m.mul(m.sub(y, low), m.add(F0_55, tilt)),
    );
    let exact = l * (145real / 100real - tone * (9real / 10real)) + (num(y) - l) * (55real / 100real
        + tone * (9real / 10real));
    let e = 80000real / 8388608real;
    assert(near(tilted, exact, e));
    lemma_blocked(m, tilted, s.dc_x, s.dc_y, exact);
    let wet = m.add(m.sub(tilted, s.dc_x), m.mul(F0_995, s.dc_y));
    let w = exact - num(s.dc_x) + num(s.dc_y) * (995real / 1000real);
    lemma_dry_wet(m, x, wet, b.mix, w);
}

/// The curve leaves the tone filter and the block against the constant part
/// alone.
proof fn lemma_kept(m: Sem, b: DistortionBlock, s: Distortion, x: Bits)
    ensures
        ({
            let t = distortion::curved(m, b, s, x, driven(m, b, x)).0;
            t.tone_lp == s.tone_lp && t.dc_x == s.dc_x && t.dc_y == s.dc_y
        }),
{
}

proof fn lemma_tilted(m: Sem, tone: Bits, low: Bits, y: Bits, l: real)
    requires
        m.rounds(),
        part(tone),
        near(low, l, 6001real / 8388608real),
        size(l) <= 1000real,
        tame(y),
    ensures
        ({
            let tilt = m.mul(tone, F0_9);
            let t = num(tone) * (9real / 10real);
            let exact = l * (145real / 100real - t) + (num(y) - l) * (55real / 100real + t);
            &&& near(
                m.add(m.mul(low, m.sub(F1_45, tilt)), m.mul(m.sub(y, low), m.add(F0_55, tilt))),
                exact,
                80000real / 8388608real,
            )
            &&& size(exact) <= 4510real
        }),
{
    numbers::law_numbers_part();
    numbers::law_numbers_mixed();
    laws::wet::lemma_part(tone);
    let k = num(tone);
    let n = 9real / 10real;
    reals::lemma_near_mul(m, tone, F0_9, k, n, 0real, 9real / 100000000real, 1real, 1real);
    let tilt = m.mul(tone, F0_9);
    let t = k * n;
    assert(0real <= t <= n) by (nonlinear_arith)
        requires
            t == k * n,
            0real <= k <= 1real,
            n == 9real / 10real,
    ;
    let e1 = 3real / 8388608real;
    reals::lemma_near_sub(
        m,
        F1_45,
        tilt,
        145real / 100real,
        t,
        2real / 8388608real,
        e1,
        15real / 10real,
    );
    reals::lemma_near_add(
        m,
        F0_55,
        tilt,
        55real / 100real,
        t,
        1real / 8388608real,
        e1,
        15real / 10real,
    );
    let e2 = 8real / 8388608real;
    let e0 = 6001real / 8388608real;
    reals::lemma_near_mul(
        m,
        low,
        m.sub(F1_45, tilt),
        l,
        145real / 100real - t,
        e0,
        e2,
        1001real,
        15real / 10real,
    );
    reals::lemma_near_sub(m, y, low, num(y), l, 0real, e0, 2001real);
    reals::lemma_near_mul(
        m,
        m.sub(y, low),
        m.add(F0_55, tilt),
        num(y) - l,
        55real / 100real + t,
        10003real / 8388608real,
        e2,
        2001real,
        15real / 10real,
    );
    reals::lemma_near_add(
        m,
        m.mul(low, m.sub(F1_45, tilt)),
        m.mul(m.sub(y, low), m.add(F0_55, tilt)),
        l * (145real / 100real - t),
        (num(y) - l) * (55real / 100real + t),
        20014real / 8388608real,
        37018real / 8388608real,
        4504real,
    );
}

proof fn lemma_blocked(m: Sem, tilted: Bits, dc_x: Bits, dc_y: Bits, exact: real)
    requires
        m.rounds(),
        near(tilted, exact, 80000real / 8388608real),
        size(exact) <= 4600real,
        tame(dc_x),
        tame(dc_y),
    ensures
        near(
            m.add(m.sub(tilted, dc_x), m.mul(F0_995, dc_y)),
            exact - num(dc_x) + num(dc_y) * (995real / 1000real),
            120000real / 8388608real,
        ),
{
    numbers::law_numbers_part();
    let e = 80000real / 8388608real;
    reals::lemma_near_sub(m, tilted, dc_x, exact, num(dc_x), e, 0real, 5601real);
    let c = 995real / 1000real;
    reals::lemma_near_mul(
        m,
        F0_995,
        dc_y,
        c,
        num(dc_y),
        1real / 8388608real,
        0real,
        1real,
        1000real,
    );
    assert(c * num(dc_y) == num(dc_y) * c) by (nonlinear_arith);
    reals::lemma_near_add(
        m,
        m.sub(tilted, dc_x),
        m.mul(F0_995, dc_y),
        exact - num(dc_x),
        num(dc_y) * c,
        91202real / 8388608real,
        3000real / 8388608real,
        6602real,
    );
}

proof fn lemma_dry_wet(m: Sem, x: Bits, wet: Bits, mix: Bits, w: real)
    requires
        m.rounds(),
        tame(x),
        part(mix),
        near(wet, w, 120000real / 8388608real),
        size(w) <= 7000real,
    ensures
        near(
            m.add(m.mul(x, m.sub(F1, mix)), m.mul(wet, mix)),
            num(x) * (1real - num(mix)) + w * num(mix),
            3real / 100real,
        ),
{
    reals::lemma_num(F0, F1);
    laws::wet::lemma_part(mix);
    let k = num(mix);
    reals::lemma_near_sub(m, F1, mix, 1real, k, 0real, 0real, 1real);
    reals::lemma_near_mul(
        m,
        x,
        m.sub(F1, mix),
        num(x),
        1real - k,
        0real,
        2real / 8388608real,
        1000real,
        1001real / 1000real,
    );
    reals::lemma_near_mul(
        m,
        wet,
        mix,
        w,
        k,
        120000real / 8388608real,
        0real,
        7001real,
        1real,
    );
    reals::lemma_near_add(
        m,
        m.mul(x, m.sub(F1, mix)),
        m.mul(wet, mix),
        num(x) * (1real - k),
        w * k,
        4003real / 8388608real,
        134003real / 8388608real,
        8010real,
    );
}

// ---------------------------------------------------------------------------
// Curves
// ---------------------------------------------------------------------------

/// The soft clipper: 1.5 times a cubic between the rails, and the rails beyond.
pub proof fn law_clip_curve(m: Sem, b: DistortionBlock, s: Distortion, x: Bits, v: Bits)
    requires
        m.rounds(),
        b.curve is Clip,
        word::finite(v),
    ensures
        ({
            let (t, y) = distortion::curved(m, b, s, x, v);
            let a = num(v);
            &&& t == s
            &&& a > 1real ==> near(y, 1real, 1real / 10000real)
            &&& a < -1real ==> near(y, -1real, 1real / 10000real)
            &&& -1real <= a <= 1real ==> near(
                y,
                (a - a * a * a / 3real) * (3real / 2real),
                1real / 500000real,
            )
        }),
{
    reals::lemma_tiny();
    reals::lemma_num(F0, F1);
    numbers::law_numbers_part();
    numbers::law_numbers_mixed();
    numbers::law_numbers_whole();
    laws::motion::lemma_negated(F1);
    laws::motion::lemma_negated(F0_6667);
    reals::lemma_num(F1, v);
    reals::lemma_num(v, word::neg_of(F1));
    let a = num(v);
    let c = 3real / 2real;
    if a > 1real {
        reals::lemma_near_mul(
            m,
            F0_6667,
            F1_5,
            6667real / 10000real,
            c,
            1real / 10000000real,
            0real,
            1real,
            c,
        );
    } else if a < -1real {
        reals::lemma_near_mul(
            m,
            word::neg_of(F0_6667),
            F1_5,
            -6667real / 10000real,
            c,
            1real / 10000000real,
            0real,
            1real,
            c,
        );
    } else {
        reals::lemma_near_mul(m, v, v, a, a, 0real, 0real, 1real, 1real);
        let v2 = m.mul(v, v);
        let e1 = 2real / 8388608real;
        reals::lemma_near_mul(m, v2, v, a * a, a, e1, 0real, 1001real / 1000real, 1real);
        let v3 = m.mul(v2, v);
        let cube = a * a * a;
        let e2 = 5real / 8388608real;
        reals::lemma_bounded(a, a, 1real, 1real);
        reals::lemma_bounded(a * a, a, 1real, 1real);
        let three = num(F3);
        let n = num(v3);
        assert(n / three == n / 3real);
        reals::lemma_div(m, v3, F3);
        let third = m.div(v3, F3);
        assert(near(third, cube / 3real, 3real / 8388608real));
        reals::lemma_near_sub(
            m,
            v,
            third,
            a,
            cube / 3real,
            0real,
            3real / 8388608real,
            15real / 10real,
        );
        reals::lemma_near_mul(
            m,
            m.sub(v, third),
            F1_5,
            a - cube / 3real,
            c,
            6real / 8388608real,
            0real,
            15real / 10real,
            c,
        );
    }
}

/// The crusher takes a new value when its count runs out, and holds it for as
/// many samples as it is set to; what it gives is that value, in steps.
pub proof fn law_crush_curve(m: Sem, b: DistortionBlock, s: Distortion, x: Bits, v: Bits)
    requires
        b.curve is Crush,
        s.crush_cnt > i32::MIN,
    ensures
        ({
            let (t, y) = distortion::curved(m, b, s, x, v);
            &&& if s.crush_cnt <= 1 {
                t.crush_hold == m.tanh(v) && t.crush_cnt == b.crush_n
            } else {
                t.crush_hold == s.crush_hold && t.crush_cnt == s.crush_cnt - 1
            }
            &&& t == (Distortion { crush_hold: t.crush_hold, crush_cnt: t.crush_cnt, ..s })
        }),
{
}

/// The slew limiter follows its input by its limit at most, and hits its rails
/// at 0.9.
pub proof fn law_slew_curve(m: Sem, b: DistortionBlock, s: Distortion, x: Bits, v: Bits)
    requires
        m.rounds(),
        b.curve is Slew,
        tame(v),
        tame(s.slew_y),
        part(b.slew),
    ensures
        ({
            let (t, y) = distortion::curved(m, b, s, x, v);
            let way = num(v) - num(s.slew_y);
            let most = num(b.slew);
            let step = if way < -most {
                -most
            } else if way > most {
                most
            } else {
                way
            };
            &&& near(t.slew_y, num(s.slew_y) + step, 1real / 1000real)
            &&& t == (Distortion { slew_y: t.slew_y, ..s })
            &&& num(t.slew_y) >= 9real / 10real ==> near(y, 1real, 1real / 100000real)
            &&& num(t.slew_y) <= -9real / 10real ==> near(y, -1real, 1real / 100000real)
            &&& -89real / 100real <= num(t.slew_y) <= 89real / 100real ==> near(
                y,
                num(t.slew_y) / (9real / 10real),
                1real / 100000real,
            )
        }),
{
    reals::lemma_tiny();
    reals::lemma_num(F0, F1);
    numbers::law_numbers_part();
    laws::wet::lemma_part(b.slew);
    laws::motion::lemma_negated(b.slew);
    laws::motion::lemma_negated(F0_9);
    let (t, y) = distortion::curved(m, b, s, x, v);
    reals::lemma_near_sub(m, v, s.slew_y, num(v), num(s.slew_y), 0real, 0real, 2000real);
    let d = m.sub(v, s.slew_y);
    let low = word::neg_of(b.slew);
    reals::lemma_num(d, low);
    reals::lemma_num(b.slew, d);
    let step = word::clamp_of(d, low, b.slew);
    let way = num(v) - num(s.slew_y);
    let most = num(b.slew);
    let exact = if way < -most {
        -most
    } else if way > most {
        most
    } else {
        way
    };
    assert(near(step, exact, 4000real / 8388608real));
    reals::lemma_near_add(
        m,
        s.slew_y,
        step,
        num(s.slew_y),
        exact,
        0real,
        4000real / 8388608real,
        1002real,
    );
    let rail = word::neg_of(F0_9);
    reals::lemma_num(t.slew_y, rail);
    reals::lemma_num(F0_9, t.slew_y);
    let c = word::clamp_of(t.slew_y, rail, F0_9);
    let k = num(F0_9);
    let n = num(c);
    let q = n / k;
    assert(q * k == n && -1real <= q <= 1real) by (nonlinear_arith)
        requires
            q == n / k,
            k > 8real / 10real,
            -k <= n <= k,
    ;
    reals::lemma_div(m, c, F0_9);
    let g = n / (9real / 10real);
    assert(g * (9real / 10real) == n);
    // q and g differ as k and 0.9 do.
    reals::lemma_bounded(q, k - 9real / 10real, 1real, 1real / 10000000real);
    assert((g - q) * (9real / 10real) == q * (k - 9real / 10real)) by (nonlinear_arith)
        requires
            g * (9real / 10real) == n,
            q * k == n,
    ;
}

/// The howl: 0.92 of the clip of the input and the band, fed back, more the
/// louder it has been; the loudness goes 0.004 of its way, and the band stays
/// in -3 ..= 3.
pub open spec fn howls(m: Sem, b: DistortionBlock, s: Distortion, v: Bits, t: Distortion, y: Bits) -> bool {
    exists|z: Bits|
        {
            &&& near(
                z,
                num(v) + num(s.scr_bp) * num(b.scr_fb) * (1real + num(s.scr_env) / 2real),
                1real / 1000real,
            )
            &&& near(y, num(#[trigger] m.tanh(z)) * (92real / 100real), 1real / 1000000real)
            &&& near(
                t.scr_env,
                num(s.scr_env) + (size(num(m.tanh(z))) - num(s.scr_env)) * (4real / 1000real),
                1real / 100000real,
            )
        }
}

/// The howl is driven by its input and by its own band.
pub proof fn law_scream_curve(m: Sem, b: DistortionBlock, s: Distortion, x: Bits, v: Bits)
    requires
        m.rounds(),
        b.curve is Scream,
        tame(v),
        held(s.scr_bp, 3real),
        held(b.scr_fb, 2real),
        part(s.scr_env),
        forall|z: Bits| word::finite(z) ==> held(#[trigger] m.tanh(z), 1real),
    ensures
        ({
            let (t, y) = distortion::curved(m, b, s, x, v);
            &&& howls(m, b, s, v, t, y)
            &&& !word::is_nan(t.scr_bp) ==> -3real <= num(t.scr_bp) <= 3real
        }),
{
    reals::lemma_tiny();
    reals::lemma_num(F0, F1);
    numbers::law_numbers_tiny();
    numbers::law_numbers_part();
    numbers::law_numbers_whole();
    laws::motion::lemma_negated(F3);
    laws::wet::lemma_part(s.scr_env);
    let (t, y) = distortion::curved(m, b, s, x, v);
    reals::lemma_num(t.scr_bp, word::neg_of(F3));
    reals::lemma_num(F3, t.scr_bp);
    let e = num(s.scr_env);
    let half = 1real / 2real;
    reals::lemma_near_mul(m, s.scr_env, F0_5, e, half, 0real, 0real, 1real, half);
    assert(e * half == e / 2real);
    reals::lemma_near_add(
        m,
        F1,
        m.mul(s.scr_env, F0_5),
        1real,
        e / 2real,
        0real,
        1real / 8388608real,
        16real / 10real,
    );
    let swell = m.add(F1, m.mul(s.scr_env, F0_5));
    let p = num(s.scr_bp);
    let f = num(b.scr_fb);
    reals::lemma_near_mul(m, s.scr_bp, b.scr_fb, p, f, 0real, 0real, 3real, 2real);
    let pf = m.mul(s.scr_bp, b.scr_fb);
    reals::lemma_near_mul(
        m,
        pf,
        swell,
        p * f,
        1real + e / 2real,
        12real / 8388608real,
        5real / 8388608real,
        7real,
        16real / 10real,
    );
    let back = m.mul(pf, swell);
    reals::lemma_near_add(
        m,
        v,
        back,
        num(v),
        p * f * (1real + e / 2real),
        0real,
        77real / 8388608real,
        1012real,
    );
    let z = m.add(v, back);
    let h = m.tanh(z);
    assert(held(h, 1real));
    let k = 92real / 100real;
    reals::lemma_near_mul(m, h, F0_92, num(h), k, 0real, 92real / 1000000000real, 1real, 1real);
    laws::adsr::lemma_abs(h);
    let a = word::abs_of(h);
    reals::lemma_num(F0_004, F1);
    assert(word::between(F0, F0_004, F1));
    reals::lemma_lerp(m, s.scr_env, a, F0_004, 1real);
    let way = num(a) - e;
    let c = num(F0_004);
    reals::lemma_bounded(way, c - 4real / 1000real, 2real, 1real / 1000000000real);
    assert(way * c - way * (4real / 1000real) == way * (c - 4real / 1000real)) by (nonlinear_arith);
    assert(near(y, num(m.tanh(z)) * k, 1real / 1000000real));
}

} // verus!
