//! What a block makes of its settings, in numbers.

use crate::alu::Sem;
use crate::block;
use crate::consts::{
    F0, F0_23, F0_25, F0_35, F0_5, F1, F1E_5, F256, F4, F9,
};
use crate::laws;
use crate::laws::frames::unit;
use crate::laws::levels::in_ratio;
use crate::laws::numbers;
use crate::laws::phases::usual_rate;
use crate::params;
use crate::params::RANGES;
use crate::rounding;
use crate::rounding::reals;
use crate::rounding::reals::{dist, num};
use crate::word;
use crate::word::Bits;
use vstd::prelude::*;

verus! {

/// All settings are numbers.
pub open spec fn numbers_all(q: [Bits; 63]) -> bool {
    forall|i: int| 0 <= i < 63 ==> !word::is_nan(#[trigger] q[i])
}

/// Which setting each level of a block comes from.
pub proof fn law_block_reads_settings(m: Sem, q: [Bits; 63], sr: Bits, active: nat, n: nat)
    requires
        m.rounds(),
        m.powers_in_range(),
        numbers_all(q),
    ensures
        ({
            let b = block::block_of(m, q, sr, active, n);
            &&& b.sr == sr
            &&& num(b.sub_lv) == unit(num(q[0]))
            &&& num(b.morph) == unit(num(q[1]))
            &&& num(b.p_drop) == unit(num(q[3]))
            &&& in_ratio(m, b.p_dec, num(RANGES[4].0), num(RANGES[4].1), unit(num(q[4])))
            &&& num(b.tr_lv) == unit(num(q[5]))
            &&& in_ratio(m, b.tr_dec, num(RANGES[6].0), num(RANGES[6].1), unit(num(q[6])))
            &&& num(b.add_lv) == unit(num(q[7]))
            &&& num(b.spread) == unit(num(q[9]))
            &&& num(b.tex_lv) == unit(num(q[26]))
            &&& num(b.det) == unit(num(q[29]))
            &&& num(b.slopes.sustain) == unit(num(q[32]))
            &&& num(b.master) == unit(num(q[37]))
        }),
{
    assert(RANGES[0] == (F0, F1, false) && RANGES[1] == (F0, F1, false));
    assert(RANGES[3] == (F0, F1, false) && RANGES[5] == (F0, F1, false));
    assert(RANGES[7] == (F0, F1, false) && RANGES[9] == (F0, F1, false));
    assert(RANGES[26] == (F0, F1, false) && RANGES[29] == (F0, F1, false));
    assert(RANGES[32] == (F0, F1, false) && RANGES[37] == (F0, F1, false));
    assert(RANGES[4].2 && RANGES[6].2);
    assert(!word::is_nan(q[0]) && !word::is_nan(q[1]) && !word::is_nan(q[3]) && !word::is_nan(q[4]));
    assert(!word::is_nan(q[5]) && !word::is_nan(q[6]) && !word::is_nan(q[7]) && !word::is_nan(q[9]));
    assert(!word::is_nan(q[26]) && !word::is_nan(q[29]) && !word::is_nan(q[32]));
    assert(!word::is_nan(q[37]));
    laws::frames::law_unit_setting(m, 0, q[0]);
    laws::frames::law_unit_setting(m, 1, q[1]);
    laws::frames::law_unit_setting(m, 3, q[3]);
    laws::frames::law_unit_setting(m, 5, q[5]);
    laws::frames::law_unit_setting(m, 7, q[7]);
    laws::frames::law_unit_setting(m, 9, q[9]);
    laws::frames::law_unit_setting(m, 26, q[26]);
    laws::frames::law_unit_setting(m, 29, q[29]);
    laws::frames::law_unit_setting(m, 32, q[32]);
    laws::frames::law_unit_setting(m, 37, q[37]);
    laws::levels::law_ratios_in_numbers(m, 4, q[4]);
    laws::levels::law_ratios_in_numbers(m, 6, q[6]);
}

/// The drive of the sub oscillator is one to ten, and what undoes its gain is
/// one over the clip of the drive.
pub proof fn law_drive_in_numbers(m: Sem, q: [Bits; 63], sr: Bits, active: nat, n: nat)
    requires
        m.rounds(),
        !word::is_nan(q[2]),
        ({
            let g = block::block_of(m, q, sr, active, n).g;
            word::finite(m.tanh(g)) && 1real / 4real <= num(m.tanh(g)) <= 1real
        }),
    ensures
        ({
            let b = block::block_of(m, q, sr, active, n);
            &&& dist(num(b.g), 1real + 9real * unit(num(q[2]))) <= 1real / 400000real
            &&& dist(num(b.g_inv) * num(m.tanh(b.g)), 1real) <= 1real / 1000000real
        }),
{
    reals::lemma_tiny();
    reals::lemma_num(F0, F1);
    numbers::law_numbers_whole();
    assert(RANGES[2] == (F0, F1, false));
    laws::frames::law_unit_setting(m, 2, q[2]);
    let b = block::block_of(m, q, sr, active, n);
    let d = params::mapped(m, 2, q[2]);
    reals::lemma_within(F0, d, F1);
    let x = num(d);
    let k = num(F9);
    assert(x * k == 9real * x) by (nonlinear_arith)
        requires
            k == 9real,
    ;
    reals::lemma_mul(m, d, F9);
    reals::lemma_add(m, F1, m.mul(d, F9));
    let t = num(m.tanh(b.g));
    let q1 = 1real / t;
    assert(q1 * t == 1real && 0real <= q1 <= 4real) by (nonlinear_arith)
        requires
            q1 == 1real / t,
            1real / 4real <= t <= 1real,
    ;
    reals::lemma_div(m, F1, m.tanh(b.g));
    let r = num(b.g_inv);
    let u = reals::tiny();
    assert(dist(r * t, 1real) <= 1real / 1000000real) by (nonlinear_arith)
        requires
            q1 * t == 1real,
            0real <= q1 <= 4real,
            1real / 4real <= t <= 1real,
            dist(r, q1) <= q1 / 8388608real + u,
            dist(r, q1) >= r - q1,
            dist(r, q1) >= q1 - r,
            0real < u <= 1real / 1000000000real,
            dist(r * t, 1real) == r * t - 1real || dist(r * t, 1real) == 1real - r * t,
    ;
}

// ---------------------------------------------------------------------------
// Overtones
// ---------------------------------------------------------------------------

/// The level of an overtone is its setting times its number to the power of
/// the tilt, which runs from -2 to 2.
pub proof fn law_levels_in_numbers(m: Sem, q: [Bits; 63], sr: Bits, active: nat, n: nat, i: int)
    requires
        m.rounds(),
        m.powers_tilt(),
        !word::is_nan(q[8]),
        !word::is_nan(q[10 + i]),
        0 <= i < 16,
    ensures
        exists|k: Bits, x: Bits|
            {
                &&& num(k) == (i + 1) as real
                &&& dist(num(x), 4real * (unit(num(q[8])) - 1real / 2real)) <= 1real / 1000000real
                &&& dist(
                    num(block::block_of(m, q, sr, active, n).w[i]),
                    unit(num(q[10 + i])) * num(#[trigger] m.pow(k, x)),
                ) <= num(m.pow(k, x)) / 1000000real
            },
{
    reals::lemma_tiny();
    reals::lemma_num(F0, F1);
    numbers::law_numbers_whole();
    numbers::law_numbers_part();
    vstd::arithmetic::power2::lemma2_to64();
    assert(RANGES[8] == (F0, F1, false));
    laws::overtones::lemma_unit_ranges(i);
    laws::frames::law_unit_setting(m, 8, q[8]);
    laws::frames::law_unit_setting(m, 10 + i, q[10 + i]);
    let b = block::block_of(m, q, sr, active, n);
    let s8 = params::mapped(m, 8, q[8]);
    reals::lemma_within(F0, s8, F1);
    reals::lemma_sub(m, s8, F0_5);
    let off = m.sub(s8, F0_5);
    let o = num(off);
    let four = num(F4);
    assert(o * four == 4real * o) by (nonlinear_arith)
        requires
            four == 4real,
    ;
    reals::lemma_mul(m, off, F4);
    let x = m.mul(off, F4);
    reals::lemma_integer(i + 1);
    let k = word::from_nat((i + 1) as nat);
    laws::overtones::lemma_level_power(m, q, i);
    let p = m.pow(k, x);
    reals::lemma_within(0x3b00_0000, p, 0x4400_0000);
    reals::lemma_const(0x3b00_0000);
    reals::lemma_const(0x4400_0000);
    assert(num(0x3b00_0000) == 8388608real / 4294967296real);
    assert(num(0x4400_0000) == 8388608real / 16384real);
    let set = params::mapped(m, 10 + i, q[10 + i]);
    reals::lemma_within(F0, set, F1);
    let a = num(set);
    let w = num(p);
    assert(0real <= a * w <= w) by (nonlinear_arith)
        requires
            0real <= a <= 1real,
            w >= 0real,
    ;
    reals::lemma_mul(m, set, p);
    laws::overtones::lemma_block_level(m, q, sr, active, n, i);
    assert(b.w[i] == m.mul(set, p));
    assert(dist(num(b.w[i]), a * w) <= w / 1000000real);
    assert(num(m.pow(k, x)) == w);
}

/// The most overtones of a voice: sixteen for up to three sounding voices,
/// twelve for up to five, nine for six, seven for more.
pub open spec fn most_overtones(active: nat) -> int {
    if active <= 3 {
        16
    } else if active <= 5 {
        12
    } else if active == 6 {
        9
    } else {
        7
    }
}

/// A block sums the overtones up to the highest that has a level of 1e-5 or
/// more, as far as the number of sounding voices allows.
pub proof fn law_overtones_summed(m: Sem, q: [Bits; 63], sr: Bits, active: nat, n: nat)
    ensures
        ({
            let b = block::block_of(m, q, sr, active, n);
            &&& b.p_top <= most_overtones(active)
            &&& b.p_top > 0 && b.p_top < most_overtones(active) ==> word::at_least(
                b.w[b.p_top - 1],
                F1E_5,
            )
            &&& forall|p: int|
                b.p_top <= p < most_overtones(active) ==> !word::at_least(
                    #[trigger] b.w[p],
                    F1E_5,
                )
        }),
{
    let tilt = m.mul(m.sub(params::mapped(m, 8, q[8]), F0_5), F4);
    lemma_top(m, q, tilt, 16);
}

proof fn lemma_top(m: Sem, q: [Bits; 63], tilt: Bits, k: nat)
    requires
        k <= 16,
    ensures
        ({
            let r = block::weighed(m, q, tilt, k);
            &&& r.top <= k
            &&& r.top > 0 ==> word::at_least(r.w[r.top - 1], F1E_5)
            &&& forall|p: int| r.top <= p < k ==> !word::at_least(#[trigger] r.w[p], F1E_5)
        }),
    decreases k,
{
    if k > 0 {
        lemma_top(m, q, tilt, (k - 1) as nat);
        let s = block::weighed(m, q, tilt, (k - 1) as nat);
        let r = block::weighed(m, q, tilt, k);
        assert forall|p: int| r.top <= p < k implies !word::at_least(#[trigger] r.w[p], F1E_5) by {
            if p < k - 1 {
                assert(r.w[p] == s.w[p]);
            }
        }
        if r.top < k && r.top > 0 {
            assert(r.w[r.top - 1] == s.w[s.top - 1]);
        }
    }
}

// ---------------------------------------------------------------------------
// The envelope
// ---------------------------------------------------------------------------

/// What a stage of `time` seconds goes of its way in one sample: one minus the
/// exponential of minus the sample's time over 0.35 of the stage's.
pub open spec fn slope_is(m: Sem, slope: Bits, time: real, sr: real) -> bool {
    exists|x: Bits|
        {
            &&& word::finite(x)
            &&& dist(num(x) * (35real / 100real * time * sr), -1real) <= 1real / 100000real
            &&& dist(num(slope), 1real - num(#[trigger] m.exp(x))) <= 1real / 1000000real
        }
}

/// The slopes of attack, decay and release come from their times.
pub proof fn law_slopes_in_numbers(m: Sem, q: [Bits; 63], sr: Bits, active: nat, n: nat)
    requires
        m.rounds(),
        m.powers_in_range(),
        m.decays(),
        usual_rate(sr),
        !word::is_nan(q[30]),
        !word::is_nan(q[31]),
        !word::is_nan(q[33]),
    ensures
        ({
            let k = block::block_of(m, q, sr, active, n).slopes;
            &&& slope_is(m, k.attack, num(params::mapped(m, 30, q[30])), num(sr))
            &&& slope_is(m, k.decay, num(params::mapped(m, 31, q[31])), num(sr))
            &&& slope_is(m, k.release, num(params::mapped(m, 33, q[33])), num(sr))
        }),
{
    lemma_time(m, 30, q[30]);
    lemma_time(m, 31, q[31]);
    lemma_time(m, 33, q[33]);
    lemma_slope(m, sr, params::mapped(m, 30, q[30]));
    lemma_slope(m, sr, params::mapped(m, 31, q[31]));
    lemma_slope(m, sr, params::mapped(m, 33, q[33]));
}

proof fn lemma_time(m: Sem, i: int, x: Bits)
    requires
        m.rounds(),
        m.powers_in_range(),
        i == 30 || i == 31 || i == 33,
        !word::is_nan(x),
    ensures
        word::finite(params::mapped(m, i, x)),
        1real / 1024real <= num(params::mapped(m, i, x)) <= 7real,
{
    reals::lemma_num(F0, F1);
    numbers::law_ranges();
    laws::settings::law_ratio(m, i, x);
    reals::lemma_num(RANGES[i].0, params::mapped(m, i, x));
    reals::lemma_multiples(params::mapped(m, i, x), RANGES[i].1, 10_000, 10_001);
}

proof fn lemma_slope(m: Sem, sr: Bits, time: Bits)
    requires
        m.rounds(),
        m.decays(),
        usual_rate(sr),
        word::finite(time),
        1real / 1024real <= num(time) <= 7real,
    ensures
        slope_is(m, block::slope_of(m, m.div(F1, sr), time), num(time), num(sr)),
{
    reals::lemma_tiny();
    reals::lemma_num(F0, F1);
    numbers::law_numbers_part();
    laws::motion::lemma_rate(sr);
    let u = reals::tiny();
    let s = num(sr);
    let t = num(time);
    let k = num(F0_35);
    let dt = m.div(F1, sr);
    let q = 1real / s;
    assert(0real < q && q * s == 1real && q <= 1real / 4096real) by (nonlinear_arith)
        requires
            q == 1real / s,
            s >= 4096real,
    ;
    assert(q >= 1real / 262144real) by (nonlinear_arith)
        requires
            q * s == 1real,
            4096real <= s <= 262144real,
    ;
    reals::lemma_div(m, F1, sr);
    let d = num(dt);
    assert(0real <= t * k <= 3real) by (nonlinear_arith)
        requires
            0real <= t <= 7real,
            0real <= k <= 36real / 100real,
    ;
    reals::lemma_mul(m, time, F0_35);
    let tau = m.mul(time, F0_35);
    let v = num(tau);
    let exact = 35real / 100real * t;
    assert(dist(v, exact) <= 3real * exact / 8388608real) by (nonlinear_arith)
        requires
            exact == 35real / 100real * t,
            t >= 1real / 1024real,
            dist(k, 35real / 100real) <= (35real / 100real) / 10000000real,
            dist(k, 35real / 100real) >= k - 35real / 100real,
            dist(k, 35real / 100real) >= 35real / 100real - k,
            dist(v, t * k) <= (t * k) / 8388608real + u,
            dist(v, t * k) >= v - t * k,
            dist(v, t * k) >= t * k - v,
            0real < u <= 1real / 1000000000000000real,
            dist(v, exact) == v - exact || dist(v, exact) == exact - v,
    ;
    let back = word::neg_of(dt);
    laws::motion::lemma_negated(dt);
    let w = (-d) / v;
    assert(v >= 1real / 4000real);
    assert(w * v == -d && -2real <= w <= 0real) by (nonlinear_arith)
        requires
            w == (-d) / v,
            v >= 1real / 4000real,
            0real <= d <= 2real / 4096real,
    ;
    reals::lemma_div(m, back, tau);
    let x = m.div(back, tau);
    let y = num(x);
    // y * v is about -d, d * s about 1, and v about exact.
    assert(dist(y * v, -d) <= d / 8388608real + u * v) by (nonlinear_arith)
        requires
            w * v == -d,
            v > 0real,
            w <= 0real,
            dist(y, w) <= -w / 8388608real + u,
            dist(y, w) >= y - w,
            dist(y, w) >= w - y,
            dist(y * v, -d) == y * v + d || dist(y * v, -d) == -d - y * v,
    ;
    assert(u * v <= u * 3real) by (nonlinear_arith)
        requires
            u > 0real,
            v <= 3real,
    ;
    let a = y * v;
    assert(dist(a, -q) <= 3real * q / 8388608real);
    let z = y * exact;
    assert(dist(z, a) <= 4real * q / 8388608real) by (nonlinear_arith)
        requires
            a == y * v,
            z == y * exact,
            dist(v, exact) <= 3real * exact / 8388608real,
            dist(v, exact) >= v - exact,
            dist(v, exact) >= exact - v,
            0real < exact,
            v > 0real,
            dist(a, -q) <= 3real * q / 8388608real,
            dist(a, -q) >= a + q,
            dist(a, -q) >= -q - a,
            q > 0real,
            dist(z, a) == z - a || dist(z, a) == a - z,
    ;
    assert(dist(z, -q) <= 8real * q / 8388608real);
    assert(y * (exact * s) == z * s) by (nonlinear_arith)
        requires
            z == y * exact,
    ;
    assert(dist(z * s, -1real) <= 1real / 100000real) by (nonlinear_arith)
        requires
            dist(z, -q) <= 8real * q / 8388608real,
            dist(z, -q) >= z + q,
            dist(z, -q) >= -q - z,
            q * s == 1real,
            s > 0real,
            dist(z * s, -1real) == z * s + 1real || dist(z * s, -1real) == -1real - z * s,
    ;
    assert(-3real <= y <= 1real);
    laws::motion::lemma_negated(x);
    reals::lemma_num(x, F0);
    rounding::lemma_one();
    let e = m.exp(x);
    assert(word::between(F0, e, F1)) by {
        lemma_not_positive(m, back, tau);
        reveal(Sem::decays);
    }
    reals::lemma_within(F0, e, F1);
    reals::lemma_sub(m, F1, e);
    let slope = block::slope_of(m, dt, time);
    assert(slope == m.sub(F1, e));
    assert(dist(num(slope), 1real - num(m.exp(x))) <= 1real / 1000000real);
    assert(35real / 100real * t * s == exact * s);
    assert(dist(y * (35real / 100real * t * s), -1real) <= 1real / 100000real);
}

/// A quotient of what is not positive and what is positive is not positive.
pub proof fn lemma_not_positive(m: Sem, x: Bits, y: Bits)
    requires
        m.rounds(),
        word::finite(x),
        word::finite(y),
        num(x) <= 0real,
        num(y) > 0real,
    ensures
        word::value(m.div(x, y)) <= 0,
{
    rounding::lemma_one();
    reals::lemma_num(F0, x);
    reals::lemma_num(F0, y);
    rounding::lemma_rank_is_value(F0, x);
    rounding::lemma_rank_is_value(F0, y);
    let v = word::value(x) * word::one();
    let w = word::value(y);
    assert(v <= 0 && 0 * w == 0) by (nonlinear_arith)
        requires
            v == word::value(x) * word::one(),
            word::value(x) <= 0,
            word::one() > 0,
    ;
    assert(rounding::nearest(m.div(x, y), v, w)) by {
        reveal(Sem::rounds);
    }
    rounding::lemma_not_above(m.div(x, y), v, w, F0);
}

// ---------------------------------------------------------------------------
// Grains
// ---------------------------------------------------------------------------

/// The shortest grain lasts a quarter of a second less 0.23 of the setting, and
/// 256 samples at least; where the setting is 0 or less there are no grains.
pub proof fn law_grain_in_numbers(m: Sem, q: [Bits; 63], sr: Bits, active: nat, n: nat)
    requires
        m.rounds(),
        usual_rate(sr),
        !word::is_nan(q[28]),
    ensures
        ({
            let b = block::block_of(m, q, sr, active, n);
            let x = unit(num(q[28]));
            let exact = (25real / 100real - x * (23real / 100real)) * num(sr);
            let least = if exact < 256real {
                256real
            } else {
                exact
            };
            if x == 0real {
                b.grain_len == 0
            } else {
                &&& least - 12real / 10real <= b.grain_len as real <= least + 2real / 10real
                &&& b.grain_len >= 256
            }
        }),
{
    reals::lemma_tiny();
    reals::lemma_num(F0, F1);
    numbers::law_numbers_small();
    numbers::law_numbers_large();
    laws::motion::lemma_rate(sr);
    assert(RANGES[28] == (F0, F1, false));
    laws::frames::law_unit_setting(m, 28, q[28]);
    let g = params::mapped(m, 28, q[28]);
    reals::lemma_within(F0, g, F1);
    reals::lemma_num(F0, g);
    let b = block::block_of(m, q, sr, active, n);
    let x = num(g);
    let s = num(sr);
    if x > 0real {
        let c = num(F0_23);
        let gc = x * c;
        let exact1 = x * (23real / 100real);
        assert(dist(gc, exact1) <= 1real / 40000000real && 0real <= gc <= 24real / 100real)
            by (nonlinear_arith)
            requires
                gc == x * c,
                exact1 == x * (23real / 100real),
                0real <= x <= 1real,
                dist(c, 23real / 100real) <= (23real / 100real) / 10000000real,
                dist(c, 23real / 100real) >= c - 23real / 100real,
                dist(c, 23real / 100real) >= 23real / 100real - c,
                dist(gc, exact1) == gc - exact1 || dist(gc, exact1) == exact1 - gc,
        ;
        reals::lemma_mul(m, g, F0_23);
        let less = m.mul(g, F0_23);
        reals::lemma_sub(m, F0_25, less);
        let sec = m.sub(F0_25, less);
        let y = num(sec);
        let exact2 = 25real / 100real - exact1;
        assert(dist(y, exact2) <= 1real / 10000000real);
        assert(0real <= exact1 <= 23real / 100real) by (nonlinear_arith)
            requires
                exact1 == x * (23real / 100real),
                0real <= x <= 1real,
        ;
        let exact = exact2 * s;
        let ys = y * s;
        assert(dist(ys, exact) <= 1real / 20real && 0real <= ys <= 70000real) by (nonlinear_arith)
            requires
                ys == y * s,
                exact == exact2 * s,
                dist(y, exact2) <= 1real / 10000000real,
                dist(y, exact2) >= y - exact2,
                dist(y, exact2) >= exact2 - y,
                0real < s <= 262144real,
                1real / 100real <= y <= 26real / 100real,
                dist(ys, exact) == ys - exact || dist(ys, exact) == exact - ys,
        ;
        reals::lemma_mul(m, sec, sr);
        let raw = m.mul(sec, sr);
        reals::lemma_num(raw, F256);
        let samples = word::max_of(raw, F256);
        reals::lemma_trunc(samples);
        assert(num(samples) >= 256real);
    }
}

} // verus!
