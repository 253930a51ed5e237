//! What holds of the parameters, the sweeps and the pitch of notes.

use crate::alu::Sem;
use crate::consts::{F0, F0_5, F1, F12, F2, F440, F69};
use crate::engine;
use crate::engine::RiotCore;
use crate::params;
use crate::params::RANGES;
use crate::pool;
use crate::rounding;
use crate::rounding::reals;
use crate::word;
use crate::word::Bits;
use vstd::arithmetic::power2::*;
use vstd::prelude::*;

verus! {

// ---------------------------------------------------------------------------
// Parameters
// ---------------------------------------------------------------------------

/// What a range of the table looks like: one in proportion starts at 0, one by
/// ratio lies in 2^-10 ..= 32 and ends at 16 times where it starts at least.
spec fn usual(range: (Bits, Bits, bool)) -> bool {
    if range.2 {
        &&& word::between(0x3a80_0000, range.0, range.1)
        &&& word::between(range.0, range.1, 0x4200_0000)
        &&& range.1 >= range.0 + 0x200_0000
    } else {
        range.0 == F0 && word::between(F0_5, range.1, 0x4100_0000)
    }
}

proof fn lemma_ranges(i: int)
    requires
        0 <= i < 63,
    ensures
        usual(RANGES[i]),
{
    assert(usual(RANGES[0]));
    assert(usual(RANGES[1]));
    assert(usual(RANGES[2]));
    assert(usual(RANGES[3]));
    assert(usual(RANGES[4]));
    assert(usual(RANGES[5]));
    assert(usual(RANGES[6]));
    assert(usual(RANGES[7]));
    assert(usual(RANGES[8]));
    assert(usual(RANGES[9]));
    assert(usual(RANGES[10]));
    assert(usual(RANGES[11]));
    assert(usual(RANGES[12]));
    assert(usual(RANGES[13]));
    assert(usual(RANGES[14]));
    assert(usual(RANGES[15]));
    assert(usual(RANGES[16]));
    assert(usual(RANGES[17]));
    assert(usual(RANGES[18]));
    assert(usual(RANGES[19]));
    assert(usual(RANGES[20]));
    assert(usual(RANGES[21]));
    assert(usual(RANGES[22]));
    assert(usual(RANGES[23]));
    assert(usual(RANGES[24]));
    assert(usual(RANGES[25]));
    assert(usual(RANGES[26]));
    assert(usual(RANGES[27]));
    assert(usual(RANGES[28]));
    assert(usual(RANGES[29]));
    assert(usual(RANGES[30]));
    assert(usual(RANGES[31]));
    assert(usual(RANGES[32]));
    assert(usual(RANGES[33]));
    assert(usual(RANGES[34]));
    assert(usual(RANGES[35]));
    assert(usual(RANGES[36]));
    assert(usual(RANGES[37]));
    assert(usual(RANGES[38]));
    assert(usual(RANGES[39]));
    assert(usual(RANGES[40]));
    assert(usual(RANGES[41]));
    assert(usual(RANGES[42]));
    assert(usual(RANGES[43]));
    assert(usual(RANGES[44]));
    assert(usual(RANGES[45]));
    assert(usual(RANGES[46]));
    assert(usual(RANGES[47]));
    assert(usual(RANGES[48]));
    assert(usual(RANGES[49]));
    assert(usual(RANGES[50]));
    assert(usual(RANGES[51]));
    assert(usual(RANGES[52]));
    assert(usual(RANGES[53]));
    assert(usual(RANGES[54]));
    assert(usual(RANGES[55]));
    assert(usual(RANGES[56]));
    assert(usual(RANGES[57]));
    assert(usual(RANGES[58]));
    assert(usual(RANGES[59]));
    assert(usual(RANGES[60]));
    assert(usual(RANGES[61]));
    assert(usual(RANGES[62]));
}

proof fn lemma_clamped(x: Bits)
    requires
        !word::is_nan(x),
    ensures
        word::between(F0, word::clamp_of(x, F0, F1), F1),
{
}

/// A parameter in proportion maps onto 0 ..= its upper end, and one that ends
/// at 1 onto the setting itself.
pub proof fn law_proportion(m: Sem, i: int, x: Bits)
    requires
        m.rounds(),
        0 <= i < 63,
        !RANGES[i].2,
        !word::is_nan(x),
    ensures
        word::finite(params::mapped(m, i, x)),
        word::between(F0, params::mapped(m, i, x), RANGES[i].1),
        RANGES[i].1 == F1 ==> word::value(params::mapped(m, i, x)) == word::value(
            word::clamp_of(x, F0, F1),
        ),
        !word::below(F0, x) ==> params::mapped(m, i, x) == F0,
{
    lemma_ranges(i);
    rounding::lemma_one();
    let hi = RANGES[i].1;
    let c = word::clamp_of(x, F0, F1);
    lemma_clamped(x);
    rounding::lemma_between(F0, c, F1);
    rounding::lemma_between(F0_5, hi, 0x4100_0000);
    rounding::lemma_rank_is_value(F0, F0_5);
    rounding::lemma_rank_is_value(F0, c);
    let span = m.sub(hi, F0);
    rounding::lemma_difference(m, hi, F0, hi, hi);
    rounding::lemma_part(m, span, c);
    let p = m.mul(span, c);
    if hi == F1 {
        assert(word::value(span) * word::value(c) == word::value(c) * word::one())
            by (nonlinear_arith)
            requires
                word::value(span) == word::one(),
        ;
        rounding::lemma_product(m, span, c, c, c);
        rounding::lemma_sum(m, F0, p, c, c);
    }
    rounding::lemma_sum(m, F0, p, F0, hi);
    if !word::below(F0, x) {
        assert(word::value(span) * word::value(c) == 0) by (nonlinear_arith)
            requires
                word::value(c) == 0,
        ;
        rounding::lemma_product(m, span, c, F0, F0);
        reveal(Sem::rounds);
    }
}

/// A parameter by ratio is never below the lower end of its range, and equals
/// it where the setting is 0 or below; it exceeds the upper end by rounding
/// only, one part in ten thousand at most.
pub proof fn law_ratio(m: Sem, i: int, x: Bits)
    requires
        m.rounds(),
        m.powers_in_range(),
        0 <= i < 63,
        RANGES[i].2,
        !word::is_nan(x),
    ensures
        word::finite(params::mapped(m, i, x)),
        word::at_least(params::mapped(m, i, x), RANGES[i].0),
        10_000 * word::value(params::mapped(m, i, x)) <= 10_001 * word::value(RANGES[i].1),
        !word::below(F0, x) ==> params::mapped(m, i, x) == RANGES[i].0,
{
    lemma_base(m, i);
    lemma_clamped(x);
    let (lo, hi, _) = RANGES[i];
    let b = m.div(hi, lo);
    let c = word::clamp_of(x, F0, F1);
    let p = m.pow(b, c);
    assert(word::between(F1, p, 0x4780_0000) && 100_000 * word::value(p) <= 100_001 * word::value(
        b,
    )) by {
        reveal(Sem::powers_in_range);
    }
    rounding::lemma_one();
    rounding::lemma_between(F1, p, 0x4780_0000);
    rounding::lemma_between(0x3a80_0000, lo, hi);
    rounding::lemma_between(lo, hi, 0x4200_0000);
    rounding::lemma_rank_is_value(F0, 0x3a80_0000);
    rounding::lemma_rank_is_value(F0, c);
    let one = word::one() as int;
    let l = word::value(lo);
    let h = word::value(hi);
    let v = word::value(p);
    let w = word::value(b);
    lemma_scale();
    assert(l * one <= l * v <= (4194304 * one) * one) by (nonlinear_arith)
        requires
            0 <= l <= 32 * one,
            one <= v <= 65536 * one,
    ;
    rounding::lemma_product(m, lo, p, lo, 0x4a80_0000);
    let r = m.mul(lo, p);
    rounding::lemma_rank_is_value(lo, r);
    if !word::below(F0, x) {
        assert(p == F1) by {
            reveal(Sem::powers_in_range);
        }
        rounding::lemma_product(m, lo, F1, lo, lo);
        rounding::lemma_same_value(r, lo);
    }
    rounding::lemma_far();
    let least = word::value(0x0080_0000);
    let most = word::value(0x7f80_0000);
    assert(rounding::nearest(b, h * one, l) && rounding::nearest(r, l * v, one)) by {
        reveal(Sem::rounds);
    }
    assert(least * l <= h * one < most * l) by (nonlinear_arith)
        requires
            0 < l <= h <= 32 * one,
            one <= 1024 * l,
            0 < least <= one,
            most >= 0x1_0000_0000 * one,
    ;
    rounding::lemma_nearest_close(b, h * one, l);
    assert(least * one <= l * v && l * v < most * one) by (nonlinear_arith)
        requires
            l * v >= l * one,
            l * v <= (4194304 * one) * one,
            0 < 1024 * least <= one,
            one <= 1024 * l,
            most >= 0x1_0000_0000 * one,
    ;
    rounding::lemma_nearest_close(r, l * v, one);
    assert(100_000 * (l * v) <= 100_001 * (w * l)) by (nonlinear_arith)
        requires
            100_000 * v <= 100_001 * w,
            l > 0,
    ;
    let z = word::value(r);
    assert(10_000 * z <= 10_001 * h) by (nonlinear_arith)
        requires
            10_000 * (z * one) <= 10_001 * (h * one),
            one > 0,
    ;
}

/// Some powers of two, counted in ones.
proof fn lemma_scale()
    ensures
        word::value(0x3a80_0000) * 1024 == word::one(),
        word::value(0x4200_0000) == 32 * word::one(),
        word::value(0x4700_0000) == 32768 * word::one(),
        word::value(0x4780_0000) == 65536 * word::one(),
        word::value(0x4a80_0000) == 4194304 * word::one(),
        word::value(0x4180_0000) == 16 * word::one(),
{
    lemma2_to64();
    rounding::lemma_power(0x4180_0000);
    lemma_pow2_adds(149, 4);
    rounding::lemma_power(0x3a80_0000);
    rounding::lemma_power(0x4200_0000);
    rounding::lemma_power(0x4700_0000);
    rounding::lemma_power(0x4780_0000);
    rounding::lemma_power(0x4a80_0000);
    lemma_pow2_adds(139, 10);
    lemma_pow2_adds(149, 5);
    lemma_pow2_adds(149, 15);
    lemma_pow2_adds(149, 16);
    lemma_pow2_adds(149, 22);
}

/// Four more in the exponent is sixteen times the value.
proof fn lemma_sixteen(x: Bits)
    requires
        0x80_0000 <= x < 0x7000_0000,
    ensures
        word::value((x + 0x200_0000) as u32) == 16 * word::value(x),
{
    lemma2_to64();
    let e = (x / 0x80_0000) as nat;
    let f = x % 0x80_0000;
    let y = (x + 0x200_0000) as u32;
    assert(y / 0x80_0000 == e + 4 && y % 0x80_0000 == f);
    lemma_pow2_adds(4, (e - 1) as nat);
    let p = pow2((e - 1) as nat) as int;
    assert(word::value(y) == (0x80_0000 + f) * (16 * p));
    assert((0x80_0000 + f) * (16 * p) == 16 * ((0x80_0000 + f) * p)) by (nonlinear_arith);
}

/// The ratio of the two ends of a range lies in 16 ..= 32768.
pub proof fn lemma_base(m: Sem, i: int)
    requires
        m.rounds(),
        0 <= i < 63,
        RANGES[i].2,
    ensures
        word::between(0x3a80_0000, RANGES[i].0, RANGES[i].1),
        word::between(RANGES[i].0, RANGES[i].1, 0x4200_0000),
        word::between(0x4180_0000, m.div(RANGES[i].1, RANGES[i].0), 0x4700_0000),
        word::finite(RANGES[i].0),
{
    lemma_ranges(i);
    let (lo, hi, _) = RANGES[i];
    rounding::lemma_one();
    rounding::lemma_between(0x3a80_0000, lo, hi);
    rounding::lemma_between(lo, hi, 0x4200_0000);
    rounding::lemma_rank_is_value(F0, 0x3a80_0000);
    lemma_scale();
    let one = word::one() as int;
    let l = word::value(lo);
    let h = word::value(hi);
    lemma_sixteen(lo);
    rounding::lemma_rank_is_value((lo + 0x200_0000) as u32, hi);
    assert((16 * one) * l <= h * one <= (32768 * one) * l) by (nonlinear_arith)
        requires
            0 < 16 * l <= h <= 32 * one,
            one <= 1024 * l,
    ;
    rounding::lemma_quotient(m, hi, lo, 0x4180_0000, 0x4700_0000);
}

/// What a parameter stands for never falls when its setting rises.
pub proof fn law_settings_rise(m: Sem, i: int, x: Bits, y: Bits)
    requires
        m.rounds(),
        m.powers_in_range(),
        m.powers_rise(),
        0 <= i < 63,
        word::below(x, y),
    ensures
        word::at_least(params::mapped(m, i, y), params::mapped(m, i, x)),
{
    lemma_clamped(x);
    lemma_clamped(y);
    rounding::lemma_one();
    let c = word::clamp_of(x, F0, F1);
    let d = word::clamp_of(y, F0, F1);
    let a = params::mapped(m, i, x);
    let b = params::mapped(m, i, y);
    let (lo, hi, exponential) = RANGES[i];
    lemma_ranges(i);
    rounding::lemma_rank_is_value(c, d);
    rounding::lemma_between(F0, c, F1);
    rounding::lemma_between(F0, d, F1);
    if exponential {
        law_ratio(m, i, x);
        law_ratio(m, i, y);
        lemma_base(m, i);
        let base = m.div(hi, lo);
        let p = m.pow(base, c);
        let q = m.pow(base, d);
        assert(word::between(F1, p, 0x4780_0000) && word::between(F1, q, 0x4780_0000)) by {
            reveal(Sem::powers_in_range);
        }
        assert(word::rank(p) <= word::rank(q)) by {
            reveal(Sem::powers_rise);
        }
        rounding::lemma_rank_is_value(p, q);
        rounding::lemma_between(F1, p, 0x4780_0000);
        rounding::lemma_between(F1, q, 0x4780_0000);
        rounding::lemma_rank_is_value(F0, 0x3a80_0000);
        rounding::lemma_between(0x3a80_0000, lo, hi);
        if word::rank(p) == word::rank(q) {
            rounding::lemma_same_value(p, q);
        } else {
            lemma_product_rises(m, lo, p, q);
        }
        rounding::lemma_rank_is_value(a, b);
    } else {
        law_proportion(m, i, x);
        law_proportion(m, i, y);
        if word::rank(c) == word::rank(d) {
            assert(c == d || (word::value(c) == 0 && a == F0 && b == F0)) by {
                rounding::lemma_same_value(c, d);
                rounding::lemma_rank_is_value(F0, c);
                rounding::lemma_rank_is_value(F0, d);
            }
        } else {
            let span = m.sub(hi, F0);
            rounding::lemma_between(F0_5, hi, 0x4100_0000);
            rounding::lemma_rank_is_value(F0, F0_5);
            rounding::lemma_difference(m, hi, F0, hi, hi);
            lemma_product_rises(m, span, c, d);
            rounding::lemma_part(m, span, c);
            rounding::lemma_part(m, span, d);
            let p = m.mul(span, c);
            let q = m.mul(span, d);
            rounding::lemma_sum(m, F0, p, p, p);
            rounding::lemma_sum(m, F0, q, q, q);
            rounding::lemma_rank_is_value(a, b);
        }
    }
}

/// What a parameter stands for rises where its setting, in 0 ..= 1, rises by
/// 0.01 or more.
pub proof fn law_settings_rise_strictly(m: Sem, i: int, x: Bits, y: Bits)
    requires
        m.rounds(),
        m.powers_in_range(),
        m.powers_grow(),
        0 <= i < 63,
        word::between(F0, x, F1),
        word::between(F0, y, F1),
        100 * (word::value(y) - word::value(x)) >= word::one(),
    ensures
        word::below(params::mapped(m, i, x), params::mapped(m, i, y)),
{
    rounding::lemma_one();
    rounding::lemma_far();
    let a = params::mapped(m, i, x);
    let b = params::mapped(m, i, y);
    let (lo, hi, exponential) = RANGES[i];
    lemma_ranges(i);
    rounding::lemma_between(F0, x, F1);
    rounding::lemma_between(F0, y, F1);
    assert(word::clamp_of(x, F0, F1) == x && word::clamp_of(y, F0, F1) == y);
    if exponential {
        law_ratio(m, i, x);
        law_ratio(m, i, y);
        lemma_base(m, i);
        lemma_scale();
        let base = m.div(hi, lo);
        rounding::lemma_rank_is_value(F1, 0x4180_0000);
        let p = m.pow(base, x);
        let q = m.pow(base, y);
        assert(word::between(F1, p, 0x4780_0000) && word::between(F1, q, 0x4780_0000)) by {
            reveal(Sem::powers_in_range);
        }
        assert(200 * word::value(q) >= 201 * word::value(p)) by {
            reveal(Sem::powers_grow);
        }
        rounding::lemma_between(F1, p, 0x4780_0000);
        rounding::lemma_between(F1, q, 0x4780_0000);
        rounding::lemma_between(0x3a80_0000, lo, hi);
        rounding::lemma_between(lo, hi, 0x4200_0000);
        lemma_apart(m, lo, p, q);
    } else {
        law_proportion(m, i, x);
        law_proportion(m, i, y);
        let span = m.sub(hi, F0);
        rounding::lemma_between(F0_5, hi, 0x4100_0000);
        rounding::lemma_power(F0_5);
        rounding::lemma_power(0x4100_0000);
        lemma2_to64();
        lemma_pow2_adds(148, 1);
        lemma_pow2_adds(149, 3);
        rounding::lemma_difference(m, hi, F0, hi, hi);
        rounding::lemma_part(m, span, x);
        rounding::lemma_part(m, span, y);
        lemma_apart(m, span, x, y);
        let p = m.mul(span, x);
        let q = m.mul(span, y);
        rounding::lemma_sum(m, F0, p, p, p);
        rounding::lemma_sum(m, F0, q, q, q);
    }
    rounding::lemma_rank_is_value(a, b);
}

/// Products with the same factor differ where the other factors lie one part
/// in 400 of the larger one apart, or more.
proof fn lemma_apart(m: Sem, k: Bits, x: Bits, y: Bits)
    requires
        m.rounds(),
        word::finite(k),
        word::finite(x),
        word::finite(y),
        word::one() <= 1024 * word::value(k),
        word::value(k) <= 32 * word::one(),
        0 <= word::value(x),
        word::value(y) <= 65536 * word::one(),
        400 * (word::value(y) - word::value(x)) >= word::value(y),
        100 * word::value(y) >= word::one(),
    ensures
        word::value(m.mul(k, x)) < word::value(m.mul(k, y)),
{
    rounding::lemma_one();
    rounding::lemma_far();
    let one = word::one() as int;
    let most = word::value(0x7f80_0000);
    let c = word::value(k);
    let a = c * word::value(x);
    let b = c * word::value(y);
    let v = word::value(m.mul(k, x));
    let w = word::value(m.mul(k, y));
    assert(0 <= a && 400 * (b - a) >= b && b <= (2097152 * one) * one && 102_400 * b >= one * one)
        by (nonlinear_arith)
        requires
            a == c * word::value(x),
            b == c * word::value(y),
            one <= 1024 * c,
            c <= 32 * one,
            0 <= word::value(x),
            word::value(y) <= 65536 * one,
            400 * (word::value(y) - word::value(x)) >= word::value(y),
            100 * word::value(y) >= one,
            one > 0,
    ;
    assert((2097152 * one) * one < most * one) by (nonlinear_arith)
        requires
            most >= 0x1_0000_0000 * one,
            one > 0,
    ;
    assert(rounding::nearest(m.mul(k, x), a, one) && rounding::nearest(m.mul(k, y), b, one)) by {
        reveal(Sem::rounds);
    }
    rounding::lemma_nearest_near(m.mul(k, x), a, one);
    rounding::lemma_nearest_near(m.mul(k, y), b, one);
    assert(one >= 0x100_0000_0000) by {
        lemma2_to64();
        lemma_pow2_strictly_increases(32, 149);
        lemma_pow2_adds(32, 8);
        lemma_pow2_strictly_increases(40, 149);
    }
    assert(one * one >= 0x100_0000_0000 * one) by (nonlinear_arith)
        requires
            one >= 0x100_0000_0000,
    ;
    assert(w * one > v * one);
    assert(w > v) by (nonlinear_arith)
        requires
            w * one > v * one,
            one > 0,
    ;
}

/// A product with a positive number rises with the other factor.
proof fn lemma_product_rises(m: Sem, k: Bits, x: Bits, y: Bits)
    requires
        m.rounds(),
        word::finite(k),
        word::finite(x),
        word::finite(y),
        word::value(k) > 0,
        word::value(x) < word::value(y),
    ensures
        word::value(m.mul(k, x)) <= word::value(m.mul(k, y)),
{
    rounding::lemma_one();
    let a = word::value(k) * word::value(x);
    let b = word::value(k) * word::value(y);
    assert(a < b) by (nonlinear_arith)
        requires
            a == word::value(k) * word::value(x),
            b == word::value(k) * word::value(y),
            word::value(k) > 0,
            word::value(x) < word::value(y),
    ;
    reveal(Sem::rounds);
    rounding::lemma_nearest_rises(m.mul(k, x), m.mul(k, y), a, b, word::one() as int);
}

// ---------------------------------------------------------------------------
// Pitch
// ---------------------------------------------------------------------------

/// The number of octaves that a note lies above note 69, as it is rounded.
spec fn octaves(m: Sem, note: u8) -> Bits {
    m.div(m.sub(word::from_nat(note as nat), F69), F12)
}

proof fn lemma_octaves(m: Sem, note: u8)
    requires
        m.rounds(),
    ensures
        word::between(0xc180_0000, octaves(m, note), 0x4180_0000),
        0x80_0000 * rounding::gap(
            12 * word::value(octaves(m, note)),
            (note - 69) * word::one(),
        ) <= 186 * word::one(),
{
    let k = note - 69;
    let one = word::one() as int;
    let n = word::from_nat(note as nat);
    rounding::lemma_one();
    rounding::lemma_whole(note as int);
    rounding::lemma_whole(69);
    rounding::lemma_whole(12);
    rounding::lemma_whole(16);
    rounding::lemma_whole(-16);
    rounding::lemma_whole(k);
    lemma_constants();
    assert(note * one - 69 * one == k * one) by (nonlinear_arith)
        requires
            k == note - 69,
    ;
    let d = m.sub(n, F69);
    rounding::lemma_difference(m, n, F69, rounding::whole(k), rounding::whole(k));
    let r = m.div(d, F12);
    let num = (k * one) * one;
    let den = 12 * one;
    assert((-16 * one) * den <= num <= (16 * one) * den) by (nonlinear_arith)
        requires
            den == 12 * one,
            num == (k * one) * one,
            -69 <= k <= 186,
            one > 0,
    ;
    rounding::lemma_quotient(m, d, F12, 0xc180_0000, 0x4180_0000);
    let v = word::value(r);
    assert(rounding::nearest(r, num, den)) by {
        reveal(Sem::rounds);
    }
    assert(0x80_0000 * rounding::gap(v * den, num) <= 186 * (one * one)) by {
        lemma_range(k, one);
        if k > 0 {
            rounding::lemma_nearest_close(r, num, den);
        } else if k < 0 {
            rounding::lemma_nearest_negated(r, num, den);
            rounding::lemma_nearest_close(word::neg_of(r), -num, den);
            assert((-v) * den == -(v * den)) by (nonlinear_arith);
        } else {
            assert(num == 0 && word::value(F0) * den == 0) by (nonlinear_arith)
                requires
                    num == (k * one) * one,
                    k == 0,
                    word::value(F0) == 0,
            ;
            rounding::lemma_nearest_within(r, num, den, F0, F0);
            assert(v * den == 0) by (nonlinear_arith)
                requires
                    v == 0,
            ;
        }
        assert(num <= 186 * (one * one) && -num <= 186 * (one * one)) by (nonlinear_arith)
            requires
                num == (k * one) * one,
                -69 <= k <= 186,
        ;
    }
    let g = rounding::gap(12 * v, k * one);
    assert(rounding::gap(v * den, num) == g * one) by {
        assert(v * den - num == (12 * v - k * one) * one) by (nonlinear_arith)
            requires
                den == 12 * one,
                num == (k * one) * one,
        ;
        assert((-(12 * v - k * one)) * one == -((12 * v - k * one) * one)) by (nonlinear_arith);
        assert((12 * v - k * one) * one < 0 <==> 12 * v - k * one < 0) by (nonlinear_arith)
            requires
                one > 0,
        ;
    }
    assert(0x80_0000 * g <= 186 * one) by (nonlinear_arith)
        requires
            0x80_0000 * (g * one) <= 186 * (one * one),
            one > 0,
    ;
}

/// The exponents lie in the normal range.
proof fn lemma_range(k: int, one: int)
    requires
        -69 <= k <= 186,
        one == word::one(),
    ensures
        k > 0 ==> word::value(0x0080_0000) * (12 * one) <= (k * one) * one < word::value(
            0x7f80_0000,
        ) * (12 * one),
        k < 0 ==> word::value(0x0080_0000) * (12 * one) <= -((k * one) * one) < word::value(
            0x7f80_0000,
        ) * (12 * one),
{
    rounding::lemma_one();
    lemma2_to64();
    rounding::lemma_power(0x0080_0000);
    rounding::lemma_power(0x7f80_0000);
    lemma_pow2_adds(23, 126);
    lemma_pow2_adds(149, 128);
    let lo = word::value(0x0080_0000);
    let hi = word::value(0x7f80_0000);
    assert(12 * lo <= one) by {
        lemma_pow2_strictly_increases(4, 126);
        assert(12 * lo <= one) by (nonlinear_arith)
            requires
                lo == 0x80_0000,
                one == 0x80_0000 * pow2(126),
                pow2(126) >= 16,
        ;
    }
    assert(hi * 12 > 186 * one) by {
        lemma_pow2_strictly_increases(8, 128);
        assert(hi * 12 > 186 * one) by (nonlinear_arith)
            requires
                hi == one * pow2(128),
                pow2(128) >= 256,
                one > 0,
        ;
    }
    assert(k > 0 ==> lo * (12 * one) <= (k * one) * one < hi * (12 * one)) by (nonlinear_arith)
        requires
            -69 <= k <= 186,
            12 * lo <= one,
            hi * 12 > 186 * one,
            one > 0,
    ;
    assert(k < 0 ==> lo * (12 * one) <= -((k * one) * one) < hi * (12 * one)) by (nonlinear_arith)
        requires
            -69 <= k <= 186,
            12 * lo <= one,
            hi * 12 > 186 * one,
            one > 0,
    ;
}

/// The whole constants of the pitch.
proof fn lemma_constants()
    ensures
        word::value(F69) == 69 * word::one(),
        word::value(F12) == 12 * word::one(),
        word::value(F440) == 440 * word::one(),
        word::value(0x4180_0000) == 16 * word::one(),
        word::value(0xc180_0000) == -16 * word::one(),
{
    lemma2_to64();
    lemma_pow2_adds(20, 129);
    lemma_pow2_adds(17, 132);
    lemma_pow2_adds(15, 134);
    let one = word::one() as int;
    let a = pow2(129) as int;
    let b = pow2(132) as int;
    let c = pow2(134) as int;
    lemma_pow2_unfold(130);
    assert(one == 0x10_0000 * a);
    assert(one == 0x2_0000 * b);
    assert(one == 0x8000 * c);
    assert(word::units(0x4180_0000) == 0x80_0000 * (2 * a));
    assert(word::units(0xc180_0000) == 0x80_0000 * (2 * a));
    assert(word::units(F12) == 0xc0_0000 * a);
    assert(word::units(F69) == 0x8a_0000 * b);
    assert(word::units(F440) == 0xdc_0000 * c);
}

proof fn lemma_pitch(m: Sem, note: u8)
    requires
        m.rounds(),
        m.doubles(),
    ensures
        ({
            let p = 440 * word::value(m.pow(F2, octaves(m, note)));
            &&& word::finite(engine::pitch_of(m, note))
            &&& word::between(F0, engine::pitch_of(m, note), 0x4c80_0000)
            &&& p > 0
            &&& 0x80_0000 * rounding::gap(word::value(engine::pitch_of(m, note)), p) <= p
        }),
{
    lemma_octaves(m, note);
    lemma_constants();
    rounding::lemma_one();
    let p = m.pow(F2, octaves(m, note));
    assert(word::between(0x3700_0000, p, 0x4800_0000)) by {
        reveal(Sem::doubles);
    }
    rounding::lemma_between(0x3700_0000, p, 0x4800_0000);
    lemma2_to64();
    rounding::lemma_power(0x3700_0000);
    rounding::lemma_power(0x4800_0000);
    rounding::lemma_power(0x0080_0000);
    rounding::lemma_power(0x7f80_0000);
    rounding::lemma_power(0x4c80_0000);
    lemma_pow2_adds(132, 17);
    lemma_pow2_adds(149, 17);
    lemma_pow2_adds(149, 26);
    lemma_pow2_adds(149, 128);
    lemma_pow2_strictly_increases(23, 132);
    lemma_pow2_strictly_increases(26, 128);
    let one = word::one() as int;
    let v = word::value(p);
    let lo = word::value(0x0080_0000);
    let hi = word::value(0x7f80_0000);
    let most = word::value(0x4c80_0000);
    assert(most == 0x400_0000 * one && v <= 0x2_0000 * one && lo < v);
    assert(hi > most) by (nonlinear_arith)
        requires
            hi == one * pow2(128),
            pow2(128) > 0x400_0000,
            most == 0x400_0000 * one,
            one > 0,
    ;
    let num = (440 * one) * v;
    assert(lo * one <= num <= most * one && num < hi * one && 0 <= num) by (nonlinear_arith)
        requires
            num == (440 * one) * v,
            0 < lo < v <= 0x2_0000 * one,
            most == 0x400_0000 * one,
            hi > most,
            one > 0,
    ;
    let r = m.mul(F440, p);
    assert(rounding::nearest(r, num, one)) by {
        reveal(Sem::rounds);
    }
    rounding::lemma_nearest_within(r, num, one, F0, 0x4c80_0000);
    rounding::lemma_nearest_close(r, num, one);
    let w = word::value(r);
    let g = rounding::gap(w, 440 * v);
    assert(rounding::gap(w * one, num) == g * one) by {
        assert(w * one - num == (w - 440 * v) * one) by (nonlinear_arith)
            requires
                num == (440 * one) * v,
        ;
        assert((-(w - 440 * v)) * one == -((w - 440 * v) * one)) by (nonlinear_arith);
        assert((w - 440 * v) * one < 0 <==> w - 440 * v < 0) by (nonlinear_arith)
            requires
                one > 0,
        ;
    }
    assert(0x80_0000 * g <= 440 * v) by (nonlinear_arith)
        requires
            0x80_0000 * (g * one) <= num,
            num == (440 * one) * v,
            one > 0,
    ;
}

/// Every pitch is a finite value, 2^26 at most.
pub proof fn lemma_pitch_range(m: Sem, note: u8)
    requires
        m.rounds(),
        m.doubles(),
    ensures
        word::between(F0, engine::pitch_of(m, note), 0x4c80_0000),
{
    lemma_pitch(m, note);
}

/// The power of two behind a pitch lies in 2^-17 ..= 2^17.
pub proof fn lemma_pitch_exponent(m: Sem, note: u8)
    requires
        m.rounds(),
        m.doubles(),
    ensures
        ({
            let x = m.div(m.sub(word::from_nat(note as nat), F69), F12);
            let p = m.pow(F2, x);
            &&& word::finite(x)
            &&& word::finite(p)
            &&& 1real / 131072real <= reals::num(p) <= 131072real
        }),
{
    lemma_octaves(m, note);
    let x = octaves(m, note);
    rounding::lemma_between(0xc180_0000, x, 0x4180_0000);
    let p = m.pow(F2, x);
    assert(word::between(0x3700_0000, p, 0x4800_0000)) by {
        reveal(Sem::doubles);
    }
    lemma2_to64();
    reals::lemma_within(0x3700_0000, p, 0x4800_0000);
    lemma2_to64_rest();
    reals::lemma_const(0x3700_0000);
    assert(reals::num(0x3700_0000) == 8388608real / 1099511627776real);
    reals::lemma_const(0x4800_0000);
    assert(reals::num(0x4800_0000) == 8388608real / 64real);
}

/// The pitch of a note that is started depends on the note alone.
pub proof fn law_pitch_of_note(m: Sem, s: RiotCore, note: u8, vel: Bits)
    ensures
        engine::started(m, s, note, vel).voices[pool::slot_for_note(s.voices@) as int].f0
            == engine::pitch_of(m, note),
{
    pool::lemma_slots(s.voices@);
}

/// An octave doubles the pitch, to one part in ten thousand.
pub proof fn law_octave_doubles_pitch(m: Sem, note: u8)
    requires
        m.rounds(),
        m.doubles(),
        note <= 243,
    ensures
        10_000 * rounding::gap(
            word::value(engine::pitch_of(m, (note + 12) as u8)),
            2 * word::value(engine::pitch_of(m, note)),
        ) <= word::value(engine::pitch_of(m, (note + 12) as u8)),
{
    let up = (note + 12) as u8;
    let one = word::one() as int;
    rounding::lemma_one();
    lemma_octaves(m, note);
    lemma_octaves(m, up);
    lemma_pitch(m, note);
    lemma_pitch(m, up);
    let k = note - 69;
    assert((k + 12) * one == k * one + 12 * one) by (nonlinear_arith);
    let x = octaves(m, note);
    let y = octaves(m, up);
    let v = word::value(x);
    let w = word::value(y);
    assert(0x4_0000 * rounding::gap(w - v, one) <= one);
    let p = word::value(m.pow(F2, x));
    let q = word::value(m.pow(F2, y));
    assert(20_000 * rounding::gap(q, 2 * p) <= q) by {
        reveal(Sem::doubles);
    }
}

/// The pitch rises with the note.
pub proof fn law_pitch_rises(m: Sem, a: u8, b: u8)
    requires
        m.rounds(),
        m.doubles(),
        a < b,
    ensures
        word::below(engine::pitch_of(m, a), engine::pitch_of(m, b)),
{
    let one = word::one() as int;
    rounding::lemma_one();
    lemma_octaves(m, a);
    lemma_octaves(m, b);
    lemma_pitch(m, a);
    lemma_pitch(m, b);
    let j = a - 69;
    let k = b - 69;
    assert(k * one >= j * one + one) by (nonlinear_arith)
        requires
            k >= j + 1,
            one > 0,
    ;
    let x = octaves(m, a);
    let y = octaves(m, b);
    let v = word::value(x);
    let w = word::value(y);
    assert(16 * (w - v) >= one);
    let p = word::value(m.pow(F2, x));
    let q = word::value(m.pow(F2, y));
    assert(100 * q >= 102 * p) by {
        reveal(Sem::doubles);
    }
    rounding::lemma_rank_is_value(engine::pitch_of(m, a), engine::pitch_of(m, b));
}

} // verus!
