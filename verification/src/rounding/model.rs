//! Arithmetic that has all the properties of `crate::rounding` at once.
//!
//! No law rests on an empty assumption: one reading of the operations rounds
//! correctly and keeps what is asked of roots, powers, exponentials, sines and
//! hyperbolic tangents. Its basic operations round as they should; its powers
//! run along straight lines, those of two from each whole exponent to the
//! next, the others from 1 to the base.

use crate::alu::{Op, Sem};
use crate::consts::{F0, F1, F2};
use crate::rounding;
use crate::rounding::{gap, nearest};
use crate::word;
use crate::word::Bits;
use vstd::arithmetic::div_mod::*;
use vstd::arithmetic::power2::*;
use vstd::prelude::*;

verus! {

// ---------------------------------------------------------------------------
// Rounding
// ---------------------------------------------------------------------------

/// Among zero and the first `k` patterns, one nearest to `num / den` units.
spec fn best(num: int, den: int, k: nat) -> Bits
    decreases k,
{
    if k == 0 {
        F0
    } else {
        let b = best(num, den, (k - 1) as nat);
        let z = (k - 1) as u32;
        if !word::is_nan(z) && gap(word::value(z) * den, num) < gap(word::value(b) * den, num) {
            z
        } else {
            b
        }
    }
}

proof fn lemma_best(num: int, den: int, k: nat)
    requires
        k <= 0x1_0000_0000,
    ensures
        !word::is_nan(best(num, den, k)),
        forall|z: Bits|
            z < k && !word::is_nan(z) ==> gap(word::value(best(num, den, k)) * den, num) <= gap(
                #[trigger] word::value(z) * den,
                num,
            ),
    decreases k,
{
    if k > 0 {
        lemma_best(num, den, (k - 1) as nat);
    }
}

spec fn closest(num: int, den: int) -> Bits {
    best(num, den, 0x1_0000_0000)
}

proof fn lemma_closest(num: int, den: int)
    ensures
        nearest(closest(num, den), num, den),
{
    reveal(nearest);
    lemma_best(num, den, 0x1_0000_0000);
}

/// Numerator and denominator may be scaled alike.
proof fn lemma_nearest_scaled(r: Bits, num: int, den: int, k: int)
    requires
        k > 0,
    ensures
        nearest(r, num, den) <==> nearest(r, num * k, den * k),
{
    reveal(nearest);
    assert forall|z: Bits| true implies #[trigger] gap(word::value(z) * (den * k), num * k) == gap(
        word::value(z) * den,
        num,
    ) * k by {
        let v = word::value(z);
        assert(v * (den * k) == (v * den) * k) by (nonlinear_arith);
        let a = v * den;
        assert((a - num) * k == a * k - num * k && (num - a) * k == num * k - a * k)
            by (nonlinear_arith);
        assert(a * k < num * k <==> a < num) by (nonlinear_arith)
            requires
                k > 0,
        ;
    }
    if nearest(r, num, den) {
        assert forall|z: Bits| !word::is_nan(z) implies gap(
            word::value(r) * (den * k),
            num * k,
        ) <= gap(#[trigger] word::value(z) * (den * k), num * k) by {
            let a = gap(word::value(r) * den, num);
            let b = gap(word::value(z) * den, num);
            assert(a <= b);
            assert(a * k <= b * k) by (nonlinear_arith)
                requires
                    a <= b,
                    k > 0,
            ;
        }
    }
    if nearest(r, num * k, den * k) {
        assert forall|z: Bits| !word::is_nan(z) implies gap(word::value(r) * den, num) <= gap(
            #[trigger] word::value(z) * den,
            num,
        ) by {
            let a = gap(word::value(r) * den, num);
            let b = gap(word::value(z) * den, num);
            assert(gap(word::value(r) * (den * k), num * k) <= gap(
                word::value(z) * (den * k),
                num * k,
            ));
            assert(a <= b) by (nonlinear_arith)
                requires
                    a * k <= b * k,
                    k > 0,
            ;
        }
    }
}

// ---------------------------------------------------------------------------
// Roots
// ---------------------------------------------------------------------------

/// `r` serves as the square root of `x`.
spec fn is_root(r: Bits, x: Bits) -> bool {
    &&& word::finite(r)
    &&& word::value(r) > 0
    &&& 0x10_0000 * gap(word::value(r) * word::value(r), word::value(x) * word::one())
        <= word::value(x) * word::one()
}

/// Two neighbours between whose squares `num` lies.
proof fn lemma_bracket_square(num: int, k: nat) -> (p: nat)
    requires
        0 <= num < word::steps(k, 23) * word::steps(k, 23),
    ensures
        p < k,
        word::steps(p, 23) * word::steps(p, 23) <= num,
        num < word::steps(p + 1, 23) * word::steps(p + 1, 23),
    decreases k,
{
    lemma2_to64();
    let zero = word::steps(0, 23);
    assert(zero * zero == 0) by (nonlinear_arith)
        requires
            zero == 0,
    ;
    let q = (k - 1) as nat;
    if word::steps(q, 23) * word::steps(q, 23) <= num {
        q
    } else {
        lemma_bracket_square(num, q)
    }
}

proof fn lemma_root(x: Bits)
    requires
        word::between(0x2b80_0000, x, 0x5380_0000),
    ensures
        exists|r: Bits| is_root(r, x),
{
    lemma2_to64();
    rounding::lemma_one();
    rounding::lemma_far();
    rounding::lemma_between(0x2b80_0000, x, 0x5380_0000);
    let one = word::one() as int;
    let oo = one * one;
    let v = word::value(x);
    rounding::lemma_power(0x2b80_0000);
    rounding::lemma_power(0x5380_0000);
    let low = word::value(0x2b80_0000);
    let high = word::value(0x5380_0000);
    lemma_pow2_adds(109, 40);
    lemma_pow2_adds(149, 40);
    lemma_pow2_adds(20, 20);
    assert(pow2(40) == 0x100_0000_0000) by (nonlinear_arith)
        requires
            pow2(40) == pow2(20) * pow2(20),
            pow2(20) == 0x10_0000,
    ;
    let c = pow2(40) as int;
    assert(one == 0x100_0000_0000 * low && high == 0x100_0000_0000 * one) by (nonlinear_arith)
        requires
            c == 0x100_0000_0000,
            one == low * c,
            high == one * c,
    ;
    let num = v * one;
    let inf = word::value(0x7f80_0000);
    let least = word::value(0x0080_0000);
    assert(0 <= num <= 0x100_0000_0000 * oo && 0x100_0000_0000 * num >= oo) by (nonlinear_arith)
        requires
            num == v * one,
            oo == one * one,
            one > 0,
            v <= 0x100_0000_0000 * one,
            0x100_0000_0000 * v >= one,
    ;
    assert(oo > 0) by (nonlinear_arith)
        requires
            oo == one * one,
            one > 0,
    ;
    assert(num < inf * inf) by (nonlinear_arith)
        requires
            num <= 0x100_0000_0000 * oo,
            oo == one * one,
            inf >= 0x1_0000_0000 * one,
            one > 0,
    ;
    let p = lemma_bracket_square(num, 0x7f80_0000);
    let r = p as u32;
    let a = word::steps(p, 23) as int;
    let b = word::steps(p + 1, 23) as int;
    assert(word::value(r) == a);
    if p < 0x80_0000 {
        word::law_order_is_numeric(p, 0x80_0000, 23);
        word::law_order_is_numeric(p + 1, 0x80_0000, 23);
        word::law_order_is_numeric(0x80_0000, p + 1, 23);
        assert(0 <= b <= least);
        assert(0x100_0000_0000 * (b * b) < oo) by (nonlinear_arith)
            requires
                0 <= b <= least,
                0 < 0x1_0000_0000 * least <= one,
                oo == one * one,
        ;
    }
    rounding::lemma_step_gap(p);
    assert(0x80_0000 * (b * b - a * a) <= 3 * (a * a)) by (nonlinear_arith)
        requires
            0 <= a < b,
            0x80_0000 * (b - a) <= a,
    ;
    assert(a > 0) by {
        rounding::lemma_rank_is_value(F0, r);
    }
    assert(is_root(r, x));
}

// ---------------------------------------------------------------------------
// Powers of two
// ---------------------------------------------------------------------------

/// The line through the powers of two at whole exponents, 2^16 times; `v` is
/// the exponent in units.
spec fn line(v: int) -> int {
    pow2((v / (word::one() as int) + 16) as nat) * (word::one() + v % (word::one() as int))
}

/// Where on the line an exponent lies.
proof fn lemma_line(v: int) -> (f: nat)
    requires
        v >= -16 * word::one(),
    ensures
        f == v / (word::one() as int) + 16,
        (f - 16) * word::one() <= v < (f - 15) * word::one(),
        v % (word::one() as int) == v - (f - 16) * word::one(),
        pow2(f) > 0,
        line(v) == pow2(f) * (v - (f - 17) * word::one()),
        pow2(f) * word::one() <= line(v) < 2 * (pow2(f) * word::one()),
{
    rounding::lemma_one();
    let one = word::one() as int;
    let q = v / one;
    let r = v % one;
    lemma_fundamental_div_mod(v, one);
    lemma_mod_bound(v, one);
    assert(q >= -16) by (nonlinear_arith)
        requires
            v == one * q + r,
            r < one,
            v >= -16 * one,
            one > 0,
    ;
    let f = (q + 16) as nat;
    lemma_pow2_pos(f);
    let c = pow2(f) as int;
    assert((f - 16) * one == one * q) by (nonlinear_arith)
        requires
            f == q + 16,
    ;
    assert((f - 15) * one == one * q + one && (f - 17) * one == one * q - one) by (nonlinear_arith)
        requires
            f == q + 16,
    ;
    assert(c * one <= c * (one + r) < 2 * (c * one)) by (nonlinear_arith)
        requires
            0 <= r < one,
            c > 0,
    ;
    f
}

/// Where the exponent grows, so does the line.
proof fn lemma_line_rises(v: int, w: int)
    requires
        -16 * word::one() <= v <= w,
    ensures
        line(v) <= line(w),
{
    rounding::lemma_one();
    let one = word::one() as int;
    let f = lemma_line(v);
    let g = lemma_line(w);
    assert(f <= g) by (nonlinear_arith)
        requires
            (f - 16) * one <= v,
            w < (g - 15) * one,
            v <= w,
            one > 0,
    ;
    let c = pow2(f) as int;
    if f == g {
        assert(c * (v - (f - 17) * one) <= c * (w - (f - 17) * one)) by (nonlinear_arith)
            requires
                v <= w,
                c > 0,
        ;
    } else {
        lemma_pow2_unfold(f + 1);
        if f + 1 < g {
            lemma_pow2_strictly_increases(f + 1, g);
        }
        let d = pow2(g) as int;
        assert(2 * (c * one) <= d * one) by (nonlinear_arith)
            requires
                2 * c <= d,
                one > 0,
        ;
    }
}

/// How steep the line is, over a step of one at most.
proof fn lemma_line_step(v: int, w: int) -> (f: nat)
    requires
        -16 * word::one() <= v <= w <= v + word::one(),
    ensures
        pow2(f) > 0,
        pow2(f) * word::one() <= line(v) < 2 * (pow2(f) * word::one()),
        pow2(f) * (w - v) <= line(w) - line(v) <= 2 * (pow2(f) * (w - v)),
{
    rounding::lemma_one();
    let one = word::one() as int;
    let f = lemma_line(v);
    let g = lemma_line(w);
    assert(f <= g <= f + 1) by (nonlinear_arith)
        requires
            (f - 16) * one <= v < (f - 15) * one,
            (g - 16) * one <= w < (g - 15) * one,
            v <= w <= v + one,
            one > 0,
    ;
    let c = pow2(f) as int;
    let d = w - v;
    let base = (f - 17) * one;
    if f == g {
        assert(c * (w - base) - c * (v - base) == c * d && 0 <= c * d) by (nonlinear_arith)
            requires
                d == w - v,
                d >= 0,
                c > 0,
        ;
    } else {
        lemma_pow2_unfold(g);
        let top = pow2(g) as int;
        assert((g - 17) * one == base + one) by (nonlinear_arith)
            requires
                base == (f - 17) * one,
                g == f + 1,
        ;
        assert((f - 16) * one == base + one && (f - 15) * one == base + 2 * one)
            by (nonlinear_arith)
            requires
                base == (f - 17) * one,
        ;
        assert((g - 16) * one == base + 2 * one) by (nonlinear_arith)
            requires
                base == (f - 17) * one,
                g == f + 1,
        ;
        // Behind the knot the line is twice as steep.
        let h = w - base - one;
        let k = v - base;
        assert(top * h - c * k == c * (2 * h - k)) by (nonlinear_arith)
            requires
                top == 2 * c,
        ;
        assert(c * d <= c * (2 * h - k) <= 2 * (c * d)) by (nonlinear_arith)
            requires
                d <= 2 * h - k <= 2 * d,
                c > 0,
        ;
    }
    f
}

/// One more in the exponent doubles.
proof fn lemma_line_doubles(v: int)
    requires
        v >= -16 * word::one(),
    ensures
        line(v + word::one()) == 2 * line(v),
{
    rounding::lemma_one();
    let one = word::one() as int;
    let f = lemma_line(v);
    let g = lemma_line(v + one);
    assert(g == f + 1) by (nonlinear_arith)
        requires
            (f - 16) * one <= v < (f - 15) * one,
            (g - 16) * one <= v + one < (g - 15) * one,
            one > 0,
    ;
    lemma_pow2_unfold(g);
    let c = pow2(f) as int;
    let top = pow2(g) as int;
    let k = v - (f - 17) * one;
    assert(v + one - (g - 17) * one == k) by (nonlinear_arith)
        requires
            k == v - (f - 17) * one,
            g == f + 1,
    ;
    assert(top * k == 2 * (c * k)) by (nonlinear_arith)
        requires
            top == 2 * c,
    ;
}

/// The exponents for which powers of two are read off the line.
spec fn wide(x: Bits) -> bool {
    word::between(0xc180_0000, x, 0x4180_0000)
}

spec fn power_of_two(x: Bits) -> Bits {
    closest(line(word::value(x)), 0x1_0000)
}

proof fn lemma_wide(x: Bits)
    requires
        wide(x),
    ensures
        -16 * word::one() <= word::value(x) <= 16 * word::one(),
{
    lemma2_to64();
    rounding::lemma_one();
    rounding::lemma_between(0xc180_0000, x, 0x4180_0000);
    rounding::lemma_power(0x4180_0000);
    lemma_pow2_adds(149, 4);
    assert(word::value(0xc180_0000) == -word::value(0x4180_0000));
}

proof fn lemma_power_of_two(x: Bits)
    requires
        wide(x),
    ensures
        word::between(0x3700_0000, power_of_two(x), 0x4800_0000),
        line(word::value(x)) > 0,
        0x80_0000 * gap(word::value(power_of_two(x)) * 0x1_0000, line(word::value(x))) <= line(
            word::value(x),
        ),
{
    lemma2_to64();
    rounding::lemma_one();
    rounding::lemma_far();
    lemma_wide(x);
    let one = word::one() as int;
    let v = word::value(x);
    let num = line(v);
    let f = lemma_line(v);
    assert(f <= 32) by (nonlinear_arith)
        requires
            (f - 16) * one <= v,
            v <= 16 * one,
            one > 0,
    ;
    if f < 32 {
        lemma_pow2_strictly_increases(f, 32);
    }
    let c = pow2(f) as int;
    assert(one <= c * one <= 0x1_0000_0000 * one) by (nonlinear_arith)
        requires
            1 <= c <= 0x1_0000_0000,
            one > 0,
    ;
    rounding::lemma_power(0x3700_0000);
    rounding::lemma_power(0x4800_0000);
    lemma_pow2_adds(132, 17);
    lemma_pow2_adds(149, 17);
    lemma_closest(num, 0x1_0000);
    rounding::lemma_nearest_within(power_of_two(x), num, 0x1_0000, 0x3700_0000, 0x4800_0000);
    rounding::lemma_nearest_close(power_of_two(x), num, 0x1_0000);
}

proof fn lemma_doubles(x: Bits, y: Bits)
    requires
        wide(x),
        wide(y),
        0x4_0000 * gap(word::value(y) - word::value(x), word::one() as int) <= word::one(),
    ensures
        20_000 * gap(word::value(power_of_two(y)), 2 * word::value(power_of_two(x)))
            <= word::value(power_of_two(y)),
{
    rounding::lemma_one();
    lemma_wide(x);
    lemma_wide(y);
    lemma_power_of_two(x);
    lemma_power_of_two(y);
    let one = word::one() as int;
    let v = word::value(x);
    let w = word::value(y);
    lemma_line_doubles(v);
    let t = v + one;
    let a = line(t);
    let b = line(w);
    let (lo, hi) = if w < t {
        (w, t)
    } else {
        (t, w)
    };
    let f = lemma_line_step(lo, hi);
    let c = pow2(f) as int;
    let d = hi - lo;
    assert(0x4_0000 * (c * d) <= c * one) by (nonlinear_arith)
        requires
            0x4_0000 * d <= one,
            c > 0,
    ;
    assert(0x2_0000 * gap(a, b) <= line(lo));
}

proof fn lemma_grows(x: Bits, y: Bits)
    requires
        wide(x),
        wide(y),
        16 * (word::value(y) - word::value(x)) >= word::one(),
    ensures
        100 * word::value(power_of_two(y)) >= 102 * word::value(power_of_two(x)),
{
    rounding::lemma_one();
    lemma_wide(x);
    lemma_wide(y);
    lemma_power_of_two(x);
    lemma_power_of_two(y);
    let one = word::one() as int;
    let v = word::value(x);
    let w = word::value(y);
    if w <= v + one {
        let f = lemma_line_step(v, w);
        let c = pow2(f) as int;
        let d = w - v;
        assert(16 * (c * d) >= c * one) by (nonlinear_arith)
            requires
                16 * d >= one,
                c > 0,
        ;
        assert(32 * (line(w) - line(v)) >= line(v));
    } else {
        lemma_line_doubles(v);
        lemma_line_rises(v + one, w);
    }
}

// ---------------------------------------------------------------------------
// Other powers
// ---------------------------------------------------------------------------

spec fn power(b: Bits, x: Bits) -> Bits {
    if b == F2 && wide(x) {
        power_of_two(x)
    } else if word::between(F0, x, F1) {
        closest(chord(b, x), word::one() as int)
    } else {
        F1
    }
}

/// The line from 1 to the base, over exponents 0 ..= 1, in units squared.
spec fn chord(b: Bits, x: Bits) -> int {
    word::one() * word::one() + (word::value(b) - word::one()) * word::value(x)
}

proof fn lemma_two()
    ensures
        word::value(F2) == 2 * word::one(),
{
    lemma2_to64();
    rounding::lemma_power(F2);
    lemma_pow2_adds(149, 1);
}

/// From 0 to 1 both kinds of power follow the chord.
proof fn lemma_chord(b: Bits, x: Bits)
    requires
        word::between(F0, x, F1),
    ensures
        nearest(power(b, x), chord(b, x), word::one() as int),
        0 <= word::value(x) <= word::one(),
{
    lemma2_to64();
    rounding::lemma_one();
    rounding::lemma_between(F0, x, F1);
    let one = word::one() as int;
    let v = word::value(x);
    if b == F2 {
        lemma_two();
        let p = power_of_two(x);
        if v < one {
            lemma_fundamental_div_mod_converse(v, one, 0, v);
            let c = pow2(16) as int;
            assert(line(v) == c * (one + v));
        } else {
            lemma_fundamental_div_mod_converse(v, one, 1, 0);
            let c = pow2(17) as int;
            assert(line(v) == c * one);
        }
        assert(line(v) == 0x1_0000 * (one + v));
        lemma_closest(line(v), 0x1_0000);
        lemma_nearest_scaled(p, one + v, 1, 0x1_0000);
        lemma_nearest_scaled(p, one + v, 1, one);
        assert((one + v) * 0x1_0000 == line(v));
        assert((one + v) * one == chord(b, x)) by (nonlinear_arith)
            requires
                chord(b, x) == one * one + (2 * one - one) * v,
        ;
        assert(1 * one == one);
    } else {
        lemma_closest(chord(b, x), one);
    }
}

/// Bases from 1 to 32768.
proof fn lemma_base(b: Bits)
    requires
        word::between(F1, b, 0x4700_0000),
    ensures
        word::one() <= word::value(b) <= 0x8000 * word::one(),
        word::finite(b),
{
    lemma2_to64();
    rounding::lemma_one();
    rounding::lemma_between(F1, b, 0x4700_0000);
    rounding::lemma_power(0x4700_0000);
    lemma_pow2_adds(149, 15);
}

proof fn lemma_in_range(b: Bits, x: Bits)
    requires
        word::between(F1, b, 0x4700_0000),
        word::between(F0, x, F1),
    ensures
        word::between(F1, power(b, x), b),
        word::one() <= word::value(power(b, x)) <= word::value(b),
        word::value(x) == 0 ==> power(b, x) == F1,
{
    rounding::lemma_one();
    lemma_base(b);
    lemma_chord(b, x);
    let one = word::one() as int;
    let k = word::value(b);
    let v = word::value(x);
    let p = power(b, x);
    let num = chord(b, x);
    assert(one * one <= num <= k * one) by (nonlinear_arith)
        requires
            num == one * one + (k - one) * v,
            one <= k,
            0 <= v <= one,
    ;
    rounding::lemma_nearest_within(p, num, one, F1, b);
    if v == 0 {
        assert((k - one) * v == 0) by (nonlinear_arith)
            requires
                v == 0,
        ;
        rounding::lemma_nearest_within(p, num, one, F1, F1);
        rounding::lemma_same_value(p, F1);
    }
}

proof fn lemma_rises(b: Bits, x: Bits, y: Bits)
    requires
        word::between(F1, b, 0x4700_0000),
        word::between(F0, x, F1),
        word::between(F0, y, F1),
        word::rank(x) <= word::rank(y),
    ensures
        word::rank(power(b, x)) <= word::rank(power(b, y)),
{
    rounding::lemma_one();
    lemma_base(b);
    lemma_chord(b, x);
    lemma_chord(b, y);
    rounding::lemma_rank_is_value(x, y);
    let one = word::one() as int;
    let k = word::value(b);
    let v = word::value(x);
    let w = word::value(y);
    if v < w && k > one {
        assert(chord(b, x) < chord(b, y)) by (nonlinear_arith)
            requires
                chord(b, x) == one * one + (k - one) * v,
                chord(b, y) == one * one + (k - one) * w,
                v < w,
                k > one,
        ;
        rounding::lemma_nearest_rises(power(b, x), power(b, y), chord(b, x), chord(b, y), one);
    } else if v < w {
        lemma_two();
        assert((k - one) * v == 0 && (k - one) * w == 0) by (nonlinear_arith)
            requires
                k == one,
        ;
        assert(chord(b, x) == chord(b, y));
    }
    rounding::lemma_rank_is_value(power(b, x), power(b, y));
}

proof fn lemma_powers_grow(b: Bits, x: Bits, y: Bits)
    requires
        word::between(0x4180_0000, b, 0x4700_0000),
        word::between(F0, x, F1),
        word::between(F0, y, F1),
        100 * (word::value(y) - word::value(x)) >= word::one(),
    ensures
        200 * word::value(power(b, y)) >= 201 * word::value(power(b, x)),
{
    lemma2_to64();
    rounding::lemma_one();
    rounding::lemma_far();
    lemma_base(b);
    rounding::lemma_between(0x4180_0000, b, 0x4700_0000);
    rounding::lemma_power(0x4180_0000);
    lemma_pow2_adds(149, 4);
    lemma_chord(b, x);
    lemma_chord(b, y);
    let one = word::one() as int;
    let oo = one * one;
    let k = word::value(b);
    let v = word::value(x);
    let w = word::value(y);
    let a = chord(b, x);
    let c = chord(b, y);
    let least = word::value(0x0080_0000);
    let inf = word::value(0x7f80_0000);
    let ko = k * one;
    let ev = (k - one) * v;
    let ew = (k - one) * w;
    assert(0 <= ev <= ko - oo && 0 <= ew <= ko - oo) by (nonlinear_arith)
        requires
            ev == (k - one) * v,
            ew == (k - one) * w,
            ko == k * one,
            oo == one * one,
            0 <= v <= one,
            0 <= w <= one,
            k >= one,
    ;
    assert(100 * (ew - ev) >= ko - oo) by (nonlinear_arith)
        requires
            ev == (k - one) * v,
            ew == (k - one) * w,
            ko == k * one,
            oo == one * one,
            100 * (w - v) >= one,
            k >= one,
    ;
    assert(16 * oo <= ko <= 0x8000 * oo && oo > 0) by (nonlinear_arith)
        requires
            ko == k * one,
            oo == one * one,
            16 * one <= k <= 0x8000 * one,
            one > 0,
    ;
    assert(least * one <= oo && 0x8000 * oo < inf * one) by (nonlinear_arith)
        requires
            0 < 0x1_0000_0000 * least <= one,
            inf >= 0x1_0000_0000 * one,
            oo == one * one,
            one > 0,
    ;
    rounding::lemma_nearest_close(power(b, x), a, one);
    rounding::lemma_nearest_close(power(b, y), c, one);
    let p = word::value(power(b, x));
    let q = word::value(power(b, y));
    assert(1000 * c >= 1009 * a);
    assert(200 * (q * one) >= 201 * (p * one));
    assert(200 * q >= 201 * p) by (nonlinear_arith)
        requires
            200 * (q * one) >= 201 * (p * one),
            one > 0,
    ;
}

proof fn lemma_tilts(b: Bits, x: Bits)
    requires
        word::between(F1, b, 0x4180_0000),
        word::between(0xc000_0000, x, 0x4000_0000),
    ensures
        word::between(0x3b00_0000, power(b, x), 0x4400_0000),
{
    lemma2_to64();
    rounding::lemma_one();
    if b == F2 {
        rounding::lemma_between(0xc000_0000, x, 0x4000_0000);
        lemma_two();
        assert(word::value(0xc000_0000) == -word::value(0x4000_0000));
        let one = word::one() as int;
        let v = word::value(x);
        lemma_fundamental_div_mod_converse(-2 * one, one, -2, 0);
        lemma_fundamental_div_mod_converse(2 * one, one, 2, 0);
        let low = pow2(14) as int;
        let high = pow2(18) as int;
        assert(line(-2 * one) == low * one && line(2 * one) == high * one);
        lemma_line_rises(-2 * one, v);
        lemma_line_rises(v, 2 * one);
        rounding::lemma_power(0x3b00_0000);
        rounding::lemma_power(0x4400_0000);
        lemma_pow2_adds(140, 9);
        lemma_pow2_adds(149, 9);
        lemma_closest(line(v), 0x1_0000);
        rounding::lemma_nearest_within(
            power_of_two(x),
            line(v),
            0x1_0000,
            0x3b00_0000,
            0x4400_0000,
        );
    } else if word::between(F0, x, F1) {
        lemma_in_range(b, x);
    }
}

// ---------------------------------------------------------------------------
// All of them
// ---------------------------------------------------------------------------

/// The reading.
spec fn model() -> Sem {
    Sem {
        apply: |op: Op, x: Bits, y: Bits|
            {
                let v = word::value(x);
                let w = word::value(y);
                match op {
                    Op::Add => if v + w == 0 && !(word::negative(x) && word::negative(y)) {
                        F0
                    } else {
                        closest(v + w, 1)
                    },
                    Op::Sub => closest(v - w, 1),
                    Op::Mul => closest(v * w, word::one() as int),
                    Op::Div => closest(v * word::one(), w),
                    Op::Pow => power(x, y),
                    Op::Sqrt => choose|r: Bits| is_root(r, x),
                    Op::Exp => F1,
                    _ => F0,
                }
            },
    }
}

proof fn lemma_rounds()
    ensures
        model().rounds(),
{
    let m = model();
    assert forall|x: Bits, y: Bits| word::finite(x) && word::finite(y) implies nearest(
        #[trigger] m.add(x, y),
        word::value(x) + word::value(y),
        1,
    ) by {
        let v = word::value(x) + word::value(y);
        lemma_closest(v, 1);
        rounding::lemma_one();
        reveal(nearest);
    }
    assert forall|x: Bits, y: Bits| word::finite(x) && word::finite(y) implies nearest(
        #[trigger] m.sub(x, y),
        word::value(x) - word::value(y),
        1,
    ) by {
        lemma_closest(word::value(x) - word::value(y), 1);
    }
    assert forall|x: Bits, y: Bits| word::finite(x) && word::finite(y) implies nearest(
        #[trigger] m.mul(x, y),
        word::value(x) * word::value(y),
        word::one() as int,
    ) by {
        lemma_closest(word::value(x) * word::value(y), word::one() as int);
    }
    assert forall|x: Bits, y: Bits|
        word::finite(x) && word::finite(y) && word::value(y) > 0 implies nearest(
        #[trigger] m.div(x, y),
        word::value(x) * word::one(),
        word::value(y),
    ) by {
        lemma_closest(word::value(x) * word::one(), word::value(y));
    }
    assert(m.rounds()) by {
        reveal(Sem::rounds);
    }
}

proof fn lemma_powers()
    ensures
        model().powers_in_range(),
        model().powers_rise(),
        model().powers_grow(),
        model().powers_tilt(),
        model().doubles(),
{
    let m = model();
    assert(m.powers_in_range()) by {
        reveal(Sem::powers_in_range);
        assert forall|b: Bits, x: Bits|
            word::between(F1, b, 0x4700_0000) && word::between(F0, x, F1) implies {
            let p = #[trigger] m.pow(b, x);
            &&& word::between(F1, p, 0x4780_0000)
            &&& 100_000 * word::value(p) <= 100_001 * word::value(b)
        } by {
            lemma_in_range(b, x);
        }
        assert forall|b: Bits, x: Bits|
            word::between(F1, b, 0x4700_0000) && word::magnitude(x) == 0 implies #[trigger] m.pow(
            b,
            x,
        ) == F1 by {
            rounding::lemma_rank_is_value(F0, x);
            rounding::lemma_one();
            lemma_in_range(b, x);
        }
    }
    assert(m.powers_rise()) by {
        reveal(Sem::powers_rise);
        assert forall|b: Bits, x: Bits, y: Bits|
            word::between(F1, b, 0x4700_0000) && word::between(F0, x, F1) && word::between(
                F0,
                y,
                F1,
            ) && word::rank(x) <= word::rank(y) implies word::rank(#[trigger] m.pow(b, x))
            <= word::rank(#[trigger] m.pow(b, y)) by {
            lemma_rises(b, x, y);
        }
    }
    assert(m.powers_grow()) by {
        reveal(Sem::powers_grow);
        assert forall|b: Bits, x: Bits, y: Bits|
            word::between(0x4180_0000, b, 0x4700_0000) && word::between(F0, x, F1)
                && word::between(F0, y, F1) && 100 * (word::value(y) - word::value(x))
                >= word::one() implies 200 * word::value(#[trigger] m.pow(b, y)) >= 201
            * word::value(#[trigger] m.pow(b, x)) by {
            lemma_powers_grow(b, x, y);
        }
    }
    assert(m.powers_tilt()) by {
        reveal(Sem::powers_tilt);
        assert forall|b: Bits, x: Bits|
            word::between(F1, b, 0x4180_0000) && word::between(
                0xc000_0000,
                x,
                0x4000_0000,
            ) implies word::between(0x3b00_0000, #[trigger] m.pow(b, x), 0x4400_0000) by {
            lemma_tilts(b, x);
        }
    }
    assert(m.doubles()) by {
        reveal(Sem::doubles);
        assert forall|x: Bits| wide(x) implies word::between(
            0x3700_0000,
            #[trigger] m.pow(F2, x),
            0x4800_0000,
        ) by {
            lemma_power_of_two(x);
        }
        assert forall|x: Bits, y: Bits|
            wide(x) && wide(y) && 0x4_0000 * gap(
                word::value(y) - word::value(x),
                word::one() as int,
            ) <= word::one() implies 20_000 * gap(
            word::value(#[trigger] m.pow(F2, y)),
            2 * word::value(#[trigger] m.pow(F2, x)),
        ) <= word::value(m.pow(F2, y)) by {
            lemma_doubles(x, y);
        }
        assert forall|x: Bits, y: Bits|
            wide(x) && wide(y) && 16 * (word::value(y) - word::value(x))
                >= word::one() implies 100 * word::value(#[trigger] m.pow(F2, y)) >= 102
            * word::value(#[trigger] m.pow(F2, x)) by {
            lemma_grows(x, y);
        }
    }
}

/// One reading of the operations has every property that the laws take of
/// arithmetic, all at once.
pub proof fn law_sound_arithmetic_exists()
    ensures
        exists|m: Sem|
            {
                &&& #[trigger] m.rounds()
                &&& m.roots()
                &&& m.powers_in_range()
                &&& m.powers_rise()
                &&& m.powers_grow()
                &&& m.powers_tilt()
                &&& m.doubles()
                &&& m.decays()
                &&& m.sines_bounded()
                &&& m.bends_from_zero()
                &&& m.clips()
            },
{
    let m = model();
    lemma_rounds();
    lemma_powers();
    assert(m.roots()) by {
        reveal(Sem::roots);
        assert forall|x: Bits| word::between(0x2b80_0000, x, 0x5380_0000) implies is_root(
            #[trigger] m.sqrt(x),
            x,
        ) by {
            lemma_root(x);
        }
    }
    assert(m.decays()) by {
        reveal(Sem::decays);
    }
    assert(m.sines_bounded()) by {
        reveal(Sem::sines_bounded);
    }
}

} // verus!
