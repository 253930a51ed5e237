//! Patterns as real numbers, and how far a rounded result lies from the exact
//! one.

use crate::alu::Sem;
use crate::consts::{F0, F1};
use crate::rounding;
use crate::rounding::{gap, nearest};
use crate::word;
use crate::word::Bits;
use vstd::arithmetic::div_mod::*;
use vstd::arithmetic::power2::*;
use vstd::prelude::*;

verus! {

/// The number that a pattern stands for.
pub open spec fn num(x: Bits) -> real {
    (word::value(x) as real) / (word::one() as real)
}

/// How far two numbers lie apart.
pub open spec fn dist(a: real, b: real) -> real {
    if a < b {
        b - a
    } else {
        a - b
    }
}

/// The size of a number.
pub open spec fn size(a: real) -> real {
    dist(a, 0real)
}

/// The smallest positive value.
pub open spec fn tiny() -> real {
    1real / (word::one() as real)
}

/// How far a rounded result may lie from `x`: one part in 2^23, or the smallest
/// positive value.
pub open spec fn slack(x: real) -> real {
    size(x) / 8388608real + tiny()
}

/// 2^100: results up to here are far from overflow.
pub open spec fn vast() -> real {
    1267650600228229401496703205376real
}

// ---------------------------------------------------------------------------
// Patterns and numbers
// ---------------------------------------------------------------------------

/// Numbers are ordered as patterns are.
pub proof fn lemma_num(x: Bits, y: Bits)
    ensures
        num(x) < num(y) <==> word::rank(x) < word::rank(y),
        num(x) == num(y) <==> word::rank(x) == word::rank(y),
        num(x) == 0real <==> word::rank(x) == 0,
        num(x) > 0real <==> word::rank(x) > 0,
        num(F0) == 0real,
        num(F1) == 1real,
{
    rounding::lemma_one();
    rounding::lemma_rank_is_value(x, y);
    let one = word::one() as real;
    let a = word::value(x) as real;
    let b = word::value(y) as real;
    assert(a / one < b / one <==> a < b) by (nonlinear_arith)
        requires
            one > 0real,
    ;
    assert(a / one == b / one <==> a == b) by (nonlinear_arith)
        requires
            one > 0real,
    ;
    assert(a / one == 0real <==> a == 0real) by (nonlinear_arith)
        requires
            one > 0real,
    ;
    assert(a / one > 0real <==> a > 0real) by (nonlinear_arith)
        requires
            one > 0real,
    ;
    assert(0real / one == 0real && one / one == 1real) by (nonlinear_arith)
        requires
            one > 0real,
    ;
}

/// What lies between two patterns lies between their numbers.
pub proof fn lemma_within(lo: Bits, x: Bits, hi: Bits)
    ensures
        word::between(lo, x, hi) <==> {
            &&& !word::is_nan(lo)
            &&& !word::is_nan(x)
            &&& !word::is_nan(hi)
            &&& num(lo) <= num(x) <= num(hi)
        },
        word::between(lo, x, hi) && word::finite(lo) && word::finite(hi) ==> word::finite(x),
        num(F0) == 0real,
        num(F1) == 1real,
{
    lemma_num(lo, x);
    lemma_num(x, hi);
}

pub proof fn lemma_product(a: int, b: int)
    ensures
        (a * b) as real == (a as real) * (b as real),
{
    assert((a * b) as real == (a as real) * (b as real)) by (nonlinear_arith);
}

/// A value counted in ones, times `den`, is the number `n / den`.
pub proof fn lemma_counted(x: Bits, n: int, den: int)
    requires
        den > 0,
        den * word::value(x) == n * word::one(),
    ensures
        num(x) == (n as real) / (den as real),
        num(x) * (den as real) == n as real,
{
    rounding::lemma_one();
    let one = word::one() as real;
    let v = word::value(x) as real;
    let d = den as real;
    let k = n as real;
    lemma_product(den, word::value(x));
    lemma_product(n, word::one() as int);
    assert(v / one == k / d) by (nonlinear_arith)
        requires
            d * v == k * one,
            one > 0real,
            d > 0real,
    ;
    assert((k / d) * d == k) by (nonlinear_arith)
        requires
            d > 0real,
    ;
}

/// A constant: its significand over a power of two.
pub proof fn lemma_const(x: Bits)
    requires
        0x80_0000 <= x < 0x4b00_0000,
    ensures
        word::finite(x),
        num(x) == ((0x80_0000 + x % 0x80_0000) as real) / (pow2(
            (150 - x / 0x80_0000) as nat,
        ) as real),
{
    lemma2_to64();
    rounding::lemma_one();
    let e = x as int / 0x80_0000;
    let f = 0x80_0000 + x as int % 0x80_0000;
    let a = pow2((e - 1) as nat) as int;
    let b = pow2((150 - e) as nat) as int;
    lemma_pow2_adds((e - 1) as nat, (150 - e) as nat);
    lemma_pow2_pos((150 - e) as nat);
    assert(word::value(x) == f * a);
    assert(b * (f * a) == f * (a * b)) by (nonlinear_arith);
    lemma_counted(x, f, b);
}

/// Multiples of two values compare as those of their numbers do.
pub proof fn lemma_multiples(x: Bits, y: Bits, a: int, b: int)
    ensures
        a * word::value(x) <= b * word::value(y) <==> (a as real) * num(x) <= (b as real) * num(y),
{
    rounding::lemma_one();
    let one = word::one() as real;
    let v = word::value(x) as real;
    let w = word::value(y) as real;
    let c = a as real;
    let d = b as real;
    lemma_product(a, word::value(x));
    lemma_product(b, word::value(y));
    assert(c * (v / one) <= d * (w / one) <==> c * v <= d * w) by (nonlinear_arith)
        requires
            one > 0real,
    ;
}

pub proof fn lemma_tiny()
    ensures
        0real < tiny() <= 1real / 1_000_000_000_000_000_000_000_000real,
{
    rounding::lemma_one();
    lemma_vast();
    let one = word::one() as real;
    let v = vast();
    assert(one >= v * 100_000_000_000_000real);
    let t = tiny();
    assert(t * one == 1real) by (nonlinear_arith)
        requires
            t == 1real / one,
            one > 0real,
    ;
    assert(t > 0real) by (nonlinear_arith)
        requires
            t * one == 1real,
            one > 0real,
    ;
    assert(t * 1_000_000_000_000_000_000_000_000real <= 1real) by (nonlinear_arith)
        requires
            t * one == 1real,
            t > 0real,
            one >= 1_000_000_000_000_000_000_000_000real,
    ;
}

/// 2^100 in integers, against the largest values.
proof fn lemma_vast()
    ensures
        word::one() as real >= vast() * 100_000_000_000_000real,
        word::value(0x7180_0000) as real == vast() * (word::one() as real),
        word::value(0x7f80_0000) as real >= 256real * (vast() * (word::one() as real)),
{
    lemma2_to64();
    rounding::lemma_power(0x7180_0000);
    rounding::lemma_power(0x7200_0000);
    rounding::lemma_power(0x7f80_0000);
    lemma_pow2_adds(50, 50);
    lemma_pow2_adds(25, 25);
    lemma_pow2_adds(149, 100);
    lemma_pow2_adds(100, 49);
    lemma_pow2_adds(25, 24);
    lemma_pow2_adds(249, 28);
    let a = pow2(25) as int;
    let b = pow2(50) as int;
    let c = pow2(100) as int;
    let d = pow2(49) as int;
    let e = pow2(24) as int;
    let one = word::one() as int;
    assert(b == 0x4_0000_0000_0000) by (nonlinear_arith)
        requires
            b == a * a,
            a == 0x200_0000,
    ;
    assert(c == 1267650600228229401496703205376) by (nonlinear_arith)
        requires
            c == b * b,
            b == 0x4_0000_0000_0000,
    ;
    assert(d == 0x2_0000_0000_0000) by (nonlinear_arith)
        requires
            d == a * e,
            a == 0x200_0000,
            e == 0x100_0000,
    ;
    assert(one >= 100_000_000_000_000 * c) by (nonlinear_arith)
        requires
            one == c * d,
            d == 0x2_0000_0000_0000,
            c > 0,
    ;
    assert(word::value(0x7180_0000) == 1267650600228229401496703205376 * one) by (nonlinear_arith)
        requires
            word::value(0x7180_0000) == one * c,
            c == 1267650600228229401496703205376,
    ;
    let f = pow2(28) as int;
    assert(f == 0x1000_0000);
    assert(word::value(0x7f80_0000) >= 256 * word::value(0x7180_0000)) by (nonlinear_arith)
        requires
            word::value(0x7f80_0000) == word::value(0x7180_0000) * f,
            f == 0x1000_0000,
            word::value(0x7180_0000) > 0,
    ;
}

// ---------------------------------------------------------------------------
// Rounded results
// ---------------------------------------------------------------------------

/// A rounded result, against the exact one `x`.
proof fn lemma_result(r: Bits, n: int, den: int, x: real)
    requires
        nearest(r, n, den),
        den > 0,
        n as real == x * (den as real) * (word::one() as real),
        size(x) <= vast(),
    ensures
        word::finite(r),
        dist(num(r), x) <= slack(x),
{
    rounding::lemma_one();
    lemma_vast();
    let one = word::one() as real;
    let d = den as real;
    let e = 1real / 8388608real;
    let top = word::value(0x7f80_0000);
    let t = top as real;
    let big = word::value(0x7180_0000);
    let low = word::neg_of(0x7180_0000);
    assert(word::value(low) == -big);
    let v = vast();
    assert(-(v * one) * d <= x * d * one <= (v * one) * d) by (nonlinear_arith)
        requires
            -v <= x <= v,
            d > 0real,
            one > 0real,
    ;
    lemma_product(big, den);
    assert((-big) * den == -(big * den)) by (nonlinear_arith);
    assert(-(v * one) * d == -((v * one) * d)) by (nonlinear_arith);
    rounding::lemma_nearest_within(r, n, den, low, 0x7180_0000);
    assert(gap(n, 0) < top * den) by {
        lemma_product(top, den);
        assert(t * d > (v * one) * d) by (nonlinear_arith)
            requires
                t >= 256real * (v * one),
                v * one > 0real,
                d > 0real,
        ;
    }
    rounding::lemma_near(r, n, den);
    let w = word::value(r);
    let wr = w as real;
    let g = gap(w * den, n);
    lemma_product(w, den);
    let a = num(r);
    assert(wr == a * one) by (nonlinear_arith)
        requires
            a == wr / one,
            one > 0real,
    ;
    let o = dist(a, x);
    assert(g as real == o * d * one) by (nonlinear_arith)
        requires
            g as real == wr * d - x * d * one || g as real == x * d * one - wr * d,
            g as real >= 0real,
            wr == a * one,
            o == a - x || o == x - a,
            o >= 0real,
            d > 0real,
            one > 0real,
    ;
    let s = size(x);
    assert(gap(n, 0) as real == s * d * one) by (nonlinear_arith)
        requires
            gap(n, 0) as real == x * d * one || gap(n, 0) as real == -(x * d * one),
            gap(n, 0) as real >= 0real,
            s == x || s == -x,
            s >= 0real,
            d > 0real,
            one > 0real,
    ;
    let u = tiny();
    assert(u * one == 1real) by (nonlinear_arith)
        requires
            u == 1real / one,
            one > 0real,
    ;
    assert(8388608real * (g as real) <= gap(n, 0) as real + 8388608real * d);
    assert(o <= s * e + u) by (nonlinear_arith)
        requires
            8388608real * (o * d * one) <= s * d * one + 8388608real * d,
            u * one == 1real,
            e == 1real / 8388608real,
            d > 0real,
            one > 0real,
    ;
}

pub proof fn lemma_add(m: Sem, x: Bits, y: Bits)
    requires
        m.rounds(),
        word::finite(x),
        word::finite(y),
        size(num(x) + num(y)) <= vast(),
    ensures
        word::finite(m.add(x, y)),
        dist(num(m.add(x, y)), num(x) + num(y)) <= slack(num(x) + num(y)),
{
    rounding::lemma_one();
    let one = word::one() as real;
    let a = word::value(x) as real;
    let b = word::value(y) as real;
    let n = word::value(x) + word::value(y);
    assert(n as real == (num(x) + num(y)) * (1int as real) * one) by (nonlinear_arith)
        requires
            n as real == a + b,
            num(x) == a / one,
            num(y) == b / one,
            one > 0real,
    ;
    assert(nearest(m.add(x, y), n, 1)) by {
        reveal(Sem::rounds);
    }
    lemma_result(m.add(x, y), n, 1, num(x) + num(y));
}

pub proof fn lemma_sub(m: Sem, x: Bits, y: Bits)
    requires
        m.rounds(),
        word::finite(x),
        word::finite(y),
        size(num(x) - num(y)) <= vast(),
    ensures
        word::finite(m.sub(x, y)),
        dist(num(m.sub(x, y)), num(x) - num(y)) <= slack(num(x) - num(y)),
{
    rounding::lemma_one();
    let one = word::one() as real;
    let a = word::value(x) as real;
    let b = word::value(y) as real;
    let n = word::value(x) - word::value(y);
    assert(n as real == (num(x) - num(y)) * (1int as real) * one) by (nonlinear_arith)
        requires
            n as real == a - b,
            num(x) == a / one,
            num(y) == b / one,
            one > 0real,
    ;
    assert(nearest(m.sub(x, y), n, 1)) by {
        reveal(Sem::rounds);
    }
    lemma_result(m.sub(x, y), n, 1, num(x) - num(y));
}

pub proof fn lemma_mul(m: Sem, x: Bits, y: Bits)
    requires
        m.rounds(),
        word::finite(x),
        word::finite(y),
        size(num(x) * num(y)) <= vast(),
    ensures
        word::finite(m.mul(x, y)),
        dist(num(m.mul(x, y)), num(x) * num(y)) <= slack(num(x) * num(y)),
{
    rounding::lemma_one();
    let one = word::one() as real;
    let a = word::value(x) as real;
    let b = word::value(y) as real;
    let n = word::value(x) * word::value(y);
    assert(n as real == a * b) by (nonlinear_arith)
        requires
            n == word::value(x) * word::value(y),
            a == word::value(x) as real,
            b == word::value(y) as real,
    ;
    assert(n as real == (num(x) * num(y)) * one * one) by (nonlinear_arith)
        requires
            n as real == a * b,
            num(x) == a / one,
            num(y) == b / one,
            one > 0real,
    ;
    assert(nearest(m.mul(x, y), n, word::one() as int)) by {
        reveal(Sem::rounds);
    }
    lemma_result(m.mul(x, y), n, word::one() as int, num(x) * num(y));
}

pub proof fn lemma_div(m: Sem, x: Bits, y: Bits)
    requires
        m.rounds(),
        word::finite(x),
        word::finite(y),
        num(y) > 0real,
        size(num(x) / num(y)) <= vast(),
    ensures
        word::finite(m.div(x, y)),
        dist(num(m.div(x, y)), num(x) / num(y)) <= slack(num(x) / num(y)),
{
    rounding::lemma_one();
    lemma_num(F0, y);
    rounding::lemma_rank_is_value(F0, y);
    let one = word::one() as real;
    let a = word::value(x) as real;
    let b = word::value(y) as real;
    let n = word::value(x) * word::one();
    assert(n as real == a * one) by (nonlinear_arith)
        requires
            n == word::value(x) * word::one(),
            a == word::value(x) as real,
            one == word::one() as real,
    ;
    assert(n as real == (num(x) / num(y)) * b * one) by (nonlinear_arith)
        requires
            n as real == a * one,
            num(x) == a / one,
            num(y) == b / one,
            one > 0real,
            b > 0real,
    ;
    assert(nearest(m.div(x, y), n, word::value(y))) by {
        reveal(Sem::rounds);
    }
    lemma_result(m.div(x, y), n, word::value(y), num(x) / num(y));
}

/// `a + (b - a) * k` with `k` in 0 ..= 1, of values no larger than `most`.
pub proof fn lemma_lerp(m: Sem, a: Bits, b: Bits, k: Bits, most: real)
    requires
        m.rounds(),
        word::finite(a),
        word::finite(b),
        word::between(F0, k, F1),
        size(num(a)) <= most,
        size(num(b)) <= most,
        4real * most <= vast(),
    ensures
        word::finite(m.sub(b, a)),
        word::finite(m.mul(m.sub(b, a), k)),
        word::finite(m.mul(k, m.sub(b, a))),
        word::finite(m.lerp(a, b, k)),
        dist(num(m.lerp(a, b, k)), num(a) + (num(b) - num(a)) * num(k)) <= 6real * most / 8388608real
            + 4real * tiny(),
        word::finite(m.chase(a, b, k)),
        dist(num(m.chase(a, b, k)), num(a) + (num(b) - num(a)) * num(k)) <= 6real * most
            / 8388608real + 4real * tiny(),
{
    lemma_tiny();
    lemma_within(F0, k, F1);
    let t = tiny();
    let u = num(a);
    let v = num(b);
    let c = num(k);
    lemma_sub(m, b, a);
    let d = num(m.sub(b, a));
    assert(size(d * c) <= size(d) && size(c * d) <= size(d) && c * d == d * c) by (nonlinear_arith)
        requires
            0real <= c <= 1real,
            size(d * c) == d * c || size(d * c) == -(d * c),
            size(c * d) == c * d || size(c * d) == -(c * d),
            size(d) >= d,
            size(d) >= -d,
    ;
    let e = v - u;
    assert(-most <= u + e * c <= most) by (nonlinear_arith)
        requires
            -most <= u <= most,
            -most <= v <= most,
            e == v - u,
            0real <= c <= 1real,
    ;
    lemma_share(d, e, c, most);
    lemma_mul(m, m.sub(b, a), k);
    lemma_lerp_end(m, a, m.mul(m.sub(b, a), k), d * c, e * c, most);
    lemma_mul(m, k, m.sub(b, a));
    lemma_lerp_end(m, a, m.mul(k, m.sub(b, a)), d * c, e * c, most);
}

proof fn lemma_share(d: real, e: real, c: real, most: real)
    requires
        0real <= c <= 1real,
        size(e) <= 2real * most,
        dist(d, e) <= slack(e),
    ensures
        dist(d * c, e * c) <= 2real * most / 8388608real + tiny(),
        size(d * c) <= 21real * most / 10real + tiny(),
{
    lemma_tiny();
    let o = dist(d, e);
    assert(dist(d * c, e * c) <= o && size(d * c) <= size(d)) by (nonlinear_arith)
        requires
            0real <= c <= 1real,
            dist(d * c, e * c) == d * c - e * c || dist(d * c, e * c) == e * c - d * c,
            o >= d - e,
            o >= e - d,
            o >= 0real,
            size(d * c) == d * c || size(d * c) == -(d * c),
            size(d) >= d,
            size(d) >= -d,
    ;
}

proof fn lemma_lerp_end(m: Sem, a: Bits, p: Bits, dc: real, ec: real, most: real)
    requires
        m.rounds(),
        word::finite(a),
        word::finite(p),
        dist(dc, ec) <= 2real * most / 8388608real + tiny(),
        size(dc) <= 21real * most / 10real + tiny(),
        dist(num(p), dc) <= slack(dc),
        -most <= num(a) + ec <= most,
        0real <= 4real * most <= vast(),
    ensures
        word::finite(m.add(a, p)),
        dist(num(m.add(a, p)), num(a) + ec) <= 6real * most / 8388608real + 4real * tiny(),
{
    lemma_tiny();
    let off = dist(num(p), ec);
    assert(off <= 42real * most / 10real / 8388608real + 3real * tiny());
    let sum = num(a) + num(p);
    assert(size(sum) <= most + off);
    lemma_add(m, a, p);
}

/// The whole part of a value that is not negative.
pub proof fn lemma_trunc(x: Bits)
    requires
        word::finite(x),
        num(x) >= 0real,
    ensures
        word::trunc_of(x) >= 0,
        (word::trunc_of(x) as real) <= num(x) < (word::trunc_of(x) as real) + 1real,
{
    rounding::lemma_one();
    lemma_num(F0, x);
    rounding::lemma_rank_is_value(F0, x);
    let one = word::one() as int;
    let u = word::units(x) as int;
    let q = u / one;
    lemma_fundamental_div_mod(u, one);
    lemma_mod_bound(u, one);
    assert(0 <= q) by (nonlinear_arith)
        requires
            q == u / one,
            u >= 0,
            one > 0,
    ;
    assert(word::trunc_of(x) == q);
    lemma_product(one, q);
    let o = one as real;
    let k = q as real;
    let v = word::value(x) as real;
    assert(v == u as real);
    assert(k <= v / o < k + 1real) by (nonlinear_arith)
        requires
            o * k <= v,
            v < o * k + o,
            o > 0real,
    ;
}

/// The largest whole value not above a value that is not large.
pub proof fn lemma_floor(x: Bits)
    requires
        word::finite(x),
        size(num(x)) <= 4000000real,
    ensures
        word::finite(word::floor_of(x)),
        num(word::floor_of(x)) == word::floor_whole(x) as real,
        (word::floor_whole(x) as real) <= num(x) < (word::floor_whole(x) as real) + 1real,
{
    lemma2_to64();
    rounding::lemma_one();
    let one = word::one() as int;
    let v = word::value(x);
    let k = word::floor_whole(x);
    lemma_fundamental_div_mod(v, one);
    lemma_mod_bound(v, one);
    lemma_product(one, k);
    let o = one as real;
    let r = k as real;
    let w = v as real;
    assert(r <= w / o < r + 1real) by (nonlinear_arith)
        requires
            o * r <= w,
            w < o * r + o,
            o > 0real,
    ;
    assert(-4000001real <= r <= 4000000real);
    assert(-4000001 <= k <= 4000000);
    // The value is small enough to have a fraction.
    lemma_const(0x4a80_0000);
    assert(num(0x4a80_0000) == 8388608real / 2real);
    lemma_num(x, 0x4a80_0000);
    let neg: Bits = 0xca80_0000;
    lemma_num(neg, x);
    assert(num(neg) == -num(0x4a80_0000)) by {
        let h = word::value(0x4a80_0000) as real;
        assert(word::value(neg) == -word::value(0x4a80_0000));
        assert((-h) / o == -(h / o)) by (nonlinear_arith)
            requires
                o > 0real,
        ;
    }
    assert(word::has_fraction_bits(x));
    let n = (if k < 0 {
        -k
    } else {
        k
    }) as nat;
    word::law_conversion_is_nearest(n);
    lemma_small_whole(n);
    let c = word::from_nat(n);
    assert(word::value(c) == n * one);
    let f = word::floor_of(x);
    if word::negative(x) {
        assert(k <= 0) by (nonlinear_arith)
            requires
                v <= 0,
                v >= one * k,
                one > 0,
        ;
        assert(word::value(f) == -(n * one));
        assert(-(n * one) == k * one) by (nonlinear_arith)
            requires
                n == -k,
        ;
    } else {
        assert(k >= 0) by (nonlinear_arith)
            requires
                v >= 0,
                v < one * k + one,
                one > 0,
        ;
        assert(n == k);
    }
    lemma_counted(f, k, 1);
}

/// A whole number below 2^23 converts to a finite pattern without a sign.
proof fn lemma_small_whole(n: nat)
    requires
        n <= 4000001,
    ensures
        word::from_nat(n) < 0x7f80_0000,
{
    lemma2_to64();
    if n > 0 {
        word::lemma_lead(n);
        word::lemma_significand(n);
        if word::lead(n) > 22 {
            lemma_pow2_strictly_increases(22, word::lead(n));
        }
    }
}

/// A whole number that is not large, as a pattern.
pub proof fn lemma_integer(k: int)
    requires
        -4000000 <= k <= 4000000,
    ensures
        word::finite(rounding::whole(k)),
        word::value(rounding::whole(k)) == k * word::one(),
        num(rounding::whole(k)) == k as real,
        k >= 0 ==> rounding::whole(k) == word::from_nat(k as nat),
{
    rounding::lemma_one();
    let n = (if k < 0 {
        -k
    } else {
        k
    }) as nat;
    word::law_conversion_is_nearest(n);
    lemma_small_whole(n);
    let x = word::from_nat(n);
    assert(word::value(x) == n * word::one());
    if k < 0 {
        assert(word::value(rounding::whole(k)) == -word::value(x));
        assert(-(n * word::one()) == k * word::one()) by (nonlinear_arith)
            requires
                k == -n,
        ;
    }
    lemma_counted(rounding::whole(k), k, 1);
}

/// Numbers are equal where values are.
pub proof fn lemma_equal(x: Bits, y: Bits)
    ensures
        num(x) == num(y) <==> word::value(x) == word::value(y),
{
    lemma_num(x, y);
    rounding::lemma_rank_is_value(x, y);
}

// ---------------------------------------------------------------------------
// Values that are known up to an error
// ---------------------------------------------------------------------------

/// `x` lies within `e` of `a`.
pub open spec fn near(x: Bits, a: real, e: real) -> bool {
    word::finite(x) && dist(num(x), a) <= e
}

/// A sum, of which `most` bounds the size.
pub proof fn lemma_near_add(m: Sem, x: Bits, y: Bits, a: real, b: real, e: real, f: real, most: real)
    requires
        m.rounds(),
        near(x, a, e),
        near(y, b, f),
        size(a + b) + e + f <= most,
        1real / 1000000real <= most <= 1000000000000real,
    ensures
        near(m.add(x, y), a + b, e + f + 2real * most / 8388608real),
{
    lemma_tiny();
    assert(size(num(x) + num(y)) <= most);
    lemma_add(m, x, y);
}

/// A difference, of which `most` bounds the size.
pub proof fn lemma_near_sub(m: Sem, x: Bits, y: Bits, a: real, b: real, e: real, f: real, most: real)
    requires
        m.rounds(),
        near(x, a, e),
        near(y, b, f),
        size(a - b) + e + f <= most,
        1real / 1000000real <= most <= 1000000000000real,
    ensures
        near(m.sub(x, y), a - b, e + f + 2real * most / 8388608real),
{
    lemma_tiny();
    assert(size(num(x) - num(y)) <= most);
    lemma_sub(m, x, y);
}

/// The size of a product.
pub proof fn lemma_bounded(x: real, y: real, p: real, q: real)
    requires
        size(x) <= p,
        size(y) <= q,
    ensures
        size(x * y) <= p * q,
{
    let a = size(x);
    let b = size(y);
    assert(size(x * y) == a * b) by {
        assert((-x) * y == -(x * y) && x * (-y) == -(x * y) && (-x) * (-y) == x * y)
            by (nonlinear_arith);
        assert(a * b >= 0real) by (nonlinear_arith)
            requires
                a >= 0real,
                b >= 0real,
        ;
    }
    assert(a * b <= p * q) by (nonlinear_arith)
        requires
            0real <= a <= p,
            0real <= b <= q,
    ;
}

/// A product, of which `p` and `q` bound the sizes of the factors.
pub proof fn lemma_near_mul(
    m: Sem,
    x: Bits,
    y: Bits,
    a: real,
    b: real,
    e: real,
    f: real,
    p: real,
    q: real,
)
    requires
        m.rounds(),
        near(x, a, e),
        near(y, b, f),
        0real <= e,
        0real <= f,
        size(a) + e <= p,
        size(b) + f <= q,
        1real / 1000000real <= p <= 1000000real,
        1real / 1000000real <= q <= 1000000real,
    ensures
        near(m.mul(x, y), a * b, e * q + p * f + 2real * (p * q) / 8388608real),
        size(a * b) <= p * q,
{
    lemma_tiny();
    let v = num(x);
    let w = num(y);
    let t = tiny();
    assert(-p <= v <= p && -q <= w <= q && -p <= a <= p && -q <= b <= q);
    lemma_bounded(v, w, p, q);
    lemma_bounded(a, b, p, q);
    lemma_bounded(v - a, w, e, q);
    lemma_bounded(a, w - b, p, f);
    assert(v * w - a * b == (v - a) * w + a * (w - b)) by (nonlinear_arith);
    assert(1real / 1000000000000real <= p * q && p * q <= 1000000000000real) by (nonlinear_arith)
        requires
            1real / 1000000real <= p <= 1000000real,
            1real / 1000000real <= q <= 1000000real,
    ;
    lemma_mul(m, x, y);
}

} // verus!
