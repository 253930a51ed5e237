//! IEEE 754 values held as their bit patterns.
//!
//! The engine carries every sample, phase and parameter as a `Bits`, the bit
//! pattern of a binary32 value. What takes no rounding (order, sign, the
//! nearest whole number, conversion to and from integers) is computed here on
//! the patterns; what rounds is the business of `crate::alu`.

use vstd::arithmetic::div_mod::*;
use vstd::arithmetic::mul::*;
use vstd::arithmetic::power2::*;
use vstd::bits::*;
use vstd::prelude::*;

verus! {

/// The bit pattern of a binary32 value.
pub type Bits = u32;

/// The bit pattern of a binary64 value.
pub type WideBits = u64;

// ---------------------------------------------------------------------------
// Meaning of a pattern
// ---------------------------------------------------------------------------

/// The sign bit.
pub open spec fn negative(x: Bits) -> bool {
    x >= 0x8000_0000
}

/// The pattern without its sign bit.
pub open spec fn magnitude(x: Bits) -> int {
    if negative(x) {
        x - 0x8000_0000
    } else {
        x as int
    }
}

/// Everything above the pattern of infinity is not a number.
pub open spec fn is_nan(x: Bits) -> bool {
    magnitude(x) > 0x7f80_0000
}

/// A number that is not infinite.
pub open spec fn finite(x: Bits) -> bool {
    magnitude(x) < 0x7f80_0000
}

/// What a magnitude stands for, counted in steps of the smallest positive
/// value of a format with `frac` fraction bits.
pub open spec fn steps(mag: nat, frac: nat) -> nat {
    let exponent = mag / pow2(frac);
    let fraction = mag % pow2(frac);
    if exponent == 0 {
        fraction
    } else {
        (pow2(frac) + fraction) * pow2((exponent - 1) as nat)
    }
}

/// The absolute value of a binary32 pattern, counted in units of 2^-149.
/// Infinity counts as the power of two that follows the largest finite value.
pub open spec fn units(x: Bits) -> nat {
    steps(magnitude(x) as nat, 23)
}

/// The value of a binary32 pattern, counted in units of 2^-149.
pub open spec fn value(x: Bits) -> int {
    if negative(x) {
        -units(x)
    } else {
        units(x) as int
    }
}

/// How many units make one.
pub open spec fn one() -> nat {
    pow2(149)
}

// ---------------------------------------------------------------------------
// Order
// ---------------------------------------------------------------------------

/// Sign and magnitude read as one integer; both zeros rank 0.
pub open spec fn rank(x: Bits) -> int {
    if negative(x) {
        -magnitude(x)
    } else {
        magnitude(x)
    }
}

/// `x < y`: false where either is not a number.
pub open spec fn below(x: Bits, y: Bits) -> bool {
    !is_nan(x) && !is_nan(y) && rank(x) < rank(y)
}

/// `x >= y`: false where either is not a number.
pub open spec fn at_least(x: Bits, y: Bits) -> bool {
    !is_nan(x) && !is_nan(y) && rank(x) >= rank(y)
}

/// `lo <= x && x <= hi`: false where any of them is not a number.
pub open spec fn between(lo: Bits, x: Bits, hi: Bits) -> bool {
    at_least(x, lo) && at_least(hi, x)
}

/// The same reading of a binary64 pattern.
pub open spec fn wide_negative(x: WideBits) -> bool {
    x >= 0x8000_0000_0000_0000
}

pub open spec fn wide_magnitude(x: WideBits) -> int {
    if wide_negative(x) {
        x - 0x8000_0000_0000_0000
    } else {
        x as int
    }
}

pub open spec fn wide_is_nan(x: WideBits) -> bool {
    wide_magnitude(x) > 0x7ff0_0000_0000_0000
}

pub open spec fn wide_rank(x: WideBits) -> int {
    if wide_negative(x) {
        -wide_magnitude(x)
    } else {
        wide_magnitude(x)
    }
}

/// `x < y` on binary64 values: false where either is not a number.
pub open spec fn wide_below(x: WideBits, y: WideBits) -> bool {
    !wide_is_nan(x) && !wide_is_nan(y) && wide_rank(x) < wide_rank(y)
}

pub fn lt(x: Bits, y: Bits) -> (r: bool)
    ensures
        r == below(x, y),
{
    let a: u32 = mag(x);
    let b: u32 = mag(y);
    if a > 0x7f80_0000 || b > 0x7f80_0000 {
        false
    } else if x < 0x8000_0000 {
        y < 0x8000_0000 && a < b
    } else if y < 0x8000_0000 {
        a > 0 || b > 0
    } else {
        b < a
    }
}

pub fn ge(x: Bits, y: Bits) -> (r: bool)
    ensures
        r == at_least(x, y),
{
    mag(x) <= 0x7f80_0000 && mag(y) <= 0x7f80_0000 && !lt(x, y)
}

pub fn wide_lt(x: WideBits, y: WideBits) -> (r: bool)
    ensures
        r == wide_below(x, y),
{
    let top: u64 = 0x8000_0000_0000_0000;
    let a: u64 = if x >= top { x - top } else { x };
    let b: u64 = if y >= top { y - top } else { y };
    if a > 0x7ff0_0000_0000_0000 || b > 0x7ff0_0000_0000_0000 {
        false
    } else if x < top {
        y < top && a < b
    } else if y < top {
        a > 0 || b > 0
    } else {
        b < a
    }
}

fn mag(x: Bits) -> (r: u32)
    ensures
        r == magnitude(x),
{
    if x >= 0x8000_0000 {
        x - 0x8000_0000
    } else {
        x
    }
}

// ---------------------------------------------------------------------------
// Sign, smaller, larger, bounded
// ---------------------------------------------------------------------------

/// `x` with its sign bit cleared.
pub open spec fn abs_of(x: Bits) -> Bits {
    magnitude(x) as u32
}

/// `x` with its sign bit flipped.
pub open spec fn neg_of(x: Bits) -> Bits {
    if negative(x) {
        (x - 0x8000_0000) as u32
    } else {
        (x + 0x8000_0000) as u32
    }
}

/// The smaller of two values; the other one where one is not a number.
pub open spec fn min_of(x: Bits, y: Bits) -> Bits {
    if is_nan(x) || below(y, x) {
        y
    } else {
        x
    }
}

/// The larger of two values; the other one where one is not a number.
pub open spec fn max_of(x: Bits, y: Bits) -> Bits {
    if is_nan(x) || below(x, y) {
        y
    } else {
        x
    }
}

/// `x` brought between two bounds; what is not a number stays.
pub open spec fn clamp_of(x: Bits, lo: Bits, hi: Bits) -> Bits {
    if below(x, lo) {
        lo
    } else if below(hi, x) {
        hi
    } else {
        x
    }
}

pub fn abs(x: Bits) -> (r: Bits)
    ensures
        r == abs_of(x),
{
    mag(x)
}

pub fn neg(x: Bits) -> (r: Bits)
    ensures
        r == neg_of(x),
{
    if x >= 0x8000_0000 {
        x - 0x8000_0000
    } else {
        x + 0x8000_0000
    }
}

pub fn min(x: Bits, y: Bits) -> (r: Bits)
    ensures
        r == min_of(x, y),
{
    if mag(x) > 0x7f80_0000 || lt(y, x) {
        y
    } else {
        x
    }
}

pub fn max(x: Bits, y: Bits) -> (r: Bits)
    ensures
        r == max_of(x, y),
{
    if mag(x) > 0x7f80_0000 || lt(x, y) {
        y
    } else {
        x
    }
}

pub fn clamp(x: Bits, lo: Bits, hi: Bits) -> (r: Bits)
    ensures
        r == clamp_of(x, lo, hi),
{
    if lt(x, lo) {
        lo
    } else if lt(hi, x) {
        hi
    } else {
        x
    }
}

// ---------------------------------------------------------------------------
// From whole numbers
// ---------------------------------------------------------------------------

/// The place of the leading bit of `n`.
pub open spec fn lead(n: nat) -> nat
    decreases n,
{
    if n < 2 {
        0
    } else {
        1 + lead(n / 2)
    }
}

/// How many low bits of `n` a significand of 24 bits has no room for.
pub open spec fn dropped(n: nat) -> nat {
    if lead(n) <= 23 {
        0
    } else {
        (lead(n) - 23) as nat
    }
}

/// The top 24 bits of `n`, rounded to nearest, ties to even.
pub open spec fn kept(n: nat) -> nat {
    let step = pow2(dropped(n));
    let top = n / step;
    let rest = n % step;
    if 2 * rest > step || (2 * rest == step && top % 2 == 1) {
        top + 1
    } else {
        top
    }
}

/// The value with a 24-bit significand that is nearest to `n`.
pub open spec fn rounded(n: nat) -> nat {
    kept(n) * pow2(dropped(n))
}

/// The significand of `n`, in 2^23 ..= 2^24.
pub open spec fn significand(n: nat) -> nat {
    if lead(n) <= 23 {
        n * pow2((23 - lead(n)) as nat)
    } else {
        kept(n)
    }
}

/// The pattern of the value nearest to `n`.
pub open spec fn from_nat(n: nat) -> Bits {
    if n == 0 {
        0
    } else {
        ((126 + lead(n)) * 0x80_0000 + significand(n)) as u32
    }
}

/// The leading bit is where `n` lies between two powers of two.
pub proof fn lemma_lead(n: nat)
    requires
        n > 0,
    ensures
        pow2(lead(n)) <= n < pow2(lead(n) + 1),
    decreases n,
{
    lemma2_to64();
    if n >= 2 {
        lemma_lead(n / 2);
        lemma_pow2_unfold(lead(n));
        lemma_pow2_unfold(lead(n) + 1);
    }
}

/// The significand of a positive number has its leading bit at place 23, or
/// is 2^24 where rounding carried.
pub proof fn lemma_significand(n: nat)
    requires
        n > 0,
    ensures
        0x80_0000 <= significand(n) <= 0x100_0000,
        lead(n) > 23 ==> n / pow2(dropped(n)) >= 0x80_0000 && n / pow2(dropped(n)) < 0x100_0000,
{
    lemma_lead(n);
    lemma2_to64();
    let k = lead(n);
    if k <= 23 {
        let s = (23 - k) as nat;
        lemma_pow2_adds(k, s);
        lemma_pow2_adds(k + 1, s);
        assert(pow2(k) * pow2(s) <= n * pow2(s) < pow2(k + 1) * pow2(s)) by (nonlinear_arith)
            requires
                pow2(k) <= n < pow2(k + 1),
                pow2(s) > 0,
        ;
    } else {
        let s = (k - 23) as nat;
        lemma_pow2_adds(23, s);
        lemma_pow2_adds(24, s);
        let p = pow2(s) as int;
        lemma_fundamental_div_mod(n as int, p);
        let q = n as int / p;
        let r = n as int % p;
        assert(0 <= r < p) by {
            lemma_pow2_pos(s);
            lemma_mod_bound(n as int, p);
        }
        assert(0x80_0000 <= q < 0x100_0000) by (nonlinear_arith)
            requires
                n == p * q + r,
                0 <= r < p,
                0x80_0000 * p <= n < 0x100_0000 * p,
        ;
    }
}

/// The pattern of the binary32 value nearest to `n`, ties to even: what a
/// cast of an unsigned integer to binary32 gives.
pub fn of_u64(n: u64) -> (r: Bits)
    ensures
        r == from_nat(n as nat),
{
    if n == 0 {
        return 0;
    }
    let mut k: u64 = 0;
    let mut rest: u64 = n;
    while rest >= 2
        invariant
            rest >= 1,
            lead(n as nat) == k + lead(rest as nat),
            k + rest <= n,
        decreases rest,
    {
        rest = rest / 2;
        k = k + 1;
    }
    proof {
        lemma_lead(n as nat);
        lemma_significand(n as nat);
        lemma2_to64();
        lemma2_to64_rest();
        if k >= 64 {
            if k > 64 {
                lemma_pow2_strictly_increases(64, k as nat);
            }
            assert(false);
        }
    }
    let sig: u64 = if k <= 23 {
        proof {
            let s = (23 - k) as nat;
            lemma_u64_shl_is_mul(n, (23 - k) as u64);
        }
        n << (23 - k)
    } else {
        let s: u64 = k - 23;
        proof {
            lemma_u64_shr_is_div(n, s);
            lemma_u64_shl_is_mul(1, s);
            lemma_pow2_pos(s as nat);
            lemma_pow2_adds(s as nat, 23);
            assert(pow2(s as nat) <= pow2(k as nat)) by (nonlinear_arith)
                requires
                    pow2(k as nat) == pow2(s as nat) * pow2(23),
                    pow2(23) >= 1,
                    pow2(s as nat) >= 0,
            ;
        }
        let top: u64 = n >> s;
        let step: u64 = 1u64 << s;
        let low: u64 = n % step;
        if low > step - low || (low == step - low && top % 2 == 1) {
            top + 1
        } else {
            top
        }
    };
    ((126 + k) * 0x80_0000 + sig) as u32
}

// ---------------------------------------------------------------------------
// To whole numbers
// ---------------------------------------------------------------------------

/// The whole part of the absolute value.
pub open spec fn whole(x: Bits) -> nat {
    units(x) / one()
}

/// The value without its fraction; 0 for what is not a number.
pub open spec fn trunc_of(x: Bits) -> int {
    if is_nan(x) {
        0
    } else if negative(x) {
        -whole(x)
    } else {
        whole(x) as int
    }
}

/// `v` brought between two bounds.
pub open spec fn saturated(v: int, lo: int, hi: int) -> int {
    if v < lo {
        lo
    } else if v > hi {
        hi
    } else {
        v
    }
}

/// From 2^23 on every value is whole.
pub open spec fn has_fraction_bits(x: Bits) -> bool {
    magnitude(x) < 150 * 0x80_0000
}

/// A pattern with a given sign.
pub open spec fn signed(minus: bool, x: Bits) -> Bits {
    if minus {
        neg_of(x)
    } else {
        x
    }
}

/// The whole number at or below a value that may have a fraction.
pub open spec fn floor_whole(x: Bits) -> int {
    value(x) / (one() as int)
}

/// The largest whole value not above `x`.
pub open spec fn floor_of(x: Bits) -> Bits {
    if has_fraction_bits(x) {
        let k = floor_whole(x);
        signed(negative(x), from_nat((if k < 0 { -k } else { k }) as nat))
    } else {
        x
    }
}

/// The whole value nearest to `x`, halves away from zero.
pub open spec fn round_of(x: Bits) -> Bits {
    if has_fraction_bits(x) {
        signed(negative(x), from_nat((2 * units(x) + one()) / (2 * one())))
    } else {
        x
    }
}

/// Splits a magnitude into biased exponent and significand.
fn parts(m: u32) -> (r: (u32, u32))
    requires
        m < 0x8000_0000,
    ensures
        r.0 == m / 0x80_0000,
        r.0 < 256,
        r.1 < 0x100_0000,
        r.0 > 0 ==> r.1 >= 0x80_0000,
        r.0 > 0 ==> steps(m as nat, 23) == r.1 * pow2((r.0 - 1) as nat),
        r.0 == 0 ==> steps(m as nat, 23) == r.1 && r.1 < 0x80_0000,
{
    proof {
        lemma2_to64();
    }
    let e: u32 = m / 0x80_0000;
    let f: u32 = m % 0x80_0000;
    if e > 0 {
        (e, f + 0x80_0000)
    } else {
        (e, f)
    }
}

proof fn lemma_quotient(a: nat, s: nat, t: nat)
    ensures
        (a * pow2(t)) / pow2(s + t) == a / pow2(s),
{
    lemma_pow2_pos(s);
    lemma_pow2_pos(t);
    lemma_pow2_adds(s, t);
    lemma_mul_is_commutative(a as int, pow2(t) as int);
    lemma_mul_is_commutative(pow2(s) as int, pow2(t) as int);
    lemma_div_multiples_vanish_quotient(pow2(t) as int, a as int, pow2(s) as int);
}

proof fn lemma_small_quotient(a: nat, b: nat)
    requires
        a < b,
    ensures
        a / b == 0,
{
    lemma_basic_div(a as int, b as int);
}

/// Below the exponent of one nothing whole is left.
proof fn lemma_fraction_only(m: u32)
    requires
        m < 127 * 0x80_0000,
    ensures
        steps(m as nat, 23) < one(),
{
    lemma2_to64();
    let e = (m as nat) / pow2(23);
    lemma_pow2_adds(24, 125);
    if e == 0 {
        lemma_pow2_strictly_increases(23, 149);
    } else {
        let f = (m as nat) % pow2(23);
        if e - 1 < 125 {
            lemma_pow2_strictly_increases((e - 1) as nat, 125);
        }
        lemma_pow2_pos(125);
        assert((pow2(23) + f) * pow2((e - 1) as nat) < pow2(24) * pow2(125)) by (nonlinear_arith)
            requires
                0 <= pow2(23) + f < pow2(24),
                0 <= pow2((e - 1) as nat) <= pow2(125),
                pow2(125) > 0,
        ;
    }
}

/// The whole part of the absolute value, as far as 64 bits hold it.
fn whole_of(x: Bits) -> (r: u64)
    ensures
        r == saturated(whole(x) as int, 0, u64::MAX as int),
{
    let m: u32 = mag(x);
    let (e, sig) = parts(m);
    proof {
        lemma_pow2_pos(149);
        lemma2_to64();
        lemma2_to64_rest();
    }
    if e < 127 {
        proof {
            lemma_fraction_only(m);
            lemma_small_quotient(units(x), one());
        }
        0
    } else if e <= 150 {
        let s: u32 = 150 - e;
        proof {
            lemma_quotient(sig as nat, s as nat, (e - 1) as nat);
            lemma_u64_shr_is_div(sig as u64, s as u64);
        }
        (sig as u64) >> (s as u64)
    } else if e <= 190 {
        let s: u32 = e - 150;
        proof {
            lemma_pow2_adds(s as nat, 149);
            lemma_mul_is_associative(sig as int, pow2(s as nat) as int, one() as int);
            lemma_div_multiples_vanish((sig * pow2(s as nat)) as int, one() as int);
            lemma_mul_is_commutative((sig * pow2(s as nat)) as int, one() as int);
            if s < 40 {
                lemma_pow2_strictly_increases(s as nat, 40);
            }
            assert(sig * pow2(s as nat) <= u64::MAX) by (nonlinear_arith)
                requires
                    0 <= sig < 0x100_0000,
                    0 <= pow2(s as nat) <= pow2(40),
                    pow2(40) == 0x100_0000_0000,
            ;
            lemma_u64_shl_is_mul(sig as u64, s as u64);
        }
        (sig as u64) << (s as u64)
    } else {
        proof {
            let t = (e - 1) as nat;
            if 190 < t {
                lemma_pow2_strictly_increases(190, t);
            }
            lemma_pow2_adds(23, 190);
            lemma_pow2_adds(64, 149);
            assert(units(x) >= pow2(23) * pow2(190)) by (nonlinear_arith)
                requires
                    units(x) == sig * pow2(t),
                    sig >= pow2(23),
                    pow2(t) >= pow2(190),
                    pow2(190) >= 0,
            ;
            lemma_div_is_ordered((pow2(64) * one()) as int, units(x) as int, one() as int);
            lemma_div_multiples_vanish(pow2(64) as int, one() as int);
            lemma_mul_is_commutative(pow2(64) as int, one() as int);
        }
        u64::MAX
    }
}

/// What a cast to a 32-bit signed integer gives.
pub fn to_i32(x: Bits) -> (r: i32)
    ensures
        r == saturated(trunc_of(x), i32::MIN as int, i32::MAX as int),
{
    let w: u64 = whole_of(x);
    if mag(x) > 0x7f80_0000 {
        0
    } else if x >= 0x8000_0000 {
        if w >= 0x8000_0000 {
            i32::MIN
        } else {
            -(w as i32)
        }
    } else if w > 0x7fff_ffff {
        i32::MAX
    } else {
        w as i32
    }
}

/// What a cast to a 32-bit unsigned integer gives.
pub fn to_u32(x: Bits) -> (r: u32)
    ensures
        r == saturated(trunc_of(x), 0, u32::MAX as int),
{
    let w: u64 = whole_of(x);
    if mag(x) > 0x7f80_0000 || x >= 0x8000_0000 {
        0
    } else if w > 0xffff_ffff {
        u32::MAX
    } else {
        w as u32
    }
}

/// What a cast to an index gives.
pub fn to_usize(x: Bits) -> (r: usize)
    ensures
        r == saturated(trunc_of(x), 0, usize::MAX as int),
{
    let w: u64 = whole_of(x);
    if mag(x) > 0x7f80_0000 || x >= 0x8000_0000 {
        0
    } else if w > usize::MAX as u64 {
        usize::MAX
    } else {
        w as usize
    }
}

/// What a cast to a signed index gives.
pub fn to_isize(x: Bits) -> (r: isize)
    ensures
        r == saturated(trunc_of(x), isize::MIN as int, isize::MAX as int),
{
    let w: u64 = whole_of(x);
    if mag(x) > 0x7f80_0000 {
        0
    } else if x >= 0x8000_0000 {
        if w > isize::MAX as u64 {
            isize::MIN
        } else {
            -(w as isize)
        }
    } else if w > isize::MAX as u64 {
        isize::MAX
    } else {
        w as isize
    }
}

pub fn floor(x: Bits) -> (r: Bits)
    ensures
        r == floor_of(x),
{
    let m: u32 = mag(x);
    if m >= 150 * 0x80_0000 {
        return x;
    }
    let w: u64 = whole_of(x);
    let (e, sig) = parts(m);
    let ghost p = one() as int;
    let ghost u = units(x) as int;
    proof {
        lemma_pow2_pos(149);
        lemma_fundamental_div_mod(u, p);
        lemma_mod_bound(u, p);
        lemma_whole_bound(x);
    }
    if x < 0x8000_0000 {
        return of_u64(w);
    }
    let exact: bool = if e == 0 {
        sig == 0
    } else if e < 127 {
        false
    } else {
        proof {
            lemma_u64_shr_is_div(sig as u64, (150 - e) as u64);
            lemma_whole_exact(x, e, sig);
        }
        sig as u64 % (1u64 << ((150 - e) as u64)) == 0
    };
    proof {
        if e == 0 {
            lemma_fraction_only(m);
            lemma_small_mod(u as nat, p as nat);
        } else if e < 127 {
            lemma_fraction_only(m);
            lemma_small_mod(u as nat, p as nat);
            lemma_pow2_pos((e - 1) as nat);
            assert(sig * pow2((e - 1) as nat) > 0) by (nonlinear_arith)
                requires
                    sig > 0,
                    pow2((e - 1) as nat) > 0,
            ;
        }
        assert(exact <==> u % p == 0);
        lemma_floor_of_negative(u, p);
    }
    if exact {
        neg(of_u64(w))
    } else {
        neg(of_u64(w + 1))
    }
}

/// Values with fraction bits are below 2^23.
proof fn lemma_whole_bound(x: Bits)
    requires
        has_fraction_bits(x),
    ensures
        whole(x) < 0x80_0000,
{
    lemma2_to64();
    lemma_pow2_pos(149);
    let m = magnitude(x) as nat;
    let e = m / pow2(23);
    let f = m % pow2(23);
    lemma_pow2_adds(24, 148);
    lemma_pow2_adds(23, 149);
    if e == 0 {
        lemma_pow2_strictly_increases(23, 172);
    } else {
        if e - 1 < 148 {
            lemma_pow2_strictly_increases((e - 1) as nat, 148);
        }
        lemma_pow2_pos(148);
        assert((pow2(23) + f) * pow2((e - 1) as nat) < pow2(24) * pow2(148)) by (nonlinear_arith)
            requires
                0 <= pow2(23) + f < pow2(24),
                0 <= pow2((e - 1) as nat) <= pow2(148),
                pow2(148) > 0,
        ;
    }
    assert(units(x) < 0x80_0000 * one());
    let p = one() as int;
    let u = units(x) as int;
    lemma_fundamental_div_mod(u, p);
    lemma_mod_bound(u, p);
    assert(u / p < 0x80_0000) by (nonlinear_arith)
        requires
            u == p * (u / p) + u % p,
            0 <= u % p,
            u < 0x80_0000 * p,
            p > 0,
    ;
}

/// A value is whole where the bits below its units are clear.
proof fn lemma_whole_exact(x: Bits, e: u32, sig: u32)
    requires
        127 <= e < 150,
        units(x) == sig * pow2((e - 1) as nat),
    ensures
        1u64 << ((150 - e) as u64) == pow2((150 - e) as nat),
        pow2((150 - e) as nat) > 0,
        (sig as u64 % (1u64 << ((150 - e) as u64)) == 0) <==> units(x) as int % one() as int == 0,
{
    let s = (150 - e) as nat;
    let t = (e - 1) as nat;
    lemma2_to64();
    lemma_pow2_pos(s);
    lemma_pow2_pos(t);
    if s < 23 {
        lemma_pow2_strictly_increases(s, 23);
    }
    lemma_u64_shl_is_mul(1, (150 - e) as u64);
    lemma_pow2_adds(s, t);
    let a = sig as int;
    let d = pow2(s) as int;
    let c = pow2(t) as int;
    lemma_truncate_middle(a, c, d);
    lemma_mul_is_commutative(a, c);
    lemma_mul_is_commutative(d, c);
    lemma_mul_is_commutative(a % d, c);
    assert(c * (a % d) == (c * a) % (c * d));
    lemma_mod_bound(a, d);
    assert(c * (a % d) == 0 <==> a % d == 0) by (nonlinear_arith)
        requires
            c > 0,
            a % d >= 0,
    ;
}

/// Dividing the negated value rounds the quotient away from zero.
proof fn lemma_floor_of_negative(u: int, p: int)
    requires
        u >= 0,
        p > 0,
    ensures
        u % p == 0 ==> (-u) / p == -(u / p),
        u % p != 0 ==> (-u) / p == -(u / p) - 1,
{
    lemma_fundamental_div_mod(u, p);
    lemma_mod_bound(u, p);
    let q = u / p;
    let r = u % p;
    if r == 0 {
        assert(-u == (-q) * p) by (nonlinear_arith)
            requires
                u == p * q,
        ;
        lemma_fundamental_div_mod_converse(-u, p, -q, 0);
    } else {
        assert(-u == (-q - 1) * p + (p - r)) by (nonlinear_arith)
            requires
                u == p * q + r,
        ;
        lemma_fundamental_div_mod_converse(-u, p, -q - 1, p - r);
    }
}

pub fn round(x: Bits) -> (r: Bits)
    ensures
        r == round_of(x),
{
    let m: u32 = mag(x);
    if m >= 150 * 0x80_0000 {
        return x;
    }
    let (e, sig) = parts(m);
    let ghost u = units(x);
    proof {
        lemma2_to64();
        lemma_pow2_unfold(150);
        lemma_pow2_unfold(149);
        lemma_pow2_pos(148);
        lemma_pow2_pos(149);
    }
    let k: u64 = if e < 126 {
        proof {
            lemma_half_only(m);
            lemma_small_quotient(2 * u + one(), 2 * one());
        }
        0
    } else {
        let s: u32 = 150 - e;
        proof {
            lemma_round_shift(x, e, sig);
            if s < 24 {
                lemma_pow2_strictly_increases(s as nat, 24);
            }
            lemma_u64_shl_is_mul(1, (s - 1) as u64);
            lemma_pow2_unfold(s as nat);
            lemma_u64_shr_is_div((sig + pow2((s - 1) as nat)) as u64, s as u64);
        }
        (sig as u64 + (1u64 << ((s - 1) as u64))) >> (s as u64)
    };
    let r: Bits = of_u64(k);
    if x >= 0x8000_0000 {
        neg(r)
    } else {
        r
    }
}

/// Below the exponent of a half nothing reaches a half.
proof fn lemma_half_only(m: u32)
    requires
        m < 126 * 0x80_0000,
    ensures
        2 * steps(m as nat, 23) < one(),
{
    lemma2_to64();
    let e = (m as nat) / pow2(23);
    lemma_pow2_adds(24, 124);
    lemma_pow2_unfold(149);
    if e == 0 {
        lemma_pow2_strictly_increases(23, 148);
    } else {
        let f = (m as nat) % pow2(23);
        if e - 1 < 124 {
            lemma_pow2_strictly_increases((e - 1) as nat, 124);
        }
        lemma_pow2_pos(124);
        assert((pow2(23) + f) * pow2((e - 1) as nat) < pow2(24) * pow2(124)) by (nonlinear_arith)
            requires
                0 <= pow2(23) + f < pow2(24),
                0 <= pow2((e - 1) as nat) <= pow2(124),
                pow2(124) > 0,
        ;
    }
}

/// Rounding to a whole number is a shift of the significand with a half added.
proof fn lemma_round_shift(x: Bits, e: u32, sig: u32)
    requires
        126 <= e < 150,
        units(x) == sig * pow2((e - 1) as nat),
    ensures
        (2 * units(x) + one()) / (2 * one()) == (sig as nat + pow2((149 - e) as nat)) / pow2(
            (150 - e) as nat,
        ),
{
    let s = (150 - e) as nat;
    let t = e as nat;
    lemma_pow2_unfold(t);
    lemma_pow2_unfold(150);
    lemma_pow2_adds((s - 1) as nat, t);
    assert(2 * units(x) + one() == (sig + pow2((s - 1) as nat)) * pow2(t)) by (nonlinear_arith)
        requires
            units(x) == sig * pow2((t - 1) as nat),
            pow2(t) == 2 * pow2((t - 1) as nat),
            one() == pow2((s - 1) as nat) * pow2(t),
    ;
    lemma_quotient((sig + pow2((s - 1) as nat)) as nat, s, t);
}

// ---------------------------------------------------------------------------
// What the patterns mean, as laws
// ---------------------------------------------------------------------------

/// Magnitudes are ordered as the values that they stand for, whatever the
/// format's number of fraction bits: `below` and `wide_below` compare numbers.
pub proof fn law_order_is_numeric(a: nat, b: nat, frac: nat)
    ensures
        a < b <==> steps(a, frac) < steps(b, frac),
{
    if a < b {
        lemma_steps_increase(a, b, frac);
    } else if b < a {
        lemma_steps_increase(b, a, frac);
    }
}

proof fn lemma_steps_increase(a: nat, b: nat, frac: nat)
    requires
        a < b,
    ensures
        steps(a, frac) < steps(b, frac),
{
    lemma_pow2_pos(frac);
    let p = pow2(frac) as int;
    lemma_fundamental_div_mod(a as int, p);
    lemma_fundamental_div_mod(b as int, p);
    lemma_mod_bound(a as int, p);
    lemma_mod_bound(b as int, p);
    let ea = (a as int / p) as nat;
    let eb = (b as int / p) as nat;
    let fa = a as int % p;
    let fb = b as int % p;
    lemma_div_is_ordered(a as int, b as int, p);
    if ea == eb {
        assert(fa < fb);
        if ea > 0 {
            lemma_pow2_pos((ea - 1) as nat);
            assert((p + fa) * pow2((ea - 1) as nat) < (p + fb) * pow2((ea - 1) as nat))
                by (nonlinear_arith)
                requires
                    fa < fb,
                    pow2((ea - 1) as nat) > 0,
            ;
        }
    } else if ea == 0 {
        lemma_pow2_pos((eb - 1) as nat);
        assert((p + fb) * pow2((eb - 1) as nat) >= p) by (nonlinear_arith)
            requires
                p > 0,
                fb >= 0,
                pow2((eb - 1) as nat) >= 1,
        ;
    } else {
        lemma_pow2_unfold(ea);
        if ea < eb - 1 {
            lemma_pow2_strictly_increases(ea, (eb - 1) as nat);
        }
        let c = pow2((ea - 1) as nat) as int;
        let d = pow2((eb - 1) as nat) as int;
        lemma_pow2_pos((ea - 1) as nat);
        assert((p + fa) * c < (p + fb) * d) by (nonlinear_arith)
            requires
                0 <= fa < p,
                0 <= fb,
                c > 0,
                d >= 2 * c,
        ;
    }
}

/// Converting an integer keeps it exactly where 24 bits hold it, and never
/// moves it by more than half of the last place that is kept.
pub proof fn law_conversion_is_nearest(n: nat)
    requires
        n <= u64::MAX,
    ensures
        units(from_nat(n)) == rounded(n) * one(),
        n < 0x100_0000 ==> rounded(n) == n,
        2 * (rounded(n) - n) <= pow2(dropped(n)),
        2 * (n - rounded(n)) <= pow2(dropped(n)),
{
    lemma2_to64();
    lemma2_to64_rest();
    let step = pow2(dropped(n)) as int;
    lemma_pow2_pos(dropped(n));
    lemma_fundamental_div_mod(n as int, step);
    lemma_mod_bound(n as int, step);
    let q = n as int / step;
    assert((q + 1) * step == q * step + step) by (nonlinear_arith);
    lemma_mul_is_commutative(step, q);
    if n == 0 {
        assert(kept(0) == 0);
        assert(units(0) == 0);
    } else {
        lemma_lead(n);
        lemma_significand(n);
        let k = lead(n);
        if k >= 64 {
            if k > 64 {
                lemma_pow2_strictly_increases(64, k);
            }
        }
        if n < 0x100_0000 && k > 23 {
            if k > 24 {
                lemma_pow2_strictly_increases(24, k);
            }
        }
        let sig = significand(n);
        let m = (126 + k) * 0x80_0000 + sig;
        if sig == 0x100_0000 {
            assert(m / 0x80_0000 == 128 + k && m % 0x80_0000 == 0);
            lemma_pow2_unfold(127 + k);
            assert(steps(m, 23) == pow2(23) * pow2(127 + k));
            assert(steps(m, 23) == sig * pow2(126 + k)) by (nonlinear_arith)
                requires
                    steps(m, 23) == 0x80_0000 * pow2(127 + k),
                    pow2(127 + k) == 2 * pow2(126 + k),
                    sig == 0x100_0000,
            ;
        } else {
            assert(m / 0x80_0000 == 127 + k && m % 0x80_0000 == sig - 0x80_0000);
        }
        assert(units(from_nat(n)) == sig * pow2(126 + k));
        if k <= 23 {
            let s = (23 - k) as nat;
            lemma_pow2_adds(s, 126 + k);
            lemma_mul_is_associative(n as int, pow2(s) as int, pow2(126 + k) as int);
            assert(sig * pow2(126 + k) == n * one());
            assert(dropped(n) == 0 && step == 1);
            assert(n / 1 == n && n % 1 == 0);
            assert(kept(n) == n);
            assert(rounded(n) == n);
        } else {
            let s = (k - 23) as nat;
            lemma_pow2_adds(s, 149);
            lemma_mul_is_associative(sig as int, pow2(s) as int, one() as int);
            assert(s + 149 == 126 + k);
            assert(sig * pow2(126 + k) == rounded(n) * one());
        }
    }
}

} // verus!
