//! The noise source: a 32-bit xorshift, and its reading as a fraction of one.

use crate::word;
use crate::word::Bits;
use vstd::arithmetic::mul::*;
use vstd::arithmetic::power2::*;
use vstd::prelude::*;

verus! {

/// The state that follows `x`.
pub open spec fn next_of(x: u32) -> u32 {
    let a = x ^ (x << 13);
    let b = a ^ (a >> 17);
    b ^ (b << 5)
}

/// A state read as a fraction: the value nearest to `x` / 2^32. At the very
/// top of the range that is one.
pub open spec fn ratio_of(x: u32) -> Bits {
    if x == 0 {
        0
    } else {
        (word::from_nat(x as nat) - 32 * 0x80_0000) as u32
    }
}

/// A state read as a fraction less than one: where the nearest value would be
/// one, the last value before it.
pub open spec fn unit_of(x: u32) -> Bits {
    if word::rounded(x as nat) >= 0x1_0000_0000 {
        0x3f7f_ffff
    } else {
        ratio_of(x)
    }
}

/// The state after `k` steps.
pub open spec fn stream(seed: u32, k: nat) -> u32
    decreases k,
{
    if k == 0 {
        seed
    } else {
        next_of(stream(seed, (k - 1) as nat))
    }
}

pub fn next(x: u32) -> (r: u32)
    ensures
        r == next_of(x),
{
    let a: u32 = x ^ (x << 13);
    let b: u32 = a ^ (a >> 17);
    b ^ (b << 5)
}

pub fn ratio(x: u32) -> (r: Bits)
    ensures
        r == ratio_of(x),
{
    if x == 0 {
        return 0;
    }
    let c: Bits = word::of_u64(x as u64);
    proof {
        lemma_converted(x);
    }
    c - 32 * 0x80_0000
}

pub fn unit(x: u32) -> (r: Bits)
    ensures
        r == unit_of(x),
{
    let r: Bits = ratio(x);
    proof {
        if x > 0 {
            lemma_converted(x);
        } else {
            lemma_zero();
        }
    }
    if r >= 0x3f80_0000 {
        0x3f7f_ffff
    } else {
        r
    }
}

proof fn lemma_zero()
    ensures
        word::rounded(0) == 0,
{
    lemma2_to64();
    assert(word::kept(0) == 0);
}

/// A positive 32-bit number converts to a pattern with the exponent of its
/// leading bit, or to the pattern of 2^32 where rounding carries that far.
proof fn lemma_converted(x: u32)
    requires
        x > 0,
    ensures
        127 * 0x80_0000 <= word::from_nat(x as nat) <= 159 * 0x80_0000,
        word::from_nat(x as nat) == 159 * 0x80_0000 <==> word::rounded(x as nat) >= 0x1_0000_0000,
{
    let n = x as nat;
    let c = word::from_nat(n);
    let k = word::lead(n);
    lemma2_to64();
    word::lemma_lead(n);
    word::lemma_significand(n);
    if k > 32 {
        lemma_pow2_strictly_increases(32, k);
    }
    assert(k <= 31);
    word::law_conversion_is_nearest(n);
    assert(c == (126 + k) * 0x80_0000 + word::significand(n));
    let top = 159 * 0x80_0000;
    assert(word::units(top as u32) == pow2(23) * pow2(158));
    lemma_pow2_adds(23, 158);
    lemma_pow2_adds(32, 149);
    word::law_order_is_numeric(c as nat, top as nat, 23);
    word::law_order_is_numeric(top as nat, c as nat, 23);
    lemma_pow2_pos(149);
    let one = word::one();
    let r = word::rounded(n);
    assert(r >= 0x1_0000_0000 <==> r * one >= 0x1_0000_0000 * one) by (nonlinear_arith)
        requires
            one > 0,
    ;
}

/// A state that is not zero is never followed by zero: the stream does not
/// run dry.
pub proof fn law_never_zero(seed: u32, k: nat)
    requires
        seed != 0,
    ensures
        stream(seed, k) != 0,
    decreases k,
{
    if k > 0 {
        law_never_zero(seed, (k - 1) as nat);
        let x = stream(seed, (k - 1) as nat);
        let a = x ^ (x << 13);
        let b = a ^ (a >> 17);
        assert(a != 0) by (bit_vector)
            requires
                a == x ^ (x << 13),
                x != 0,
        ;
        assert(b != 0) by (bit_vector)
            requires
                b == a ^ (a >> 17),
                a != 0,
        ;
        assert(b ^ (b << 5) != 0) by (bit_vector)
            requires
                b != 0,
        ;
    }
}

/// Two different states never have the same successor.
pub proof fn law_distinct(x: u32, y: u32)
    requires
        next_of(x) == next_of(y),
    ensures
        x == y,
{
    let a = x ^ (x << 13);
    let b = a ^ (a >> 17);
    let c = y ^ (y << 13);
    let d = c ^ (c >> 17);
    assert(b == d) by (bit_vector)
        requires
            b ^ (b << 5) == d ^ (d << 5),
    ;
    assert(a == c) by (bit_vector)
        requires
            a ^ (a >> 17) == c ^ (c >> 17),
    ;
    assert(x == y) by (bit_vector)
        requires
            x ^ (x << 13) == y ^ (y << 13),
    ;
}

/// How a state follows from the one before, in three steps: 8192 times the state,
/// a 131072th of what that gives, and 32 times what that gives, each taken bit by
/// bit with what it came from, and within 32 bits.
pub proof fn law_noise_steps(x: u32)
    ensures
        ({
            let a = x ^ (((x as int) * 8192) % 0x1_0000_0000) as u32;
            let b = a ^ (a / 131072);
            next_of(x) == b ^ (((b as int) * 32) % 0x1_0000_0000) as u32
        }),
{
    assert(x << 13 == ((x * 8192) % 0x1_0000_0000) as u32) by (bit_vector);
    let a = x ^ (x << 13);
    assert(a >> 17 == a / 131072) by (bit_vector);
    let b = a ^ (a >> 17);
    assert(b << 5 == ((b * 32) % 0x1_0000_0000) as u32) by (bit_vector);
}

/// The successor of two states taken together bit by bit is that of each, taken
/// together.
pub proof fn law_noise_is_linear(x: u32, y: u32)
    ensures
        next_of(x ^ y) == next_of(x) ^ next_of(y),
{
    let z = x ^ y;
    assert(z ^ (z << 13) == (x ^ (x << 13)) ^ (y ^ (y << 13))) by (bit_vector)
        requires
            z == x ^ y,
    ;
    let a = x ^ (x << 13);
    let c = y ^ (y << 13);
    let e = z ^ (z << 13);
    assert(e ^ (e >> 17) == (a ^ (a >> 17)) ^ (c ^ (c >> 17))) by (bit_vector)
        requires
            e == a ^ c,
    ;
    let b = a ^ (a >> 17);
    let d = c ^ (c >> 17);
    let f = e ^ (e >> 17);
    assert(f ^ (f << 5) == (b ^ (b << 5)) ^ (d ^ (d << 5))) by (bit_vector)
        requires
            f == b ^ d,
    ;
}

/// Every state reads as a value of at least zero and less than one.
pub proof fn law_unit_range(x: u32)
    ensures
        !word::negative(unit_of(x)),
        word::at_least(unit_of(x), 0),
        word::below(unit_of(x), 0x3f80_0000),
        word::units(unit_of(x)) < word::one(),
{
    if x != 0 {
        lemma_converted(x);
    } else {
        lemma_zero();
    }
    lemma2_to64();
    let r = unit_of(x);
    word::law_order_is_numeric(r as nat, 0x3f80_0000, 23);
    lemma_pow2_adds(23, 126);
    assert(word::steps(0x3f80_0000, 23) == pow2(23) * pow2(126));
}

/// Every state reads as a ratio in 0 ..= 1.
pub proof fn law_ratio_range(x: u32)
    ensures
        word::between(0, ratio_of(x), 0x3f80_0000),
{
    if x != 0 {
        lemma_converted(x);
    }
}

/// The reading is `x` / 2^32 rounded to nearest; the one that is kept below
/// one differs from it only at the top of the range.
pub proof fn law_ratio_is_nearest(x: u32)
    ensures
        word::units(ratio_of(x)) * pow2(32) == word::rounded(x as nat) * word::one(),
        word::rounded(x as nat) < 0x1_0000_0000 ==> unit_of(x) == ratio_of(x),
{
    let n = x as nat;
    lemma2_to64();
    word::law_conversion_is_nearest(n);
    if x == 0 {
        assert(word::units(0) == 0);
        lemma_zero();
    } else {
        lemma_converted(x);
        let c = word::from_nat(n);
        let r = ratio_of(x);
        word::lemma_significand(n);
        word::lemma_lead(n);
        let e = (c as nat) / 0x80_0000;
        let f = (c as nat) % 0x80_0000;
        assert((r as nat) / 0x80_0000 == e - 32);
        assert((r as nat) % 0x80_0000 == f);
        assert(e >= 127);
        lemma_pow2_adds((e - 33) as nat, 32);
        lemma_mul_is_associative(
            (0x80_0000 + f) as int,
            pow2((e - 33) as nat) as int,
            pow2(32) as int,
        );
    }
}

} // verus!
