//! Arithmetic that rounds correctly.
//!
//! The engine computes with whatever arithmetic it is handed. Some laws hold
//! only where that arithmetic is sound; what they take of it is said here, as
//! properties of a reading `Sem`. `rounds` and `roots` follow from what
//! IEEE 754 asks of the basic operations. The others speak of powers,
//! exponentials, sines and hyperbolic tangents, for which no standard promises
//! an accuracy, least of all that computed powers rise with the exponent: they
//! are claims that a good mathematics library keeps, and a law that names one
//! says nothing of a library that does not. That all of them can hold at once
//! is shown in [`model`].

use crate::alu::Sem;
use crate::consts::{F0, F1, F2};
use crate::word;
use crate::word::Bits;
use vstd::arithmetic::power2::*;
use vstd::prelude::*;

pub mod model;
pub mod reals;

verus! {

/// How far two integers lie apart.
pub open spec fn gap(a: int, b: int) -> int {
    if a < b {
        b - a
    } else {
        a - b
    }
}

/// `r` is a number, and none lies nearer to `num / den` units. (Infinity
/// counts as the power of two behind the largest finite value, so a result
/// that overflows is covered too.)
#[verifier::opaque]
pub open spec fn nearest(r: Bits, num: int, den: int) -> bool {
    &&& !word::is_nan(r)
    &&& forall|z: Bits|
        !word::is_nan(z) ==> gap(word::value(r) * den, num) <= gap(
            #[trigger] word::value(z) * den,
            num,
        )
}

impl Sem {
    /// Sums, differences, products and quotients of finite values are rounded
    /// to a nearest value, and a sum that is zero is the positive zero unless
    /// both operands have a negative sign.
    #[verifier::opaque]
    pub open spec fn rounds(self) -> bool {
        &&& forall|x: Bits, y: Bits|
            word::finite(x) && word::finite(y) ==> nearest(
                #[trigger] self.add(x, y),
                word::value(x) + word::value(y),
                1,
            )
        &&& forall|x: Bits, y: Bits|
            word::finite(x) && word::finite(y) ==> nearest(
                #[trigger] self.sub(x, y),
                word::value(x) - word::value(y),
                1,
            )
        &&& forall|x: Bits, y: Bits|
            word::finite(x) && word::finite(y) ==> nearest(
                #[trigger] self.mul(x, y),
                word::value(x) * word::value(y),
                word::one() as int,
            )
        &&& forall|x: Bits, y: Bits|
            word::finite(x) && word::finite(y) && word::value(y) > 0 ==> nearest(
                #[trigger] self.div(x, y),
                word::value(x) * word::one(),
                word::value(y),
            )
        &&& forall|x: Bits, y: Bits|
            word::finite(x) && word::finite(y) && word::value(x) + word::value(y) == 0 && !(
            word::negative(x) && word::negative(y)) ==> #[trigger] self.add(x, y) == F0
    }

    /// Square roots of what lies in 2^-40 ..= 2^40 are positive, and their
    /// squares are good to one part in 2^20.
    #[verifier::opaque]
    pub open spec fn roots(self) -> bool {
        forall|x: Bits|
            word::between(0x2b80_0000, x, 0x5380_0000) ==> {
                let r = #[trigger] self.sqrt(x);
                &&& word::finite(r)
                &&& word::value(r) > 0
                &&& 0x10_0000 * gap(word::value(r) * word::value(r), word::value(x) * word::one())
                    <= word::value(x) * word::one()
            }
    }

    /// Powers with an exponent in 0 ..= 1 of a base in 1 ..= 32768 lie between
    /// 1 and the base, or above it by one part in 100000 at most; where the
    /// exponent is zero, of either sign, they are 1.
    #[verifier::opaque]
    pub open spec fn powers_in_range(self) -> bool {
        &&& forall|b: Bits, x: Bits|
            word::between(F1, b, 0x4700_0000) && word::between(F0, x, F1) ==> {
                let p = #[trigger] self.pow(b, x);
                &&& word::between(F1, p, 0x4780_0000)
                &&& 100_000 * word::value(p) <= 100_001 * word::value(b)
            }
        &&& forall|b: Bits, x: Bits|
            word::between(F1, b, 0x4700_0000) && word::magnitude(x) == 0 ==> #[trigger] self.pow(
                b,
                x,
            ) == F1
    }

    /// Powers with an exponent in 0 ..= 1 of a base in 1 ..= 32768 do not fall
    /// when the exponent rises.
    #[verifier::opaque]
    pub open spec fn powers_rise(self) -> bool {
        forall|b: Bits, x: Bits, y: Bits|
            word::between(F1, b, 0x4700_0000) && word::between(F0, x, F1) && word::between(
                F0,
                y,
                F1,
            ) && word::rank(x) <= word::rank(y) ==> word::rank(#[trigger] self.pow(b, x))
                <= word::rank(#[trigger] self.pow(b, y))
    }

    /// Powers with an exponent in 0 ..= 1 of a base in 16 ..= 32768 grow by one
    /// part in 200 at least where the exponent grows by 0.01 or more.
    #[verifier::opaque]
    pub open spec fn powers_grow(self) -> bool {
        forall|b: Bits, x: Bits, y: Bits|
            word::between(0x4180_0000, b, 0x4700_0000) && word::between(F0, x, F1)
                && word::between(F0, y, F1) && 100 * (word::value(y) - word::value(x))
                >= word::one() ==> 200 * word::value(#[trigger] self.pow(b, y)) >= 201
                * word::value(#[trigger] self.pow(b, x))
    }

    /// Powers with an exponent in -2 ..= 2 of a base in 1 ..= 16 lie in
    /// 2^-9 ..= 2^9.
    #[verifier::opaque]
    pub open spec fn powers_tilt(self) -> bool {
        forall|b: Bits, x: Bits|
            word::between(F1, b, 0x4180_0000) && word::between(0xc000_0000, x, 0x4000_0000)
                ==> word::between(0x3b00_0000, #[trigger] self.pow(b, x), 0x4400_0000)
    }

    /// Powers of two with an exponent in -16 ..= 16 lie in 2^-17 ..= 2^17, double
    /// where the exponent grows by one (give or take 2^-18), and grow by two
    /// parts in a hundred at least where it grows by a sixteenth or more.
    #[verifier::opaque]
    pub open spec fn doubles(self) -> bool {
        &&& forall|x: Bits|
            word::between(0xc180_0000, x, 0x4180_0000) ==> word::between(
                0x3700_0000,
                #[trigger] self.pow(F2, x),
                0x4800_0000,
            )
        &&& forall|x: Bits, y: Bits|
            word::between(0xc180_0000, x, 0x4180_0000) && word::between(
                0xc180_0000,
                y,
                0x4180_0000,
            ) && 0x4_0000 * gap(word::value(y) - word::value(x), word::one() as int)
                <= word::one() ==> 20_000 * gap(
                word::value(#[trigger] self.pow(F2, y)),
                2 * word::value(#[trigger] self.pow(F2, x)),
            ) <= word::value(self.pow(F2, y))
        &&& forall|x: Bits, y: Bits|
            word::between(0xc180_0000, x, 0x4180_0000) && word::between(
                0xc180_0000,
                y,
                0x4180_0000,
            ) && 16 * (word::value(y) - word::value(x)) >= word::one() ==> 100 * word::value(
                #[trigger] self.pow(F2, y),
            ) >= 102 * word::value(#[trigger] self.pow(F2, x))
    }

    /// The exponential of what is not positive lies in 0 ..= 1, and down to
    /// -1/8 it is at least 3/4.
    #[verifier::opaque]
    pub open spec fn decays(self) -> bool {
        &&& forall|x: Bits|
            word::finite(x) && word::value(x) <= 0 ==> word::between(
                F0,
                #[trigger] self.exp(x),
                F1,
            )
        &&& forall|x: Bits|
            word::between(0xbe00_0000, x, F0) ==> word::between(
                0x3f40_0000,
                #[trigger] self.exp(x),
                F1,
            )
    }

    /// Sines lie in -1 ..= 1.
    #[verifier::opaque]
    pub open spec fn sines_bounded(self) -> bool {
        forall|x: Bits|
            word::finite(x) ==> word::between(0xbf80_0000, #[trigger] self.sin(x), F1)
    }

    /// The hyperbolic tangent of zero is zero.
    pub open spec fn bends_from_zero(self) -> bool {
        forall|x: Bits| word::magnitude(x) == 0 ==> word::magnitude(#[trigger] self.tanh(x)) == 0
    }

    /// A hyperbolic tangent lies in -1 ..= 1 or is not a number.
    pub open spec fn clips(self) -> bool {
        forall|x: Bits|
            word::is_nan(#[trigger] self.tanh(x)) || word::between(
                0xbf80_0000,
                self.tanh(x),
                F1,
            )
    }
}

// ---------------------------------------------------------------------------
// Values and ranks
// ---------------------------------------------------------------------------

/// Ranks are ordered as the values are.
pub proof fn lemma_rank_is_value(x: Bits, y: Bits)
    ensures
        word::rank(x) < word::rank(y) <==> word::value(x) < word::value(y),
        word::rank(x) == word::rank(y) <==> word::value(x) == word::value(y),
        word::rank(x) == 0 <==> word::value(x) == 0,
        word::rank(x) > 0 <==> word::value(x) > 0,
        word::rank(x) < 0 <==> word::value(x) < 0,
{
    let a = word::magnitude(x) as nat;
    let b = word::magnitude(y) as nat;
    lemma2_to64();
    word::law_order_is_numeric(a, b, 23);
    word::law_order_is_numeric(b, a, 23);
    word::law_order_is_numeric(0, a, 23);
    word::law_order_is_numeric(0, b, 23);
    assert(word::steps(0, 23) == 0);
}

/// What lies between two values, as numbers.
pub proof fn lemma_between(lo: Bits, x: Bits, hi: Bits)
    ensures
        word::between(lo, x, hi) <==> {
            &&& !word::is_nan(lo)
            &&& !word::is_nan(x)
            &&& !word::is_nan(hi)
            &&& word::value(lo) <= word::value(x) <= word::value(hi)
        },
        word::between(lo, x, hi) && word::finite(lo) && word::finite(hi) ==> word::finite(x),
{
    lemma_rank_is_value(lo, x);
    lemma_rank_is_value(x, hi);
}

/// A pattern without fraction bits is a power of two.
pub proof fn lemma_power(x: Bits)
    requires
        x % 0x80_0000 == 0,
        0x80_0000 <= x <= 0x7f80_0000,
    ensures
        word::value(x) == pow2((22 + x / 0x80_0000) as nat),
{
    lemma2_to64();
    let e = (x / 0x80_0000) as nat;
    lemma_pow2_adds(23, (e - 1) as nat);
}

pub proof fn lemma_one()
    ensures
        word::value(F1) == word::one(),
        word::one() > 0,
        word::value(F0) == 0,
{
    lemma_power(F1);
    lemma_pow2_pos(149);
    lemma_rank_is_value(F0, F1);
}

/// The two ends of the normal range lie far from one.
pub proof fn lemma_far()
    ensures
        0 < 0x1_0000_0000 * word::value(0x0080_0000) <= word::one(),
        word::value(0x7f80_0000) >= 0x1_0000_0000 * word::one(),
{
    lemma2_to64();
    lemma_one();
    lemma_power(0x0080_0000);
    lemma_power(0x7f80_0000);
    lemma_pow2_adds(23, 32);
    lemma_pow2_strictly_increases(55, 149);
    lemma_pow2_adds(149, 128);
    lemma_pow2_strictly_increases(32, 128);
    let one = word::one() as int;
    assert(one * pow2(128) >= one * 0x1_0000_0000) by (nonlinear_arith)
        requires
            pow2(128) >= 0x1_0000_0000,
            one > 0,
    ;
}

/// Two numbers of the same value have the same pattern, unless it is zero.
pub proof fn lemma_same_value(x: Bits, y: Bits)
    requires
        word::value(x) == word::value(y),
    ensures
        word::rank(x) == word::rank(y),
        word::value(x) != 0 ==> x == y,
{
    lemma_rank_is_value(x, y);
}

/// A whole number as a pattern.
pub open spec fn whole(k: int) -> Bits {
    if k < 0 {
        word::neg_of(word::from_nat((-k) as nat))
    } else {
        word::from_nat(k as nat)
    }
}

pub proof fn lemma_whole(k: int)
    requires
        -4000 <= k <= 4000,
    ensures
        word::finite(whole(k)),
        word::value(whole(k)) == k * word::one(),
{
    let n = (if k < 0 {
        -k
    } else {
        k
    }) as nat;
    let x = word::from_nat(n);
    lemma_one();
    word::law_conversion_is_nearest(n);
    lemma_small(n);
    assert(word::value(x) == n * word::one());
    if k < 0 {
        assert(word::value(whole(k)) == -word::value(x));
        assert(-(n * word::one()) == k * word::one()) by (nonlinear_arith)
            requires
                k == -n,
        ;
    }
}

/// A small number converts to a finite pattern without a sign.
proof fn lemma_small(n: nat)
    requires
        n <= 4000,
    ensures
        word::from_nat(n) < 0x7f80_0000,
{
    lemma2_to64();
    if n > 0 {
        word::lemma_lead(n);
        word::lemma_significand(n);
        if word::lead(n) > 12 {
            lemma_pow2_strictly_increases(12, word::lead(n));
        }
    }
}

// ---------------------------------------------------------------------------
// Where a result lies
// ---------------------------------------------------------------------------

/// A rounded result does not pass a number that the exact one does not pass.
pub proof fn lemma_nearest_within(r: Bits, num: int, den: int, lo: Bits, hi: Bits)
    requires
        nearest(r, num, den),
        den > 0,
        !word::is_nan(lo),
        !word::is_nan(hi),
        word::value(lo) * den <= num <= word::value(hi) * den,
    ensures
        word::between(lo, r, hi),
        word::value(lo) <= word::value(r) <= word::value(hi),
        word::finite(lo) && word::finite(hi) ==> word::finite(r),
{
    reveal(nearest);
    let v = word::value(r);
    let l = word::value(lo);
    let h = word::value(hi);
    assert(gap(v * den, num) <= gap(l * den, num));
    assert(gap(v * den, num) <= gap(h * den, num));
    if v > h {
        assert(v * den > h * den) by (nonlinear_arith)
            requires
                v > h,
                den > 0,
        ;
    }
    if v < l {
        assert(v * den < l * den) by (nonlinear_arith)
            requires
                v < l,
                den > 0,
        ;
    }
    lemma_between(lo, r, hi);
}

/// A larger exact result does not round to a smaller number.
pub proof fn lemma_nearest_rises(r: Bits, s: Bits, a: int, b: int, den: int)
    requires
        nearest(r, a, den),
        nearest(s, b, den),
        den > 0,
        a < b,
    ensures
        !word::is_nan(r),
        !word::is_nan(s),
        word::value(r) <= word::value(s),
{
    reveal(nearest);
    let v = word::value(r);
    let w = word::value(s);
    assert(gap(v * den, a) <= gap(w * den, a));
    assert(gap(w * den, b) <= gap(v * den, b));
    if v > w {
        assert(v * den > w * den) by (nonlinear_arith)
            requires
                v > w,
                den > 0,
        ;
    }
}

/// A rounded result does not rise above a number that the exact one does not
/// rise above.
pub proof fn lemma_not_above(r: Bits, num: int, den: int, hi: Bits)
    requires
        nearest(r, num, den),
        den > 0,
        !word::is_nan(hi),
        num <= word::value(hi) * den,
    ensures
        word::value(r) <= word::value(hi),
{
    reveal(nearest);
    let v = word::value(r);
    let h = word::value(hi);
    assert(gap(v * den, num) <= gap(h * den, num));
    if v > h {
        assert(v * den > h * den) by (nonlinear_arith)
            requires
                v > h,
                den > 0,
        ;
    }
}

/// Nor does it fall below one.
pub proof fn lemma_not_below(r: Bits, num: int, den: int, lo: Bits)
    requires
        nearest(r, num, den),
        den > 0,
        !word::is_nan(lo),
        num >= word::value(lo) * den,
    ensures
        word::value(r) >= word::value(lo),
{
    reveal(nearest);
    let v = word::value(r);
    let l = word::value(lo);
    assert(gap(v * den, num) <= gap(l * den, num));
    if v < l {
        assert(v * den < l * den) by (nonlinear_arith)
            requires
                v < l,
                den > 0,
        ;
    }
}

pub proof fn lemma_sum(m: Sem, x: Bits, y: Bits, lo: Bits, hi: Bits)
    requires
        m.rounds(),
        word::finite(x),
        word::finite(y),
        !word::is_nan(lo),
        !word::is_nan(hi),
        word::value(lo) <= word::value(x) + word::value(y) <= word::value(hi),
    ensures
        word::between(lo, m.add(x, y), hi),
        word::value(lo) <= word::value(m.add(x, y)) <= word::value(hi),
        word::finite(lo) && word::finite(hi) ==> word::finite(m.add(x, y)),
{
    reveal(Sem::rounds);
    lemma_nearest_within(m.add(x, y), word::value(x) + word::value(y), 1, lo, hi);
}

pub proof fn lemma_difference(m: Sem, x: Bits, y: Bits, lo: Bits, hi: Bits)
    requires
        m.rounds(),
        word::finite(x),
        word::finite(y),
        !word::is_nan(lo),
        !word::is_nan(hi),
        word::value(lo) <= word::value(x) - word::value(y) <= word::value(hi),
    ensures
        word::between(lo, m.sub(x, y), hi),
        word::value(lo) <= word::value(m.sub(x, y)) <= word::value(hi),
        word::finite(lo) && word::finite(hi) ==> word::finite(m.sub(x, y)),
{
    reveal(Sem::rounds);
    lemma_nearest_within(m.sub(x, y), word::value(x) - word::value(y), 1, lo, hi);
}

pub proof fn lemma_product(m: Sem, x: Bits, y: Bits, lo: Bits, hi: Bits)
    requires
        m.rounds(),
        word::finite(x),
        word::finite(y),
        !word::is_nan(lo),
        !word::is_nan(hi),
        word::value(lo) * word::one() <= word::value(x) * word::value(y) <= word::value(hi)
            * word::one(),
    ensures
        word::between(lo, m.mul(x, y), hi),
        word::value(lo) <= word::value(m.mul(x, y)) <= word::value(hi),
        word::finite(lo) && word::finite(hi) ==> word::finite(m.mul(x, y)),
{
    reveal(Sem::rounds);
    lemma_one();
    lemma_nearest_within(
        m.mul(x, y),
        word::value(x) * word::value(y),
        word::one() as int,
        lo,
        hi,
    );
}

pub proof fn lemma_quotient(m: Sem, x: Bits, y: Bits, lo: Bits, hi: Bits)
    requires
        m.rounds(),
        word::finite(x),
        word::finite(y),
        word::value(y) > 0,
        !word::is_nan(lo),
        !word::is_nan(hi),
        word::value(lo) * word::value(y) <= word::value(x) * word::one() <= word::value(hi)
            * word::value(y),
    ensures
        word::between(lo, m.div(x, y), hi),
        word::value(lo) <= word::value(m.div(x, y)) <= word::value(hi),
        word::finite(lo) && word::finite(hi) ==> word::finite(m.div(x, y)),
{
    reveal(Sem::rounds);
    lemma_nearest_within(
        m.div(x, y),
        word::value(x) * word::one(),
        word::value(y),
        lo,
        hi,
    );
}

/// The product of a number in 0 ..= 1 and one that is not negative lies
/// between zero and the latter.
pub proof fn lemma_part(m: Sem, x: Bits, k: Bits)
    requires
        m.rounds(),
        word::finite(x),
        word::value(x) >= 0,
        word::between(F0, k, F1),
    ensures
        word::finite(m.mul(x, k)),
        0 <= word::value(m.mul(x, k)) <= word::value(x),
        word::finite(m.mul(k, x)),
        0 <= word::value(m.mul(k, x)) <= word::value(x),
{
    lemma_one();
    lemma_between(F0, k, F1);
    let v = word::value(x);
    let c = word::value(k);
    let one = word::one() as int;
    assert(0 <= v * c <= v * one && v * c == c * v) by (nonlinear_arith)
        requires
            v >= 0,
            0 <= c <= one,
    ;
    lemma_product(m, x, k, F0, x);
    lemma_product(m, k, x, F0, x);
}

/// `a + (b - a) * k` lies between `a` and `b` where `k` lies in 0 ..= 1/4.
pub proof fn lemma_lerp_between(m: Sem, a: Bits, b: Bits, k: Bits)
    requires
        m.rounds(),
        word::finite(a),
        word::finite(b),
        word::finite(m.sub(b, a)),
        word::between(F0, k, 0x3e80_0000),
    ensures
        word::finite(m.lerp(a, b, k)),
        word::value(a) <= word::value(b) ==> word::value(a) <= word::value(m.lerp(a, b, k))
            <= word::value(b),
        word::value(b) <= word::value(a) ==> word::value(b) <= word::value(m.lerp(a, b, k))
            <= word::value(a),
{
    let d = m.sub(b, a);
    let p = m.mul(d, k);
    let e = word::value(b) - word::value(a);
    let one = word::one() as int;
    lemma_one();
    lemma_between(F0, k, 0x3e80_0000);
    lemma_power(0x3e80_0000);
    lemma_pow2_adds(2, 147);
    lemma2_to64();
    let c = word::value(k);
    assert(0 <= 4 * c <= one);
    // Zero is a number too, so rounding at most doubles.
    let v = word::value(d);
    assert(gap(v, e) <= gap(0, e)) by {
        reveal(Sem::rounds);
        reveal(nearest);
        assert(nearest(d, e, 1));
        assert(gap(v * 1, e) <= gap(word::value(F0) * 1, e));
    }
    let w = word::value(p);
    assert(gap(w * one, v * c) <= gap(0, v * c)) by {
        reveal(Sem::rounds);
        reveal(nearest);
        assert(nearest(p, v * c, one));
        assert(gap(w * one, v * c) <= gap(word::value(F0) * one, v * c));
    }
    if e >= 0 {
        assert(0 <= v * c <= v * one) by (nonlinear_arith)
            requires
                v >= 0,
                0 <= 4 * c <= one,
        ;
        lemma_product(m, d, k, F0, d);
        assert(w <= e) by (nonlinear_arith)
            requires
                w * one <= 2 * (v * c),
                0 <= v <= 2 * e,
                0 <= 4 * c <= one,
                one > 0,
        ;
    } else {
        assert(v * one <= v * c <= 0) by (nonlinear_arith)
            requires
                v <= 0,
                0 <= 4 * c <= one,
        ;
        lemma_product(m, d, k, d, F0);
        assert(w >= e) by (nonlinear_arith)
            requires
                w * one >= 2 * (v * c),
                2 * e <= v <= 0,
                0 <= 4 * c <= one,
                one > 0,
        ;
    }
    if e >= 0 {
        lemma_sum(m, a, p, a, b);
    } else {
        lemma_sum(m, a, p, b, a);
    }
}

// ---------------------------------------------------------------------------
// How close a result is
// ---------------------------------------------------------------------------

/// From 2^23 on, neighbouring magnitudes lie one part in 2^23 apart at most.
pub proof fn lemma_step_gap(p: nat)
    requires
        p >= 0x80_0000,
    ensures
        word::steps(p, 23) < word::steps(p + 1, 23),
        0x80_0000 * (word::steps(p + 1, 23) - word::steps(p, 23)) <= word::steps(p, 23),
{
    lemma2_to64();
    word::law_order_is_numeric(p, p + 1, 23);
    let e = p / 0x80_0000;
    let f = p % 0x80_0000;
    let c = pow2((e - 1) as nat) as int;
    lemma_pow2_pos((e - 1) as nat);
    assert(word::steps(p, 23) == (0x80_0000 + f) * c);
    if f + 1 < 0x80_0000 {
        assert((p + 1) / 0x80_0000 == e && (p + 1) % 0x80_0000 == f + 1);
        assert(word::steps(p + 1, 23) == (0x80_0000 + f + 1) * c);
        assert((0x80_0000 + f + 1) * c == (0x80_0000 + f) * c + c) by (nonlinear_arith);
    } else {
        assert((p + 1) / 0x80_0000 == e + 1 && (p + 1) % 0x80_0000 == 0);
        lemma_pow2_unfold(e);
        assert(word::steps(p + 1, 23) == 0x80_0000 * pow2(e));
        assert(0x80_0000 * (2 * c) == (0x80_0000 + f) * c + c) by (nonlinear_arith)
            requires
                f == 0x7f_ffff,
        ;
    }
    assert((0x80_0000 + f) * c >= 0x80_0000 * c) by (nonlinear_arith)
        requires
            f >= 0,
            c >= 0,
    ;
}

/// What lies below a magnitude lies between two neighbours further down.
pub proof fn lemma_bracket(num: int, den: int, k: nat) -> (p: nat)
    requires
        den > 0,
        0 <= num < word::steps(k, 23) * den,
    ensures
        p < k,
        word::steps(p, 23) * den <= num < word::steps(p + 1, 23) * den,
    decreases k,
{
    lemma2_to64();
    let zero = word::steps(0, 23);
    assert(zero * den == 0) by (nonlinear_arith)
        requires
            zero == 0,
    ;
    let q = (k - 1) as nat;
    if word::steps(q, 23) * den <= num {
        q
    } else {
        lemma_bracket(num, den, q)
    }
}

/// A positive result in the normal range is good to one part in 2^23.
pub proof fn lemma_nearest_close(r: Bits, num: int, den: int)
    requires
        nearest(r, num, den),
        den > 0,
        word::value(0x0080_0000) * den <= num < word::value(0x7f80_0000) * den,
    ensures
        0x80_0000 * gap(word::value(r) * den, num) <= num,
{
    lemma2_to64();
    let p = lemma_bracket(num, den, 0x7f80_0000);
    let lo = p as u32;
    let hi = (p + 1) as u32;
    let a = word::value(lo);
    let b = word::value(hi);
    assert(a == word::steps(p, 23) && b == word::steps(p + 1, 23));
    if p < 0x80_0000 {
        word::law_order_is_numeric(p, 0x80_0000, 23);
        word::law_order_is_numeric(p + 1, 0x80_0000, 23);
        word::law_order_is_numeric(0x80_0000, p + 1, 23);
        assert(b <= word::value(0x0080_0000));
        assert(b * den <= word::value(0x0080_0000) * den) by (nonlinear_arith)
            requires
                b <= word::value(0x0080_0000),
                den > 0,
        ;
    }
    lemma_step_gap(p);
    lemma_nearest_within(r, num, den, lo, hi);
    let v = word::value(r);
    assert(a * den <= v * den <= b * den) by (nonlinear_arith)
        requires
            a <= v <= b,
            den > 0,
    ;
    assert(0x80_0000 * (b * den - a * den) <= a * den) by (nonlinear_arith)
        requires
            0x80_0000 * (b - a) <= a,
            den > 0,
    ;
}

/// A result that is not negative is good to one part in 2^23, or to one unit.
pub proof fn lemma_nearest_near(r: Bits, num: int, den: int)
    requires
        nearest(r, num, den),
        den > 0,
        0 <= num < word::value(0x7f80_0000) * den,
    ensures
        word::value(r) >= 0,
        0x80_0000 * gap(word::value(r) * den, num) <= num + 0x80_0000 * den,
{
    lemma2_to64();
    lemma_one();
    let p = lemma_bracket(num, den, 0x7f80_0000);
    let lo = p as u32;
    let hi = (p + 1) as u32;
    let a = word::value(lo);
    let b = word::value(hi);
    assert(a == word::steps(p, 23) && b == word::steps(p + 1, 23));
    lemma_nearest_within(r, num, den, lo, hi);
    let v = word::value(r);
    assert(a * den <= v * den <= b * den) by (nonlinear_arith)
        requires
            a <= v <= b,
            den > 0,
    ;
    if p < 0x80_0000 {
        assert(b == a + 1) by {
            if p + 1 == 0x80_0000 {
                lemma_power(0x0080_0000);
            }
        }
        assert(b * den == a * den + den) by (nonlinear_arith)
            requires
                b == a + 1,
        ;
    } else {
        lemma_step_gap(p);
        assert(0x80_0000 * (b * den - a * den) <= a * den) by (nonlinear_arith)
            requires
                0x80_0000 * (b - a) <= a,
                den > 0,
        ;
    }
}

/// Rounding treats both signs alike.
pub proof fn lemma_nearest_negated(r: Bits, num: int, den: int)
    requires
        nearest(r, num, den),
    ensures
        nearest(word::neg_of(r), -num, den),
        word::value(word::neg_of(r)) == -word::value(r),
{
    reveal(nearest);
    let s = word::neg_of(r);
    assert forall|z: Bits| !word::is_nan(z) implies gap(word::value(s) * den, -num) <= gap(
        #[trigger] word::value(z) * den,
        -num,
    ) by {
        let y = word::neg_of(z);
        let v = word::value(r);
        let w = word::value(z);
        assert(word::value(y) == -w && word::value(s) == -v);
        assert(gap(v * den, num) <= gap(word::value(y) * den, num));
        assert((-v) * den == -(v * den) && (-w) * den == -(w * den)) by (nonlinear_arith);
    }
}

/// A result is good to one part in 2^23, or to one unit.
pub proof fn lemma_near(r: Bits, num: int, den: int)
    requires
        nearest(r, num, den),
        den > 0,
        gap(num, 0) < word::value(0x7f80_0000) * den,
    ensures
        0x80_0000 * gap(word::value(r) * den, num) <= gap(num, 0) + 0x80_0000 * den,
{
    if num >= 0 {
        lemma_nearest_near(r, num, den);
    } else {
        lemma_nearest_negated(r, num, den);
        lemma_nearest_near(word::neg_of(r), -num, den);
        let v = word::value(r);
        assert((-v) * den == -(v * den)) by (nonlinear_arith);
    }
}

/// `a + (b - a) * k`, with `k` in 0 ..= 1, exceeds neither `a` nor `b` in size
/// by more than eight parts in 2^23 and eight units.
pub proof fn lemma_lerp_bounded(m: Sem, a: Bits, b: Bits, k: Bits, most: int)
    requires
        m.rounds(),
        word::finite(a),
        word::finite(b),
        gap(word::value(a), 0) <= most,
        gap(word::value(b), 0) <= most,
        1 <= most,
        8 * most <= word::value(0x7f00_0000),
        word::between(F0, k, F1),
    ensures
        word::finite(m.lerp(a, b, k)),
        0x80_0000 * gap(word::value(m.lerp(a, b, k)), 0) <= 0x80_0008 * most + 0x400_0000,
{
    lemma_one();
    lemma_between(F0, k, F1);
    let one = word::one() as int;
    let top: Bits = 0x7f00_0000;
    let low = word::neg_of(top);
    let t = word::value(top);
    assert(word::value(low) == -t);
    lemma_rank_is_value(top, 0x7f80_0000);
    let inf = word::value(0x7f80_0000);
    let va = word::value(a);
    let vb = word::value(b);
    let c = word::value(k);
    let e = vb - va;
    let d = m.sub(b, a);
    lemma_difference(m, b, a, low, top);
    let vd = word::value(d);
    let p = m.mul(d, k);
    assert(nearest(d, e, 1) && nearest(p, vd * c, one)) by {
        reveal(Sem::rounds);
    }
    lemma_near(d, e, 1);
    assert(0x80_0000 * gap(vd, e) <= 2 * most + 0x80_0000);
    assert(gap(vd, 0) <= 4 * most + 2);
    assert(gap(vd * c, 0) <= gap(vd, 0) * one) by (nonlinear_arith)
        requires
            0 <= c <= one,
            gap(vd, 0) == vd || gap(vd, 0) == -vd,
            gap(vd, 0) >= 0,
            gap(vd * c, 0) == vd * c || gap(vd * c, 0) == -(vd * c),
    ;
    assert(gap(vd, 0) * one < inf * one && gap(vd, 0) * one <= t * one) by (nonlinear_arith)
        requires
            gap(vd, 0) <= t,
            t < inf,
            one > 0,
    ;
    assert((-t) * one == -(t * one)) by (nonlinear_arith);
    lemma_product(m, d, k, low, top);
    lemma_near(p, vd * c, one);
    let vp = word::value(p);
    let g = gap(vd, e);
    assert(gap(vd * c, e * c) <= g * one) by (nonlinear_arith)
        requires
            0 <= c <= one,
            g >= 0,
            g == vd - e || g == e - vd,
            gap(vd * c, e * c) == vd * c - e * c || gap(vd * c, e * c) == e * c - vd * c,
    ;
    let mid = va * one + e * c;
    assert(-(most * one) <= mid <= most * one) by (nonlinear_arith)
        requires
            mid == va * one + (vb - va) * c,
            -most <= va <= most,
            -most <= vb <= most,
            0 <= c <= one,
    ;
    let sum = va + vp;
    let r = m.add(a, p);
    assert(sum * one == va * one + vp * one) by (nonlinear_arith)
        requires
            sum == va + vp,
    ;
    assert(0x80_0000 * (g * one) <= 2 * (most * one) + 0x80_0000 * one) by (nonlinear_arith)
        requires
            0x80_0000 * g <= 2 * most + 0x80_0000,
            one > 0,
    ;
    assert(gap(vd, 0) * one <= 4 * (most * one) + 2 * one) by (nonlinear_arith)
        requires
            gap(vd, 0) <= 4 * most + 2,
            one > 0,
    ;
    let w = most * one;
    let off1 = vd * c - e * c;
    let off2 = vp * one - vd * c;
    assert(sum * one == mid + off1 + off2);
    assert(0x80_0000 * gap(off1, 0) <= 2 * w + 0x80_0000 * one);
    assert(0x80_0000 * gap(off2, 0) <= 4 * w + 2 * one + 0x80_0000 * one);
    assert(gap(sum * one, 0) <= w + gap(off1, 0) + gap(off2, 0));
    assert(0x80_0000 * gap(sum * one, 0) <= 0x80_0006 * w + 0x180_0000 * one);
    assert(gap(sum * one, 0) == gap(sum, 0) * one) by {
        assert((-sum) * one == -(sum * one)) by (nonlinear_arith);
        assert(sum * one < 0 <==> sum < 0) by (nonlinear_arith)
            requires
                one > 0,
        ;
    }
    assert(0x80_0000 * gap(sum, 0) <= 0x80_0006 * most + 0x180_0000) by (nonlinear_arith)
        requires
            0x80_0000 * gap(sum * one, 0) <= 0x80_0006 * (most * one) + 0x180_0000 * one,
            gap(sum * one, 0) == gap(sum, 0) * one,
            one > 0,
    ;
    assert(gap(sum, 0) <= t);
    lemma_sum(m, a, p, low, top);
    assert(nearest(r, sum, 1)) by {
        reveal(Sem::rounds);
    }
    lemma_near(r, sum, 1);
}

} // verus!
