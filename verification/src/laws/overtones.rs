//! What holds of the overtones' levels.

use crate::alu::Sem;
use crate::block;
use crate::consts::{F0, F0_5, F1, F1E_9, F4};
use crate::laws;
use crate::params;
use crate::params::RANGES;
use crate::rounding;
use crate::word;
use crate::word::Bits;
use vstd::arithmetic::power2::*;
use vstd::prelude::*;

verus! {

/// The sum of the squares of the first `k` levels, in units squared.
pub open spec fn power_of(w: [Bits; 16], k: nat) -> int
    decreases k,
{
    if k == 0 {
        0
    } else {
        power_of(w, (k - 1) as nat) + word::value(w[k - 1]) * word::value(w[k - 1])
    }
}

// ---------------------------------------------------------------------------
// The levels
// ---------------------------------------------------------------------------

/// The exponent of the overtones' tilt.
spec fn tilt_of(m: Sem, q: [Bits; 63]) -> Bits {
    m.mul(m.sub(params::mapped(m, 8, q[8]), F0_5), F4)
}

proof fn lemma_tilt(m: Sem, q: [Bits; 63])
    requires
        m.rounds(),
        !word::is_nan(q[8]),
    ensures
        word::between(0xc000_0000, tilt_of(m, q), 0x4000_0000),
{
    rounding::lemma_one();
    lemma_marks();
    let one = word::one() as int;
    assert(RANGES[8] == (F0, F1, false));
    laws::settings::law_proportion(m, 8, q[8]);
    let set = params::mapped(m, 8, q[8]);
    rounding::lemma_between(F0, set, F1);
    rounding::lemma_difference(m, set, F0_5, 0xbf00_0000, F0_5);
    let off = m.sub(set, F0_5);
    let v = word::value(off);
    let f = word::value(F4);
    assert((-2 * one) * one <= v * f <= (2 * one) * one) by (nonlinear_arith)
        requires
            -one <= 2 * v <= one,
            f == 4 * one,
            one > 0,
    ;
    rounding::lemma_product(m, off, F4, 0xc000_0000, 0x4000_0000);
}

proof fn lemma_marks()
    ensures
        2 * word::value(F0_5) == word::one(),
        word::value(0xbf00_0000) == -word::value(F0_5),
        word::value(F4) == 4 * word::one(),
        word::value(0x4000_0000) == 2 * word::one(),
        word::value(0xc000_0000) == -2 * word::one(),
        word::value(0x4180_0000) == 16 * word::one(),
        word::value(0x4400_0000) == 512 * word::one(),
        word::value(0x4880_0000) == 0x4_0000 * word::one(),
        word::value(0x4e80_0000) == 0x4000_0000 * word::one(),
        word::value(0x5380_0000) >= 0x4000_0000 * word::one(),
{
    lemma2_to64();
    rounding::lemma_one();
    rounding::lemma_power(F0_5);
    rounding::lemma_power(F4);
    rounding::lemma_power(0x4000_0000);
    rounding::lemma_power(0x4180_0000);
    rounding::lemma_power(0x4400_0000);
    rounding::lemma_power(0x4880_0000);
    rounding::lemma_power(0x4e80_0000);
    lemma_pow2_adds(148, 1);
    lemma_pow2_adds(149, 1);
    lemma_pow2_adds(149, 2);
    lemma_pow2_adds(149, 4);
    lemma_pow2_adds(149, 9);
    lemma_pow2_adds(149, 18);
    lemma_pow2_adds(149, 30);
    rounding::lemma_rank_is_value(0x4e80_0000, 0x5380_0000);
    assert(word::value(0xc000_0000) == -word::value(0x4000_0000));
}

/// A level lies in 0 ..= 512.
proof fn lemma_level(m: Sem, q: [Bits; 63], tilt: Bits, i: int)
    requires
        m.rounds(),
        m.powers_tilt(),
        word::between(0xc000_0000, tilt, 0x4000_0000),
        0 <= i < 16,
        !word::is_nan(q[10 + i]),
    ensures
        word::finite(block::level_of(m, q, tilt, i)),
        0 <= word::value(block::level_of(m, q, tilt, i)) <= 512 * word::one(),
{
    rounding::lemma_one();
    lemma_marks();
    lemma_unit_ranges(i);
    laws::settings::law_proportion(m, 10 + i, q[10 + i]);
    let set = params::mapped(m, 10 + i, q[10 + i]);
    let n = word::from_nat((i + 1) as nat);
    rounding::lemma_whole(i + 1);
    let one = word::one() as int;
    assert(one <= (i + 1) * one <= 16 * one) by (nonlinear_arith)
        requires
            0 <= i < 16,
            one > 0,
    ;
    rounding::lemma_between(F1, n, 0x4180_0000);
    let p = m.pow(n, tilt);
    assert(word::between(0x3b00_0000, p, 0x4400_0000)) by {
        reveal(Sem::powers_tilt);
    }
    rounding::lemma_between(0x3b00_0000, p, 0x4400_0000);
    rounding::lemma_rank_is_value(F0, 0x3b00_0000);
    rounding::lemma_part(m, p, set);
}

pub proof fn lemma_unit_ranges(i: int)
    requires
        0 <= i < 16,
    ensures
        RANGES[10 + i] == (F0, F1, false),
{
    assert(RANGES[10] == (F0, F1, false));
    assert(RANGES[11] == (F0, F1, false));
    assert(RANGES[12] == (F0, F1, false));
    assert(RANGES[13] == (F0, F1, false));
    assert(RANGES[14] == (F0, F1, false));
    assert(RANGES[15] == (F0, F1, false));
    assert(RANGES[16] == (F0, F1, false));
    assert(RANGES[17] == (F0, F1, false));
    assert(RANGES[18] == (F0, F1, false));
    assert(RANGES[19] == (F0, F1, false));
    assert(RANGES[20] == (F0, F1, false));
    assert(RANGES[21] == (F0, F1, false));
    assert(RANGES[22] == (F0, F1, false));
    assert(RANGES[23] == (F0, F1, false));
    assert(RANGES[24] == (F0, F1, false));
    assert(RANGES[25] == (F0, F1, false));
}

/// The power in a level lies in 2^-9 ..= 2^9.
pub proof fn lemma_level_power(m: Sem, q: [Bits; 63], i: int)
    requires
        m.rounds(),
        m.powers_tilt(),
        !word::is_nan(q[8]),
        0 <= i < 16,
    ensures
        word::between(
            0x3b00_0000,
            m.pow(
                word::from_nat((i + 1) as nat),
                m.mul(m.sub(params::mapped(m, 8, q[8]), F0_5), F4),
            ),
            0x4400_0000,
        ),
{
    rounding::lemma_one();
    lemma_marks();
    lemma_tilt(m, q);
    let n = word::from_nat((i + 1) as nat);
    rounding::lemma_whole(i + 1);
    let one = word::one() as int;
    assert(one <= (i + 1) * one <= 16 * one) by (nonlinear_arith)
        requires
            0 <= i < 16,
            one > 0,
    ;
    rounding::lemma_between(F1, n, 0x4180_0000);
    reveal(Sem::powers_tilt);
}

/// The levels of a block, one by one.
pub proof fn lemma_block_level(
    m: Sem,
    q: [Bits; 63],
    sr: Bits,
    active: nat,
    n_frames: nat,
    i: int,
)
    requires
        0 <= i < 16,
    ensures
        block::block_of(m, q, sr, active, n_frames).w[i] == block::level_of(
            m,
            q,
            m.mul(m.sub(params::mapped(m, 8, q[8]), F0_5), F4),
            i,
        ),
{
    lemma_weighed_level(m, q, tilt_of(m, q), 16, i);
}

proof fn lemma_weighed_level(m: Sem, q: [Bits; 63], tilt: Bits, k: nat, i: int)
    requires
        0 <= i < k <= 16,
    ensures
        block::weighed(m, q, tilt, k).w[i] == block::level_of(m, q, tilt, i),
    decreases k,
{
    if i < k - 1 {
        lemma_weighed_level(m, q, tilt, (k - 1) as nat, i);
    }
}

// ---------------------------------------------------------------------------
// Their sum
// ---------------------------------------------------------------------------

/// What the sum of squares starts from, as a number.
proof fn lemma_start()
    ensures
        word::finite(F1E_9),
        1_000_000_000 * word::value(F1E_9) <= word::one(),
        word::value(F1E_9) >= 0x1_0000_0000,
        0x4000_0000 * word::value(F1E_9) >= word::one(),
{
    lemma2_to64();
    let p = pow2(96) as int;
    lemma_pow2_adds(21, 32);
    lemma_pow2_adds(53, 96);
    lemma_pow2_strictly_increases(32, 96);
    assert(word::value(F1E_9) == 9_007_199 * p);
    assert(word::one() == 9_007_199_254_740_992 * p);
}

/// Adding on a square keeps the rounded sum close to the exact one.
proof fn lemma_close_step(a: int, b: int, c: int, e: int, w: int, one: int, k: int)
    requires
        0 <= k < 16,
        0 <= a,
        0 <= b,
        0 <= w,
        one > 0,
        e >= 0x1_0000_0000 * one,
        0x80_0000 * rounding::gap(a, e) <= 3 * k * e,
        0x80_0000 * rounding::gap(b, w) <= w + 0x80_0000 * one,
        0x80_0000 * rounding::gap(c, a + b) <= a + b + 0x80_0000 * one,
    ensures
        0x80_0000 * rounding::gap(c, e + w) <= 3 * (k + 1) * (e + w),
{
    let x = 3 * k * e;
    assert(x <= 48 * e) by (nonlinear_arith)
        requires
            x == 3 * k * e,
            0 <= k < 16,
            e >= 0,
    ;
    assert(3 * (k + 1) * (e + w) >= x + 3 * e + 3 * w) by (nonlinear_arith)
        requires
            x == 3 * k * e,
            0 <= k,
            w >= 0,
    ;
    assert(100 * a <= 101 * e);
    assert(100 * b <= 101 * w + 100 * one);
    assert(rounding::gap(c, e + w) <= rounding::gap(c, a + b) + rounding::gap(a, e)
        + rounding::gap(b, w));
}

proof fn lemma_sum(m: Sem, q: [Bits; 63], tilt: Bits, k: nat)
    requires
        m.rounds(),
        k <= 16,
        forall|i: int|
            0 <= i < 16 ==> {
                let l = #[trigger] block::level_of(m, q, tilt, i);
                word::finite(l) && 0 <= word::value(l) <= 512 * word::one()
            },
    ensures
        ({
            let r = block::weighed(m, q, tilt, k);
            let e = power_of(r.w, k) + word::value(F1E_9) * word::one();
            &&& word::finite(r.sum)
            &&& word::value(r.sum) > 0
            &&& 0x80_0000 * rounding::gap(word::value(r.sum) * word::one(), e) <= 3 * k * e
            &&& word::value(F1E_9) * word::one() <= e <= (1 + 0x4_0000 * k) * (word::one()
                * word::one())
            &&& forall|i: int|
                0 <= i < k ==> #[trigger] r.w[i] == block::level_of(m, q, tilt, i)
        }),
    decreases k,
{
    rounding::lemma_one();
    lemma_marks();
    lemma_start();
    let one = word::one() as int;
    let start = word::value(F1E_9);
    if k == 0 {
        assert(start * one <= one * one) by (nonlinear_arith)
            requires
                0 <= start <= one,
        ;
        assert((1 + 0x4_0000 * k) * (one * one) == one * one) by (nonlinear_arith)
            requires
                k == 0,
        ;
        assert(3 * k * (start * one) == 0) by (nonlinear_arith)
            requires
                k == 0,
        ;
    } else {
        let i = k - 1;
        lemma_sum(m, q, tilt, i as nat);
        let before = block::weighed(m, q, tilt, i as nat);
        let r = block::weighed(m, q, tilt, k);
        let l = block::level_of(m, q, tilt, i);
        assert(word::finite(l) && 0 <= word::value(l) <= 512 * one);
        lemma_same_power(before.w, r.w, i as nat);
        let v = word::value(l);
        let w = v * v;
        let e = power_of(before.w, i as nat) + start * one;
        let oo = one * one;
        assert(0 <= w <= 0x4_0000 * oo) by (nonlinear_arith)
            requires
                w == v * v,
                0 <= v <= 512 * one,
                oo == one * one,
        ;
        assert((0x4_0000 * one) * one == 0x4_0000 * oo) by (nonlinear_arith)
            requires
                oo == one * one,
        ;
        assert(0 * one == 0) by (nonlinear_arith);
        rounding::lemma_product(m, l, l, F0, 0x4880_0000);
        let sq = m.mul(l, l);
        let b = word::value(sq);
        let s = word::value(before.sum);
        // The sum so far is finite and small.
        assert((1 + 0x4_0000 * i) * oo <= 0x40_0000 * oo) by (nonlinear_arith)
            requires
                0 <= i < 16,
                oo >= 0,
        ;
        let x = 3 * i * e;
        assert(start * one >= 0) by (nonlinear_arith)
            requires
                start >= 0,
                one > 0,
        ;
        assert(x <= 48 * e) by (nonlinear_arith)
            requires
                x == 3 * i * e,
                0 <= i < 16,
                e >= 0,
        ;
        assert(s * one <= 0x80_0000 * oo);
        assert(s <= 0x80_0000 * one) by (nonlinear_arith)
            requires
                s * one <= 0x80_0000 * oo,
                oo == one * one,
                one > 0,
        ;
        rounding::lemma_sum(m, before.sum, sq, before.sum, 0x4e80_0000);
        // How close it is.
        rounding::lemma_far();
        let inf = word::value(0x7f80_0000);
        assert(w < inf * one) by (nonlinear_arith)
            requires
                w <= 0x4_0000 * oo,
                oo == one * one,
                inf >= 0x1_0000_0000 * one,
                one > 0,
        ;
        let c = word::value(r.sum);
        assert(rounding::nearest(sq, w, one) && rounding::nearest(r.sum, s + b, 1)) by {
            reveal(Sem::rounds);
        }
        rounding::lemma_nearest_near(sq, w, one);
        rounding::lemma_nearest_near(r.sum, s + b, 1);
        assert((s + b) * one == s * one + b * one) by (nonlinear_arith);
        lemma_scaled(c, s + b, one);
        assert(s * one >= 0 && b * one >= 0) by (nonlinear_arith)
            requires
                s >= 0,
                b >= 0,
                one > 0,
        ;
        assert(e >= 0x1_0000_0000 * one) by {
            assert(start * one >= 0x1_0000_0000 * one) by (nonlinear_arith)
                requires
                    start >= 0x1_0000_0000,
                    one > 0,
            ;
        }
        lemma_close_step(s * one, b * one, c * one, e, w, one, i);
        assert(power_of(r.w, k) == power_of(before.w, i as nat) + w);
        assert((1 + 0x4_0000 * k) * oo == (1 + 0x4_0000 * i) * oo + 0x4_0000 * oo)
            by (nonlinear_arith)
            requires
                k == i + 1,
        ;
        assert forall|j: int| 0 <= j < k implies #[trigger] r.w[j] == block::level_of(
            m,
            q,
            tilt,
            j,
        ) by {
            if j < i {
                assert(before.w[j] == block::level_of(m, q, tilt, j));
            }
        }
    }
}

proof fn lemma_scaled(c: int, s: int, one: int)
    requires
        0x80_0000 * rounding::gap(c, s) <= s + 0x80_0000,
        one > 0,
    ensures
        0x80_0000 * rounding::gap(c * one, s * one) <= s * one + 0x80_0000 * one,
{
    let g = rounding::gap(c, s);
    assert(rounding::gap(c * one, s * one) == g * one) by {
        assert((c - s) * one == c * one - s * one) by (nonlinear_arith);
        assert((s - c) * one == s * one - c * one) by (nonlinear_arith);
        assert((c - s) * one < 0 <==> c < s) by (nonlinear_arith)
            requires
                one > 0,
        ;
    }
    assert(0x80_0000 * (g * one) <= s * one + 0x80_0000 * one) by (nonlinear_arith)
        requires
            0x80_0000 * g <= s + 0x80_0000,
            one > 0,
    ;
}

proof fn lemma_same_power(v: [Bits; 16], w: [Bits; 16], k: nat)
    requires
        k <= 16,
        forall|i: int| 0 <= i < k ==> #[trigger] v[i] == w[i],
    ensures
        power_of(v, k) == power_of(w, k),
    decreases k,
{
    if k > 0 {
        lemma_same_power(v, w, (k - 1) as nat);
        assert(v[k - 1] == w[k - 1]);
    }
}

// ---------------------------------------------------------------------------
// The norm
// ---------------------------------------------------------------------------

/// The last step of the law: with `r` the root of the sum, good to one part in
/// 2^20, and `n` its reciprocal, good to one in 2^23.
proof fn lemma_norm(n: int, r: int, a: int, e: int, oo: int)
    requires
        n >= 0,
        e >= 0,
        oo > 0,
        0x80_0000 * rounding::gap(a, e) <= 48 * e,
        0x10_0000 * rounding::gap(r * r, a) <= a,
        0x80_0000 * rounding::gap(n * r, oo) <= oo,
    ensures
        20_000 * rounding::gap(n * n * e, oo * oo) <= oo * oo,
{
    let rr = r * r;
    let x = n * r;
    let nn = n * n;
    assert(50_000 * rounding::gap(rr, e) <= e);
    let d = rr - e;
    let top = nn * e;
    let xx = x * x;
    let square = oo * oo;
    assert(nn >= 0) by (nonlinear_arith)
        requires
            nn == n * n,
    ;
    assert(xx == nn * rr) by (nonlinear_arith)
        requires
            xx == x * x,
            x == n * r,
            nn == n * n,
            rr == r * r,
    ;
    assert(nn * rr - nn * e == nn * d) by (nonlinear_arith)
        requires
            d == rr - e,
    ;
    assert(-top <= 50_000 * (nn * d) <= top) by (nonlinear_arith)
        requires
            -e <= 50_000 * d <= e,
            nn >= 0,
            top == nn * e,
    ;
    let o = x - oo;
    assert(xx - square == o * (2 * oo + o)) by (nonlinear_arith)
        requires
            xx == x * x,
            square == oo * oo,
            o == x - oo,
    ;
    assert(-3 * square <= 0x80_0000 * (o * (2 * oo + o)) <= 3 * square) by (nonlinear_arith)
        requires
            -oo <= 0x80_0000 * o <= oo,
            oo > 0,
            square == oo * oo,
    ;
}

/// The part of the law that does not look at the block.
proof fn lemma_constant_power(m: Sem, q: [Bits; 63])
    requires
        m.rounds(),
        m.roots(),
        m.powers_tilt(),
        !word::is_nan(q[8]),
        forall|i: int| 10 <= i < 26 ==> !word::is_nan(#[trigger] q[i]),
    ensures
        ({
            let one = word::one() as int;
            let r = block::weighed(m, q, tilt_of(m, q), 16);
            let n = word::value(m.div(F1, m.sqrt(r.sum)));
            let e = power_of(r.w, 16) + word::value(F1E_9) * one;
            &&& e >= 0
            &&& 20_000 * rounding::gap(n * n * e, (one * one) * (one * one)) <= (one * one) * (one
                * one)
        }),
{
    lemma2_to64();
    rounding::lemma_one();
    lemma_marks();
    lemma_start();
    lemma_tilt(m, q);
    rounding::lemma_far();
    let one = word::one() as int;
    let oo = one * one;
    let tilt = tilt_of(m, q);
    assert forall|i: int| 0 <= i < 16 implies {
        let l = #[trigger] block::level_of(m, q, tilt, i);
        word::finite(l) && 0 <= word::value(l) <= 512 * one
    } by {
        assert(!word::is_nan(q[10 + i]));
        lemma_level(m, q, tilt, i);
    }
    lemma_sum(m, q, tilt, 16);
    let sums = block::weighed(m, q, tilt, 16);
    let start = word::value(F1E_9);
    let e = power_of(sums.w, 16) + start * one;
    let s = word::value(sums.sum);
    assert(3 * 16 * e == 48 * e) by (nonlinear_arith);
    assert((1 + 0x4_0000 * 16) * oo == 0x40_0001 * oo) by (nonlinear_arith);
    assert(start * one > 0 && 0x4000_0000 * (start * one) >= oo) by (nonlinear_arith)
        requires
            start > 0,
            0x4000_0000 * start >= one,
            one > 0,
            oo == one * one,
    ;
    // The sum lies where roots are good.
    assert(s * one <= 0x80_0000 * oo && 0x8000_0000 * (s * one) >= oo);
    assert(s <= 0x80_0000 * one && 0x8000_0000 * s >= one) by (nonlinear_arith)
        requires
            s * one <= 0x80_0000 * oo,
            0x8000_0000 * (s * one) >= oo,
            oo == one * one,
            one > 0,
    ;
    rounding::lemma_power(0x3000_0000);
    lemma_pow2_adds(118, 31);
    rounding::lemma_rank_is_value(0x2b80_0000, 0x3000_0000);
    rounding::lemma_between(0x2b80_0000, sums.sum, 0x5380_0000);
    let root = m.sqrt(sums.sum);
    assert(word::finite(root) && word::value(root) > 0 && 0x10_0000 * rounding::gap(
        word::value(root) * word::value(root),
        s * one,
    ) <= s * one) by {
        reveal(Sem::roots);
    }
    let r = word::value(root);
    let rr = r * r;
    assert(rr <= 0x100_0000 * oo && 0x1_0000_0000 * rr >= oo);
    assert(r <= 0x1000 * one) by (nonlinear_arith)
        requires
            rr == r * r,
            r > 0,
            one > 0,
            oo == one * one,
            rr <= 0x100_0000 * oo,
    ;
    assert(0x1_0000 * r >= one) by (nonlinear_arith)
        requires
            rr == r * r,
            r > 0,
            one > 0,
            oo == one * one,
            0x1_0000_0000 * rr >= oo,
    ;
    // And its reciprocal lies in the normal range.
    let least = word::value(0x0080_0000);
    let inf = word::value(0x7f80_0000);
    assert(least * r <= oo) by (nonlinear_arith)
        requires
            0 < 0x1_0000_0000 * least <= one,
            0 < r <= 0x1000 * one,
            oo == one * one,
    ;
    assert(oo < inf * r) by (nonlinear_arith)
        requires
            inf >= 0x1_0000_0000 * one,
            0x1_0000 * r >= one,
            one > 0,
            oo == one * one,
    ;
    let norm = m.div(F1, root);
    assert(rounding::nearest(norm, oo, r)) by {
        reveal(Sem::rounds);
    }
    rounding::lemma_nearest_close(norm, oo, r);
    let n = word::value(norm);
    assert(n >= 0) by (nonlinear_arith)
        requires
            0x80_0000 * rounding::gap(n * r, oo) <= oo,
            rounding::gap(n * r, oo) >= oo - n * r,
            oo > 0,
            r > 0,
    ;
    lemma_norm(n, r, s * one, e, oo);
}

/// The levels are scaled to constant power: the sum of their squares and of
/// the 10^-9 that keeps it from zero, times the norm's square, is 1 to within
/// one part in 20000, whatever the settings.
pub proof fn law_constant_power(m: Sem, q: [Bits; 63], sr: Bits, active: nat, n_frames: nat)
    requires
        m.rounds(),
        m.roots(),
        m.powers_tilt(),
        !word::is_nan(q[8]),
        forall|i: int| 10 <= i < 26 ==> !word::is_nan(#[trigger] q[i]),
    ensures
        ({
            let one = word::one() as int;
            let b = block::block_of(m, q, sr, active, n_frames);
            let n = word::value(b.w_norm);
            let e = power_of(b.w, 16) + word::value(F1E_9) * one;
            20_000 * rounding::gap(n * n * e, (one * one) * (one * one)) <= (one * one) * (one
                * one)
        }),
{
    lemma_constant_power(m, q);
}

/// Where at least one overtone has a level of 2^-7 or more, the sum of the
/// squared levels alone, times the norm's square, is 1 to within one part in
/// 10000.
pub proof fn law_constant_power_heard(
    m: Sem,
    q: [Bits; 63],
    sr: Bits,
    active: nat,
    n_frames: nat,
    i: int,
)
    requires
        m.rounds(),
        m.roots(),
        m.powers_tilt(),
        !word::is_nan(q[8]),
        forall|k: int| 10 <= k < 26 ==> !word::is_nan(#[trigger] q[k]),
        0 <= i < 16,
        word::at_least(block::block_of(m, q, sr, active, n_frames).w[i], 0x3c00_0000),
    ensures
        ({
            let one = word::one() as int;
            let b = block::block_of(m, q, sr, active, n_frames);
            let n = word::value(b.w_norm);
            10_000 * rounding::gap(n * n * power_of(b.w, 16), (one * one) * (one * one)) <= (one
                * one) * (one * one)
        }),
{
    lemma2_to64();
    rounding::lemma_one();
    lemma_start();
    law_constant_power(m, q, sr, active, n_frames);
    let one = word::one() as int;
    let b = block::block_of(m, q, sr, active, n_frames);
    let n = word::value(b.w_norm);
    let start = word::value(F1E_9);
    let power = power_of(b.w, 16);
    let v = word::value(b.w[i]);
    rounding::lemma_rank_is_value(0x3c00_0000, b.w[i]);
    rounding::lemma_power(0x3c00_0000);
    lemma_pow2_adds(142, 7);
    assert(128 * v >= one);
    lemma_power_holds(b.w, 16, i);
    assert(1_000_000_000 * (start * one) <= 0x4000 * (v * v)) by (nonlinear_arith)
        requires
            1_000_000_000 * start <= one,
            128 * v >= one,
            one > 0,
    ;
    let nn = n * n;
    let little = start * one;
    assert(nn * (power + little) == nn * power + nn * little) by (nonlinear_arith);
    assert(0 <= 1_000_000_000 * (nn * little) <= 0x4000 * (nn * power)) by (nonlinear_arith)
        requires
            nn == n * n,
            0 <= little,
            1_000_000_000 * little <= 0x4000 * power,
    ;
}

proof fn lemma_power_holds(w: [Bits; 16], k: nat, i: int)
    requires
        0 <= i < 16,
        k <= 16,
    ensures
        power_of(w, k) >= 0,
        i < k ==> power_of(w, k) >= word::value(w[i]) * word::value(w[i]),
    decreases k,
{
    if k > 0 {
        lemma_power_holds(w, (k - 1) as nat, i);
        let v = word::value(w[k - 1]);
        assert(v * v >= 0) by (nonlinear_arith);
    }
}

} // verus!
