//! How the morph goes through the frames of the table, in numbers.

use crate::alu::Sem;
use crate::block;
use crate::consts::{F0, F1, F2048};
use crate::laws;
use crate::params;
use crate::params::RANGES;
use crate::rounding;
use crate::rounding::reals;
use crate::rounding::reals::{dist, num, size};
use crate::table;
use crate::word;
use crate::word::Bits;
use vstd::arithmetic::power2::*;
use vstd::prelude::*;

verus! {

/// A number brought into 0 ..= 1.
pub open spec fn unit(x: real) -> real {
    if x < 0real {
        0real
    } else if x > 1real {
        1real
    } else {
        x
    }
}

/// A parameter of the range 0 ..= 1 is its setting, brought into that range.
pub proof fn law_unit_setting(m: Sem, i: int, x: Bits)
    requires
        m.rounds(),
        0 <= i < 63,
        RANGES[i] == (F0, F1, false),
        !word::is_nan(x),
    ensures
        num(params::mapped(m, i, x)) == unit(num(x)),
        word::between(F0, params::mapped(m, i, x), F1),
{
    laws::settings::law_proportion(m, i, x);
    reals::lemma_num(x, F0);
    reals::lemma_num(F1, x);
    reals::lemma_num(F0, F1);
    reals::lemma_num(F0, x);
    let c = word::clamp_of(x, F0, F1);
    rounding::lemma_rank_is_value(params::mapped(m, i, x), c);
    reals::lemma_num(params::mapped(m, i, x), c);
}

/// The morph spans all frames in use: with `n` of them, a setting of 0 or less
/// reads the first, one of 1 or more the last, and what lies between is read
/// where the setting divides the way from the first to the last.
pub proof fn law_morph_spans_frames(
    m: Sem,
    q: [Bits; 63],
    sr: Bits,
    active: nat,
    n: nat,
)
    requires
        m.rounds(),
        !word::is_nan(q[27]),
        2 <= n <= 64,
    ensures
        ({
            let b = block::block_of(m, q, sr, active, n);
            &&& b.fi + 2 <= n
            &&& word::between(F0, b.ff, F1)
            &&& dist((b.fi as real) + num(b.ff), unit(num(q[27])) * ((n - 1) as real)) <= 1real
                / 100000real
            &&& num(q[27]) <= 0real ==> b.fi == 0 && num(b.ff) == 0real
            &&& num(q[27]) >= 1real ==> b.fi + 2 == n && num(b.ff) == 1real
        }),
{
    rounding::lemma_one();
    reals::lemma_tiny();
    reals::lemma_num(F0, F1);
    assert(RANGES[27] == (F0, F1, false));
    law_unit_setting(m, 27, q[27]);
    let x = params::mapped(m, 27, q[27]);
    reals::lemma_within(F0, x, F1);
    rounding::lemma_between(F0, x, F1);
    let one = word::one() as int;
    let last = word::from_nat((n - 1) as nat);
    rounding::lemma_whole(n - 1);
    reals::lemma_counted(last, n - 1, 1);
    let k = (n - 1) as real;
    let u = num(x);
    assert(0real <= u * k <= 63real) by (nonlinear_arith)
        requires
            0real <= u <= 1real,
            0real <= k <= 63real,
    ;
    reals::lemma_mul(m, x, last);
    let fm = m.mul(x, last);
    let v = word::value(x);
    let w = word::value(last);
    assert(0 <= v * w <= w * one && 0 * one == 0) by (nonlinear_arith)
        requires
            0 <= v <= one,
            w == (n - 1) * one,
            n >= 2,
            one > 0,
    ;
    rounding::lemma_product(m, x, last, F0, last);
    reals::lemma_within(F0, fm, last);
    reals::lemma_trunc(fm);
    let t = word::trunc_of(fm);
    assert(0 <= t <= 63);
    let b = block::block_of(m, q, sr, active, n);
    let i = b.fi as int;
    assert(i == if t < n - 2 {
        t
    } else {
        n - 2
    });
    let whole = word::from_nat(i as nat);
    rounding::lemma_whole(i);
    reals::lemma_counted(whole, i, 1);
    let f = num(fm);
    assert(0real <= f - (i as real) <= 1real);
    reals::lemma_sub(m, fm, whole);
    reals::lemma_multiples(whole, fm, 1, 1);
    lemma_step(fm, whole);
    rounding::lemma_difference(m, fm, whole, F0, F1);
    if num(q[27]) <= 0real {
        rounding::lemma_rank_is_value(F0, x);
        reals::lemma_num(F0, x);
        assert(v * w == 0) by (nonlinear_arith)
            requires
                v == 0,
        ;
        rounding::lemma_product(m, x, last, F0, F0);
        reals::lemma_within(F0, fm, F0);
        assert(t == 0 && i == 0);
        rounding::lemma_rank_is_value(F0, fm);
        rounding::lemma_rank_is_value(F0, whole);
        reals::lemma_num(F0, fm);
        reals::lemma_num(F0, whole);
        rounding::lemma_difference(m, fm, whole, F0, F0);
        reals::lemma_within(F0, b.ff, F0);
    }
    if num(q[27]) >= 1real {
        reals::lemma_num(x, F1);
        rounding::lemma_rank_is_value(x, F1);
        assert(v * w == w * one) by (nonlinear_arith)
            requires
                v == one,
        ;
        rounding::lemma_product(m, x, last, last, last);
        reals::lemma_within(last, fm, last);
        assert(i == n - 2);
        rounding::lemma_rank_is_value(fm, last);
        reals::lemma_num(fm, last);
        assert((n - 1) * one == (n - 2) * one + one) by (nonlinear_arith);
        rounding::lemma_difference(m, fm, whole, F1, F1);
        reals::lemma_within(F1, b.ff, F1);
    }
}

/// The way from a whole number to a value at most one above it.
pub proof fn lemma_step(x: Bits, y: Bits)
    requires
        0real <= num(x) - num(y) <= 1real,
    ensures
        0 <= word::value(x) - word::value(y) <= word::one(),
{
    rounding::lemma_one();
    let one = word::one() as real;
    let v = word::value(x) as real;
    let w = word::value(y) as real;
    assert(0real <= v - w <= one) by (nonlinear_arith)
        requires
            0real <= v / one - w / one <= 1real,
            one > 0real,
    ;
}

// ---------------------------------------------------------------------------
// Reading a frame
// ---------------------------------------------------------------------------

/// Frame `fi` at position `x`: on the line from the sample below to the next
/// one round the frame.
pub open spec fn frame_at(t: [Bits; 131072], fi: int, x: Bits) -> real {
    let c = word::trunc_of(x) % 2048;
    let a = num(t[fi * 2048 + c]);
    let b = num(t[fi * 2048 + (c + 1) % 2048]);
    a + (b - a) * (num(x) - (word::trunc_of(x) as real))
}

proof fn lemma_frame(m: Sem, t: [Bits; 131072], fi: int, x: Bits, most: real)
    requires
        m.rounds(),
        word::finite(x),
        0real <= num(x) <= 2048real,
        0 <= fi < 64,
        4real * most <= reals::vast(),
        forall|c: int|
            fi * 2048 <= c < (fi + 1) * 2048 ==> word::finite(#[trigger] t[c]) && size(num(t[c]))
                <= most,
    ensures
        word::finite(table::frame_value(m, t, fi, x)),
        dist(num(table::frame_value(m, t, fi, x)), frame_at(t, fi, x)) <= 9real * most / 8388608real
            + 8real * reals::tiny() + 3real * (most * reals::tiny()),
        size(frame_at(t, fi, x)) <= most,
{
    reals::lemma_tiny();
    reals::lemma_num(F0, F1);
    reals::lemma_trunc(x);
    reals::lemma_floor(x);
    let k = word::trunc_of(x);
    let y = num(x);
    assert(word::floor_whole(x) == k);
    let whole = word::floor_of(x);
    lemma_step(x, whole);
    rounding::lemma_one();
    rounding::lemma_difference(m, x, whole, F0, F1);
    reals::lemma_sub(m, x, whole);
    let part = m.sub(x, whole);
    reals::lemma_within(F0, part, F1);
    assert(0 <= k <= 2048);
    let c = k % 2048;
    let d = (c + 1) % 2048;
    let a = t[fi * 2048 + c];
    let b = t[fi * 2048 + d];
    assert(table::cell_of(x) == c);
    assert(word::finite(a) && size(num(a)) <= most);
    assert(word::finite(b) && size(num(b)) <= most);
    reals::lemma_lerp(m, a, b, part, most);
    let u = num(a);
    let v = num(b);
    let p = num(part);
    let r = y - (k as real);
    let w = reals::tiny();
    lemma_part_moved(u, v, p, r, most);
}

pub proof fn lemma_part_moved(u: real, v: real, p: real, r: real, most: real)
    requires
        size(u) <= most,
        size(v) <= most,
        0real <= r <= 1real,
        dist(p, r) <= reals::slack(r),
    ensures
        dist(u + (v - u) * p, u + (v - u) * r) <= 2real * most / 8388608real + 3real * (most
            * reals::tiny()),
        size(u + (v - u) * r) <= most,
{
    reals::lemma_tiny();
    let w = reals::tiny();
    let e = v - u;
    let o = p - r;
    let s = 1real / 8388608real + w;
    assert(-s <= o <= s);
    assert(-(2real * most * s) <= e * o <= 2real * most * s) by (nonlinear_arith)
        requires
            -(2real * most) <= e <= 2real * most,
            -s <= o <= s,
            most >= 0real,
            s >= 0real,
    ;
    assert(e * p - e * r == e * o) by (nonlinear_arith)
        requires
            o == p - r,
    ;
    assert(2real * most * s == 2real * most / 8388608real + 2real * (most * w)) by (nonlinear_arith)
        requires
            s == 1real / 8388608real + w,
    ;
    assert(most * w >= 0real) by (nonlinear_arith)
        requires
            most >= 0real,
            w > 0real,
    ;
    assert(-most <= u + e * r <= most) by (nonlinear_arith)
        requires
            -most <= u <= most,
            -most <= v <= most,
            e == v - u,
            0real <= r <= 1real,
    ;
}

/// The table is read on the line from one frame to the next, of each on the
/// line from one sample to the next, at the position that the phase stands
/// for.
pub proof fn law_reading_interpolates(
    m: Sem,
    t: [Bits; 131072],
    fi: int,
    ff: Bits,
    ph: Bits,
    most: real,
)
    requires
        m.rounds(),
        word::between(F0, ph, F1),
        word::between(F0, ff, F1),
        0 <= fi < 63,
        1real <= most <= 1000000000real,
        forall|c: int|
            fi * 2048 <= c < (fi + 2) * 2048 ==> word::finite(#[trigger] t[c]) && size(num(t[c]))
                <= most,
    ensures
        ({
            let x = m.mul(ph, F2048);
            let a = frame_at(t, fi, x);
            let b = frame_at(t, fi + 1, x);
            let r = table::table_value(m, t, fi, ff, ph);
            &&& dist(num(x), 2048real * num(ph)) <= 1real / 2048real
            &&& word::finite(r)
            &&& dist(num(r), a + (b - a) * num(ff)) <= most / 250000real
        }),
{
    lemma2_to64();
    reals::lemma_tiny();
    reals::lemma_num(F0, F1);
    reals::lemma_within(F0, ph, F1);
    reals::lemma_within(F0, ff, F1);
    reals::lemma_const(0x4500_0000);
    assert(pow2(12) == 4096);
    assert(num(F2048) == 8388608real / 4096real);
    let p = num(ph);
    let k = num(F2048);
    assert(0real <= p * k <= 2048real && p * k == 2048real * p) by (nonlinear_arith)
        requires
            0real <= p <= 1real,
            k == 2048real,
    ;
    reals::lemma_mul(m, ph, F2048);
    let x = m.mul(ph, F2048);
    rounding::lemma_between(F0, ph, F1);
    rounding::lemma_one();
    reals::lemma_num(F0, F2048);
    rounding::lemma_rank_is_value(F0, F2048);
    rounding::lemma_part(m, F2048, ph);
    reals::lemma_multiples(x, F2048, 1, 1);
    reals::lemma_multiples(F0, x, 1, 1);
    lemma_frame(m, t, fi, x, most);
    lemma_frame(m, t, fi + 1, x, most);
    let u = table::frame_value(m, t, fi, x);
    let v = table::frame_value(m, t, fi + 1, x);
    let w = reals::tiny();
    let a = frame_at(t, fi, x);
    let b = frame_at(t, fi + 1, x);
    assert(most * w <= 1real / 1000000000real) by (nonlinear_arith)
        requires
            0real < most <= 1000000000real,
            0real < w <= 1real / 1000000000000000000real,
    ;
    let off = 10real * most / 8388608real;
    assert(dist(num(u), a) <= off && dist(num(v), b) <= off);
    reals::lemma_lerp(m, u, v, ff, 2real * most);
    lemma_mixed(num(u), num(v), a, b, num(ff), off);
}

proof fn lemma_mixed(u: real, v: real, a: real, b: real, k: real, off: real)
    requires
        0real <= k <= 1real,
        dist(u, a) <= off,
        dist(v, b) <= off,
    ensures
        dist(u + (v - u) * k, a + (b - a) * k) <= off,
{
    let x = u + (v - u) * k;
    let y = a + (b - a) * k;
    assert(-off <= x - y <= off) by (nonlinear_arith)
        requires
            x == u + (v - u) * k,
            y == a + (b - a) * k,
            -off <= u - a <= off,
            -off <= v - b <= off,
            0real <= k <= 1real,
    ;
}

} // verus!
