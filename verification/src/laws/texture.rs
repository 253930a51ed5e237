//! What holds of reading the wavetable.

use crate::alu::Sem;
use crate::consts::{F0, F1, F2048};
use crate::rounding;
use crate::table;
use crate::word;
use crate::word::Bits;
use vstd::arithmetic::div_mod::*;
use vstd::arithmetic::power2::*;
use vstd::prelude::*;

verus! {

/// The sample that a reading of frame `fi` at position `x` starts from.
pub open spec fn sample(t: [Bits; 131072], fi: int, x: Bits) -> Bits {
    t[fi * 2048 + table::cell_of(x)]
}

/// The sample after it, round the frame.
pub open spec fn next_sample(t: [Bits; 131072], fi: int, x: Bits) -> Bits {
    t[fi * 2048 + (table::cell_of(x) + 1) % 2048]
}

// ---------------------------------------------------------------------------
// Within a frame
// ---------------------------------------------------------------------------

/// A reading uses the samples of its two frames and no others.
pub proof fn law_reads_two_frames(
    m: Sem,
    t: [Bits; 131072],
    u: [Bits; 131072],
    fi: int,
    ff: Bits,
    ph: Bits,
)
    requires
        0 <= fi < 63,
        forall|c: int| fi * 2048 <= c < (fi + 2) * 2048 ==> #[trigger] t[c] == u[c],
    ensures
        table::table_value(m, t, fi, ff, ph) == table::table_value(m, u, fi, ff, ph),
{
    let x = m.mul(ph, F2048);
    let i = table::cell_of(x);
    let j = (i + 1) % 2048;
    assert(t[fi * 2048 + i] == u[fi * 2048 + i]);
    assert(t[fi * 2048 + j] == u[fi * 2048 + j]);
    assert(t[(fi + 1) * 2048 + i] == u[(fi + 1) * 2048 + i]);
    assert(t[(fi + 1) * 2048 + j] == u[(fi + 1) * 2048 + j]);
}

/// Behind the last sample of a frame comes its first, not the next frame.
pub proof fn law_frame_wraps(m: Sem, t: [Bits; 131072], fi: int, x: Bits)
    requires
        table::cell_of(x) == 2047,
    ensures
        table::frame_value(m, t, fi, x) == m.lerp(
            t[fi * 2048 + 2047],
            t[fi * 2048],
            m.sub(x, word::floor_of(x)),
        ),
{
}

// ---------------------------------------------------------------------------
// On the grid
// ---------------------------------------------------------------------------

/// A sample that can be subtracted from another, and is not the negative zero.
pub open spec fn plain(x: Bits) -> bool {
    word::magnitude(x) < 0x7f00_0000 && x != 0x8000_0000
}

proof fn lemma_no_way(m: Sem, a: Bits, b: Bits, k: Bits)
    requires
        m.rounds(),
        plain(a),
        plain(b),
        word::finite(k),
        word::value(k) == 0,
    ensures
        m.lerp(a, b, k) == a,
{
    rounding::lemma_one();
    let top: Bits = 0x7f7f_ffff;
    let half: Bits = 0x7eff_ffff;
    let low = word::neg_of(top);
    assert(word::value(low) == -word::value(top));
    lemma_twice_half();
    lemma_size(a, half);
    lemma_size(b, half);
    rounding::lemma_difference(m, b, a, low, top);
    let d = m.sub(b, a);
    assert(word::value(d) * word::value(k) == 0 && word::value(F0) * word::one() == 0)
        by (nonlinear_arith)
        requires
            word::value(k) == 0,
            word::value(F0) == 0,
    ;
    rounding::lemma_product(m, d, k, F0, F0);
    let p = m.mul(d, k);
    rounding::lemma_sum(m, a, p, a, a);
    rounding::lemma_same_value(m.add(a, p), a);
    rounding::lemma_rank_is_value(a, F0);
    if word::value(a) == 0 {
        assert(a == F0);
        assert(m.add(F0, p) == F0) by {
            reveal(Sem::rounds);
        }
    }
}

/// A magnitude bounds a value.
proof fn lemma_size(x: Bits, most: Bits)
    requires
        word::magnitude(x) <= most < 0x8000_0000,
    ensures
        rounding::gap(word::value(x), 0) <= word::value(most),
{
    word::law_order_is_numeric(most as nat, word::magnitude(x) as nat, 23);
}

proof fn lemma_twice_half()
    ensures
        word::value(0x7f7f_ffff) == 2 * word::value(0x7eff_ffff),
{
    lemma2_to64();
    lemma_pow2_unfold(253);
    let p = pow2(252) as int;
    assert(word::value(0x7eff_ffff) == 0xff_ffff * p);
    assert(word::value(0x7f7f_ffff) == 0xff_ffff * (2 * p));
}

/// At a sample of the frame there is nothing to interpolate in phase: what is
/// read lies between that sample of the one frame and that of the next.
pub proof fn law_grid_point(m: Sem, t: [Bits; 131072], fi: int, ff: Bits, ph: Bits)
    requires
        m.rounds(),
        word::finite(m.mul(ph, F2048)),
        word::floor_of(m.mul(ph, F2048)) == m.mul(ph, F2048),
        plain(sample(t, fi, m.mul(ph, F2048))),
        plain(next_sample(t, fi, m.mul(ph, F2048))),
        plain(sample(t, fi + 1, m.mul(ph, F2048))),
        plain(next_sample(t, fi + 1, m.mul(ph, F2048))),
    ensures
        table::table_value(m, t, fi, ff, ph) == m.lerp(
            sample(t, fi, m.mul(ph, F2048)),
            sample(t, fi + 1, m.mul(ph, F2048)),
            ff,
        ),
{
    let x = m.mul(ph, F2048);
    rounding::lemma_one();
    rounding::lemma_difference(m, x, x, F0, F0);
    let k = m.sub(x, x);
    lemma_no_way(m, sample(t, fi, x), next_sample(t, fi, x), k);
    lemma_no_way(m, sample(t, fi + 1, x), next_sample(t, fi + 1, x), k);
}

// ---------------------------------------------------------------------------
// Size
// ---------------------------------------------------------------------------

/// What a position has behind its whole part lies in 0 ..= 1.
proof fn lemma_part_of_cell(m: Sem, x: Bits)
    requires
        m.rounds(),
        word::between(F0, x, F2048),
    ensures
        word::between(F0, m.sub(x, word::floor_of(x)), F1),
{
    rounding::lemma_one();
    let one = word::one() as int;
    let v = word::value(x);
    lemma_frame_len();
    rounding::lemma_between(F0, x, F2048);
    lemma_fundamental_div_mod(v, one);
    lemma_mod_bound(v, one);
    let k = v / one;
    assert(0 <= k <= 2048) by (nonlinear_arith)
        requires
            v == one * k + v % one,
            0 <= v <= 2048 * one,
            0 <= v % one < one,
            one > 0,
    ;
    rounding::lemma_whole(k);
    let y = word::floor_of(x);
    let n = word::from_nat(k as nat);
    assert(word::value(y) == k * one) by {
        assert(y == n || y == word::neg_of(n));
        if word::negative(x) {
            assert(v == 0);
            assert(k == 0) by (nonlinear_arith)
                requires
                    v == one * k + v % one,
                    v == 0,
                    0 <= v % one,
                    0 <= k,
                    one > 0,
            ;
            rounding::lemma_whole(0);
            assert(word::value(word::neg_of(n)) == -word::value(n));
            assert(0 * one == 0);
        }
    }
    assert(one * k == k * one) by (nonlinear_arith);
    rounding::lemma_difference(m, x, y, F0, F1);
}

proof fn lemma_frame_len()
    ensures
        word::value(F2048) == 2048 * word::one(),
{
    lemma2_to64();
    rounding::lemma_power(F2048);
    lemma_pow2_adds(149, 11);
}

/// `x` lies no further from zero than `most`.
pub open spec fn within(x: Bits, most: Bits) -> bool {
    word::between(word::neg_of(most), x, most)
}

proof fn lemma_within(x: Bits, most: Bits)
    requires
        within(x, most),
        word::between(0x0d80_0000, most, 0x7180_0000),
    ensures
        word::finite(x),
        rounding::gap(word::value(x), 0) <= word::value(most),
{
    rounding::lemma_between(word::neg_of(most), x, most);
    assert(word::value(word::neg_of(most)) == -word::value(most));
}

/// What is read is no larger than the largest of the four samples that it lies
/// between, give or take one part in 100000.
pub proof fn law_reading_bounded(
    m: Sem,
    t: [Bits; 131072],
    fi: int,
    ff: Bits,
    ph: Bits,
    most: Bits,
)
    requires
        m.rounds(),
        word::between(F0, ph, F1),
        word::between(F0, ff, F1),
        word::between(0x0d80_0000, most, 0x7180_0000),
        within(sample(t, fi, m.mul(ph, F2048)), most),
        within(next_sample(t, fi, m.mul(ph, F2048)), most),
        within(sample(t, fi + 1, m.mul(ph, F2048)), most),
        within(next_sample(t, fi + 1, m.mul(ph, F2048)), most),
    ensures
        word::finite(table::table_value(m, t, fi, ff, ph)),
        100_000 * rounding::gap(word::value(table::table_value(m, t, fi, ff, ph)), 0) <= 100_001
            * word::value(most),
{
    let x = m.mul(ph, F2048);
    rounding::lemma_one();
    lemma_frame_len();
    rounding::lemma_between(F0, ph, F1);
    rounding::lemma_part(m, F2048, ph);
    rounding::lemma_between(F0, x, F2048);
    lemma_part_of_cell(m, x);
    let k = m.sub(x, word::floor_of(x));
    let (a, b) = (sample(t, fi, x), next_sample(t, fi, x));
    let (c, d) = (sample(t, fi + 1, x), next_sample(t, fi + 1, x));
    lemma_within(a, most);
    lemma_within(b, most);
    lemma_within(c, most);
    lemma_within(d, most);
    let v = word::value(most);
    rounding::lemma_between(0x0d80_0000, most, 0x7180_0000);
    lemma_room();
    rounding::lemma_lerp_bounded(m, a, b, k, v);
    rounding::lemma_lerp_bounded(m, c, d, k, v);
    let p = m.lerp(a, b, k);
    let q = m.lerp(c, d, k);
    let w = v + v / 0x8_0000 + 8;
    assert(rounding::gap(word::value(p), 0) <= w && rounding::gap(word::value(q), 0) <= w);
    rounding::lemma_lerp_bounded(m, p, q, ff, w);
}

proof fn lemma_room()
    ensures
        word::value(0x0d80_0000) >= 0x1_0000_0000,
        16 * word::value(0x7180_0000) <= word::value(0x7f00_0000),
{
    lemma2_to64();
    rounding::lemma_power(0x0d80_0000);
    rounding::lemma_power(0x7180_0000);
    rounding::lemma_power(0x7f00_0000);
    lemma_pow2_strictly_increases(32, 49);
    lemma_pow2_adds(4, 249);
    lemma_pow2_strictly_increases(253, 276);
}

} // verus!
