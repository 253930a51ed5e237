//! Where times and lengths are heading, how rings are read between two cells,
//! and how the filters and sweeps of the rack are set, in numbers.

use crate::alu::Sem;
use crate::block::Block;
use crate::consts::{
    F0, F0_004, F0_02, F0_03, F0_4, F1, F131068, F16380, F1_1, F2, F48000, TAU,
};
use crate::fx;
use crate::fx::analog;
use crate::fx::analog::{AnalogBlock, Chorus, Phaser};
use crate::fx::distortion;
use crate::fx::hybrid;
use crate::fx::hybrid::{Delay, HybridBlock, Reverb};
use crate::fx::ring;
use crate::fx::Fx;
use crate::laws;
use crate::laws::echo::held;
use crate::laws::frames::unit;
use crate::laws::motion::moved;
use crate::laws::numbers;
use crate::laws::phases::usual_rate;
use crate::laws::wet::part;
use crate::params;
use crate::params::RANGES;
use crate::render;
use crate::rng;
use crate::rounding;
use crate::rounding::reals;
use crate::rounding::reals::{dist, near, num, size};
use crate::voice;
use crate::voice::Voice;
use crate::word;
use crate::word::Bits;
use vstd::prelude::*;

verus! {

/// The smaller of two numbers.
pub open spec fn least(a: real, b: real) -> real {
    if a < b {
        a
    } else {
        b
    }
}

// ---------------------------------------------------------------------------
// Goals
// ---------------------------------------------------------------------------

/// The delay heads for its time in samples, as far as its ring holds them.
pub proof fn law_delay_goal(m: Sem, q: [Bits; 63], sr: Bits)
    requires
        m.rounds(),
        m.powers_in_range(),
        usual_rate(sr),
        !word::is_nan(q[51]),
    ensures
        near(
            hybrid::block_of(m, q, sr).delay_goal,
            least(num(params::mapped(m, 51, q[51])) * num(sr), 131068real),
            1real / 10real,
        ),
{
    reals::lemma_num(F0, F1);
    numbers::law_ranges();
    numbers::law_numbers_large();
    laws::motion::lemma_rate(sr);
    laws::settings::law_ratio(m, 51, q[51]);
    let t = params::mapped(m, 51, q[51]);
    reals::lemma_num(RANGES[51].0, t);
    reals::lemma_multiples(t, RANGES[51].1, 10_000, 10_001);
    let a = num(t);
    let s = num(sr);
    assert(0real <= a <= 13real / 10real);
    reals::lemma_near_mul(m, t, sr, a, s, 0real, 0real, 13real / 10real, 262144real);
    reals::lemma_num(F131068, m.mul(t, sr));
}

/// The lines of the reverb head for their primes, scaled by size and sample
/// rate, as far as their rings hold them.
pub proof fn law_line_goals(m: Sem, q: [Bits; 63], sr: Bits)
    requires
        m.rounds(),
        usual_rate(sr),
        !word::is_nan(q[55]),
    ensures
        ({
            let g = hybrid::block_of(m, q, sr).line_goals;
            let scale = (4real / 10real + unit(num(q[55])) * (11real / 10real)) * (num(sr)
                / 48000real);
            let most = 1real / 10real;
            &&& near(g[0], least(1687real * scale, 16380real), most)
            &&& near(g[1], least(2039real * scale, 16380real), most)
            &&& near(g[2], least(2503real * scale, 16380real), most)
            &&& near(g[3], least(3023real * scale, 16380real), most)
        }),
{
    reals::lemma_tiny();
    reals::lemma_num(F0, F1);
    numbers::law_numbers_part();
    numbers::law_numbers_mixed();
    numbers::law_numbers_large();
    laws::motion::lemma_rate(sr);
    assert(RANGES[55] == (F0, F1, false));
    laws::frames::law_unit_setting(m, 55, q[55]);
    let z = params::mapped(m, 55, q[55]);
    laws::wet::lemma_part(z);
    let s = num(sr);
    let c = 11real / 10real;
    reals::lemma_near_mul(
        m,
        z,
        F1_1,
        num(z),
        c,
        0real,
        11real / 100000000real,
        1real,
        12real / 10real,
    );
    let more = m.mul(z, F1_1);
    assert(0real <= num(z) * c <= c) by (nonlinear_arith)
        requires
            0real <= num(z) <= 1real,
            c == 11real / 10real,
    ;
    let full = 4real / 10real + num(z) * c;
    reals::lemma_near_add(
        m,
        F0_4,
        more,
        4real / 10real,
        num(z) * c,
        1real / 8388608real,
        4real / 8388608real,
        16real / 10real,
    );
    let k = num(F48000);
    assert(s / k == s / 48000real);
    reals::lemma_div(m, sr, F48000);
    let ratio = m.div(sr, F48000);
    let r = s / 48000real;
    assert(near(ratio, r, 6real / 8388608real));
    reals::lemma_near_mul(
        m,
        m.add(F0_4, more),
        ratio,
        full,
        r,
        9real / 8388608real,
        6real / 8388608real,
        16real / 10real,
        6real,
    );
    let scale = m.mul(m.add(F0_4, more), ratio);
    lemma_line_goal(m, 0x44d2_e000, 1687real, scale, full * r);
    lemma_line_goal(m, 0x44fe_e000, 2039real, scale, full * r);
    lemma_line_goal(m, 0x451c_7000, 2503real, scale, full * r);
    lemma_line_goal(m, 0x453c_f000, 3023real, scale, full * r);
}

proof fn lemma_line_goal(m: Sem, prime: Bits, p: real, scale: Bits, exact: real)
    requires
        m.rounds(),
        word::finite(prime),
        num(prime) == p,
        1000real <= p <= 4000real,
        near(scale, exact, 85real / 8388608real),
        size(exact) <= 10real,
    ensures
        near(hybrid::line_goal(m, prime, scale), least(p * exact, 16380real), 1real / 10real),
{
    numbers::law_numbers_large();
    reals::lemma_near_mul(
        m,
        prime,
        scale,
        p,
        exact,
        0real,
        85real / 8388608real,
        4000real,
        101real / 10real,
    );
    reals::lemma_num(F16380, m.mul(prime, scale));
}

/// A value glides by a part of its way: the delay time by 0.03 a block.
pub proof fn law_delay_glides(m: Sem, b: HybridBlock, s: Delay)
    requires
        m.rounds(),
        held(s.smp, 131072real),
        held(b.delay_goal, 131072real),
    ensures
        ({
            let t = hybrid::delay_moved(m, b, s);
            &&& near(
                t.smp,
                num(s.smp) + (num(b.delay_goal) - num(s.smp)) * (3real / 100real),
                1real / 5real,
            )
            &&& t == (Delay { smp: t.smp, ..s })
        }),
{
    numbers::law_numbers_small();
    lemma_glides(m, s.smp, b.delay_goal, F0_03, 3real / 100real);
}

proof fn lemma_glides(m: Sem, x: Bits, goal: Bits, k: Bits, c: real)
    requires
        m.rounds(),
        held(x, 131072real),
        held(goal, 131072real),
        word::finite(k),
        dist(num(k), c) <= c / 10000000real,
        0real < c <= 1real / 20real,
    ensures
        near(m.lerp(x, goal, k), num(x) + (num(goal) - num(x)) * c, 1real / 5real),
{
    reals::lemma_tiny();
    reals::lemma_num(F0, F1);
    reals::lemma_num(F0, k);
    reals::lemma_num(k, F1);
    reals::lemma_lerp(m, x, goal, k, 131072real);
    let way = num(goal) - num(x);
    let a = num(k);
    reals::lemma_bounded(way, a - c, 262144real, 1real / 200000000real);
    assert(way * a - way * c == way * (a - c)) by (nonlinear_arith);
}

/// The lengths of the reverb's lines by 0.02.
pub proof fn law_lines_glide(m: Sem, b: HybridBlock, s: Reverb)
    requires
        m.rounds(),
        held(s.l0.len, 131072real),
        held(s.l1.len, 131072real),
        held(s.l2.len, 131072real),
        held(s.l3.len, 131072real),
        held(b.line_goals[0], 131072real),
        held(b.line_goals[1], 131072real),
        held(b.line_goals[2], 131072real),
        held(b.line_goals[3], 131072real),
    ensures
        ({
            let t = hybrid::reverb_moved(m, b, s);
            let c = 2real / 100real;
            let g = b.line_goals;
            let most = 1real / 5real;
            &&& near(t.l0.len, num(s.l0.len) + (num(g[0]) - num(s.l0.len)) * c, most)
            &&& near(t.l1.len, num(s.l1.len) + (num(g[1]) - num(s.l1.len)) * c, most)
            &&& near(t.l2.len, num(s.l2.len) + (num(g[2]) - num(s.l2.len)) * c, most)
            &&& near(t.l3.len, num(s.l3.len) + (num(g[3]) - num(s.l3.len)) * c, most)
            &&& t.ap1 == s.ap1 && t.ap2 == s.ap2
            &&& t.l0.ring == s.l0.ring && t.l0.i == s.l0.i && t.l0.lp == s.l0.lp
            &&& t.l1.ring == s.l1.ring && t.l1.i == s.l1.i && t.l1.lp == s.l1.lp
            &&& t.l2.ring == s.l2.ring && t.l2.i == s.l2.i && t.l2.lp == s.l2.lp
            &&& t.l3.ring == s.l3.ring && t.l3.i == s.l3.i && t.l3.lp == s.l3.lp
        }),
{
    numbers::law_numbers_small();
    let c = 2real / 100real;
    lemma_glides(m, s.l0.len, b.line_goals[0], F0_02, c);
    lemma_glides(m, s.l1.len, b.line_goals[1], F0_02, c);
    lemma_glides(m, s.l2.len, b.line_goals[2], F0_02, c);
    lemma_glides(m, s.l3.len, b.line_goals[3], F0_02, c);
}

/// The drift goes 0.004 of its way to a new random value in -1 ..= 1.
pub proof fn law_drift_wanders(m: Sem, s: Fx)
    requires
        m.rounds(),
        held(s.drift, 1real),
    ensures
        ({
            let t = fx::wandered(m, s);
            let goal = 2real * num(rng::ratio_of(rng::next_of(s.rng))) - 1real;
            &&& near(
                t.drift,
                num(s.drift) + (goal - num(s.drift)) * (4real / 1000real),
                1real / 100000real,
            )
            &&& t.rng == rng::next_of(s.rng)
        }),
{
    reals::lemma_tiny();
    reals::lemma_num(F0, F1);
    numbers::law_numbers_tiny();
    numbers::law_numbers_whole();
    let x = rng::ratio_of(rng::next_of(s.rng));
    rng::law_ratio_range(rng::next_of(s.rng));
    reals::lemma_within(F0, x, F1);
    let a = num(x);
    reals::lemma_near_mul(m, x, F2, a, 2real, 0real, 0real, 1real, 2real);
    reals::lemma_near_sub(
        m,
        m.mul(x, F2),
        F1,
        a * 2real,
        1real,
        4real / 8388608real,
        0real,
        1001real / 1000real,
    );
    let wander = m.sub(m.mul(x, F2), F1);
    let goal = 2real * a - 1real;
    reals::lemma_num(F0_004, F1);
    assert(word::between(F0, F0_004, F1));
    reals::lemma_lerp(m, s.drift, wander, F0_004, 11real / 10real);
    let w = num(wander);
    let d = num(s.drift);
    let c = num(F0_004);
    let e = 4real / 1000real;
    reals::lemma_bounded(w - goal, c, 7real / 8388608real, 1real / 100real);
    reals::lemma_bounded(goal - d, c - e, 2real, 1real / 1000000000real);
    assert((w - d) * c - (goal - d) * e == (w - goal) * c + (goal - d) * (c - e))
        by (nonlinear_arith);
}

// ---------------------------------------------------------------------------
// Between two cells
// ---------------------------------------------------------------------------

/// A ring is read behind the place `w` by the delay, on the line from the cell
/// below to the next one round the ring.
pub proof fn law_ring_interpolates<const N: usize>(
    m: Sem,
    r: [Bits; N],
    w: int,
    delay: Bits,
    most: real,
)
    requires
        m.rounds(),
        0 < N <= 131072,
        0 <= w < N,
        held(delay, 200000real),
        1real <= most <= 1000000real,
        forall|c: int| 0 <= c < N ==> held(#[trigger] r[c], most),
    ensures
        ({
            let at = m.sub(word::from_nat(w as nat), delay);
            let k = word::floor_whole(at);
            let i = k % (N as int);
            let j = (i + 1) % (N as int);
            let y = ring::tapped(m, r, w, delay);
            &&& near(at, (w as real) - num(delay), 1real / 10real)
            &&& (k as real) <= num(at) < (k as real) + 1real
            &&& 0 <= i < N
            &&& near(
                y,
                num(r[i]) + (num(r[j]) - num(r[i])) * (num(at) - (k as real)),
                most / 500000real,
            )
        }),
{
    reals::lemma_tiny();
    reals::lemma_num(F0, F1);
    rounding::lemma_one();
    let n = N as int;
    reals::lemma_integer(w);
    let place = word::from_nat(w as nat);
    reals::lemma_near_sub(m, place, delay, w as real, num(delay), 0real, 0real, 400000real);
    let at = m.sub(place, delay);
    reals::lemma_floor(at);
    let whole = word::floor_of(at);
    let k = word::floor_whole(at);
    assert(-400001 <= k <= 400000);
    laws::echo::lemma_trunc_whole(whole, k);
    vstd::arithmetic::div_mod::lemma_mod_bound(k, n);
    let i = k % n;
    let j = ring::after(i, n);
    assert(j == (i + 1) % n) by {
        if i + 1 < n {
            vstd::arithmetic::div_mod::lemma_small_mod((i + 1) as nat, n as nat);
        } else {
            vstd::arithmetic::div_mod::lemma_mod_self_0(n);
        }
    }
    laws::frames::lemma_step(at, whole);
    rounding::lemma_difference(m, at, whole, F0, F1);
    reals::lemma_sub(m, at, whole);
    let p = m.sub(at, whole);
    reals::lemma_within(F0, p, F1);
    assert(held(r[i], most) && held(r[j], most));
    reals::lemma_lerp(m, r[i], r[j], p, most);
    let u = num(r[i]);
    let v = num(r[j]);
    let f = num(at) - (k as real);
    laws::frames::lemma_part_moved(u, v, num(p), f, most);
    let t = reals::tiny();
    assert(most * t <= 1real / 1000000000real) by (nonlinear_arith)
        requires
            0real < most <= 1000000real,
            0real < t <= 1real / 1000000000000000real,
    ;
}

// ---------------------------------------------------------------------------
// Filters
// ---------------------------------------------------------------------------

/// The coefficient of a low-pass whose cutoff lies `octaves` times the setting
/// octaves above `base`: one minus the exponential of minus its angle a sample.
pub open spec fn pole_is(m: Sem, k: Bits, base: real, octaves: real, setting: real, sr: real) -> bool {
    exists|x: Bits, y: Bits|
        {
            &&& near(y, setting * octaves, 1real / 100000real)
            &&& word::finite(x)
            &&& dist(
                num(x) * sr,
                -(base * num(#[trigger] m.pow(F2, y))) * (6283185307real / 1000000000real),
            ) <= 4real
            &&& near(k, 1real - num(#[trigger] m.exp(x)), 1real / 1000000real)
        }
}

/// A filter is set by its cutoff, the octaves that its setting adds, and the
/// sample rate.
pub proof fn law_pole_in_numbers(
    m: Sem,
    base: Bits,
    octaves: Bits,
    x: Bits,
    sr: Bits,
)
    requires
        m.rounds(),
        m.decays(),
        m.doubles(),
        usual_rate(sr),
        held(base, 400real),
        num(base) >= 1real,
        held(octaves, 5real),
        num(octaves) >= 0real,
        part(x),
        held(m.pow(F2, m.mul(x, octaves)), 64real),
    ensures
        pole_is(
            m,
            distortion::pole_of(m, base, octaves, x, sr),
            num(base),
            num(octaves),
            num(x),
            num(sr),
        ),
{
    reals::lemma_tiny();
    reals::lemma_num(F0, F1);
    numbers::law_numbers_mixed();
    laws::motion::lemma_rate(sr);
    laws::wet::lemma_part(x);
    let s = num(sr);
    let b = num(base);
    let o = num(octaves);
    reals::lemma_near_mul(m, x, octaves, num(x), o, 0real, 0real, 1real, 5real);
    let y = m.mul(x, octaves);
    let p = m.pow(F2, y);
    let w = num(p);
    // The power is positive, so the exponent of the filter is negative.
    lemma_small_exponent(y);
    assert(word::between(0x3700_0000, p, 0x4800_0000)) by {
        reveal(Sem::doubles);
    }
    reals::lemma_within(0x3700_0000, p, 0x4800_0000);
    reals::lemma_num(F0, 0x3700_0000);
    reals::lemma_near_mul(m, base, p, b, w, 0real, 0real, 400real, 64real);
    laws::motion::lemma_positive(m, base, p);
    let cut = m.mul(base, p);
    laws::motion::lemma_negated(TAU);
    let t = word::neg_of(TAU);
    let c = 6283185307real / 1000000000real;
    reals::lemma_near_mul(
        m,
        t,
        cut,
        -c,
        b * w,
        7real / 10000000real,
        51200real / 8388608real,
        7real,
        25601real,
    );
    let turn = m.mul(t, cut);
    lemma_not_above_zero(m, t, cut);
    let v = num(turn);
    let exact = (-c) * (b * w);
    assert(dist(v, exact) <= 1real / 8real);
    let q = v / s;
    assert(q * s == v) by (nonlinear_arith)
        requires
            q == v / s,
            s > 0real,
    ;
    assert(size(exact) <= 7real * 25601real);
    assert(-100real <= q <= 100real) by (nonlinear_arith)
        requires
            q * s == v,
            s >= 4096real,
            -200000real <= v <= 200000real,
    ;
    reals::lemma_div(m, turn, sr);
    let e = m.div(turn, sr);
    let z = num(e);
    let u = reals::tiny();
    reals::lemma_bounded(z - q, s, 101real / 8388608real, 262144real);
    assert(z * s - v == (z - q) * s) by (nonlinear_arith)
        requires
            q * s == v,
    ;
    lemma_filter_end(m, turn, sr);
    assert(-(b * w) * c == exact) by (nonlinear_arith)
        requires
            exact == (-c) * (b * w),
    ;
    let k = distortion::pole_of(m, base, octaves, x, sr);
    assert(k == m.sub(F1, m.exp(e)));
    assert(dist(z * s, -(b * num(m.pow(F2, y))) * c) <= 4real);
}

proof fn lemma_small_exponent(y: Bits)
    requires
        word::finite(y),
        size(num(y)) <= 6real,
    ensures
        word::between(0xc180_0000, y, 0x4180_0000),
{
    vstd::arithmetic::power2::lemma2_to64();
    reals::lemma_const(0x4180_0000);
    assert(num(0x4180_0000) == 8388608real / 524288real);
    laws::motion::lemma_negated(0x4180_0000);
    reals::lemma_within(0xc180_0000, y, 0x4180_0000);
}

proof fn lemma_not_above_zero(m: Sem, x: Bits, y: Bits)
    requires
        m.rounds(),
        word::finite(x),
        word::finite(y),
        word::finite(m.mul(x, y)),
        num(x) <= 0real,
        num(y) >= 0real,
    ensures
        num(m.mul(x, y)) <= 0real,
{
    rounding::lemma_one();
    reals::lemma_num(F0, x);
    reals::lemma_num(F0, y);
    rounding::lemma_rank_is_value(F0, x);
    rounding::lemma_rank_is_value(F0, y);
    let v = word::value(x);
    let w = word::value(y);
    let one = word::one() as int;
    assert(v * w <= 0 && 0 * one == 0) by (nonlinear_arith)
        requires
            v <= 0,
            w >= 0,
    ;
    assert(rounding::nearest(m.mul(x, y), v * w, one)) by {
        reveal(Sem::rounds);
    }
    rounding::lemma_not_above(m.mul(x, y), v * w, one, F0);
    rounding::lemma_rank_is_value(F0, m.mul(x, y));
    reals::lemma_num(F0, m.mul(x, y));
}

proof fn lemma_filter_end(m: Sem, turn: Bits, sr: Bits)
    requires
        m.rounds(),
        m.decays(),
        word::finite(turn),
        num(turn) <= 0real,
        word::finite(sr),
        num(sr) > 0real,
        word::finite(m.div(turn, sr)),
    ensures
        near(
            m.sub(F1, m.exp(m.div(turn, sr))),
            1real - num(m.exp(m.div(turn, sr))),
            1real / 1000000real,
        ),
{
    reals::lemma_num(F0, F1);
    rounding::lemma_one();
    laws::controls::lemma_not_positive(m, turn, sr);
    let e = m.exp(m.div(turn, sr));
    assert(word::between(F0, e, F1)) by {
        reveal(Sem::decays);
    }
    reals::lemma_within(F0, e, F1);
    reals::lemma_near_sub(m, F1, e, 1real, num(e), 0real, 0real, 1real);
}

// ---------------------------------------------------------------------------
// Sweeps of the rack, and time
// ---------------------------------------------------------------------------

/// The sweeps of phaser, chorus and tremolo move by their rates over the sample
/// rate.
pub proof fn law_rack_sweeps_move(m: Sem, b: AnalogBlock, s: Phaser, c: Chorus, ph: Bits, x: Bits)
    requires
        m.rounds(),
        usual_rate(b.sr),
        b.dt == m.div(F1, b.sr),
        part(s.ph),
        part(c.ph),
        part(ph),
        held(b.phaser_rate, 1000real),
        held(b.chorus_rate, 1000real),
        held(b.trem_rate, 1000real),
        num(b.phaser_rate) >= 0real,
        num(b.chorus_rate) >= 0real,
        num(b.trem_rate) >= 0real,
    ensures
        ({
            let most = 1real / 1000000real;
            &&& moved(s.ph, analog::phased(m, b, s, x).0.ph, num(b.phaser_rate) / num(b.sr), most)
            &&& moved(c.ph, analog::chorused(m, b, c, x).0.ph, num(b.chorus_rate) / num(b.sr), most)
            &&& moved(ph, analog::trembled(m, b, ph, x).0, num(b.trem_rate) / num(b.sr), most)
        }),
{
    laws::motion::lemma_rate(b.sr);
    laws::motion::lemma_moves(m, b.sr, s.ph, b.phaser_rate);
    laws::motion::lemma_moves(m, b.sr, c.ph, b.chorus_rate);
    laws::motion::lemma_moves(m, b.sr, ph, b.trem_rate);
    laws::drift::lemma_phased(m, b, s, x);
    let k = 8real / 8388608real;
    let most = 1real / 1000000real;
    let p = num(b.phaser_rate) / num(b.sr);
    let q = num(b.chorus_rate) / num(b.sr);
    let r = num(b.trem_rate) / num(b.sr);
    laws::motion::lemma_relax(s.ph, analog::phased(m, b, s, x).0.ph, p, k, p, most);
    laws::motion::lemma_relax(c.ph, analog::chorused(m, b, c, x).0.ph, q, k, q, most);
    laws::motion::lemma_relax(ph, analog::trembled(m, b, ph, x).0, r, k, r, most);
}

/// A rate of the section is its setting, pulled by the drift.
pub proof fn law_rates_drift(m: Sem, x: Bits, drift: Bits, pull: Bits)
    requires
        m.rounds(),
        held(x, 40real),
        held(drift, 1real),
        part(pull),
    ensures
        near(
            analog::drifted(m, x, drift, pull),
            num(x) * (1real + num(drift) * num(pull)),
            1real / 10000real,
        ),
{
    reals::lemma_num(F0, F1);
    laws::wet::lemma_part(pull);
    let d = num(drift);
    let p = num(pull);
    reals::lemma_near_mul(m, drift, pull, d, p, 0real, 0real, 1real, 1real);
    reals::lemma_near_add(
        m,
        F1,
        m.mul(drift, pull),
        1real,
        d * p,
        0real,
        2real / 8388608real,
        21real / 10real,
    );
    reals::lemma_near_mul(
        m,
        x,
        m.add(F1, m.mul(drift, pull)),
        num(x),
        1real + d * p,
        0real,
        7real / 8388608real,
        40real,
        21real / 10real,
    );
}

/// Which setting each rate and mix of the section comes from, and how far the
/// drift pulls at it.
pub proof fn law_analog_reads_settings(m: Sem, q: [Bits; 63], sr: Bits, drift: Bits)
    ensures
        ({
            let b = analog::block_of(m, q, sr, drift);
            &&& b.sr == sr && b.dt == m.div(F1, sr) && b.drift == drift
            &&& b.phaser_mix == params::mapped(m, 41, q[41])
            &&& b.phaser_rate == analog::drifted(m, params::mapped(m, 42, q[42]), drift, 0x3d8f_5c29)
            &&& b.phaser_fb == params::mapped(m, 43, q[43])
            &&& b.chorus_mix == params::mapped(m, 44, q[44])
            &&& b.chorus_rate == analog::drifted(m, params::mapped(m, 45, q[45]), drift, 0x3d4c_cccd)
            &&& b.trem_depth == params::mapped(m, 47, q[47])
            &&& b.trem_rate == analog::drifted(m, params::mapped(m, 48, q[48]), drift, 0x3d23_d70a)
        }),
{
}

/// The time of a note moves on by one over the sample rate with every sample.
pub proof fn law_time_moves(m: Sem, b: Block, t: [Bits; 131072], v: Voice, state: u32)
    requires
        m.rounds(),
        usual_rate(b.sr),
        b.dt == m.div(F1, b.sr),
        voice::enveloped(m, b.slopes, v).on,
        held(v.t, 8193real),
    ensures
        near(
            render::voiced(m, b, t, v, state).0.t,
            num(v.t) + 1real / num(b.sr),
            size(num(v.t)) / 4000000real + 1real / 1000000000real,
        ),
{
    reals::lemma_tiny();
    reals::lemma_num(F0, F1);
    laws::motion::lemma_rate(b.sr);
    let s = num(b.sr);
    let q = 1real / s;
    assert(0real < q <= 1real / 4096real) by (nonlinear_arith)
        requires
            q == 1real / s,
            s >= 4096real,
    ;
    reals::lemma_div(m, F1, b.sr);
    let e = voice::enveloped(m, b.slopes, v);
    assert(e.t == v.t);
    let (v1, s1, _) = render::sub_step(m, b, e, state);
    let v2 = Voice {
        ph_a: render::partials(m, b, v1.f0, v1.ph_a, b.p_top as nat).0,
        ..v1
    };
    let v3 = render::textured(m, b, t, v2, s1).0;
    assert(v3.t == v.t);
    reals::lemma_add(m, v.t, b.dt);
}

} // verus!
