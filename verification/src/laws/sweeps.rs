//! What the sweeps do, in numbers.

use crate::alu::Sem;
use crate::block;
use crate::block::Lfo;
use crate::consts::{F0, F0_5, F1, F2, F4, TAU};
use crate::laws;
use crate::laws::frames::unit;
use crate::laws::modulation::tame;
use crate::laws::motion::moved;
use crate::laws::numbers;
use crate::laws::phases::usual_rate;
use crate::params;
use crate::params::RANGES;
use crate::rng;
use crate::rounding;
use crate::rounding::reals;
use crate::rounding::reals::{dist, near, num, size};
use crate::word;
use crate::word::Bits;
use vstd::arithmetic::div_mod::*;
use vstd::prelude::*;

verus! {

/// The angle of a phase: it times the full circle.
pub proof fn law_angle_in_numbers(m: Sem, ph: Bits)
    requires
        m.rounds(),
        word::finite(ph),
        size(num(ph)) <= 4real,
    ensures
        word::finite(m.mul(TAU, ph)),
        dist(num(m.mul(TAU, ph)), num(ph) * (6283185307real / 1000000000real)) <= 1real / 150000real,
{
    reals::lemma_tiny();
    numbers::law_numbers_mixed();
    let p = num(ph);
    let t = num(TAU);
    let c = 6283185307real / 1000000000real;
    assert(size(t * p) <= 26real && dist(t * p, p * c) <= 1real / 300000real) by (nonlinear_arith)
        requires
            -4real <= p <= 4real,
            dist(t, c) <= c / 10000000real,
            dist(t, c) >= t - c,
            dist(t, c) >= c - t,
            c == 6283185307real / 1000000000real,
            size(t * p) == t * p || size(t * p) == -(t * p),
            dist(t * p, p * c) == t * p - p * c || dist(t * p, p * c) == p * c - t * p,
    ;
    reals::lemma_mul(m, TAU, ph);
}

/// What a sweep reads: the sine of its angle, a triangle, a ramp, or the value
/// that it holds.
pub open spec fn reading(m: Sem, l: Lfo, shape: u32) -> real {
    let ph = num(l.ph);
    if shape == 0 {
        num(m.sin(m.mul(TAU, l.ph)))
    } else if shape == 1 {
        1real - 4real * dist(ph, 1real / 2real)
    } else if shape == 2 {
        2real * ph - 1real
    } else {
        num(l.sh)
    }
}

proof fn lemma_reading(m: Sem, l: Lfo, shape: u32)
    requires
        m.rounds(),
        m.sines_bounded(),
        tame(l),
    ensures
        word::finite(block::sweep_value(m, l, shape)),
        size(num(block::sweep_value(m, l, shape))) <= 11real / 10real,
        dist(num(block::sweep_value(m, l, shape)), reading(m, l, shape)) <= 8real / 8388608real,
{
    reals::lemma_tiny();
    reals::lemma_num(F0, F1);
    numbers::law_numbers_whole();
    numbers::law_numbers_part();
    reals::lemma_within(F0, l.ph, F1);
    lemma_signed_unit(l.sh);
    let ph = num(l.ph);
    if shape == 0 {
        law_angle_in_numbers(m, l.ph);
        let x = m.mul(TAU, l.ph);
        assert(word::between(0xbf80_0000, m.sin(x), F1)) by {
            reveal(Sem::sines_bounded);
        }
        lemma_signed_unit(m.sin(x));
    } else if shape == 1 {
        reals::lemma_sub(m, l.ph, F0_5);
        let off = m.sub(l.ph, F0_5);
        laws::adsr::lemma_abs(off);
        let a = word::abs_of(off);
        let four = num(F4);
        assert(four * num(a) == 4real * num(a)) by (nonlinear_arith)
            requires
                four == 4real,
        ;
        reals::lemma_mul(m, F4, a);
        reals::lemma_sub(m, F1, m.mul(F4, a));
    } else if shape == 2 {
        let two = num(F2);
        assert(two * ph == 2real * ph) by (nonlinear_arith)
            requires
                two == 2real,
        ;
        reals::lemma_mul(m, F2, l.ph);
        reals::lemma_sub(m, m.mul(F2, l.ph), F1);
    }
}

pub proof fn lemma_signed_unit(x: Bits)
    requires
        word::between(0xbf80_0000, x, F1),
    ensures
        word::finite(x),
        size(num(x)) <= 1real,
{
    reals::lemma_num(F0, F1);
    reals::lemma_within(0xbf80_0000, x, F1);
    laws::motion::lemma_negated(F1);
    assert(word::neg_of(F1) == 0xbf80_0000);
}

/// The number of a choice is the whole number nearest to its parameter.
proof fn lemma_choice(m: Sem, q: [Bits; 63], i: int)
    requires
        m.rounds(),
        i == 36 || i == 40 || i == 59,
        !word::is_nan(q[i]),
    ensures
        dist(block::choice_of(m, q, i) as real, num(params::mapped(m, i, q[i]))) <= 1real / 2real,
{
    reals::lemma_num(F0, F1);
    numbers::law_ranges();
    numbers::law_numbers_whole();
    laws::settings::law_proportion(m, i, q[i]);
    let x = params::mapped(m, i, q[i]);
    reals::lemma_within(F0, x, RANGES[i].1);
    lemma_round(x);
}

/// Rounding to a whole number.
pub proof fn lemma_round(x: Bits)
    requires
        word::finite(x),
        0real <= num(x) <= 1000real,
    ensures
        word::trunc_of(word::round_of(x)) >= 0,
        dist(word::trunc_of(word::round_of(x)) as real, num(x)) <= 1real / 2real,
{
    vstd::arithmetic::power2::lemma2_to64();
    rounding::lemma_one();
    reals::lemma_num(F0, x);
    rounding::lemma_rank_is_value(F0, x);
    let one = word::one() as int;
    let u = word::units(x) as int;
    let k = (2 * u + one) / (2 * one);
    lemma_fundamental_div_mod(2 * u + one, 2 * one);
    lemma_mod_bound(2 * u + one, 2 * one);
    reals::lemma_product(2 * one, k);
    reals::lemma_const(0x4480_0000);
    assert(num(0x4480_0000) == 8388608real / 8192real);
    reals::lemma_num(x, 0x4480_0000);
    assert(word::has_fraction_bits(x));
    let o = one as real;
    let r = k as real;
    let w = u as real;
    assert(num(x) == w / o) by {
        if word::negative(x) {
            assert(u == 0);
        }
    }
    assert(-1real / 2real <= r - w / o <= 1real / 2real) by (nonlinear_arith)
        requires
            2real * o * r <= 2real * w + o,
            2real * w + o < 2real * o * r + 2real * o,
            o > 0real,
    ;
    assert(-1real <= r <= 1001real);
    assert(k >= 0) by (nonlinear_arith)
        requires
            k == (2 * u + one) / (2 * one),
            u >= 0,
            one > 0,
    ;
    reals::lemma_integer(k);
    let c = word::from_nat(k as nat);
    let f = word::round_of(x);
    if word::negative(x) {
        assert(u == 0);
        assert(k == 0) by (nonlinear_arith)
            requires
                k == (2 * u + one) / (2 * one),
                u == 0,
                one > 0,
        ;
    }
    laws::motion::lemma_negated(c);
    laws::echo::lemma_trunc_whole(f, k);
}

/// A sweep in a block of `n` samples. Its phase moves by the rate times the
/// time; so does that of the hold, and where it comes round, and only there, a
/// new value is drawn. How far it modulates is what it reads, by its shape, at
/// its depth.
pub proof fn law_sweep_in_numbers(
    m: Sem,
    l: Lfo,
    state: u32,
    q: [Bits; 63],
    at: int,
    n: nat,
    sr: Bits,
)
    requires
        m.rounds(),
        m.powers_in_range(),
        m.sines_bounded(),
        at == 34 || at == 38,
        n <= 128,
        usual_rate(sr),
        !word::is_nan(q[at]),
        !word::is_nan(q[at + 1]),
        !word::is_nan(q[at + 2]),
        tame(l),
    ensures
        ({
            let (after, next, reach) = block::sweep_block(m, l, state, q, at, n, m.div(F1, sr));
            let way = num(params::mapped(m, at, q[at])) * (n as real) / num(sr);
            let most = 1real / 500000real;
            let shape = block::choice_of(m, q, at + 2);
            &&& moved(l.ph, after.ph, way, most)
            &&& {
                ||| {
                    &&& next == state && after.sh == l.sh
                    &&& num(l.sh_ph) + way <= 1real + most
                    &&& dist(num(after.sh_ph), num(l.sh_ph) + way) <= most
                }
                ||| {
                    &&& next == rng::next_of(state)
                    &&& dist(num(after.sh), 2real * num(rng::unit_of(next)) - 1real) <= most
                    &&& num(l.sh_ph) + way >= 1real - most
                    &&& dist(num(after.sh_ph) + 1real, num(l.sh_ph) + way) <= most
                }
            }
            &&& dist(shape as real, num(params::mapped(m, at + 2, q[at + 2]))) <= 1real / 2real
            &&& dist(num(reach), reading(m, after, shape) * unit(num(q[at + 1]))) <= most
        }),
{
    reals::lemma_tiny();
    reals::lemma_num(F0, F1);
    numbers::law_ranges();
    numbers::law_numbers_small();
    numbers::law_numbers_whole();
    let dt = m.div(F1, sr);
    laws::settings::law_ratio(m, at, q[at]);
    let rate = params::mapped(m, at, q[at]);
    reals::lemma_num(RANGES[at].0, rate);
    reals::lemma_multiples(rate, RANGES[at].1, 10_000, 10_001);
    laws::motion::lemma_rate(sr);
    reals::lemma_integer(n as int);
    let count = word::from_nat(n);
    let a = num(rate);
    let k = n as real;
    assert(0real <= a <= 31real);
    assert(0real <= a * k <= 3968real) by (nonlinear_arith)
        requires
            0real <= a <= 31real,
            0real <= k <= 128real,
    ;
    assert(a * k <= 3842real) by (nonlinear_arith)
        requires
            0real <= a <= 30012real / 1000real,
            0real <= k <= 128real,
    ;
    reals::lemma_mul(m, rate, count);
    laws::motion::lemma_positive(m, rate, count);
    let f = m.mul(rate, count);
    let s = num(sr);
    laws::motion::lemma_inc(m, sr, f);
    laws::motion::lemma_moves(m, sr, l.ph, f);
    let inc = m.mul(f, dt);
    let way = a * k / s;
    let g = num(f) / s;
    let u = reals::tiny();
    assert(dist(g, way) <= 2real / 8388608real) by (nonlinear_arith)
        requires
            g == num(f) / s,
            way == a * k / s,
            dist(num(f), a * k) <= (a * k) / 8388608real + u,
            dist(num(f), a * k) >= num(f) - a * k,
            dist(num(f), a * k) >= a * k - num(f),
            a * k <= s,
            s >= 4096real,
            0real < u <= 1real / 1000000000real,
            dist(g, way) == g - way || dist(g, way) == way - g,
    ;
    let (after, next, reach) = block::sweep_block(m, l, state, q, at, n, dt);
    laws::motion::lemma_relax(
        l.ph,
        after.ph,
        g,
        8real / 8388608real,
        way,
        1real / 500000real,
    );
    reals::lemma_within(F0, l.sh_ph, F1);
    reals::lemma_within(F0, inc, F1);
    reals::lemma_add(m, l.sh_ph, inc);
    let sum = m.add(l.sh_ph, inc);
    reals::lemma_num(sum, F1);
    if word::at_least(sum, F1) {
        reals::lemma_sub(m, sum, F1);
        rng::law_unit_range(next);
        let x = rng::unit_of(next);
        reals::lemma_within(F0, x, F1);
        let two = num(F2);
        assert(num(x) * two == 2real * num(x)) by (nonlinear_arith)
            requires
                two == 2real,
        ;
        reals::lemma_mul(m, x, F2);
        reals::lemma_sub(m, m.mul(x, F2), F1);
    }
    lemma_choice(m, q, at + 2);
    lemma_reach(m, l, state, q, at, n, sr);
}

/// How far a sweep modulates.
proof fn lemma_reach(m: Sem, l: Lfo, state: u32, q: [Bits; 63], at: int, n: nat, sr: Bits)
    requires
        m.rounds(),
        m.powers_in_range(),
        m.sines_bounded(),
        at == 34 || at == 38,
        n <= 128,
        usual_rate(sr),
        !word::is_nan(q[at]),
        !word::is_nan(q[at + 1]),
        tame(l),
    ensures
        ({
            let (after, _, reach) = block::sweep_block(m, l, state, q, at, n, m.div(F1, sr));
            let shape = block::choice_of(m, q, at + 2);
            dist(num(reach), reading(m, after, shape) * unit(num(q[at + 1]))) <= 1real / 500000real
        }),
{
    reals::lemma_tiny();
    reals::lemma_num(F0, F1);
    laws::motion::lemma_rate(sr);
    laws::phases::lemma_rate(sr);
    reals::lemma_within(laws::voices::RATE_LEAST, sr, laws::rack::RATE_MOST);
    laws::modulation::law_sweep_turns_once(m, q, at, n, sr);
    laws::modulation::law_sweep_bounded(m, l, state, q, at, n, m.div(F1, sr));
    let (after, _, reach) = block::sweep_block(m, l, state, q, at, n, m.div(F1, sr));
    let shape = block::choice_of(m, q, at + 2);
    lemma_reading(m, after, shape);
    assert(RANGES[35] == (F0, F1, false));
    assert(RANGES[39] == (F0, F1, false));
    laws::frames::law_unit_setting(m, at + 1, q[at + 1]);
    let depth = params::mapped(m, at + 1, q[at + 1]);
    reals::lemma_within(F0, depth, F1);
    let v = block::sweep_value(m, after, shape);
    let a = num(v);
    let d = num(depth);
    let r = reading(m, after, shape);
    assert(size(a * d) <= 11real / 10real && dist(a * d, r * d) <= 8real / 8388608real)
        by (nonlinear_arith)
        requires
            -11real / 10real <= a <= 11real / 10real,
            0real <= d <= 1real,
            dist(a, r) <= 8real / 8388608real,
            dist(a, r) >= a - r,
            dist(a, r) >= r - a,
            size(a * d) == a * d || size(a * d) == -(a * d),
            dist(a * d, r * d) == a * d - r * d || dist(a * d, r * d) == r * d - a * d,
    ;
    reals::lemma_mul(m, v, depth);
}

/// A phase with `inc` turns added, of which one is taken off where it comes round.
pub open spec fn came_round(before: Bits, after: Bits, way: real) -> bool {
    let x = num(before) + way;
    let most = 1real / 250real;
    &&& x < 1real - most ==> near(after, x, most)
    &&& x > 1real + most ==> near(after, x - 1real, most)
    &&& near(after, x, most) || near(after, x - 1real, most)
}

/// A sweep in a block of any length up to 100 000 samples: both phases move by
/// the rate times the length over the sample rate, less one turn where they come
/// round; a new value is drawn where the hold does.
pub proof fn law_long_sweep(
    m: Sem,
    l: Lfo,
    state: u32,
    q: [Bits; 63],
    at: int,
    n: nat,
    sr: Bits,
)
    requires
        m.rounds(),
        m.powers_in_range(),
        at == 34 || at == 38,
        n <= 100_000,
        usual_rate(sr),
        !word::is_nan(q[at]),
        word::finite(l.ph),
        word::finite(l.sh_ph),
        0real <= num(l.ph) <= 1000real,
        0real <= num(l.sh_ph) <= 1000real,
    ensures
        ({
            let (after, next, _) = block::sweep_block(m, l, state, q, at, n, m.div(F1, sr));
            let way = num(params::mapped(m, at, q[at])) * (n as real) / num(sr);
            let x = num(l.sh_ph) + way;
            &&& came_round(l.ph, after.ph, way)
            &&& came_round(l.sh_ph, after.sh_ph, way)
            &&& x < 249real / 250real ==> next == state && after.sh == l.sh
            &&& x > 251real / 250real ==> next == rng::next_of(state)
        }),
{
    reals::lemma_tiny();
    reals::lemma_num(F0, F1);
    numbers::law_ranges();
    numbers::law_numbers_small();
    numbers::law_numbers_whole();
    let dt = m.div(F1, sr);
    laws::settings::law_ratio(m, at, q[at]);
    let rate = params::mapped(m, at, q[at]);
    reals::lemma_num(RANGES[at].0, rate);
    reals::lemma_multiples(rate, RANGES[at].1, 10_000, 10_001);
    laws::motion::lemma_rate(sr);
    reals::lemma_integer(n as int);
    let count = word::from_nat(n);
    let a = num(rate);
    let k = n as real;
    let s = num(sr);
    assert(0real <= a <= 31real);
    reals::lemma_near_mul(m, rate, count, a, k, 0real, 0real, 31real, 100000real);
    let f = m.mul(rate, count);
    let e = a * k;
    assert(0real <= e <= 3100000real) by (nonlinear_arith)
        requires
            e == a * k,
            0real <= a <= 31real,
            0real <= k <= 100000real,
    ;
    laws::motion::lemma_any_inc(m, sr, f, e);
    let inc = m.mul(f, dt);
    let way = e / s;
    lemma_came_round(m, l.ph, inc, way);
    lemma_came_round(m, l.sh_ph, inc, way);
    reals::lemma_near_add(m, l.sh_ph, inc, num(l.sh_ph), way, 0real, 1real / 800real, 1800real);
    let sum = m.add(l.sh_ph, inc);
    reals::lemma_num(F1, sum);
    reals::lemma_num(sum, F1);
}

proof fn lemma_came_round(m: Sem, ph: Bits, inc: Bits, way: real)
    requires
        m.rounds(),
        word::finite(ph),
        0real <= num(ph) <= 1000real,
        near(inc, way, 1real / 800real),
        -1real <= way <= 760real,
    ensures
        came_round(ph, m.turn(ph, inc), way),
{
    reals::lemma_num(F0, F1);
    let p = num(ph);
    reals::lemma_near_add(m, ph, inc, p, way, 0real, 1real / 800real, 1800real);
    let sum = m.add(ph, inc);
    reals::lemma_num(F1, sum);
    reals::lemma_num(sum, F1);
    reals::lemma_near_sub(m, sum, F1, p + way, 1real, 2real / 1000real, 0real, 1800real);
}

} // verus!
