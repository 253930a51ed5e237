//! What holds of the sweeps and the modulation matrix.

use crate::alu::Sem;
use crate::block;
use crate::block::{Lfo, Route};
use crate::consts::{F0, F0_05, F0_5, F1, F2, F30, F4, TAU};
use crate::engine;
use crate::engine::RiotCore;
use crate::fx;
use crate::fx::analog;
use crate::fx::distortion;
use crate::fx::hybrid;
use crate::laws;
use crate::laws::voices;
use crate::laws::voices::RATE_LEAST;
use crate::params;
use crate::params::RANGES;
use crate::rng;
use crate::rounding;
use crate::word;
use crate::word::{Bits, WideBits};
use vstd::arithmetic::power2::*;
use vstd::prelude::*;

verus! {

// ---------------------------------------------------------------------------
// Settings that mean the same
// ---------------------------------------------------------------------------

/// `i` is a setting of a sweep: rate, depth or shape.
pub open spec fn is_sweep(i: int) -> bool {
    34 <= i <= 36 || 38 <= i <= 40
}

/// Two lists of settings stand for the same, those of the sweeps apart.
pub open spec fn same_meaning(m: Sem, q: [Bits; 63], p: [Bits; 63]) -> bool {
    forall|i: int|
        0 <= i < 63 && !is_sweep(i) ==> #[trigger] params::mapped(m, i, q[i]) == params::mapped(
            m,
            i,
            p[i],
        )
}

proof fn lemma_same_weights(m: Sem, q: [Bits; 63], p: [Bits; 63], tilt: Bits, k: nat)
    requires
        same_meaning(m, q, p),
        k <= 16,
    ensures
        block::weighed(m, q, tilt, k) == block::weighed(m, p, tilt, k),
    decreases k,
{
    if k > 0 {
        let i = k - 1;
        lemma_same_weights(m, q, p, tilt, i as nat);
        assert(params::mapped(m, 10 + i, q[10 + i]) == params::mapped(m, 10 + i, p[10 + i]));
    }
}

proof fn lemma_same_block(
    m: Sem,
    q: [Bits; 63],
    p: [Bits; 63],
    sr: Bits,
    active: nat,
    n_frames: nat,
)
    requires
        same_meaning(m, q, p),
    ensures
        block::block_of(m, q, sr, active, n_frames) == block::block_of(m, p, sr, active, n_frames),
{
    assert(params::mapped(m, 8, q[8]) == params::mapped(m, 8, p[8]));
    lemma_same_weights(
        m,
        q,
        p,
        m.mul(m.sub(params::mapped(m, 8, q[8]), F0_5), F4),
        16,
    );
}

proof fn lemma_same_rack(
    m: Sem,
    q: [Bits; 63],
    p: [Bits; 63],
    sr: Bits,
    s: fx::Fx,
    out: Seq<Bits>,
)
    requires
        same_meaning(m, q, p),
    ensures
        fx::racked(m, q, sr, s, out) == fx::racked(m, p, sr, s, out),
{
    let drift = fx::wandered(m, s).drift;
    assert(fx::gates_of(m, q) == fx::gates_of(m, p));
    assert(distortion::block_of(m, q, sr) == distortion::block_of(m, p, sr));
    let d = m.mul(drift, params::mapped(m, 49, q[49]));
    assert(d == m.mul(drift, params::mapped(m, 49, p[49])));
    assert(analog::block_of(m, q, sr, d) == analog::block_of(m, p, sr, d));
    assert(hybrid::block_of(m, q, sr) == hybrid::block_of(m, p, sr)) by {
        let a = hybrid::block_of(m, q, sr);
        let b = hybrid::block_of(m, p, sr);
        assert(params::mapped(m, 55, q[55]) == params::mapped(m, 55, p[55]));
        assert(a.line_goals =~= b.line_goals);
    }
}

/// Routes that do not change what the settings stand for change no sample:
/// without them the block is the same, and so is the engine after it, but for
/// the number of routes.
proof fn lemma_inert(
    m: Sem,
    c: spec_fn(WideBits, usize, Bits) -> WideBits,
    s: RiotCore,
    n: usize,
)
    requires
        same_meaning(m, voices::modulated(m, s, n), s.params),
    ensures
        ({
            let t = RiotCore { n_routes: 0, ..s };
            let (after, out) = engine::processed(m, c, s, n);
            let (plain, dry) = engine::processed(m, c, t, n);
            out == dry && after == (RiotCore { n_routes: s.n_routes, ..plain })
        }),
{
    let t = RiotCore { n_routes: 0, ..s };
    let q = voices::modulated(m, s, n);
    let p = s.params;
    assert(voices::modulated(m, t, n) == p);
    let b = block::block_of(m, q, s.sr, engine::sounding(s), s.n_frames as nat);
    lemma_same_block(m, q, p, s.sr, engine::sounding(s), s.n_frames as nat);
    assert(engine::sounding(t) == engine::sounding(s));
    let s1 = engine::controlled(m, s, n as nat).0;
    let from = engine::Mix {
        voices: s.voices,
        tails: s.tails,
        state: s1.rng,
        out: Seq::new(n as nat, |i: int| F0),
    };
    let mixed = engine::mix_run(m, b, *s.table, from, 10).out;
    lemma_same_rack(m, q, p, s.sr, s.fx, mixed);
}

// ---------------------------------------------------------------------------
// Routes that do nothing
// ---------------------------------------------------------------------------

/// Routes onto the sweeps' own settings change no sample: the sweeps read
/// their settings as they were set.
pub proof fn law_routes_onto_sweeps_inert(
    m: Sem,
    c: spec_fn(WideBits, usize, Bits) -> WideBits,
    s: RiotCore,
    n: usize,
)
    requires
        s.wf(),
        forall|r: int| 0 <= r < s.n_routes ==> is_sweep((#[trigger] s.routes[r]).param as int),
    ensures
        ({
            let t = RiotCore { n_routes: 0, ..s };
            let (after, out) = engine::processed(m, c, s, n);
            let (plain, dry) = engine::processed(m, c, t, n);
            out == dry && after == (RiotCore { n_routes: s.n_routes, ..plain })
        }),
{
    let (mod1, mod2) = reaches(m, s, n);
    let q = voices::modulated(m, s, n);
    assert forall|i: int| 0 <= i < 63 && !is_sweep(i) implies #[trigger] params::mapped(
        m,
        i,
        q[i],
    ) == params::mapped(m, i, s.params[i]) by {
        assert forall|r: int| 0 <= r < s.n_routes implies (#[trigger] s.routes[r]).param != i by {
            assert(is_sweep(s.routes[r].param as int));
        }
        laws::law_unrouted_untouched(m, s.params, s.routes, s.n_routes as nat, mod1, mod2, i);
    }
    lemma_inert(m, c, s, n);
}

/// How far the two sweeps modulate in a block of `n` samples.
pub open spec fn reaches(m: Sem, s: RiotCore, n: usize) -> (Bits, Bits) {
    let dt = m.div(F1, s.sr);
    let (lfo, state, mod1) = block::sweep_block(m, s.lfo, s.rng, s.params, 34, n as nat, dt);
    let mod2 = block::sweep_block(m, s.lfo2, state, s.params, 38, n as nat, dt).2;
    (mod1, mod2)
}

/// The values of the two sweeps in a block of `n` samples, before their depth.
pub open spec fn readings(m: Sem, s: RiotCore, n: usize) -> (Bits, Bits) {
    let after = engine::controlled(m, s, n as nat).0;
    (
        block::sweep_value(m, after.lfo, block::choice_of(m, s.params, 36)),
        block::sweep_value(m, after.lfo2, block::choice_of(m, s.params, 40)),
    )
}

/// Routes whose reach is zero leave every setting at its value.
proof fn lemma_still(
    m: Sem,
    q: [Bits; 63],
    routes: [Route; 16],
    k: nat,
    mod1: Bits,
    mod2: Bits,
    i: int,
)
    requires
        m.rounds(),
        k <= 16,
        0 <= i < 63,
        forall|r: int| 0 <= r < 16 ==> (#[trigger] routes[r]).wf(),
        forall|r: int| 0 <= r < k ==> word::finite((#[trigger] routes[r]).depth),
        forall|j: int| 0 <= j < 63 ==> word::finite(#[trigger] q[j]),
        word::value(mod1) == 0,
        word::value(mod2) == 0,
    ensures
        word::finite(block::routed(m, q, routes, k, mod1, mod2)[i]),
        word::value(block::routed(m, q, routes, k, mod1, mod2)[i]) == word::value(q[i]),
    decreases k,
{
    assert(word::finite(q[i]));
    if k > 0 {
        let r = routes[k - 1];
        assert(r.wf() && word::finite(r.depth));
        lemma_still(m, q, routes, (k - 1) as nat, mod1, mod2, i);
        let before = block::routed(m, q, routes, (k - 1) as nat, mod1, mod2);
        let reach = if r.src == 1 {
            mod2
        } else {
            mod1
        };
        rounding::lemma_one();
        rounding::lemma_rank_is_value(reach, F0);
        assert(word::value(reach) * word::value(r.depth) == 0) by (nonlinear_arith)
            requires
                word::value(reach) == 0,
        ;
        rounding::lemma_product(m, reach, r.depth, F0, F0);
        let part = m.mul(reach, r.depth);
        if r.param == i {
            rounding::lemma_sum(m, before[i], part, before[i], before[i]);
        }
    }
}

/// Settings of the same value stand for the same.
proof fn lemma_value_is_meaning(m: Sem, i: int, x: Bits, y: Bits)
    requires
        m.rounds(),
        m.powers_in_range(),
        0 <= i < 63,
        word::finite(x),
        word::finite(y),
        word::value(x) == word::value(y),
    ensures
        params::mapped(m, i, x) == params::mapped(m, i, y),
{
    rounding::lemma_same_value(x, y);
    rounding::lemma_rank_is_value(x, F0);
    if x != y {
        if RANGES[i].2 {
            laws::settings::lemma_base(m, i);
            let b = m.div(RANGES[i].1, RANGES[i].0);
            let p = m.pow(b, x);
            let q = m.pow(b, y);
            assert(p == q) by {
                reveal(Sem::powers_in_range);
            }
        } else {
            laws::settings::law_proportion(m, i, x);
            laws::settings::law_proportion(m, i, y);
        }
    }
}

/// With both depths at 0 or below, routes change no sample.
pub proof fn law_zero_depth_inert(
    m: Sem,
    c: spec_fn(WideBits, usize, Bits) -> WideBits,
    s: RiotCore,
    n: usize,
)
    requires
        m.rounds(),
        m.powers_in_range(),
        s.wf(),
        word::at_least(F0, s.params[35]),
        word::at_least(F0, s.params[39]),
        forall|i: int| 0 <= i < 63 ==> word::finite(#[trigger] s.params[i]),
        forall|r: int| 0 <= r < s.n_routes ==> word::finite((#[trigger] s.routes[r]).depth),
        word::finite(readings(m, s, n).0),
        word::finite(readings(m, s, n).1),
    ensures
        ({
            let t = RiotCore { n_routes: 0, ..s };
            let (after, out) = engine::processed(m, c, s, n);
            let (plain, dry) = engine::processed(m, c, t, n);
            out == dry && after == (RiotCore { n_routes: s.n_routes, ..plain })
        }),
{
    let (mod1, mod2) = reaches(m, s, n);
    let (v1, v2) = readings(m, s, n);
    let q = voices::modulated(m, s, n);
    assert(RANGES[35] == (F0, F1, false));
    assert(RANGES[39] == (F0, F1, false));
    laws::settings::law_proportion(m, 35, s.params[35]);
    laws::settings::law_proportion(m, 39, s.params[39]);
    rounding::lemma_one();
    assert(mod1 == m.mul(v1, F0) && mod2 == m.mul(v2, F0));
    assert(word::value(v1) * word::value(F0) == 0 && word::value(v2) * word::value(F0) == 0)
        by (nonlinear_arith)
        requires
            word::value(F0) == 0,
    ;
    rounding::lemma_product(m, v1, F0, F0, F0);
    rounding::lemma_product(m, v2, F0, F0, F0);
    assert forall|i: int| 0 <= i < 63 && !is_sweep(i) implies #[trigger] params::mapped(
        m,
        i,
        q[i],
    ) == params::mapped(m, i, s.params[i]) by {
        lemma_still(m, s.params, s.routes, s.n_routes as nat, mod1, mod2, i);
        assert(word::finite(s.params[i]));
        lemma_value_is_meaning(m, i, q[i], s.params[i]);
    }
    lemma_inert(m, c, s, n);
}

// ---------------------------------------------------------------------------
// How far modulation goes
// ---------------------------------------------------------------------------

/// The phases of a sweep lie in 0 ..= 1, and its held value in -1 ..= 1.
pub open spec fn tame(l: Lfo) -> bool {
    &&& word::between(F0, l.ph, F1)
    &&& word::between(0xbf80_0000, l.sh, F1)
    &&& word::between(F0, l.sh_ph, F1)
}

/// How many turns the sweep whose settings start at `at` makes in `n` samples
/// of `dt` seconds.
pub open spec fn turns(m: Sem, q: [Bits; 63], at: int, n: nat, dt: Bits) -> Bits {
    m.mul(m.mul(params::mapped(m, at, q[at]), word::from_nat(n)), dt)
}

proof fn lemma_marks()
    ensures
        word::value(0xbf80_0000) == -word::one(),
        word::value(F2) == 2 * word::one(),
        word::value(F4) == 4 * word::one(),
        2 * word::value(F0_5) == word::one(),
        word::value(word::neg_of(F0_5)) == -word::value(F0_5),
{
    lemma2_to64();
    rounding::lemma_one();
    rounding::lemma_power(F2);
    rounding::lemma_power(F4);
    rounding::lemma_power(F0_5);
    lemma_pow2_adds(149, 1);
    lemma_pow2_adds(149, 2);
    lemma_pow2_adds(148, 1);
    assert(word::value(0xbf80_0000) == -word::value(F1));
}

/// A phase that is moved on by one turn at most stays in 0 ..= 1.
pub proof fn lemma_turn(m: Sem, ph: Bits, inc: Bits)
    requires
        m.rounds(),
        word::between(F0, ph, F1),
        word::between(F0, inc, F1),
    ensures
        word::between(F0, m.turn(ph, inc), F1),
{
    rounding::lemma_one();
    lemma_marks();
    rounding::lemma_between(F0, ph, F1);
    rounding::lemma_between(F0, inc, F1);
    rounding::lemma_sum(m, ph, inc, F0, F2);
    let p = m.add(ph, inc);
    rounding::lemma_rank_is_value(p, F1);
    if word::at_least(p, F1) {
        rounding::lemma_difference(m, p, F1, F0, F1);
    }
}

proof fn lemma_reading(m: Sem, l: Lfo, shape: u32)
    requires
        m.rounds(),
        m.sines_bounded(),
        tame(l),
    ensures
        word::between(0xbf80_0000, block::sweep_value(m, l, shape), F1),
{
    rounding::lemma_one();
    lemma_marks();
    rounding::lemma_between(F0, l.ph, F1);
    let one = word::one() as int;
    if shape == 0 {
        rounding::lemma_rank_is_value(F0, TAU);
        rounding::lemma_part(m, TAU, l.ph);
        reveal(Sem::sines_bounded);
    } else if shape == 1 {
        let low = word::neg_of(F0_5);
        rounding::lemma_difference(m, l.ph, F0_5, low, F0_5);
        let off = m.sub(l.ph, F0_5);
        let size = word::abs_of(off);
        assert(word::value(size) == word::value(off) || word::value(size) == -word::value(off));
        assert(0 <= word::value(size) <= word::value(F0_5));
        let a = word::value(F4) * word::value(size);
        assert(0 <= a <= (2 * one) * one) by (nonlinear_arith)
            requires
                a == word::value(F4) * word::value(size),
                word::value(F4) == 4 * one,
                0 <= 2 * word::value(size) <= one,
        ;
        rounding::lemma_product(m, F4, size, F0, F2);
        let four = m.mul(F4, size);
        rounding::lemma_difference(m, F1, four, 0xbf80_0000, F1);
    } else if shape == 2 {
        lemma_twice(m, l.ph);
    }
}

/// `2 x - 1` lies in -1 ..= 1 where `x` lies in 0 ..= 1.
pub proof fn lemma_twice(m: Sem, x: Bits)
    requires
        m.rounds(),
        word::between(F0, x, F1),
    ensures
        word::between(0xbf80_0000, m.sub(m.mul(F2, x), F1), F1),
        word::between(0xbf80_0000, m.sub(m.mul(x, F2), F1), F1),
{
    rounding::lemma_one();
    lemma_marks();
    rounding::lemma_between(F0, x, F1);
    rounding::lemma_part(m, F2, x);
    rounding::lemma_difference(m, m.mul(F2, x), F1, 0xbf80_0000, F1);
    rounding::lemma_difference(m, m.mul(x, F2), F1, 0xbf80_0000, F1);
}

/// A sweep that turns once at most in a block stays tame, reads in -1 ..= 1,
/// and reaches no further than that.
pub proof fn law_sweep_bounded(
    m: Sem,
    l: Lfo,
    state: u32,
    q: [Bits; 63],
    at: int,
    n: nat,
    dt: Bits,
)
    requires
        m.rounds(),
        m.sines_bounded(),
        at == 34 || at == 38,
        tame(l),
        !word::is_nan(q[at + 1]),
        word::between(F0, turns(m, q, at, n, dt), F1),
    ensures
        ({
            let (after, _, reach) = block::sweep_block(m, l, state, q, at, n, dt);
            let shape = block::choice_of(m, q, at + 2);
            &&& tame(after)
            &&& word::between(0xbf80_0000, block::sweep_value(m, after, shape), F1)
            &&& word::between(0xbf80_0000, reach, F1)
        }),
{
    rounding::lemma_one();
    lemma_marks();
    let inc = turns(m, q, at, n, dt);
    let (after, next) = block::swept(m, l, state, inc);
    lemma_turn(m, l.ph, inc);
    lemma_turn(m, l.sh_ph, inc);
    let drawn = rng::next_of(state);
    rng::law_unit_range(drawn);
    lemma_twice(m, rng::unit_of(drawn));
    assert(tame(after));
    let shape = block::choice_of(m, q, at + 2);
    lemma_reading(m, after, shape);
    let v = block::sweep_value(m, after, shape);
    assert(RANGES[35] == (F0, F1, false));
    assert(RANGES[39] == (F0, F1, false));
    laws::settings::law_proportion(m, at + 1, q[at + 1]);
    let depth = params::mapped(m, at + 1, q[at + 1]);
    rounding::lemma_between(F0, depth, F1);
    rounding::lemma_between(0xbf80_0000, v, F1);
    lemma_unit_product(m, v, depth);
}

/// The product of two numbers in -1 ..= 1 lies there too.
proof fn lemma_unit_product(m: Sem, x: Bits, y: Bits)
    requires
        m.rounds(),
        word::between(0xbf80_0000, x, F1),
        word::between(0xbf80_0000, y, F1),
    ensures
        word::between(0xbf80_0000, m.mul(x, y), F1),
        -word::one() <= word::value(m.mul(x, y)) <= word::one(),
        word::finite(m.mul(x, y)),
{
    rounding::lemma_one();
    lemma_marks();
    rounding::lemma_between(0xbf80_0000, x, F1);
    rounding::lemma_between(0xbf80_0000, y, F1);
    let one = word::one() as int;
    let a = word::value(x);
    let b = word::value(y);
    assert((-one) * one <= a * b <= one * one) by (nonlinear_arith)
        requires
            -one <= a <= one,
            -one <= b <= one,
            one > 0,
    ;
    rounding::lemma_product(m, x, y, 0xbf80_0000, F1);
}

/// `k` routes take a setting in 0 ..= 1 to `k + 1` at the furthest.
proof fn lemma_routed_bounded(
    m: Sem,
    q: [Bits; 63],
    routes: [Route; 16],
    k: nat,
    mod1: Bits,
    mod2: Bits,
    i: int,
)
    requires
        m.rounds(),
        k <= 16,
        0 <= i < 63,
        forall|r: int| 0 <= r < 16 ==> (#[trigger] routes[r]).wf(),
        forall|r: int|
            0 <= r < k ==> word::between(0xbf80_0000, (#[trigger] routes[r]).depth, F1),
        forall|j: int| 0 <= j < 63 ==> word::between(F0, #[trigger] q[j], F1),
        word::between(0xbf80_0000, mod1, F1),
        word::between(0xbf80_0000, mod2, F1),
    ensures
        ({
            let x = block::routed(m, q, routes, k, mod1, mod2)[i];
            &&& word::finite(x)
            &&& rounding::gap(word::value(x), 0) <= (k + 1) * word::one()
        }),
    decreases k,
{
    rounding::lemma_one();
    let one = word::one() as int;
    assert(word::between(F0, q[i], F1));
    rounding::lemma_between(F0, q[i], F1);
    assert((k + 1) * one == k * one + one) by (nonlinear_arith);
    if k == 0 {
        assert(k * one == 0) by (nonlinear_arith)
            requires
                k == 0,
        ;
    } else {
        let r = routes[k - 1];
        assert(r.wf() && word::between(0xbf80_0000, r.depth, F1));
        lemma_routed_bounded(m, q, routes, (k - 1) as nat, mod1, mod2, i);
        let before = block::routed(m, q, routes, (k - 1) as nat, mod1, mod2);
        let reach = if r.src == 1 {
            mod2
        } else {
            mod1
        };
        lemma_unit_product(m, reach, r.depth);
        let part = m.mul(reach, r.depth);
        assert(rounding::gap(word::value(before[i]), 0) <= k * one);
        let far = k as int + 1;
        let lo = rounding::whole(-far);
        let hi = rounding::whole(far);
        rounding::lemma_whole(far);
        rounding::lemma_whole(-far);
        assert(far * one == k * one + one && (-far) * one == -(k * one) - one)
            by (nonlinear_arith)
            requires
                far == k + 1,
        ;
        if r.param == i {
            rounding::lemma_sum(m, before[i], part, lo, hi);
        }
    }
}

/// No sweep turns more than once in a block of 128 samples or fewer, from 8000
/// samples a second on.
pub proof fn law_sweep_turns_once(m: Sem, q: [Bits; 63], at: int, n: nat, sr: Bits)
    requires
        m.rounds(),
        m.powers_in_range(),
        at == 34 || at == 38,
        !word::is_nan(q[at]),
        n <= 128,
        word::finite(sr),
        word::at_least(sr, RATE_LEAST),
    ensures
        word::between(F0, turns(m, q, at, n, m.div(F1, sr)), F1),
{
    rounding::lemma_one();
    let one = word::one() as int;
    assert(RANGES[34] == (F0_05, F30, true));
    assert(RANGES[38] == (F0_05, F30, true));
    laws::settings::law_ratio(m, at, q[at]);
    let rate = params::mapped(m, at, q[at]);
    rounding::lemma_rank_is_value(F0_05, rate);
    rounding::lemma_rank_is_value(F0, F0_05);
    lemma_limits();
    let count = word::from_nat(n);
    rounding::lemma_whole(n as int);
    let a = word::value(rate);
    let b = word::value(count);
    assert(0 <= a * b <= (4096 * one) * one) by (nonlinear_arith)
        requires
            0 <= a <= 32 * one,
            b == n * one,
            n <= 128,
            one > 0,
    ;
    assert(0 * one <= a * b) by (nonlinear_arith)
        requires
            0 <= a * b,
    ;
    rounding::lemma_product(m, rate, count, F0, 0x4580_0000);
    let dt = m.div(F1, sr);
    voices::lemma_sample_time(m, sr);
    rounding::lemma_between(F0, dt, 0x3980_0000);
    let c = word::value(m.mul(rate, count));
    let d = word::value(dt);
    assert(0 <= c * d <= one * one) by (nonlinear_arith)
        requires
            0 <= c <= 4096 * one,
            0 <= 4096 * d <= one,
    ;
    rounding::lemma_product(m, m.mul(rate, count), dt, F0, F1);
}

proof fn lemma_limits()
    ensures
        10_001 * word::value(F30) <= 320_000 * word::one(),
        word::value(0x4580_0000) == 4096 * word::one(),
        4096 * word::value(0x3980_0000) == word::one(),
{
    lemma2_to64();
    rounding::lemma_one();
    rounding::lemma_power(0x4580_0000);
    rounding::lemma_power(0x3980_0000);
    lemma_pow2_adds(149, 12);
    lemma_pow2_adds(137, 12);
    lemma_pow2_adds(19, 130);
    let p = pow2(130) as int;
    assert(word::one() == 0x8_0000 * p);
    assert(word::value(F30) == 0xf0_0000 * p);
}

/// The same for the blocks that an audio worklet asks for: settings in 0 ..= 1,
/// routes no deeper than 1 and tame sweeps keep every setting a finite number
/// and the sweeps tame.
pub proof fn law_modulation_bounded_in_short_blocks(m: Sem, s: RiotCore, n: usize, i: int)
    requires
        m.rounds(),
        m.sines_bounded(),
        m.powers_in_range(),
        s.wf(),
        n <= 128,
        word::finite(s.sr),
        word::at_least(s.sr, RATE_LEAST),
        0 <= i < 63,
        forall|j: int| 0 <= j < 63 ==> word::between(F0, #[trigger] s.params[j], F1),
        forall|r: int|
            0 <= r < s.n_routes ==> word::between(
                0xbf80_0000,
                (#[trigger] s.routes[r]).depth,
                F1,
            ),
        tame(s.lfo),
        tame(s.lfo2),
    ensures
        word::finite(voices::modulated(m, s, n)[i]),
        word::finite(readings(m, s, n).0),
        word::finite(readings(m, s, n).1),
        tame(engine::controlled(m, s, n as nat).0.lfo),
        tame(engine::controlled(m, s, n as nat).0.lfo2),
{
    assert(word::between(F0, s.params[34], F1) && word::between(F0, s.params[38], F1));
    law_sweep_turns_once(m, s.params, 34, n as nat, s.sr);
    law_sweep_turns_once(m, s.params, 38, n as nat, s.sr);
    law_modulation_bounded(m, s, n, i);
}

/// Settings in 0 ..= 1, routes no deeper than 1, and sweeps that are tame and
/// turn once at most in a block: then every setting as modulated is a finite
/// number, what the sweeps read is, and they stay tame.
pub proof fn law_modulation_bounded(m: Sem, s: RiotCore, n: usize, i: int)
    requires
        m.rounds(),
        m.sines_bounded(),
        s.wf(),
        0 <= i < 63,
        forall|j: int| 0 <= j < 63 ==> word::between(F0, #[trigger] s.params[j], F1),
        forall|r: int|
            0 <= r < s.n_routes ==> word::between(
                0xbf80_0000,
                (#[trigger] s.routes[r]).depth,
                F1,
            ),
        tame(s.lfo),
        tame(s.lfo2),
        word::between(F0, turns(m, s.params, 34, n as nat, m.div(F1, s.sr)), F1),
        word::between(F0, turns(m, s.params, 38, n as nat, m.div(F1, s.sr)), F1),
    ensures
        word::finite(voices::modulated(m, s, n)[i]),
        word::finite(readings(m, s, n).0),
        word::finite(readings(m, s, n).1),
        tame(engine::controlled(m, s, n as nat).0.lfo),
        tame(engine::controlled(m, s, n as nat).0.lfo2),
{
    let dt = m.div(F1, s.sr);
    let (mod1, mod2) = reaches(m, s, n);
    assert(word::between(F0, s.params[35], F1) && word::between(F0, s.params[39], F1));
    law_sweep_bounded(m, s.lfo, s.rng, s.params, 34, n as nat, dt);
    let state = block::sweep_block(m, s.lfo, s.rng, s.params, 34, n as nat, dt).1;
    law_sweep_bounded(m, s.lfo2, state, s.params, 38, n as nat, dt);
    lemma_routed_bounded(m, s.params, s.routes, s.n_routes as nat, mod1, mod2, i);
}

} // verus!
