//! What the settings stand for, and how the parts of a voice, the voices and
//! the master level come together, in numbers.

use crate::alu::Sem;
use crate::block::Block;
use crate::consts::{F0, F0_35, F1, F1_4};
use crate::engine;
use crate::engine::RiotCore;
use crate::fx;
use crate::laws;
use crate::laws::echo::held;
use crate::laws::frames::unit;
use crate::laws::numbers;
use crate::params;
use crate::params::RANGES;
use crate::render;
use crate::rounding;
use crate::rounding::reals;
use crate::rounding::reals::{dist, num, size};
use crate::voice;
use crate::voice::Voice;
use crate::word;
use crate::word::{Bits, WideBits};
use vstd::prelude::*;

verus! {

// ---------------------------------------------------------------------------
// Settings
// ---------------------------------------------------------------------------

/// A parameter in equal steps divides its range as the setting divides 0 ..= 1.
pub proof fn law_steps_in_numbers(m: Sem, i: int, x: Bits)
    requires
        m.rounds(),
        0 <= i < 63,
        !RANGES[i].2,
        !word::is_nan(x),
    ensures
        ({
            let lo = num(RANGES[i].0);
            let hi = num(RANGES[i].1);
            dist(num(params::mapped(m, i, x)), lo + (hi - lo) * unit(num(x))) <= 1real / 200000real
        }),
{
    reals::lemma_tiny();
    reals::lemma_num(F0, F1);
    numbers::law_ranges();
    reals::lemma_num(x, F0);
    reals::lemma_num(F1, x);
    let c = word::clamp_of(x, F0, F1);
    assert(num(c) == unit(num(x)));
    assert(word::between(F0, c, F1));
    if !numbers::special(i) {
        assert(numbers::spans(i, 0real, 1real, false));
    }
    let (lo, hi, _) = RANGES[i];
    lemma_linear(m, lo, hi, c);
}

proof fn lemma_linear(m: Sem, lo: Bits, hi: Bits, c: Bits)
    requires
        m.rounds(),
        word::finite(lo),
        word::finite(hi),
        -1real / 1000real <= num(lo) <= 1real / 1000real,
        0real <= num(hi) <= 6real,
        word::between(F0, c, F1),
    ensures
        dist(
            num(m.add(lo, m.mul(m.sub(hi, lo), c))),
            num(lo) + (num(hi) - num(lo)) * num(c),
        ) <= 1real / 200000real,
{
    reals::lemma_tiny();
    reals::lemma_lerp(m, lo, hi, c, 6real);
}

/// What a parameter in equal ratios stands for: its lower end times a power of
/// the ratio of the ends, to the setting.
pub open spec fn in_ratio(m: Sem, y: Bits, lo: real, hi: real, setting: real) -> bool {
    exists|b: Bits, c: Bits|
        {
            &&& dist(num(b) * lo, hi) <= hi / 1000000real
            &&& num(c) == setting
            &&& dist(num(y), lo * num(#[trigger] m.pow(b, c))) <= num(y) / 1000000real
        }
}

/// A parameter in equal ratios.
pub proof fn law_ratios_in_numbers(m: Sem, i: int, x: Bits)
    requires
        m.rounds(),
        m.powers_in_range(),
        0 <= i < 63,
        RANGES[i].2,
        !word::is_nan(x),
    ensures
        in_ratio(
            m,
            params::mapped(m, i, x),
            num(RANGES[i].0),
            num(RANGES[i].1),
            unit(num(x)),
        ),
{
    reals::lemma_tiny();
    reals::lemma_num(F0, F1);
    numbers::law_ranges();
    reals::lemma_num(x, F0);
    reals::lemma_num(F1, x);
    if !numbers::special(i) {
        assert(numbers::spans(i, 0real, 1real, false));
    }
    let (lo, hi, _) = RANGES[i];
    let c = word::clamp_of(x, F0, F1);
    assert(num(c) == unit(num(x)));
    let a = num(lo);
    let h = num(hi);
    assert(1real / 2000real <= a <= 6real / 10real && a <= h <= 31real);
    let q = h / a;
    assert(q * a == h && 0real <= q <= 62000real) by (nonlinear_arith)
        requires
            q == h / a,
            1real / 2000real <= a,
            0real <= h <= 31real,
    ;
    let t = reals::tiny();
    reals::lemma_div(m, hi, lo);
    let b = m.div(hi, lo);
    let r = num(b);
    assert(dist(r * a, h) <= h / 1000000real) by (nonlinear_arith)
        requires
            q * a == h,
            a > 0real,
            a <= 1real,
            h >= 1real / 2000real,
            dist(r, q) <= q / 8388608real + t,
            dist(r, q) >= r - q,
            dist(r, q) >= q - r,
            0real < t <= 1real / 1000000000000000real,
            dist(r * a, h) == r * a - h || dist(r * a, h) == h - r * a,
    ;
    laws::settings::lemma_base(m, i);
    let p = m.pow(b, c);
    assert(word::between(F1, p, 0x4780_0000)) by {
        reveal(Sem::powers_in_range);
        assert(word::between(F0, c, F1));
    }
    reals::lemma_within(F1, p, 0x4780_0000);
    vstd::arithmetic::power2::lemma2_to64();
    reals::lemma_const(0x4780_0000);
    assert(num(0x4780_0000) == 8388608real / 128real);
    let w = num(p);
    assert(a / 1real <= a * w && a * w <= 65536real) by (nonlinear_arith)
        requires
            1real <= w <= 65536real,
            0real < a <= 1real,
    ;
    reals::lemma_mul(m, lo, p);
    let y = m.mul(lo, p);
    assert(dist(num(y), a * w) <= num(y) / 1000000real);
    assert(num(m.pow(b, c)) == w);
}

// ---------------------------------------------------------------------------
// A voice
// ---------------------------------------------------------------------------

/// A sample of a voice is the sum of its three parts, each at its level, times
/// the envelope, the velocity and 0.35; the overtones are scaled by their norm
/// first.
pub proof fn law_voice_level(
    m: Sem,
    b: Block,
    t: [Bits; 131072],
    v: Voice,
    state: u32,
    most: real,
)
    requires
        m.rounds(),
        voice::enveloped(m, b.slopes, v).on,
        1real <= most <= 1000000real,
        held(b.sub_lv, 1real),
        held(b.add_lv, 1real),
        held(b.tex_lv, 1real),
        held(voice::enveloped(m, b.slopes, v).env, 1real),
        held(v.vel, 1real),
        ({
            let e = voice::enveloped(m, b.slopes, v);
            let (v1, s1, sub) = render::sub_step(m, b, e, state);
            let (ph, sum) = render::partials(m, b, v1.f0, v1.ph_a, b.p_top as nat);
            let tex = render::textured(m, b, t, Voice { ph_a: ph, ..v1 }, s1).2;
            &&& held(sub, most)
            &&& held(tex, most)
            &&& word::finite(sum)
            &&& word::finite(b.w_norm)
            &&& size(num(sum) * num(b.w_norm)) <= most
        }),
    ensures
        ({
            let e = voice::enveloped(m, b.slopes, v);
            let (v1, s1, sub) = render::sub_step(m, b, e, state);
            let (ph, sum) = render::partials(m, b, v1.f0, v1.ph_a, b.p_top as nat);
            let tex = render::textured(m, b, t, Voice { ph_a: ph, ..v1 }, s1).2;
            let mixed = num(sub) * num(b.sub_lv) + num(sum) * num(b.w_norm) * num(b.add_lv) + num(
                tex,
            ) * num(b.tex_lv);
            &&& render::voiced(m, b, t, v, state).2 is Some
            &&& dist(
                num(render::voiced(m, b, t, v, state).2->0),
                mixed * num(e.env) * num(v.vel) * (35real / 100real),
            ) <= most / 100000real
        }),
{
    let e = voice::enveloped(m, b.slopes, v);
    let (v1, s1, sub) = render::sub_step(m, b, e, state);
    let (ph, sum) = render::partials(m, b, v1.f0, v1.ph_a, b.p_top as nat);
    let v2 = Voice { ph_a: ph, ..v1 };
    let (v3, _, tex) = render::textured(m, b, t, v2, s1);
    assert(v3.env == e.env && v3.vel == v.vel);
    lemma_mixed(m, b, sub, sum, tex, most);
    let mixed = num(sub) * num(b.sub_lv) + num(sum) * num(b.w_norm) * num(b.add_lv) + num(tex)
        * num(b.tex_lv);
    let all = mixed_of(m, b, sub, sum, tex);
    lemma_shaped(m, all, e.env, v.vel, mixed, most);
    assert(render::voiced(m, b, t, v, state).2 == Some(
        m.mul(m.mul(m.mul(all, e.env), v.vel), F0_35),
    ));
}

spec fn mixed_of(m: Sem, b: Block, sub: Bits, sum: Bits, tex: Bits) -> Bits {
    m.add(
        m.add(m.mul(sub, b.sub_lv), m.mul(m.mul(sum, b.w_norm), b.add_lv)),
        m.mul(tex, b.tex_lv),
    )
}

proof fn lemma_mixed(m: Sem, b: Block, sub: Bits, sum: Bits, tex: Bits, most: real)
    requires
        m.rounds(),
        1real <= most <= 1000000real,
        held(b.sub_lv, 1real),
        held(b.add_lv, 1real),
        held(b.tex_lv, 1real),
        held(sub, most),
        held(tex, most),
        word::finite(sum),
        word::finite(b.w_norm),
        size(num(sum) * num(b.w_norm)) <= most,
    ensures
        held(mixed_of(m, b, sub, sum, tex), 4real * most),
        dist(
            num(mixed_of(m, b, sub, sum, tex)),
            num(sub) * num(b.sub_lv) + num(sum) * num(b.w_norm) * num(b.add_lv) + num(tex) * num(
                b.tex_lv,
            ),
        ) <= 20real * most / 8388608real,
{
    reals::lemma_tiny();
    let over = m.mul(sum, b.w_norm);
    reals::lemma_mul(m, sum, b.w_norm);
    let o = num(sum) * num(b.w_norm);
    let big = most + most / 1000real;
    lemma_scaled(m, sub, b.sub_lv, num(sub), most, 0real);
    lemma_scaled(m, over, b.add_lv, o, big, 2real * most / 8388608real);
    lemma_scaled(m, tex, b.tex_lv, num(tex), most, 0real);
    let x = m.mul(sub, b.sub_lv);
    let y = m.mul(over, b.add_lv);
    let z = m.mul(tex, b.tex_lv);
    lemma_sum_of(m, x, y, num(sub) * num(b.sub_lv), o * num(b.add_lv), 11real * most / 10real, most);
    lemma_sum_of(
        m,
        m.add(x, y),
        z,
        num(sub) * num(b.sub_lv) + o * num(b.add_lv),
        num(tex) * num(b.tex_lv),
        25real * most / 10real,
        most,
    );
}

/// A sum of two values that are known to eleven parts of `unit` in 2^23.
proof fn lemma_sum_of(m: Sem, x: Bits, y: Bits, a: real, b: real, most: real, unit: real)
    requires
        m.rounds(),
        held(x, most),
        held(y, 12real * unit / 10real),
        1real <= unit <= 1000000real,
        most <= 25real * unit / 10real,
        dist(num(x), a) <= 11real * unit / 8388608real,
        dist(num(y), b) <= 5real * unit / 8388608real,
    ensures
        held(m.add(x, y), most + 13real * unit / 10real),
        dist(num(m.add(x, y)), a + b) <= dist(num(x), a) + dist(num(y), b) + 4real * unit
            / 8388608real,
{
    reals::lemma_tiny();
    reals::lemma_add(m, x, y);
}

proof fn lemma_shaped(m: Sem, all: Bits, env: Bits, vel: Bits, mixed: real, most: real)
    requires
        m.rounds(),
        1real <= most <= 1000000real,
        held(all, 4real * most),
        dist(num(all), mixed) <= 20real * most / 8388608real,
        held(env, 1real),
        held(vel, 1real),
    ensures
        dist(
            num(m.mul(m.mul(m.mul(all, env), vel), F0_35)),
            mixed * num(env) * num(vel) * (35real / 100real),
        ) <= most / 100000real,
{
    reals::lemma_tiny();
    numbers::law_numbers_part();
    let wide = 4real * most;
    lemma_scaled(m, all, env, mixed, wide, 20real * most / 8388608real);
    let a1 = m.mul(all, env);
    let one = mixed * num(env);
    lemma_scaled(m, a1, vel, one, wide + most / 100real, 28real * most / 8388608real);
    let a2 = m.mul(a1, vel);
    let two = one * num(vel);
    let off3 = 37real * most / 8388608real;
    lemma_scaled(m, a2, F0_35, two, wide + most / 50real, off3);
    let k = num(F0_35);
    assert(-5real * most <= two <= 5real * most);
    assert(dist(two * k, two * (35real / 100real)) <= 2real * most / 8388608real)
        by (nonlinear_arith)
        requires
            -5real * most <= two <= 5real * most,
            dist(k, 35real / 100real) <= (35real / 100real) / 10000000real,
            dist(k, 35real / 100real) >= k - 35real / 100real,
            dist(k, 35real / 100real) >= 35real / 100real - k,
            most > 0real,
            dist(two * k, two * (35real / 100real)) == two * k - two * (35real / 100real) || dist(
                two * k,
                two * (35real / 100real),
            ) == two * (35real / 100real) - two * k,
    ;
}

/// A value near `exact`, times one of at most 1 in size.
proof fn lemma_scaled(m: Sem, x: Bits, k: Bits, exact: real, most: real, off: real)
    requires
        m.rounds(),
        held(x, most),
        held(k, 1real),
        dist(num(x), exact) <= off,
        1real <= most <= 100000000real,
    ensures
        held(m.mul(x, k), most + most / 1000real),
        dist(num(m.mul(x, k)), exact * num(k)) <= off + 2real * most / 8388608real,
{
    reals::lemma_tiny();
    let a = num(x);
    let c = num(k);
    assert(size(a * c) <= most && dist(a * c, exact * c) <= off) by (nonlinear_arith)
        requires
            -most <= a <= most,
            -1real <= c <= 1real,
            -off <= a - exact <= off,
            size(a * c) == a * c || size(a * c) == -(a * c),
            dist(a * c, exact * c) == a * c - exact * c || dist(a * c, exact * c) == exact * c - a
                * c,
    ;
    reals::lemma_mul(m, x, k);
}

// ---------------------------------------------------------------------------
// All voices
// ---------------------------------------------------------------------------

/// The same voice with nothing in the output yet.
pub open spec fn alone(from: render::Track) -> render::Track {
    render::Track { out: Seq::new(from.out.len(), |i: int| F0), ..from }
}

/// What the voice adds to sample `i`, where it still sounds there.
pub open spec fn added(
    m: Sem,
    b: Block,
    t: [Bits; 131072],
    from: render::Track,
    k: nat,
    i: int,
) -> Option<Bits> {
    if i < k {
        let s = render::voice_run(m, b, t, from, i as nat);
        if s.voice.on {
            render::voiced(m, b, t, s.voice, s.state).2
        } else {
            None
        }
    } else {
        None
    }
}

/// What a voice adds to a block does not depend on what is there already: it
/// is added to it, sample by sample, as it sounds alone.
pub proof fn law_voices_add_up(
    m: Sem,
    b: Block,
    t: [Bits; 131072],
    from: render::Track,
    k: nat,
    i: int,
    most: real,
)
    requires
        m.rounds(),
        k <= from.out.len(),
        0 <= i < from.out.len(),
        held(from.out[i], most),
        added(m, b, t, from, k, i) matches Some(x) ==> held(x, most),
        2real * most <= reals::vast(),
    ensures
        ({
            let r = render::voice_run(m, b, t, from, k);
            let solo = render::voice_run(m, b, t, alone(from), k);
            &&& r.voice == solo.voice
            &&& r.state == solo.state
            &&& r.out.len() == from.out.len()
            &&& num(solo.out[i]) == match added(m, b, t, from, k, i) {
                Some(x) => num(x),
                None => 0real,
            }
            &&& dist(num(r.out[i]), num(from.out[i]) + num(solo.out[i])) <= 2real * most
                / 8388608real + reals::tiny()
        }),
{
    reals::lemma_tiny();
    rounding::lemma_one();
    reals::lemma_num(F0, F1);
    lemma_run_alone(m, b, t, from, k, i);
    match added(m, b, t, from, k, i) {
        Some(x) => {
            rounding::lemma_sum(m, F0, x, x, x);
            reals::lemma_equal(m.add(F0, x), x);
            reals::lemma_add(m, from.out[i], x);
        },
        None => {},
    }
}

proof fn lemma_run_alone(
    m: Sem,
    b: Block,
    t: [Bits; 131072],
    from: render::Track,
    k: nat,
    i: int,
)
    requires
        k <= from.out.len(),
        0 <= i < from.out.len(),
    ensures
        ({
            let r = render::voice_run(m, b, t, from, k);
            let solo = render::voice_run(m, b, t, alone(from), k);
            &&& r.voice == solo.voice
            &&& r.state == solo.state
            &&& r.out.len() == from.out.len()
            &&& solo.out.len() == from.out.len()
            &&& r.out[i] == match added(m, b, t, from, k, i) {
                Some(x) => m.add(from.out[i], x),
                None => from.out[i],
            }
            &&& solo.out[i] == match added(m, b, t, from, k, i) {
                Some(x) => m.add(F0, x),
                None => F0,
            }
        }),
    decreases k,
{
    if k > 0 {
        lemma_run_alone(m, b, t, from, (k - 1) as nat, i);
    }
}

// ---------------------------------------------------------------------------
// Master
// ---------------------------------------------------------------------------

/// Every sample that comes out is the soft clip of what the rack gave, times
/// the master level and 1.4.
pub proof fn law_master_in_numbers(
    m: Sem,
    c: spec_fn(WideBits, usize, Bits) -> WideBits,
    s: RiotCore,
    n: usize,
    i: int,
    x: Bits,
    most: real,
)
    requires
        m.rounds(),
        0 <= i < n,
        1real <= most <= 1000000real,
        !word::is_nan(laws::voices::modulated(m, s, n)[37]),
        ({
            let mix = engine::mix_run(
                m,
                laws::voices::shared(m, s, n),
                *s.table,
                engine::Mix {
                    voices: s.voices,
                    tails: s.tails,
                    state: engine::controlled(m, s, n as nat).0.rng,
                    out: Seq::new(n as nat, |j: int| F0),
                },
                10,
            );
            x == fx::racked(m, laws::voices::modulated(m, s, n), s.sr, s.fx, mix.out).1[i]
        }),
        held(x, most),
    ensures
        exists|y: Bits|
            {
                &&& engine::processed(m, c, s, n).1[i] == #[trigger] m.tanh(y)
                &&& word::finite(y)
                &&& dist(
                    num(y),
                    num(x) * unit(num(laws::voices::modulated(m, s, n)[37])) * (14real / 10real),
                ) <= most / 500000real
            },
{
    reals::lemma_tiny();
    numbers::law_numbers_mixed();
    let q = laws::voices::modulated(m, s, n);
    let b = laws::voices::shared(m, s, n);
    assert(RANGES[37] == (F0, F1, false));
    laws::frames::law_unit_setting(m, 37, q[37]);
    reals::lemma_within(F0, b.master, F1);
    let g = num(b.master);
    assert(size(num(x)) <= most);
    lemma_scaled(m, x, b.master, num(x), most, 0real);
    let a = m.mul(x, b.master);
    let y = m.mul(a, F1_4);
    let xg = num(x) * g;
    let k = num(F1_4);
    let av = num(a);
    assert(size(av) <= 2real * most);
    assert(size(av * k) <= 3real * most) by (nonlinear_arith)
        requires
            -2real * most <= av <= 2real * most,
            0real <= k <= 15real / 10real,
            size(av * k) == av * k || size(av * k) == -(av * k),
            most > 0real,
    ;
    reals::lemma_mul(m, a, F1_4);
    assert(-most <= xg <= most) by (nonlinear_arith)
        requires
            xg == num(x) * g,
            -most <= num(x) <= most,
            0real <= g <= 1real,
    ;
    assert(dist(av * k, xg * (14real / 10real)) <= 4real * most / 8388608real) by (nonlinear_arith)
        requires
            dist(av, xg) <= 2real * most / 8388608real,
            dist(av, xg) >= av - xg,
            dist(av, xg) >= xg - av,
            -most <= xg <= most,
            dist(k, 14real / 10real) <= (14real / 10real) / 10000000real,
            dist(k, 14real / 10real) >= k - 14real / 10real,
            dist(k, 14real / 10real) >= 14real / 10real - k,
            1real <= k <= 15real / 10real,
            most > 0real,
            dist(av * k, xg * (14real / 10real)) == av * k - xg * (14real / 10real) || dist(
                av * k,
                xg * (14real / 10real),
            ) == xg * (14real / 10real) - av * k,
    ;
    lemma_master_sample(m, c, s, n, i, x);
    assert(engine::processed(m, c, s, n).1[i] == m.tanh(y));
}

proof fn lemma_master_sample(
    m: Sem,
    c: spec_fn(WideBits, usize, Bits) -> WideBits,
    s: RiotCore,
    n: usize,
    i: int,
    x: Bits,
)
    requires
        0 <= i < n,
        ({
            let mix = engine::mix_run(
                m,
                laws::voices::shared(m, s, n),
                *s.table,
                engine::Mix {
                    voices: s.voices,
                    tails: s.tails,
                    state: engine::controlled(m, s, n as nat).0.rng,
                    out: Seq::new(n as nat, |j: int| F0),
                },
                10,
            );
            x == fx::racked(m, laws::voices::modulated(m, s, n), s.sr, s.fx, mix.out).1[i]
        }),
    ensures
        engine::processed(m, c, s, n).1[i] == m.tanh(
            m.mul(m.mul(x, laws::voices::shared(m, s, n).master), F1_4),
        ),
{
    let from = engine::Mix {
        voices: s.voices,
        tails: s.tails,
        state: engine::controlled(m, s, n as nat).0.rng,
        out: Seq::new(n as nat, |j: int| F0),
    };
    let b = laws::voices::shared(m, s, n);
    laws::voices::lemma_mix_voice(m, b, *s.table, from, 10, 0);
    let mixed = engine::mix_run(m, b, *s.table, from, 10).out;
    laws::rack::lemma_racked_len(m, laws::voices::modulated(m, s, n), s.sr, s.fx, mixed);
}

} // verus!
