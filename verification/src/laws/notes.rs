//! How a note starts, and what a block leaves alone.

use crate::alu::Sem;
use crate::consts::{F0, F1, F12, F440, F6, F69};
use crate::engine;
use crate::engine::RiotCore;
use crate::laws;
use crate::laws::numbers;
use crate::laws::phases::usual_rate;
use crate::params;
use crate::params::RANGES;
use crate::pool;
use crate::rng;
use crate::rounding::reals;
use crate::rounding::reals::{dist, num};
use crate::word;
use crate::word::{Bits, WideBits};
use vstd::prelude::*;

verus! {

/// A note takes one voice and no other: it starts at the beginning of its
/// attack, at rest, with the note and the velocity that it was given, and the
/// texture's heads at two places drawn one after the other. Of the engine only
/// the voices, the fade pool and the noise change.
pub proof fn law_note_starts(m: Sem, s: RiotCore, note: u8, vel: Bits)
    ensures
        ({
            let i = pool::slot_for_note(s.voices@) as int;
            let t = engine::started(m, s, note, vel);
            let v = t.voices[i];
            let r1 = rng::next_of(s.rng);
            &&& 0 <= i < 8
            &&& v.on && v.gate && v.note == note && v.vel == vel && v.age == s.clock
            &&& v.stage is Attack
            &&& num(v.env) == 0real && num(v.t) == 0real && num(v.ph_s) == 0real
            &&& forall|p: int| 0 <= p < 16 ==> num(#[trigger] v.ph_a[p]) == 0real
            &&& num(v.g_fade) == 1real && v.g_cnt == 0 && num(v.pn) == 0real
            &&& v.ph_t == rng::unit_of(r1) && v.ph_t2 == rng::unit_of(rng::next_of(r1))
            &&& v.tr_samp >= 1
            &&& forall|j: int| 0 <= j < 8 && j != i ==> #[trigger] t.voices[j] == s.voices[j]
            &&& t == (RiotCore { voices: t.voices, tails: t.tails, rng: t.rng, ..s })
            &&& t.rng == rng::next_of(r1)
        }),
{
    pool::lemma_slots(s.voices@);
    reals::lemma_num(F0, F1);
}

/// A note sounds at 440 cycles per second times two to the power of the
/// twelfths that it lies above note 69.
pub proof fn law_pitch_in_numbers(m: Sem, note: u8)
    requires
        m.rounds(),
        m.doubles(),
    ensures
        exists|x: Bits|
            {
                &&& word::finite(x)
                &&& dist(12real * num(x), ((note - 69) as int) as real) <= 1real / 10000real
                &&& dist(
                    num(engine::pitch_of(m, note)),
                    440real * num(#[trigger] m.pow(0x4000_0000, x)),
                ) <= num(m.pow(0x4000_0000, x)) / 10000real
            },
{
    reals::lemma_tiny();
    numbers::law_numbers_whole();
    numbers::law_numbers_large();
    let n = word::from_nat(note as nat);
    reals::lemma_integer(note as int);
    reals::lemma_sub(m, n, F69);
    let d = m.sub(n, F69);
    let k = ((note - 69) as int) as real;
    assert(dist(num(d), k) <= 1real / 40000real);
    let e = num(d);
    assert(e / num(F12) == e / 12real);
    reals::lemma_div(m, d, F12);
    let x = m.div(d, F12);
    laws::settings::lemma_pitch_exponent(m, note);
    let p = m.pow(0x4000_0000, x);
    let y = num(p);
    let f = num(F440);
    assert(f * y == 440real * y) by (nonlinear_arith)
        requires
            f == 440real,
    ;
    reals::lemma_mul(m, F440, p);
    assert(dist(12real * num(x), k) <= 1real / 10000real);
    assert(dist(num(engine::pitch_of(m, note)), 440real * y) <= y / 10000real);
}

/// The click of a note gets as many samples of noise as fit into six times its
/// decay, as that is set when the note starts, and one at least.
pub proof fn law_click_in_numbers(m: Sem, s: RiotCore, note: u8, vel: Bits)
    requires
        m.rounds(),
        m.powers_in_range(),
        usual_rate(s.sr),
        !word::is_nan(s.params[6]),
    ensures
        ({
            let exact = 6real * num(params::mapped(m, 6, s.params[6])) * num(s.sr);
            let t = engine::started(m, s, note, vel);
            let n = t.voices[pool::slot_for_note(s.voices@) as int].tr_samp;
            &&& exact - exact / 1000000real - 11real / 10real <= n as real
            &&& n as real <= exact + exact / 1000000real + 11real / 10real
            &&& n >= 1
        }),
{
    pool::lemma_slots(s.voices@);
    lemma_click(m, s.params[6], s.sr);
}

proof fn lemma_click(m: Sem, setting: Bits, sr: Bits)
    requires
        m.rounds(),
        m.powers_in_range(),
        usual_rate(sr),
        !word::is_nan(setting),
    ensures
        ({
            let exact = 6real * num(params::mapped(m, 6, setting)) * num(sr);
            let n = engine::click_of(m, setting, sr);
            &&& exact - exact / 1000000real - 11real / 10real <= n as real
            &&& n as real <= exact + exact / 1000000real + 11real / 10real
            &&& n >= 1
        }),
{
    reals::lemma_tiny();
    reals::lemma_num(F0, F1);
    numbers::law_numbers_whole();
    numbers::law_numbers_tiny();
    numbers::law_numbers_small();
    laws::motion::lemma_rate(sr);
    numbers::law_ranges();
    assert(numbers::spans(6, 2real / 1000real, 8real / 100real, true)
        || numbers::spans(6, 1real / 500real, 2real / 25real, true));
    laws::settings::law_ratio(m, 6, setting);
    let dec = params::mapped(m, 6, setting);
    reals::lemma_num(RANGES[6].0, dec);
    reals::lemma_multiples(dec, RANGES[6].1, 10_000, 10_001);
    let a = num(dec);
    assert(0real < a <= 1real / 10real);
    let six = num(F6);
    assert(a * six == 6real * a) by (nonlinear_arith)
        requires
            six == 6real,
    ;
    reals::lemma_mul(m, dec, F6);
    let b = num(m.mul(dec, F6));
    let s = num(sr);
    let u = reals::tiny();
    assert(dist(b * s, 6real * a * s) <= (6real * a * s) / 8388608real + u * s && 0real <= b * s
        <= 262144real) by (nonlinear_arith)
        requires
            dist(b, 6real * a) <= (6real * a) / 8388608real + u,
            dist(b, 6real * a) == b - 6real * a || dist(b, 6real * a) == 6real * a - b,
            dist(b * s, 6real * a * s) == b * s - 6real * a * s || dist(b * s, 6real * a * s)
                == 6real * a * s - b * s,
            4096real <= s <= 262144real,
            0real <= b <= 1real,
    ;
    assert(u * s <= 1real / 1000000real) by (nonlinear_arith)
        requires
            0real < u <= 1real / 1000000000000000real,
            0real < s <= 262144real,
    ;
    reals::lemma_mul(m, m.mul(dec, F6), sr);
    let samples = m.mul(m.mul(dec, F6), sr);
    laws::motion::lemma_positive(m, m.mul(dec, F6), sr);
    reals::lemma_trunc(samples);
    let exact = 6real * a * s;
    assert(dist(num(samples), exact) <= exact / 1000000real + 1real / 100000real);
}

/// A block changes voices, fade pool, sweeps, noise, clock and rack, and
/// nothing that was set: neither the settings, the routes nor the table.
pub proof fn law_block_keeps_settings(
    m: Sem,
    c: spec_fn(WideBits, usize, Bits) -> WideBits,
    s: RiotCore,
    n: usize,
)
    ensures
        ({
            let t = engine::processed(m, c, s, n).0;
            &&& t.sr == s.sr
            &&& t.params == s.params
            &&& t.routes == s.routes
            &&& t.n_routes == s.n_routes
            &&& t.table == s.table
            &&& t.n_frames == s.n_frames
            &&& t.clock == c(s.clock, n, m.div(F1, s.sr))
        }),
{
}

} // verus!
