//! How the voices come together, and which sections of the rack take part.

use crate::alu::Sem;
use crate::block::Block;
use crate::consts::{F0, F0_001, F1};
use crate::engine;
use crate::engine::Mix;
use crate::fx;
use crate::fx::{Fx, RackBlock};
use crate::laws;
use crate::laws::echo::held;
use crate::laws::frames::unit;
use crate::laws::levels::{added, alone};
use crate::laws::numbers;
use crate::laws::voices::mixed;
use crate::params;
use crate::render;
use crate::rounding::reals;
use crate::rounding::reals::{dist, num};
use crate::word;
use crate::word::Bits;
use vstd::prelude::*;

verus! {

/// Voice `k` as its turn comes: it is as the block found it, and takes the noise
/// and the output from the voices before it.
pub open spec fn turn_of(m: Sem, b: Block, t: [Bits; 131072], from: Mix, k: nat) -> render::Track {
    let s = engine::mix_run(m, b, t, from, k);
    render::Track { voice: mixed(from, k as int), state: s.state, out: s.out }
}

/// Every one of the ten voices, the eight that play notes and the two of the
/// fade pool, adds to the block what it sounds alone, and is moved on by it.
pub proof fn law_voice_joins_mix(
    m: Sem,
    b: Block,
    t: [Bits; 131072],
    from: Mix,
    k: nat,
    i: int,
    most: real,
)
    requires
        m.rounds(),
        k < 10,
        0 <= i < from.out.len(),
        held(engine::mix_run(m, b, t, from, k).out[i], most),
        added(m, b, t, turn_of(m, b, t, from, k), from.out.len(), i) matches Some(x) ==> held(x, most),
        2real * most <= reals::vast(),
    ensures
        ({
            let before = engine::mix_run(m, b, t, from, k);
            let after = engine::mix_run(m, b, t, from, k + 1);
            let solo = render::voice_run(
                m,
                b,
                t,
                alone(turn_of(m, b, t, from, k)),
                from.out.len(),
            );
            &&& mixed(after, k as int) == solo.voice
            &&& after.state == solo.state
            &&& after.out.len() == from.out.len()
            &&& dist(num(after.out[i]), num(before.out[i]) + num(solo.out[i])) <= 2real * most
                / 8388608real + reals::tiny()
            &&& forall|j: int| 0 <= j < 10 && j != k ==> mixed(after, j) == mixed(before, j)
        }),
{
    let s = engine::mix_run(m, b, t, from, k);
    let _ = laws::voices::lemma_mix_voice(m, b, t, from, k, k as int);
    let track = turn_of(m, b, t, from, k);
    assert(mixed(s, k as int) == track.voice);
    laws::levels::law_voices_add_up(m, b, t, track, from.out.len(), i, most);
}

/// A section is heard where its mix is above 0.001: distortion, phaser, chorus,
/// tremolo, delay and reverb, each by its own.
pub proof fn law_sections_heard(m: Sem, q: [Bits; 63])
    requires
        m.rounds(),
        !word::is_nan(q[62]),
        !word::is_nan(q[41]),
        !word::is_nan(q[44]),
        !word::is_nan(q[47]),
        !word::is_nan(q[50]),
        !word::is_nan(q[54]),
    ensures
        ({
            let g = fx::gates_of(m, q);
            &&& gate_is(g.dist, num(q[62]))
            &&& gate_is(g.phaser, num(q[41]))
            &&& gate_is(g.chorus, num(q[44]))
            &&& gate_is(g.trem, num(q[47]))
            &&& gate_is(g.delay, num(q[50]))
            &&& gate_is(g.reverb, num(q[54]))
        }),
{
    numbers::law_ranges();
    lemma_gate(m, q, 62);
    lemma_gate(m, q, 41);
    lemma_gate(m, q, 44);
    lemma_gate(m, q, 47);
    lemma_gate(m, q, 50);
    lemma_gate(m, q, 54);
}

/// A gate opens above 0.001.
pub open spec fn gate_is(open: bool, mix: real) -> bool {
    &&& mix > 1001real / 1000000real ==> open
    &&& mix < 999real / 1000000real ==> !open
}

proof fn lemma_gate(m: Sem, q: [Bits; 63], i: int)
    requires
        m.rounds(),
        0 <= i < 63,
        params::RANGES[i] == (F0, F1, false),
        !word::is_nan(q[i]),
    ensures
        gate_is(fx::audible(m, q, i), num(q[i])),
{
    reals::lemma_num(F0, F1);
    numbers::law_numbers_tiny();
    laws::frames::law_unit_setting(m, i, q[i]);
    let x = params::mapped(m, i, q[i]);
    laws::wet::lemma_part(x);
    assert(num(x) == unit(num(q[i])));
    reals::lemma_num(F0_001, x);
}

/// The rack takes the samples of a block one by one: sample `i` goes in as it
/// came, through the rack as the samples before it left it, and what comes out
/// stays.
pub proof fn law_rack_takes_each_sample(
    m: Sem,
    b: RackBlock,
    s: Fx,
    x: Seq<Bits>,
    k: nat,
    i: int,
)
    requires
        0 <= i < k <= x.len(),
    ensures
        ({
            let before = fx::rack_run(m, b, s, x, i as nat).0;
            let (after, y) = fx::rack_step(m, b, before, x[i]);
            &&& fx::rack_run(m, b, s, x, k).1[i] == y
            &&& fx::rack_run(m, b, s, x, (i + 1) as nat).0 == after
        }),
    decreases k,
{
    laws::rack::law_rack_is_causal(m, b, s, x, x, i as nat);
    laws::rack::law_rack_is_causal(m, b, s, x, x, (k - 1) as nat);
    if i < k - 1 {
        law_rack_takes_each_sample(m, b, s, x, (k - 1) as nat, i);
    }
}

} // verus!
