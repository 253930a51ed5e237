//! What holds of the engine as a whole.
//!
//! Each law is stated over the functions that the contracts of the engine's
//! operations speak of, for every reading of the arithmetic or, where the law
//! says so, for every one that is sound in the ways of `crate::rounding`.

use crate::alu::Sem;
use crate::block;
use crate::block::{Block, Route};
use crate::cells;
use crate::consts::{F0, F1};
use crate::engine;
use crate::engine::{Mix, RiotCore};
use crate::params;
use crate::pool;
use crate::render;
use crate::rounding::reals;
use crate::rounding::reals::num;
use crate::voice::Voice;
use crate::word;
use crate::word::Bits;
use vstd::prelude::*;

pub mod adsr;
pub mod controls;
pub mod dirt;
pub mod drift;
pub mod echo;
pub mod factory;
pub mod frames;
pub mod glide;
pub mod levels;
pub mod matrix;
pub mod mixing;
pub mod modulation;
pub mod motion;
pub mod notes;
pub mod numbers;
pub mod overtones;
pub mod phases;
pub mod rack;
pub mod settings;
pub mod shapes;
pub mod sweeps;
pub mod texture;
pub mod tones;
pub mod voices;
pub mod wet;

verus! {

// ---------------------------------------------------------------------------
// Voices
// ---------------------------------------------------------------------------

/// What one block does to a voice, any number of blocks do: once silent it
/// stays silent, and samples that its click has used up never come back.
pub proof fn law_aging_composes(a: Voice, b: Voice, c: Voice)
    requires
        a.aged_into(b),
        b.aged_into(c),
    ensures
        a.aged_into(c),
        a.tr_samp == 0 ==> c.tr_samp == 0,
{
}

/// The click of a voice is silent once its samples are used up: no noise is
/// drawn for it, whatever its level is set to.
pub proof fn law_spent_click_is_silent(m: Sem, b: Block, v: Voice, state: u32)
    requires
        v.tr_samp <= 0,
    ensures
        render::sub_step(m, b, v, state).0.tr_samp == v.tr_samp,
        render::sub_step(m, b, v, state).1 == state,
        render::sub_step(m, b, v, state).2 == render::sub_tone(m, b, v).1,
{
}

/// A voice that no longer sounds adds nothing to a block, draws no noise, and
/// does not change.
pub proof fn law_silent_voice_untouched(
    m: Sem,
    b: Block,
    t: [Bits; 131072],
    from: render::Track,
    k: nat,
)
    requires
        !from.voice.on,
    ensures
        render::voice_run(m, b, t, from, k) == from,
    decreases k,
{
    if k > 0 {
        law_silent_voice_untouched(m, b, t, from, (k - 1) as nat);
    }
}

/// Where no voice sounds, rendering leaves the output and the noise as they
/// were.
pub proof fn law_silent_engine(m: Sem, b: Block, t: [Bits; 131072], from: Mix, k: nat)
    requires
        k <= 10,
        forall|i: int| 0 <= i < 8 ==> !(#[trigger] from.voices[i]).on,
        forall|i: int| 0 <= i < 2 ==> !(#[trigger] from.tails[i]).on,
    ensures
        engine::mix_run(m, b, t, from, k) == from,
    decreases k,
{
    if k > 0 {
        let i = k - 1;
        law_silent_engine(m, b, t, from, i as nat);
        let voice = if i < 8 {
            from.voices[i]
        } else {
            from.tails[i - 8]
        };
        let track = render::Track { voice, state: from.state, out: from.out };
        law_silent_voice_untouched(m, b, t, track, from.out.len());
        if i < 8 {
            assert(cells::put(from.voices, i, voice) =~= from.voices);
        } else {
            assert(cells::put(from.tails, i - 8, voice) =~= from.tails);
        }
    }
}

/// After everything has been cut off nothing sounds, and cutting off again
/// changes nothing.
pub proof fn law_hush(v: Voice)
    ensures
        !engine::hushed(v).on,
        engine::hushed(engine::hushed(v)) == engine::hushed(v),
{
}

/// Ending a note a second time changes nothing, and ending one note leaves
/// the others alone.
pub proof fn law_release(v: Voice, note: u8)
    ensures
        engine::released(engine::released(v, note), note) == engine::released(v, note),
        v.note != note ==> engine::released(v, note) == v,
        engine::released(v, note).on == v.on,
{
}

/// What a voice sounds with is the same in both: pitch, level, envelope, time,
/// phases, grain and click.
pub open spec fn sounds_alike(v: Voice, w: Voice) -> bool {
    &&& v.note == w.note && v.age == w.age && v.f0 == w.f0 && v.vel == w.vel
    &&& v.env == w.env && v.t == w.t
    &&& v.ph_s == w.ph_s && v.ph_a == w.ph_a && v.ph_t == w.ph_t && v.ph_t2 == w.ph_t2
    &&& v.g_fade == w.g_fade && v.g_cnt == w.g_cnt && v.pn == w.pn && v.tr_samp == w.tr_samp
}

/// The end of a note releases the voices that hold it, and no others, and lets
/// them go on as they sound, from where their envelopes are.
pub proof fn law_release_keeps_sound(v: Voice, note: u8)
    ensures
        ({
            let w = engine::released(v, note);
            &&& sounds_alike(v, w) && w.on == v.on
            &&& if v.on && v.gate && v.note == note {
                !w.gate && w.stage is Release
            } else {
                w.gate == v.gate && w.stage == v.stage
            }
        }),
{
}

/// A voice that is cut off is silent at once: its envelope is at zero and idle,
/// whatever it did before.
pub proof fn law_hush_is_silence(v: Voice)
    ensures
        ({
            let w = engine::hushed(v);
            &&& !w.on && w.stage is Idle && num(w.env) == 0real
            &&& sounds_alike(Voice { env: w.env, ..v }, w) && w.gate == v.gate
        }),
{
    reals::lemma_num(F0, F1);
}

/// A note that is started and ended is being released: its voice sounds, its
/// gate is closed, and no voice is left that plays it with an open gate.
pub proof fn law_note_ends(m: Sem, s: RiotCore, note: u8, vel: Bits, after: RiotCore)
    requires
        s.wf(),
        forall|i: int|
            0 <= i < 8 ==> #[trigger] after.voices[i] == engine::released(
                engine::started(m, s, note, vel).voices[i],
                note,
            ),
    ensures
        ({
            let v = after.voices[pool::slot_for_note(s.voices@) as int];
            v.on && !v.gate && v.note == note && v.stage is Release
        }),
        forall|i: int|
            0 <= i < 8 ==> !((#[trigger] after.voices[i]).on && after.voices[i].gate
                && after.voices[i].note == note),
{
    pool::lemma_slots(s.voices@);
    let i = pool::slot_for_note(s.voices@) as int;
    assert(after.voices[i] == engine::released(
        engine::started(m, s, note, vel).voices[i],
        note,
    ));
}

// ---------------------------------------------------------------------------
// How many voices sound
// ---------------------------------------------------------------------------

/// After everything has been cut off no voice is left to render.
pub proof fn law_panic_silences(before: RiotCore, after: RiotCore)
    requires
        forall|i: int|
            0 <= i < 8 ==> #[trigger] after.voices[i] == engine::hushed(before.voices[i]),
        forall|i: int|
            0 <= i < 2 ==> #[trigger] after.tails[i] == engine::hushed(before.tails[i]),
    ensures
        engine::sounding(after) == 0,
{
    lemma_count_none(after.voices@, 8);
    lemma_count_none(after.tails@, 2);
}

proof fn lemma_count_none(v: Seq<Voice>, k: nat)
    requires
        forall|i: int| 0 <= i < k ==> !(#[trigger] v[i]).on,
    ensures
        pool::count_on(v, k) == 0,
    decreases k,
{
    if k > 0 {
        assert(!v[k - 1].on);
        lemma_count_none(v, (k - 1) as nat);
    }
}

/// There are never more than ten voices to render.
pub proof fn law_sounding_bounded(s: RiotCore)
    ensures
        engine::sounding(s) <= 10,
{
    lemma_count_bounded(s.voices@, 8);
    lemma_count_bounded(s.tails@, 2);
}

proof fn lemma_count_bounded(v: Seq<Voice>, k: nat)
    ensures
        pool::count_on(v, k) <= k,
    decreases k,
{
    if k > 0 {
        lemma_count_bounded(v, (k - 1) as nat);
    }
}

/// Rendering ends voices and never starts one.
pub proof fn law_rendering_starts_nothing(before: RiotCore, after: RiotCore)
    requires
        forall|i: int| 0 <= i < 8 ==> before.voices[i].aged_into(#[trigger] after.voices[i]),
        forall|i: int| 0 <= i < 2 ==> before.tails[i].aged_into(#[trigger] after.tails[i]),
    ensures
        engine::sounding(after) <= engine::sounding(before),
{
    lemma_count_shrinks(before.voices@, after.voices@, 8);
    lemma_count_shrinks(before.tails@, after.tails@, 2);
}

proof fn lemma_count_shrinks(a: Seq<Voice>, b: Seq<Voice>, k: nat)
    requires
        forall|i: int| 0 <= i < k ==> a[i].aged_into(#[trigger] b[i]),
    ensures
        pool::count_on(b, k) <= pool::count_on(a, k),
    decreases k,
{
    if k > 0 {
        assert(a[k - 1].aged_into(b[k - 1]));
        lemma_count_shrinks(a, b, (k - 1) as nat);
    }
}

/// Starting a note always sounds it: the voices that play notes grow by one
/// where one was silent, and otherwise all of them go on sounding.
pub proof fn law_note_always_sounds(m: Sem, s: RiotCore, note: u8, vel: Bits)
    ensures
        ({
            let before = pool::count_on(s.voices@, 8);
            let after = pool::count_on(engine::started(m, s, note, vel).voices@, 8);
            if pool::free_slot(s.voices@, 0) is Some {
                after == before + 1
            } else {
                before == 8 && after == 8
            }
        }),
{
    let v = s.voices@;
    let w = engine::started(m, s, note, vel).voices@;
    pool::lemma_slots(v);
    pool::lemma_free_slot(v, 0);
    let i = pool::slot_for_note(v) as int;
    assert(w[i].on);
    assert forall|j: int| 0 <= j < 8 && j != i implies w[j] == v[j] by {}
    lemma_count_one_more(v, w, i, 8);
    if pool::free_slot(v, 0) is None {
        lemma_count_full(v, 8);
    }
}

proof fn lemma_count_one_more(v: Seq<Voice>, w: Seq<Voice>, i: int, k: nat)
    requires
        0 <= i < 8,
        k <= 8,
        v.len() == 8,
        w.len() == 8,
        w[i].on,
        forall|j: int| 0 <= j < 8 && j != i ==> w[j] == v[j],
    ensures
        pool::count_on(w, k) == pool::count_on(v, k) + if i < k && !v[i].on {
            1nat
        } else {
            0nat
        },
    decreases k,
{
    if k > 0 {
        lemma_count_one_more(v, w, i, (k - 1) as nat);
    }
}

proof fn lemma_count_full(v: Seq<Voice>, k: nat)
    requires
        k <= v.len(),
        forall|j: int| 0 <= j < v.len() ==> (#[trigger] v[j]).on,
    ensures
        pool::count_on(v, k) == k,
    decreases k,
{
    if k > 0 {
        assert(v[k - 1].on);
        lemma_count_full(v, (k - 1) as nat);
    }
}

/// However many voices sound, the overtones that they sum per sample stay
/// bounded.
pub proof fn law_load_bounded(m: Sem, q: [Bits; 63], s: RiotCore)
    ensures
        engine::sounding(s) * block::block_of(
            m,
            q,
            s.sr,
            engine::sounding(s),
            s.n_frames as nat,
        ).p_top <= 70,
{
    law_sounding_bounded(s);
    let n = engine::sounding(s);
    let top = block::block_of(m, q, s.sr, n, s.n_frames as nat).p_top as nat;
    let c = block::cap_of(n);
    assert(n * top <= 70) by (nonlinear_arith)
        requires
            top <= c,
            n <= 3 && c == 16 || n <= 5 && c == 12 || n <= 6 && c == 9 || n <= 10 && c == 7,
    ;
}

// ---------------------------------------------------------------------------
// Parameters and table
// ---------------------------------------------------------------------------

/// A setting below 0 stands for what 0 stands for, and one above 1 for what 1
/// stands for.
pub proof fn law_settings_bounded(m: Sem, i: int, x: Bits)
    ensures
        word::below(x, F0) ==> params::mapped(m, i, x) == params::mapped(m, i, F0),
        word::below(F1, x) ==> params::mapped(m, i, x) == params::mapped(m, i, F1),
{
}

/// A parameter that no route in use points at is not modulated.
pub proof fn law_unrouted_untouched(
    m: Sem,
    q: [Bits; 63],
    routes: [Route; 16],
    k: nat,
    mod1: Bits,
    mod2: Bits,
    i: int,
)
    requires
        k <= 16,
        0 <= i < 63,
        forall|r: int| 0 <= r < 16 ==> (#[trigger] routes[r]).wf(),
        forall|r: int| 0 <= r < k ==> (#[trigger] routes[r]).param != i,
    ensures
        block::routed(m, q, routes, k, mod1, mod2)[i] == q[i],
    decreases k,
{
    if k > 0 {
        law_unrouted_untouched(m, q, routes, (k - 1) as nat, mod1, mod2, i);
        assert(routes[k - 1].wf());
        assert(routes[k - 1].param != i);
    }
}

/// The texture is read from two neighbouring frames, both in use (of two
/// frames at least), wherever its position is modulated to.
pub proof fn law_frames_in_use(m: Sem, q: [Bits; 63], sr: Bits, active: nat, n_frames: nat)
    requires
        n_frames <= 64,
    ensures
        block::block_of(m, q, sr, active, n_frames).fi + 1 < block::frames_of(n_frames),
        block::frames_of(n_frames) <= 64,
{
}

} // verus!
