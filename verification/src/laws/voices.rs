//! What a block makes of a voice.

use crate::alu::Sem;
use crate::block;
use crate::block::Block;
use crate::consts::{
    F0, F0_001, F0_02, F0_25, F0_35, F0_48, F0_85, F1, F1E_4, F1E_5, F1_02, F2, F4, F6,
};
use crate::engine;
use crate::engine::{Mix, RiotCore};
use crate::laws;
use crate::params;
use crate::params::RANGES;
use crate::render;
use crate::rounding;
use crate::voice;
use crate::voice::{Slopes, Stage, Voice};
use crate::word;
use crate::word::{Bits, WideBits};
use vstd::arithmetic::power2::*;
use vstd::prelude::*;

verus! {

/// 8000: the lowest sample rate that the laws on envelopes speak of.
pub const RATE_LEAST: Bits = 0x45fa_0000;

// ---------------------------------------------------------------------------
// From one voice to the whole block
// ---------------------------------------------------------------------------

/// Voice `i` of all ten: first those that play notes, then the fade pool.
pub open spec fn voice_of(s: RiotCore, i: int) -> Voice {
    if i < 8 {
        s.voices[i]
    } else {
        s.tails[i - 8]
    }
}

pub open spec fn mixed(s: Mix, i: int) -> Voice {
    if i < 8 {
        s.voices[i]
    } else {
        s.tails[i - 8]
    }
}

proof fn lemma_sample_ages(m: Sem, b: Block, t: [Bits; 131072], v: Voice, state: u32)
    requires
        v.on,
    ensures
        ({
            let w = render::voiced(m, b, t, v, state).0;
            &&& v.aged_into(w)
            &&& w.on <==> !w.faded()
        }),
{
    let e = voice::enveloped(m, b.slopes, v);
    assert(v.aged_into(e));
    assert(e.on <==> !e.faded());
    if e.on {
        let (v1, state1, _) = render::sub_step(m, b, e, state);
        let (ph_a, _) = render::partials(m, b, v1.f0, v1.ph_a, b.p_top as nat);
        let v2 = Voice { ph_a, ..v1 };
        let v3 = render::textured(m, b, t, v2, state1).0;
        assert(v3.env == e.env && v3.stage == e.stage && v3.on);
    }
}

/// Rendering ages a voice, and leaves none sounding that has faded.
pub proof fn lemma_run_ages(m: Sem, b: Block, t: [Bits; 131072], from: render::Track, k: nat)
    ensures
        ({
            let after = render::voice_run(m, b, t, from, k);
            &&& from.voice.aged_into(after.voice)
            &&& k > 0 && after.voice.on ==> !after.voice.faded()
            &&& k <= from.out.len() ==> after.out.len() == from.out.len()
        }),
    decreases k,
{
    if k > 0 {
        lemma_run_ages(m, b, t, from, (k - 1) as nat);
        let s = render::voice_run(m, b, t, from, (k - 1) as nat);
        if s.voice.on {
            lemma_sample_ages(m, b, t, s.voice, s.state);
            let w = render::voiced(m, b, t, s.voice, s.state).0;
            laws::law_aging_composes(from.voice, s.voice, w);
        }
    }
}

/// A voice that sounds after `k` samples sounded after every `j` before.
pub proof fn lemma_sounded(m: Sem, b: Block, t: [Bits; 131072], from: render::Track, j: nat, k: nat)
    requires
        j <= k,
        render::voice_run(m, b, t, from, k).voice.on,
    ensures
        render::voice_run(m, b, t, from, j).voice.on,
    decreases k,
{
    if j < k {
        lemma_run_ages(m, b, t, from, (k - 1) as nat);
        lemma_sounded(m, b, t, from, j, (k - 1) as nat);
    }
}

/// Where voice `i` starts from when its turn comes, while `k` voices are
/// rendered.
pub proof fn lemma_mix_voice(m: Sem, b: Block, t: [Bits; 131072], from: Mix, k: nat, i: int) -> (r:
    render::Track)
    requires
        k <= 10,
        0 <= i < 10,
    ensures
        engine::mix_run(m, b, t, from, k).out.len() == from.out.len(),
        r.voice == mixed(from, i),
        r.out.len() == from.out.len(),
        mixed(engine::mix_run(m, b, t, from, k), i) == if i < k {
            render::voice_run(m, b, t, r, from.out.len()).voice
        } else {
            r.voice
        },
    decreases k,
{
    if k == 0 {
        render::Track { voice: mixed(from, i), state: from.state, out: from.out }
    } else {
        let j = k - 1;
        let s = engine::mix_run(m, b, t, from, j as nat);
        let r = lemma_mix_voice(m, b, t, from, j as nat, i);
        let q = render::Track { voice: mixed(s, j), state: s.state, out: s.out };
        lemma_run_ages(m, b, t, q, s.out.len());
        if i == j {
            q
        } else {
            r
        }
    }
}

/// Where voice `i` starts from in a block.
pub proof fn lemma_block_voice(
    m: Sem,
    c: spec_fn(WideBits, usize, Bits) -> WideBits,
    s: RiotCore,
    n: usize,
    i: int,
) -> (r: render::Track)
    requires
        0 <= i < 10,
    ensures
        r.voice == voice_of(s, i),
        r.out.len() == n,
        voice_of(engine::processed(m, c, s, n).0, i) == render::voice_run(
            m,
            shared(m, s, n),
            *s.table,
            r,
            n as nat,
        ).voice,
{
    let (s1, q) = engine::controlled(m, s, n as nat);
    let from = Mix {
        voices: s.voices,
        tails: s.tails,
        state: s1.rng,
        out: Seq::new(n as nat, |i: int| F0),
    };
    lemma_mix_voice(m, shared(m, s, n), *s.table, from, 10, i)
}

/// The settings of a block, as modulated.
pub open spec fn modulated(m: Sem, s: RiotCore, n: usize) -> [Bits; 63] {
    engine::controlled(m, s, n as nat).1
}

/// What the voices of a block share.
pub open spec fn shared(m: Sem, s: RiotCore, n: usize) -> Block {
    block::block_of(m, modulated(m, s, n), s.sr, engine::sounding(s), s.n_frames as nat)
}

/// A block ages every voice: note, pitch, velocity and gate stay, the stage
/// moves from attack to decay to sustain only, and a silent voice does not
/// change. A voice ends only by release or kill, below 1e-4, and in those
/// stages sounds on only from there up.
pub proof fn law_block_ages(
    m: Sem,
    c: spec_fn(WideBits, usize, Bits) -> WideBits,
    s: RiotCore,
    n: usize,
    i: int,
)
    requires
        0 <= i < 10,
    ensures
        ({
            let v = voice_of(s, i);
            let w = voice_of(engine::processed(m, c, s, n).0, i);
            &&& v.aged_into(w)
            &&& n > 0 && w.on ==> !w.faded()
        }),
{
    let r = lemma_block_voice(m, c, s, n, i);
    lemma_run_ages(m, shared(m, s, n), *s.table, r, n as nat);
}

/// Every sample of a block lies in -1 ..= 1 or is not a number, whatever went
/// into it.
pub proof fn law_output_clipped(
    m: Sem,
    c: spec_fn(WideBits, usize, Bits) -> WideBits,
    s: RiotCore,
    n: usize,
    k: int,
)
    requires
        m.clips(),
        0 <= k < n,
    ensures
        ({
            let out = engine::processed(m, c, s, n).1;
            &&& out.len() == n
            &&& word::is_nan(out[k]) || word::between(0xbf80_0000, out[k], F1)
        }),
{
    let (s1, q) = engine::controlled(m, s, n as nat);
    let from = Mix {
        voices: s.voices,
        tails: s.tails,
        state: s1.rng,
        out: Seq::new(n as nat, |i: int| F0),
    };
    lemma_mix_voice(m, shared(m, s, n), *s.table, from, 10, 0);
    let mixed = engine::mix_run(m, shared(m, s, n), *s.table, from, 10).out;
    laws::rack::lemma_racked_len(m, q, s.sr, s.fx, mixed);
}

// ---------------------------------------------------------------------------
// Overtones
// ---------------------------------------------------------------------------

/// Overtone `p` is passed over: it lies at or above the load cap or the
/// highest that is heard, is too quiet itself, or its pitch lies above 0.48 of
/// the sample rate.
pub open spec fn passed_over(m: Sem, b: Block, f0: Bits, p: int) -> bool {
    ||| p >= b.p_top
    ||| word::below(b.w[p], F1E_5)
    ||| word::below(m.mul(b.sr, F0_48), render::partial_pitch(m, b, f0, p))
}

proof fn lemma_partial_kept(m: Sem, b: Block, f0: Bits, ph: [Bits; 16], k: nat, p: int)
    requires
        k <= b.p_top <= 16,
        0 <= p < 16,
        passed_over(m, b, f0, p),
    ensures
        render::partials(m, b, f0, ph, k).0[p] == ph[p],
    decreases k,
{
    if k > 0 {
        lemma_partial_kept(m, b, f0, ph, (k - 1) as nat, p);
    }
}

proof fn lemma_phase_kept(
    m: Sem,
    b: Block,
    t: [Bits; 131072],
    from: render::Track,
    k: nat,
    p: int,
)
    requires
        b.p_top <= 16,
        0 <= p < 16,
        passed_over(m, b, from.voice.f0, p),
    ensures
        render::voice_run(m, b, t, from, k).voice.ph_a[p] == from.voice.ph_a[p],
    decreases k,
{
    if k > 0 {
        let i = (k - 1) as nat;
        lemma_phase_kept(m, b, t, from, i, p);
        lemma_run_ages(m, b, t, from, i);
        let s = render::voice_run(m, b, t, from, i);
        if s.voice.on {
            let e = voice::enveloped(m, b.slopes, s.voice);
            let v = render::sub_step(m, b, e, s.state).0;
            assert(v.ph_a == s.voice.ph_a && v.f0 == from.voice.f0);
            lemma_partial_kept(m, b, v.f0, v.ph_a, b.p_top as nat, p);
        }
    }
}

/// A block leaves the phase of an overtone alone that is passed over; so it
/// does with every one at or above the cap that the number of sounding voices
/// sets.
pub proof fn law_overtone_passed_over(
    m: Sem,
    c: spec_fn(WideBits, usize, Bits) -> WideBits,
    s: RiotCore,
    n: usize,
    i: int,
    p: int,
)
    requires
        0 <= i < 10,
        0 <= p < 16,
        p >= block::cap_of(engine::sounding(s)) || passed_over(
            m,
            shared(m, s, n),
            voice_of(s, i).f0,
            p,
        ),
    ensures
        voice_of(engine::processed(m, c, s, n).0, i).ph_a[p] == voice_of(s, i).ph_a[p],
{
    let b = shared(m, s, n);
    let r = lemma_block_voice(m, c, s, n, i);
    assert(b.p_top <= block::cap_of(engine::sounding(s)) <= 16);
    lemma_phase_kept(m, b, *s.table, r, n as nat, p);
}

// ---------------------------------------------------------------------------
// Clicks
// ---------------------------------------------------------------------------

/// A click lasts as many samples as it was given, and no longer: while its
/// level is up and its voice sounds, every sample uses one of them up.
pub proof fn law_click_counts_down(
    m: Sem,
    b: Block,
    t: [Bits; 131072],
    from: render::Track,
    k: nat,
)
    requires
        word::below(F0, b.tr_lv),
        from.voice.tr_samp >= 0,
        render::voice_run(m, b, t, from, k).voice.on,
    ensures
        render::voice_run(m, b, t, from, k).voice.tr_samp == if from.voice.tr_samp > k {
            from.voice.tr_samp - k
        } else {
            0
        },
    decreases k,
{
    if k > 0 {
        law_click_counts_down(m, b, t, from, (k - 1) as nat);
    }
}

/// A click whose level is down keeps its samples.
proof fn lemma_click_waits(m: Sem, b: Block, t: [Bits; 131072], from: render::Track, k: nat)
    requires
        !word::below(F0, b.tr_lv),
    ensures
        render::voice_run(m, b, t, from, k).voice.tr_samp == from.voice.tr_samp,
    decreases k,
{
    if k > 0 {
        lemma_click_waits(m, b, t, from, (k - 1) as nat);
    }
}

/// What a block makes of a click, by its setting: it keeps its samples where
/// the level is set to 0 or below, and uses up one for every sample of the
/// block, as far as it has any, where the level is above 0 and the voice
/// sounds throughout.
pub proof fn law_click_by_setting(
    m: Sem,
    c: spec_fn(WideBits, usize, Bits) -> WideBits,
    s: RiotCore,
    n: usize,
    i: int,
)
    requires
        m.rounds(),
        0 <= i < 10,
        voice_of(s, i).tr_samp >= 0,
        !word::is_nan(modulated(m, s, n)[5]),
    ensures
        ({
            let set = modulated(m, s, n)[5];
            let v = voice_of(s, i);
            let w = voice_of(engine::processed(m, c, s, n).0, i);
            &&& 0 <= w.tr_samp <= v.tr_samp
            &&& !word::below(F0, set) ==> w.tr_samp == v.tr_samp
            &&& word::below(F0, set) && w.on ==> w.tr_samp == if v.tr_samp > n {
                v.tr_samp - n
            } else {
                0
            }
        }),
{
    let set = modulated(m, s, n)[5];
    let b = shared(m, s, n);
    let r = lemma_block_voice(m, c, s, n, i);
    let clamped = word::clamp_of(set, F0, F1);
    law_block_ages(m, c, s, n, i);
    assert(RANGES[5] == (F0, F1, false));
    laws::settings::law_proportion(m, 5, set);
    rounding::lemma_rank_is_value(F0, clamped);
    rounding::lemma_rank_is_value(F0, b.tr_lv);
    rounding::lemma_one();
    if word::below(F0, set) {
        assert(word::below(F0, b.tr_lv));
        if voice_of(engine::processed(m, c, s, n).0, i).on {
            law_click_counts_down(m, b, *s.table, r, n as nat);
        }
    } else {
        lemma_click_waits(m, b, *s.table, r, n as nat);
    }
}

/// Without routes the settings of a block are those that were set.
pub proof fn law_unmodulated(m: Sem, s: RiotCore, n: usize)
    requires
        s.n_routes == 0,
    ensures
        modulated(m, s, n) == s.params,
{
}

// ---------------------------------------------------------------------------
// The kill
// ---------------------------------------------------------------------------

/// Multiplying an envelope by 0.85 is good to one part in 100000.
proof fn lemma_shrinks(m: Sem, x: Bits)
    requires
        m.rounds(),
        word::between(F1E_4, x, F1),
    ensures
        word::between(F0, m.mul(x, F0_85), F1),
        84_999 * word::value(x) <= 100_000 * word::value(m.mul(x, F0_85)) <= 85_001 * word::value(
            x,
        ),
{
    let y = m.mul(x, F0_85);
    let u = word::value(x);
    let one = word::one() as int;
    lemma2_to64();
    rounding::lemma_one();
    rounding::lemma_between(F1E_4, x, F1);
    rounding::lemma_rank_is_value(F0, F1E_4);
    rounding::lemma_part(m, x, F0_85);
    rounding::lemma_between(F0, y, F1);
    let p = pow2(125) as int;
    lemma_pow2_pos(125);
    lemma_pow2_adds(24, 125);
    let c = word::value(F0_85);
    assert(c == 14_260_634 * p && one == 0x100_0000 * p);
    let num = u * c;
    let lo = word::value(0x0080_0000);
    let hi = word::value(0x7f80_0000);
    rounding::lemma_power(0x0080_0000);
    rounding::lemma_power(0x7f80_0000);
    rounding::lemma_power(0x3880_0000);
    rounding::lemma_rank_is_value(0x3880_0000, F1E_4);
    rounding::lemma_rank_is_value(F1, 0x7f80_0000);
    lemma_pow2_strictly_increases(24, 135);
    assert(2 * lo <= u);
    assert(lo * one <= num < hi * one) by (nonlinear_arith)
        requires
            num == u * c,
            0 < 2 * lo <= u,
            u <= one,
            one < hi,
            one <= 2 * c,
            c <= one,
            lo > 0,
    ;
    assert(rounding::nearest(y, num, one)) by {
        reveal(Sem::rounds);
    }
    rounding::lemma_nearest_close(y, num, one);
    let v = word::value(y);
    assert(0x7f_ffff * num <= 0x80_0000 * (v * one) <= 0x80_0001 * num);
    assert(0x80_0000 * (v * 0x100_0000) >= 0x7f_ffff * (u * 14_260_634)) by (nonlinear_arith)
        requires
            0x80_0000 * (v * one) >= 0x7f_ffff * num,
            num == u * c,
            one == 0x100_0000 * p,
            c == 14_260_634 * p,
            p > 0,
    ;
    assert(0x80_0000 * (v * 0x100_0000) <= 0x80_0001 * (u * 14_260_634)) by (nonlinear_arith)
        requires
            0x80_0000 * (v * one) <= 0x80_0001 * num,
            num == u * c,
            one == 0x100_0000 * p,
            c == 14_260_634 * p,
            p > 0,
    ;
}

/// One, in parts of 2^-37.
const KILL_START: u64 = 0x20_0000_0000;

/// `a` after `k` steps that keep `ratio` parts in 100000 and add `more`.
spec fn shrunk(a: int, ratio: int, more: int, k: nat) -> int
    decreases k,
{
    if k == 0 {
        a
    } else {
        shrunk(a * ratio / 100_000 + more, ratio, more, (k - 1) as nat)
    }
}

/// The most that is left of an envelope after `k` samples of the kill, in
/// parts of 2^-37.
spec fn kill_bound(k: nat) -> int {
    shrunk(KILL_START as int, 85_001, 1, k)
}

/// The least that is left of a full envelope.
spec fn kill_rest(k: nat) -> int {
    shrunk(KILL_START as int, 84_999, 0, k)
}

proof fn lemma_shrunk_adds(a: int, ratio: int, more: int, j: nat, k: nat)
    ensures
        shrunk(a, ratio, more, j + k) == shrunk(shrunk(a, ratio, more, j), ratio, more, k),
    decreases j,
{
    if j > 0 {
        lemma_shrunk_adds(a * ratio / 100_000 + more, ratio, more, (j - 1) as nat, k);
    }
}

proof fn lemma_kill_step(k: nat)
    ensures
        kill_bound(k + 1) == kill_bound(k) * 85_001 / 100_000 + 1,
        kill_rest(k + 1) == kill_rest(k) * 84_999 / 100_000,
{
    lemma_shrunk_adds(KILL_START as int, 85_001, 1, k, 1);
    lemma_shrunk_adds(KILL_START as int, 84_999, 0, k, 1);
    reveal_with_fuel(shrunk, 2);
}

/// Four steps, worked out.
proof fn lemma_four(a: int, b: int, c: int, d: int, e: int, ratio: int, more: int)
    requires
        b == a * ratio / 100_000 + more,
        c == b * ratio / 100_000 + more,
        d == c * ratio / 100_000 + more,
        e == d * ratio / 100_000 + more,
    ensures
        shrunk(a, ratio, more, 4) == e,
{
    assert(shrunk(e, ratio, more, 0) == e);
    assert(shrunk(d, ratio, more, 1) == e);
    assert(shrunk(c, ratio, more, 2) == e);
    assert(shrunk(b, ratio, more, 3) == e);
}

proof fn lemma_kill_bound()
    ensures
        kill_bound(57) < 13_743_895,
{
    lemma_four(KILL_START as int, 116824484841, 99301980360, 84407676326, 71747368954, 85001, 1);
    lemma_shrunk_adds(KILL_START as int, 85001, 1, 0, 4);
    lemma_four(71747368954, 60985981085, 51838693783, 44063408103, 37454337522, 85001, 1);
    lemma_shrunk_adds(KILL_START as int, 85001, 1, 4, 4);
    lemma_four(37454337522, 31836561438, 27061395588, 23002456864, 19552318359, 85001, 1);
    lemma_shrunk_adds(KILL_START as int, 85001, 1, 8, 4);
    lemma_four(19552318359, 16619666129, 14126882407, 12007991315, 10206912698, 85001, 1);
    lemma_shrunk_adds(KILL_START as int, 85001, 1, 12, 4);
    lemma_four(10206912698, 8675977863, 7374667944, 6268541500, 5328322961, 85001, 1);
    lemma_shrunk_adds(KILL_START as int, 85001, 1, 16, 4);
    lemma_four(5328322961, 4529127801, 3849803923, 3272371833, 2781548782, 85001, 1);
    lemma_shrunk_adds(KILL_START as int, 85001, 1, 20, 4);
    lemma_four(2781548782, 2364344281, 2009716283, 1708278938, 1452054181, 85001, 1);
    lemma_shrunk_adds(KILL_START as int, 85001, 1, 24, 4);
    lemma_four(1452054181, 1234260575, 1049133832, 891774249, 758017030, 85001, 1);
    lemma_shrunk_adds(KILL_START as int, 85001, 1, 28, 4);
    lemma_four(758017030, 644322056, 547680191, 465533640, 395708250, 85001, 1);
    lemma_shrunk_adds(KILL_START as int, 85001, 1, 32, 4);
    lemma_four(395708250, 336355970, 285905939, 243022908, 206571903, 85001, 1);
    lemma_shrunk_adds(KILL_START as int, 85001, 1, 36, 4);
    lemma_four(206571903, 175588184, 149251713, 126865449, 107836901, 85001, 1);
    lemma_shrunk_adds(KILL_START as int, 85001, 1, 40, 4);
    lemma_four(107836901, 91662445, 77913995, 66227675, 56294187, 85001, 1);
    lemma_shrunk_adds(KILL_START as int, 85001, 1, 44, 4);
    lemma_four(56294187, 47850622, 40673508, 34572889, 29387302, 85001, 1);
    lemma_shrunk_adds(KILL_START as int, 85001, 1, 48, 4);
    lemma_four(29387302, 24979501, 21232826, 18048115, 15341079, 85001, 1);
    lemma_shrunk_adds(KILL_START as int, 85001, 1, 52, 4);
    lemma_kill_step(56);
}

proof fn lemma_kill_rest()
    ensures
        kill_rest(56) > 13_743_895,
{
    lemma_four(KILL_START as int, 116821736061, 99297307434, 84401718345, 71740616576, 84999, 0);
    lemma_shrunk_adds(KILL_START as int, 84999, 0, 0, 4);
    lemma_four(71740616576, 60978806683, 51831375892, 44056151194, 37447287953, 84999, 0);
    lemma_shrunk_adds(KILL_START as int, 84999, 0, 4, 4);
    lemma_four(37447287953, 31829820287, 27055028945, 22996504052, 19546798479, 84999, 0);
    lemma_shrunk_adds(KILL_START as int, 84999, 0, 8, 4);
    lemma_four(19546798479, 16614583239, 14122229607, 12003753943, 10203070814, 84999, 0);
    lemma_shrunk_adds(KILL_START as int, 84999, 0, 12, 4);
    lemma_four(10203070814, 8672508161, 7371545211, 6265739713, 5325816098, 84999, 0);
    lemma_shrunk_adds(KILL_START as int, 84999, 0, 16, 4);
    lemma_four(5325816098, 4526890425, 3847811592, 3270601375, 2779978462, 84999, 0);
    lemma_shrunk_adds(KILL_START as int, 84999, 0, 20, 4);
    lemma_four(2779978462, 2362953892, 2008487178, 1707194016, 1451097841, 84999, 0);
    lemma_shrunk_adds(KILL_START as int, 84999, 0, 24, 4);
    lemma_four(1451097841, 1233418653, 1048393520, 891124008, 757446495, 84999, 0);
    lemma_shrunk_adds(KILL_START as int, 84999, 0, 28, 4);
    lemma_four(757446495, 643821946, 547242215, 465150410, 395373196, 84999, 0);
    lemma_shrunk_adds(KILL_START as int, 84999, 0, 32, 4);
    lemma_four(395373196, 336063262, 285650412, 242799993, 206377566, 84999, 0);
    lemma_shrunk_adds(KILL_START as int, 84999, 0, 36, 4);
    lemma_four(206377566, 175418867, 149104282, 126737148, 107725308, 84999, 0);
    lemma_shrunk_adds(KILL_START as int, 84999, 0, 40, 4);
    lemma_four(107725308, 91565434, 77829703, 66154469, 56230637, 84999, 0);
    lemma_shrunk_adds(KILL_START as int, 84999, 0, 44, 4);
    lemma_four(56230637, 47795479, 40625679, 34531420, 29351361, 84999, 0);
    lemma_shrunk_adds(KILL_START as int, 84999, 0, 48, 4);
    lemma_four(29351361, 24948363, 21205859, 18024768, 15320872, 84999, 0);
    lemma_shrunk_adds(KILL_START as int, 84999, 0, 52, 4);
}

proof fn lemma_kill_run(m: Sem, b: Block, t: [Bits; 131072], from: render::Track, k: nat)
    requires
        m.rounds(),
        from.voice.stage is Kill,
        word::between(F1E_4, from.voice.env, F1),
    ensures
        kill_bound(k) >= 0,
        ({
            let v = render::voice_run(m, b, t, from, k).voice;
            v.on ==> {
                &&& v.stage is Kill
                &&& word::between(F1E_4, v.env, F1)
                &&& word::value(v.env) <= kill_bound(k) * pow2(112)
            }
        }),
    decreases k,
{
    lemma2_to64();
    lemma2_to64_rest();
    lemma_pow2_adds(37, 112);
    rounding::lemma_one();
    rounding::lemma_between(F1E_4, from.voice.env, F1);
    if k > 0 {
        let i = (k - 1) as nat;
        lemma_kill_step(i);
        lemma_kill_run(m, b, t, from, i);
        let s = render::voice_run(m, b, t, from, i);
        let v = s.voice;
        let w = render::voice_run(m, b, t, from, k).voice;
        if v.on && w.on {
            let y = m.mul(v.env, F0_85);
            assert(w.env == y && w.stage is Kill);
            assert(!word::below(y, F1E_4));
            lemma_shrinks(m, v.env);
            let p = pow2(112) as int;
            let u = word::value(v.env) as int;
            let z = word::value(y) as int;
            let c = kill_bound(i);
            let d = c * 85_001 / 100_000 + 1;
            assert(100_000 * d >= 85_001 * c);
            assert(z <= d * p) by (nonlinear_arith)
                requires
                    100_000 * z <= 85_001 * u,
                    u <= c * p,
                    100_000 * d >= 85_001 * c,
                    p >= 0,
            ;
        }
    }
}

/// A voice that is being killed is silent after 57 samples at the latest,
/// however loud it was.
pub proof fn law_kill_is_short(m: Sem, b: Block, t: [Bits; 131072], from: render::Track, k: nat)
    requires
        m.rounds(),
        from.voice.stage is Kill,
        word::between(F0, from.voice.env, F1),
        k >= 57,
    ensures
        !render::voice_run(m, b, t, from, k).voice.on,
{
    if render::voice_run(m, b, t, from, k).voice.on {
        lemma_sounded(m, b, t, from, 0, k);
        lemma_sounded(m, b, t, from, 1, k);
        lemma_sounded(m, b, t, from, 57, k);
        rounding::lemma_one();
        if word::below(from.voice.env, F1E_4) {
            let y = m.mul(from.voice.env, F0_85);
            rounding::lemma_between(F0, from.voice.env, F1);
            rounding::lemma_part(m, from.voice.env, F0_85);
            rounding::lemma_rank_is_value(y, from.voice.env);
            reveal_with_fuel(render::voice_run, 2);
            assert(word::below(y, F1E_4));
            assert(false);
        } else {
            let p = pow2(112) as int;
            lemma2_to64();
            lemma_kill_run(m, b, t, from, 57);
            assert(word::value(F1E_4) == 13_743_895 * pow2(112));
            lemma_kill_bound();
            lemma_pow2_pos(112);
            let v = render::voice_run(m, b, t, from, 57).voice;
            rounding::lemma_between(F1E_4, v.env, F1);
            assert(false) by (nonlinear_arith)
                requires
                    13_743_895 * p <= kill_bound(57) * p,
                    kill_bound(57) < 13_743_895,
                    p > 0,
            ;
        }
    }
}

/// What is left of a kill only shrinks.
proof fn lemma_rest_falls(k: nat)
    requires
        k <= 56,
    ensures
        kill_rest(k) >= kill_rest(56) > 13_743_895,
    decreases 56 - k,
{
    lemma_kill_rest();
    if k < 56 {
        lemma_kill_step(k);
        lemma_rest_falls(k + 1);
        if kill_rest(k) < 0 {
            assert(kill_rest(k) * 84_999 / 100_000 < 0);
        }
    }
}

proof fn lemma_kill_lasts(m: Sem, b: Block, t: [Bits; 131072], from: render::Track, k: nat)
    requires
        m.rounds(),
        from.voice.on,
        from.voice.stage is Kill,
        from.voice.env == F1,
        k <= 56,
    ensures
        ({
            let v = render::voice_run(m, b, t, from, k).voice;
            &&& v.on
            &&& v.stage is Kill
            &&& word::between(F1E_4, v.env, F1)
            &&& word::value(v.env) >= kill_rest(k) * pow2(112)
        }),
    decreases k,
{
    lemma2_to64();
    lemma2_to64_rest();
    lemma_pow2_adds(37, 112);
    rounding::lemma_one();
    if k > 0 {
        let i = (k - 1) as nat;
        lemma_kill_step(i);
        lemma_rest_falls(k);
        lemma_kill_lasts(m, b, t, from, i);
        let s = render::voice_run(m, b, t, from, i);
        let v = s.voice;
        let y = m.mul(v.env, F0_85);
        lemma_shrinks(m, v.env);
        let p = pow2(112) as int;
        lemma_pow2_pos(112);
        let u = word::value(v.env);
        let z = word::value(y);
        let c = kill_rest(i);
        let d = c * 84_999 / 100_000;
        assert(100_000 * d <= 84_999 * c);
        assert(z >= d * p) by (nonlinear_arith)
            requires
                100_000 * z >= 84_999 * u,
                u >= c * p,
                100_000 * d <= 84_999 * c,
                p >= 0,
        ;
        assert(word::value(F1E_4) == 13_743_895 * p);
        assert(z > 13_743_895 * p) by (nonlinear_arith)
            requires
                z >= d * p,
                d > 13_743_895,
                p > 0,
        ;
        rounding::lemma_rank_is_value(F1E_4, y);
        lemma_sample_ages(m, b, t, v, s.state);
        let e = voice::enveloped(m, b.slopes, v);
        assert(e.env == y && e.on);
        let w = render::voice_run(m, b, t, from, k).voice;
        assert(w.env == y && w.stage is Kill);
    }
}

/// A killed voice that was at full level still sounds after 56 samples.
pub proof fn law_kill_lasts_56_samples(
    m: Sem,
    c: spec_fn(WideBits, usize, Bits) -> WideBits,
    s: RiotCore,
    n: usize,
    i: int,
)
    requires
        m.rounds(),
        0 <= i < 10,
        voice_of(s, i).on,
        voice_of(s, i).stage is Kill,
        voice_of(s, i).env == F1,
        n <= 56,
    ensures
        voice_of(engine::processed(m, c, s, n).0, i).on,
{
    let r = lemma_block_voice(m, c, s, n, i);
    lemma_kill_lasts(m, shared(m, s, n), *s.table, r, n as nat);
}

/// A block of 57 samples or more ends every voice that is being killed.
pub proof fn law_block_ends_kill(
    m: Sem,
    c: spec_fn(WideBits, usize, Bits) -> WideBits,
    s: RiotCore,
    n: usize,
    i: int,
)
    requires
        m.rounds(),
        0 <= i < 10,
        voice_of(s, i).stage is Kill,
        word::between(F0, voice_of(s, i).env, F1),
        n >= 57,
    ensures
        !voice_of(engine::processed(m, c, s, n).0, i).on,
{
    let r = lemma_block_voice(m, c, s, n, i);
    law_kill_is_short(m, shared(m, s, n), *s.table, r, n as nat);
}

// ---------------------------------------------------------------------------
// The envelope
// ---------------------------------------------------------------------------

/// Slopes that keep an envelope in bounds.
pub open spec fn sound(k: Slopes) -> bool {
    &&& word::between(F0, k.sustain, F1)
    &&& word::between(F0, k.attack, F1)
    &&& word::between(F0, k.decay, F0_25)
    &&& word::between(F0, k.release, F1)
}

/// What an envelope does in one sample or more: it stays in 0 ..= 1, does not
/// grow while the voice is released or killed, and lies between where it was
/// and the sustain level while the voice is sustained.
pub open spec fn enveloped_from(v: Voice, w: Voice, sustain: Bits) -> bool {
    &&& word::between(F0, w.env, F1)
    &&& v.stage is Release || v.stage is Kill ==> word::at_least(v.env, w.env)
    &&& v.stage is Sustain ==> {
        &&& w.stage is Sustain
        &&& word::between(v.env, w.env, sustain) || word::between(sustain, w.env, v.env)
    }
}

pub proof fn lemma_envelope_step(m: Sem, k: Slopes, v: Voice)
    requires
        m.rounds(),
        sound(k),
        word::between(F0, v.env, F1),
    ensures
        enveloped_from(v, voice::enveloped(m, k, v), k.sustain),
{
    let w = voice::enveloped(m, k, v);
    let e = v.env;
    rounding::lemma_one();
    rounding::lemma_between(F0, e, F1);
    rounding::lemma_between(F0, k.sustain, F1);
    rounding::lemma_rank_is_value(F1, F1_02);
    rounding::lemma_rank_is_value(F1_02, 0x4000_0000);
    lemma_twos();
    match v.stage {
        Stage::Attack => {
            let d = m.sub(F1_02, e);
            rounding::lemma_difference(m, F1_02, e, F0, F1_02);
            rounding::lemma_part(m, d, k.attack);
            let p = m.mul(d, k.attack);
            rounding::lemma_sum(m, e, p, F0, 0x4080_0000);
        },
        Stage::Decay | Stage::Sustain => {
            rounding::lemma_difference(m, k.sustain, e, 0xbf80_0000, F1);
            rounding::lemma_lerp_between(m, e, k.sustain, k.decay);
            let r = m.lerp(e, k.sustain, k.decay);
            rounding::lemma_between(F0, r, F1);
            rounding::lemma_between(e, r, k.sustain);
            rounding::lemma_between(k.sustain, r, e);
        },
        Stage::Release => {
            rounding::lemma_part(m, e, k.release);
            let p = m.mul(e, k.release);
            rounding::lemma_difference(m, e, p, F0, e);
            rounding::lemma_between(F0, w.env, F1);
            rounding::lemma_rank_is_value(w.env, e);
        },
        Stage::Kill => {
            rounding::lemma_part(m, e, F0_85);
            rounding::lemma_between(F0, w.env, F1);
            rounding::lemma_rank_is_value(w.env, e);
        },
        Stage::Idle => {},
    }
}

/// Some powers of two, counted in ones.
proof fn lemma_twos()
    ensures
        word::value(0x4000_0000) == 2 * word::one(),
        word::value(0x4080_0000) == 4 * word::one(),
        word::value(0xbf80_0000) == -word::one(),
        word::value(0x4580_0000) == 4096 * word::one(),
        4 * word::value(0x3e80_0000) == word::one(),
        16 * word::value(0x3d80_0000) == word::one(),
        64 * word::value(0x3c80_0000) == word::one(),
        256 * word::value(0x3b80_0000) == word::one(),
        1024 * word::value(0x3a80_0000) == word::one(),
        4096 * word::value(0x3980_0000) == word::one(),
{
    lemma2_to64();
    rounding::lemma_one();
    rounding::lemma_power(0x4000_0000);
    rounding::lemma_power(0x4080_0000);
    rounding::lemma_power(0x4580_0000);
    rounding::lemma_power(0x3e80_0000);
    rounding::lemma_power(0x3d80_0000);
    rounding::lemma_power(0x3c80_0000);
    rounding::lemma_power(0x3b80_0000);
    rounding::lemma_power(0x3a80_0000);
    rounding::lemma_power(0x3980_0000);
    lemma_pow2_adds(149, 1);
    lemma_pow2_adds(149, 2);
    lemma_pow2_adds(149, 12);
    lemma_pow2_adds(147, 2);
    lemma_pow2_adds(145, 4);
    lemma_pow2_adds(143, 6);
    lemma_pow2_adds(141, 8);
    lemma_pow2_adds(139, 10);
    lemma_pow2_adds(137, 12);
    assert(word::value(0xbf80_0000) == -word::value(F1));
}

/// The slope of a stage that takes a time of at least 1 / `least` seconds.
proof fn lemma_slope(m: Sem, dt: Bits, time: Bits, least: int)
    requires
        m.rounds(),
        m.decays(),
        word::between(F0, dt, 0x3980_0000),
        word::finite(time),
        least == 64 || least == 1024,
        least * word::value(time) >= word::one(),
    ensures
        word::between(F0, block::slope_of(m, dt, time), F1),
        least == 64 ==> word::between(F0, block::slope_of(m, dt, time), F0_25),
{
    let one = word::one() as int;
    rounding::lemma_one();
    lemma_twos();
    rounding::lemma_between(F0, dt, 0x3980_0000);
    assert(word::value(time) >= 0);
    rounding::lemma_part(m, time, F0_35);
    rounding::lemma_rank_is_value(0x3e80_0000, F0_35);
    rounding::lemma_rank_is_value(F0_35, F1);
    let tau = m.mul(time, F0_35);
    let floor: Bits = if least == 64 {
        0x3b80_0000
    } else {
        0x3980_0000
    };
    let t = word::value(time);
    let c = word::value(F0_35);
    let f = word::value(floor);
    assert(4 * least * f == one);
    assert(f * one <= t * c) by (nonlinear_arith)
        requires
            4 * least * f == one,
            least * t >= one,
            4 * c >= one,
            least > 0,
            one > 0,
    ;
    assert(t * c <= t * one) by (nonlinear_arith)
        requires
            t >= 0,
            c <= one,
    ;
    rounding::lemma_product(m, time, F0_35, floor, time);
    let back = word::neg_of(dt);
    assert(word::value(back) == -word::value(dt));
    let lo: Bits = if least == 64 {
        0xbd80_0000
    } else {
        0xbf80_0000
    };
    assert(word::value(0xbd80_0000) == -word::value(0x3d80_0000));
    let d = word::value(dt);
    let u = word::value(tau);
    let l = word::value(lo);
    assert(f > 0);
    assert(l * u <= (-d) * one) by (nonlinear_arith)
        requires
            u >= f,
            4 * least * f == one,
            4096 * d <= one,
            least == 64 && 16 * l == -one || least == 1024 && l == -one,
            one > 0,
    ;
    assert((-d) * one <= 0) by (nonlinear_arith)
        requires
            d >= 0,
            one > 0,
    ;
    rounding::lemma_quotient(m, back, tau, lo, F0);
    let x = m.div(back, tau);
    let e = m.exp(x);
    rounding::lemma_between(0xbe00_0000, x, F0);
    rounding::lemma_rank_is_value(0xbe00_0000, 0xbd80_0000);
    assert(word::between(F0, e, F1) && (least == 64 ==> word::between(0x3f40_0000, e, F1))) by {
        reveal(Sem::decays);
    }
    rounding::lemma_between(F0, e, F1);
    rounding::lemma_difference(m, F1, e, F0, F1);
    if least == 64 {
        rounding::lemma_between(0x3f40_0000, e, F1);
        lemma_three_quarters();
        rounding::lemma_difference(m, F1, e, F0, F0_25);
    }
}

proof fn lemma_three_quarters()
    ensures
        word::value(0x3f40_0000) == 3 * word::value(F0_25),
        4 * word::value(F0_25) == word::one(),
{
    lemma2_to64();
    lemma_twos();
    lemma_pow2_adds(22, 125);
    rounding::lemma_power(F0_25);
    assert(word::value(0x3f40_0000) == 0xc0_0000 * pow2(125));
}

/// From 8000 samples a second on, a sample lasts 2^-12 seconds at most.
pub proof fn lemma_sample_time(m: Sem, sr: Bits)
    requires
        m.rounds(),
        word::finite(sr),
        word::at_least(sr, RATE_LEAST),
    ensures
        word::between(F0, m.div(F1, sr), 0x3980_0000),
{
    let one = word::one() as int;
    rounding::lemma_one();
    lemma_twos();
    rounding::lemma_rank_is_value(0x4580_0000, sr);
    let d = word::value(sr);
    let f = word::value(0x3980_0000);
    assert(one * one <= f * d) by (nonlinear_arith)
        requires
            d >= 4096 * one,
            4096 * f == one,
            one > 0,
    ;
    assert(0 * d <= one * one) by (nonlinear_arith)
        requires
            one > 0,
    ;
    rounding::lemma_quotient(m, F1, sr, F0, 0x3980_0000);
}

/// From 8000 samples a second on, the slopes of every block are sound.
pub proof fn lemma_slopes(m: Sem, q: [Bits; 63], sr: Bits, active: nat, n_frames: nat)
    requires
        m.rounds(),
        m.powers_in_range(),
        m.decays(),
        word::finite(sr),
        word::at_least(sr, RATE_LEAST),
        forall|i: int| 30 <= i <= 33 ==> !word::is_nan(#[trigger] q[i]),
    ensures
        sound(block::block_of(m, q, sr, active, n_frames).slopes),
{
    let b = block::block_of(m, q, sr, active, n_frames);
    rounding::lemma_one();
    lemma_twos();
    lemma_sample_time(m, sr);
    assert(!word::is_nan(q[30]) && !word::is_nan(q[31]) && !word::is_nan(q[32]) && !word::is_nan(
        q[33],
    ));
    assert(RANGES[30] == (F0_001, F2, true));
    assert(RANGES[31] == (F0_02, F4, true));
    assert(RANGES[32] == (F0, F1, false));
    assert(RANGES[33] == (F0_02, F6, true));
    laws::settings::law_ratio(m, 30, q[30]);
    laws::settings::law_ratio(m, 31, q[31]);
    laws::settings::law_proportion(m, 32, q[32]);
    laws::settings::law_ratio(m, 33, q[33]);
    let a = params::mapped(m, 30, q[30]);
    let h = params::mapped(m, 31, q[31]);
    let r = params::mapped(m, 33, q[33]);
    rounding::lemma_rank_is_value(F0_001, a);
    rounding::lemma_rank_is_value(F0_02, h);
    rounding::lemma_rank_is_value(F0_02, r);
    rounding::lemma_rank_is_value(0x3a80_0000, F0_001);
    rounding::lemma_rank_is_value(0x3c80_0000, F0_02);
    lemma_slope(m, b.dt, a, 1024);
    lemma_slope(m, b.dt, h, 64);
    lemma_slope(m, b.dt, r, 64);
}

pub proof fn lemma_envelope_run(m: Sem, b: Block, t: [Bits; 131072], from: render::Track, k: nat)
    requires
        m.rounds(),
        sound(b.slopes),
        word::between(F0, from.voice.env, F1),
    ensures
        enveloped_from(
            from.voice,
            render::voice_run(m, b, t, from, k).voice,
            b.slopes.sustain,
        ),
    decreases k,
{
    if k > 0 {
        let s = render::voice_run(m, b, t, from, (k - 1) as nat);
        lemma_envelope_run(m, b, t, from, (k - 1) as nat);
        lemma_run_ages(m, b, t, from, (k - 1) as nat);
        if s.voice.on {
            lemma_envelope_step(m, b.slopes, s.voice);
            let e = voice::enveloped(m, b.slopes, s.voice);
            let w = render::voice_run(m, b, t, from, k).voice;
            assert(w.env == e.env && w.stage == e.stage);
        }
    }
}

/// From 8000 samples a second on, the envelopes of all voices stay in 0 ..= 1:
/// one that is released or killed does not grow, and one that is sustained
/// lies between where it was and the sustain level of the block.
pub proof fn law_envelopes_bounded(
    m: Sem,
    c: spec_fn(WideBits, usize, Bits) -> WideBits,
    s: RiotCore,
    n: usize,
    i: int,
)
    requires
        m.rounds(),
        m.powers_in_range(),
        m.decays(),
        word::finite(s.sr),
        word::at_least(s.sr, RATE_LEAST),
        forall|j: int| 30 <= j <= 33 ==> !word::is_nan(#[trigger] modulated(m, s, n)[j]),
        0 <= i < 10,
        word::between(F0, voice_of(s, i).env, F1),
    ensures
        ({
            let q = modulated(m, s, n);
            let v = voice_of(s, i);
            let w = voice_of(engine::processed(m, c, s, n).0, i);
            &&& enveloped_from(v, w, params::mapped(m, 32, q[32]))
            &&& n > 0 && w.on && (w.stage is Release || w.stage is Kill) ==> word::at_least(
                w.env,
                F1E_4,
            )
        }),
{
    let q = modulated(m, s, n);
    let b = shared(m, s, n);
    let r = lemma_block_voice(m, c, s, n, i);
    lemma_slopes(m, q, s.sr, engine::sounding(s), s.n_frames as nat);
    lemma_envelope_run(m, b, *s.table, r, n as nat);
    law_block_ages(m, c, s, n, i);
}

} // verus!
