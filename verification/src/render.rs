//! Rendering a voice: sub oscillator with its click, overtones, texture.

use crate::alu::{Alu, Op, Sem};
use crate::block::Block;
use crate::cells;
use crate::consts::{
    F0, F0_0009, F0_001, F0_012, F0_35, F0_48, F0_5, F1, F1E_5, F2, F6, GRAIN_FADE, TAU,
    TWO_OVER_PI,
};
use crate::rng;
use crate::table;
use crate::table::read_table;
use crate::voice;
use crate::voice::Voice;
use crate::word;
use crate::word::Bits;
use vstd::prelude::*;

verus! {

// ---------------------------------------------------------------------------
// Sub oscillator and click
// ---------------------------------------------------------------------------

/// What is left of 1 after the time `t`, with the time constant `time`.
pub open spec fn decayed(m: Sem, t: Bits, time: Bits) -> Bits {
    m.exp(m.div(word::neg_of(t), time))
}

fn decay<F: Fn(Op, Bits, Bits) -> Bits>(alu: &Alu<F>, t: Bits, time: Bits) -> (r: Bits)
    requires
        alu.ready(),
    ensures
        forall|m: Sem| #[trigger] alu.computes(m) ==> r == decayed(m, t, time),
{
    let part = alu.div(word::neg(t), time);
    alu.exp(part)
}

/// The sub oscillator: its phase after this sample, with the pitch falling
/// towards the note, and its value, between sine and triangle, saturated.
pub open spec fn sub_tone(m: Sem, b: Block, v: Voice) -> (Bits, Bits) {
    let pitch = m.mul(
        v.f0,
        m.add(F1, m.mul(m.mul(b.p_drop, F6), decayed(m, v.t, b.p_dec))),
    );
    let ph = m.turn(v.ph_s, m.mul(pitch, b.dt));
    let sine = m.sin(m.mul(TAU, ph));
    let shaped = m.chase(sine, m.mul(TWO_OVER_PI, m.asin(sine)), b.morph);
    (ph, m.mul(m.tanh(m.mul(shaped, b.g)), b.g_inv))
}

/// Sub oscillator and click: the voice, the noise state and the value after
/// this sample. The click sounds while its level is up and it has samples
/// left, and uses one of them up.
pub open spec fn sub_step(m: Sem, b: Block, v: Voice, state: u32) -> (Voice, u32, Bits) {
    let (ph_s, sub) = sub_tone(m, b, v);
    let v = Voice { ph_s, ..v };
    if word::below(F0, b.tr_lv) && v.tr_samp > 0 {
        let state = rng::next_of(state);
        let noise = m.sub(m.mul(rng::unit_of(state), F2), F1);
        let click = m.mul(
            m.mul(m.mul(m.sub(noise, v.pn), F0_5), b.tr_lv),
            decayed(m, v.t, b.tr_dec),
        );
        (
            Voice { pn: noise, tr_samp: (v.tr_samp - 1) as i32, ..v },
            state,
            m.add(sub, click),
        )
    } else {
        (v, state, sub)
    }
}

fn sub_wave<F: Fn(Op, Bits, Bits) -> Bits>(alu: &Alu<F>, b: &Block, v: &Voice) -> (r: (Bits, Bits))
    requires
        alu.ready(),
    ensures
        forall|m: Sem| #[trigger] alu.computes(m) ==> r == sub_tone(m, *b, *v),
{
    let drop = alu.mul(b.p_drop, F6);
    let left = decay(alu, v.t, b.p_dec);
    let above = alu.mul(drop, left);
    let ratio = alu.add(F1, above);
    let pitch = alu.mul(v.f0, ratio);
    let inc = alu.mul(pitch, b.dt);
    let ph = alu.turn(v.ph_s, inc);
    let angle = alu.mul(TAU, ph);
    let sine = alu.sin(angle);
    let arc = alu.asin(sine);
    let tri = alu.mul(TWO_OVER_PI, arc);
    let shaped = alu.chase(sine, tri, b.morph);
    let driven = alu.mul(shaped, b.g);
    let bent = alu.tanh(driven);
    let sub = alu.mul(bent, b.g_inv);
    (ph, sub)
}

fn sub_sample<F: Fn(Op, Bits, Bits) -> Bits>(alu: &Alu<F>, b: &Block, v: &mut Voice, state: u32) -> (r: (
    u32,
    Bits,
))
    requires
        alu.ready(),
        old(v).on,
    ensures
        old(v).aged_into(*final(v)),
        final(v).on == old(v).on,
        final(v).env == old(v).env,
        final(v).stage == old(v).stage,
        forall|m: Sem| #[trigger]
            alu.computes(m) ==> (*final(v), r.0, r.1) == sub_step(m, *b, *old(v), state),
{
    let (ph, tone) = sub_wave(alu, b, v);
    v.ph_s = ph;
    if word::lt(F0, b.tr_lv) && v.tr_samp > 0 {
        let next: u32 = rng::next(state);
        let twice = alu.mul(rng::unit(next), F2);
        let noise = alu.sub(twice, F1);
        let edge = alu.sub(noise, v.pn);
        let half = alu.mul(edge, F0_5);
        let loud = alu.mul(half, b.tr_lv);
        let left = decay(alu, v.t, b.tr_dec);
        let click = alu.mul(loud, left);
        v.pn = noise;
        v.tr_samp = v.tr_samp - 1;
        let sum = alu.add(tone, click);
        (next, sum)
    } else {
        (state, tone)
    }
}

// ---------------------------------------------------------------------------
// Overtones
// ---------------------------------------------------------------------------

/// Pitch of overtone `i`, stretched by the spread.
pub open spec fn partial_pitch(m: Sem, b: Block, f0: Bits, i: int) -> Bits {
    let n = word::from_nat((i + 1) as nat);
    m.mul(
        m.mul(f0, n),
        m.add(F1, m.mul(m.mul(m.mul(b.spread, F0_0009), n), n)),
    )
}

/// The first `k` overtones: their phases after this sample, and their sum.
/// One that is too quiet to hear, or above 0.48 of the sample rate, is
/// passed over.
pub open spec fn partials(m: Sem, b: Block, f0: Bits, ph: [Bits; 16], k: nat) -> ([Bits; 16], Bits)
    decreases k,
{
    if k == 0 {
        (ph, F0)
    } else {
        let i = k - 1;
        let (ph, sum) = partials(m, b, f0, ph, i as nat);
        let pitch = partial_pitch(m, b, f0, i);
        if word::below(b.w[i], F1E_5) || word::below(m.mul(b.sr, F0_48), pitch) {
            (ph, sum)
        } else {
            let p = m.turn(ph[i], m.mul(pitch, b.dt));
            (cells::put(ph, i, p), m.add(sum, m.mul(b.w[i], m.sin(m.mul(TAU, p)))))
        }
    }
}

fn overtones<F: Fn(Op, Bits, Bits) -> Bits>(
    alu: &Alu<F>,
    b: &Block,
    f0: Bits,
    ph: &mut [Bits; 16],
) -> (r: Bits)
    requires
        alu.ready(),
        b.wf(),
    ensures
        forall|m: Sem| #[trigger]
            alu.computes(m) ==> (*final(ph), r) == partials(m, *b, f0, *old(ph), b.p_top as nat),
{
    let mut sum: Bits = F0;
    let mut k: usize = 0;
    while k < b.p_top
        invariant
            alu.ready(),
            b.wf(),
            k <= b.p_top,
            forall|m: Sem| #[trigger]
                alu.computes(m) ==> (*ph, sum) == partials(m, *b, f0, *old(ph), k as nat),
        decreases b.p_top - k,
    {
        let w = b.w[k];
        if !word::lt(w, F1E_5) {
            let n = word::of_u64((k + 1) as u64);
            let base = alu.mul(f0, n);
            let wide = alu.mul(b.spread, F0_0009);
            let wide = alu.mul(wide, n);
            let wide = alu.mul(wide, n);
            let stretch = alu.add(F1, wide);
            let pitch = alu.mul(base, stretch);
            let limit = alu.mul(b.sr, F0_48);
            if !word::lt(limit, pitch) {
                let inc = alu.mul(pitch, b.dt);
                let p = alu.turn(ph[k], inc);
                ph[k] = p;
                let angle = alu.mul(TAU, p);
                let s = alu.sin(angle);
                let part = alu.mul(w, s);
                sum = alu.add(sum, part);
            }
        }
        k = k + 1;
    }
    sum
}

// ---------------------------------------------------------------------------
// Texture
// ---------------------------------------------------------------------------

/// Grains: the voice and the noise state after this sample. When the count
/// runs out a new grain starts: it lasts between one and two times the
/// shortest length, starts anywhere in the cycle, and fades in.
pub open spec fn grained(m: Sem, b: Block, v: Voice, state: u32) -> (Voice, u32) {
    if b.grain_len > 0 {
        let cnt = v.g_cnt.wrapping_sub(1);
        let (v, state) = if cnt <= 0 {
            let s1 = rng::next_of(state);
            let s2 = rng::next_of(s1);
            let more = m.mul(rng::unit_of(s1), word::from_nat(b.grain_len as nat));
            (
                Voice {
                    g_cnt: b.grain_len.wrapping_add(
                        word::saturated(
                            word::trunc_of(more),
                            i32::MIN as int,
                            i32::MAX as int,
                        ) as i32,
                    ),
                    g_fade: F0,
                    ph_t: rng::unit_of(s2),
                    ..v
                },
                s2,
            )
        } else {
            (Voice { g_cnt: cnt, ..v }, state)
        };
        if word::below(v.g_fade, F1) {
            (Voice { g_fade: word::min_of(m.add(v.g_fade, GRAIN_FADE), F1), ..v }, state)
        } else {
            (v, state)
        }
    } else {
        (v, state)
    }
}

/// The texture: the voice, the noise state and the value after this sample.
/// Two read heads, the second detuned, go through the table; the first one
/// is cut into grains.
pub open spec fn textured(m: Sem, b: Block, t: [Bits; 131072], v: Voice, state: u32) -> (
    Voice,
    u32,
    Bits,
) {
    if word::below(F0_001, b.tex_lv) {
        let (v, state) = grained(m, b, v, state);
        let ph_t = m.turn(v.ph_t, m.mul(v.f0, b.dt));
        let ph_t2 = m.turn(
            v.ph_t2,
            m.mul(m.mul(v.f0, m.add(F1, m.mul(b.det, F0_012))), b.dt),
        );
        let fade = if b.grain_len > 0 {
            v.g_fade
        } else {
            F1
        };
        let h1 = m.mul(table::table_value(m, t, b.fi as int, b.ff, ph_t), fade);
        let h2 = table::table_value(m, t, b.fi as int, b.ff, ph_t2);
        (Voice { ph_t, ph_t2, ..v }, state, m.mul(m.add(h1, h2), F0_5))
    } else {
        (v, state, F0)
    }
}

fn grain<F: Fn(Op, Bits, Bits) -> Bits>(alu: &Alu<F>, b: &Block, v: &mut Voice, state: u32) -> (r:
    u32)
    requires
        alu.ready(),
        old(v).on,
    ensures
        old(v).aged_into(*final(v)),
        final(v).on == old(v).on,
        final(v).env == old(v).env,
        final(v).stage == old(v).stage,
        forall|m: Sem| #[trigger]
            alu.computes(m) ==> (*final(v), r) == grained(m, *b, *old(v), state),
{
    let mut state: u32 = state;
    if b.grain_len > 0 {
        v.g_cnt = v.g_cnt.wrapping_sub(1);
        if v.g_cnt <= 0 {
            state = rng::next(state);
            let more = alu.mul(rng::unit(state), word::of_u64(b.grain_len as u64));
            v.g_cnt = b.grain_len.wrapping_add(word::to_i32(more));
            v.g_fade = F0;
            state = rng::next(state);
            v.ph_t = rng::unit(state);
        }
        if word::lt(v.g_fade, F1) {
            let up = alu.add(v.g_fade, GRAIN_FADE);
            v.g_fade = word::min(up, F1);
        }
    }
    state
}

fn texture<F: Fn(Op, Bits, Bits) -> Bits>(
    alu: &Alu<F>,
    b: &Block,
    t: &[Bits; 131072],
    v: &mut Voice,
    state: u32,
) -> (r: (u32, Bits))
    requires
        alu.ready(),
        b.wf(),
        old(v).on,
    ensures
        old(v).aged_into(*final(v)),
        final(v).on == old(v).on,
        final(v).env == old(v).env,
        final(v).stage == old(v).stage,
        forall|m: Sem| #[trigger]
            alu.computes(m) ==> (*final(v), r.0, r.1) == textured(m, *b, *t, *old(v), state),
{
    if word::lt(F0_001, b.tex_lv) {
        let state: u32 = grain(alu, b, v, state);
        let inc = alu.mul(v.f0, b.dt);
        v.ph_t = alu.turn(v.ph_t, inc);
        let off = alu.mul(b.det, F0_012);
        let ratio = alu.add(F1, off);
        let pitch = alu.mul(v.f0, ratio);
        let inc2 = alu.mul(pitch, b.dt);
        v.ph_t2 = alu.turn(v.ph_t2, inc2);
        let fade = if b.grain_len > 0 {
            v.g_fade
        } else {
            F1
        };
        let read1 = read_table(alu, t, b.fi, b.ff, v.ph_t);
        let h1 = alu.mul(read1, fade);
        let h2 = read_table(alu, t, b.fi, b.ff, v.ph_t2);
        let sum = alu.add(h1, h2);
        let tex = alu.mul(sum, F0_5);
        (state, tex)
    } else {
        (state, F0)
    }
}

// ---------------------------------------------------------------------------
// The voice
// ---------------------------------------------------------------------------

/// One sample of a sounding voice: the voice and the noise state after it,
/// and what it adds to the output. A voice whose envelope ends adds nothing.
pub open spec fn voiced(m: Sem, b: Block, t: [Bits; 131072], v: Voice, state: u32) -> (
    Voice,
    u32,
    Option<Bits>,
) {
    let v = voice::enveloped(m, b.slopes, v);
    if v.on {
        let (v, state, sub) = sub_step(m, b, v, state);
        let (ph_a, sum) = partials(m, b, v.f0, v.ph_a, b.p_top as nat);
        let v = Voice { ph_a, ..v };
        let over = m.mul(sum, b.w_norm);
        let (v, state, tex) = textured(m, b, t, v, state);
        let mixed = m.add(
            m.add(m.mul(sub, b.sub_lv), m.mul(over, b.add_lv)),
            m.mul(tex, b.tex_lv),
        );
        let level = m.mul(m.mul(m.mul(mixed, v.env), v.vel), F0_35);
        (Voice { t: m.add(v.t, b.dt), ..v }, state, Some(level))
    } else {
        (v, state, None)
    }
}

/// A voice, the noise state, and the output so far.
pub struct Track {
    pub voice: Voice,
    pub state: u32,
    pub out: Seq<Bits>,
}

/// The first `k` samples of a voice added to the output. From where the voice
/// ends on, nothing changes.
pub open spec fn voice_run(m: Sem, b: Block, t: [Bits; 131072], from: Track, k: nat) -> Track
    decreases k,
{
    if k == 0 {
        from
    } else {
        let i = k - 1;
        let s = voice_run(m, b, t, from, i as nat);
        if s.voice.on {
            let (voice, state, level) = voiced(m, b, t, s.voice, s.state);
            let out = match level {
                Some(x) => s.out.update(i, m.add(s.out[i], x)),
                None => s.out,
            };
            Track { voice, state, out }
        } else {
            s
        }
    }
}

fn voice_sample<F: Fn(Op, Bits, Bits) -> Bits>(
    alu: &Alu<F>,
    b: &Block,
    t: &[Bits; 131072],
    v: &mut Voice,
    state: u32,
) -> (r: (u32, Option<Bits>))
    requires
        alu.ready(),
        b.wf(),
        old(v).on,
    ensures
        old(v).aged_into(*final(v)),
        final(v).on <==> r.1 is Some,
        final(v).on <==> !final(v).faded(),
        forall|m: Sem| #[trigger]
            alu.computes(m) ==> (*final(v), r.0, r.1) == voiced(m, *b, *t, *old(v), state),
{
    *v = voice::envelope(alu, &b.slopes, *v);
    if !v.on {
        return (state, None);
    }
    let (state, tone) = sub_sample(alu, b, v, state);
    let sum = overtones(alu, b, v.f0, &mut v.ph_a);
    let over = alu.mul(sum, b.w_norm);
    let (state, tex) = texture(alu, b, t, v, state);
    let x = alu.mul(tone, b.sub_lv);
    let y = alu.mul(over, b.add_lv);
    let xy = alu.add(x, y);
    let z = alu.mul(tex, b.tex_lv);
    let mixed = alu.add(xy, z);
    let level = alu.mul(mixed, v.env);
    let level = alu.mul(level, v.vel);
    let level = alu.mul(level, F0_35);
    v.t = alu.add(v.t, b.dt);
    (state, Some(level))
}

/// Adds a block of a voice to the output; gives back the noise state.
pub fn render<F: Fn(Op, Bits, Bits) -> Bits>(
    alu: &Alu<F>,
    b: &Block,
    t: &[Bits; 131072],
    v: &mut Voice,
    state: u32,
    out: &mut [Bits],
) -> (r: u32)
    requires
        alu.ready(),
        b.wf(),
    ensures
        old(v).aged_into(*final(v)),
        old(out)@.len() > 0 && final(v).on ==> !final(v).faded(),
        final(out)@.len() == old(out)@.len(),
        !old(v).on ==> r == state && final(out)@ == old(out)@,
        forall|m: Sem| #[trigger]
            alu.computes(m) ==> (Track { voice: *final(v), state: r, out: final(out)@ })
                == voice_run(
                m,
                *b,
                *t,
                Track { voice: *old(v), state, out: old(out)@ },
                old(out)@.len(),
            ),
{
    let n: usize = out.len();
    let mut s: u32 = state;
    let mut k: usize = 0;
    let ghost from = Track { voice: *v, state, out: out@ };
    while k < n
        invariant
            alu.ready(),
            b.wf(),
            k <= n,
            n == out@.len(),
            n == from.out.len(),
            from.voice.aged_into(*v),
            k > 0 && v.on ==> !v.faded(),
            !from.voice.on ==> s == from.state && out@ == from.out,
            forall|m: Sem| #[trigger]
                alu.computes(m) ==> (Track { voice: *v, state: s, out: out@ }) == voice_run(
                    m,
                    *b,
                    *t,
                    from,
                    k as nat,
                ),
        decreases n - k,
    {
        if v.on {
            let (next, level) = voice_sample(alu, b, t, v, s);
            s = next;
            if let Some(x) = level {
                let sum = alu.add(out[k], x);
                out[k] = sum;
            }
        }
        k = k + 1;
    }
    s
}

} // verus!
