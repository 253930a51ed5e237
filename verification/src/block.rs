//! What is settled once per block, before any voice is rendered: the two
//! sweeps, the modulation matrix, and the numbers that every sample shares.

use crate::alu::{Alu, Op, Sem};
use crate::cells;
use crate::consts::{
    F0, F0_23, F0_25, F0_35, F0_5, F1, F1E_5, F1E_9, F2, F256, F4, F9, TAU,
};
use crate::params;
use crate::params::{map_p, NP};
use crate::rng;
use crate::voice::{Slopes, NPART};
use crate::word;
use crate::word::Bits;
use vstd::prelude::*;

verus! {

// ---------------------------------------------------------------------------
// Sweeps
// ---------------------------------------------------------------------------

/// A sweep: its phase, the random value that it holds, and the phase of the
/// hold.
#[derive(Clone, Copy, Debug)]
pub struct Lfo {
    pub ph: Bits,
    pub sh: Bits,
    pub sh_ph: Bits,
}

/// The sweep moved on by `inc` turns, and the noise state after it. A new
/// value is drawn where the hold comes round.
pub open spec fn swept(m: Sem, l: Lfo, state: u32, inc: Bits) -> (Lfo, u32) {
    let ph = m.turn(l.ph, inc);
    let sh_ph = m.add(l.sh_ph, inc);
    if word::at_least(sh_ph, F1) {
        let state = rng::next_of(state);
        let sh = m.sub(m.mul(rng::unit_of(state), F2), F1);
        (Lfo { ph, sh, sh_ph: m.sub(sh_ph, F1) }, state)
    } else {
        (Lfo { ph, sh_ph, ..l }, state)
    }
}

/// The value of a sweep: sine, triangle, ramp, or the held value.
pub open spec fn sweep_value(m: Sem, l: Lfo, shape: u32) -> Bits {
    if shape == 0 {
        m.sin(m.mul(TAU, l.ph))
    } else if shape == 1 {
        m.sub(F1, m.mul(F4, word::abs_of(m.sub(l.ph, F0_5))))
    } else if shape == 2 {
        m.sub(m.mul(F2, l.ph), F1)
    } else {
        l.sh
    }
}

/// A parameter read as the number of a choice.
pub open spec fn choice_of(m: Sem, q: [Bits; 63], i: int) -> u32 {
    word::saturated(
        word::trunc_of(word::round_of(params::mapped(m, i, q[i]))),
        0,
        u32::MAX as int,
    ) as u32
}

/// One sweep over a block of `n` samples: the sweep and the noise state after
/// it, and how far it modulates. `at` is where its three parameters (rate,
/// depth, shape) start.
pub open spec fn sweep_block(
    m: Sem,
    l: Lfo,
    state: u32,
    q: [Bits; 63],
    at: int,
    n: nat,
    dt: Bits,
) -> (Lfo, u32, Bits) {
    let inc = m.mul(m.mul(params::mapped(m, at, q[at]), word::from_nat(n)), dt);
    let (l, state) = swept(m, l, state, inc);
    let depth = params::mapped(m, at + 1, q[at + 1]);
    (l, state, m.mul(sweep_value(m, l, choice_of(m, q, at + 2)), depth))
}

impl Lfo {
    pub open spec fn at_rest() -> Lfo {
        Lfo { ph: F0, sh: F0, sh_ph: F1 }
    }

    pub fn new() -> (r: Lfo)
        ensures
            r == Lfo::at_rest(),
    {
        Lfo { ph: F0, sh: F0, sh_ph: F1 }
    }

    fn advance<F: Fn(Op, Bits, Bits) -> Bits>(&mut self, alu: &Alu<F>, state: u32, inc: Bits) -> (r:
        u32)
        requires
            alu.ready(),
        ensures
            forall|m: Sem| #[trigger]
                alu.computes(m) ==> (*final(self), r) == swept(m, *old(self), state, inc),
    {
        self.ph = alu.turn(self.ph, inc);
        self.sh_ph = alu.add(self.sh_ph, inc);
        if word::ge(self.sh_ph, F1) {
            self.sh_ph = alu.sub(self.sh_ph, F1);
            let next: u32 = rng::next(state);
            let twice = alu.mul(rng::unit(next), F2);
            self.sh = alu.sub(twice, F1);
            next
        } else {
            state
        }
    }

    fn value<F: Fn(Op, Bits, Bits) -> Bits>(&self, alu: &Alu<F>, shape: u32) -> (r: Bits)
        requires
            alu.ready(),
        ensures
            forall|m: Sem| #[trigger] alu.computes(m) ==> r == sweep_value(m, *self, shape),
    {
        match shape {
            0 => {
                let angle = alu.mul(TAU, self.ph);
                alu.sin(angle)
            },
            1 => {
                let off = alu.sub(self.ph, F0_5);
                let four = alu.mul(F4, word::abs(off));
                alu.sub(F1, four)
            },
            2 => {
                let twice = alu.mul(F2, self.ph);
                alu.sub(twice, F1)
            },
            _ => self.sh,
        }
    }

    /// Moves the sweep on by a block; gives back the noise state and how far
    /// the sweep modulates.
    pub fn sweep<F: Fn(Op, Bits, Bits) -> Bits>(
        &mut self,
        alu: &Alu<F>,
        state: u32,
        q: &[Bits; 63],
        at: usize,
        n: usize,
        dt: Bits,
    ) -> (r: (u32, Bits))
        requires
            alu.ready(),
            at + 2 < NP,
        ensures
            forall|m: Sem| #[trigger]
                alu.computes(m) ==> (*final(self), r.0, r.1) == sweep_block(
                    m,
                    *old(self),
                    state,
                    *q,
                    at as int,
                    n as nat,
                    dt,
                ),
    {
        let rate = map_p(alu, at, q[at]);
        let depth = map_p(alu, at + 1, q[at + 1]);
        let number = map_p(alu, at + 2, q[at + 2]);
        let shape: u32 = word::to_u32(word::round(number));
        let turns = alu.mul(rate, word::of_u64(n as u64));
        let inc = alu.mul(turns, dt);
        let next: u32 = self.advance(alu, state, inc);
        let v = self.value(alu, shape);
        let reach = alu.mul(v, depth);
        (next, reach)
    }
}

// ---------------------------------------------------------------------------
// Modulation matrix
// ---------------------------------------------------------------------------

/// Slots of the modulation matrix.
pub const NROUTE: usize = 16;

/// One slot: which parameter, how deep, and which sweep (1 is the second).
#[derive(Clone, Copy, Debug)]
pub struct Route {
    pub param: usize,
    pub depth: Bits,
    pub src: u32,
}

impl Route {
    pub open spec fn wf(self) -> bool {
        self.param < 63 && self.src <= 1
    }
}

/// The settings with the first `k` routes added, one after the other.
pub open spec fn routed(
    m: Sem,
    q: [Bits; 63],
    routes: [Route; 16],
    k: nat,
    mod1: Bits,
    mod2: Bits,
) -> [Bits; 63]
    decreases k,
{
    if k == 0 {
        q
    } else {
        let q = routed(m, q, routes, (k - 1) as nat, mod1, mod2);
        let r = routes[k - 1];
        let reach = if r.src == 1 {
            mod2
        } else {
            mod1
        };
        cells::put(q, r.param as int, m.add(q[r.param as int], m.mul(reach, r.depth)))
    }
}

pub fn route<F: Fn(Op, Bits, Bits) -> Bits>(
    alu: &Alu<F>,
    settings: &[Bits; 63],
    routes: &[Route; 16],
    n: usize,
    mod1: Bits,
    mod2: Bits,
) -> (q: [Bits; 63])
    requires
        alu.ready(),
        n <= NROUTE,
        forall|i: int| 0 <= i < 16 ==> (#[trigger] routes[i]).wf(),
    ensures
        forall|m: Sem| #[trigger]
            alu.computes(m) ==> q == routed(m, *settings, *routes, n as nat, mod1, mod2),
{
    let mut q: [Bits; 63] = *settings;
    let mut k: usize = 0;
    while k < n
        invariant
            alu.ready(),
            k <= n <= NROUTE,
            forall|i: int| 0 <= i < 16 ==> (#[trigger] routes[i]).wf(),
            forall|m: Sem| #[trigger]
                alu.computes(m) ==> q == routed(m, *settings, *routes, k as nat, mod1, mod2),
        decreases n - k,
    {
        let r = routes[k];
        assert(routes[k as int].wf());
        let reach = if r.src == 1 {
            mod2
        } else {
            mod1
        };
        let part = alu.mul(reach, r.depth);
        let sum = alu.add(q[r.param], part);
        q[r.param] = sum;
        k = k + 1;
    }
    q
}

// ---------------------------------------------------------------------------
// Numbers that every sample shares
// ---------------------------------------------------------------------------

/// The overtones' levels, the sum of their squares, and how many of them,
/// counted from the lowest, reach up to the highest that is heard.
#[derive(Clone, Copy, Debug)]
pub struct Weights {
    pub w: [Bits; 16],
    pub sum: Bits,
    pub top: usize,
}

/// Level of overtone `i`: its setting times its number to the power of the
/// tilt.
pub open spec fn level_of(m: Sem, q: [Bits; 63], tilt: Bits, i: int) -> Bits {
    m.mul(params::mapped(m, 10 + i, q[10 + i]), m.pow(word::from_nat((i + 1) as nat), tilt))
}

pub open spec fn weighed(m: Sem, q: [Bits; 63], tilt: Bits, k: nat) -> Weights
    decreases k,
{
    if k == 0 {
        Weights { w: cells::filled(F0), sum: F1E_9, top: 0 }
    } else {
        let i = k - 1;
        let s = weighed(m, q, tilt, i as nat);
        let w = level_of(m, q, tilt, i);
        Weights {
            w: cells::put(s.w, i, w),
            sum: m.add(s.sum, m.mul(w, w)),
            top: if word::at_least(w, F1E_5) {
                k as usize
            } else {
                s.top
            },
        }
    }
}

pub fn weigh<F: Fn(Op, Bits, Bits) -> Bits>(alu: &Alu<F>, q: &[Bits; 63], tilt: Bits) -> (r: Weights)
    requires
        alu.ready(),
    ensures
        r.top <= 16,
        forall|m: Sem| #[trigger] alu.computes(m) ==> r == weighed(m, *q, tilt, 16),
{
    let mut r = Weights { w: [F0; 16], sum: F1E_9, top: 0 };
    let mut k: usize = 0;
    while k < NPART
        invariant
            alu.ready(),
            k <= 16,
            r.top <= k,
            forall|m: Sem| #[trigger] alu.computes(m) ==> r == weighed(m, *q, tilt, k as nat),
        decreases 16 - k,
    {
        let set = map_p(alu, 10 + k, q[10 + k]);
        let slope = alu.pow(word::of_u64((k + 1) as u64), tilt);
        let w = alu.mul(set, slope);
        r.w[k] = w;
        let square = alu.mul(w, w);
        r.sum = alu.add(r.sum, square);
        if word::ge(w, F1E_5) {
            r.top = k + 1;
        }
        k = k + 1;
    }
    r
}

/// The most overtones that each of `active` voices may sum: the more voices,
/// the fewer.
pub open spec fn cap_of(active: nat) -> nat {
    if active <= 3 {
        16
    } else if active <= 5 {
        12
    } else if active <= 6 {
        9
    } else {
        7
    }
}

pub fn partial_cap(active: usize) -> (r: usize)
    ensures
        r == cap_of(active as nat),
{
    if active <= 3 {
        16
    } else if active <= 5 {
        12
    } else if active <= 6 {
        9
    } else {
        7
    }
}

/// A stage that covers its way with the time constant `time`: the part of
/// the way that it goes in one sample.
pub open spec fn slope_of(m: Sem, dt: Bits, time: Bits) -> Bits {
    m.sub(F1, m.exp(m.div(word::neg_of(dt), m.mul(time, F0_35))))
}

fn slope<F: Fn(Op, Bits, Bits) -> Bits>(alu: &Alu<F>, dt: Bits, time: Bits) -> (r: Bits)
    requires
        alu.ready(),
    ensures
        forall|m: Sem| #[trigger] alu.computes(m) ==> r == slope_of(m, dt, time),
{
    let tau = alu.mul(time, F0_35);
    let part = alu.div(word::neg(dt), tau);
    let left = alu.exp(part);
    alu.sub(F1, left)
}

/// What is fixed for a block of rendering.
#[derive(Clone, Copy, Debug)]
pub struct Block {
    pub sr: Bits,
    pub dt: Bits,
    pub sub_lv: Bits,
    pub morph: Bits,
    pub p_drop: Bits,
    pub p_dec: Bits,
    pub tr_lv: Bits,
    pub tr_dec: Bits,
    pub add_lv: Bits,
    pub spread: Bits,
    pub tex_lv: Bits,
    pub det: Bits,
    pub slopes: Slopes,
    /// Drive of the sub oscillator, and what undoes its gain.
    pub g: Bits,
    pub g_inv: Bits,
    /// Levels of the overtones, their common scale, and how many are summed.
    pub w: [Bits; 16],
    pub w_norm: Bits,
    pub p_top: usize,
    /// The texture's frame, and how far it is on its way to the next.
    pub fi: usize,
    pub ff: Bits,
    /// Shortest grain in samples; 0 where the texture is not cut into grains.
    pub grain_len: i32,
    pub master: Bits,
}

impl Block {
    pub open spec fn wf(self) -> bool {
        self.p_top <= 16 && self.fi <= 62
    }
}

/// Shortest grain in samples for a grain setting.
pub open spec fn grain_of(m: Sem, grain: Bits, sr: Bits) -> i32 {
    if word::below(F0, grain) {
        let samples = word::max_of(m.mul(m.sub(F0_25, m.mul(grain, F0_23)), sr), F256);
        word::saturated(word::trunc_of(samples), i32::MIN as int, i32::MAX as int) as i32
    } else {
        0
    }
}

fn grain_samples<F: Fn(Op, Bits, Bits) -> Bits>(alu: &Alu<F>, grain: Bits, sr: Bits) -> (r: i32)
    requires
        alu.ready(),
    ensures
        forall|m: Sem| #[trigger] alu.computes(m) ==> r == grain_of(m, grain, sr),
{
    if word::lt(F0, grain) {
        let less = alu.mul(grain, F0_23);
        let seconds = alu.sub(F0_25, less);
        let samples = alu.mul(seconds, sr);
        word::to_i32(word::max(samples, F256))
    } else {
        0
    }
}

/// How many frames the texture moves through: at least two.
pub open spec fn frames_of(n_frames: nat) -> nat {
    if n_frames < 2 {
        2
    } else {
        n_frames
    }
}

/// The frame that position `fm` between the first and the last falls on; the
/// last one is only ever approached.
pub open spec fn frame_of(fm: Bits, frames: nat) -> int {
    let whole = word::saturated(word::trunc_of(fm), 0, usize::MAX as int);
    if whole < frames - 2 {
        whole
    } else {
        frames - 2
    }
}

pub open spec fn block_of(m: Sem, q: [Bits; 63], sr: Bits, active: nat, n_frames: nat) -> Block {
    let dt = m.div(F1, sr);
    let weights = weighed(m, q, m.mul(m.sub(params::mapped(m, 8, q[8]), F0_5), F4), 16);
    let g = m.add(F1, m.mul(params::mapped(m, 2, q[2]), F9));
    let frames = frames_of(n_frames);
    let fm = m.mul(params::mapped(m, 27, q[27]), word::from_nat((frames - 1) as nat));
    let fi = frame_of(fm, frames);
    Block {
        sr,
        dt,
        sub_lv: params::mapped(m, 0, q[0]),
        morph: params::mapped(m, 1, q[1]),
        p_drop: params::mapped(m, 3, q[3]),
        p_dec: params::mapped(m, 4, q[4]),
        tr_lv: params::mapped(m, 5, q[5]),
        tr_dec: params::mapped(m, 6, q[6]),
        add_lv: params::mapped(m, 7, q[7]),
        spread: params::mapped(m, 9, q[9]),
        tex_lv: params::mapped(m, 26, q[26]),
        det: params::mapped(m, 29, q[29]),
        slopes: Slopes {
            sustain: params::mapped(m, 32, q[32]),
            attack: slope_of(m, dt, params::mapped(m, 30, q[30])),
            decay: slope_of(m, dt, params::mapped(m, 31, q[31])),
            release: slope_of(m, dt, params::mapped(m, 33, q[33])),
        },
        g,
        g_inv: m.div(F1, m.tanh(g)),
        w: weights.w,
        w_norm: m.div(F1, m.sqrt(weights.sum)),
        p_top: if weights.top < cap_of(active) {
            weights.top
        } else {
            cap_of(active) as usize
        },
        fi: fi as usize,
        ff: m.sub(fm, word::from_nat(fi as nat)),
        grain_len: grain_of(m, params::mapped(m, 28, q[28]), sr),
        master: params::mapped(m, 37, q[37]),
    }
}

pub fn block<F: Fn(Op, Bits, Bits) -> Bits>(
    alu: &Alu<F>,
    q: &[Bits; 63],
    sr: Bits,
    active: usize,
    n_frames: usize,
) -> (r: Block)
    requires
        alu.ready(),
        n_frames <= 64,
    ensures
        r.wf(),
        forall|m: Sem| #[trigger]
            alu.computes(m) ==> r == block_of(m, *q, sr, active as nat, n_frames as nat),
{
    let dt = alu.div(F1, sr);
    let sub_lv = map_p(alu, 0, q[0]);
    let morph = map_p(alu, 1, q[1]);
    let drive = map_p(alu, 2, q[2]);
    let p_drop = map_p(alu, 3, q[3]);
    let p_dec = map_p(alu, 4, q[4]);
    let tr_lv = map_p(alu, 5, q[5]);
    let tr_dec = map_p(alu, 6, q[6]);
    let add_lv = map_p(alu, 7, q[7]);
    let tilt = map_p(alu, 8, q[8]);
    let spread = map_p(alu, 9, q[9]);
    let tex_lv = map_p(alu, 26, q[26]);
    let text_m = map_p(alu, 27, q[27]);
    let grain = map_p(alu, 28, q[28]);
    let det = map_p(alu, 29, q[29]);
    let a_a = map_p(alu, 30, q[30]);
    let a_d = map_p(alu, 31, q[31]);
    let sustain = map_p(alu, 32, q[32]);
    let a_r = map_p(alu, 33, q[33]);
    let master = map_p(alu, 37, q[37]);

    let off = alu.sub(tilt, F0_5);
    let t_exp = alu.mul(off, F4);
    let weights = weigh(alu, q, t_exp);
    let root = alu.sqrt(weights.sum);
    let w_norm = alu.div(F1, root);
    let cap: usize = partial_cap(active);
    let p_top: usize = if weights.top < cap {
        weights.top
    } else {
        cap
    };

    let slopes = Slopes {
        sustain,
        attack: slope(alu, dt, a_a),
        decay: slope(alu, dt, a_d),
        release: slope(alu, dt, a_r),
    };
    let push = alu.mul(drive, F9);
    let g = alu.add(F1, push);
    let bent = alu.tanh(g);
    let g_inv = alu.div(F1, bent);

    let frames: usize = if n_frames < 2 {
        2
    } else {
        n_frames
    };
    let fm = alu.mul(text_m, word::of_u64((frames - 1) as u64));
    let whole: usize = word::to_usize(fm);
    let fi: usize = if whole < frames - 2 {
        whole
    } else {
        frames - 2
    };
    let ff = alu.sub(fm, word::of_u64(fi as u64));
    let grain_len: i32 = grain_samples(alu, grain, sr);
    Block {
        sr,
        dt,
        sub_lv,
        morph,
        p_drop,
        p_dec,
        tr_lv,
        tr_dec,
        add_lv,
        spread,
        tex_lv,
        det,
        slopes,
        g,
        g_inv,
        w: weights.w,
        w_norm,
        p_top,
        fi,
        ff,
        grain_len,
        master,
    }
}

} // verus!
