//! The synthesizer core: notes in, blocks of samples out.

use crate::alu::{Alu, Op, Sem};
use crate::block;
use crate::block::{Block, Lfo, Route, NROUTE};
use crate::cells;
use crate::consts::{F0, F1, F12, F1_4, F2, F440, F6, F69};
use crate::fx;
use crate::fx::Fx;
use crate::params;
use crate::params::{map_p, NP};
use crate::pool;
use crate::pool::{NTAIL, NVOICE};
use crate::render;
use crate::rng;
use crate::table;
use crate::table::{FACTORY_FRAMES, FRAME, MAX_FRAMES};
use crate::voice::{Stage, Voice};
use crate::word;
use crate::word::{Bits, WideBits};
use vstd::prelude::*;

verus! {

/// Where the voices' noise starts.
pub const SEED: u32 = 0x9e37_79b9;

/// The synthesizer.
pub struct RiotCore {
    /// Samples per second.
    pub sr: Bits,
    /// Settings of the parameters, 0 ..= 1.
    pub params: [Bits; 63],
    pub routes: [Route; 16],
    pub n_routes: usize,
    pub voices: [Voice; 8],
    /// The fade pool: stolen voices on their short way out.
    pub tails: [Voice; 2],
    pub table: Box<[Bits; 131072]>,
    pub n_frames: usize,
    pub lfo: Lfo,
    pub lfo2: Lfo,
    pub rng: u32,
    /// Seconds rendered so far.
    pub clock: WideBits,
    pub fx: Fx,
}

/// The clock reads what `c` says, each time that it is moved on.
pub open spec fn ticks<G: Fn(WideBits, usize, Bits) -> WideBits>(
    tick: &G,
    c: spec_fn(WideBits, usize, Bits) -> WideBits,
) -> bool {
    forall|t: WideBits, n: usize, dt: Bits, r: WideBits| #[trigger]
        call_ensures(*tick, (t, n, dt), r) ==> r == c(t, n, dt)
}

/// The clock can be moved on from everywhere.
pub open spec fn tickable<G: Fn(WideBits, usize, Bits) -> WideBits>(tick: &G) -> bool {
    forall|t: WideBits, n: usize, dt: Bits| call_requires(*tick, (t, n, dt))
}

// ---------------------------------------------------------------------------
// Notes
// ---------------------------------------------------------------------------

/// Pitch of a note: 440 cycles per second at note 69, twelve notes to the
/// octave.
pub open spec fn pitch_of(m: Sem, note: u8) -> Bits {
    m.mul(F440, m.pow(F2, m.div(m.sub(word::from_nat(note as nat), F69), F12)))
}

/// Samples of noise that a click gets: six times its decay, at least one.
pub open spec fn click_of(m: Sem, setting: Bits, sr: Bits) -> i32 {
    let samples = m.mul(m.mul(params::mapped(m, 6, setting), F6), sr);
    let n = word::saturated(word::trunc_of(samples), i32::MIN as int, i32::MAX as int);
    (if n < 1 {
        1
    } else {
        n
    }) as i32
}

/// A voice at the start of a note.
pub open spec fn struck(
    note: u8,
    vel: Bits,
    f0: Bits,
    age: WideBits,
    ph_t: Bits,
    ph_t2: Bits,
    tr_samp: i32,
) -> Voice {
    Voice {
        on: true,
        gate: true,
        note,
        f0,
        vel,
        age,
        t: F0,
        ph_s: F0,
        ph_a: cells::filled(F0),
        ph_t,
        ph_t2,
        g_fade: F1,
        g_cnt: 0,
        env: F0,
        stage: Stage::Attack,
        pn: F0,
        tr_samp,
    }
}

/// The engine after a note has started.
pub open spec fn started(m: Sem, s: RiotCore, note: u8, vel: Bits) -> RiotCore {
    let r1 = rng::next_of(s.rng);
    let r2 = rng::next_of(r1);
    let v = struck(
        note,
        vel,
        pitch_of(m, note),
        s.clock,
        rng::unit_of(r1),
        rng::unit_of(r2),
        click_of(m, s.params[6], s.sr),
    );
    RiotCore {
        voices: cells::put(s.voices, pool::slot_for_note(s.voices@) as int, v),
        tails: pool::tails_after(s.voices@, s.tails),
        rng: r2,
        ..s
    }
}

/// A voice after its note has ended: it is released where it plays that note
/// and its gate is open.
pub open spec fn released(v: Voice, note: u8) -> Voice {
    if v.on && v.gate && v.note == note {
        Voice { gate: false, stage: Stage::Release, ..v }
    } else {
        v
    }
}

/// A voice cut off.
pub open spec fn hushed(v: Voice) -> Voice {
    Voice { on: false, env: F0, stage: Stage::Idle, ..v }
}

// ---------------------------------------------------------------------------
// Blocks
// ---------------------------------------------------------------------------

/// All voices, the noise state, and the output so far.
pub struct Mix {
    pub voices: [Voice; 8],
    pub tails: [Voice; 2],
    pub state: u32,
    pub out: Seq<Bits>,
}

/// A block of the first `k` voices added up: those that play notes, then the
/// fade pool.
pub open spec fn mix_run(m: Sem, b: Block, t: [Bits; 131072], from: Mix, k: nat) -> Mix
    decreases k,
{
    if k == 0 {
        from
    } else {
        let i = k - 1;
        let s = mix_run(m, b, t, from, i as nat);
        let voice = if i < 8 {
            s.voices[i]
        } else {
            s.tails[i - 8]
        };
        let r = render::voice_run(
            m,
            b,
            t,
            render::Track { voice, state: s.state, out: s.out },
            s.out.len(),
        );
        if i < 8 {
            Mix { voices: cells::put(s.voices, i, r.voice), state: r.state, out: r.out, ..s }
        } else {
            Mix { tails: cells::put(s.tails, i - 8, r.voice), state: r.state, out: r.out, ..s }
        }
    }
}

/// The engine after its sweeps have moved on by a block of `n` samples, and
/// the settings as they modulate them.
pub open spec fn controlled(m: Sem, s: RiotCore, n: nat) -> (RiotCore, [Bits; 63]) {
    let dt = m.div(F1, s.sr);
    let (lfo, state, mod1) = block::sweep_block(m, s.lfo, s.rng, s.params, 34, n, dt);
    let (lfo2, state, mod2) = block::sweep_block(m, s.lfo2, state, s.params, 38, n, dt);
    (
        RiotCore { lfo, lfo2, rng: state, ..s },
        block::routed(m, s.params, s.routes, s.n_routes as nat, mod1, mod2),
    )
}

/// How many voices sound, the fade pool included.
pub open spec fn sounding(s: RiotCore) -> nat {
    pool::count_on(s.voices@, 8) + pool::count_on(s.tails@, 2)
}

/// The last stage: master level and a soft clip.
pub open spec fn mastered(m: Sem, master: Bits, out: Seq<Bits>) -> Seq<Bits> {
    Seq::new(out.len(), |i: int| m.tanh(m.mul(m.mul(out[i], master), F1_4)))
}

/// A block of `n` samples, and the engine after it.
pub open spec fn processed(
    m: Sem,
    c: spec_fn(WideBits, usize, Bits) -> WideBits,
    s: RiotCore,
    n: usize,
) -> (RiotCore, Seq<Bits>) {
    let clock = c(s.clock, n, m.div(F1, s.sr));
    let (s, q) = controlled(m, s, n as nat);
    let b = block::block_of(m, q, s.sr, sounding(s), s.n_frames as nat);
    let silence = Seq::new(n as nat, |i: int| F0);
    let mix = mix_run(
        m,
        b,
        *s.table,
        Mix { voices: s.voices, tails: s.tails, state: s.rng, out: silence },
        10,
    );
    let (rack, out) = fx::racked(m, q, s.sr, s.fx, mix.out);
    (
        RiotCore {
            clock,
            voices: mix.voices,
            tails: mix.tails,
            rng: mix.state,
            fx: rack,
            ..s
        },
        mastered(m, b.master, out),
    )
}

impl RiotCore {
    /// What every operation keeps: the counts are within their tables, every
    /// route points at a parameter and a sweep, every playing voice has its
    /// gate open or is being released, every voice of the fade pool is on
    /// its way out, and every place in a ring is in the ring.
    pub open spec fn wf(self) -> bool {
        &&& self.n_routes <= 16
        &&& self.n_frames <= 64
        &&& forall|i: int| 0 <= i < 16 ==> (#[trigger] self.routes[i]).wf()
        &&& forall|i: int| 0 <= i < 8 ==> (#[trigger] self.voices[i]).playing_ok()
        &&& forall|i: int| 0 <= i < 2 ==> (#[trigger] self.tails[i]).fading_ok()
        &&& self.fx.wf()
    }

    /// An engine that has not been told anything yet, with an empty table.
    pub open spec fn blank(sr: Bits) -> RiotCore {
        RiotCore {
            sr,
            params: cells::filled(F0),
            routes: cells::filled(Route { param: 0, depth: F0, src: 0 }),
            n_routes: 0,
            voices: cells::filled(Voice::silent()),
            tails: cells::filled(Voice::silent()),
            table: Box::new(cells::filled(F0)),
            n_frames: 0,
            lfo: Lfo::at_rest(),
            lfo2: Lfo::at_rest(),
            rng: SEED,
            clock: 0,
            fx: Fx::at_rest(),
        }
    }

    /// An engine for a sample rate, with the factory frames in its table.
    pub fn new<F: Fn(Op, Bits, Bits) -> Bits>(alu: &Alu<F>, sample_rate: Bits) -> (r: RiotCore)
        requires
            alu.ready(),
        ensures
            r.wf(),
            r == (RiotCore {
                n_frames: 6,
                table: r.table,
                ..RiotCore::blank(sample_rate)
            }),
            forall|c: int| 6 * 2048 <= c < 131072 ==> #[trigger] r.table[c] == F0,
            forall|m: Sem| #[trigger]
                alu.computes(m) ==> table::is_factory(m, *r.table, cells::filled(F0)),
    {
        let v = Voice::new();
        let mut core = RiotCore {
            sr: sample_rate,
            params: [F0; 63],
            routes: [Route { param: 0, depth: F0, src: 0 }; 16],
            n_routes: 0,
            voices: [v; 8],
            tails: [v; 2],
            table: Box::new([F0; 131072]),
            n_frames: 0,
            lfo: Lfo::new(),
            lfo2: Lfo::new(),
            rng: SEED,
            clock: 0,
            fx: Fx::new(),
        };
        core.factory_table(alu);
        core
    }

    /// Puts the factory frames into the table.
    pub fn factory_table<F: Fn(Op, Bits, Bits) -> Bits>(&mut self, alu: &Alu<F>)
        requires
            alu.ready(),
        ensures
            *final(self) == (RiotCore { n_frames: 6, table: final(self).table, ..*old(self) }),
            forall|c: int|
                6 * 2048 <= c < 131072 ==> #[trigger] final(self).table[c] == old(self).table[c],
            forall|m: Sem| #[trigger]
                alu.computes(m) ==> table::is_factory(m, *final(self).table, *old(self).table),
    {
        self.n_frames = FACTORY_FRAMES;
        table::fill_factory(alu, &mut self.table);
    }

    /// The parameter settings, for the host to write to.
    pub fn params_ptr(&mut self) -> (r: &mut [Bits; 63])
        ensures
            *r == old(self).params,
            *final(self) == (RiotCore { params: *final(r), ..*old(self) }),
    {
        &mut self.params
    }

    /// The wavetable, for the host to write frames to.
    pub fn table_ptr(&mut self) -> (r: &mut [Bits; 131072])
        ensures
            *r == *old(self).table,
            *final(self) == (RiotCore { table: Box::new(*final(r)), ..*old(self) }),
    {
        &mut self.table
    }

    /// Samples that the wavetable has room for.
    pub fn table_capacity(&self) -> (r: usize)
        ensures
            r == FRAME * MAX_FRAMES,
            r == self.table@.len(),
    {
        FRAME * MAX_FRAMES
    }

    /// Says how many frames of the table are in use, as far as it has room.
    pub fn set_table_frames(&mut self, n: usize)
        ensures
            *final(self) == (RiotCore {
                n_frames: if n < 64 {
                    n
                } else {
                    64
                },
                ..*old(self)
            }),
            old(self).wf() ==> final(self).wf(),
    {
        self.n_frames = if n < MAX_FRAMES {
            n
        } else {
            MAX_FRAMES
        };
    }

    /// Sets a slot of the modulation matrix. A slot that does not exist is
    /// ignored; a parameter or a sweep that does not exist becomes the last.
    pub fn set_route(&mut self, slot: usize, param: usize, depth: Bits, src: u32)
        ensures
            slot >= 16 ==> *final(self) == *old(self),
            slot < 16 ==> *final(self) == (RiotCore {
                routes: cells::put(
                    old(self).routes,
                    slot as int,
                    Route {
                        param: if param < 62 {
                            param
                        } else {
                            62
                        },
                        depth,
                        src: if src < 1 {
                            src
                        } else {
                            1
                        },
                    },
                ),
                ..*old(self)
            }),
            old(self).wf() ==> final(self).wf(),
    {
        if slot < NROUTE {
            let param: usize = if param < NP - 1 {
                param
            } else {
                NP - 1
            };
            let src: u32 = if src < 1 {
                src
            } else {
                1
            };
            self.routes[slot] = Route { param, depth, src };
        }
    }

    /// Says how many slots of the modulation matrix are in use, as far as
    /// there are any.
    pub fn set_route_count(&mut self, n: usize)
        ensures
            *final(self) == (RiotCore {
                n_routes: if n < 16 {
                    n
                } else {
                    16
                },
                ..*old(self)
            }),
            old(self).wf() ==> final(self).wf(),
    {
        self.n_routes = if n < NROUTE {
            n
        } else {
            NROUTE
        };
    }

    /// The next value of the voices' noise, at least 0 and less than 1.
    pub fn rand(&mut self) -> (r: Bits)
        ensures
            *final(self) == (RiotCore { rng: rng::next_of(old(self).rng), ..*old(self) }),
            r == rng::unit_of(rng::next_of(old(self).rng)),
    {
        self.rng = rng::next(self.rng);
        rng::unit(self.rng)
    }

    /// Starts a note.
    pub fn note_on<F: Fn(Op, Bits, Bits) -> Bits>(&mut self, alu: &Alu<F>, note: u8, vel: Bits)
        requires
            alu.ready(),
            old(self).wf(),
        ensures
            final(self).wf(),
            forall|m: Sem| #[trigger]
                alu.computes(m) ==> *final(self) == started(m, *old(self), note, vel),
            ({
                let i = pool::slot_for_note(old(self).voices@) as int;
                let v = final(self).voices[i];
                let r1 = rng::next_of(old(self).rng);
                &&& 0 <= i < 8
                &&& v.tr_samp >= 1
                &&& v == struck(
                    note,
                    vel,
                    v.f0,
                    old(self).clock,
                    rng::unit_of(r1),
                    rng::unit_of(rng::next_of(r1)),
                    v.tr_samp,
                )
                &&& *final(self) == (RiotCore {
                    voices: cells::put(old(self).voices, i, v),
                    tails: pool::tails_after(old(self).voices@, old(self).tails),
                    rng: rng::next_of(r1),
                    ..*old(self)
                })
            }),
    {
        let i: usize = pool::claim(&self.voices, &mut self.tails);
        let r1 = self.rand();
        let r2 = self.rand();
        let decay = map_p(alu, 6, self.params[6]);
        let six = alu.mul(decay, F6);
        let samples = alu.mul(six, self.sr);
        let n: i32 = word::to_i32(samples);
        let budget: i32 = if n < 1 {
            1
        } else {
            n
        };
        let steps = alu.sub(word::of_u64(note as u64), F69);
        let octaves = alu.div(steps, F12);
        let ratio = alu.pow(F2, octaves);
        let f0 = alu.mul(F440, ratio);
        self.voices[i] = Voice {
            on: true,
            gate: true,
            note,
            f0,
            vel,
            age: self.clock,
            t: F0,
            ph_s: F0,
            ph_a: [F0; 16],
            ph_t: r1,
            ph_t2: r2,
            g_fade: F1,
            g_cnt: 0,
            env: F0,
            stage: Stage::Attack,
            pn: F0,
            tr_samp: budget,
        };
        proof {
            pool::lemma_slots(old(self).tails@);
            assert forall|k: int| 0 <= k < 8 implies (#[trigger] self.voices[k]).playing_ok() by {
                assert(old(self).voices[k].playing_ok());
            }
            assert forall|k: int| 0 <= k < 2 implies (#[trigger] self.tails[k]).fading_ok() by {
                assert(old(self).tails[k].fading_ok());
            }
        }
    }

    /// Ends a note: every voice that plays it is released.
    pub fn note_off(&mut self, note: u8)
        ensures
            old(self).wf() ==> final(self).wf(),
            *final(self) == (RiotCore { voices: final(self).voices, ..*old(self) }),
            forall|i: int|
                0 <= i < 8 ==> #[trigger] final(self).voices[i] == released(
                    old(self).voices[i],
                    note,
                ),
    {
        let mut k: usize = 0;
        while k < NVOICE
            invariant
                k <= 8,
                *self == (RiotCore { voices: self.voices, ..*old(self) }),
                forall|i: int|
                    0 <= i < k ==> #[trigger] self.voices[i] == released(old(self).voices[i], note),
                forall|i: int| k <= i < 8 ==> #[trigger] self.voices[i] == old(self).voices[i],
            decreases 8 - k,
        {
            let v = self.voices[k];
            if v.on && v.gate && v.note == note {
                self.voices[k].gate = false;
                self.voices[k].stage = Stage::Release;
            }
            k = k + 1;
        }
        proof {
            if old(self).wf() {
                assert forall|i: int|
                    0 <= i < 8 implies (#[trigger] self.voices[i]).playing_ok() by {
                    assert(old(self).voices[i].playing_ok());
                }
            }
        }
    }

    /// Cuts every voice off.
    pub fn panic(&mut self)
        ensures
            old(self).wf() ==> final(self).wf(),
            *final(self) == (RiotCore {
                voices: final(self).voices,
                tails: final(self).tails,
                ..*old(self)
            }),
            forall|i: int|
                0 <= i < 8 ==> #[trigger] final(self).voices[i] == hushed(old(self).voices[i]),
            forall|i: int|
                0 <= i < 2 ==> #[trigger] final(self).tails[i] == hushed(old(self).tails[i]),
    {
        let mut k: usize = 0;
        while k < NVOICE
            invariant
                k <= 8,
                *self == (RiotCore { voices: self.voices, ..*old(self) }),
                forall|i: int|
                    0 <= i < k ==> #[trigger] self.voices[i] == hushed(old(self).voices[i]),
                forall|i: int| k <= i < 8 ==> #[trigger] self.voices[i] == old(self).voices[i],
            decreases 8 - k,
        {
            self.voices[k].on = false;
            self.voices[k].env = F0;
            self.voices[k].stage = Stage::Idle;
            k = k + 1;
        }
        let ghost voices = self.voices;
        let mut k: usize = 0;
        while k < NTAIL
            invariant
                k <= 2,
                *self == (RiotCore { voices, tails: self.tails, ..*old(self) }),
                forall|i: int|
                    0 <= i < k ==> #[trigger] self.tails[i] == hushed(old(self).tails[i]),
                forall|i: int| k <= i < 2 ==> #[trigger] self.tails[i] == old(self).tails[i],
            decreases 2 - k,
        {
            self.tails[k].on = false;
            self.tails[k].env = F0;
            self.tails[k].stage = Stage::Idle;
            k = k + 1;
        }
        proof {
            if old(self).wf() {
                assert forall|i: int|
                    0 <= i < 8 implies (#[trigger] self.voices[i]).playing_ok() by {
                    assert(old(self).voices[i].playing_ok());
                }
                assert forall|i: int| 0 <= i < 2 implies (#[trigger] self.tails[i]).fading_ok() by {
                    assert(old(self).tails[i].fading_ok());
                }
            }
        }
    }

    /// Moves the sweeps on by a block of `n` samples; gives back the settings
    /// as they modulate them.
    fn control<F: Fn(Op, Bits, Bits) -> Bits>(&mut self, alu: &Alu<F>, n: usize, dt: Bits) -> (q: [Bits;
        63])
        requires
            alu.ready(),
            old(self).wf(),
        ensures
            final(self).wf(),
            *final(self) == (RiotCore {
                lfo: final(self).lfo,
                lfo2: final(self).lfo2,
                rng: final(self).rng,
                ..*old(self)
            }),
            forall|m: Sem| #[trigger]
                alu.computes(m) && dt == m.div(F1, old(self).sr) ==> (*final(self), q)
                    == controlled(m, *old(self), n as nat),
    {
        let (state, mod1) = self.lfo.sweep(alu, self.rng, &self.params, 34, n, dt);
        let (state, mod2) = self.lfo2.sweep(alu, state, &self.params, 38, n, dt);
        self.rng = state;
        block::route(alu, &self.params, &self.routes, self.n_routes, mod1, mod2)
    }

    /// Renders every voice into the output, the fade pool last.
    fn mix<F: Fn(Op, Bits, Bits) -> Bits>(&mut self, alu: &Alu<F>, b: &Block, out: &mut [Bits])
        requires
            alu.ready(),
            b.wf(),
            old(self).wf(),
        ensures
            final(self).wf(),
            *final(self) == (RiotCore {
                voices: final(self).voices,
                tails: final(self).tails,
                rng: final(self).rng,
                ..*old(self)
            }),
            forall|i: int|
                0 <= i < 8 ==> old(self).voices[i].aged_into(#[trigger] final(self).voices[i]),
            forall|i: int|
                0 <= i < 2 ==> old(self).tails[i].aged_into(#[trigger] final(self).tails[i]),
            old(out)@.len() > 0 ==> forall|i: int|
                0 <= i < 8 && (#[trigger] final(self).voices[i]).on
                    ==> !final(self).voices[i].faded(),
            old(out)@.len() > 0 ==> forall|i: int|
                0 <= i < 2 && (#[trigger] final(self).tails[i]).on
                    ==> !final(self).tails[i].faded(),
            final(out)@.len() == old(out)@.len(),
            forall|m: Sem| #[trigger]
                alu.computes(m) ==> (Mix {
                    voices: final(self).voices,
                    tails: final(self).tails,
                    state: final(self).rng,
                    out: final(out)@,
                }) == mix_run(
                    m,
                    *b,
                    *old(self).table,
                    Mix {
                        voices: old(self).voices,
                        tails: old(self).tails,
                        state: old(self).rng,
                        out: old(out)@,
                    },
                    10,
                ),
    {
        let ghost from = Mix { voices: self.voices, tails: self.tails, state: self.rng, out: out@ };
        let mut k: usize = 0;
        while k < NVOICE
            invariant
                alu.ready(),
                b.wf(),
                k <= 8,
                out@.len() == from.out.len(),
                old(self).wf(),
                from.voices == old(self).voices,
                from.tails == old(self).tails,
                *self == (RiotCore { voices: self.voices, rng: self.rng, ..*old(self) }),
                forall|i: int|
                    0 <= i < 8 ==> from.voices[i].aged_into(#[trigger] self.voices[i]),
                forall|i: int| k <= i < 8 ==> #[trigger] self.voices[i] == from.voices[i],
                from.out.len() > 0 ==> forall|i: int|
                    0 <= i < k && (#[trigger] self.voices[i]).on ==> !self.voices[i].faded(),
                forall|m: Sem| #[trigger]
                    alu.computes(m) ==> (Mix {
                        voices: self.voices,
                        tails: self.tails,
                        state: self.rng,
                        out: out@,
                    }) == mix_run(m, *b, *self.table, from, k as nat),
            decreases 8 - k,
        {
            let mut v = self.voices[k];
            let state: u32 = render::render(alu, b, &self.table, &mut v, self.rng, out);
            self.voices[k] = v;
            self.rng = state;
            k = k + 1;
        }
        let ghost voices = self.voices;
        let mut k: usize = 0;
        while k < NTAIL
            invariant
                alu.ready(),
                b.wf(),
                k <= 2,
                out@.len() == from.out.len(),
                from.tails == old(self).tails,
                *self == (RiotCore { voices, tails: self.tails, rng: self.rng, ..*old(self) }),
                forall|i: int| 0 <= i < 2 ==> from.tails[i].aged_into(#[trigger] self.tails[i]),
                forall|i: int| k <= i < 2 ==> #[trigger] self.tails[i] == from.tails[i],
                from.out.len() > 0 ==> forall|i: int|
                    0 <= i < k && (#[trigger] self.tails[i]).on ==> !self.tails[i].faded(),
                forall|m: Sem| #[trigger]
                    alu.computes(m) ==> (Mix {
                        voices: self.voices,
                        tails: self.tails,
                        state: self.rng,
                        out: out@,
                    }) == mix_run(m, *b, *self.table, from, (8 + k) as nat),
            decreases 2 - k,
        {
            let mut v = self.tails[k];
            let state: u32 = render::render(alu, b, &self.table, &mut v, self.rng, out);
            self.tails[k] = v;
            self.rng = state;
            k = k + 1;
        }
        proof {
            assert forall|i: int| 0 <= i < 8 implies (#[trigger] self.voices[i]).playing_ok() by {
                assert(old(self).voices[i].playing_ok());
                assert(from.voices[i].aged_into(self.voices[i]));
            }
            assert forall|i: int| 0 <= i < 2 implies (#[trigger] self.tails[i]).fading_ok() by {
                assert(old(self).tails[i].fading_ok());
                assert(from.tails[i].aged_into(self.tails[i]));
            }
        }
    }

    /// Renders a block: as many samples as `out` holds. `tick` moves the
    /// clock on by a number of samples of a given length.
    pub fn process<F: Fn(Op, Bits, Bits) -> Bits, G: Fn(WideBits, usize, Bits) -> WideBits>(
        &mut self,
        alu: &Alu<F>,
        tick: &G,
        out: &mut [Bits],
    )
        requires
            alu.ready(),
            tickable(tick),
            old(self).wf(),
        ensures
            final(self).wf(),
            final(out)@.len() == old(out)@.len(),
            *final(self) == (RiotCore {
                lfo: final(self).lfo,
                lfo2: final(self).lfo2,
                rng: final(self).rng,
                clock: final(self).clock,
                voices: final(self).voices,
                tails: final(self).tails,
                fx: final(self).fx,
                ..*old(self)
            }),
            forall|i: int|
                0 <= i < 8 ==> old(self).voices[i].aged_into(#[trigger] final(self).voices[i]),
            forall|i: int|
                0 <= i < 2 ==> old(self).tails[i].aged_into(#[trigger] final(self).tails[i]),
            old(out)@.len() > 0 ==> forall|i: int|
                0 <= i < 8 && (#[trigger] final(self).voices[i]).on
                    ==> !final(self).voices[i].faded(),
            old(out)@.len() > 0 ==> forall|i: int|
                0 <= i < 2 && (#[trigger] final(self).tails[i]).on
                    ==> !final(self).tails[i].faded(),
            forall|m: Sem, c: spec_fn(WideBits, usize, Bits) -> WideBits|
                #![trigger alu.computes(m), ticks(tick, c)]
                alu.computes(m) && ticks(tick, c) ==> (*final(self), final(out)@) == processed(
                    m,
                    c,
                    *old(self),
                    old(out)@.len() as usize,
                ),
    {
        let n: usize = out.len();
        let dt = alu.div(F1, self.sr);
        self.clock = tick(self.clock, n, dt);
        let ghost s0 = *self;
        let q = self.control(alu, n, dt);
        let ghost s1 = *self;
        let active: usize = pool::count(&self.voices) + pool::count(&self.tails);
        let b = block::block(alu, &q, self.sr, active, self.n_frames);
        let mut k: usize = 0;
        while k < n
            invariant
                k <= n,
                n == out@.len(),
                forall|i: int| 0 <= i < k ==> out@[i] == F0,
            decreases n - k,
        {
            out[k] = F0;
            k = k + 1;
        }
        proof {
            assert(out@ =~= Seq::new(n as nat, |i: int| F0));
        }
        self.mix(alu, &b, out);
        let ghost mixed = out@;
        self.fx.process_fx(alu, self.sr, &q, out);
        let ghost wet = out@;
        let mut k: usize = 0;
        while k < n
            invariant
                alu.ready(),
                k <= n,
                n == out@.len(),
                n == wet.len(),
                forall|m: Sem, i: int|
                    #![trigger alu.computes(m), out@[i]]
                    alu.computes(m) && 0 <= i < k ==> out@[i] == mastered(m, b.master, wet)[i],
                forall|i: int| k <= i < n ==> out@[i] == wet[i],
            decreases n - k,
        {
            let level = alu.mul(out[k], b.master);
            let level = alu.mul(level, F1_4);
            let y = alu.tanh(level);
            out[k] = y;
            k = k + 1;
        }
        proof {
            assert forall|m: Sem, c: spec_fn(WideBits, usize, Bits) -> WideBits|
                #![trigger alu.computes(m), ticks(tick, c)]
                alu.computes(m) && ticks(tick, c) implies (*self, out@) == processed(
                m,
                c,
                *old(self),
                n,
            ) by {
                assert(out@ =~= mastered(m, b.master, wet));
                assert((s1, q) == controlled(m, s0, n as nat));
                let (s2, q2) = controlled(m, *old(self), n as nat);
                assert(s1 == (RiotCore { clock: s0.clock, ..s2 }));
                assert(q == q2);
                assert(b == block::block_of(m, q, s2.sr, sounding(s2), s2.n_frames as nat));
            }
        }
    }
}

} // verus!
