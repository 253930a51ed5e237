//! Notes, voices, settings and blocks.

use overtone_riot::alu::{Alu, Op};
use overtone_riot::block;
use overtone_riot::block::{Lfo, Route};
use overtone_riot::params::map_p;
use overtone_riot::pool;
use overtone_riot::render;
use overtone_riot::rng;
use overtone_riot::table::read_table;
use overtone_riot::voice;
use overtone_riot::voice::{Slopes, Stage, Voice};
use overtone_riot::RiotCore;

const TAU: f32 = 6.283_185_3;

fn native(op: Op, x: u32, y: u32) -> u32 {
    let a = f32::from_bits(x);
    let b = f32::from_bits(y);
    let r = match op {
        Op::Add => a + b,
        Op::Sub => a - b,
        Op::Mul => a * b,
        Op::Div => a / b,
        Op::Pow => a.powf(b),
        Op::Sin => a.sin(),
        Op::Asin => a.asin(),
        Op::Tanh => a.tanh(),
        Op::Exp => a.exp(),
        Op::Sqrt => a.sqrt(),
    };
    r.to_bits()
}

fn tick(t: u64, n: usize, dt: u32) -> u64 {
    (f64::from_bits(t) + n as f64 * f32::from_bits(dt) as f64).to_bits()
}

/// Keeps the compiler from working out what is expected ahead of time, with
/// functions that may round differently.
fn later(x: f32) -> f32 {
    std::hint::black_box(x)
}

fn engine(sr: f32) -> RiotCore {
    RiotCore::new(&Alu { op: native }, sr.to_bits())
}

fn set(c: &mut RiotCore, i: usize, x: f32) {
    c.params_ptr()[i] = x.to_bits();
}

fn on(c: &mut RiotCore, note: u8) {
    c.note_on(&Alu { op: native }, note, 1.0f32.to_bits());
}

fn run(c: &mut RiotCore, n: usize) -> Vec<f32> {
    let mut out = vec![7u32; n];
    c.process(&Alu { op: native }, &tick, &mut out);
    out.iter().map(|x| f32::from_bits(*x)).collect()
}

fn env(v: &Voice) -> f32 {
    f32::from_bits(v.env)
}

/// All eight voices playing notes 60 to 67, each a block older than the next.
fn full(sr: f32) -> RiotCore {
    let mut c = engine(sr);
    set(&mut c, 30, 0.0);
    for k in 0..8u8 {
        on(&mut c, 60 + k);
        run(&mut c, 64);
    }
    c
}

// --- parameters ------------------------------------------------------------

#[test]
fn settings_map_onto_ranges() {
    let alu = Alu { op: native };
    let at = |i: usize, x: f32| f32::from_bits(map_p(&alu, i, x.to_bits()));
    assert_eq!(at(0, 0.25), 0.25);
    assert_eq!(at(36, 0.5), 1.5);
    assert_eq!(at(43, 1.0), 0.9);
    assert_eq!(at(59, 0.6), 3.0);
    assert_eq!(at(4, 0.5), 0.005 * (0.4f32 / 0.005).powf(later(0.5)));
    assert_eq!(at(34, 0.0), 0.05);
    assert_eq!(at(51, 0.75), 0.02 * (1.2f32 / 0.02).powf(later(0.75)));
}

#[test]
fn settings_beyond_their_ends_count_as_the_ends() {
    let alu = Alu { op: native };
    for i in 0..63 {
        let at = |x: f32| map_p(&alu, i, x.to_bits());
        assert_eq!(at(-0.3), at(0.0));
        assert_eq!(at(f32::NEG_INFINITY), at(0.0));
        assert_eq!(at(1.7), at(1.0));
    }
}

#[test]
fn host_writes_settings() {
    let mut c = engine(48000.0);
    c.params_ptr()[37] = 0.5f32.to_bits();
    assert_eq!(f32::from_bits(c.params[37]), 0.5);
    assert_eq!(c.params_ptr().len(), 63);
}

// --- wavetable -------------------------------------------------------------

#[test]
fn table_holds_the_factory_frames() {
    let c = engine(48000.0);
    assert_eq!(c.n_frames, 6);
    for i in [0usize, 1, 7, 512, 1023, 2047] {
        let ph = later(i as f32 / 2048.0);
        let at = |f: usize| f32::from_bits(c.table[f * 2048 + i]);
        assert_eq!(at(0), (TAU * ph).sin());
        let mut saw = 0.0;
        for k in 1..=32 {
            saw += (TAU * ph * k as f32).sin() / k as f32;
        }
        assert_eq!(at(1), saw * 0.55);
        let mut square = 0.0;
        for k in 0..16 {
            let n = (1 + 2 * k) as f32;
            square += (TAU * ph * n).sin() / n;
        }
        assert_eq!(at(2), square * 0.7);
        let mut comb = 0.0;
        for k in 1..=24 {
            let n = k as f32;
            comb += (TAU * ph * n).sin() * (n * 0.9).sin() / n;
        }
        assert_eq!(at(3), comb * 0.8);
        let mut bell = 0.0;
        for (k, r) in [1.0f32, 2.76, 5.4, 8.93, 13.3].iter().enumerate() {
            bell += (TAU * ph * r).sin() / (k as f32 + 1.0);
        }
        assert_eq!(at(4), bell * 0.5);
        let mut vowel = 0.0;
        for (r, a) in [(3.0f32, 1.0f32), (5.0, 0.7), (8.0, 0.45), (12.0, 0.3)] {
            vowel += a * (TAU * ph * r + (TAU * ph).sin() * 2.0).sin();
        }
        assert_eq!(at(5), vowel * 0.4);
    }
    assert!(c.table[6 * 2048..].iter().all(|x| *x == 0));
}

#[test]
fn table_has_room_for_64_frames() {
    let mut c = engine(48000.0);
    assert_eq!(c.table_capacity(), 131072);
    assert_eq!(c.table_ptr().len(), 131072);
    c.table_ptr()[131071] = 0.5f32.to_bits();
    assert_eq!(f32::from_bits(c.table[131071]), 0.5);
    c.set_table_frames(10);
    assert_eq!(c.n_frames, 10);
    c.set_table_frames(64);
    assert_eq!(c.n_frames, 64);
    c.set_table_frames(1000);
    assert_eq!(c.n_frames, 64);
    c.set_table_frames(0);
    assert_eq!(c.n_frames, 0);
}

#[test]
fn table_is_read_between_samples_and_frames() {
    let alu = Alu { op: native };
    let mut c = engine(48000.0);
    let t = c.table_ptr();
    t[100] = 1.0f32.to_bits();
    t[101] = 3.0f32.to_bits();
    t[2048 + 100] = 5.0f32.to_bits();
    t[2048 + 101] = 9.0f32.to_bits();
    let read = |ff: f32, pos: f32| {
        f32::from_bits(read_table(&alu, &c.table, 0, ff.to_bits(), (pos / 2048.0).to_bits()))
    };
    assert_eq!(read(0.0, 100.0), 1.0);
    assert_eq!(read(0.0, 100.5), 2.0);
    assert_eq!(read(1.0, 100.5), 7.0);
    assert_eq!(read(0.25, 100.5), 3.25);
}

#[test]
fn table_wraps_at_the_end_of_a_frame() {
    let alu = Alu { op: native };
    let mut c = engine(48000.0);
    let t = c.table_ptr();
    t[2047] = 2.0f32.to_bits();
    t[0] = 4.0f32.to_bits();
    t[2048] = 100.0f32.to_bits();
    let ph = 2047.5f32 / 2048.0;
    assert_eq!(f32::from_bits(read_table(&alu, &c.table, 0, 0, ph.to_bits())), 3.0);
}

#[test]
fn texture_stays_within_the_frames_in_use() {
    let alu = Alu { op: native };
    for frames in [0usize, 1, 2, 6, 64] {
        for x in [-1.0f32, 0.0, 0.3, 0.999, 1.0, 5.0, f32::NAN] {
            let mut q = [0u32; 63];
            q[27] = x.to_bits();
            let b = block::block(&alu, &q, 48000f32.to_bits(), 1, frames);
            assert!(b.fi + 1 < frames.max(2));
        }
    }
    let mut q = [0u32; 63];
    q[27] = 0.5f32.to_bits();
    let b = block::block(&alu, &q, 48000f32.to_bits(), 1, 6);
    assert_eq!((b.fi, f32::from_bits(b.ff)), (2, 0.5));
    q[27] = 1.0f32.to_bits();
    let b = block::block(&alu, &q, 48000f32.to_bits(), 1, 6);
    assert_eq!((b.fi, f32::from_bits(b.ff)), (4, 1.0));
}

// --- modulation ------------------------------------------------------------

#[test]
fn routes_are_kept_in_range() {
    let mut c = engine(48000.0);
    c.set_route(3, 5, 0.25f32.to_bits(), 1);
    assert_eq!((c.routes[3].param, f32::from_bits(c.routes[3].depth), c.routes[3].src), (5, 0.25, 1));
    c.set_route(4, 1000, 0.5f32.to_bits(), 9);
    assert_eq!((c.routes[4].param, c.routes[4].src), (62, 1));
    c.set_route(16, 7, 0.5f32.to_bits(), 0);
    assert!(c.routes.iter().all(|r| r.param != 7));
    c.set_route_count(5);
    assert_eq!(c.n_routes, 5);
    c.set_route_count(17);
    assert_eq!(c.n_routes, 16);
}

#[test]
fn routes_add_up_in_order() {
    let alu = Alu { op: native };
    let mut q = [0u32; 63];
    q[5] = 0.5f32.to_bits();
    q[6] = 0.75f32.to_bits();
    let mut routes = [Route { param: 0, depth: 0, src: 0 }; 16];
    routes[0] = Route { param: 5, depth: 0.5f32.to_bits(), src: 0 };
    routes[1] = Route { param: 5, depth: 0.25f32.to_bits(), src: 1 };
    routes[2] = Route { param: 6, depth: 1.0f32.to_bits(), src: 0 };
    let (m1, m2) = (0.4f32, -0.8f32);
    let r = block::route(&alu, &q, &routes, 2, m1.to_bits(), m2.to_bits());
    assert_eq!(f32::from_bits(r[5]), 0.5 + 0.4 * 0.5 + -0.8 * 0.25);
    for i in 0..63 {
        if i != 5 {
            assert_eq!(r[i], q[i]);
        }
    }
}

#[test]
fn sweeps_have_four_shapes() {
    let alu = Alu { op: native };
    for shape in 0..4 {
        let mut q = [0u32; 63];
        q[34] = 0.5f32.to_bits();
        q[35] = 0.5f32.to_bits();
        q[36] = (shape as f32 / 3.0).to_bits();
        let mut l = Lfo { ph: 0.25f32.to_bits(), sh: 0.125f32.to_bits(), sh_ph: 0 };
        let dt = later(1.0f32 / 48000.0);
        let (state, reach) = l.sweep(&alu, 99, &q, 34, 128, dt.to_bits());
        let ph = 0.25 + 0.05 * (30.0f32 / 0.05).powf(later(0.5)) * 128.0 * dt;
        assert_eq!(f32::from_bits(l.ph), ph);
        assert_eq!(state, 99);
        let v = match shape {
            0 => (TAU * ph).sin(),
            1 => 1.0 - 4.0 * (ph - 0.5).abs(),
            2 => 2.0 * ph - 1.0,
            _ => 0.125,
        };
        assert_eq!(f32::from_bits(reach), v * 0.5);
    }
}

#[test]
fn a_held_value_is_drawn_when_the_hold_comes_round() {
    let alu = Alu { op: native };
    let mut q = [0u32; 63];
    q[35] = 1.0f32.to_bits();
    q[36] = 1.0f32.to_bits();
    let mut l = Lfo::new();
    let (state, reach) = l.sweep(&alu, 5, &q, 34, 128, (1.0f32 / 48000.0).to_bits());
    assert_eq!(state, rng::next(5));
    assert_eq!(f32::from_bits(reach), f32::from_bits(rng::unit(state)) * 2.0 - 1.0);
    assert!(f32::from_bits(l.sh_ph) < 1.0);
}

// --- overtones and their cap -----------------------------------------------

#[test]
fn more_voices_get_fewer_overtones() {
    let caps = [16usize, 16, 16, 16, 12, 12, 9, 7, 7, 7, 7];
    for n in 0..=10 {
        assert_eq!(block::partial_cap(n), caps[n]);
        assert!(n * block::partial_cap(n) <= 70);
    }
}

#[test]
fn overtones_are_weighed() {
    let alu = Alu { op: native };
    let mut q = [0u32; 63];
    q[10] = 1.0f32.to_bits();
    q[12] = 0.5f32.to_bits();
    q[14] = 1e-6f32.to_bits();
    let w = block::weigh(&alu, &q, (-1.0f32).to_bits());
    assert_eq!(f32::from_bits(w.w[0]), 1.0);
    assert_eq!(f32::from_bits(w.w[1]), 0.0);
    assert_eq!(f32::from_bits(w.w[2]), 0.5 * 3f32.powf(later(-1.0)));
    assert_eq!(w.top, 3);
    let third = 0.5 * 3f32.powf(later(-1.0));
    let fifth = 1e-6 * 5f32.powf(later(-1.0));
    assert_eq!(f32::from_bits(w.sum), 1e-9 + 1.0 + third * third + fifth * fifth);
}

#[test]
fn block_counts_the_overtones_in_use() {
    let alu = Alu { op: native };
    let mut q = [0u32; 63];
    q[8] = 0.5f32.to_bits();
    for k in 0..14 {
        q[10 + k] = 1.0f32.to_bits();
    }
    let top = |active: usize| block::block(&alu, &q, 48000f32.to_bits(), active, 6).p_top;
    assert_eq!((top(1), top(4), top(6), top(8)), (14, 12, 9, 7));
}

#[test]
fn grains_are_at_least_256_samples() {
    let alu = Alu { op: native };
    let at = |grain: f32, sr: f32| {
        let mut q = [0u32; 63];
        q[28] = grain.to_bits();
        block::block(&alu, &q, sr.to_bits(), 1, 6).grain_len
    };
    assert_eq!(at(0.0, 48000.0), 0);
    assert_eq!(at(0.5, 48000.0), ((0.25f32 - 0.5 * 0.23) * 48000.0) as i32);
    assert_eq!(at(1.0, 8000.0), 256);
}

// --- envelope --------------------------------------------------------------

fn slopes() -> Slopes {
    Slopes {
        sustain: 0.5f32.to_bits(),
        attack: 0.1f32.to_bits(),
        decay: 0.2f32.to_bits(),
        release: 0.3f32.to_bits(),
    }
}

fn at_stage(stage: Stage, env: f32) -> Voice {
    let mut v = Voice::new();
    v.on = true;
    v.gate = true;
    v.stage = stage;
    v.env = env.to_bits();
    v
}

#[test]
fn envelope_stages() {
    let alu = Alu { op: native };
    let k = slopes();
    let r = voice::envelope(&alu, &k, at_stage(Stage::Attack, 0.5));
    assert_eq!((env(&r), r.stage), (0.5 + (1.02 - 0.5) * 0.1, Stage::Attack));
    let r = voice::envelope(&alu, &k, at_stage(Stage::Attack, 0.999));
    assert_eq!((env(&r), r.stage), (1.0, Stage::Decay));
    let r = voice::envelope(&alu, &k, at_stage(Stage::Decay, 0.9));
    assert_eq!((env(&r), r.stage), (0.9 + (0.5 - 0.9) * 0.2, Stage::Decay));
    let r = voice::envelope(&alu, &k, at_stage(Stage::Decay, 0.50001));
    assert_eq!(r.stage, Stage::Sustain);
    let r = voice::envelope(&alu, &k, at_stage(Stage::Sustain, 0.9));
    assert_eq!((env(&r), r.stage), (0.9 + (0.5 - 0.9) * 0.2, Stage::Sustain));
    let r = voice::envelope(&alu, &k, at_stage(Stage::Release, 0.9));
    assert_eq!((env(&r), r.stage, r.on), (0.9 - 0.9 * 0.3, Stage::Release, true));
    let r = voice::envelope(&alu, &k, at_stage(Stage::Release, 1.2e-4));
    assert!(!r.on);
    let r = voice::envelope(&alu, &k, at_stage(Stage::Kill, 0.9));
    assert_eq!((env(&r), r.stage, r.on), (0.9 * 0.85, Stage::Kill, true));
    let r = voice::envelope(&alu, &k, at_stage(Stage::Kill, 1.1e-4));
    assert!(!r.on);
    let r = voice::envelope(&alu, &k, at_stage(Stage::Idle, 0.3));
    assert_eq!((env(&r), r.stage), (0.3, Stage::Idle));
}

#[test]
fn a_killed_voice_is_silent_within_57_samples() {
    let alu = Alu { op: native };
    let q = [0u32; 63];
    let b = block::block(&alu, &q, 48000f32.to_bits(), 1, 6);
    let c = engine(48000.0);
    for e in [1.0f32, 0.999, 0.5, 0.0011] {
        let mut v = at_stage(Stage::Kill, e);
        let mut out = [0u32; 57];
        render::render(&alu, &b, &c.table, &mut v, 1, &mut out);
        assert!(!v.on);
    }
    let mut v = at_stage(Stage::Kill, 1.0);
    let mut out = [0u32; 56];
    render::render(&alu, &b, &c.table, &mut v, 1, &mut out);
    assert!(v.on);
}

// --- notes -----------------------------------------------------------------

#[test]
fn a_note_starts_a_voice() {
    let mut c = engine(48000.0);
    set(&mut c, 6, 0.5);
    let seed = c.rng;
    c.note_on(&Alu { op: native }, 57, 0.7f32.to_bits());
    let v = &c.voices[0];
    assert!(v.on && v.gate);
    assert_eq!((v.note, f32::from_bits(v.vel), v.stage), (57, 0.7, Stage::Attack));
    assert_eq!(f32::from_bits(v.f0), 440.0 * 2f32.powf(later(-1.0)));
    assert_eq!(v.ph_t, rng::unit(rng::next(seed)));
    assert_eq!(v.ph_t2, rng::unit(rng::next(rng::next(seed))));
    assert_eq!(c.rng, rng::next(rng::next(seed)));
    let decay = 0.002f32 * (0.08f32 / 0.002).powf(later(0.5));
    assert_eq!(v.tr_samp, (decay * 6.0 * 48000.0) as i32);
    assert!(!c.voices[1].on);
}

#[test]
fn a_click_gets_at_least_one_sample() {
    let mut c = engine(1.0);
    on(&mut c, 60);
    assert_eq!(c.voices[0].tr_samp, 1);
}

#[test]
fn pitch_of_notes() {
    let mut c = engine(48000.0);
    on(&mut c, 69);
    on(&mut c, 81);
    on(&mut c, 60);
    assert_eq!(f32::from_bits(c.voices[0].f0), 440.0);
    assert_eq!(f32::from_bits(c.voices[1].f0), 880.0);
    assert_eq!(f32::from_bits(c.voices[2].f0), 440.0 * 2f32.powf(later((60.0f32 - 69.0) / 12.0)));
}

#[test]
fn a_note_takes_the_first_silent_voice() {
    let mut c = full(48000.0);
    c.voices[5].on = false;
    c.voices[2].on = false;
    on(&mut c, 90);
    assert_eq!(c.voices[2].note, 90);
    assert_eq!(c.voices[5].note, 65);
    assert!(!c.tails[0].on && !c.tails[1].on);
}

#[test]
fn a_note_steals_the_quietest_release() {
    let mut c = full(48000.0);
    c.note_off(63);
    c.note_off(66);
    c.voices[3].env = 0.5f32.to_bits();
    c.voices[6].env = 0.25f32.to_bits();
    on(&mut c, 90);
    assert_eq!(c.voices[6].note, 90);
    let t = &c.tails[0];
    assert!(t.on && !t.gate);
    assert_eq!((t.note, env(t), t.stage, t.tr_samp), (66, 0.25, Stage::Kill, 0));
}

#[test]
fn a_note_steals_the_oldest_last() {
    let mut c = full(48000.0);
    c.voices[0].age = 9.0f64.to_bits();
    let second = c.voices[1];
    on(&mut c, 90);
    assert_eq!(c.voices[1].note, 90);
    let t = &c.tails[0];
    assert_eq!((t.note, t.ph_s, t.env, t.f0), (61, second.ph_s, second.env, second.f0));
}

#[test]
fn an_inaudible_voice_is_dropped() {
    let mut c = full(48000.0);
    c.voices[0].env = 0.001f32.to_bits();
    on(&mut c, 90);
    assert_eq!(c.voices[0].note, 90);
    assert!(!c.tails[0].on && !c.tails[1].on);
}

#[test]
fn a_full_fade_pool_gives_up_its_quietest() {
    let mut c = full(48000.0);
    on(&mut c, 90);
    on(&mut c, 91);
    assert!(c.tails[0].on && c.tails[1].on);
    c.tails[0].env = 0.6f32.to_bits();
    c.tails[1].env = 0.3f32.to_bits();
    let first = c.tails[0];
    on(&mut c, 92);
    assert_eq!((c.tails[0].note, c.tails[0].env), (first.note, first.env));
    assert_eq!(c.tails[1].note, 62);
}

#[test]
fn a_note_always_sounds() {
    let mut c = engine(48000.0);
    for k in 0..30u8 {
        on(&mut c, 40 + k);
        assert!(c.voices.iter().any(|v| v.on && v.note == 40 + k));
        assert_eq!(pool::count(&c.voices), (k as usize + 1).min(8));
        assert!(pool::count(&c.voices) + pool::count(&c.tails) <= 10);
    }
}

#[test]
fn ending_a_note_releases_it() {
    let mut c = engine(48000.0);
    on(&mut c, 60);
    on(&mut c, 62);
    on(&mut c, 60);
    c.note_off(60);
    for i in [0, 2] {
        assert!(c.voices[i].on && !c.voices[i].gate);
        assert_eq!(c.voices[i].stage, Stage::Release);
    }
    assert_eq!((c.voices[1].gate, c.voices[1].stage), (true, Stage::Attack));
    c.note_off(99);
    assert_eq!((c.voices[1].gate, c.voices[1].stage), (true, Stage::Attack));
}

#[test]
fn ending_a_note_twice_changes_nothing() {
    let mut c = engine(48000.0);
    on(&mut c, 60);
    run(&mut c, 32);
    c.note_off(60);
    let v = c.voices[0];
    c.note_off(60);
    assert_eq!((c.voices[0].env, c.voices[0].stage), (v.env, v.stage));
}

#[test]
fn panic_cuts_everything_off() {
    let mut c = full(48000.0);
    on(&mut c, 90);
    c.panic();
    for v in c.voices.iter().chain(c.tails.iter()) {
        assert!(!v.on);
        assert_eq!((env(v), v.stage), (0.0, Stage::Idle));
    }
    set(&mut c, 37, 1.0);
    assert!(run(&mut c, 128).iter().all(|x| *x == 0.0));
}

#[test]
fn a_released_note_dies_away() {
    let mut c = engine(8000.0);
    set(&mut c, 30, 0.0);
    on(&mut c, 60);
    run(&mut c, 100);
    c.note_off(60);
    run(&mut c, 4000);
    assert!(!c.voices[0].on);
    assert_eq!(c.voices[0].stage, Stage::Release);
}

// --- clicks ----------------------------------------------------------------

#[test]
fn a_click_counts_down_and_never_comes_back() {
    let mut c = engine(8000.0);
    set(&mut c, 5, 1.0);
    on(&mut c, 60);
    let given = c.voices[0].tr_samp;
    assert_eq!(given, (0.002f32 * 6.0 * 8000.0) as i32);
    run(&mut c, 40);
    assert_eq!(c.voices[0].tr_samp, given - 40);
    run(&mut c, 400);
    assert_eq!(c.voices[0].tr_samp, 0);
    let noise = c.rng;
    run(&mut c, 400);
    assert_eq!(c.voices[0].tr_samp, 0);
    // The hold of a sweep may draw; the click does not.
    assert!(c.rng == noise || c.rng == rng::next(noise) || c.rng == rng::next(rng::next(noise)));
}

// --- blocks ----------------------------------------------------------------

#[test]
fn an_idle_engine_is_silent() {
    let mut c = engine(48000.0);
    set(&mut c, 37, 1.0);
    let before = c.voices[0];
    let out = run(&mut c, 128);
    assert_eq!(out.len(), 128);
    assert!(out.iter().all(|x| x.to_bits() == 0));
    assert_eq!((c.voices[0].on, c.voices[0].env), (before.on, before.env));
}

#[test]
fn the_clock_counts_seconds() {
    let mut c = engine(48000.0);
    run(&mut c, 128);
    run(&mut c, 64);
    let dt = (1.0f32 / 48000.0) as f64;
    assert_eq!(f64::from_bits(c.clock), 128.0 * dt + 64.0 * dt);
}

#[test]
fn an_empty_block_renders_nothing() {
    let mut c = engine(48000.0);
    on(&mut c, 60);
    let e = c.voices[0].env;
    assert_eq!(run(&mut c, 0).len(), 0);
    assert_eq!(c.voices[0].env, e);
}

#[test]
fn samples_of_a_sub_oscillator() {
    let mut c = engine(48000.0);
    set(&mut c, 0, 1.0);
    set(&mut c, 1, 0.25);
    set(&mut c, 2, 0.5);
    set(&mut c, 3, 0.5);
    set(&mut c, 37, 0.8);
    c.note_on(&Alu { op: native }, 69, 0.5f32.to_bits());
    let out = run(&mut c, 3);
    let dt = later(1.0f32 / 48000.0);
    let rise = 1.0 - (-dt / (0.001f32 * 0.35)).exp();
    let g = later(1.0f32 + 0.5 * 9.0);
    let g_inv = 1.0 / g.tanh();
    let (mut e, mut ph, mut t) = (0.0f32, 0.0f32, 0.0f32);
    for s in 0..3 {
        e += (1.02 - e) * rise;
        ph += 440.0 * (1.0 + 0.5 * 6.0 * (-t / 0.005f32).exp()) * dt;
        let sine = (TAU * ph).sin();
        let shaped = sine + 0.25 * (0.636_619_77 * sine.asin() - sine);
        let sub = (shaped * g).tanh() * g_inv;
        let x = (sub * 1.0 + 0.0 * 0.0 + 0.0 * 0.0) * e * 0.5 * 0.35;
        assert_eq!(out[s], (x * 0.8 * 1.4).tanh());
        t += dt;
    }
    assert_eq!(env(&c.voices[0]), e);
    assert_eq!(f32::from_bits(c.voices[0].ph_s), ph);
}

#[test]
fn samples_of_two_overtones() {
    let mut c = engine(48000.0);
    set(&mut c, 7, 1.0);
    set(&mut c, 8, 0.5);
    set(&mut c, 9, 0.5);
    set(&mut c, 10, 1.0);
    set(&mut c, 11, 0.5);
    set(&mut c, 37, 1.0);
    on(&mut c, 69);
    let out = run(&mut c, 2);
    let dt = later(1.0f32 / 48000.0);
    let rise = 1.0 - (-dt / (0.001f32 * 0.35)).exp();
    let norm = 1.0 / (1e-9f32 + 1.0 + 0.25).sqrt();
    let (mut e, mut p1, mut p2) = (0.0f32, 0.0f32, 0.0f32);
    for s in 0..2 {
        e += (1.02 - e) * rise;
        p1 += 440.0 * 1.0 * (1.0 + 0.5 * 0.0009 * 1.0 * 1.0) * dt;
        p2 += 440.0 * 2.0 * (1.0 + 0.5 * 0.0009 * 2.0 * 2.0) * dt;
        let sum = (1.0 * (TAU * p1).sin() + 0.5 * (TAU * p2).sin()) * norm;
        let x = (0.0 + sum * 1.0 + 0.0) * e * 1.0 * 0.35;
        assert_eq!(out[s], (x * 1.0 * 1.4).tanh());
    }
}

#[test]
fn overtones_too_high_for_the_rate_are_left_out() {
    let mut c = engine(1000.0);
    set(&mut c, 7, 1.0);
    set(&mut c, 8, 0.5);
    set(&mut c, 10, 1.0);
    set(&mut c, 11, 1.0);
    on(&mut c, 69);
    run(&mut c, 1);
    assert_eq!(f32::from_bits(c.voices[0].ph_a[0]), 440.0 * (1.0f32 / 1000.0));
    assert_eq!(c.voices[0].ph_a[1], 0);
}

#[test]
fn samples_of_a_texture() {
    let alu = Alu { op: native };
    let mut c = engine(48000.0);
    set(&mut c, 26, 1.0);
    set(&mut c, 27, 0.5);
    set(&mut c, 29, 0.5);
    set(&mut c, 37, 1.0);
    on(&mut c, 69);
    let (h1, h2) = (f32::from_bits(c.voices[0].ph_t), f32::from_bits(c.voices[0].ph_t2));
    let out = run(&mut c, 1);
    let dt = later(1.0f32 / 48000.0);
    let e = 1.02 * (1.0 - (-dt / (0.001f32 * 0.35)).exp());
    let wrap = |p: f32| if p >= 1.0 { p - 1.0 } else { p };
    let p1 = wrap(h1 + 440.0 * dt);
    let p2 = wrap(h2 + 440.0 * (1.0 + 0.5 * 0.012) * dt);
    let read = |p: f32| {
        f32::from_bits(read_table(&alu, &c.table, 2, 0.5f32.to_bits(), p.to_bits()))
    };
    let tex = (read(p1) * 1.0 + read(p2)) * 0.5;
    let x = (0.0 + tex * 1.0) * e * 1.0 * 0.35;
    assert_eq!(out[0], (x * 1.0 * 1.4).tanh());
}

#[test]
fn a_grain_starts_when_its_count_runs_out() {
    let mut c = engine(48000.0);
    set(&mut c, 26, 1.0);
    set(&mut c, 28, 0.5);
    // Sweeps past their hold, so that only the grain draws.
    run(&mut c, 1);
    on(&mut c, 69);
    let noise = c.rng;
    run(&mut c, 1);
    let v = &c.voices[0];
    let len = ((0.25f32 - 0.5 * 0.23) * 48000.0) as i32;
    let first = f32::from_bits(rng::unit(rng::next(noise)));
    assert_eq!(v.g_cnt, len + (first * len as f32) as i32);
    assert_eq!(f32::from_bits(v.g_fade), 1.0 / 384.0);
    let start = f32::from_bits(rng::unit(rng::next(rng::next(noise))));
    let ph = start + 440.0 * (1.0f32 / 48000.0);
    assert_eq!(f32::from_bits(v.ph_t), if ph >= 1.0 { ph - 1.0 } else { ph });
    let count = v.g_cnt;
    run(&mut c, 10);
    assert_eq!(c.voices[0].g_cnt, count - 10);
}

#[test]
fn rendering_ends_voices_and_starts_none() {
    let mut c = full(48000.0);
    on(&mut c, 90);
    c.note_off(64);
    let mut last = pool::count(&c.voices) + pool::count(&c.tails);
    assert_eq!(last, 9);
    for _ in 0..200 {
        let before: Vec<bool> = c.voices.iter().map(|v| v.on).collect();
        run(&mut c, 128);
        for i in 0..8 {
            assert!(before[i] || !c.voices[i].on);
        }
        let now = pool::count(&c.voices) + pool::count(&c.tails);
        assert!(now <= last);
        last = now;
    }
    assert_eq!(last, 7);
}

#[test]
fn a_modulated_master_level() {
    let mut c = engine(48000.0);
    set(&mut c, 0, 1.0);
    set(&mut c, 35, 1.0);
    set(&mut c, 36, 0.666_666_7);
    set(&mut c, 37, 0.5);
    c.set_route(0, 37, 0.4f32.to_bits(), 0);
    c.set_route_count(1);
    let mut plain = engine(48000.0);
    set(&mut plain, 0, 1.0);
    on(&mut c, 69);
    on(&mut plain, 69);
    let dt = later(1.0f32 / 48000.0);
    let ph = 0.05 * 16.0 * dt;
    let reach = (2.0 * ph - 1.0) * 1.0;
    set(&mut plain, 37, 0.5 + reach * 0.4);
    assert_eq!(run(&mut c, 16), run(&mut plain, 16));
}
