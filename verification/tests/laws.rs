//! The laws on concrete values, and the arithmetic that they take for granted.

use overtone_riot::alu::{Alu, Op};
use overtone_riot::block;
use overtone_riot::fx::Fx;
use overtone_riot::params::{map_p, RANGES};
use overtone_riot::table::{fill_factory, read_table};
use overtone_riot::voice::{Stage, Voice};
use overtone_riot::RiotCore;

const SR: f32 = 48000.0;

fn native(op: Op, x: u32, y: u32) -> u32 {
    let a = f32::from_bits(x);
    let b = f32::from_bits(y);
    let r = match op {
        Op::Add => a + b,
        Op::Sub => a - b,
        Op::Mul => a * b,
        Op::Div => a / b,
        Op::Pow => a.powf(b),
        Op::Sin => a.sin(),
        Op::Asin => a.asin(),
        Op::Tanh => a.tanh(),
        Op::Exp => a.exp(),
        Op::Sqrt => a.sqrt(),
    };
    r.to_bits()
}

fn tick(t: u64, n: usize, dt: u32) -> u64 {
    (f64::from_bits(t) + n as f64 * f32::from_bits(dt) as f64).to_bits()
}

fn calc(op: Op, x: f32, y: f32) -> f32 {
    f32::from_bits(native(op, x.to_bits(), y.to_bits()))
}

fn draw(s: &mut u64) -> u32 {
    *s = s.wrapping_mul(6364136223846793005).wrapping_add(1442695040888963407);
    (*s >> 33) as u32
}

/// A number between 2^-12 and 2^12, of either sign.
fn number(s: &mut u64) -> f32 {
    let x = draw(s);
    let exponent = 115 + (draw(s) % 24);
    f32::from_bits((x & 0x807f_ffff) | (exponent << 23))
}

fn fraction(s: &mut u64) -> f32 {
    (draw(s) % 10001) as f32 / 10000.0
}

fn next_up(x: f32) -> f32 {
    if x >= 0.0 {
        f32::from_bits(x.to_bits() + 1)
    } else {
        f32::from_bits(x.to_bits() - 1)
    }
}

fn next_down(x: f32) -> f32 {
    -next_up(-x)
}

fn engine(sr: f32) -> RiotCore {
    RiotCore::new(&Alu { op: native }, sr.to_bits())
}

fn set(c: &mut RiotCore, i: usize, x: f32) {
    c.params_ptr()[i] = x.to_bits();
}

fn on(c: &mut RiotCore, note: u8) {
    c.note_on(&Alu { op: native }, note, 1.0f32.to_bits());
}

fn run(c: &mut RiotCore, n: usize) -> Vec<u32> {
    let mut out = vec![7u32; n];
    c.process(&Alu { op: native }, &tick, &mut out);
    out
}

fn env(v: &Voice) -> f32 {
    f32::from_bits(v.env)
}

fn settings(list: &[(usize, f32)]) -> [u32; 63] {
    let mut q = [0u32; 63];
    for (i, x) in list {
        q[*i] = x.to_bits();
    }
    q
}

fn wave(n: usize) -> Vec<u32> {
    (0..n).map(|i| (0.3 * (i as f32 * 0.7).sin()).to_bits()).collect()
}

// --- the machine's arithmetic ----------------------------------------------

#[test]
fn results_are_rounded_to_nearest() {
    let mut s: u64 = 11;
    for _ in 0..20000 {
        let (x, y) = (number(&mut s), number(&mut s));
        let (a, b) = (x as f64, y as f64);
        for (r, exact) in [
            (calc(Op::Add, x, y), a + b),
            (calc(Op::Sub, x, y), a - b),
            (calc(Op::Mul, x, y), a * b),
        ] {
            let off = (r as f64 - exact).abs();
            assert!(off <= (next_up(r) as f64 - exact).abs());
            assert!(off <= (next_down(r) as f64 - exact).abs());
        }
        // A quotient, by the product that it stands for.
        let y = y.abs();
        let r = calc(Op::Div, x, y);
        let off = (r as f64 * y as f64 - a).abs();
        assert!(off <= (next_up(r) as f64 * y as f64 - a).abs());
        assert!(off <= (next_down(r) as f64 * y as f64 - a).abs());
    }
}

#[test]
fn sums_that_are_zero_are_positive() {
    assert_eq!(calc(Op::Add, 1.5, -1.5).to_bits(), 0);
    assert_eq!(calc(Op::Add, 0.0, -0.0).to_bits(), 0);
    assert_eq!(calc(Op::Add, -0.0, 0.0).to_bits(), 0);
    assert_eq!(calc(Op::Add, -0.0, -0.0).to_bits(), 0x8000_0000);
}

#[test]
fn results_overflow_to_infinity() {
    assert_eq!(calc(Op::Add, f32::MAX, f32::MAX), f32::INFINITY);
    assert_eq!(calc(Op::Add, f32::MAX, 1.0), f32::MAX);
    assert_eq!(calc(Op::Mul, -f32::MAX, 2.0), f32::NEG_INFINITY);
}

#[test]
fn powers_rise_with_the_exponent() {
    for b in [1.0f32, 1.5, 20.0, 40.0, 50.0, 60.0, 80.0, 160.0, 200.0, 300.0, 600.0, 2000.0, 32768.0] {
        let mut last = 1.0;
        for k in 0..=1000 {
            let p = calc(Op::Pow, b, k as f32 / 1000.0);
            assert!(p >= last && p <= 65536.0);
            last = p;
        }
        assert_eq!(calc(Op::Pow, b, -0.0), calc(Op::Pow, b, 0.0));
    }
}

#[test]
fn powers_of_two_double() {
    for k in -160..150 {
        let x = k as f32 / 10.0;
        let p = calc(Op::Pow, 2.0, x);
        let q = calc(Op::Pow, 2.0, x + 1.0);
        assert!((q - 2.0 * p).abs() * 20000.0 <= q);
        assert!(calc(Op::Pow, 2.0, x + 0.0625) * 100.0 >= p * 102.0);
    }
    assert!(calc(Op::Pow, 2.0, -16.0) >= f32::powi(2.0, -17));
    assert!(calc(Op::Pow, 2.0, 16.0) <= f32::powi(2.0, 17));
}

#[test]
fn exponentials_sines_and_tangents() {
    for k in 0..=4000 {
        let x = -(k as f32) / 100.0;
        let e = calc(Op::Exp, x, 0.0);
        assert!((0.0..=1.0).contains(&e));
        assert!(x < -0.125 || e >= 0.75);
        assert!(calc(Op::Sin, x, 0.0).abs() <= 1.0);
    }
    assert_eq!(calc(Op::Exp, f32::MIN, 0.0), 0.0);
    assert_eq!(calc(Op::Tanh, 0.0, 0.0), 0.0);
    assert_eq!(calc(Op::Tanh, -0.0, 0.0), 0.0);
}

#[test]
fn roots_are_close() {
    for e in -40..=40 {
        for f in [1.0f64, 1.1, 1.3, 1.7] {
            let x = (f * f64::powi(2.0, e)).min(f64::powi(2.0, 40)) as f32;
            let r = calc(Op::Sqrt, x, 0.0) as f64;
            assert!(r > 0.0);
            assert!((r * r - x as f64).abs() * 1048576.0 <= x as f64);
        }
    }
}

#[test]
fn powers_lie_between_one_and_the_base() {
    for b in [1.0f32, 1.5, 15.9, 16.0, 40.0, 80.0, 600.0, 2000.0, 32768.0] {
        assert_eq!(calc(Op::Pow, b, 0.0), 1.0);
        assert_eq!(calc(Op::Pow, b, -0.0), 1.0);
        for k in 0..=1000 {
            let x = k as f32 / 1000.0;
            let p = calc(Op::Pow, b, x) as f64;
            assert!(p >= 1.0 && p * 100000.0 <= b as f64 * 100001.0);
            if b >= 16.0 && k <= 985 {
                let q = calc(Op::Pow, b, x + 0.0101) as f64;
                assert!(q * 200.0 >= p * 201.0);
            }
        }
    }
}

#[test]
fn powers_of_the_tilt_are_bounded() {
    for n in 1..=16 {
        for k in -200..=200 {
            let p = calc(Op::Pow, n as f32, k as f32 / 100.0);
            assert!(p >= f32::powi(2.0, -9) && p <= f32::powi(2.0, 9));
        }
    }
}

#[test]
fn tangents_clip() {
    for k in -4000..=4000 {
        assert!(calc(Op::Tanh, k as f32 / 100.0, 0.0).abs() <= 1.0);
    }
    for x in [f32::INFINITY, f32::NEG_INFINITY, f32::MAX, f32::MIN] {
        assert!(calc(Op::Tanh, x, 0.0).abs() <= 1.0);
    }
    assert!(calc(Op::Tanh, f32::NAN, 0.0).is_nan());
}

// --- settings and pitch ----------------------------------------------------

#[test]
fn parameters_reach_both_ends() {
    let alu = Alu { op: native };
    for i in 0..63 {
        let (lo, hi, _) = RANGES[i];
        let (low, high) = (f32::from_bits(lo), f32::from_bits(hi));
        for x in [0.0f32, -0.0, -0.5, f32::NEG_INFINITY] {
            assert_eq!(map_p(&alu, i, x.to_bits()), lo);
        }
        for x in [1.0f32, 1.5, f32::INFINITY] {
            let top = f32::from_bits(map_p(&alu, i, x.to_bits()));
            assert!((top - high).abs() * 10000.0 <= high);
        }
        for k in 0..=100 {
            let y = f32::from_bits(map_p(&alu, i, (k as f32 / 100.0).to_bits()));
            assert!(y >= low && y as f64 * 10000.0 <= high as f64 * 10001.0);
        }
    }
}

#[test]
fn a_hundredth_more_is_heard() {
    let alu = Alu { op: native };
    for i in 0..63 {
        let at = |k: usize| f32::from_bits(map_p(&alu, i, (k as f32 / 90.0).to_bits()));
        for k in 0..90 {
            assert!(at(k) < at(k + 1));
        }
    }
}

#[test]
fn overtones_keep_their_power() {
    let alu = Alu { op: native };
    let mut s: u64 = 21;
    for round in 0..300 {
        let mut q = [0u32; 63];
        q[8] = fraction(&mut s).to_bits();
        for i in 10..26 {
            if draw(&mut s) % 3 != 0 {
                let quiet = if round % 2 == 0 { 1.0 } else { 1e-4 };
                q[i] = (fraction(&mut s) * quiet).to_bits();
            }
        }
        let b = block::block(&alu, &q, SR.to_bits(), 1, 6);
        let level = |i: usize| f32::from_bits(b.w[i]) as f64;
        let power: f64 = (0..16).map(|i| level(i) * level(i)).sum();
        let n = f32::from_bits(b.w_norm) as f64;
        assert!(((power + 1e-9) * n * n - 1.0).abs() <= 1.0 / 20000.0);
        if (0..16).any(|i| level(i) >= 1.0 / 128.0) {
            assert!((power * n * n - 1.0).abs() <= 1.0 / 10000.0);
        }
    }
    let mut q = [0u32; 63];
    q[8] = 0.5f32.to_bits();
    q[10] = 1.0f32.to_bits();
    q[11] = 1.0f32.to_bits();
    q[12] = 1.0f32.to_bits();
    q[13] = 1.0f32.to_bits();
    let b = block::block(&alu, &q, SR.to_bits(), 1, 6);
    assert_eq!(f32::from_bits(b.w_norm), 0.5);
}

#[test]
fn what_a_parameter_stands_for_rises() {
    let alu = Alu { op: native };
    for i in 0..63 {
        let mut last = f32::from_bits(map_p(&alu, i, (-1.0f32).to_bits()));
        for k in -5..=205 {
            let now = f32::from_bits(map_p(&alu, i, (k as f32 / 200.0).to_bits()));
            assert!(now >= last);
            last = now;
        }
    }
}

#[test]
fn octaves_double_and_notes_rise() {
    let pitch = |note: u8| {
        let mut c = engine(SR);
        on(&mut c, note);
        f32::from_bits(c.voices[0].f0)
    };
    let all: Vec<f32> = (0..=127u8).map(pitch).collect();
    for n in 0..127 {
        assert!(all[n] < all[n + 1]);
    }
    for n in 0..=115 {
        assert!((all[n + 12] - 2.0 * all[n]).abs() <= 1e-4 * all[n + 12]);
    }
    assert!(pitch(255) > pitch(254));
}

// --- voices over a block ---------------------------------------------------

#[test]
fn clicks_follow_their_setting() {
    for (level, used) in [(-0.5f32, 0), (0.0, 0), (1e-30, 100), (0.5, 100), (2.0, 100)] {
        let mut c = engine(SR);
        set(&mut c, 5, level);
        set(&mut c, 6, 1.0);
        on(&mut c, 60);
        let given = c.voices[0].tr_samp;
        run(&mut c, 100);
        assert_eq!(c.voices[0].tr_samp, given - used);
    }
}

#[test]
fn a_block_of_57_samples_ends_a_kill() {
    for e in [0.0f32, 1e-30, 9e-5, 1e-4, 0.001, 0.5, 1.0] {
        for n in [57usize, 58, 128] {
            let mut c = engine(SR);
            on(&mut c, 60);
            c.tails[1] = c.voices[0];
            c.tails[1].gate = false;
            c.tails[1].tr_samp = 0;
            c.tails[1].stage = Stage::Kill;
            c.tails[1].env = e.to_bits();
            run(&mut c, n);
            assert!(!c.tails[1].on);
            assert!(env(&c.tails[1]) < 1e-4);
        }
    }
}

#[test]
fn a_kill_from_full_level_lasts_56_samples() {
    for (n, sounds) in [(1usize, true), (55, true), (56, true), (57, false)] {
        let mut c = engine(SR);
        on(&mut c, 60);
        c.tails[0] = c.voices[0];
        c.tails[0].gate = false;
        c.tails[0].tr_samp = 0;
        c.tails[0].stage = Stage::Kill;
        c.tails[0].env = 1.0f32.to_bits();
        run(&mut c, n);
        assert_eq!(c.tails[0].on, sounds);
    }
}

#[test]
fn samples_stay_within_one() {
    let mut c = sounding(&[(0, 1.0), (2, 1.0), (5, 1.0), (7, 1.0), (26, 1.0), (37, 1.0)]);
    for note in [36, 48, 60, 72, 84, 96, 100] {
        on(&mut c, note);
    }
    let mut loudest = 0.0f32;
    for _ in 0..100 {
        for x in run(&mut c, 128) {
            let y = f32::from_bits(x);
            assert!(y.abs() <= 1.0);
            loudest = loudest.max(y.abs());
        }
    }
    assert!(loudest > 0.5);
    for cell in c.table_ptr().iter_mut() {
        *cell = 1e30f32.to_bits();
    }
    for x in run(&mut c, 128) {
        let y = f32::from_bits(x);
        assert!(y.is_nan() || y.abs() <= 1.0);
    }
}

#[test]
fn overtones_passed_over_keep_their_phase() {
    // All sixteen are up. The first eight fit under the load of seven voices.
    let levels: Vec<(usize, f32)> = (10..26).map(|i| (i, 1.0)).chain([(7, 1.0)]).collect();
    let mut c = sounding(&levels);
    for note in [40, 41, 42, 43, 44, 45, 46] {
        on(&mut c, note);
    }
    let load = c.voices.iter().filter(|v| v.on).count();
    let cap = block::partial_cap(load);
    assert!(cap < 16);
    let before = c.voices[1].ph_a;
    run(&mut c, 64);
    let after = c.voices[1].ph_a;
    assert!((0..cap).all(|p| before[p] != after[p]));
    assert!((cap..16).all(|p| before[p] == after[p]));

    // One high note: 8372 cycles per second, so the third is above 0.48 * SR.
    let mut c = engine(SR);
    for i in 10..26 {
        set(&mut c, i, 1.0);
    }
    set(&mut c, 9, 0.0);
    on(&mut c, 120);
    let before = c.voices[0].ph_a;
    run(&mut c, 64);
    let after = c.voices[0].ph_a;
    assert_ne!(before[0], after[0]);
    assert_ne!(before[1], after[1]);
    assert!((2..16).all(|p| before[p] == after[p]));

    // One that is not up at all.
    let mut c = engine(SR);
    for i in 10..26 {
        set(&mut c, i, if i == 12 { 0.0 } else { 1.0 });
    }
    on(&mut c, 60);
    let before = c.voices[0].ph_a;
    run(&mut c, 64);
    let after = c.voices[0].ph_a;
    assert_eq!(before[2], after[2]);
    assert_ne!(before[3], after[3]);
}

#[test]
fn phases_stay_in_bounds() {
    let unit = |x: u32| (0.0..=1.0).contains(&f32::from_bits(x));
    for sr in [8000.0f32, 48000.0, 192000.0] {
        let mut c = engine(sr);
        for (i, x) in [(3, 1.0), (4, 1.0), (7, 1.0), (9, 1.0), (26, 1.0), (28, 1.0), (29, 1.0)] {
            set(&mut c, i, x);
        }
        for i in 10..26 {
            set(&mut c, i, 1.0);
        }
        for note in [0, 40, 60, 69, 90, 108, 120, 127, 20, 30] {
            on(&mut c, note);
        }
        for _ in 0..40 {
            run(&mut c, 128);
            for v in c.voices.iter().chain(c.tails.iter()) {
                let f0 = f32::from_bits(v.f0);
                assert!(v.ph_a.iter().all(|x| unit(*x)));
                assert!(unit(v.g_fade));
                assert!((0.0..=8193.0).contains(&f32::from_bits(v.t)));
                if f0 <= 0.9 * sr {
                    assert!(unit(v.ph_t) && unit(v.ph_t2));
                }
                if f0 * 8.0 <= sr {
                    assert!(unit(v.ph_s));
                }
            }
        }
    }
}

#[test]
fn the_time_of_a_note_stands_still_at_last() {
    let mut c = engine(8000.0);
    on(&mut c, 60);
    c.voices[0].t = 8192.0f32.to_bits();
    run(&mut c, 128);
    assert!(f32::from_bits(c.voices[0].t) <= f32::from_bits(0x4600_0001));
}

#[test]
fn voices_end_only_when_faded() {
    let mut s: u64 = 5;
    let mut c = engine(SR);
    for k in [30, 31, 33] {
        set(&mut c, k, 0.2);
    }
    for _ in 0..400 {
        match draw(&mut s) % 3 {
            0 => on(&mut c, 40 + (draw(&mut s) % 40) as u8),
            1 => {
                let note = c.voices[(draw(&mut s) % 8) as usize].note;
                c.note_off(note);
            }
            _ => {}
        }
        let before: Vec<Voice> = c.voices.iter().chain(c.tails.iter()).copied().collect();
        run(&mut c, 64);
        for (v, w) in before.iter().zip(c.voices.iter().chain(c.tails.iter())) {
            let fading = matches!(w.stage, Stage::Release | Stage::Kill);
            assert!(!v.on || w.on || (fading && env(w) < 1e-4));
            assert!(!w.on || !fading || env(w) >= 1e-4);
        }
    }
}

#[test]
fn envelopes_stay_in_bounds() {
    for sr in [8000.0f32, 44100.0, 192000.0] {
        let mut s: u64 = 17;
        let mut c = engine(sr);
        for step in 0..400 {
            for k in 30..34 {
                set(&mut c, k, fraction(&mut s) * if step % 3 == 0 { 1.0 } else { 0.1 });
            }
            if step % 4 == 0 {
                on(&mut c, 40 + (draw(&mut s) % 40) as u8);
            }
            if step % 6 == 5 {
                let note = c.voices[(draw(&mut s) % 8) as usize].note;
                c.note_off(note);
            }
            let before: Vec<Voice> = c.voices.iter().chain(c.tails.iter()).copied().collect();
            run(&mut c, 100);
            let sustain = f32::from_bits(c.params[32]);
            for (v, w) in before.iter().zip(c.voices.iter().chain(c.tails.iter())) {
                assert!(env(w) >= 0.0 && env(w) <= 1.0);
                if matches!(v.stage, Stage::Release | Stage::Kill) {
                    assert!(env(w) <= env(v));
                }
                if v.stage == Stage::Sustain {
                    assert_eq!(w.stage, Stage::Sustain);
                    assert!(env(w) >= env(v).min(sustain) && env(w) <= env(v).max(sustain));
                }
            }
        }
    }
}

#[test]
fn a_silent_block_is_zero() {
    let mut c = engine(SR);
    for i in [41, 44, 47, 50, 54, 62] {
        set(&mut c, i, 0.001);
    }
    set(&mut c, 37, 1.0);
    for x in run(&mut c, 128) {
        assert_eq!(f32::from_bits(x), 0.0);
    }
    assert_eq!((c.fx.rng, c.fx.drift, c.fx.delay.smp), (0x51f1_5eed, 0, 4800f32.to_bits()));
}

// --- modulation ------------------------------------------------------------

fn sounding(list: &[(usize, f32)]) -> RiotCore {
    let mut c = engine(SR);
    for i in [0, 7, 10, 11, 26, 30, 37, 47, 50] {
        set(&mut c, i, 0.6);
    }
    for (i, x) in list {
        set(&mut c, *i, *x);
    }
    on(&mut c, 50);
    on(&mut c, 62);
    c
}

#[test]
fn routes_without_depth_do_nothing() {
    let sweeps = [(34, 0.9f32), (35, 0.0), (36, 0.0), (38, 0.8), (39, -1.0), (40, 1.0), (3, -0.0)];
    let mut a = sounding(&sweeps);
    let mut b = sounding(&sweeps);
    for k in 0..16 {
        a.set_route(k, k * 4, (0.9f32 - k as f32 * 0.1).to_bits(), (k % 2) as u32);
    }
    a.set_route_count(16);
    for _ in 0..20 {
        assert_eq!(run(&mut a, 128), run(&mut b, 128));
    }
    assert_eq!(a.rng, b.rng);
}

#[test]
fn routes_onto_sweeps_do_nothing() {
    let sweeps = [(34, 0.9f32), (35, 1.0), (36, 1.0), (38, 0.8), (39, 1.0), (40, 0.3)];
    let mut a = sounding(&sweeps);
    let mut b = sounding(&sweeps);
    for (k, i) in [34usize, 35, 36, 38, 39, 40].iter().enumerate() {
        a.set_route(k, *i, 0.7f32.to_bits(), (k % 2) as u32);
    }
    a.set_route_count(6);
    for _ in 0..20 {
        assert_eq!(run(&mut a, 128), run(&mut b, 128));
    }
    // A route onto anything else is heard.
    a.set_route(0, 0, 0.7f32.to_bits(), 0);
    assert_ne!(run(&mut a, 128), run(&mut b, 128));
}

#[test]
fn sweeps_stay_in_bounds() {
    let mut c = sounding(&[(34, 1.0), (35, 1.0), (36, 1.0), (38, 1.0), (39, 1.0), (40, 0.3)]);
    for _ in 0..500 {
        run(&mut c, 128);
        for l in [&c.lfo, &c.lfo2] {
            assert!((0.0..=1.0).contains(&f32::from_bits(l.ph)));
            assert!((0.0..=1.0).contains(&f32::from_bits(l.sh_ph)));
            assert!((-1.0..=1.0).contains(&f32::from_bits(l.sh)));
        }
    }
}

#[test]
fn sweeps_turn_once_at_most() {
    let mut c = engine(8000.0);
    for (i, x) in [(34, 1.0), (35, 1.0), (36, 1.0), (38, 1.0), (39, 1.0), (40, 0.3)] {
        set(&mut c, i, x);
    }
    on(&mut c, 60);
    for _ in 0..500 {
        let before = [c.lfo.ph, c.lfo2.ph].map(f32::from_bits);
        run(&mut c, 128);
        let after = [c.lfo.ph, c.lfo2.ph].map(f32::from_bits);
        for k in 0..2 {
            assert!((0.0..=1.0).contains(&after[k]));
            // 30 cycles per second, 128 samples of 8000: 0.48 of a turn.
            let moved = after[k] - before[k];
            let turned = if moved < 0.0 { moved + 1.0 } else { moved };
            assert!((turned - 0.48).abs() < 0.001);
        }
    }
}

// --- the texture -----------------------------------------------------------

#[test]
fn samples_of_the_table_are_read_back() {
    let alu = Alu { op: native };
    let c = engine(SR);
    for fi in 0..5 {
        for i in 0..2048usize {
            let ph = (i as f32 / 2048.0).to_bits();
            let (a, b) = (c.table[fi * 2048 + i], c.table[(fi + 1) * 2048 + i]);
            assert_eq!(f32::from_bits(read_table(&alu, &c.table, fi, 0, ph)), f32::from_bits(a));
            let (x, y) = (f32::from_bits(a), f32::from_bits(b));
            let half = f32::from_bits(read_table(&alu, &c.table, fi, 0.5f32.to_bits(), ph));
            assert_eq!(half, x + (y - x) * 0.5);
        }
    }
}

#[test]
fn readings_are_no_larger_than_the_samples() {
    let alu = Alu { op: native };
    let mut c = engine(SR);
    let mut s: u64 = 3;
    for cell in c.table_ptr().iter_mut() {
        *cell = number(&mut s).to_bits();
    }
    for _ in 0..20000 {
        let fi = (draw(&mut s) % 63) as usize;
        let (ff, ph) = (fraction(&mut s), fraction(&mut s));
        let r = f32::from_bits(read_table(&alu, &c.table, fi, ff.to_bits(), ph.to_bits()));
        let i = (ph * 2048.0) as usize % 2048;
        let j = (i + 1) % 2048;
        let most = [fi * 2048 + i, fi * 2048 + j, (fi + 1) * 2048 + i, (fi + 1) * 2048 + j]
            .iter()
            .map(|k| f32::from_bits(c.table[*k]).abs() as f64)
            .fold(0.0, f64::max);
        assert!(r.abs() as f64 * 100000.0 <= most * 100001.0);
    }
}

#[test]
fn readings_use_two_frames() {
    let alu = Alu { op: native };
    let mut s: u64 = 9;
    let mut c = engine(SR);
    let full = c.table.clone();
    for (k, cell) in c.table_ptr().iter_mut().enumerate() {
        if !(3 * 2048..5 * 2048).contains(&k) {
            *cell = f32::NAN.to_bits();
        }
    }
    for _ in 0..5000 {
        let (ff, ph) = (fraction(&mut s).to_bits(), fraction(&mut s).to_bits());
        assert_eq!(read_table(&alu, &c.table, 3, ff, ph), read_table(&alu, &full, 3, ff, ph));
    }
}

#[test]
fn the_factory_frames_leave_the_rest_alone() {
    let alu = Alu { op: native };
    let mut c = engine(SR);
    for cell in c.table_ptr().iter_mut() {
        *cell = 77;
    }
    fill_factory(&alu, c.table_ptr());
    assert!(c.table[6 * 2048..].iter().all(|x| *x == 77));
    assert!(c.table[..6 * 2048].iter().all(|x| *x != 77));
}

// --- the rack --------------------------------------------------------------

fn through(q: &[u32; 63], out: &mut Vec<u32>) -> Fx {
    let mut s = Fx::new();
    s.delay.ring[126400] = 0.5f32.to_bits();
    s.process_fx(&Alu { op: native }, SR.to_bits(), q, out);
    s
}

#[test]
fn sections_follow_one_another() {
    let q = settings(&[
        (41, 0.5), (42, 0.5), (43, 0.5), (44, 0.5), (45, 0.5), (46, 0.5), (47, 0.5), (48, 0.5),
        (49, 1.0), (50, 0.5), (51, 0.1), (52, 0.5), (53, 0.5), (54, 0.5), (55, 0.5), (56, 0.5),
        (57, 0.5), (58, 0.5), (59, 0.2), (60, 0.5), (61, 0.7), (62, 0.7),
    ]);
    let mut whole = wave(3000);
    let s = through(&q, &mut whole);
    let mut parts = wave(3000);
    let mut only = |off: &[usize]| {
        let mut p = q;
        for i in off {
            p[*i] = 0;
        }
        through(&p, &mut parts)
    };
    let d = only(&[41, 44, 47, 50, 54]);
    let a = only(&[62, 50, 54]);
    let h = only(&[62, 41, 44, 47]);
    assert_eq!(whole, parts);
    assert_eq!((s.dist.dc_y, s.phaser.fb, s.delay.lp), (d.dist.dc_y, a.phaser.fb, h.delay.lp));
}

#[test]
fn settings_of_unheard_sections_do_nothing() {
    let cases: [(&[usize], &[usize]); 6] = [
        (&[62], &[58, 59, 60, 61]),
        (&[41], &[42, 43]),
        (&[44], &[45, 46]),
        (&[47], &[48]),
        (&[41, 44, 47], &[42, 43, 45, 46, 48, 49]),
        (&[50, 54], &[51, 52, 53, 55, 56, 57]),
    ];
    for (mixes, own) in cases {
        let mut q = [0.4f32.to_bits(); 63];
        for i in mixes {
            q[*i] = 0.001f32.to_bits();
        }
        let mut p = q;
        for i in own {
            p[*i] = 0.9f32.to_bits();
        }
        let (mut a, mut b) = (wave(500), wave(500));
        let s = through(&q, &mut a);
        let t = through(&p, &mut b);
        assert_eq!(a, b);
        assert_eq!((s.rng, s.drift, s.trem_ph), (t.rng, t.drift, t.trem_ph));
        assert_eq!((s.dist.dc_y, s.phaser.ph, s.chorus.w), (t.dist.dc_y, t.phaser.ph, t.chorus.w));
        assert_eq!((s.delay.w, s.reverb.l0.i), (t.delay.w, t.reverb.l0.i));
        // Only the delay time and the line lengths glide on unheard.
        assert_eq!(s.delay.smp == t.delay.smp, !own.contains(&51));
        assert_eq!(s.reverb.l3.len == t.reverb.l3.len, !own.contains(&55));
    }
}

#[test]
fn lengths_places_and_counts_stay_in_bounds() {
    let alu = Alu { op: native };
    for sr in [8000.0f32, 48000.0, 192000.0] {
        let mut s = Fx::new();
        let mut r: u64 = 3;
        for step in 0..200 {
            let mut q = settings(&[(54, 0.5), (62, 0.5), (59, 0.8)]);
            q[55] = fraction(&mut r).to_bits();
            q[58] = fraction(&mut r).to_bits();
            if step % 5 == 0 {
                q[55] = 1.0f32.to_bits();
            }
            let mut out = wave(256);
            s.process_fx(&alu, sr.to_bits(), &q, &mut out);
            for l in [&s.reverb.l0, &s.reverb.l1, &s.reverb.l2, &s.reverb.l3] {
                assert!((0.0..=16380.0).contains(&f32::from_bits(l.len)));
                assert!(l.i <= 16380);
            }
            assert!(s.dist.crush_cnt >= 0);
        }
    }
}

#[test]
fn low_mixes_bypass_the_rack() {
    let mut q = [0.7f32.to_bits(); 63];
    for (i, x) in [(41, 0.001f32), (44, 0.0), (47, -3.0), (50, 1e-9), (54, 0.001), (62, -0.0)] {
        q[i] = x.to_bits();
    }
    let mut out = wave(100);
    let s = through(&q, &mut out);
    assert_eq!(out, wave(100));
    assert_eq!((s.rng, s.drift, s.delay.smp), (0x51f1_5eed, 0, 4800f32.to_bits()));
}

#[test]
fn sweeps_of_the_rack_stay_in_bounds() {
    let unit = |x: u32| (0.0..=1.0).contains(&f32::from_bits(x));
    let alu = Alu { op: native };
    for sr in [8000.0f32, 48000.0, 192000.0] {
        let q = settings(&[
            (41, 1.0),
            (42, 1.0),
            (44, 1.0),
            (45, 1.0),
            (47, 1.0),
            (48, 1.0),
            (49, 1.0),
            (50, 1.0),
            (51, 1.0),
        ]);
        let mut s = Fx::new();
        let mut moved = false;
        for _ in 0..60 {
            let mut out = wave(128);
            s.process_fx(&alu, sr.to_bits(), &q, &mut out);
            assert!(f32::from_bits(s.drift).abs() <= 1.0);
            assert!(unit(s.phaser.ph) && unit(s.chorus.ph) && unit(s.trem_ph));
            let smp = f32::from_bits(s.delay.smp);
            assert!((0.0..=131068.0).contains(&smp));
            moved = moved || smp != 4800.0;
        }
        assert!(moved);
    }
}
