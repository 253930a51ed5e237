//! Whole sessions: notes, settings, routes and frames at random, block after
//! block, with every sample and the end state folded into a checksum.

use overtone_riot::alu::{Alu, Op};
use overtone_riot::RiotCore;

/// Arithmetic with exact basic operations and rational stand-ins for the
/// others, so that what is expected does not hang on a mathematics library.
fn plain(op: Op, x: u32, y: u32) -> u32 {
    let a = f32::from_bits(x);
    let b = f32::from_bits(y);
    let r = match op {
        Op::Add => a + b,
        Op::Sub => a - b,
        Op::Mul => a * b,
        Op::Div => a / b,
        Op::Pow => {
            if b >= 0.0 {
                1.0 + b * (a - 1.0)
            } else {
                1.0 / (1.0 - b * (a - 1.0))
            }
        }
        Op::Sin => {
            let t = a / 6.283_185_3;
            let u = t - t.floor() - 0.5;
            -8.0 * u * (1.0 - 2.0 * u.abs())
        }
        Op::Asin => a * (1.0 + 0.2 * a * a),
        Op::Tanh => a / (1.0 + a.abs()),
        Op::Exp => {
            if a > 0.0 {
                1.0 + a + 0.5 * a * a
            } else {
                1.0 / (1.0 - a + 0.5 * a * a)
            }
        }
        Op::Sqrt => a.sqrt(),
    };
    r.to_bits()
}

fn tick(t: u64, n: usize, dt: u32) -> u64 {
    (f64::from_bits(t) + n as f64 * f32::from_bits(dt) as f64).to_bits()
}

fn draw(s: &mut u64) -> u32 {
    *s = s.wrapping_mul(6364136223846793005).wrapping_add(1442695040888963407);
    (*s >> 33) as u32
}

fn fraction(s: &mut u64) -> f32 {
    (draw(s) % 10001) as f32 / 10000.0
}

fn fold(sum: &mut u64, x: u64) {
    *sum = (*sum ^ x).wrapping_mul(0x0000_0100_0000_01b3);
}

fn session(seed: u64, sr: f32, steps: usize, dry: bool, curve: Option<f32>) -> u64 {
    let alu = Alu { op: plain };
    let mut s = seed;
    let mut sum: u64 = 0xcbf2_9ce4_8422_2325;
    let mut core = RiotCore::new(&alu, sr.to_bits());
    for k in 0..63 {
        let x = if dry && k > 40 { 0.0 } else { fraction(&mut s) };
        core.params_ptr()[k] = x.to_bits();
    }
    if let Some(c) = curve {
        core.params_ptr()[59] = c.to_bits();
        core.params_ptr()[62] = 0.8f32.to_bits();
    }
    for step in 0..steps {
        let r = draw(&mut s) % 10;
        if r < 4 {
            let note = (30 + draw(&mut s) % 70) as u8;
            let vel = fraction(&mut s);
            core.note_on(&alu, note, vel.to_bits());
        } else if r < 6 {
            let i = (draw(&mut s) % 8) as usize;
            let note = core.voices[i].note;
            core.note_off(note);
        } else if r == 6 {
            let k = (draw(&mut s) % if dry { 41 } else { 63 }) as usize;
            let x = fraction(&mut s) * 1.4 - 0.2;
            core.params_ptr()[k] = x.to_bits();
        } else if r == 7 {
            let slot = (draw(&mut s) % 18) as usize;
            let param = (draw(&mut s) % 70) as usize;
            let depth = fraction(&mut s) - 0.5;
            let src = draw(&mut s) % 3;
            let param = if dry { param % 40 } else { param };
            core.set_route(slot, param, depth.to_bits(), src);
            core.set_route_count((draw(&mut s) % 20) as usize);
        } else if r == 8 && step % 5 == 0 {
            core.set_table_frames((draw(&mut s) % 10) as usize);
        } else if r == 9 && step % 11 == 0 {
            core.panic();
        }
        let n = if step % 7 == 0 { 1 + (draw(&mut s) % 300) as usize } else { 128 };
        let mut out = vec![0u32; n];
        core.process(&alu, &tick, &mut out);
        for x in out {
            assert!(f32::from_bits(x).abs() <= 1.0);
            fold(&mut sum, x as u64);
        }
    }
    for v in core.voices.iter().chain(core.tails.iter()) {
        fold(&mut sum, v.on as u64);
        fold(&mut sum, v.env as u64);
        fold(&mut sum, v.ph_s as u64);
        fold(&mut sum, v.tr_samp as u64);
    }
    fold(&mut sum, core.rng as u64);
    fold(&mut sum, core.fx.rng as u64);
    fold(&mut sum, core.clock);
    sum
}

#[test]
fn wet_sessions() {
    assert_eq!(session(1, 48000.0, 120, false, None), 17704753891846733352);
    assert_eq!(session(2, 44100.0, 120, false, None), 3338190553883972325);
}

#[test]
fn dry_sessions() {
    assert_eq!(session(3, 96000.0, 120, true, None), 2242637612939664503);
    assert_eq!(session(4, 48000.0, 120, true, None), 4043005395107439925);
}

#[test]
fn sessions_through_each_curve() {
    let sums: [u64; 6] = [
        8637241694972504567,
        4510092957217893147,
        12564070027376880274,
        12326913836240277124,
        17074503732238102442,
        16979186593004998809,
    ];
    for k in 0..6 {
        let curve = Some(k as f32 / 5.0);
        assert_eq!(session(100 + k as u64, 8000.0, 60, false, curve), sums[k]);
    }
}
