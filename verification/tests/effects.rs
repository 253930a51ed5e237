//! The effect rack, section by section and as a whole.

use overtone_riot::alu::{Alu, Op};
use overtone_riot::fx::analog;
use overtone_riot::fx::analog::{Chorus, Phaser};
use overtone_riot::fx::distortion;
use overtone_riot::fx::distortion::{Curve, Distortion, DistortionBlock};
use overtone_riot::fx::hybrid;
use overtone_riot::fx::hybrid::{Delay, Reverb};
use overtone_riot::fx::ring;
use overtone_riot::fx::Fx;
use overtone_riot::rng;

const TAU: f32 = 6.283_185_3;
const PI: f32 = std::f32::consts::PI;
const SR: f32 = 48000.0;

fn native(op: Op, x: u32, y: u32) -> u32 {
    let a = f32::from_bits(x);
    let b = f32::from_bits(y);
    let r = match op {
        Op::Add => a + b,
        Op::Sub => a - b,
        Op::Mul => a * b,
        Op::Div => a / b,
        Op::Pow => a.powf(b),
        Op::Sin => a.sin(),
        Op::Asin => a.asin(),
        Op::Tanh => a.tanh(),
        Op::Exp => a.exp(),
        Op::Sqrt => a.sqrt(),
    };
    r.to_bits()
}

/// Keeps the compiler from working out what is expected ahead of time, with
/// functions that may round differently.
fn later(x: f32) -> f32 {
    std::hint::black_box(x)
}

fn f(x: u32) -> f32 {
    f32::from_bits(x)
}

fn settings(list: &[(usize, f32)]) -> [u32; 63] {
    let mut q = [0u32; 63];
    for (i, x) in list {
        q[*i] = x.to_bits();
    }
    q
}

fn ramp(n: usize) -> Vec<u32> {
    (0..n).map(|i| (0.3 * (i as f32 * 0.7).sin()).to_bits()).collect()
}

// --- distortion ------------------------------------------------------------

#[test]
fn curves_by_number() {
    assert_eq!(distortion::curve(0), Curve::Clip);
    assert_eq!(distortion::curve(1), Curve::Push);
    assert_eq!(distortion::curve(2), Curve::Slew);
    assert_eq!(distortion::curve(3), Curve::Comp);
    assert_eq!(distortion::curve(4), Curve::Crush);
    assert_eq!(distortion::curve(5), Curve::Scream);
    assert_eq!(distortion::curve(6), Curve::Scream);
    assert_eq!(distortion::curve(u32::MAX), Curve::Scream);
}

#[test]
fn constants_of_the_distortion() {
    let alu = Alu { op: native };
    let q = settings(&[(58, 0.5), (59, 0.55), (60, 0.25), (61, 0.75), (62, 0.9)]);
    let b = distortion::block(&alu, &q, SR.to_bits());
    assert_eq!(b.curve, Curve::Comp);
    assert_eq!(f(b.mix), 0.9);
    assert_eq!(f(b.gain), 1.0 + 0.5 * 0.5 * 59.0);
    assert_eq!(f(b.offset), (0.75 - 0.5) * 0.6);
    let cutoff = 300.0 * 2f32.powf(later(0.25 * 4.0));
    assert_eq!(f(b.tone_k), 1.0 - (-TAU * cutoff / SR).exp());
    assert_eq!(f(b.slew), 0.45 / (1.0 + 0.5 * 14.0));
    assert_eq!(f(b.crush_q), 2f32.powf(later(12.0 - 0.5 * 10.0)));
    assert_eq!(b.crush_n, 12);
    let low = 120.0 * 2f32.powf(later(0.25 * 4.5)) / SR;
    assert_eq!(f(b.scr_f), (PI * low.min(0.45)).sin());
    assert_eq!(f(b.scr_fb), 0.5 * 1.35);
}

fn dist_block(curve: Curve) -> DistortionBlock {
    let alu = Alu { op: native };
    let q = settings(&[(58, 0.5), (60, 0.25), (61, 0.75), (62, 0.75)]);
    let mut b = distortion::block(&alu, &q, SR.to_bits());
    b.curve = curve;
    b
}

/// What the curve's value `y` becomes behind a curve at rest.
fn finish(b: &DistortionBlock, x: f32, y: f32) -> f32 {
    let low = 0.0 + f(b.tone_k) * (y - 0.0);
    let tilted = low * (1.45 - 0.25 * 0.9) + (y - low) * (0.55 + 0.25 * 0.9);
    let wet = tilted - 0.0 + 0.995 * 0.0;
    x * (1.0 - 0.75) + wet * 0.75
}

fn driven(b: &DistortionBlock, x: f32) -> f32 {
    x * f(b.gain) + f(b.offset)
}

#[test]
fn clip_curve() {
    let alu = Alu { op: native };
    let b = dist_block(Curve::Clip);
    for x in [0.01f32, 0.5, -0.5] {
        let v = driven(&b, x);
        let y = if v > 1.0 {
            0.6667
        } else if v < -1.0 {
            -0.6667
        } else {
            v - v * v * v / 3.0
        };
        let mut s = Distortion::new();
        assert_eq!(f(s.step(&alu, &b, x.to_bits())), finish(&b, x, y * 1.5));
    }
}

#[test]
fn push_curve() {
    let alu = Alu { op: native };
    let b = dist_block(Curve::Push);
    for x in [-0.0094f32, 0.3, -0.3] {
        let mut v = driven(&b, x);
        let notch = 0.02 + 0.75 * 0.05;
        if v.abs() < notch {
            v *= v.abs() / notch;
        }
        let lean = (0.75 - 0.5) * 0.8;
        let y = if v >= 0.0 { (v * (1.0 + lean)).tanh() } else { (v * (1.0 - lean)).tanh() };
        let mut s = Distortion::new();
        assert_eq!(f(s.step(&alu, &b, x.to_bits())), finish(&b, x, y));
    }
}

#[test]
fn slew_curve() {
    let alu = Alu { op: native };
    let b = dist_block(Curve::Slew);
    for x in [0.5f32, -0.5, -0.009] {
        let v = driven(&b, x);
        let moved = v.clamp(-f(b.slew), f(b.slew));
        let mut s = Distortion::new();
        let r = f(s.step(&alu, &b, x.to_bits()));
        assert_eq!(f(s.slew_y), moved);
        assert_eq!(r, finish(&b, x, moved.clamp(-0.9, 0.9) / 0.9));
    }
}

#[test]
fn comp_curve() {
    let alu = Alu { op: native };
    let b = dist_block(Curve::Comp);
    let x = 0.25f32;
    let e = 0.0 + (0.25 - 0.0) * 0.012;
    let y = (driven(&b, x) * (1.0 + 0.5 * 7.0) / (1.0 + e * 0.5 * 11.0) * 0.6).tanh();
    let mut s = Distortion::new();
    assert_eq!(f(s.step(&alu, &b, x.to_bits())), finish(&b, x, y));
    assert_eq!(f(s.comp_env), e);
    s.step(&alu, &b, 0);
    assert_eq!(f(s.comp_env), e + (0.0 - e) * 0.0009);
}

#[test]
fn crush_curve_holds_its_samples() {
    let alu = Alu { op: native };
    let b = dist_block(Curve::Crush);
    assert_eq!(b.crush_n, 12);
    let mut s = Distortion::new();
    let x = 0.1f32;
    let hold = driven(&b, x).tanh();
    let y = (hold * f(b.crush_q)).round() / f(b.crush_q);
    assert_eq!(f(s.step(&alu, &b, x.to_bits())), finish(&b, x, y));
    for k in 1..12 {
        s.step(&alu, &b, 0.7f32.to_bits());
        assert_eq!((f(s.crush_hold), s.crush_cnt), (hold, 12 - k));
    }
    s.step(&alu, &b, 0.7f32.to_bits());
    assert_eq!((f(s.crush_hold), s.crush_cnt), (driven(&b, 0.7).tanh(), 12));
}

#[test]
fn scream_curve() {
    let alu = Alu { op: native };
    let b = dist_block(Curve::Scream);
    let mut s = Distortion::new();
    s.scr_bp = 0.5f32.to_bits();
    s.scr_lp = 0.25f32.to_bits();
    s.scr_env = 0.5f32.to_bits();
    let x = 0.1f32;
    let y = (driven(&b, x) + 0.5 * f(b.scr_fb) * (1.0 + 0.5 * 0.5)).tanh();
    let hp = y - 0.25 - 0.18 * 0.5;
    let bp = (0.5 + f(b.scr_f) * hp).clamp(-3.0, 3.0);
    assert_eq!(f(s.step(&alu, &b, x.to_bits())), finish(&b, x, y * 0.92));
    assert_eq!(f(s.scr_bp), bp);
    assert_eq!(f(s.scr_lp), 0.25 + f(b.scr_f) * bp);
    assert_eq!(f(s.scr_env), 0.5 + (y.abs() - 0.5) * 0.004);
}

#[test]
fn scream_stays_within_its_rails() {
    let alu = Alu { op: native };
    let mut b = dist_block(Curve::Scream);
    b.scr_f = 50.0f32.to_bits();
    let mut s = Distortion::new();
    for x in ramp(200) {
        s.step(&alu, &b, x);
        assert!(f(s.scr_bp).abs() <= 3.0);
    }
}

// --- analog ----------------------------------------------------------------

#[test]
fn drift_pulls_at_the_analog_section() {
    let alu = Alu { op: native };
    let q = settings(&[(42, 0.5), (45, 0.5), (46, 0.5), (48, 0.5)]);
    let d = 0.3f32;
    let b = analog::block(&alu, &q, SR.to_bits(), d.to_bits());
    let half = later(0.5);
    assert_eq!(f(b.phaser_rate), 0.05 * (8.0f32 / 0.05).powf(half) * (1.0 + d * 0.07));
    assert_eq!(f(b.chorus_rate), 0.1 * (5.0f32 / 0.1).powf(half) * (1.0 + d * 0.05));
    assert_eq!(f(b.chorus_depth), 0.5 * (1.0 + d * 0.1) * 0.009 * SR);
    assert_eq!(f(b.chorus_base), 0.012 * SR);
    assert_eq!(f(b.trem_rate), 0.5 * (12.0f32 / 0.5).powf(half) * (1.0 + d * 0.04));
}

#[test]
fn phaser_step() {
    let alu = Alu { op: native };
    let q = settings(&[(41, 0.5), (42, 0.5), (43, 0.5)]);
    let b = analog::block(&alu, &q, SR.to_bits(), 0);
    let mut s = Phaser::new();
    s.fb = 0.2f32.to_bits();
    for k in 0..6 {
        s.ap_x[k] = (0.1 * k as f32).to_bits();
        s.ap_y[k] = (0.05 * k as f32).to_bits();
    }
    let old = s;
    let x = 0.4f32;
    let r = f(s.step(&alu, &b, x.to_bits()));
    let ph = 0.0 + f(b.phaser_rate) * (1.0 / SR);
    let sweep = 0.5 + 0.5 * (TAU * ph).sin();
    let wc = PI * (220.0 * 2f32.powf(sweep * 3.4)) / SR;
    let a = (1.0 - wc) / (1.0 + wc);
    let mut t = x + 0.2 * (0.9 * 0.5);
    for k in 0..6 {
        let y = a * (t - f(old.ap_y[k])) + f(old.ap_x[k]);
        assert_eq!((f(s.ap_x[k]), f(s.ap_y[k])), (t, y));
        t = y;
    }
    assert_eq!(f(s.fb), t);
    assert_eq!(r, (x + t * 0.5) / (1.0 + 0.5 * 0.35));
}

#[test]
fn chorus_step() {
    let alu = Alu { op: native };
    let q = settings(&[(44, 0.5), (45, 0.5), (46, 0.5)]);
    let b = analog::block(&alu, &q, SR.to_bits(), 0);
    let mut s = Chorus::new();
    for i in 0..8192 {
        s.ring[i] = (i as f32).to_bits();
    }
    s.w = 8191;
    let x = 0.4f32;
    let r = f(s.step(&alu, &b, x.to_bits()));
    let ph = f(b.chorus_rate) * (1.0 / SR);
    let tap = |d: f32| {
        let p = 8191.0 - d;
        let i = p.floor();
        i + ((i + 1.0) - i) * (p - i)
    };
    let d1 = f(b.chorus_base) + f(b.chorus_depth) * (0.5 + 0.5 * (TAU * ph).sin());
    let d2 = f(b.chorus_base) * 1.31 + f(b.chorus_depth) * (0.5 + 0.5 * (TAU * ph + 2.094).sin());
    let sum = 0.0 + tap(d1) + tap(d2);
    assert_eq!(r, x * (1.0 - 0.5 * 0.5) + sum * 0.5 * 0.5);
    assert_eq!((s.w, f(s.ring[8191])), (0, x));
}

#[test]
fn tremolo_step() {
    let alu = Alu { op: native };
    let q = settings(&[(47, 0.5), (48, 0.5)]);
    let b = analog::block(&alu, &q, SR.to_bits(), 0);
    let (ph, y) = analog::tremble(&alu, &b, 0.9999f32.to_bits(), 0.4f32.to_bits());
    let p = 0.9999 + f(b.trem_rate) * (1.0 / SR);
    let p = if p >= 1.0 { p - 1.0 } else { p };
    assert_eq!(f(ph), p);
    assert_eq!(f(y), 0.4 * (1.0 - 0.5 * (0.5 + 0.5 * (TAU * p).sin())));
}

// --- rings -----------------------------------------------------------------

#[test]
fn rings_wrap_like_a_mask() {
    for x in [0.0f32, 1.0, 8191.0, 8192.0, 100000.0, -1.0, -8192.0, -8193.0, -1e9, 1e30, -1e30, f32::NAN] {
        let i = x as isize as usize;
        assert_eq!(ring::wrap(x.to_bits(), 8192), i & 8191);
        assert_eq!(ring::wrap(x.to_bits(), 131072), i & 131071);
    }
    assert_eq!(ring::wrap((-1.0f32).to_bits(), 10), 9);
}

#[test]
fn taps_lie_between_two_cells() {
    let alu = Alu { op: native };
    let cells = [1.0f32.to_bits(), 2.0f32.to_bits(), 4.0f32.to_bits(), 8.0f32.to_bits()];
    let tap = |w: usize, d: f32| f(ring::tap(&alu, &cells, w, d.to_bits()));
    assert_eq!(tap(2, 0.0), 4.0);
    assert_eq!(tap(2, 0.5), 3.0);
    assert_eq!(tap(0, 1.0), 8.0);
    assert_eq!(tap(0, 0.5), 4.5);
    assert_eq!(tap(1, 10.0), 8.0);
}

// --- hybrid ----------------------------------------------------------------

#[test]
fn constants_of_the_hybrid_section() {
    let alu = Alu { op: native };
    let q = settings(&[(50, 0.4), (51, 1.0), (52, 0.5), (53, 0.25), (54, 0.6), (55, 0.5), (56, 0.5), (57, 0.7)]);
    let b = hybrid::block(&alu, &q, SR.to_bits());
    assert_eq!((f(b.delay_mix), f(b.reverb_mix), f(b.bleed)), (0.4, 0.6, 0.7));
    assert_eq!(f(b.delay_fb), 0.95 * 0.5);
    assert_eq!(f(b.color_k), 1.0 - (-TAU * (400.0 * 2f32.powf(later(0.25 * 4.6))) / SR).exp());
    assert_eq!(f(b.delay_goal), 0.02 * (1.2f32 / 0.02).powf(later(1.0)) * SR);
    assert_eq!(f(b.reverb_gain), 0.72 + 0.5 * 0.26);
    let scale = (0.4 + 0.5 * 1.1) * (SR / 48000.0);
    for (k, prime) in [1687.0f32, 2039.0, 2503.0, 3023.0].iter().enumerate() {
        assert_eq!(f(b.line_goals[k]), prime * scale);
    }
    assert_eq!((b.span1, b.span2), (142, 379));
    // At a high rate every length stops at the end of its ring.
    let b = hybrid::block(&alu, &q, 768000f32.to_bits());
    assert_eq!(f(b.delay_goal), 131068.0);
    assert_eq!(f(b.line_goals[3]), 16380.0);
    assert_eq!((b.span1, b.span2), (510, 1022));
}

#[test]
fn delay_repeats_what_went_in() {
    let alu = Alu { op: native };
    let q = settings(&[(50, 1.0), (52, 1.0), (53, 1.0)]);
    let b = hybrid::block(&alu, &q, SR.to_bits());
    let mut s = Delay::new();
    s.smp = 100.0f32.to_bits();
    let first = s.step(&alu, &b, 0.8f32.to_bits());
    assert_eq!(f(first), 0.0);
    for _ in 1..100 {
        assert_eq!(f(s.step(&alu, &b, 0)), 0.0);
    }
    assert_eq!(f(s.step(&alu, &b, 0)), 0.8);
    let damped = 0.0 + f(b.color_k) * (0.8 - 0.0);
    assert_eq!(f(s.lp), damped);
    assert_eq!(f(s.ring[100]), 0.0 + damped * 0.95);
}

#[test]
fn delay_time_glides() {
    let alu = Alu { op: native };
    let q = settings(&[(51, 1.0)]);
    let b = hybrid::block(&alu, &q, SR.to_bits());
    let mut s = Delay::new();
    assert_eq!(f(s.smp), 4800.0);
    s.glide(&alu, &b);
    assert_eq!(f(s.smp), 4800.0 + (f(b.delay_goal) - 4800.0) * 0.03);
}

#[test]
fn delay_ring_comes_round() {
    let alu = Alu { op: native };
    let b = hybrid::block(&alu, &settings(&[]), SR.to_bits());
    let mut s = Delay::new();
    s.w = 131071;
    s.step(&alu, &b, 0.5f32.to_bits());
    assert_eq!((s.w, f(s.ring[131071])), (0, 0.5));
}

#[test]
fn reverb_step() {
    let alu = Alu { op: native };
    let q = settings(&[(54, 1.0), (56, 0.5), (57, 0.5)]);
    let b = hybrid::block(&alu, &q, SR.to_bits());
    let mut s = Reverb::new();
    s.ap1.ring[0] = 0.1f32.to_bits();
    s.ap2.ring[0] = 0.2f32.to_bits();
    s.l0.ring[0] = 0.3f32.to_bits();
    s.l1.ring[0] = 0.4f32.to_bits();
    s.l2.ring[0] = 0.5f32.to_bits();
    s.l3.ring[0] = 0.6f32.to_bits();
    s.l3.i = 5000;
    let wet = f(s.step(&alu, &b, 0.7f32.to_bits(), 0.2f32.to_bits()));
    let d = (0.7 + 0.2 * 0.5) * 0.55;
    let t1 = d + 0.5 * 0.1;
    let d = 0.1 - 0.5 * t1;
    let t2 = d + 0.5 * 0.2;
    let d = 0.2 - 0.5 * t2;
    assert_eq!((f(s.ap1.ring[0]), s.ap1.i), (t1, 1));
    assert_eq!((f(s.ap2.ring[0]), s.ap2.i), (t2, 1));
    let lp: Vec<f32> = [0.3f32, 0.4, 0.5, 0.6].iter().map(|r| 0.0 + 0.35 * (r - 0.0)).collect();
    let g = 0.72 + 0.5 * 0.26;
    assert_eq!(f(s.l0.ring[0]), d + g * ((lp[0] + lp[1] + lp[2] + lp[3]) * 0.5));
    assert_eq!(f(s.l1.ring[0]), d + g * ((lp[0] - lp[1] + lp[2] - lp[3]) * 0.5));
    assert_eq!(f(s.l2.ring[0]), d + g * ((lp[0] + lp[1] - lp[2] - lp[3]) * 0.5));
    assert_eq!(f(s.l3.ring[0]), d + g * ((lp[0] - lp[1] - lp[2] + lp[3]) * 0.5));
    // The last line had run past its length and started over.
    assert_eq!((s.l0.i, s.l3.i), (1, 1));
    assert_eq!(wet, (lp[0] + lp[1] + lp[2] + lp[3]) * 0.35);
}

#[test]
fn reverb_lines_glide_and_keep_a_least_length() {
    let alu = Alu { op: native };
    let b = hybrid::block(&alu, &settings(&[]), SR.to_bits());
    let mut s = Reverb::new();
    s.glide(&alu, &b);
    assert_eq!(f(s.l0.len), 1687.0 + (1687.0 * 0.4 - 1687.0) * 0.02);
    s.l0.len = 3.0f32.to_bits();
    s.l0.i = 31;
    s.l1.len = 3.0f32.to_bits();
    s.l1.i = 32;
    s.step(&alu, &b, 0, 0);
    assert_eq!((s.l0.i, s.l1.i), (32, 1));
}

#[test]
fn reverb_lines_end_with_their_ring() {
    let alu = Alu { op: native };
    let b = hybrid::block(&alu, &settings(&[]), SR.to_bits());
    let mut s = Reverb::new();
    s.l0.len = 1e9f32.to_bits();
    s.l0.i = 16384;
    s.step(&alu, &b, 0, 0);
    assert_eq!(s.l0.i, 1);
}

// --- the rack --------------------------------------------------------------

#[test]
fn a_bypassed_rack_changes_nothing() {
    let alu = Alu { op: native };
    let q = settings(&[(62, 0.001), (41, 0.0), (44, -1.0), (47, 0.0005), (50, 0.001), (54, 0.0), (58, 1.0)]);
    let mut s = Fx::new();
    let mut out = ramp(64);
    s.process_fx(&alu, SR.to_bits(), &q, &mut out);
    assert_eq!(out, ramp(64));
    assert_eq!((s.rng, s.drift, s.delay.w), (0x51f1_5eed, 0, 0));
}

#[test]
fn each_mix_opens_its_section_only() {
    let alu = Alu { op: native };
    for i in [62usize, 41, 44, 47, 50, 54] {
        let mut s = Fx::new();
        let mut out = ramp(64);
        s.process_fx(&alu, SR.to_bits(), &settings(&[(i, 0.5)]), &mut out);
        assert_ne!(s.rng, 0x51f1_5eed);
        assert_eq!(s.dist.dc_y != 0, i == 62);
        assert_eq!(s.phaser.ph != 0, i == 41);
        assert_eq!(s.chorus.w, if i == 44 { 64 } else { 0 });
        assert_eq!(s.trem_ph != 0, i == 47);
        assert_eq!(s.delay.w, if i == 50 || i == 54 { 64 } else { 0 });
        assert_eq!(s.reverb.l0.i, if i == 54 { 64 } else { 0 });
    }
}

#[test]
fn the_rack_does_not_look_ahead() {
    let alu = Alu { op: native };
    let q = settings(&[(41, 0.5), (44, 0.5), (47, 0.5), (50, 0.5), (54, 0.5), (58, 0.5), (62, 0.5)]);
    let mut a = ramp(64);
    let mut b = ramp(64);
    for x in b.iter_mut().skip(40) {
        *x = 0.9f32.to_bits();
    }
    Fx::new().process_fx(&alu, SR.to_bits(), &q, &mut a);
    Fx::new().process_fx(&alu, SR.to_bits(), &q, &mut b);
    assert_eq!(a[..40], b[..40]);
    assert_ne!(a[40], b[40]);
    assert_eq!(a.len(), 64);
}

#[test]
fn the_drift_wanders() {
    let alu = Alu { op: native };
    let mut s = Fx::new();
    let mut out = ramp(1);
    s.process_fx(&alu, SR.to_bits(), &settings(&[(47, 1.0), (49, 1.0)]), &mut out);
    let x = rng::next(0x51f1_5eed);
    let wander = x as f32 * (1.0 / 4_294_967_296.0) * 2.0 - 1.0;
    let drift = 0.0 + (wander - 0.0) * 0.004;
    assert_eq!((s.rng, f(s.drift)), (x, drift));
    // The gain wobble of the section comes last.
    let rate = 0.5 * (1.0 + drift * 0.04);
    let ph = rate * (1.0 / SR);
    let y = f(ramp(1)[0]) * (1.0 - 1.0 * (0.5 + 0.5 * (TAU * ph).sin()));
    assert_eq!(f(out[0]), y * (1.0 + drift * 0.012));
}

#[test]
fn the_rack_draws_its_own_noise() {
    let mut s = Fx::new();
    let mut x: u32 = 0x51f1_5eed;
    for _ in 0..1000 {
        x = rng::next(x);
        assert_eq!(f(s.fx_rand()), x as f32 * (1.0 / 4_294_967_296.0));
        assert_eq!(s.rng, x);
    }
}

#[test]
fn dry_wet_and_reverb_add_up() {
    let alu = Alu { op: native };
    let q = settings(&[(50, 0.5), (54, 0.25), (57, 0.5)]);
    let mut s = Fx::new();
    // An echo of 0.4 at the place that the glide leads to.
    for x in s.delay.ring.iter_mut() {
        *x = 0.4f32.to_bits();
    }
    s.reverb.l0.lp = 1.0f32.to_bits();
    let mut out = vec![0.2f32.to_bits()];
    s.process_fx(&alu, SR.to_bits(), &q, &mut out);
    let lp = 1.0 + 0.35 * (0.0 - 1.0);
    let wet = (lp + 0.0 + 0.0 + 0.0) * 0.35;
    assert_eq!(f(out[0]), 0.2 + 0.4 * 0.5 + wet * 0.25);
}
