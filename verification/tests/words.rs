use overtone_riot::consts::{
    F0, F0_0009, F0_001, F0_002, F0_004, F0_005, F0_009, F0_012, F0_02, F0_03, F0_04, F0_05,
    F0_07, F0_08, F0_1, F0_18, F0_23, F0_25, F0_26, F0_3, F0_35, F0_4, F0_45, F0_48, F0_5, F0_55,
    F0_6, F0_6667, F0_7, F0_72, F0_8, F0_85, F0_9, F0_92, F0_95, F0_995, F1, F10, F11, F12, F120,
    F131068, F13_3, F14, F142, F16380, F1687, F1E_4, F1E_5, F1E_9, F1_02, F1_1, F1_2, F1_31,
    F1_35, F1_4, F1_45, F1_5, F2, F2039, F2048, F220, F23, F2503, F256, F2_094, F2_76, F3, F30,
    F300, F3023, F379, F3_4, F4, F400, F440, F4800, F48000, F4_5, F4_6, F5, F59, F5_4, F6, F69,
    F7, F8, F8_93, F9, GRAIN_FADE, PI, TAU, TWO_OVER_PI,
};
use overtone_riot::params::{NP, RANGES};
use overtone_riot::rng;
use overtone_riot::word;

/// Patterns of all kinds: zeros, subnormals, halves, whole numbers, large
/// values, infinities, values that are not numbers, and a scatter of others.
fn patterns() -> Vec<u32> {
    let mut v: Vec<u32> = vec![];
    for x in [
        0.0f32, 0.25, 0.49999997, 0.5, 0.75, 0.99999994, 1.0, 1.5, 2.0, 2.5, 3.5, 1023.5, 2047.999,
        4096.5, 8388607.5, 8388608.0, 16777216.0, 2147483520.0, 2147483648.0, 4294967040.0,
        4294967296.0, 1e-3, 1e-9, 1e12, 9.2e18, 1.9e19, 3.0e38, 1e-40, f32::INFINITY, f32::NAN,
    ] {
        v.push(x.to_bits());
        v.push((-x).to_bits());
    }
    let mut s: u32 = 0x1234_5678;
    for _ in 0..3000 {
        s = s.wrapping_mul(1664525).wrapping_add(1013904223);
        v.push(s);
        v.push((s & 0x807f_ffff) | ((100 + (s >> 8) % 60) << 23));
    }
    v
}

#[test]
fn constants_hold_their_values() {
    assert_eq!(f32::from_bits(F1E_9), 0.000000001);
    assert_eq!(f32::from_bits(F1E_5), 0.00001);
    assert_eq!(f32::from_bits(F1E_4), 0.0001);
    assert_eq!(f32::from_bits(F0_0009), 0.0009);
    assert_eq!(f32::from_bits(F0_001), 0.001);
    assert_eq!(f32::from_bits(F0_002), 0.002);
    assert_eq!(f32::from_bits(F0_004), 0.004);
    assert_eq!(f32::from_bits(F0_005), 0.005);
    assert_eq!(f32::from_bits(F0_009), 0.009);
    assert_eq!(f32::from_bits(F0_012), 0.012);
    assert_eq!(f32::from_bits(F0_02), 0.02);
    assert_eq!(f32::from_bits(F0_03), 0.03);
    assert_eq!(f32::from_bits(F0_04), 0.04);
    assert_eq!(f32::from_bits(F0_05), 0.05);
    assert_eq!(f32::from_bits(F0_07), 0.07);
    assert_eq!(f32::from_bits(F0_08), 0.08);
    assert_eq!(f32::from_bits(F0_1), 0.1);
    assert_eq!(f32::from_bits(F0_18), 0.18);
    assert_eq!(f32::from_bits(F0_23), 0.23);
    assert_eq!(f32::from_bits(F0_25), 0.25);
    assert_eq!(f32::from_bits(F0_26), 0.26);
    assert_eq!(f32::from_bits(F0_3), 0.3);
    assert_eq!(f32::from_bits(F0_35), 0.35);
    assert_eq!(f32::from_bits(F0_4), 0.4);
    assert_eq!(f32::from_bits(F0_45), 0.45);
    assert_eq!(f32::from_bits(F0_48), 0.48);
    assert_eq!(f32::from_bits(F0_5), 0.5);
    assert_eq!(f32::from_bits(F0_55), 0.55);
    assert_eq!(f32::from_bits(F0_6), 0.6);
    assert_eq!(f32::from_bits(F0_6667), 0.6667);
    assert_eq!(f32::from_bits(F0_7), 0.7);
    assert_eq!(f32::from_bits(F0_72), 0.72);
    assert_eq!(f32::from_bits(F0_8), 0.8);
    assert_eq!(f32::from_bits(F0_85), 0.85);
    assert_eq!(f32::from_bits(F0_9), 0.9);
    assert_eq!(f32::from_bits(F0_92), 0.92);
    assert_eq!(f32::from_bits(F0_95), 0.95);
    assert_eq!(f32::from_bits(F0_995), 0.995);
    assert_eq!(f32::from_bits(F1_02), 1.02);
    assert_eq!(f32::from_bits(F1_1), 1.1);
    assert_eq!(f32::from_bits(F1_2), 1.2);
    assert_eq!(f32::from_bits(F1_31), 1.31);
    assert_eq!(f32::from_bits(F1_35), 1.35);
    assert_eq!(f32::from_bits(F1_4), 1.4);
    assert_eq!(f32::from_bits(F1_45), 1.45);
    assert_eq!(f32::from_bits(F1_5), 1.5);
    assert_eq!(f32::from_bits(F2_094), 2.094);
    assert_eq!(f32::from_bits(F2_76), 2.76);
    assert_eq!(f32::from_bits(F3_4), 3.4);
    assert_eq!(f32::from_bits(F4_5), 4.5);
    assert_eq!(f32::from_bits(F4_6), 4.6);
    assert_eq!(f32::from_bits(F5_4), 5.4);
    assert_eq!(f32::from_bits(F8_93), 8.93);
    assert_eq!(f32::from_bits(F13_3), 13.3);
    assert_eq!(f32::from_bits(F1), 1.0);
    assert_eq!(f32::from_bits(F2), 2.0);
    assert_eq!(f32::from_bits(F3), 3.0);
    assert_eq!(f32::from_bits(F4), 4.0);
    assert_eq!(f32::from_bits(F5), 5.0);
    assert_eq!(f32::from_bits(F6), 6.0);
    assert_eq!(f32::from_bits(F7), 7.0);
    assert_eq!(f32::from_bits(F8), 8.0);
    assert_eq!(f32::from_bits(F9), 9.0);
    assert_eq!(f32::from_bits(F10), 10.0);
    assert_eq!(f32::from_bits(F11), 11.0);
    assert_eq!(f32::from_bits(F12), 12.0);
    assert_eq!(f32::from_bits(F14), 14.0);
    assert_eq!(f32::from_bits(F23), 23.0);
    assert_eq!(f32::from_bits(F30), 30.0);
    assert_eq!(f32::from_bits(F59), 59.0);
    assert_eq!(f32::from_bits(F69), 69.0);
    assert_eq!(f32::from_bits(F120), 120.0);
    assert_eq!(f32::from_bits(F142), 142.0);
    assert_eq!(f32::from_bits(F220), 220.0);
    assert_eq!(f32::from_bits(F256), 256.0);
    assert_eq!(f32::from_bits(F300), 300.0);
    assert_eq!(f32::from_bits(F379), 379.0);
    assert_eq!(f32::from_bits(F400), 400.0);
    assert_eq!(f32::from_bits(F440), 440.0);
    assert_eq!(f32::from_bits(F1687), 1687.0);
    assert_eq!(f32::from_bits(F2039), 2039.0);
    assert_eq!(f32::from_bits(F2048), 2048.0);
    assert_eq!(f32::from_bits(F2503), 2503.0);
    assert_eq!(f32::from_bits(F3023), 3023.0);
    assert_eq!(f32::from_bits(F4800), 4800.0);
    assert_eq!(f32::from_bits(F16380), 16380.0);
    assert_eq!(f32::from_bits(F48000), 48000.0);
    assert_eq!(f32::from_bits(F131068), 131068.0);
    assert_eq!(f32::from_bits(F0), 0.0);
    assert_eq!(f32::from_bits(TAU), 6.283_185_3);
    assert_eq!(f32::from_bits(PI), std::f32::consts::PI);
    assert_eq!(f32::from_bits(TWO_OVER_PI), 0.636_619_77);
    assert_eq!(f32::from_bits(GRAIN_FADE), 1.0 / 384.0);
}

#[test]
fn parameter_ranges() {
    let expected: [(f32, f32, bool); NP] = [
        (0.0, 1.0, false), (0.0, 1.0, false), (0.0, 1.0, false),
        (0.0, 1.0, false), (0.005, 0.4, true), (0.0, 1.0, false),
        (0.002, 0.08, true), (0.0, 1.0, false), (0.0, 1.0, false),
        (0.0, 1.0, false), (0.0, 1.0, false), (0.0, 1.0, false),
        (0.0, 1.0, false), (0.0, 1.0, false), (0.0, 1.0, false),
        (0.0, 1.0, false), (0.0, 1.0, false), (0.0, 1.0, false),
        (0.0, 1.0, false), (0.0, 1.0, false), (0.0, 1.0, false),
        (0.0, 1.0, false), (0.0, 1.0, false), (0.0, 1.0, false),
        (0.0, 1.0, false), (0.0, 1.0, false), (0.0, 1.0, false),
        (0.0, 1.0, false), (0.0, 1.0, false), (0.0, 1.0, false),
        (0.001, 2.0, true), (0.02, 4.0, true), (0.0, 1.0, false),
        (0.02, 6.0, true), (0.05, 30.0, true), (0.0, 1.0, false),
        (0.0, 3.0, false), (0.0, 1.0, false), (0.05, 30.0, true),
        (0.0, 1.0, false), (0.0, 3.0, false), (0.0, 1.0, false),
        (0.05, 8.0, true), (0.0, 0.9, false), (0.0, 1.0, false),
        (0.1, 5.0, true), (0.0, 1.0, false), (0.0, 1.0, false),
        (0.5, 12.0, true), (0.0, 1.0, false), (0.0, 1.0, false),
        (0.02, 1.2, true), (0.0, 0.95, false), (0.0, 1.0, false),
        (0.0, 1.0, false), (0.0, 1.0, false), (0.0, 1.0, false),
        (0.0, 1.0, false), (0.0, 1.0, false), (0.0, 5.0, false),
        (0.0, 1.0, false), (0.0, 1.0, false), (0.0, 1.0, false),
    ];
    for i in 0..NP {
        let (lo, hi, exponential) = RANGES[i];
        assert_eq!((f32::from_bits(lo), f32::from_bits(hi), exponential), expected[i]);
    }
}

#[test]
fn order_is_that_of_floats() {
    let v = patterns();
    for i in 0..v.len() {
        for j in [0, 1, 58, 59, (i * 7 + 3) % v.len(), (i * 131 + 17) % v.len(), i] {
            let (a, b) = (f32::from_bits(v[i]), f32::from_bits(v[j]));
            assert_eq!(word::lt(v[i], v[j]), a < b);
            assert_eq!(word::lt(v[j], v[i]), b < a);
            assert_eq!(word::ge(v[i], v[j]), a >= b);
        }
    }
}

#[test]
fn wide_order_is_that_of_floats() {
    let v = [0.0f64, -0.0, 1.5, -1.5, 1e300, -1e300, 5e-324, f64::INFINITY, f64::NEG_INFINITY, f64::NAN];
    for a in v {
        for b in v {
            assert_eq!(word::wide_lt(a.to_bits(), b.to_bits()), a < b);
        }
    }
}

#[test]
fn signs_and_bounds() {
    let v = patterns();
    for i in 0..v.len() {
        let a = f32::from_bits(v[i]);
        assert_eq!(word::abs(v[i]), a.abs().to_bits());
        assert_eq!(word::neg(v[i]), (-a).to_bits());
        let b = f32::from_bits(v[(i * 37 + 5) % v.len()]);
        if !a.is_nan() || !b.is_nan() {
            assert!(f32::from_bits(word::min(a.to_bits(), b.to_bits())) == a.min(b));
            assert!(f32::from_bits(word::max(a.to_bits(), b.to_bits())) == a.max(b));
        }
        let c = f32::from_bits(word::clamp(v[i], (-1.0f32).to_bits(), 1.0f32.to_bits()));
        if a.is_nan() {
            assert!(c.is_nan());
        } else {
            assert_eq!(c, a.clamp(-1.0, 1.0));
        }
    }
    assert_eq!(word::min(f32::NAN.to_bits(), F1), F1);
    assert_eq!(word::max(F1, f32::NAN.to_bits()), F1);
}

#[test]
fn casts_are_those_of_floats() {
    for x in patterns() {
        let a = f32::from_bits(x);
        assert_eq!(word::to_i32(x), a as i32);
        assert_eq!(word::to_u32(x), a as u32);
        assert_eq!(word::to_usize(x), a as usize);
        assert_eq!(word::to_isize(x), a as isize);
    }
    assert_eq!(word::to_i32(F2_76), 2);
    assert_eq!(word::to_i32(word::neg(F2_76)), -2);
    assert_eq!(word::to_u32(word::neg(F5)), 0);
    assert_eq!(word::to_i32(f32::NAN.to_bits()), 0);
}

#[test]
fn whole_values_are_those_of_floats() {
    for x in patterns() {
        let a = f32::from_bits(x);
        if !a.is_nan() {
            assert_eq!(word::floor(x), a.floor().to_bits());
            assert_eq!(word::round(x), a.round().to_bits());
        }
    }
    assert_eq!(f32::from_bits(word::floor((-0.25f32).to_bits())), -1.0);
    assert_eq!(f32::from_bits(word::round(2.5f32.to_bits())), 3.0);
    assert_eq!(f32::from_bits(word::round((-2.5f32).to_bits())), -3.0);
}

#[test]
fn integers_convert_to_nearest() {
    let mut s: u64 = 0x0123_4567_89ab_cdef;
    for k in 0..4000u64 {
        s = s.wrapping_mul(6364136223846793005).wrapping_add(1442695040888963407);
        for n in [k, s, s >> 17, s >> 33, s >> 40, (1 << (k % 64)) + (k % 3), u64::MAX - k] {
            assert_eq!(word::of_u64(n), (n as f32).to_bits());
        }
    }
    // Ties go to the even neighbour.
    assert_eq!(word::of_u64(16777217), 16777216f32.to_bits());
    assert_eq!(word::of_u64(16777219), 16777220f32.to_bits());
}

#[test]
fn noise_steps() {
    assert_eq!(rng::next(1), 270369);
    assert_eq!(rng::next(270369), 67634689);
    assert_eq!(rng::next(0), 0);
}

#[test]
fn noise_never_runs_dry_and_never_meets() {
    let (mut x, mut y): (u32, u32) = (0x9e37_79b9, 0x51f1_5eed);
    for _ in 0..10000 {
        assert_ne!(x, y);
        x = rng::next(x);
        y = rng::next(y);
        assert!(x != 0 && y != 0);
    }
}

#[test]
fn noise_reads_as_a_fraction_below_one() {
    let mut x: u32 = 0x9e37_79b9;
    for _ in 0..10000 {
        x = rng::next(x);
        let r = f32::from_bits(rng::unit(x));
        assert!(r >= 0.0 && r < 1.0);
        assert_eq!(r, x as f32 * (1.0 / 4_294_967_296.0));
    }
    assert_eq!(f32::from_bits(rng::unit(0)), 0.0);
    assert_eq!(f32::from_bits(rng::unit(0x8000_0000)), 0.5);
    // At the top of the range the nearest value would be one.
    assert_eq!(f32::from_bits(rng::unit(0xffff_ffff)), 0.99999994);
    assert_eq!(f32::from_bits(rng::unit(0xffff_ff80)), 0.99999994);
    assert_eq!(f32::from_bits(rng::unit(0xffff_ff7f)), 0.99999994);
}

#[test]
fn noise_reads_as_the_nearest_fraction() {
    let mut x: u32 = 0x51f1_5eed;
    for _ in 0..10000 {
        x = rng::next(x);
        assert_eq!(f32::from_bits(rng::ratio(x)), x as f32 * (1.0 / 4_294_967_296.0));
    }
    assert_eq!(f32::from_bits(rng::ratio(0)), 0.0);
    assert_eq!(f32::from_bits(rng::ratio(1)), 1.0 / 4_294_967_296.0);
    assert_eq!(f32::from_bits(rng::ratio(0xffff_ff80)), 1.0);
    assert_eq!(f32::from_bits(rng::ratio(0xffff_ff7f)), 0.99999994);
}
