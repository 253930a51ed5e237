//! Binary32 patterns of the numbers that the engine computes with.
//!
//! `F0_35` is the pattern of the value nearest to 0.35, and so on.

use crate::word::Bits;
use vstd::prelude::*;

verus! {

pub const F0: Bits = 0x0000_0000;

pub const F1E_9: Bits = 0x3089_705f;

pub const F1E_5: Bits = 0x3727_c5ac;

pub const F1E_4: Bits = 0x38d1_b717;

pub const F0_0009: Bits = 0x3a6b_edfa;

pub const F0_001: Bits = 0x3a83_126f;

pub const F0_002: Bits = 0x3b03_126f;

pub const F0_004: Bits = 0x3b83_126f;

pub const F0_005: Bits = 0x3ba3_d70a;

pub const F0_009: Bits = 0x3c13_74bc;

pub const F0_012: Bits = 0x3c44_9ba6;

pub const F0_02: Bits = 0x3ca3_d70a;

pub const F0_03: Bits = 0x3cf5_c28f;

pub const F0_04: Bits = 0x3d23_d70a;

pub const F0_05: Bits = 0x3d4c_cccd;

pub const F0_07: Bits = 0x3d8f_5c29;

pub const F0_08: Bits = 0x3da3_d70a;

pub const F0_1: Bits = 0x3dcc_cccd;

pub const F0_18: Bits = 0x3e38_51ec;

pub const F0_23: Bits = 0x3e6b_851f;

pub const F0_25: Bits = 0x3e80_0000;

pub const F0_26: Bits = 0x3e85_1eb8;

pub const F0_3: Bits = 0x3e99_999a;

pub const F0_35: Bits = 0x3eb3_3333;

pub const F0_4: Bits = 0x3ecc_cccd;

pub const F0_45: Bits = 0x3ee6_6666;

pub const F0_48: Bits = 0x3ef5_c28f;

pub const F0_5: Bits = 0x3f00_0000;

pub const F0_55: Bits = 0x3f0c_cccd;

pub const F0_6: Bits = 0x3f19_999a;

pub const F0_6667: Bits = 0x3f2a_acda;

pub const F0_7: Bits = 0x3f33_3333;

pub const F0_72: Bits = 0x3f38_51ec;

pub const F0_8: Bits = 0x3f4c_cccd;

pub const F0_85: Bits = 0x3f59_999a;

pub const F0_9: Bits = 0x3f66_6666;

pub const F0_92: Bits = 0x3f6b_851f;

pub const F0_95: Bits = 0x3f73_3333;

pub const F0_995: Bits = 0x3f7e_b852;

pub const F1_02: Bits = 0x3f82_8f5c;

pub const F1_1: Bits = 0x3f8c_cccd;

pub const F1_2: Bits = 0x3f99_999a;

pub const F1_31: Bits = 0x3fa7_ae14;

pub const F1_35: Bits = 0x3fac_cccd;

pub const F1_4: Bits = 0x3fb3_3333;

pub const F1_45: Bits = 0x3fb9_999a;

pub const F1_5: Bits = 0x3fc0_0000;

pub const F2_094: Bits = 0x4006_0419;

pub const F2_76: Bits = 0x4030_a3d7;

pub const F3_4: Bits = 0x4059_999a;

pub const F4_5: Bits = 0x4090_0000;

pub const F4_6: Bits = 0x4093_3333;

pub const F5_4: Bits = 0x40ac_cccd;

pub const F8_93: Bits = 0x410e_e148;

pub const F13_3: Bits = 0x4154_cccd;

pub const F1: Bits = 0x3f80_0000;

pub const F2: Bits = 0x4000_0000;

pub const F3: Bits = 0x4040_0000;

pub const F4: Bits = 0x4080_0000;

pub const F5: Bits = 0x40a0_0000;

pub const F6: Bits = 0x40c0_0000;

pub const F7: Bits = 0x40e0_0000;

pub const F8: Bits = 0x4100_0000;

pub const F9: Bits = 0x4110_0000;

pub const F10: Bits = 0x4120_0000;

pub const F11: Bits = 0x4130_0000;

pub const F12: Bits = 0x4140_0000;

pub const F14: Bits = 0x4160_0000;

pub const F23: Bits = 0x41b8_0000;

pub const F30: Bits = 0x41f0_0000;

pub const F59: Bits = 0x426c_0000;

pub const F69: Bits = 0x428a_0000;

pub const F120: Bits = 0x42f0_0000;

pub const F142: Bits = 0x430e_0000;

pub const F220: Bits = 0x435c_0000;

pub const F256: Bits = 0x4380_0000;

pub const F300: Bits = 0x4396_0000;

pub const F379: Bits = 0x43bd_8000;

pub const F400: Bits = 0x43c8_0000;

pub const F440: Bits = 0x43dc_0000;

pub const F1687: Bits = 0x44d2_e000;

pub const F2039: Bits = 0x44fe_e000;

pub const F2048: Bits = 0x4500_0000;

pub const F2503: Bits = 0x451c_7000;

pub const F3023: Bits = 0x453c_f000;

pub const F4800: Bits = 0x4596_0000;

pub const F16380: Bits = 0x467f_f000;

pub const F48000: Bits = 0x473b_8000;

pub const F131068: Bits = 0x47ff_fe00;

/// A full turn in radians.
pub const TAU: Bits = 0x40c9_0fdb;

/// Half a turn in radians.
pub const PI: Bits = 0x4049_0fdb;

/// What scales an arc sine to -1 ..= 1.
pub const TWO_OVER_PI: Bits = 0x3f22_f983;

/// 1 / 384: a grain fades in over 384 samples.
pub const GRAIN_FADE: Bits = 0x3b2a_aaab;

} // verus!
