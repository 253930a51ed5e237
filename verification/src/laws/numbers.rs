//! The constants as decimal numbers, and the ranges of the parameters.

use crate::consts::{
    F1E_9, F1E_5, F1E_4, F0_0009, F0_001, F0_002, F0_004, F0_005, F0_009, F0_012, F0_02, F0_03,
    F0_04, F0_05, F0_07, F0_08, F0_1, F0_18, F0_23, F0_25, F0_26, F0_3, F0_35, F0_4, F0_45,
    F0_48, F0_5, F0_55, F0_6, F0_6667, F0_7, F0_72, F0_8, F0_85, F0_9, F0_92, F0_95, F0_995,
    F1_02, F1_1, F1_2, F1_31, F1_35, F1_4, F1_45, F1_5, F2_094, F2_76, F3_4, F4_5, F4_6, F5_4,
    F8_93, F13_3, F2, F3, F4, F5, F6, F7, F8, F9, F10, F11, F12, F14, F23, F30, F59, F69, F120,
    F142, F220, F256, F300, F379, F400, F440, F1687, F2039, F2048, F2503, F3023, F4800, F16380,
    F48000, F131068, TAU, PI, TWO_OVER_PI, GRAIN_FADE, F0, F1,
};
use crate::params::RANGES;
use crate::rounding::reals;
use crate::rounding::reals::{dist, num};
use crate::word;
use crate::word::Bits;
use vstd::arithmetic::power2::*;
use vstd::prelude::*;

verus! {

/// `x` is the pattern of `v`, to one part in ten million.
pub open spec fn about(x: Bits, v: real) -> bool {
    word::finite(x) && dist(num(x), v) <= v / 10000000real
}

/// `x` is the pattern of `v`, exactly.
pub open spec fn exactly(x: Bits, v: real) -> bool {
    word::finite(x) && num(x) == v
}

/// The constants below 0.01.
pub proof fn law_numbers_tiny()
    ensures
        about(F1E_9, 1real / 1000000000real),
        about(F1E_5, 1real / 100000real),
        about(F1E_4, 1real / 10000real),
        about(F0_0009, 9real / 10000real),
        about(F0_001, 1real / 1000real),
        about(F0_002, 1real / 500real),
        about(F0_004, 1real / 250real),
        about(F0_005, 1real / 200real),
        about(F0_009, 9real / 1000real),
        about(GRAIN_FADE, 1real / 384real),
{
    lemma2_to64();
    lemma2_to64_rest();
    reals::lemma_const(0x3089_705f);
    assert(num(F1E_9) == 9007199real / 9007199254740992real);
    reals::lemma_const(0x3727_c5ac);
    assert(num(F1E_5) == 10995116real / 1099511627776real);
    reals::lemma_const(0x38d1_b717);
    assert(num(F1E_4) == 13743895real / 137438953472real);
    reals::lemma_const(0x3a6b_edfa);
    assert(num(F0_0009) == 15461882real / 17179869184real);
    reals::lemma_const(0x3a83_126f);
    assert(num(F0_001) == 8589935real / 8589934592real);
    reals::lemma_const(0x3b03_126f);
    assert(num(F0_002) == 8589935real / 4294967296real);
    reals::lemma_const(0x3b83_126f);
    assert(num(F0_004) == 8589935real / 2147483648real);
    reals::lemma_const(0x3ba3_d70a);
    assert(num(F0_005) == 10737418real / 2147483648real);
    reals::lemma_const(0x3c13_74bc);
    assert(num(F0_009) == 9663676real / 1073741824real);
    reals::lemma_const(0x3b2a_aaab);
    assert(num(GRAIN_FADE) == 11184811real / 4294967296real);
}

/// The constants from 0.01 up to 0.3.
pub proof fn law_numbers_small()
    ensures
        about(F0_012, 3real / 250real),
        about(F0_02, 1real / 50real),
        about(F0_03, 3real / 100real),
        about(F0_04, 1real / 25real),
        about(F0_05, 1real / 20real),
        about(F0_07, 7real / 100real),
        about(F0_08, 2real / 25real),
        about(F0_1, 1real / 10real),
        about(F0_18, 9real / 50real),
        about(F0_23, 23real / 100real),
        exactly(F0_25, 1real / 4real),
        about(F0_26, 13real / 50real),
{
    lemma2_to64();
    reals::lemma_const(0x3c44_9ba6);
    assert(num(F0_012) == 12884902real / 1073741824real);
    reals::lemma_const(0x3ca3_d70a);
    assert(num(F0_02) == 10737418real / 536870912real);
    reals::lemma_const(0x3cf5_c28f);
    assert(num(F0_03) == 16106127real / 536870912real);
    reals::lemma_const(0x3d23_d70a);
    assert(num(F0_04) == 10737418real / 268435456real);
    reals::lemma_const(0x3d4c_cccd);
    assert(num(F0_05) == 13421773real / 268435456real);
    reals::lemma_const(0x3d8f_5c29);
    assert(num(F0_07) == 9395241real / 134217728real);
    reals::lemma_const(0x3da3_d70a);
    assert(num(F0_08) == 10737418real / 134217728real);
    reals::lemma_const(0x3dcc_cccd);
    assert(num(F0_1) == 13421773real / 134217728real);
    reals::lemma_const(0x3e38_51ec);
    assert(num(F0_18) == 12079596real / 67108864real);
    reals::lemma_const(0x3e6b_851f);
    assert(num(F0_23) == 15435039real / 67108864real);
    reals::lemma_const(0x3e80_0000);
    assert(num(F0_25) == 8388608real / 33554432real);
    reals::lemma_const(0x3e85_1eb8);
    assert(num(F0_26) == 8724152real / 33554432real);
}

/// The constants from 0.3 up to 1.
pub proof fn law_numbers_part()
    ensures
        about(F0_3, 3real / 10real),
        about(F0_35, 7real / 20real),
        about(F0_4, 2real / 5real),
        about(F0_45, 9real / 20real),
        about(F0_48, 12real / 25real),
        exactly(F0_5, 1real / 2real),
        about(F0_55, 11real / 20real),
        about(F0_6, 3real / 5real),
        about(F0_6667, 6667real / 10000real),
        about(F0_7, 7real / 10real),
        about(F0_72, 18real / 25real),
        about(F0_8, 4real / 5real),
        about(F0_85, 17real / 20real),
        about(F0_9, 9real / 10real),
        about(F0_92, 23real / 25real),
        about(F0_95, 19real / 20real),
        about(F0_995, 199real / 200real),
        about(TWO_OVER_PI, 159154943real / 250000000real),
{
    lemma2_to64();
    reals::lemma_const(0x3e99_999a);
    assert(num(F0_3) == 10066330real / 33554432real);
    reals::lemma_const(0x3eb3_3333);
    assert(num(F0_35) == 11744051real / 33554432real);
    reals::lemma_const(0x3ecc_cccd);
    assert(num(F0_4) == 13421773real / 33554432real);
    reals::lemma_const(0x3ee6_6666);
    assert(num(F0_45) == 15099494real / 33554432real);
    reals::lemma_const(0x3ef5_c28f);
    assert(num(F0_48) == 16106127real / 33554432real);
    reals::lemma_const(0x3f00_0000);
    assert(num(F0_5) == 8388608real / 16777216real);
    reals::lemma_const(0x3f0c_cccd);
    assert(num(F0_55) == 9227469real / 16777216real);
    reals::lemma_const(0x3f19_999a);
    assert(num(F0_6) == 10066330real / 16777216real);
    reals::lemma_const(0x3f2a_acda);
    assert(num(F0_6667) == 11185370real / 16777216real);
    reals::lemma_const(0x3f33_3333);
    assert(num(F0_7) == 11744051real / 16777216real);
    reals::lemma_const(0x3f38_51ec);
    assert(num(F0_72) == 12079596real / 16777216real);
    reals::lemma_const(0x3f4c_cccd);
    assert(num(F0_8) == 13421773real / 16777216real);
    reals::lemma_const(0x3f59_999a);
    assert(num(F0_85) == 14260634real / 16777216real);
    reals::lemma_const(0x3f66_6666);
    assert(num(F0_9) == 15099494real / 16777216real);
    reals::lemma_const(0x3f6b_851f);
    assert(num(F0_92) == 15435039real / 16777216real);
    reals::lemma_const(0x3f73_3333);
    assert(num(F0_95) == 15938355real / 16777216real);
    reals::lemma_const(0x3f7e_b852);
    assert(num(F0_995) == 16693330real / 16777216real);
    reals::lemma_const(0x3f22_f983);
    assert(num(TWO_OVER_PI) == 10680707real / 16777216real);
}

/// The constants above 1 that are not whole.
pub proof fn law_numbers_mixed()
    ensures
        about(F1_02, 51real / 50real),
        about(F1_1, 11real / 10real),
        about(F1_2, 6real / 5real),
        about(F1_31, 131real / 100real),
        about(F1_35, 27real / 20real),
        about(F1_4, 7real / 5real),
        about(F1_45, 29real / 20real),
        exactly(F1_5, 3real / 2real),
        about(F2_094, 1047real / 500real),
        about(F2_76, 69real / 25real),
        about(F3_4, 17real / 5real),
        exactly(F4_5, 9real / 2real),
        about(F4_6, 23real / 5real),
        about(F5_4, 27real / 5real),
        about(F8_93, 893real / 100real),
        about(F13_3, 133real / 10real),
        about(TAU, 6283185307real / 1000000000real),
        about(PI, 1570796327real / 500000000real),
{
    lemma2_to64();
    reals::lemma_const(0x3f82_8f5c);
    assert(num(F1_02) == 8556380real / 8388608real);
    reals::lemma_const(0x3f8c_cccd);
    assert(num(F1_1) == 9227469real / 8388608real);
    reals::lemma_const(0x3f99_999a);
    assert(num(F1_2) == 10066330real / 8388608real);
    reals::lemma_const(0x3fa7_ae14);
    assert(num(F1_31) == 10989076real / 8388608real);
    reals::lemma_const(0x3fac_cccd);
    assert(num(F1_35) == 11324621real / 8388608real);
    reals::lemma_const(0x3fb3_3333);
    assert(num(F1_4) == 11744051real / 8388608real);
    reals::lemma_const(0x3fb9_999a);
    assert(num(F1_45) == 12163482real / 8388608real);
    reals::lemma_const(0x3fc0_0000);
    assert(num(F1_5) == 12582912real / 8388608real);
    reals::lemma_const(0x4006_0419);
    assert(num(F2_094) == 8782873real / 4194304real);
    reals::lemma_const(0x4030_a3d7);
    assert(num(F2_76) == 11576279real / 4194304real);
    reals::lemma_const(0x4059_999a);
    assert(num(F3_4) == 14260634real / 4194304real);
    reals::lemma_const(0x4090_0000);
    assert(num(F4_5) == 9437184real / 2097152real);
    reals::lemma_const(0x4093_3333);
    assert(num(F4_6) == 9646899real / 2097152real);
    reals::lemma_const(0x40ac_cccd);
    assert(num(F5_4) == 11324621real / 2097152real);
    reals::lemma_const(0x410e_e148);
    assert(num(F8_93) == 9363784real / 1048576real);
    reals::lemma_const(0x4154_cccd);
    assert(num(F13_3) == 13946061real / 1048576real);
    reals::lemma_const(0x40c9_0fdb);
    assert(num(TAU) == 13176795real / 2097152real);
    reals::lemma_const(0x4049_0fdb);
    assert(num(PI) == 13176795real / 4194304real);
}

/// The whole constants up to 100.
pub proof fn law_numbers_whole()
    ensures
        exactly(F2, 2real),
        exactly(F3, 3real),
        exactly(F4, 4real),
        exactly(F5, 5real),
        exactly(F6, 6real),
        exactly(F7, 7real),
        exactly(F8, 8real),
        exactly(F9, 9real),
        exactly(F10, 10real),
        exactly(F11, 11real),
        exactly(F12, 12real),
        exactly(F14, 14real),
        exactly(F23, 23real),
        exactly(F30, 30real),
        exactly(F59, 59real),
        exactly(F69, 69real),
{
    lemma2_to64();
    reals::lemma_const(0x4000_0000);
    assert(num(F2) == 8388608real / 4194304real);
    reals::lemma_const(0x4040_0000);
    assert(num(F3) == 12582912real / 4194304real);
    reals::lemma_const(0x4080_0000);
    assert(num(F4) == 8388608real / 2097152real);
    reals::lemma_const(0x40a0_0000);
    assert(num(F5) == 10485760real / 2097152real);
    reals::lemma_const(0x40c0_0000);
    assert(num(F6) == 12582912real / 2097152real);
    reals::lemma_const(0x40e0_0000);
    assert(num(F7) == 14680064real / 2097152real);
    reals::lemma_const(0x4100_0000);
    assert(num(F8) == 8388608real / 1048576real);
    reals::lemma_const(0x4110_0000);
    assert(num(F9) == 9437184real / 1048576real);
    reals::lemma_const(0x4120_0000);
    assert(num(F10) == 10485760real / 1048576real);
    reals::lemma_const(0x4130_0000);
    assert(num(F11) == 11534336real / 1048576real);
    reals::lemma_const(0x4140_0000);
    assert(num(F12) == 12582912real / 1048576real);
    reals::lemma_const(0x4160_0000);
    assert(num(F14) == 14680064real / 1048576real);
    reals::lemma_const(0x41b8_0000);
    assert(num(F23) == 12058624real / 524288real);
    reals::lemma_const(0x41f0_0000);
    assert(num(F30) == 15728640real / 524288real);
    reals::lemma_const(0x426c_0000);
    assert(num(F59) == 15466496real / 262144real);
    reals::lemma_const(0x428a_0000);
    assert(num(F69) == 9043968real / 131072real);
}

/// The whole constants above 100.
pub proof fn law_numbers_large()
    ensures
        exactly(F120, 120real),
        exactly(F142, 142real),
        exactly(F220, 220real),
        exactly(F256, 256real),
        exactly(F300, 300real),
        exactly(F379, 379real),
        exactly(F400, 400real),
        exactly(F440, 440real),
        exactly(F1687, 1687real),
        exactly(F2039, 2039real),
        exactly(F2048, 2048real),
        exactly(F2503, 2503real),
        exactly(F3023, 3023real),
        exactly(F4800, 4800real),
        exactly(F16380, 16380real),
        exactly(F48000, 48000real),
        exactly(F131068, 131068real),
{
    lemma2_to64();
    reals::lemma_const(0x42f0_0000);
    assert(num(F120) == 15728640real / 131072real);
    reals::lemma_const(0x430e_0000);
    assert(num(F142) == 9306112real / 65536real);
    reals::lemma_const(0x435c_0000);
    assert(num(F220) == 14417920real / 65536real);
    reals::lemma_const(0x4380_0000);
    assert(num(F256) == 8388608real / 32768real);
    reals::lemma_const(0x4396_0000);
    assert(num(F300) == 9830400real / 32768real);
    reals::lemma_const(0x43bd_8000);
    assert(num(F379) == 12419072real / 32768real);
    reals::lemma_const(0x43c8_0000);
    assert(num(F400) == 13107200real / 32768real);
    reals::lemma_const(0x43dc_0000);
    assert(num(F440) == 14417920real / 32768real);
    reals::lemma_const(0x44d2_e000);
    assert(num(F1687) == 13819904real / 8192real);
    reals::lemma_const(0x44fe_e000);
    assert(num(F2039) == 16703488real / 8192real);
    reals::lemma_const(0x4500_0000);
    assert(num(F2048) == 8388608real / 4096real);
    reals::lemma_const(0x451c_7000);
    assert(num(F2503) == 10252288real / 4096real);
    reals::lemma_const(0x453c_f000);
    assert(num(F3023) == 12382208real / 4096real);
    reals::lemma_const(0x4596_0000);
    assert(num(F4800) == 9830400real / 2048real);
    reals::lemma_const(0x467f_f000);
    assert(num(F16380) == 16773120real / 1024real);
    reals::lemma_const(0x473b_8000);
    assert(num(F48000) == 12288000real / 256real);
    reals::lemma_const(0x47ff_fe00);
    assert(num(F131068) == 16776704real / 128real);
}

/// A parameter runs from `lo` to `hi`, in equal ratios or in equal steps.
pub open spec fn spans(i: int, lo: real, hi: real, ratios: bool) -> bool {
    &&& about(RANGES[i].0, lo)
    &&& about(RANGES[i].1, hi)
    &&& RANGES[i].2 == ratios
}

/// The parameters that do not run from 0 to 1 in equal steps.
pub open spec fn special(i: int) -> bool {
    i == 4 || i == 6 || i == 30 || i == 31 || i == 33 || i == 34
        || i == 36 || i == 38 || i == 40 || i == 42 || i == 43 || i == 45
        || i == 48 || i == 51 || i == 52 || i == 59
}

/// What every parameter runs through.
pub proof fn law_ranges()
    ensures
        forall|i: int|
            0 <= i < 63 && !special(i) ==> #[trigger] spans(i, 0real, 1real, false),
        spans(4, 1real / 200real, 2real / 5real, true),
        spans(6, 1real / 500real, 2real / 25real, true),
        spans(30, 1real / 1000real, 2real, true),
        spans(31, 1real / 50real, 4real, true),
        spans(33, 1real / 50real, 6real, true),
        spans(34, 1real / 20real, 30real, true),
        spans(36, 0real, 3real, false),
        spans(38, 1real / 20real, 30real, true),
        spans(40, 0real, 3real, false),
        spans(42, 1real / 20real, 8real, true),
        spans(43, 0real, 9real / 10real, false),
        spans(45, 1real / 10real, 5real, true),
        spans(48, 1real / 2real, 12real, true),
        spans(51, 1real / 50real, 6real / 5real, true),
        spans(52, 0real, 19real / 20real, false),
        spans(59, 0real, 5real, false),
{
    reals::lemma_num(F0, F1);
    law_numbers_tiny();
    law_numbers_small();
    law_numbers_part();
    law_numbers_mixed();
    law_numbers_whole();
    assert(RANGES[0] == (F0, F1, false));
    assert(RANGES[1] == (F0, F1, false));
    assert(RANGES[2] == (F0, F1, false));
    assert(RANGES[3] == (F0, F1, false));
    assert(RANGES[4] == (F0_005, F0_4, true));
    assert(RANGES[5] == (F0, F1, false));
    assert(RANGES[6] == (F0_002, F0_08, true));
    assert(RANGES[7] == (F0, F1, false));
    assert(RANGES[8] == (F0, F1, false));
    assert(RANGES[9] == (F0, F1, false));
    assert(RANGES[10] == (F0, F1, false));
    assert(RANGES[11] == (F0, F1, false));
    assert(RANGES[12] == (F0, F1, false));
    assert(RANGES[13] == (F0, F1, false));
    assert(RANGES[14] == (F0, F1, false));
    assert(RANGES[15] == (F0, F1, false));
    assert(RANGES[16] == (F0, F1, false));
    assert(RANGES[17] == (F0, F1, false));
    assert(RANGES[18] == (F0, F1, false));
    assert(RANGES[19] == (F0, F1, false));
    assert(RANGES[20] == (F0, F1, false));
    assert(RANGES[21] == (F0, F1, false));
    assert(RANGES[22] == (F0, F1, false));
    assert(RANGES[23] == (F0, F1, false));
    assert(RANGES[24] == (F0, F1, false));
    assert(RANGES[25] == (F0, F1, false));
    assert(RANGES[26] == (F0, F1, false));
    assert(RANGES[27] == (F0, F1, false));
    assert(RANGES[28] == (F0, F1, false));
    assert(RANGES[29] == (F0, F1, false));
    assert(RANGES[30] == (F0_001, F2, true));
    assert(RANGES[31] == (F0_02, F4, true));
    assert(RANGES[32] == (F0, F1, false));
    assert(RANGES[33] == (F0_02, F6, true));
    assert(RANGES[34] == (F0_05, F30, true));
    assert(RANGES[35] == (F0, F1, false));
    assert(RANGES[36] == (F0, F3, false));
    assert(RANGES[37] == (F0, F1, false));
    assert(RANGES[38] == (F0_05, F30, true));
    assert(RANGES[39] == (F0, F1, false));
    assert(RANGES[40] == (F0, F3, false));
    assert(RANGES[41] == (F0, F1, false));
    assert(RANGES[42] == (F0_05, F8, true));
    assert(RANGES[43] == (F0, F0_9, false));
    assert(RANGES[44] == (F0, F1, false));
    assert(RANGES[45] == (F0_1, F5, true));
    assert(RANGES[46] == (F0, F1, false));
    assert(RANGES[47] == (F0, F1, false));
    assert(RANGES[48] == (F0_5, F12, true));
    assert(RANGES[49] == (F0, F1, false));
    assert(RANGES[50] == (F0, F1, false));
    assert(RANGES[51] == (F0_02, F1_2, true));
    assert(RANGES[52] == (F0, F0_95, false));
    assert(RANGES[53] == (F0, F1, false));
    assert(RANGES[54] == (F0, F1, false));
    assert(RANGES[55] == (F0, F1, false));
    assert(RANGES[56] == (F0, F1, false));
    assert(RANGES[57] == (F0, F1, false));
    assert(RANGES[58] == (F0, F1, false));
    assert(RANGES[59] == (F0, F5, false));
    assert(RANGES[60] == (F0, F1, false));
    assert(RANGES[61] == (F0, F1, false));
    assert(RANGES[62] == (F0, F1, false));
    assert forall|i: int| 0 <= i < 63 && !special(i) implies #[trigger] spans(
        i,
        0real,
        1real,
        false,
    ) by {
        assert(RANGES[i] == (F0, F1, false));
    }
}

} // verus!
