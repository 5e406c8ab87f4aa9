//! AV1 inverse transforms: coefficient scans, the integer butterfly kernels
//! and the two-dimensional row/column reconstruction of residual blocks.
use vstd::prelude::*;
use vstd::arithmetic::power2::{pow2, lemma2_to64, lemma_pow2_pos, lemma_pow2_strictly_increases};
use crate::av1::syntax::{BlockSize, TxSize, TxType};
use crate::error::DecoderError;
use crate::arith::{floor_shift, lemma_i64_shr_is_floor_div, lemma_i64_one_shl, lemma_i32_one_shl};
pub mod dct64;

verus! {

pub const NEW_SQRT2: i64 = 5793;
pub const NEW_INV_SQRT2: i64 = 2896;
pub const NEW_SQRT2_BITS: u8 = 12;

/// Rounding right shift: `(value + 2^(bits-1)) >> bits`, or `value` when `bits` is zero.
pub open spec fn round_shift_spec(value: int, bits: nat) -> int {
    if bits == 0 {
        value
    } else {
        floor_shift(value + pow2((bits - 1) as nat), bits)
    }
}

/// Half of the symmetric range of a `bits`-wide signed integer.
pub open spec fn signed_limit(bits: nat) -> int {
    pow2((bits - 1) as nat) as int
}

/// Saturates `value` to the range of a `bits`-wide signed integer.
#[verifier::opaque]
pub open spec fn clamp_spec(value: int, bits: nat) -> int {
    if value < -signed_limit(bits) {
        -signed_limit(bits)
    } else if value > signed_limit(bits) - 1 {
        signed_limit(bits) - 1
    } else {
        value
    }
}

/// Saturates `value` to `[low, high]`.
pub open spec fn clamp_range(value: int, low: int, high: int) -> int {
    if value < low {
        low
    } else if value > high {
        high
    } else {
        value
    }
}

/// One butterfly rotation with 12-bit weights and rounding.
#[verifier::opaque]
pub open spec fn hb(w0: int, x0: int, w1: int, x1: int) -> int {
    (w0 * x0 + w1 * x1 + 2048) / 4096
}

/// Absolute value.
pub open spec fn iabs(value: int) -> int {
    if value < 0 { -value } else { value }
}

/// Rounded 12-bit fixed-point product.
pub open spec fn mul_round12(value: int, weight: int) -> int {
    (value * weight + 2048) / 4096
}

pub proof fn lemma_small_pow2()
    ensures
        pow2(0) == 1,
        pow2(1) == 2,
        pow2(2) == 4,
        pow2(3) == 8,
        pow2(4) == 16,
        pow2(11) == 2048,
        pow2(12) == 4096,
        pow2(14) == 16384,
        pow2(15) == 32768,
        pow2(17) == 131072,
        pow2(19) == 524288,
        pow2(23) == 8388608,
        pow2(24) == 16777216,
{
    lemma2_to64();
}

/// For the ranges used by the kernels, the saturation limit lies in `[2^15, 2^19]`.
pub proof fn lemma_kernel_limit(bits: nat)
    requires
        16 <= bits <= 20,
    ensures
        32768 <= signed_limit(bits) <= 524288,
{
    lemma_small_pow2();
    if bits > 16 {
        lemma_pow2_strictly_increases(15, (bits - 1) as nat);
    }
    if bits < 20 {
        lemma_pow2_strictly_increases((bits - 1) as nat, 19);
    }
}

/// Rounding right shift of a 64-bit value (`bits == 0` leaves it unchanged).
pub fn round_shift_i64(value: i64, bits: u8) -> (result: i64)
    requires
        bits < 63,
        bits > 0 ==> value + pow2((bits - 1) as nat) <= i64::MAX,
    ensures
        result == round_shift_spec(value as int, bits as nat),
{
    if bits == 0 {
        value
    } else {
        proof {
            lemma_i64_one_shl((bits - 1) as u8);
        }
        let biased = value + (1i64 << (bits - 1));
        proof {
            lemma_i64_shr_is_floor_div(biased, bits);
        }
        biased >> bits
    }
}

/// Saturates `value` to the range of a `bits`-wide signed integer.
pub fn clamp_signed(value: i32, bits: u8) -> (result: i32)
    requires
        1 <= bits <= 31,
    ensures
        result == clamp_spec(value as int, bits as nat),
        -signed_limit(bits as nat) <= result <= signed_limit(bits as nat) - 1,
{
    reveal(clamp_spec);
    proof {
        lemma_i32_one_shl((bits - 1) as u8);
        assert(((bits - 1) as u8) as nat == (bits - 1) as nat);
        lemma_pow2_pos((bits - 1) as nat);
    }
    let limit = 1i32 << (bits - 1);
    assert(limit == signed_limit(bits as nat));
    if value < -limit {
        -limit
    } else if value > limit - 1 {
        limit - 1
    } else {
        value
    }
}

/// Rounding right shift of a 32-bit value, saturated to the `i32` range.
pub fn round2_signed(value: i32, bits: u8) -> (result: i32)
    requires
        bits < 32,
    ensures
        result == clamp_range(round_shift_spec(value as int, bits as nat), i32::MIN as int, i32::MAX as int),
{
    proof {
        if bits > 0 {
            lemma_pow2_strictly_increases((bits - 1) as nat, 31);
            lemma_small_pow2();
            lemma2_to64();
        }
    }
    let shifted = round_shift_i64(value as i64, bits);
    if shifted < i32::MIN as i64 {
        i32::MIN
    } else if shifted > i32::MAX as i64 {
        i32::MAX
    } else {
        shifted as i32
    }
}

/// The AV1 `cos128` table: `round(4096 * cos(index * pi / 128))` for index `0..=63`.
pub open spec fn cospi_spec(index: usize) -> int {
    match index {
        0 => 4096,
        1 => 4095,
        2 => 4091,
        3 => 4085,
        4 => 4076,
        5 => 4065,
        6 => 4052,
        7 => 4036,
        8 => 4017,
        9 => 3996,
        10 => 3973,
        11 => 3948,
        12 => 3920,
        13 => 3889,
        14 => 3857,
        15 => 3822,
        16 => 3784,
        17 => 3745,
        18 => 3703,
        19 => 3659,
        20 => 3612,
        21 => 3564,
        22 => 3513,
        23 => 3461,
        24 => 3406,
        25 => 3349,
        26 => 3290,
        27 => 3229,
        28 => 3166,
        29 => 3102,
        30 => 3035,
        31 => 2967,
        32 => 2896,
        33 => 2824,
        34 => 2751,
        35 => 2675,
        36 => 2598,
        37 => 2520,
        38 => 2440,
        39 => 2359,
        40 => 2276,
        41 => 2191,
        42 => 2106,
        43 => 2019,
        44 => 1931,
        45 => 1842,
        46 => 1751,
        47 => 1660,
        48 => 1567,
        49 => 1474,
        50 => 1380,
        51 => 1285,
        52 => 1189,
        53 => 1092,
        54 => 995,
        55 => 897,
        56 => 799,
        57 => 700,
        58 => 601,
        59 => 501,
        60 => 401,
        61 => 301,
        62 => 201,
        63 => 101,
        _ => 0,
    }
}

/// Looks up `cos(index * pi / 128)` in 12-bit fixed point.
pub fn cospi(index: usize) -> (value: i32)
    requires
        index < 64,
    ensures
        value == cospi_spec(index),
        0 < value <= 4096,
{
    match index {
        0 => 4096,
        1 => 4095,
        2 => 4091,
        3 => 4085,
        4 => 4076,
        5 => 4065,
        6 => 4052,
        7 => 4036,
        8 => 4017,
        9 => 3996,
        10 => 3973,
        11 => 3948,
        12 => 3920,
        13 => 3889,
        14 => 3857,
        15 => 3822,
        16 => 3784,
        17 => 3745,
        18 => 3703,
        19 => 3659,
        20 => 3612,
        21 => 3564,
        22 => 3513,
        23 => 3461,
        24 => 3406,
        25 => 3349,
        26 => 3290,
        27 => 3229,
        28 => 3166,
        29 => 3102,
        30 => 3035,
        31 => 2967,
        32 => 2896,
        33 => 2824,
        34 => 2751,
        35 => 2675,
        36 => 2598,
        37 => 2520,
        38 => 2440,
        39 => 2359,
        40 => 2276,
        41 => 2191,
        42 => 2106,
        43 => 2019,
        44 => 1931,
        45 => 1842,
        46 => 1751,
        47 => 1660,
        48 => 1567,
        49 => 1474,
        50 => 1380,
        51 => 1285,
        52 => 1189,
        53 => 1092,
        54 => 995,
        55 => 897,
        56 => 799,
        57 => 700,
        58 => 601,
        59 => 501,
        60 => 401,
        61 => 301,
        62 => 201,
        63 => 101,
        _ => 0,
    }
}

/// Rotates two inputs by 12-bit weights and rounds: `(w0*x0 + w1*x1 + 2^(bits-1)) >> bits`.
pub fn half_btf(weight0: i32, input0: i32, weight1: i32, input1: i32, bits: u8) -> (result: i32)
    requires
        bits == 12,
        -4096 <= weight0 <= 4096,
        -4096 <= weight1 <= 4096,
        -0x2000_0000 <= input0 <= 0x2000_0000,
        -0x2000_0000 <= input1 <= 0x2000_0000,
    ensures
        result == hb(weight0 as int, input0 as int, weight1 as int, input1 as int),
        -(iabs(input0 as int) + iabs(input1 as int) + 1) <= result <= iabs(input0 as int) + iabs(input1 as int) + 1,
{
    reveal(hb);
    proof {
        lemma_small_pow2();
        assert(-0x200_0000_0000 <= weight0 as int * input0 as int <= 0x200_0000_0000) by (nonlinear_arith)
            requires
                -4096 <= weight0 <= 4096,
                -0x2000_0000 <= input0 <= 0x2000_0000,
        ;
        assert(-0x200_0000_0000 <= weight1 as int * input1 as int <= 0x200_0000_0000) by (nonlinear_arith)
            requires
                -4096 <= weight1 <= 4096,
                -0x2000_0000 <= input1 <= 0x2000_0000,
        ;
    }
    let p0 = weight0 as i64 * input0 as i64;
    let p1 = weight1 as i64 * input1 as i64;
    let shifted = round_shift_i64(p0 + p1, bits);
    proof {
        assert(-0x4000_0001 <= shifted <= 0x4000_0001);
        assert(-(iabs(input0 as int) + iabs(input1 as int) + 1) <= shifted <= iabs(input0 as int) + iabs(input1 as int) + 1) by (nonlinear_arith)
            requires
                shifted == (weight0 as int * input0 as int + weight1 as int * input1 as int + 2048) / 4096,
                -4096 <= weight0 <= 4096,
                -4096 <= weight1 <= 4096,
        ;
    }
    shifted as i32
}

} // verus!

verus! {

/// The values of a sequence of 32-bit integers, as mathematical integers.
pub open spec fn ints(s: Seq<i32>) -> Seq<int> {
    Seq::new(s.len(), |i: int| s[i] as int)
}

/// Every element lies in `[-bound, bound]`.
pub open spec fn bounded(s: Seq<i32>, bound: int) -> bool {
    forall|k: int| 0 <= k < s.len() ==> -bound <= #[trigger] s[k] <= bound
}

/// Largest magnitude accepted by the one-dimensional kernels (a 20-bit value).
pub open spec fn kernel_input_bound() -> int {
    524288
}

/// The one-dimensional transform applied along rows or columns.
#[derive(Debug, Clone, Copy, PartialEq, Eq, Structural)]
pub enum StagedTransform {
    Dct,
    Adst,
    Identity,
}

/// The 4-point inverse DCT.
pub open spec fn idct4_spec(x: Seq<int>, r: nat) -> Seq<int> {
    let s0 = hb(2896, x[0], 2896, x[2]);
    let s1 = hb(2896, x[0], -2896, x[2]);
    let s2 = hb(1567, x[1], -3784, x[3]);
    let s3 = hb(3784, x[1], 1567, x[3]);
    seq![
        clamp_spec(s0 + s3, r),
        clamp_spec(s1 + s2, r),
        clamp_spec(s1 - s2, r),
        clamp_spec(s0 - s3, r),
    ]
}

/// The 4-point inverse ADST (sine basis `sinpi(k, 9)`).
pub open spec fn iadst4_spec(x: Seq<int>) -> Seq<int> {
    if x[0] == 0 && x[1] == 0 && x[2] == 0 && x[3] == 0 {
        seq![0, 0, 0, 0]
    } else {
        let s0 = 1321 * x[0] + 3803 * x[2] + 2482 * x[3] + 3344 * x[1];
        let s1 = 2482 * x[0] - 1321 * x[2] - 3803 * x[3] + 3344 * x[1];
        let s2 = 3344 * (x[0] - x[2] + x[3]);
        let s3 = 3344 * x[1];
        seq![
            (s0 + 2048) / 4096,
            (s1 + 2048) / 4096,
            (s2 + 2048) / 4096,
            (s0 + s1 - 3 * s3 + 2048) / 4096,
        ]
    }
}

/// The identity transform of a 4-point stage: scale by `sqrt(2)` in 12-bit fixed point.
pub open spec fn identity4_spec(x: Seq<int>) -> Seq<int> {
    Seq::new(x.len(), |i: int| mul_round12(x[i], 5793))
}

pub open spec fn staged4_spec(transform: StagedTransform, x: Seq<int>, r: nat) -> Seq<int> {
    match transform {
        StagedTransform::Dct => idct4_spec(x, r),
        StagedTransform::Adst => iadst4_spec(x),
        StagedTransform::Identity => identity4_spec(x),
    }
}

/// The 4-point inverse DCT with intermediate results saturated to `range` bits.
pub fn inverse_dct4(input: [i32; 4], range: u8) -> (output: [i32; 4])
    requires
        16 <= range <= 20,
        bounded(input@, kernel_input_bound()),
    ensures
        ints(output@) == idct4_spec(ints(input@), range as nat),
{
    proof {
        lemma_kernel_limit(range as nat);
    }
    let cospi_16: i32 = 3784;
    let cospi_32: i32 = 2896;
    let cospi_48: i32 = 1567;
    let cos_bit: u8 = 12;
    let stage2 = [
        half_btf(cospi_32, input[0], cospi_32, input[2], cos_bit),
        half_btf(cospi_32, input[0], -cospi_32, input[2], cos_bit),
        half_btf(cospi_48, input[1], -cospi_16, input[3], cos_bit),
        half_btf(cospi_16, input[1], cospi_48, input[3], cos_bit),
    ];
    let output = [
        clamp_signed(stage2[0] + stage2[3], range),
        clamp_signed(stage2[1] + stage2[2], range),
        clamp_signed(stage2[1] - stage2[2], range),
        clamp_signed(stage2[0] - stage2[3], range),
    ];
    assert(ints(output@) =~= idct4_spec(ints(input@), range as nat));
    output
}

} // verus!

verus! {

/// A 12-bit rounding shift keeps values below `2^40` within 28 bits.
pub proof fn lemma_round12_bound(value: int)
    requires
        -0x100_0000_0000 <= value <= 0x100_0000_0000,
    ensures
        -0x1000_0001 <= (value + 2048) / 4096 <= 0x1000_0001,
{
}

/// The 4-point inverse ADST.
pub fn inverse_adst4(input: [i32; 4]) -> (output: [i32; 4])
    requires
        bounded(input@, kernel_input_bound()),
    ensures
        ints(output@) == iadst4_spec(ints(input@)),
{
    let sinpi_1_9: i64 = 1321;
    let sinpi_2_9: i64 = 2482;
    let sinpi_3_9: i64 = 3344;
    let sinpi_4_9: i64 = 3803;
    let sin_bit: u8 = 12;

    if input[0] == 0 && input[1] == 0 && input[2] == 0 && input[3] == 0 {
        let zero = [0i32; 4];
        assert(ints(zero@) =~= iadst4_spec(ints(input@)));
        return zero;
    }
    let x0 = input[0] as i64;
    let x1 = input[1] as i64;
    let x2 = input[2] as i64;
    let x3 = input[3] as i64;
    let mut s0 = sinpi_1_9 * x0 + sinpi_4_9 * x2 + sinpi_2_9 * x3;
    let mut s1 = sinpi_2_9 * x0 - sinpi_1_9 * x2 - sinpi_4_9 * x3;
    let s3 = sinpi_3_9 * x1;
    let s2 = sinpi_3_9 * (x0 - x2 + x3);
    s0 += s3;
    s1 += s3;
    proof {
        lemma_small_pow2();
        assert(-0x10_0000_0000 <= s0 <= 0x10_0000_0000);
        assert(-0x10_0000_0000 <= s1 <= 0x10_0000_0000);
        assert(-0x10_0000_0000 <= s2 <= 0x10_0000_0000);
        assert(-0x10_0000_0000 <= s3 <= 0x10_0000_0000);
        lemma_round12_bound(s0 as int);
        lemma_round12_bound(s1 as int);
        lemma_round12_bound(s2 as int);
        lemma_round12_bound(s0 + s1 - 3 * s3);
    }
    let r0 = round_shift_i64(s0, sin_bit);
    let r1 = round_shift_i64(s1, sin_bit);
    let r2 = round_shift_i64(s2, sin_bit);
    let r3 = round_shift_i64(s0 + s1 - 3 * s3, sin_bit);
    let output = [r0 as i32, r1 as i32, r2 as i32, r3 as i32];
    assert(ints(output@) =~= iadst4_spec(ints(input@)));
    output
}

/// Scales a value by `sqrt(2)` in 12-bit fixed point (the 4-point identity stage).
fn identity4_value(value: i32) -> (result: i32)
    requires
        -kernel_input_bound() <= value <= kernel_input_bound(),
    ensures
        result == mul_round12(value as int, 5793),
{
    proof {
        lemma_small_pow2();
    }
    round_shift_i64(value as i64 * NEW_SQRT2, NEW_SQRT2_BITS) as i32
}

/// One 4-point stage of the two-dimensional inverse transform.
pub fn inverse_staged_4(transform: StagedTransform, input: [i32; 4], range: u8) -> (output: [i32; 4])
    requires
        16 <= range <= 20,
        bounded(input@, kernel_input_bound()),
    ensures
        ints(output@) == staged4_spec(transform, ints(input@), range as nat),
{
    match transform {
        StagedTransform::Dct => inverse_dct4(input, range),
        StagedTransform::Adst => inverse_adst4(input),
        StagedTransform::Identity => {
            let output = [
                identity4_value(input[0]),
                identity4_value(input[1]),
                identity4_value(input[2]),
                identity4_value(input[3]),
            ];
            assert(ints(output@) =~= identity4_spec(ints(input@)));
            output
        },
    }
}

/// The (vertical, horizontal) one-dimensional transforms of a transform type.
pub open spec fn staged_pair_spec(tx_type: crate::av1::syntax::TxType) -> (StagedTransform, StagedTransform) {
    match tx_type {
        crate::av1::syntax::TxType::DctDct => (StagedTransform::Dct, StagedTransform::Dct),
        crate::av1::syntax::TxType::AdstDct => (StagedTransform::Adst, StagedTransform::Dct),
        crate::av1::syntax::TxType::DctAdst => (StagedTransform::Dct, StagedTransform::Adst),
        crate::av1::syntax::TxType::AdstAdst => (StagedTransform::Adst, StagedTransform::Adst),
        crate::av1::syntax::TxType::Identity => (StagedTransform::Identity, StagedTransform::Identity),
        crate::av1::syntax::TxType::VerticalDct => (StagedTransform::Dct, StagedTransform::Identity),
        crate::av1::syntax::TxType::HorizontalDct => (StagedTransform::Identity, StagedTransform::Dct),
    }
}

/// Splits a transform type into its (vertical, horizontal) one-dimensional stages.
pub fn staged_transform_pair(tx_type: crate::av1::syntax::TxType) -> (pair: (StagedTransform, StagedTransform))
    ensures
        pair == staged_pair_spec(tx_type),
{
    match tx_type {
        crate::av1::syntax::TxType::DctDct => (StagedTransform::Dct, StagedTransform::Dct),
        crate::av1::syntax::TxType::AdstDct => (StagedTransform::Adst, StagedTransform::Dct),
        crate::av1::syntax::TxType::DctAdst => (StagedTransform::Dct, StagedTransform::Adst),
        crate::av1::syntax::TxType::AdstAdst => (StagedTransform::Adst, StagedTransform::Adst),
        crate::av1::syntax::TxType::Identity => (StagedTransform::Identity, StagedTransform::Identity),
        crate::av1::syntax::TxType::VerticalDct => (StagedTransform::Dct, StagedTransform::Identity),
        crate::av1::syntax::TxType::HorizontalDct => (StagedTransform::Identity, StagedTransform::Dct),
    }
}

} // verus!

verus! {

/// The 8-point inverse DCT butterfly network.
pub open spec fn idct8_spec(x: Seq<int>, r: nat) -> Seq<int> {
    let p0 = x[0];
    let p1 = x[1];
    let p2 = x[2];
    let p3 = x[3];
    let p4 = x[4];
    let p5 = x[5];
    let p6 = x[6];
    let p7 = x[7];
    let s20 = p0;
    let s21 = p4;
    let s22 = p2;
    let s23 = p6;
    let s24 = hb(cospi_spec(56), p1, -cospi_spec(8), p7);
    let s25 = hb(cospi_spec(24), p5, -cospi_spec(40), p3);
    let s26 = hb(cospi_spec(40), p5, cospi_spec(24), p3);
    let s27 = hb(cospi_spec(8), p1, cospi_spec(56), p7);
    let s30 = hb(cospi_spec(32), s20, cospi_spec(32), s21);
    let s31 = hb(cospi_spec(32), s20, -cospi_spec(32), s21);
    let s32 = hb(cospi_spec(48), s22, -cospi_spec(16), s23);
    let s33 = hb(cospi_spec(16), s22, cospi_spec(48), s23);
    let s34 = clamp_spec(s24 + s25, r);
    let s35 = clamp_spec(s24 - s25, r);
    let s36 = clamp_spec(-s26 + s27, r);
    let s37 = clamp_spec(s26 + s27, r);
    let s40 = clamp_spec(s30 + s33, r);
    let s41 = clamp_spec(s31 + s32, r);
    let s42 = clamp_spec(s31 - s32, r);
    let s43 = clamp_spec(s30 - s33, r);
    let s44 = s34;
    let s45 = hb(-cospi_spec(32), s35, cospi_spec(32), s36);
    let s46 = hb(cospi_spec(32), s35, cospi_spec(32), s36);
    let s47 = s37;
    seq![
        clamp_spec(s40 + s47, r),
        clamp_spec(s41 + s46, r),
        clamp_spec(s42 + s45, r),
        clamp_spec(s43 + s44, r),
        clamp_spec(s43 - s44, r),
        clamp_spec(s42 - s45, r),
        clamp_spec(s41 - s46, r),
        clamp_spec(s40 - s47, r),
    ]
}

/// The 8-point inverse DCT with intermediate results saturated to `r` bits.
pub fn inverse_dct8(i: [i32; 8], r: u8) -> (output: [i32; 8])
    requires
        16 <= r <= 20,
        bounded(i@, kernel_input_bound()),
    ensures
        ints(output@) == idct8_spec(ints(i@), r as nat),
{
    proof {
        lemma_kernel_limit(r as nat);
    }
    let B: u8 = 12;
    let p = [i[0], i[1], i[2], i[3], i[4], i[5], i[6], i[7]];
    let s2 = [
        p[0],
        p[4],
        p[2],
        p[6],
        half_btf(cospi(56), p[1], -cospi(8), p[7], B),
        half_btf(cospi(24), p[5], -cospi(40), p[3], B),
        half_btf(cospi(40), p[5], cospi(24), p[3], B),
        half_btf(cospi(8), p[1], cospi(56), p[7], B),
    ];
    proof {
        assert(-524288 <= s2[0] <= 524288);
        assert(-524288 <= s2[1] <= 524288);
        assert(-524288 <= s2[2] <= 524288);
        assert(-524288 <= s2[3] <= 524288);
        assert(-1048577 <= s2[4] <= 1048577);
        assert(-1048577 <= s2[5] <= 1048577);
        assert(-1048577 <= s2[6] <= 1048577);
        assert(-1048577 <= s2[7] <= 1048577);
    }
    let s3 = [
        half_btf(cospi(32), s2[0], cospi(32), s2[1], B),
        half_btf(cospi(32), s2[0], -cospi(32), s2[1], B),
        half_btf(cospi(48), s2[2], -cospi(16), s2[3], B),
        half_btf(cospi(16), s2[2], cospi(48), s2[3], B),
        clamp_signed(s2[4] + s2[5], r),
        clamp_signed(s2[4] - s2[5], r),
        clamp_signed(-s2[6] + s2[7], r),
        clamp_signed(s2[6] + s2[7], r),
    ];
    proof {
        assert(-1048577 <= s3[0] <= 1048577);
        assert(-1048577 <= s3[1] <= 1048577);
        assert(-1048577 <= s3[2] <= 1048577);
        assert(-1048577 <= s3[3] <= 1048577);
        assert(-524288 <= s3[4] <= 524288);
        assert(-524288 <= s3[5] <= 524288);
        assert(-524288 <= s3[6] <= 524288);
        assert(-524288 <= s3[7] <= 524288);
    }
    let s4 = [
        clamp_signed(s3[0] + s3[3], r),
        clamp_signed(s3[1] + s3[2], r),
        clamp_signed(s3[1] - s3[2], r),
        clamp_signed(s3[0] - s3[3], r),
        s3[4],
        half_btf(-cospi(32), s3[5], cospi(32), s3[6], B),
        half_btf(cospi(32), s3[5], cospi(32), s3[6], B),
        s3[7],
    ];
    proof {
        assert(-524288 <= s4[0] <= 524288);
        assert(-524288 <= s4[1] <= 524288);
        assert(-524288 <= s4[2] <= 524288);
        assert(-524288 <= s4[3] <= 524288);
        assert(-524288 <= s4[4] <= 524288);
        assert(-1048577 <= s4[5] <= 1048577);
        assert(-1048577 <= s4[6] <= 1048577);
        assert(-524288 <= s4[7] <= 524288);
    }
    let out = [
        clamp_signed(s4[0] + s4[7], r),
        clamp_signed(s4[1] + s4[6], r),
        clamp_signed(s4[2] + s4[5], r),
        clamp_signed(s4[3] + s4[4], r),
        clamp_signed(s4[3] - s4[4], r),
        clamp_signed(s4[2] - s4[5], r),
        clamp_signed(s4[1] - s4[6], r),
        clamp_signed(s4[0] - s4[7], r),
    ];
    assert(ints(out@) =~= idct8_spec(ints(i@), r as nat));
    out
}

/// The 8-point inverse ADST butterfly network.
pub open spec fn iadst8_spec(x: Seq<int>, r: nat) -> Seq<int> {
    let p0 = x[7];
    let p1 = x[0];
    let p2 = x[5];
    let p3 = x[2];
    let p4 = x[3];
    let p5 = x[4];
    let p6 = x[1];
    let p7 = x[6];
    let s20 = hb(cospi_spec(4), p0, cospi_spec(60), p1);
    let s21 = hb(cospi_spec(60), p0, -cospi_spec(4), p1);
    let s22 = hb(cospi_spec(20), p2, cospi_spec(44), p3);
    let s23 = hb(cospi_spec(44), p2, -cospi_spec(20), p3);
    let s24 = hb(cospi_spec(36), p4, cospi_spec(28), p5);
    let s25 = hb(cospi_spec(28), p4, -cospi_spec(36), p5);
    let s26 = hb(cospi_spec(52), p6, cospi_spec(12), p7);
    let s27 = hb(cospi_spec(12), p6, -cospi_spec(52), p7);
    let s30 = clamp_spec(s20 + s24, r);
    let s31 = clamp_spec(s21 + s25, r);
    let s32 = clamp_spec(s22 + s26, r);
    let s33 = clamp_spec(s23 + s27, r);
    let s34 = clamp_spec(s20 - s24, r);
    let s35 = clamp_spec(s21 - s25, r);
    let s36 = clamp_spec(s22 - s26, r);
    let s37 = clamp_spec(s23 - s27, r);
    let s40 = s30;
    let s41 = s31;
    let s42 = s32;
    let s43 = s33;
    let s44 = hb(cospi_spec(16), s34, cospi_spec(48), s35);
    let s45 = hb(cospi_spec(48), s34, -cospi_spec(16), s35);
    let s46 = hb(-cospi_spec(48), s36, cospi_spec(16), s37);
    let s47 = hb(cospi_spec(16), s36, cospi_spec(48), s37);
    let s50 = clamp_spec(s40 + s42, r);
    let s51 = clamp_spec(s41 + s43, r);
    let s52 = clamp_spec(s40 - s42, r);
    let s53 = clamp_spec(s41 - s43, r);
    let s54 = clamp_spec(s44 + s46, r);
    let s55 = clamp_spec(s45 + s47, r);
    let s56 = clamp_spec(s44 - s46, r);
    let s57 = clamp_spec(s45 - s47, r);
    let s60 = s50;
    let s61 = s51;
    let s62 = hb(cospi_spec(32), s52, cospi_spec(32), s53);
    let s63 = hb(cospi_spec(32), s52, -cospi_spec(32), s53);
    let s64 = s54;
    let s65 = s55;
    let s66 = hb(cospi_spec(32), s56, cospi_spec(32), s57);
    let s67 = hb(cospi_spec(32), s56, -cospi_spec(32), s57);
    seq![
        s60,
        -s64,
        s66,
        -s62,
        s63,
        -s67,
        s65,
        -s61,
    ]
}

/// The 8-point inverse ADST with intermediate results saturated to `r` bits.
pub fn inverse_adst8(i: [i32; 8], r: u8) -> (output: [i32; 8])
    requires
        16 <= r <= 20,
        bounded(i@, kernel_input_bound()),
    ensures
        ints(output@) == iadst8_spec(ints(i@), r as nat),
{
    proof {
        lemma_kernel_limit(r as nat);
    }
    let B: u8 = 12;
    let p = [i[7], i[0], i[5], i[2], i[3], i[4], i[1], i[6]];
    let s2 = [
        half_btf(cospi(4), p[0], cospi(60), p[1], B),
        half_btf(cospi(60), p[0], -cospi(4), p[1], B),
        half_btf(cospi(20), p[2], cospi(44), p[3], B),
        half_btf(cospi(44), p[2], -cospi(20), p[3], B),
        half_btf(cospi(36), p[4], cospi(28), p[5], B),
        half_btf(cospi(28), p[4], -cospi(36), p[5], B),
        half_btf(cospi(52), p[6], cospi(12), p[7], B),
        half_btf(cospi(12), p[6], -cospi(52), p[7], B),
    ];
    proof {
        assert(-1048577 <= s2[0] <= 1048577);
        assert(-1048577 <= s2[1] <= 1048577);
        assert(-1048577 <= s2[2] <= 1048577);
        assert(-1048577 <= s2[3] <= 1048577);
        assert(-1048577 <= s2[4] <= 1048577);
        assert(-1048577 <= s2[5] <= 1048577);
        assert(-1048577 <= s2[6] <= 1048577);
        assert(-1048577 <= s2[7] <= 1048577);
    }
    let s3 = [
        clamp_signed(s2[0] + s2[4], r),
        clamp_signed(s2[1] + s2[5], r),
        clamp_signed(s2[2] + s2[6], r),
        clamp_signed(s2[3] + s2[7], r),
        clamp_signed(s2[0] - s2[4], r),
        clamp_signed(s2[1] - s2[5], r),
        clamp_signed(s2[2] - s2[6], r),
        clamp_signed(s2[3] - s2[7], r),
    ];
    proof {
        assert(-524288 <= s3[0] <= 524288);
        assert(-524288 <= s3[1] <= 524288);
        assert(-524288 <= s3[2] <= 524288);
        assert(-524288 <= s3[3] <= 524288);
        assert(-524288 <= s3[4] <= 524288);
        assert(-524288 <= s3[5] <= 524288);
        assert(-524288 <= s3[6] <= 524288);
        assert(-524288 <= s3[7] <= 524288);
    }
    let s4 = [
        s3[0],
        s3[1],
        s3[2],
        s3[3],
        half_btf(cospi(16), s3[4], cospi(48), s3[5], B),
        half_btf(cospi(48), s3[4], -cospi(16), s3[5], B),
        half_btf(-cospi(48), s3[6], cospi(16), s3[7], B),
        half_btf(cospi(16), s3[6], cospi(48), s3[7], B),
    ];
    proof {
        assert(-524288 <= s4[0] <= 524288);
        assert(-524288 <= s4[1] <= 524288);
        assert(-524288 <= s4[2] <= 524288);
        assert(-524288 <= s4[3] <= 524288);
        assert(-1048577 <= s4[4] <= 1048577);
        assert(-1048577 <= s4[5] <= 1048577);
        assert(-1048577 <= s4[6] <= 1048577);
        assert(-1048577 <= s4[7] <= 1048577);
    }
    let s5 = [
        clamp_signed(s4[0] + s4[2], r),
        clamp_signed(s4[1] + s4[3], r),
        clamp_signed(s4[0] - s4[2], r),
        clamp_signed(s4[1] - s4[3], r),
        clamp_signed(s4[4] + s4[6], r),
        clamp_signed(s4[5] + s4[7], r),
        clamp_signed(s4[4] - s4[6], r),
        clamp_signed(s4[5] - s4[7], r),
    ];
    proof {
        assert(-524288 <= s5[0] <= 524288);
        assert(-524288 <= s5[1] <= 524288);
        assert(-524288 <= s5[2] <= 524288);
        assert(-524288 <= s5[3] <= 524288);
        assert(-524288 <= s5[4] <= 524288);
        assert(-524288 <= s5[5] <= 524288);
        assert(-524288 <= s5[6] <= 524288);
        assert(-524288 <= s5[7] <= 524288);
    }
    let s6 = [
        s5[0],
        s5[1],
        half_btf(cospi(32), s5[2], cospi(32), s5[3], B),
        half_btf(cospi(32), s5[2], -cospi(32), s5[3], B),
        s5[4],
        s5[5],
        half_btf(cospi(32), s5[6], cospi(32), s5[7], B),
        half_btf(cospi(32), s5[6], -cospi(32), s5[7], B),
    ];
    proof {
        assert(-524288 <= s6[0] <= 524288);
        assert(-524288 <= s6[1] <= 524288);
        assert(-1048577 <= s6[2] <= 1048577);
        assert(-1048577 <= s6[3] <= 1048577);
        assert(-524288 <= s6[4] <= 524288);
        assert(-524288 <= s6[5] <= 524288);
        assert(-1048577 <= s6[6] <= 1048577);
        assert(-1048577 <= s6[7] <= 1048577);
    }
    let out = [
        s6[0],
        -s6[4],
        s6[6],
        -s6[2],
        s6[3],
        -s6[7],
        s6[5],
        -s6[1],
    ];
    assert(ints(out@) =~= iadst8_spec(ints(i@), r as nat));
    out
}

} // verus!

verus! {

/// The 16-point inverse DCT butterfly network.
pub open spec fn idct16_spec(x: Seq<int>, r: nat) -> Seq<int> {
    let p0 = x[0];
    let p1 = x[8];
    let p2 = x[4];
    let p3 = x[12];
    let p4 = x[2];
    let p5 = x[10];
    let p6 = x[6];
    let p7 = x[14];
    let p8 = x[1];
    let p9 = x[9];
    let p10 = x[5];
    let p11 = x[13];
    let p12 = x[3];
    let p13 = x[11];
    let p14 = x[7];
    let p15 = x[15];
    let a0 = p0;
    let a1 = p1;
    let a2 = p2;
    let a3 = p3;
    let a4 = p4;
    let a5 = p5;
    let a6 = p6;
    let a7 = p7;
    let a8 = hb(cospi_spec(60), p8, -cospi_spec(4), p15);
    let a9 = hb(cospi_spec(28), p9, -cospi_spec(36), p14);
    let a10 = hb(cospi_spec(44), p10, -cospi_spec(20), p13);
    let a11 = hb(cospi_spec(12), p11, -cospi_spec(52), p12);
    let a12 = hb(cospi_spec(52), p11, cospi_spec(12), p12);
    let a13 = hb(cospi_spec(20), p10, cospi_spec(44), p13);
    let a14 = hb(cospi_spec(36), p9, cospi_spec(28), p14);
    let a15 = hb(cospi_spec(4), p8, cospi_spec(60), p15);
    let b0 = a0;
    let b1 = a1;
    let b2 = a2;
    let b3 = a3;
    let b4 = hb(cospi_spec(56), a4, -cospi_spec(8), a7);
    let b5 = hb(cospi_spec(24), a5, -cospi_spec(40), a6);
    let b6 = hb(cospi_spec(40), a5, cospi_spec(24), a6);
    let b7 = hb(cospi_spec(8), a4, cospi_spec(56), a7);
    let b8 = clamp_spec(a8 + a9, r);
    let b9 = clamp_spec(a8 - a9, r);
    let b10 = clamp_spec(-a10 + a11, r);
    let b11 = clamp_spec(a10 + a11, r);
    let b12 = clamp_spec(a12 + a13, r);
    let b13 = clamp_spec(a12 - a13, r);
    let b14 = clamp_spec(-a14 + a15, r);
    let b15 = clamp_spec(a14 + a15, r);
    let c0 = hb(cospi_spec(32), b0, cospi_spec(32), b1);
    let c1 = hb(cospi_spec(32), b0, -cospi_spec(32), b1);
    let c2 = hb(cospi_spec(48), b2, -cospi_spec(16), b3);
    let c3 = hb(cospi_spec(16), b2, cospi_spec(48), b3);
    let c4 = clamp_spec(b4 + b5, r);
    let c5 = clamp_spec(b4 - b5, r);
    let c6 = clamp_spec(-b6 + b7, r);
    let c7 = clamp_spec(b6 + b7, r);
    let c8 = b8;
    let c9 = hb(-cospi_spec(16), b9, cospi_spec(48), b14);
    let c10 = hb(-cospi_spec(48), b10, -cospi_spec(16), b13);
    let c11 = b11;
    let c12 = b12;
    let c13 = hb(-cospi_spec(16), b10, cospi_spec(48), b13);
    let c14 = hb(cospi_spec(48), b9, cospi_spec(16), b14);
    let c15 = b15;
    let d0 = clamp_spec(c0 + c3, r);
    let d1 = clamp_spec(c1 + c2, r);
    let d2 = clamp_spec(c1 - c2, r);
    let d3 = clamp_spec(c0 - c3, r);
    let d4 = c4;
    let d5 = hb(-cospi_spec(32), c5, cospi_spec(32), c6);
    let d6 = hb(cospi_spec(32), c5, cospi_spec(32), c6);
    let d7 = c7;
    let d8 = clamp_spec(c8 + c11, r);
    let d9 = clamp_spec(c9 + c10, r);
    let d10 = clamp_spec(c9 - c10, r);
    let d11 = clamp_spec(c8 - c11, r);
    let d12 = clamp_spec(-c12 + c15, r);
    let d13 = clamp_spec(-c13 + c14, r);
    let d14 = clamp_spec(c13 + c14, r);
    let d15 = clamp_spec(c12 + c15, r);
    let e0 = clamp_spec(d0 + d7, r);
    let e1 = clamp_spec(d1 + d6, r);
    let e2 = clamp_spec(d2 + d5, r);
    let e3 = clamp_spec(d3 + d4, r);
    let e4 = clamp_spec(d3 - d4, r);
    let e5 = clamp_spec(d2 - d5, r);
    let e6 = clamp_spec(d1 - d6, r);
    let e7 = clamp_spec(d0 - d7, r);
    let e8 = d8;
    let e9 = d9;
    let e10 = hb(-cospi_spec(32), d10, cospi_spec(32), d13);
    let e11 = hb(-cospi_spec(32), d11, cospi_spec(32), d12);
    let e12 = hb(cospi_spec(32), d11, cospi_spec(32), d12);
    let e13 = hb(cospi_spec(32), d10, cospi_spec(32), d13);
    let e14 = d14;
    let e15 = d15;
    seq![
        clamp_spec(e0 + e15, r),
        clamp_spec(e1 + e14, r),
        clamp_spec(e2 + e13, r),
        clamp_spec(e3 + e12, r),
        clamp_spec(e4 + e11, r),
        clamp_spec(e5 + e10, r),
        clamp_spec(e6 + e9, r),
        clamp_spec(e7 + e8, r),
        clamp_spec(e7 - e8, r),
        clamp_spec(e6 - e9, r),
        clamp_spec(e5 - e10, r),
        clamp_spec(e4 - e11, r),
        clamp_spec(e3 - e12, r),
        clamp_spec(e2 - e13, r),
        clamp_spec(e1 - e14, r),
        clamp_spec(e0 - e15, r),
    ]
}

/// The 16-point inverse DCT with intermediate results saturated to `r` bits.
pub fn inverse_dct16(i: [i32; 16], r: u8) -> (output: [i32; 16])
    requires
        16 <= r <= 20,
        bounded(i@, kernel_input_bound()),
    ensures
        ints(output@) == idct16_spec(ints(i@), r as nat),
{
    proof {
        lemma_kernel_limit(r as nat);
    }
    let B: u8 = 12;
    let p = [i[0], i[8], i[4], i[12], i[2], i[10], i[6], i[14], i[1], i[9], i[5], i[13], i[3], i[11], i[7], i[15]];
    let a = [
        p[0],
        p[1],
        p[2],
        p[3],
        p[4],
        p[5],
        p[6],
        p[7],
        half_btf(cospi(60), p[8], -cospi(4), p[15], B),
        half_btf(cospi(28), p[9], -cospi(36), p[14], B),
        half_btf(cospi(44), p[10], -cospi(20), p[13], B),
        half_btf(cospi(12), p[11], -cospi(52), p[12], B),
        half_btf(cospi(52), p[11], cospi(12), p[12], B),
        half_btf(cospi(20), p[10], cospi(44), p[13], B),
        half_btf(cospi(36), p[9], cospi(28), p[14], B),
        half_btf(cospi(4), p[8], cospi(60), p[15], B),
    ];
    proof {
        assert(-524288 <= a[0] <= 524288);
        assert(-524288 <= a[1] <= 524288);
        assert(-524288 <= a[2] <= 524288);
        assert(-524288 <= a[3] <= 524288);
        assert(-524288 <= a[4] <= 524288);
        assert(-524288 <= a[5] <= 524288);
        assert(-524288 <= a[6] <= 524288);
        assert(-524288 <= a[7] <= 524288);
        assert(-1048577 <= a[8] <= 1048577);
        assert(-1048577 <= a[9] <= 1048577);
        assert(-1048577 <= a[10] <= 1048577);
        assert(-1048577 <= a[11] <= 1048577);
        assert(-1048577 <= a[12] <= 1048577);
        assert(-1048577 <= a[13] <= 1048577);
        assert(-1048577 <= a[14] <= 1048577);
        assert(-1048577 <= a[15] <= 1048577);
    }
    let b = [
        a[0],
        a[1],
        a[2],
        a[3],
        half_btf(cospi(56), a[4], -cospi(8), a[7], B),
        half_btf(cospi(24), a[5], -cospi(40), a[6], B),
        half_btf(cospi(40), a[5], cospi(24), a[6], B),
        half_btf(cospi(8), a[4], cospi(56), a[7], B),
        clamp_signed(a[8] + a[9], r),
        clamp_signed(a[8] - a[9], r),
        clamp_signed(-a[10] + a[11], r),
        clamp_signed(a[10] + a[11], r),
        clamp_signed(a[12] + a[13], r),
        clamp_signed(a[12] - a[13], r),
        clamp_signed(-a[14] + a[15], r),
        clamp_signed(a[14] + a[15], r),
    ];
    proof {
        assert(-524288 <= b[0] <= 524288);
        assert(-524288 <= b[1] <= 524288);
        assert(-524288 <= b[2] <= 524288);
        assert(-524288 <= b[3] <= 524288);
        assert(-1048577 <= b[4] <= 1048577);
        assert(-1048577 <= b[5] <= 1048577);
        assert(-1048577 <= b[6] <= 1048577);
        assert(-1048577 <= b[7] <= 1048577);
        assert(-524288 <= b[8] <= 524288);
        assert(-524288 <= b[9] <= 524288);
        assert(-524288 <= b[10] <= 524288);
        assert(-524288 <= b[11] <= 524288);
        assert(-524288 <= b[12] <= 524288);
        assert(-524288 <= b[13] <= 524288);
        assert(-524288 <= b[14] <= 524288);
        assert(-524288 <= b[15] <= 524288);
    }
    let c = [
        half_btf(cospi(32), b[0], cospi(32), b[1], B),
        half_btf(cospi(32), b[0], -cospi(32), b[1], B),
        half_btf(cospi(48), b[2], -cospi(16), b[3], B),
        half_btf(cospi(16), b[2], cospi(48), b[3], B),
        clamp_signed(b[4] + b[5], r),
        clamp_signed(b[4] - b[5], r),
        clamp_signed(-b[6] + b[7], r),
        clamp_signed(b[6] + b[7], r),
        b[8],
        half_btf(-cospi(16), b[9], cospi(48), b[14], B),
        half_btf(-cospi(48), b[10], -cospi(16), b[13], B),
        b[11],
        b[12],
        half_btf(-cospi(16), b[10], cospi(48), b[13], B),
        half_btf(cospi(48), b[9], cospi(16), b[14], B),
        b[15],
    ];
    proof {
        assert(-1048577 <= c[0] <= 1048577);
        assert(-1048577 <= c[1] <= 1048577);
        assert(-1048577 <= c[2] <= 1048577);
        assert(-1048577 <= c[3] <= 1048577);
        assert(-524288 <= c[4] <= 524288);
        assert(-524288 <= c[5] <= 524288);
        assert(-524288 <= c[6] <= 524288);
        assert(-524288 <= c[7] <= 524288);
        assert(-524288 <= c[8] <= 524288);
        assert(-1048577 <= c[9] <= 1048577);
        assert(-1048577 <= c[10] <= 1048577);
        assert(-524288 <= c[11] <= 524288);
        assert(-524288 <= c[12] <= 524288);
        assert(-1048577 <= c[13] <= 1048577);
        assert(-1048577 <= c[14] <= 1048577);
        assert(-524288 <= c[15] <= 524288);
    }
    let d = [
        clamp_signed(c[0] + c[3], r),
        clamp_signed(c[1] + c[2], r),
        clamp_signed(c[1] - c[2], r),
        clamp_signed(c[0] - c[3], r),
        c[4],
        half_btf(-cospi(32), c[5], cospi(32), c[6], B),
        half_btf(cospi(32), c[5], cospi(32), c[6], B),
        c[7],
        clamp_signed(c[8] + c[11], r),
        clamp_signed(c[9] + c[10], r),
        clamp_signed(c[9] - c[10], r),
        clamp_signed(c[8] - c[11], r),
        clamp_signed(-c[12] + c[15], r),
        clamp_signed(-c[13] + c[14], r),
        clamp_signed(c[13] + c[14], r),
        clamp_signed(c[12] + c[15], r),
    ];
    proof {
        assert(-524288 <= d[0] <= 524288);
        assert(-524288 <= d[1] <= 524288);
        assert(-524288 <= d[2] <= 524288);
        assert(-524288 <= d[3] <= 524288);
        assert(-524288 <= d[4] <= 524288);
        assert(-1048577 <= d[5] <= 1048577);
        assert(-1048577 <= d[6] <= 1048577);
        assert(-524288 <= d[7] <= 524288);
        assert(-524288 <= d[8] <= 524288);
        assert(-524288 <= d[9] <= 524288);
        assert(-524288 <= d[10] <= 524288);
        assert(-524288 <= d[11] <= 524288);
        assert(-524288 <= d[12] <= 524288);
        assert(-524288 <= d[13] <= 524288);
        assert(-524288 <= d[14] <= 524288);
        assert(-524288 <= d[15] <= 524288);
    }
    let e = [
        clamp_signed(d[0] + d[7], r),
        clamp_signed(d[1] + d[6], r),
        clamp_signed(d[2] + d[5], r),
        clamp_signed(d[3] + d[4], r),
        clamp_signed(d[3] - d[4], r),
        clamp_signed(d[2] - d[5], r),
        clamp_signed(d[1] - d[6], r),
        clamp_signed(d[0] - d[7], r),
        d[8],
        d[9],
        half_btf(-cospi(32), d[10], cospi(32), d[13], B),
        half_btf(-cospi(32), d[11], cospi(32), d[12], B),
        half_btf(cospi(32), d[11], cospi(32), d[12], B),
        half_btf(cospi(32), d[10], cospi(32), d[13], B),
        d[14],
        d[15],
    ];
    proof {
        assert(-524288 <= e[0] <= 524288);
        assert(-524288 <= e[1] <= 524288);
        assert(-524288 <= e[2] <= 524288);
        assert(-524288 <= e[3] <= 524288);
        assert(-524288 <= e[4] <= 524288);
        assert(-524288 <= e[5] <= 524288);
        assert(-524288 <= e[6] <= 524288);
        assert(-524288 <= e[7] <= 524288);
        assert(-524288 <= e[8] <= 524288);
        assert(-524288 <= e[9] <= 524288);
        assert(-1048577 <= e[10] <= 1048577);
        assert(-1048577 <= e[11] <= 1048577);
        assert(-1048577 <= e[12] <= 1048577);
        assert(-1048577 <= e[13] <= 1048577);
        assert(-524288 <= e[14] <= 524288);
        assert(-524288 <= e[15] <= 524288);
    }
    let out = [
        clamp_signed(e[0] + e[15], r),
        clamp_signed(e[1] + e[14], r),
        clamp_signed(e[2] + e[13], r),
        clamp_signed(e[3] + e[12], r),
        clamp_signed(e[4] + e[11], r),
        clamp_signed(e[5] + e[10], r),
        clamp_signed(e[6] + e[9], r),
        clamp_signed(e[7] + e[8], r),
        clamp_signed(e[7] - e[8], r),
        clamp_signed(e[6] - e[9], r),
        clamp_signed(e[5] - e[10], r),
        clamp_signed(e[4] - e[11], r),
        clamp_signed(e[3] - e[12], r),
        clamp_signed(e[2] - e[13], r),
        clamp_signed(e[1] - e[14], r),
        clamp_signed(e[0] - e[15], r),
    ];
    assert(ints(out@) =~= idct16_spec(ints(i@), r as nat));
    out
}

/// The 16-point inverse ADST butterfly network.
pub open spec fn iadst16_spec(x: Seq<int>, r: nat) -> Seq<int> {
    let p0 = x[15];
    let p1 = x[0];
    let p2 = x[13];
    let p3 = x[2];
    let p4 = x[11];
    let p5 = x[4];
    let p6 = x[9];
    let p7 = x[6];
    let p8 = x[7];
    let p9 = x[8];
    let p10 = x[5];
    let p11 = x[10];
    let p12 = x[3];
    let p13 = x[12];
    let p14 = x[1];
    let p15 = x[14];
    let a0 = hb(cospi_spec(2), p0, cospi_spec(62), p1);
    let a1 = hb(cospi_spec(62), p0, -cospi_spec(2), p1);
    let a2 = hb(cospi_spec(10), p2, cospi_spec(54), p3);
    let a3 = hb(cospi_spec(54), p2, -cospi_spec(10), p3);
    let a4 = hb(cospi_spec(18), p4, cospi_spec(46), p5);
    let a5 = hb(cospi_spec(46), p4, -cospi_spec(18), p5);
    let a6 = hb(cospi_spec(26), p6, cospi_spec(38), p7);
    let a7 = hb(cospi_spec(38), p6, -cospi_spec(26), p7);
    let a8 = hb(cospi_spec(34), p8, cospi_spec(30), p9);
    let a9 = hb(cospi_spec(30), p8, -cospi_spec(34), p9);
    let a10 = hb(cospi_spec(42), p10, cospi_spec(22), p11);
    let a11 = hb(cospi_spec(22), p10, -cospi_spec(42), p11);
    let a12 = hb(cospi_spec(50), p12, cospi_spec(14), p13);
    let a13 = hb(cospi_spec(14), p12, -cospi_spec(50), p13);
    let a14 = hb(cospi_spec(58), p14, cospi_spec(6), p15);
    let a15 = hb(cospi_spec(6), p14, -cospi_spec(58), p15);
    let b0 = clamp_spec(a0 + a8, r);
    let b1 = clamp_spec(a1 + a9, r);
    let b2 = clamp_spec(a2 + a10, r);
    let b3 = clamp_spec(a3 + a11, r);
    let b4 = clamp_spec(a4 + a12, r);
    let b5 = clamp_spec(a5 + a13, r);
    let b6 = clamp_spec(a6 + a14, r);
    let b7 = clamp_spec(a7 + a15, r);
    let b8 = clamp_spec(a0 - a8, r);
    let b9 = clamp_spec(a1 - a9, r);
    let b10 = clamp_spec(a2 - a10, r);
    let b11 = clamp_spec(a3 - a11, r);
    let b12 = clamp_spec(a4 - a12, r);
    let b13 = clamp_spec(a5 - a13, r);
    let b14 = clamp_spec(a6 - a14, r);
    let b15 = clamp_spec(a7 - a15, r);
    let c0 = b0;
    let c1 = b1;
    let c2 = b2;
    let c3 = b3;
    let c4 = b4;
    let c5 = b5;
    let c6 = b6;
    let c7 = b7;
    let c8 = hb(cospi_spec(8), b8, cospi_spec(56), b9);
    let c9 = hb(cospi_spec(56), b8, -cospi_spec(8), b9);
    let c10 = hb(cospi_spec(40), b10, cospi_spec(24), b11);
    let c11 = hb(cospi_spec(24), b10, -cospi_spec(40), b11);
    let c12 = hb(-cospi_spec(56), b12, cospi_spec(8), b13);
    let c13 = hb(cospi_spec(8), b12, cospi_spec(56), b13);
    let c14 = hb(-cospi_spec(24), b14, cospi_spec(40), b15);
    let c15 = hb(cospi_spec(40), b14, cospi_spec(24), b15);
    let d0 = clamp_spec(c0 + c4, r);
    let d1 = clamp_spec(c1 + c5, r);
    let d2 = clamp_spec(c2 + c6, r);
    let d3 = clamp_spec(c3 + c7, r);
    let d4 = clamp_spec(c0 - c4, r);
    let d5 = clamp_spec(c1 - c5, r);
    let d6 = clamp_spec(c2 - c6, r);
    let d7 = clamp_spec(c3 - c7, r);
    let d8 = clamp_spec(c8 + c12, r);
    let d9 = clamp_spec(c9 + c13, r);
    let d10 = clamp_spec(c10 + c14, r);
    let d11 = clamp_spec(c11 + c15, r);
    let d12 = clamp_spec(c8 - c12, r);
    let d13 = clamp_spec(c9 - c13, r);
    let d14 = clamp_spec(c10 - c14, r);
    let d15 = clamp_spec(c11 - c15, r);
    let e0 = d0;
    let e1 = d1;
    let e2 = d2;
    let e3 = d3;
    let e4 = hb(cospi_spec(16), d4, cospi_spec(48), d5);
    let e5 = hb(cospi_spec(48), d4, -cospi_spec(16), d5);
    let e6 = hb(-cospi_spec(48), d6, cospi_spec(16), d7);
    let e7 = hb(cospi_spec(16), d6, cospi_spec(48), d7);
    let e8 = d8;
    let e9 = d9;
    let e10 = d10;
    let e11 = d11;
    let e12 = hb(cospi_spec(16), d12, cospi_spec(48), d13);
    let e13 = hb(cospi_spec(48), d12, -cospi_spec(16), d13);
    let e14 = hb(-cospi_spec(48), d14, cospi_spec(16), d15);
    let e15 = hb(cospi_spec(16), d14, cospi_spec(48), d15);
    let f0 = clamp_spec(e0 + e2, r);
    let f1 = clamp_spec(e1 + e3, r);
    let f2 = clamp_spec(e0 - e2, r);
    let f3 = clamp_spec(e1 - e3, r);
    let f4 = clamp_spec(e4 + e6, r);
    let f5 = clamp_spec(e5 + e7, r);
    let f6 = clamp_spec(e4 - e6, r);
    let f7 = clamp_spec(e5 - e7, r);
    let f8 = clamp_spec(e8 + e10, r);
    let f9 = clamp_spec(e9 + e11, r);
    let f10 = clamp_spec(e8 - e10, r);
    let f11 = clamp_spec(e9 - e11, r);
    let f12 = clamp_spec(e12 + e14, r);
    let f13 = clamp_spec(e13 + e15, r);
    let f14 = clamp_spec(e12 - e14, r);
    let f15 = clamp_spec(e13 - e15, r);
    let g0 = f0;
    let g1 = f1;
    let g2 = hb(cospi_spec(32), f2, cospi_spec(32), f3);
    let g3 = hb(cospi_spec(32), f2, -cospi_spec(32), f3);
    let g4 = f4;
    let g5 = f5;
    let g6 = hb(cospi_spec(32), f6, cospi_spec(32), f7);
    let g7 = hb(cospi_spec(32), f6, -cospi_spec(32), f7);
    let g8 = f8;
    let g9 = f9;
    let g10 = hb(cospi_spec(32), f10, cospi_spec(32), f11);
    let g11 = hb(cospi_spec(32), f10, -cospi_spec(32), f11);
    let g12 = f12;
    let g13 = f13;
    let g14 = hb(cospi_spec(32), f14, cospi_spec(32), f15);
    let g15 = hb(cospi_spec(32), f14, -cospi_spec(32), f15);
    seq![
        g0,
        -g8,
        g12,
        -g4,
        g6,
        -g14,
        g10,
        -g2,
        g3,
        -g11,
        g15,
        -g7,
        g5,
        -g13,
        g9,
        -g1,
    ]
}

/// The 16-point inverse ADST with intermediate results saturated to `r` bits.
pub fn inverse_adst16(i: [i32; 16], r: u8) -> (output: [i32; 16])
    requires
        16 <= r <= 20,
        bounded(i@, kernel_input_bound()),
    ensures
        ints(output@) == iadst16_spec(ints(i@), r as nat),
{
    proof {
        lemma_kernel_limit(r as nat);
    }
    let B: u8 = 12;
    let p = [i[15], i[0], i[13], i[2], i[11], i[4], i[9], i[6], i[7], i[8], i[5], i[10], i[3], i[12], i[1], i[14]];
    let a = [
        half_btf(cospi(2), p[0], cospi(62), p[1], B),
        half_btf(cospi(62), p[0], -cospi(2), p[1], B),
        half_btf(cospi(10), p[2], cospi(54), p[3], B),
        half_btf(cospi(54), p[2], -cospi(10), p[3], B),
        half_btf(cospi(18), p[4], cospi(46), p[5], B),
        half_btf(cospi(46), p[4], -cospi(18), p[5], B),
        half_btf(cospi(26), p[6], cospi(38), p[7], B),
        half_btf(cospi(38), p[6], -cospi(26), p[7], B),
        half_btf(cospi(34), p[8], cospi(30), p[9], B),
        half_btf(cospi(30), p[8], -cospi(34), p[9], B),
        half_btf(cospi(42), p[10], cospi(22), p[11], B),
        half_btf(cospi(22), p[10], -cospi(42), p[11], B),
        half_btf(cospi(50), p[12], cospi(14), p[13], B),
        half_btf(cospi(14), p[12], -cospi(50), p[13], B),
        half_btf(cospi(58), p[14], cospi(6), p[15], B),
        half_btf(cospi(6), p[14], -cospi(58), p[15], B),
    ];
    proof {
        assert(-1048577 <= a[0] <= 1048577);
        assert(-1048577 <= a[1] <= 1048577);
        assert(-1048577 <= a[2] <= 1048577);
        assert(-1048577 <= a[3] <= 1048577);
        assert(-1048577 <= a[4] <= 1048577);
        assert(-1048577 <= a[5] <= 1048577);
        assert(-1048577 <= a[6] <= 1048577);
        assert(-1048577 <= a[7] <= 1048577);
        assert(-1048577 <= a[8] <= 1048577);
        assert(-1048577 <= a[9] <= 1048577);
        assert(-1048577 <= a[10] <= 1048577);
        assert(-1048577 <= a[11] <= 1048577);
        assert(-1048577 <= a[12] <= 1048577);
        assert(-1048577 <= a[13] <= 1048577);
        assert(-1048577 <= a[14] <= 1048577);
        assert(-1048577 <= a[15] <= 1048577);
    }
    let b = [
        clamp_signed(a[0] + a[8], r),
        clamp_signed(a[1] + a[9], r),
        clamp_signed(a[2] + a[10], r),
        clamp_signed(a[3] + a[11], r),
        clamp_signed(a[4] + a[12], r),
        clamp_signed(a[5] + a[13], r),
        clamp_signed(a[6] + a[14], r),
        clamp_signed(a[7] + a[15], r),
        clamp_signed(a[0] - a[8], r),
        clamp_signed(a[1] - a[9], r),
        clamp_signed(a[2] - a[10], r),
        clamp_signed(a[3] - a[11], r),
        clamp_signed(a[4] - a[12], r),
        clamp_signed(a[5] - a[13], r),
        clamp_signed(a[6] - a[14], r),
        clamp_signed(a[7] - a[15], r),
    ];
    proof {
        assert(-524288 <= b[0] <= 524288);
        assert(-524288 <= b[1] <= 524288);
        assert(-524288 <= b[2] <= 524288);
        assert(-524288 <= b[3] <= 524288);
        assert(-524288 <= b[4] <= 524288);
        assert(-524288 <= b[5] <= 524288);
        assert(-524288 <= b[6] <= 524288);
        assert(-524288 <= b[7] <= 524288);
        assert(-524288 <= b[8] <= 524288);
        assert(-524288 <= b[9] <= 524288);
        assert(-524288 <= b[10] <= 524288);
        assert(-524288 <= b[11] <= 524288);
        assert(-524288 <= b[12] <= 524288);
        assert(-524288 <= b[13] <= 524288);
        assert(-524288 <= b[14] <= 524288);
        assert(-524288 <= b[15] <= 524288);
    }
    let c = [
        b[0],
        b[1],
        b[2],
        b[3],
        b[4],
        b[5],
        b[6],
        b[7],
        half_btf(cospi(8), b[8], cospi(56), b[9], B),
        half_btf(cospi(56), b[8], -cospi(8), b[9], B),
        half_btf(cospi(40), b[10], cospi(24), b[11], B),
        half_btf(cospi(24), b[10], -cospi(40), b[11], B),
        half_btf(-cospi(56), b[12], cospi(8), b[13], B),
        half_btf(cospi(8), b[12], cospi(56), b[13], B),
        half_btf(-cospi(24), b[14], cospi(40), b[15], B),
        half_btf(cospi(40), b[14], cospi(24), b[15], B),
    ];
    proof {
        assert(-524288 <= c[0] <= 524288);
        assert(-524288 <= c[1] <= 524288);
        assert(-524288 <= c[2] <= 524288);
        assert(-524288 <= c[3] <= 524288);
        assert(-524288 <= c[4] <= 524288);
        assert(-524288 <= c[5] <= 524288);
        assert(-524288 <= c[6] <= 524288);
        assert(-524288 <= c[7] <= 524288);
        assert(-1048577 <= c[8] <= 1048577);
        assert(-1048577 <= c[9] <= 1048577);
        assert(-1048577 <= c[10] <= 1048577);
        assert(-1048577 <= c[11] <= 1048577);
        assert(-1048577 <= c[12] <= 1048577);
        assert(-1048577 <= c[13] <= 1048577);
        assert(-1048577 <= c[14] <= 1048577);
        assert(-1048577 <= c[15] <= 1048577);
    }
    let d = [
        clamp_signed(c[0] + c[4], r),
        clamp_signed(c[1] + c[5], r),
        clamp_signed(c[2] + c[6], r),
        clamp_signed(c[3] + c[7], r),
        clamp_signed(c[0] - c[4], r),
        clamp_signed(c[1] - c[5], r),
        clamp_signed(c[2] - c[6], r),
        clamp_signed(c[3] - c[7], r),
        clamp_signed(c[8] + c[12], r),
        clamp_signed(c[9] + c[13], r),
        clamp_signed(c[10] + c[14], r),
        clamp_signed(c[11] + c[15], r),
        clamp_signed(c[8] - c[12], r),
        clamp_signed(c[9] - c[13], r),
        clamp_signed(c[10] - c[14], r),
        clamp_signed(c[11] - c[15], r),
    ];
    proof {
        assert(-524288 <= d[0] <= 524288);
        assert(-524288 <= d[1] <= 524288);
        assert(-524288 <= d[2] <= 524288);
        assert(-524288 <= d[3] <= 524288);
        assert(-524288 <= d[4] <= 524288);
        assert(-524288 <= d[5] <= 524288);
        assert(-524288 <= d[6] <= 524288);
        assert(-524288 <= d[7] <= 524288);
        assert(-524288 <= d[8] <= 524288);
        assert(-524288 <= d[9] <= 524288);
        assert(-524288 <= d[10] <= 524288);
        assert(-524288 <= d[11] <= 524288);
        assert(-524288 <= d[12] <= 524288);
        assert(-524288 <= d[13] <= 524288);
        assert(-524288 <= d[14] <= 524288);
        assert(-524288 <= d[15] <= 524288);
    }
    let e = [
        d[0],
        d[1],
        d[2],
        d[3],
        half_btf(cospi(16), d[4], cospi(48), d[5], B),
        half_btf(cospi(48), d[4], -cospi(16), d[5], B),
        half_btf(-cospi(48), d[6], cospi(16), d[7], B),
        half_btf(cospi(16), d[6], cospi(48), d[7], B),
        d[8],
        d[9],
        d[10],
        d[11],
        half_btf(cospi(16), d[12], cospi(48), d[13], B),
        half_btf(cospi(48), d[12], -cospi(16), d[13], B),
        half_btf(-cospi(48), d[14], cospi(16), d[15], B),
        half_btf(cospi(16), d[14], cospi(48), d[15], B),
    ];
    proof {
        assert(-524288 <= e[0] <= 524288);
        assert(-524288 <= e[1] <= 524288);
        assert(-524288 <= e[2] <= 524288);
        assert(-524288 <= e[3] <= 524288);
        assert(-1048577 <= e[4] <= 1048577);
        assert(-1048577 <= e[5] <= 1048577);
        assert(-1048577 <= e[6] <= 1048577);
        assert(-1048577 <= e[7] <= 1048577);
        assert(-524288 <= e[8] <= 524288);
        assert(-524288 <= e[9] <= 524288);
        assert(-524288 <= e[10] <= 524288);
        assert(-524288 <= e[11] <= 524288);
        assert(-1048577 <= e[12] <= 1048577);
        assert(-1048577 <= e[13] <= 1048577);
        assert(-1048577 <= e[14] <= 1048577);
        assert(-1048577 <= e[15] <= 1048577);
    }
    let f = [
        clamp_signed(e[0] + e[2], r),
        clamp_signed(e[1] + e[3], r),
        clamp_signed(e[0] - e[2], r),
        clamp_signed(e[1] - e[3], r),
        clamp_signed(e[4] + e[6], r),
        clamp_signed(e[5] + e[7], r),
        clamp_signed(e[4] - e[6], r),
        clamp_signed(e[5] - e[7], r),
        clamp_signed(e[8] + e[10], r),
        clamp_signed(e[9] + e[11], r),
        clamp_signed(e[8] - e[10], r),
        clamp_signed(e[9] - e[11], r),
        clamp_signed(e[12] + e[14], r),
        clamp_signed(e[13] + e[15], r),
        clamp_signed(e[12] - e[14], r),
        clamp_signed(e[13] - e[15], r),
    ];
    proof {
        assert(-524288 <= f[0] <= 524288);
        assert(-524288 <= f[1] <= 524288);
        assert(-524288 <= f[2] <= 524288);
        assert(-524288 <= f[3] <= 524288);
        assert(-524288 <= f[4] <= 524288);
        assert(-524288 <= f[5] <= 524288);
        assert(-524288 <= f[6] <= 524288);
        assert(-524288 <= f[7] <= 524288);
        assert(-524288 <= f[8] <= 524288);
        assert(-524288 <= f[9] <= 524288);
        assert(-524288 <= f[10] <= 524288);
        assert(-524288 <= f[11] <= 524288);
        assert(-524288 <= f[12] <= 524288);
        assert(-524288 <= f[13] <= 524288);
        assert(-524288 <= f[14] <= 524288);
        assert(-524288 <= f[15] <= 524288);
    }
    let g = [
        f[0],
        f[1],
        half_btf(cospi(32), f[2], cospi(32), f[3], B),
        half_btf(cospi(32), f[2], -cospi(32), f[3], B),
        f[4],
        f[5],
        half_btf(cospi(32), f[6], cospi(32), f[7], B),
        half_btf(cospi(32), f[6], -cospi(32), f[7], B),
        f[8],
        f[9],
        half_btf(cospi(32), f[10], cospi(32), f[11], B),
        half_btf(cospi(32), f[10], -cospi(32), f[11], B),
        f[12],
        f[13],
        half_btf(cospi(32), f[14], cospi(32), f[15], B),
        half_btf(cospi(32), f[14], -cospi(32), f[15], B),
    ];
    proof {
        assert(-524288 <= g[0] <= 524288);
        assert(-524288 <= g[1] <= 524288);
        assert(-1048577 <= g[2] <= 1048577);
        assert(-1048577 <= g[3] <= 1048577);
        assert(-524288 <= g[4] <= 524288);
        assert(-524288 <= g[5] <= 524288);
        assert(-1048577 <= g[6] <= 1048577);
        assert(-1048577 <= g[7] <= 1048577);
        assert(-524288 <= g[8] <= 524288);
        assert(-524288 <= g[9] <= 524288);
        assert(-1048577 <= g[10] <= 1048577);
        assert(-1048577 <= g[11] <= 1048577);
        assert(-524288 <= g[12] <= 524288);
        assert(-524288 <= g[13] <= 524288);
        assert(-1048577 <= g[14] <= 1048577);
        assert(-1048577 <= g[15] <= 1048577);
    }
    let out = [
        g[0],
        -g[8],
        g[12],
        -g[4],
        g[6],
        -g[14],
        g[10],
        -g[2],
        g[3],
        -g[11],
        g[15],
        -g[7],
        g[5],
        -g[13],
        g[9],
        -g[1],
    ];
    assert(ints(out@) =~= iadst16_spec(ints(i@), r as nat));
    out
}

} // verus!

verus! {

/// The input permutation of the 32-point inverse DCT.
pub open spec fn idct32_step0(x: Seq<int>) -> Seq<int> {
    seq![x[0], x[16], x[8], x[24], x[4], x[20], x[12], x[28], x[2], x[18], x[10], x[26], x[6], x[22], x[14], x[30], x[1], x[17], x[9], x[25], x[5], x[21], x[13], x[29], x[3], x[19], x[11], x[27], x[7], x[23], x[15], x[31]]
}

/// Stage 1 of the 32-point inverse DCT butterfly network.
pub open spec fn idct32_step1(x: Seq<int>, r: nat) -> Seq<int> {
    seq![
        x[0],
        x[1],
        x[2],
        x[3],
        x[4],
        x[5],
        x[6],
        x[7],
        x[8],
        x[9],
        x[10],
        x[11],
        x[12],
        x[13],
        x[14],
        x[15],
        hb(cospi_spec(62), x[16], -cospi_spec(2), x[31]),
        hb(cospi_spec(30), x[17], -cospi_spec(34), x[30]),
        hb(cospi_spec(46), x[18], -cospi_spec(18), x[29]),
        hb(cospi_spec(14), x[19], -cospi_spec(50), x[28]),
        hb(cospi_spec(54), x[20], -cospi_spec(10), x[27]),
        hb(cospi_spec(22), x[21], -cospi_spec(42), x[26]),
        hb(cospi_spec(38), x[22], -cospi_spec(26), x[25]),
        hb(cospi_spec(6), x[23], -cospi_spec(58), x[24]),
        hb(cospi_spec(58), x[23], cospi_spec(6), x[24]),
        hb(cospi_spec(26), x[22], cospi_spec(38), x[25]),
        hb(cospi_spec(42), x[21], cospi_spec(22), x[26]),
        hb(cospi_spec(10), x[20], cospi_spec(54), x[27]),
        hb(cospi_spec(50), x[19], cospi_spec(14), x[28]),
        hb(cospi_spec(18), x[18], cospi_spec(46), x[29]),
        hb(cospi_spec(34), x[17], cospi_spec(30), x[30]),
        hb(cospi_spec(2), x[16], cospi_spec(62), x[31]),
    ]
}

/// Stage 2 of the 32-point inverse DCT butterfly network.
pub open spec fn idct32_step2(x: Seq<int>, r: nat) -> Seq<int> {
    seq![
        x[0],
        x[1],
        x[2],
        x[3],
        x[4],
        x[5],
        x[6],
        x[7],
        hb(cospi_spec(60), x[8], -cospi_spec(4), x[15]),
        hb(cospi_spec(28), x[9], -cospi_spec(36), x[14]),
        hb(cospi_spec(44), x[10], -cospi_spec(20), x[13]),
        hb(cospi_spec(12), x[11], -cospi_spec(52), x[12]),
        hb(cospi_spec(52), x[11], cospi_spec(12), x[12]),
        hb(cospi_spec(20), x[10], cospi_spec(44), x[13]),
        hb(cospi_spec(36), x[9], cospi_spec(28), x[14]),
        hb(cospi_spec(4), x[8], cospi_spec(60), x[15]),
        clamp_spec(x[16] + x[17], r),
        clamp_spec(x[16] - x[17], r),
        clamp_spec(-x[18] + x[19], r),
        clamp_spec(x[18] + x[19], r),
        clamp_spec(x[20] + x[21], r),
        clamp_spec(x[20] - x[21], r),
        clamp_spec(-x[22] + x[23], r),
        clamp_spec(x[22] + x[23], r),
        clamp_spec(x[24] + x[25], r),
        clamp_spec(x[24] - x[25], r),
        clamp_spec(-x[26] + x[27], r),
        clamp_spec(x[26] + x[27], r),
        clamp_spec(x[28] + x[29], r),
        clamp_spec(x[28] - x[29], r),
        clamp_spec(-x[30] + x[31], r),
        clamp_spec(x[30] + x[31], r),
    ]
}

/// Stage 3 of the 32-point inverse DCT butterfly network.
pub open spec fn idct32_step3(x: Seq<int>, r: nat) -> Seq<int> {
    seq![
        x[0],
        x[1],
        x[2],
        x[3],
        hb(cospi_spec(56), x[4], -cospi_spec(8), x[7]),
        hb(cospi_spec(24), x[5], -cospi_spec(40), x[6]),
        hb(cospi_spec(40), x[5], cospi_spec(24), x[6]),
        hb(cospi_spec(8), x[4], cospi_spec(56), x[7]),
        clamp_spec(x[8] + x[9], r),
        clamp_spec(x[8] - x[9], r),
        clamp_spec(-x[10] + x[11], r),
        clamp_spec(x[10] + x[11], r),
        clamp_spec(x[12] + x[13], r),
        clamp_spec(x[12] - x[13], r),
        clamp_spec(-x[14] + x[15], r),
        clamp_spec(x[14] + x[15], r),
        x[16],
        hb(-cospi_spec(8), x[17], cospi_spec(56), x[30]),
        hb(-cospi_spec(56), x[18], -cospi_spec(8), x[29]),
        x[19],
        x[20],
        hb(-cospi_spec(40), x[21], cospi_spec(24), x[26]),
        hb(-cospi_spec(24), x[22], -cospi_spec(40), x[25]),
        x[23],
        x[24],
        hb(-cospi_spec(40), x[22], cospi_spec(24), x[25]),
        hb(cospi_spec(24), x[21], cospi_spec(40), x[26]),
        x[27],
        x[28],
        hb(-cospi_spec(8), x[18], cospi_spec(56), x[29]),
        hb(cospi_spec(56), x[17], cospi_spec(8), x[30]),
        x[31],
    ]
}

/// Stage 4 of the 32-point inverse DCT butterfly network.
pub open spec fn idct32_step4(x: Seq<int>, r: nat) -> Seq<int> {
    seq![
        hb(cospi_spec(32), x[0], cospi_spec(32), x[1]),
        hb(cospi_spec(32), x[0], -cospi_spec(32), x[1]),
        hb(cospi_spec(48), x[2], -cospi_spec(16), x[3]),
        hb(cospi_spec(16), x[2], cospi_spec(48), x[3]),
        clamp_spec(x[4] + x[5], r),
        clamp_spec(x[4] - x[5], r),
        clamp_spec(-x[6] + x[7], r),
        clamp_spec(x[6] + x[7], r),
        x[8],
        hb(-cospi_spec(16), x[9], cospi_spec(48), x[14]),
        hb(-cospi_spec(48), x[10], -cospi_spec(16), x[13]),
        x[11],
        x[12],
        hb(-cospi_spec(16), x[10], cospi_spec(48), x[13]),
        hb(cospi_spec(48), x[9], cospi_spec(16), x[14]),
        x[15],
        clamp_spec(x[16] + x[19], r),
        clamp_spec(x[17] + x[18], r),
        clamp_spec(x[17] - x[18], r),
        clamp_spec(x[16] - x[19], r),
        clamp_spec(-x[20] + x[23], r),
        clamp_spec(-x[21] + x[22], r),
        clamp_spec(x[21] + x[22], r),
        clamp_spec(x[20] + x[23], r),
        clamp_spec(x[24] + x[27], r),
        clamp_spec(x[25] + x[26], r),
        clamp_spec(x[25] - x[26], r),
        clamp_spec(x[24] - x[27], r),
        clamp_spec(-x[28] + x[31], r),
        clamp_spec(-x[29] + x[30], r),
        clamp_spec(x[29] + x[30], r),
        clamp_spec(x[28] + x[31], r),
    ]
}

/// Stage 5 of the 32-point inverse DCT butterfly network.
pub open spec fn idct32_step5(x: Seq<int>, r: nat) -> Seq<int> {
    seq![
        clamp_spec(x[0] + x[3], r),
        clamp_spec(x[1] + x[2], r),
        clamp_spec(x[1] - x[2], r),
        clamp_spec(x[0] - x[3], r),
        x[4],
        hb(-cospi_spec(32), x[5], cospi_spec(32), x[6]),
        hb(cospi_spec(32), x[5], cospi_spec(32), x[6]),
        x[7],
        clamp_spec(x[8] + x[11], r),
        clamp_spec(x[9] + x[10], r),
        clamp_spec(x[9] - x[10], r),
        clamp_spec(x[8] - x[11], r),
        clamp_spec(-x[12] + x[15], r),
        clamp_spec(-x[13] + x[14], r),
        clamp_spec(x[13] + x[14], r),
        clamp_spec(x[12] + x[15], r),
        x[16],
        x[17],
        hb(-cospi_spec(16), x[18], cospi_spec(48), x[29]),
        hb(-cospi_spec(16), x[19], cospi_spec(48), x[28]),
        hb(-cospi_spec(48), x[20], -cospi_spec(16), x[27]),
        hb(-cospi_spec(48), x[21], -cospi_spec(16), x[26]),
        x[22],
        x[23],
        x[24],
        x[25],
        hb(-cospi_spec(16), x[21], cospi_spec(48), x[26]),
        hb(-cospi_spec(16), x[20], cospi_spec(48), x[27]),
        hb(cospi_spec(48), x[19], cospi_spec(16), x[28]),
        hb(cospi_spec(48), x[18], cospi_spec(16), x[29]),
        x[30],
        x[31],
    ]
}

/// Stage 6 of the 32-point inverse DCT butterfly network.
pub open spec fn idct32_step6(x: Seq<int>, r: nat) -> Seq<int> {
    seq![
        clamp_spec(x[0] + x[7], r),
        clamp_spec(x[1] + x[6], r),
        clamp_spec(x[2] + x[5], r),
        clamp_spec(x[3] + x[4], r),
        clamp_spec(x[3] - x[4], r),
        clamp_spec(x[2] - x[5], r),
        clamp_spec(x[1] - x[6], r),
        clamp_spec(x[0] - x[7], r),
        x[8],
        x[9],
        hb(-cospi_spec(32), x[10], cospi_spec(32), x[13]),
        hb(-cospi_spec(32), x[11], cospi_spec(32), x[12]),
        hb(cospi_spec(32), x[11], cospi_spec(32), x[12]),
        hb(cospi_spec(32), x[10], cospi_spec(32), x[13]),
        x[14],
        x[15],
        clamp_spec(x[16] + x[23], r),
        clamp_spec(x[17] + x[22], r),
        clamp_spec(x[18] + x[21], r),
        clamp_spec(x[19] + x[20], r),
        clamp_spec(x[19] - x[20], r),
        clamp_spec(x[18] - x[21], r),
        clamp_spec(x[17] - x[22], r),
        clamp_spec(x[16] - x[23], r),
        clamp_spec(-x[24] + x[31], r),
        clamp_spec(-x[25] + x[30], r),
        clamp_spec(-x[26] + x[29], r),
        clamp_spec(-x[27] + x[28], r),
        clamp_spec(x[27] + x[28], r),
        clamp_spec(x[26] + x[29], r),
        clamp_spec(x[25] + x[30], r),
        clamp_spec(x[24] + x[31], r),
    ]
}

/// Stage 7 of the 32-point inverse DCT butterfly network.
pub open spec fn idct32_step7(x: Seq<int>, r: nat) -> Seq<int> {
    seq![
        clamp_spec(x[0] + x[15], r),
        clamp_spec(x[1] + x[14], r),
        clamp_spec(x[2] + x[13], r),
        clamp_spec(x[3] + x[12], r),
        clamp_spec(x[4] + x[11], r),
        clamp_spec(x[5] + x[10], r),
        clamp_spec(x[6] + x[9], r),
        clamp_spec(x[7] + x[8], r),
        clamp_spec(x[7] - x[8], r),
        clamp_spec(x[6] - x[9], r),
        clamp_spec(x[5] - x[10], r),
        clamp_spec(x[4] - x[11], r),
        clamp_spec(x[3] - x[12], r),
        clamp_spec(x[2] - x[13], r),
        clamp_spec(x[1] - x[14], r),
        clamp_spec(x[0] - x[15], r),
        x[16],
        x[17],
        x[18],
        x[19],
        hb(-cospi_spec(32), x[20], cospi_spec(32), x[27]),
        hb(-cospi_spec(32), x[21], cospi_spec(32), x[26]),
        hb(-cospi_spec(32), x[22], cospi_spec(32), x[25]),
        hb(-cospi_spec(32), x[23], cospi_spec(32), x[24]),
        hb(cospi_spec(32), x[23], cospi_spec(32), x[24]),
        hb(cospi_spec(32), x[22], cospi_spec(32), x[25]),
        hb(cospi_spec(32), x[21], cospi_spec(32), x[26]),
        hb(cospi_spec(32), x[20], cospi_spec(32), x[27]),
        x[28],
        x[29],
        x[30],
        x[31],
    ]
}

/// Stage 8 of the 32-point inverse DCT butterfly network.
pub open spec fn idct32_step8(x: Seq<int>, r: nat) -> Seq<int> {
    seq![
        clamp_spec(x[0] + x[31], r),
        clamp_spec(x[1] + x[30], r),
        clamp_spec(x[2] + x[29], r),
        clamp_spec(x[3] + x[28], r),
        clamp_spec(x[4] + x[27], r),
        clamp_spec(x[5] + x[26], r),
        clamp_spec(x[6] + x[25], r),
        clamp_spec(x[7] + x[24], r),
        clamp_spec(x[8] + x[23], r),
        clamp_spec(x[9] + x[22], r),
        clamp_spec(x[10] + x[21], r),
        clamp_spec(x[11] + x[20], r),
        clamp_spec(x[12] + x[19], r),
        clamp_spec(x[13] + x[18], r),
        clamp_spec(x[14] + x[17], r),
        clamp_spec(x[15] + x[16], r),
        clamp_spec(x[15] - x[16], r),
        clamp_spec(x[14] - x[17], r),
        clamp_spec(x[13] - x[18], r),
        clamp_spec(x[12] - x[19], r),
        clamp_spec(x[11] - x[20], r),
        clamp_spec(x[10] - x[21], r),
        clamp_spec(x[9] - x[22], r),
        clamp_spec(x[8] - x[23], r),
        clamp_spec(x[7] - x[24], r),
        clamp_spec(x[6] - x[25], r),
        clamp_spec(x[5] - x[26], r),
        clamp_spec(x[4] - x[27], r),
        clamp_spec(x[3] - x[28], r),
        clamp_spec(x[2] - x[29], r),
        clamp_spec(x[1] - x[30], r),
        clamp_spec(x[0] - x[31], r),
    ]
}

/// The 32-point inverse DCT butterfly network.
pub open spec fn idct32_spec(x: Seq<int>, r: nat) -> Seq<int> {
    idct32_step8(idct32_step7(idct32_step6(idct32_step5(idct32_step4(idct32_step3(idct32_step2(idct32_step1(idct32_step0(x), r), r), r), r), r), r), r), r)
}

/// Stage 1 of the 32-point inverse DCT.
fn dct32_stage1(x: [i32; 32], r: u8) -> (y: [i32; 32])
    requires
        16 <= r <= 20,
        bounded(x@, 524288),
    ensures
        bounded(y@, 1048577),
        ints(y@) == idct32_step1(ints(x@), r as nat),
{
    proof {
        lemma_kernel_limit(r as nat);
        assert(forall|j: int| 0 <= j < 32 ==> -524288 <= #[trigger] x[j] <= 524288);
    }
    let B: u8 = 12;
    let y = [
        x[0],
        x[1],
        x[2],
        x[3],
        x[4],
        x[5],
        x[6],
        x[7],
        x[8],
        x[9],
        x[10],
        x[11],
        x[12],
        x[13],
        x[14],
        x[15],
        half_btf(cospi(62), x[16], -cospi(2), x[31], B),
        half_btf(cospi(30), x[17], -cospi(34), x[30], B),
        half_btf(cospi(46), x[18], -cospi(18), x[29], B),
        half_btf(cospi(14), x[19], -cospi(50), x[28], B),
        half_btf(cospi(54), x[20], -cospi(10), x[27], B),
        half_btf(cospi(22), x[21], -cospi(42), x[26], B),
        half_btf(cospi(38), x[22], -cospi(26), x[25], B),
        half_btf(cospi(6), x[23], -cospi(58), x[24], B),
        half_btf(cospi(58), x[23], cospi(6), x[24], B),
        half_btf(cospi(26), x[22], cospi(38), x[25], B),
        half_btf(cospi(42), x[21], cospi(22), x[26], B),
        half_btf(cospi(10), x[20], cospi(54), x[27], B),
        half_btf(cospi(50), x[19], cospi(14), x[28], B),
        half_btf(cospi(18), x[18], cospi(46), x[29], B),
        half_btf(cospi(34), x[17], cospi(30), x[30], B),
        half_btf(cospi(2), x[16], cospi(62), x[31], B),
    ];
    proof {
        assert(-1048577 <= y[0] <= 1048577);
        assert(-1048577 <= y[1] <= 1048577);
        assert(-1048577 <= y[2] <= 1048577);
        assert(-1048577 <= y[3] <= 1048577);
        assert(-1048577 <= y[4] <= 1048577);
        assert(-1048577 <= y[5] <= 1048577);
        assert(-1048577 <= y[6] <= 1048577);
        assert(-1048577 <= y[7] <= 1048577);
        assert(-1048577 <= y[8] <= 1048577);
        assert(-1048577 <= y[9] <= 1048577);
        assert(-1048577 <= y[10] <= 1048577);
        assert(-1048577 <= y[11] <= 1048577);
        assert(-1048577 <= y[12] <= 1048577);
        assert(-1048577 <= y[13] <= 1048577);
        assert(-1048577 <= y[14] <= 1048577);
        assert(-1048577 <= y[15] <= 1048577);
        assert(-1048577 <= y[16] <= 1048577);
        assert(-1048577 <= y[17] <= 1048577);
        assert(-1048577 <= y[18] <= 1048577);
        assert(-1048577 <= y[19] <= 1048577);
        assert(-1048577 <= y[20] <= 1048577);
        assert(-1048577 <= y[21] <= 1048577);
        assert(-1048577 <= y[22] <= 1048577);
        assert(-1048577 <= y[23] <= 1048577);
        assert(-1048577 <= y[24] <= 1048577);
        assert(-1048577 <= y[25] <= 1048577);
        assert(-1048577 <= y[26] <= 1048577);
        assert(-1048577 <= y[27] <= 1048577);
        assert(-1048577 <= y[28] <= 1048577);
        assert(-1048577 <= y[29] <= 1048577);
        assert(-1048577 <= y[30] <= 1048577);
        assert(-1048577 <= y[31] <= 1048577);
    }
    assert(ints(y@) =~= idct32_step1(ints(x@), r as nat));
    y
}

/// Stage 2 of the 32-point inverse DCT.
fn dct32_stage2(x: [i32; 32], r: u8) -> (y: [i32; 32])
    requires
        16 <= r <= 20,
        bounded(x@, 1048577),
    ensures
        bounded(y@, 2097155),
        ints(y@) == idct32_step2(ints(x@), r as nat),
{
    proof {
        lemma_kernel_limit(r as nat);
        assert(forall|j: int| 0 <= j < 32 ==> -1048577 <= #[trigger] x[j] <= 1048577);
    }
    let B: u8 = 12;
    let y = [
        x[0],
        x[1],
        x[2],
        x[3],
        x[4],
        x[5],
        x[6],
        x[7],
        half_btf(cospi(60), x[8], -cospi(4), x[15], B),
        half_btf(cospi(28), x[9], -cospi(36), x[14], B),
        half_btf(cospi(44), x[10], -cospi(20), x[13], B),
        half_btf(cospi(12), x[11], -cospi(52), x[12], B),
        half_btf(cospi(52), x[11], cospi(12), x[12], B),
        half_btf(cospi(20), x[10], cospi(44), x[13], B),
        half_btf(cospi(36), x[9], cospi(28), x[14], B),
        half_btf(cospi(4), x[8], cospi(60), x[15], B),
        clamp_signed(x[16] + x[17], r),
        clamp_signed(x[16] - x[17], r),
        clamp_signed(-x[18] + x[19], r),
        clamp_signed(x[18] + x[19], r),
        clamp_signed(x[20] + x[21], r),
        clamp_signed(x[20] - x[21], r),
        clamp_signed(-x[22] + x[23], r),
        clamp_signed(x[22] + x[23], r),
        clamp_signed(x[24] + x[25], r),
        clamp_signed(x[24] - x[25], r),
        clamp_signed(-x[26] + x[27], r),
        clamp_signed(x[26] + x[27], r),
        clamp_signed(x[28] + x[29], r),
        clamp_signed(x[28] - x[29], r),
        clamp_signed(-x[30] + x[31], r),
        clamp_signed(x[30] + x[31], r),
    ];
    proof {
        assert(-2097155 <= y[0] <= 2097155);
        assert(-2097155 <= y[1] <= 2097155);
        assert(-2097155 <= y[2] <= 2097155);
        assert(-2097155 <= y[3] <= 2097155);
        assert(-2097155 <= y[4] <= 2097155);
        assert(-2097155 <= y[5] <= 2097155);
        assert(-2097155 <= y[6] <= 2097155);
        assert(-2097155 <= y[7] <= 2097155);
        assert(-2097155 <= y[8] <= 2097155);
        assert(-2097155 <= y[9] <= 2097155);
        assert(-2097155 <= y[10] <= 2097155);
        assert(-2097155 <= y[11] <= 2097155);
        assert(-2097155 <= y[12] <= 2097155);
        assert(-2097155 <= y[13] <= 2097155);
        assert(-2097155 <= y[14] <= 2097155);
        assert(-2097155 <= y[15] <= 2097155);
        assert(-2097155 <= y[16] <= 2097155);
        assert(-2097155 <= y[17] <= 2097155);
        assert(-2097155 <= y[18] <= 2097155);
        assert(-2097155 <= y[19] <= 2097155);
        assert(-2097155 <= y[20] <= 2097155);
        assert(-2097155 <= y[21] <= 2097155);
        assert(-2097155 <= y[22] <= 2097155);
        assert(-2097155 <= y[23] <= 2097155);
        assert(-2097155 <= y[24] <= 2097155);
        assert(-2097155 <= y[25] <= 2097155);
        assert(-2097155 <= y[26] <= 2097155);
        assert(-2097155 <= y[27] <= 2097155);
        assert(-2097155 <= y[28] <= 2097155);
        assert(-2097155 <= y[29] <= 2097155);
        assert(-2097155 <= y[30] <= 2097155);
        assert(-2097155 <= y[31] <= 2097155);
    }
    assert(ints(y@) =~= idct32_step2(ints(x@), r as nat));
    y
}

/// Stage 3 of the 32-point inverse DCT.
fn dct32_stage3(x: [i32; 32], r: u8) -> (y: [i32; 32])
    requires
        16 <= r <= 20,
        bounded(x@, 2097155),
    ensures
        bounded(y@, 4194311),
        ints(y@) == idct32_step3(ints(x@), r as nat),
{
    proof {
        lemma_kernel_limit(r as nat);
        assert(forall|j: int| 0 <= j < 32 ==> -2097155 <= #[trigger] x[j] <= 2097155);
    }
    let B: u8 = 12;
    let y = [
        x[0],
        x[1],
        x[2],
        x[3],
        half_btf(cospi(56), x[4], -cospi(8), x[7], B),
        half_btf(cospi(24), x[5], -cospi(40), x[6], B),
        half_btf(cospi(40), x[5], cospi(24), x[6], B),
        half_btf(cospi(8), x[4], cospi(56), x[7], B),
        clamp_signed(x[8] + x[9], r),
        clamp_signed(x[8] - x[9], r),
        clamp_signed(-x[10] + x[11], r),
        clamp_signed(x[10] + x[11], r),
        clamp_signed(x[12] + x[13], r),
        clamp_signed(x[12] - x[13], r),
        clamp_signed(-x[14] + x[15], r),
        clamp_signed(x[14] + x[15], r),
        x[16],
        half_btf(-cospi(8), x[17], cospi(56), x[30], B),
        half_btf(-cospi(56), x[18], -cospi(8), x[29], B),
        x[19],
        x[20],
        half_btf(-cospi(40), x[21], cospi(24), x[26], B),
        half_btf(-cospi(24), x[22], -cospi(40), x[25], B),
        x[23],
        x[24],
        half_btf(-cospi(40), x[22], cospi(24), x[25], B),
        half_btf(cospi(24), x[21], cospi(40), x[26], B),
        x[27],
        x[28],
        half_btf(-cospi(8), x[18], cospi(56), x[29], B),
        half_btf(cospi(56), x[17], cospi(8), x[30], B),
        x[31],
    ];
    proof {
        assert(-4194311 <= y[0] <= 4194311);
        assert(-4194311 <= y[1] <= 4194311);
        assert(-4194311 <= y[2] <= 4194311);
        assert(-4194311 <= y[3] <= 4194311);
        assert(-4194311 <= y[4] <= 4194311);
        assert(-4194311 <= y[5] <= 4194311);
        assert(-4194311 <= y[6] <= 4194311);
        assert(-4194311 <= y[7] <= 4194311);
        assert(-4194311 <= y[8] <= 4194311);
        assert(-4194311 <= y[9] <= 4194311);
        assert(-4194311 <= y[10] <= 4194311);
        assert(-4194311 <= y[11] <= 4194311);
        assert(-4194311 <= y[12] <= 4194311);
        assert(-4194311 <= y[13] <= 4194311);
        assert(-4194311 <= y[14] <= 4194311);
        assert(-4194311 <= y[15] <= 4194311);
        assert(-4194311 <= y[16] <= 4194311);
        assert(-4194311 <= y[17] <= 4194311);
        assert(-4194311 <= y[18] <= 4194311);
        assert(-4194311 <= y[19] <= 4194311);
        assert(-4194311 <= y[20] <= 4194311);
        assert(-4194311 <= y[21] <= 4194311);
        assert(-4194311 <= y[22] <= 4194311);
        assert(-4194311 <= y[23] <= 4194311);
        assert(-4194311 <= y[24] <= 4194311);
        assert(-4194311 <= y[25] <= 4194311);
        assert(-4194311 <= y[26] <= 4194311);
        assert(-4194311 <= y[27] <= 4194311);
        assert(-4194311 <= y[28] <= 4194311);
        assert(-4194311 <= y[29] <= 4194311);
        assert(-4194311 <= y[30] <= 4194311);
        assert(-4194311 <= y[31] <= 4194311);
    }
    assert(ints(y@) =~= idct32_step3(ints(x@), r as nat));
    y
}

/// Stage 4 of the 32-point inverse DCT.
fn dct32_stage4(x: [i32; 32], r: u8) -> (y: [i32; 32])
    requires
        16 <= r <= 20,
        bounded(x@, 4194311),
    ensures
        bounded(y@, 8388623),
        ints(y@) == idct32_step4(ints(x@), r as nat),
{
    proof {
        lemma_kernel_limit(r as nat);
        assert(forall|j: int| 0 <= j < 32 ==> -4194311 <= #[trigger] x[j] <= 4194311);
    }
    let B: u8 = 12;
    let y = [
        half_btf(cospi(32), x[0], cospi(32), x[1], B),
        half_btf(cospi(32), x[0], -cospi(32), x[1], B),
        half_btf(cospi(48), x[2], -cospi(16), x[3], B),
        half_btf(cospi(16), x[2], cospi(48), x[3], B),
        clamp_signed(x[4] + x[5], r),
        clamp_signed(x[4] - x[5], r),
        clamp_signed(-x[6] + x[7], r),
        clamp_signed(x[6] + x[7], r),
        x[8],
        half_btf(-cospi(16), x[9], cospi(48), x[14], B),
        half_btf(-cospi(48), x[10], -cospi(16), x[13], B),
        x[11],
        x[12],
        half_btf(-cospi(16), x[10], cospi(48), x[13], B),
        half_btf(cospi(48), x[9], cospi(16), x[14], B),
        x[15],
        clamp_signed(x[16] + x[19], r),
        clamp_signed(x[17] + x[18], r),
        clamp_signed(x[17] - x[18], r),
        clamp_signed(x[16] - x[19], r),
        clamp_signed(-x[20] + x[23], r),
        clamp_signed(-x[21] + x[22], r),
        clamp_signed(x[21] + x[22], r),
        clamp_signed(x[20] + x[23], r),
        clamp_signed(x[24] + x[27], r),
        clamp_signed(x[25] + x[26], r),
        clamp_signed(x[25] - x[26], r),
        clamp_signed(x[24] - x[27], r),
        clamp_signed(-x[28] + x[31], r),
        clamp_signed(-x[29] + x[30], r),
        clamp_signed(x[29] + x[30], r),
        clamp_signed(x[28] + x[31], r),
    ];
    proof {
        assert(-8388623 <= y[0] <= 8388623);
        assert(-8388623 <= y[1] <= 8388623);
        assert(-8388623 <= y[2] <= 8388623);
        assert(-8388623 <= y[3] <= 8388623);
        assert(-8388623 <= y[4] <= 8388623);
        assert(-8388623 <= y[5] <= 8388623);
        assert(-8388623 <= y[6] <= 8388623);
        assert(-8388623 <= y[7] <= 8388623);
        assert(-8388623 <= y[8] <= 8388623);
        assert(-8388623 <= y[9] <= 8388623);
        assert(-8388623 <= y[10] <= 8388623);
        assert(-8388623 <= y[11] <= 8388623);
        assert(-8388623 <= y[12] <= 8388623);
        assert(-8388623 <= y[13] <= 8388623);
        assert(-8388623 <= y[14] <= 8388623);
        assert(-8388623 <= y[15] <= 8388623);
        assert(-8388623 <= y[16] <= 8388623);
        assert(-8388623 <= y[17] <= 8388623);
        assert(-8388623 <= y[18] <= 8388623);
        assert(-8388623 <= y[19] <= 8388623);
        assert(-8388623 <= y[20] <= 8388623);
        assert(-8388623 <= y[21] <= 8388623);
        assert(-8388623 <= y[22] <= 8388623);
        assert(-8388623 <= y[23] <= 8388623);
        assert(-8388623 <= y[24] <= 8388623);
        assert(-8388623 <= y[25] <= 8388623);
        assert(-8388623 <= y[26] <= 8388623);
        assert(-8388623 <= y[27] <= 8388623);
        assert(-8388623 <= y[28] <= 8388623);
        assert(-8388623 <= y[29] <= 8388623);
        assert(-8388623 <= y[30] <= 8388623);
        assert(-8388623 <= y[31] <= 8388623);
    }
    assert(ints(y@) =~= idct32_step4(ints(x@), r as nat));
    y
}

/// Stage 5 of the 32-point inverse DCT.
fn dct32_stage5(x: [i32; 32], r: u8) -> (y: [i32; 32])
    requires
        16 <= r <= 20,
        bounded(x@, 8388623),
    ensures
        bounded(y@, 16777247),
        ints(y@) == idct32_step5(ints(x@), r as nat),
{
    proof {
        lemma_kernel_limit(r as nat);
        assert(forall|j: int| 0 <= j < 32 ==> -8388623 <= #[trigger] x[j] <= 8388623);
    }
    let B: u8 = 12;
    let y = [
        clamp_signed(x[0] + x[3], r),
        clamp_signed(x[1] + x[2], r),
        clamp_signed(x[1] - x[2], r),
        clamp_signed(x[0] - x[3], r),
        x[4],
        half_btf(-cospi(32), x[5], cospi(32), x[6], B),
        half_btf(cospi(32), x[5], cospi(32), x[6], B),
        x[7],
        clamp_signed(x[8] + x[11], r),
        clamp_signed(x[9] + x[10], r),
        clamp_signed(x[9] - x[10], r),
        clamp_signed(x[8] - x[11], r),
        clamp_signed(-x[12] + x[15], r),
        clamp_signed(-x[13] + x[14], r),
        clamp_signed(x[13] + x[14], r),
        clamp_signed(x[12] + x[15], r),
        x[16],
        x[17],
        half_btf(-cospi(16), x[18], cospi(48), x[29], B),
        half_btf(-cospi(16), x[19], cospi(48), x[28], B),
        half_btf(-cospi(48), x[20], -cospi(16), x[27], B),
        half_btf(-cospi(48), x[21], -cospi(16), x[26], B),
        x[22],
        x[23],
        x[24],
        x[25],
        half_btf(-cospi(16), x[21], cospi(48), x[26], B),
        half_btf(-cospi(16), x[20], cospi(48), x[27], B),
        half_btf(cospi(48), x[19], cospi(16), x[28], B),
        half_btf(cospi(48), x[18], cospi(16), x[29], B),
        x[30],
        x[31],
    ];
    proof {
        assert(-16777247 <= y[0] <= 16777247);
        assert(-16777247 <= y[1] <= 16777247);
        assert(-16777247 <= y[2] <= 16777247);
        assert(-16777247 <= y[3] <= 16777247);
        assert(-16777247 <= y[4] <= 16777247);
        assert(-16777247 <= y[5] <= 16777247);
        assert(-16777247 <= y[6] <= 16777247);
        assert(-16777247 <= y[7] <= 16777247);
        assert(-16777247 <= y[8] <= 16777247);
        assert(-16777247 <= y[9] <= 16777247);
        assert(-16777247 <= y[10] <= 16777247);
        assert(-16777247 <= y[11] <= 16777247);
        assert(-16777247 <= y[12] <= 16777247);
        assert(-16777247 <= y[13] <= 16777247);
        assert(-16777247 <= y[14] <= 16777247);
        assert(-16777247 <= y[15] <= 16777247);
        assert(-16777247 <= y[16] <= 16777247);
        assert(-16777247 <= y[17] <= 16777247);
        assert(-16777247 <= y[18] <= 16777247);
        assert(-16777247 <= y[19] <= 16777247);
        assert(-16777247 <= y[20] <= 16777247);
        assert(-16777247 <= y[21] <= 16777247);
        assert(-16777247 <= y[22] <= 16777247);
        assert(-16777247 <= y[23] <= 16777247);
        assert(-16777247 <= y[24] <= 16777247);
        assert(-16777247 <= y[25] <= 16777247);
        assert(-16777247 <= y[26] <= 16777247);
        assert(-16777247 <= y[27] <= 16777247);
        assert(-16777247 <= y[28] <= 16777247);
        assert(-16777247 <= y[29] <= 16777247);
        assert(-16777247 <= y[30] <= 16777247);
        assert(-16777247 <= y[31] <= 16777247);
    }
    assert(ints(y@) =~= idct32_step5(ints(x@), r as nat));
    y
}

/// Stage 6 of the 32-point inverse DCT.
fn dct32_stage6(x: [i32; 32], r: u8) -> (y: [i32; 32])
    requires
        16 <= r <= 20,
        bounded(x@, 16777247),
    ensures
        bounded(y@, 33554495),
        ints(y@) == idct32_step6(ints(x@), r as nat),
{
    proof {
        lemma_kernel_limit(r as nat);
        assert(forall|j: int| 0 <= j < 32 ==> -16777247 <= #[trigger] x[j] <= 16777247);
    }
    let B: u8 = 12;
    let y = [
        clamp_signed(x[0] + x[7], r),
        clamp_signed(x[1] + x[6], r),
        clamp_signed(x[2] + x[5], r),
        clamp_signed(x[3] + x[4], r),
        clamp_signed(x[3] - x[4], r),
        clamp_signed(x[2] - x[5], r),
        clamp_signed(x[1] - x[6], r),
        clamp_signed(x[0] - x[7], r),
        x[8],
        x[9],
        half_btf(-cospi(32), x[10], cospi(32), x[13], B),
        half_btf(-cospi(32), x[11], cospi(32), x[12], B),
        half_btf(cospi(32), x[11], cospi(32), x[12], B),
        half_btf(cospi(32), x[10], cospi(32), x[13], B),
        x[14],
        x[15],
        clamp_signed(x[16] + x[23], r),
        clamp_signed(x[17] + x[22], r),
        clamp_signed(x[18] + x[21], r),
        clamp_signed(x[19] + x[20], r),
        clamp_signed(x[19] - x[20], r),
        clamp_signed(x[18] - x[21], r),
        clamp_signed(x[17] - x[22], r),
        clamp_signed(x[16] - x[23], r),
        clamp_signed(-x[24] + x[31], r),
        clamp_signed(-x[25] + x[30], r),
        clamp_signed(-x[26] + x[29], r),
        clamp_signed(-x[27] + x[28], r),
        clamp_signed(x[27] + x[28], r),
        clamp_signed(x[26] + x[29], r),
        clamp_signed(x[25] + x[30], r),
        clamp_signed(x[24] + x[31], r),
    ];
    proof {
        assert(-33554495 <= y[0] <= 33554495);
        assert(-33554495 <= y[1] <= 33554495);
        assert(-33554495 <= y[2] <= 33554495);
        assert(-33554495 <= y[3] <= 33554495);
        assert(-33554495 <= y[4] <= 33554495);
        assert(-33554495 <= y[5] <= 33554495);
        assert(-33554495 <= y[6] <= 33554495);
        assert(-33554495 <= y[7] <= 33554495);
        assert(-33554495 <= y[8] <= 33554495);
        assert(-33554495 <= y[9] <= 33554495);
        assert(-33554495 <= y[10] <= 33554495);
        assert(-33554495 <= y[11] <= 33554495);
        assert(-33554495 <= y[12] <= 33554495);
        assert(-33554495 <= y[13] <= 33554495);
        assert(-33554495 <= y[14] <= 33554495);
        assert(-33554495 <= y[15] <= 33554495);
        assert(-33554495 <= y[16] <= 33554495);
        assert(-33554495 <= y[17] <= 33554495);
        assert(-33554495 <= y[18] <= 33554495);
        assert(-33554495 <= y[19] <= 33554495);
        assert(-33554495 <= y[20] <= 33554495);
        assert(-33554495 <= y[21] <= 33554495);
        assert(-33554495 <= y[22] <= 33554495);
        assert(-33554495 <= y[23] <= 33554495);
        assert(-33554495 <= y[24] <= 33554495);
        assert(-33554495 <= y[25] <= 33554495);
        assert(-33554495 <= y[26] <= 33554495);
        assert(-33554495 <= y[27] <= 33554495);
        assert(-33554495 <= y[28] <= 33554495);
        assert(-33554495 <= y[29] <= 33554495);
        assert(-33554495 <= y[30] <= 33554495);
        assert(-33554495 <= y[31] <= 33554495);
    }
    assert(ints(y@) =~= idct32_step6(ints(x@), r as nat));
    y
}

/// Stage 7 of the 32-point inverse DCT.
fn dct32_stage7(x: [i32; 32], r: u8) -> (y: [i32; 32])
    requires
        16 <= r <= 20,
        bounded(x@, 33554495),
    ensures
        bounded(y@, 67108991),
        ints(y@) == idct32_step7(ints(x@), r as nat),
{
    proof {
        lemma_kernel_limit(r as nat);
        assert(forall|j: int| 0 <= j < 32 ==> -33554495 <= #[trigger] x[j] <= 33554495);
    }
    let B: u8 = 12;
    let y = [
        clamp_signed(x[0] + x[15], r),
        clamp_signed(x[1] + x[14], r),
        clamp_signed(x[2] + x[13], r),
        clamp_signed(x[3] + x[12], r),
        clamp_signed(x[4] + x[11], r),
        clamp_signed(x[5] + x[10], r),
        clamp_signed(x[6] + x[9], r),
        clamp_signed(x[7] + x[8], r),
        clamp_signed(x[7] - x[8], r),
        clamp_signed(x[6] - x[9], r),
        clamp_signed(x[5] - x[10], r),
        clamp_signed(x[4] - x[11], r),
        clamp_signed(x[3] - x[12], r),
        clamp_signed(x[2] - x[13], r),
        clamp_signed(x[1] - x[14], r),
        clamp_signed(x[0] - x[15], r),
        x[16],
        x[17],
        x[18],
        x[19],
        half_btf(-cospi(32), x[20], cospi(32), x[27], B),
        half_btf(-cospi(32), x[21], cospi(32), x[26], B),
        half_btf(-cospi(32), x[22], cospi(32), x[25], B),
        half_btf(-cospi(32), x[23], cospi(32), x[24], B),
        half_btf(cospi(32), x[23], cospi(32), x[24], B),
        half_btf(cospi(32), x[22], cospi(32), x[25], B),
        half_btf(cospi(32), x[21], cospi(32), x[26], B),
        half_btf(cospi(32), x[20], cospi(32), x[27], B),
        x[28],
        x[29],
        x[30],
        x[31],
    ];
    proof {
        assert(-67108991 <= y[0] <= 67108991);
        assert(-67108991 <= y[1] <= 67108991);
        assert(-67108991 <= y[2] <= 67108991);
        assert(-67108991 <= y[3] <= 67108991);
        assert(-67108991 <= y[4] <= 67108991);
        assert(-67108991 <= y[5] <= 67108991);
        assert(-67108991 <= y[6] <= 67108991);
        assert(-67108991 <= y[7] <= 67108991);
        assert(-67108991 <= y[8] <= 67108991);
        assert(-67108991 <= y[9] <= 67108991);
        assert(-67108991 <= y[10] <= 67108991);
        assert(-67108991 <= y[11] <= 67108991);
        assert(-67108991 <= y[12] <= 67108991);
        assert(-67108991 <= y[13] <= 67108991);
        assert(-67108991 <= y[14] <= 67108991);
        assert(-67108991 <= y[15] <= 67108991);
        assert(-67108991 <= y[16] <= 67108991);
        assert(-67108991 <= y[17] <= 67108991);
        assert(-67108991 <= y[18] <= 67108991);
        assert(-67108991 <= y[19] <= 67108991);
        assert(-67108991 <= y[20] <= 67108991);
        assert(-67108991 <= y[21] <= 67108991);
        assert(-67108991 <= y[22] <= 67108991);
        assert(-67108991 <= y[23] <= 67108991);
        assert(-67108991 <= y[24] <= 67108991);
        assert(-67108991 <= y[25] <= 67108991);
        assert(-67108991 <= y[26] <= 67108991);
        assert(-67108991 <= y[27] <= 67108991);
        assert(-67108991 <= y[28] <= 67108991);
        assert(-67108991 <= y[29] <= 67108991);
        assert(-67108991 <= y[30] <= 67108991);
        assert(-67108991 <= y[31] <= 67108991);
    }
    assert(ints(y@) =~= idct32_step7(ints(x@), r as nat));
    y
}

/// Stage 8 of the 32-point inverse DCT.
fn dct32_stage8(x: [i32; 32], r: u8) -> (y: [i32; 32])
    requires
        16 <= r <= 20,
        bounded(x@, 67108991),
    ensures
        bounded(y@, 524288),
        ints(y@) == idct32_step8(ints(x@), r as nat),
{
    proof {
        lemma_kernel_limit(r as nat);
        assert(forall|j: int| 0 <= j < 32 ==> -67108991 <= #[trigger] x[j] <= 67108991);
    }
    let B: u8 = 12;
    let y = [
        clamp_signed(x[0] + x[31], r),
        clamp_signed(x[1] + x[30], r),
        clamp_signed(x[2] + x[29], r),
        clamp_signed(x[3] + x[28], r),
        clamp_signed(x[4] + x[27], r),
        clamp_signed(x[5] + x[26], r),
        clamp_signed(x[6] + x[25], r),
        clamp_signed(x[7] + x[24], r),
        clamp_signed(x[8] + x[23], r),
        clamp_signed(x[9] + x[22], r),
        clamp_signed(x[10] + x[21], r),
        clamp_signed(x[11] + x[20], r),
        clamp_signed(x[12] + x[19], r),
        clamp_signed(x[13] + x[18], r),
        clamp_signed(x[14] + x[17], r),
        clamp_signed(x[15] + x[16], r),
        clamp_signed(x[15] - x[16], r),
        clamp_signed(x[14] - x[17], r),
        clamp_signed(x[13] - x[18], r),
        clamp_signed(x[12] - x[19], r),
        clamp_signed(x[11] - x[20], r),
        clamp_signed(x[10] - x[21], r),
        clamp_signed(x[9] - x[22], r),
        clamp_signed(x[8] - x[23], r),
        clamp_signed(x[7] - x[24], r),
        clamp_signed(x[6] - x[25], r),
        clamp_signed(x[5] - x[26], r),
        clamp_signed(x[4] - x[27], r),
        clamp_signed(x[3] - x[28], r),
        clamp_signed(x[2] - x[29], r),
        clamp_signed(x[1] - x[30], r),
        clamp_signed(x[0] - x[31], r),
    ];
    proof {
        assert(-524288 <= y[0] <= 524288);
        assert(-524288 <= y[1] <= 524288);
        assert(-524288 <= y[2] <= 524288);
        assert(-524288 <= y[3] <= 524288);
        assert(-524288 <= y[4] <= 524288);
        assert(-524288 <= y[5] <= 524288);
        assert(-524288 <= y[6] <= 524288);
        assert(-524288 <= y[7] <= 524288);
        assert(-524288 <= y[8] <= 524288);
        assert(-524288 <= y[9] <= 524288);
        assert(-524288 <= y[10] <= 524288);
        assert(-524288 <= y[11] <= 524288);
        assert(-524288 <= y[12] <= 524288);
        assert(-524288 <= y[13] <= 524288);
        assert(-524288 <= y[14] <= 524288);
        assert(-524288 <= y[15] <= 524288);
        assert(-524288 <= y[16] <= 524288);
        assert(-524288 <= y[17] <= 524288);
        assert(-524288 <= y[18] <= 524288);
        assert(-524288 <= y[19] <= 524288);
        assert(-524288 <= y[20] <= 524288);
        assert(-524288 <= y[21] <= 524288);
        assert(-524288 <= y[22] <= 524288);
        assert(-524288 <= y[23] <= 524288);
        assert(-524288 <= y[24] <= 524288);
        assert(-524288 <= y[25] <= 524288);
        assert(-524288 <= y[26] <= 524288);
        assert(-524288 <= y[27] <= 524288);
        assert(-524288 <= y[28] <= 524288);
        assert(-524288 <= y[29] <= 524288);
        assert(-524288 <= y[30] <= 524288);
        assert(-524288 <= y[31] <= 524288);
    }
    assert(ints(y@) =~= idct32_step8(ints(x@), r as nat));
    y
}

/// The 32-point inverse DCT with intermediate results saturated to `r` bits.
pub fn inverse_dct32(i: [i32; 32], r: u8) -> (output: [i32; 32])
    requires
        16 <= r <= 20,
        bounded(i@, kernel_input_bound()),
    ensures
        ints(output@) == idct32_spec(ints(i@), r as nat),
{
    let p = [i[0], i[16], i[8], i[24], i[4], i[20], i[12], i[28], i[2], i[18], i[10], i[26], i[6], i[22], i[14], i[30], i[1], i[17], i[9], i[25], i[5], i[21], i[13], i[29], i[3], i[19], i[11], i[27], i[7], i[23], i[15], i[31]];
    assert(ints(p@) =~= idct32_step0(ints(i@)));
    let a = dct32_stage1(p, r);
    let b = dct32_stage2(a, r);
    let c = dct32_stage3(b, r);
    let d = dct32_stage4(c, r);
    let e = dct32_stage5(d, r);
    let k = dct32_stage6(e, r);
    let g = dct32_stage7(k, r);
    let out = dct32_stage8(g, r);
    out
}

} // verus!

verus! {

/// The identity transform of an 8-point stage: doubling.
pub open spec fn identity8_spec(x: Seq<int>) -> Seq<int> {
    Seq::new(x.len(), |i: int| 2 * x[i])
}

/// The identity transform of a 16-point stage: scale by `2 * sqrt(2)` (11586) in 12-bit fixed point.
pub open spec fn identity16_spec(x: Seq<int>) -> Seq<int> {
    Seq::new(x.len(), |i: int| mul_round12(x[i], 11586))
}

pub open spec fn staged8_spec(transform: StagedTransform, x: Seq<int>, r: nat) -> Seq<int> {
    match transform {
        StagedTransform::Dct => idct8_spec(x, r),
        StagedTransform::Adst => iadst8_spec(x, r),
        StagedTransform::Identity => identity8_spec(x),
    }
}

pub open spec fn staged16_spec(transform: StagedTransform, x: Seq<int>, r: nat) -> Seq<int> {
    match transform {
        StagedTransform::Dct => idct16_spec(x, r),
        StagedTransform::Adst => iadst16_spec(x, r),
        StagedTransform::Identity => identity16_spec(x),
    }
}

/// One 8-point stage of the two-dimensional inverse transform.
pub fn inverse_staged_8(transform: StagedTransform, input: [i32; 8], range: u8) -> (output: [i32; 8])
    requires
        16 <= range <= 20,
        bounded(input@, kernel_input_bound()),
    ensures
        ints(output@) == staged8_spec(transform, ints(input@), range as nat),
{
    match transform {
        StagedTransform::Dct => inverse_dct8(input, range),
        StagedTransform::Adst => inverse_adst8(input, range),
        StagedTransform::Identity => {
            let mut output = input;
            let mut k: usize = 0;
            while k < 8
                invariant
                    k <= 8,
                    bounded(input@, kernel_input_bound()),
                    forall|j: int| 0 <= j < k ==> output[j] as int == 2 * input[j],
                    forall|j: int| k <= j < 8 ==> output[j] == input[j],
                decreases 8 - k,
            {
                assert(-kernel_input_bound() <= input[k as int] <= kernel_input_bound());
                output[k] = input[k] * 2;
                k = k + 1;
            }
            assert(ints(output@) =~= identity8_spec(ints(input@)));
            output
        },
    }
}

/// Scales a value by `2 * sqrt(2)` (11586) in 12-bit fixed point (the 16-point identity stage).
fn identity16_value(value: i32) -> (result: i32)
    requires
        -kernel_input_bound() <= value <= kernel_input_bound(),
    ensures
        result == mul_round12(value as int, 11586),
{
    proof {
        lemma_small_pow2();
    }
    round_shift_i64(value as i64 * NEW_SQRT2 * 2, NEW_SQRT2_BITS) as i32
}

/// One 16-point stage of the two-dimensional inverse transform.
pub fn inverse_staged_16(transform: StagedTransform, input: [i32; 16], range: u8) -> (output: [i32; 16])
    requires
        16 <= range <= 20,
        bounded(input@, kernel_input_bound()),
    ensures
        ints(output@) == staged16_spec(transform, ints(input@), range as nat),
{
    match transform {
        StagedTransform::Dct => inverse_dct16(input, range),
        StagedTransform::Identity => {
            let mut output = input;
            let mut k: usize = 0;
            while k < 16
                invariant
                    k <= 16,
                    bounded(input@, kernel_input_bound()),
                    forall|j: int| 0 <= j < k ==> output[j] as int == mul_round12(input[j] as int, 11586),
                    forall|j: int| k <= j < 16 ==> output[j] == input[j],
                decreases 16 - k,
            {
                assert(-kernel_input_bound() <= input[k as int] <= kernel_input_bound());
                output[k] = identity16_value(input[k]);
                k = k + 1;
            }
            assert(ints(output@) =~= identity16_spec(ints(input@)));
            output
        },
        StagedTransform::Adst => inverse_adst16(input, range),
    }
}

} // verus!

verus! {

/// Whether a one-dimensional stage of `n` points exists for `transform`.
pub open spec fn stage_supported(transform: StagedTransform, n: nat) -> bool {
    n == 4 || n == 8 || n == 16 || ((n == 32 || n == 64) && transform == StagedTransform::Dct)
}

/// The one-dimensional stage whose length is that of `x`.
#[verifier::opaque]
pub open spec fn staged_spec(transform: StagedTransform, x: Seq<int>, r: nat) -> Seq<int> {
    if x.len() == 4 {
        staged4_spec(transform, x, r)
    } else if x.len() == 8 {
        staged8_spec(transform, x, r)
    } else if x.len() == 16 {
        staged16_spec(transform, x, r)
    } else if x.len() == 32 {
        idct32_spec(x, r)
    } else {
        dct64::idct64_spec(x, r)
    }
}

/// Copies `src` into a fixed-size array.
fn array_from_slice<const N: usize>(dst: &mut [i32; N], src: &[i32])
    requires
        src@.len() == N,
    ensures
        final(dst)@ == src@,
{
    let mut k: usize = 0;
    while k < N
        invariant
            k <= N,
            src@.len() == N,
            dst@.len() == N,
            forall|j: int| 0 <= j < k ==> dst[j] == src@[j],
        decreases N - k,
    {
        dst[k] = src[k];
        k = k + 1;
    }
    assert(dst@ =~= src@);
}

/// Runs the one-dimensional stage of the input's length.
pub fn inverse_staged_dynamic(transform: StagedTransform, input: &[i32], range: u8) -> (output: Vec<i32>)
    requires
        stage_supported(transform, input@.len()),
        16 <= range <= 20,
        bounded(input@, kernel_input_bound()),
    ensures
        output@.len() == input@.len(),
        ints(output@) == staged_spec(transform, ints(input@), range as nat),
{
    reveal(staged_spec);
    let n = input.len();
    if n == 4 {
        let mut a = [0i32; 4];
        array_from_slice(&mut a, input);
        let o = inverse_staged_4(transform, a, range);
        vstd::slice::slice_to_vec(&o)
    } else if n == 8 {
        let mut a = [0i32; 8];
        array_from_slice(&mut a, input);
        let o = inverse_staged_8(transform, a, range);
        vstd::slice::slice_to_vec(&o)
    } else if n == 16 {
        let mut a = [0i32; 16];
        array_from_slice(&mut a, input);
        let o = inverse_staged_16(transform, a, range);
        vstd::slice::slice_to_vec(&o)
    } else if n == 32 {
        let mut a = [0i32; 32];
        array_from_slice(&mut a, input);
        let o = inverse_dct32(a, range);
        vstd::slice::slice_to_vec(&o)
    } else {
        let mut a = [0i32; 64];
        array_from_slice(&mut a, input);
        let o = dct64::inverse_dct64(a, range);
        vstd::slice::slice_to_vec(&o)
    }
}

} // verus!

verus! {

/// How a two-dimensional inverse transform runs its row and column stages.
#[derive(Debug, Clone, Copy, PartialEq, Eq)]
pub struct StagePlan {
    pub vertical: StagedTransform,
    pub horizontal: StagedTransform,
    pub width: usize,
    pub height: usize,
    /// Coefficients are stored column by column (rectangular sizes).
    pub column_major_input: bool,
    /// Row inputs are first scaled by `1/sqrt(2)` (odd log2 aspect ratio).
    pub scale_input: bool,
    pub row_range: u8,
    pub row_shift: u8,
}

/// A plan whose stages exist and whose ranges the kernels accept.
pub open spec fn plan_valid(plan: StagePlan) -> bool {
    &&& stage_supported(plan.horizontal, plan.width as nat)
    &&& stage_supported(plan.vertical, plan.height as nat)
    &&& 16 <= plan.row_range <= 20
    &&& plan.row_shift <= 2
}

/// The bit depths of the inverse transforms.
pub open spec fn transform_bit_depth_ok(bit_depth: u8) -> bool {
    bit_depth == 8 || bit_depth == 10 || bit_depth == 12
}

/// `round2_signed`: a rounding shift saturated to the `i32` range.
pub open spec fn round2_spec(value: int, bits: nat) -> int {
    clamp_range(round_shift_spec(value, bits), i32::MIN as int, i32::MAX as int)
}

/// The optional `1/sqrt(2)` scaling of rectangular row inputs.
pub open spec fn scaled_input(value: int, scale: bool) -> int {
    if scale {
        mul_round12(value, 2896)
    } else {
        value
    }
}

/// Index of coefficient (`row`, `column`) in the dequantized block.
pub open spec fn coefficient_index(plan: StagePlan, row: int, column: int) -> int {
    if plan.column_major_input {
        column * plan.height + row
    } else {
        row * plan.width + column
    }
}

/// The saturated inputs of the row stage for `row`.
pub open spec fn row_input(plan: StagePlan, dequant: Seq<int>, bit_depth: nat, row: int) -> Seq<int> {
    Seq::new(
        plan.width as nat,
        |column: int|
            clamp_spec(
                scaled_input(dequant[coefficient_index(plan, row, column)], plan.scale_input),
                bit_depth + 8,
            ),
    )
}

/// The intermediate values of `row` after the row stage and its rounding shift.
pub open spec fn row_output(plan: StagePlan, dequant: Seq<int>, bit_depth: nat, row: int) -> Seq<int> {
    let transformed = staged_spec(
        plan.horizontal,
        row_input(plan, dequant, bit_depth, row),
        plan.row_range as nat,
    );
    Seq::new(plan.width as nat, |column: int| round2_spec(transformed[column], plan.row_shift as nat))
}

/// The saturated inputs of the column stage for `column`.
pub open spec fn column_input(plan: StagePlan, dequant: Seq<int>, bit_depth: nat, column: int) -> Seq<int> {
    Seq::new(
        plan.height as nat,
        |row: int| clamp_spec(row_output(plan, dequant, bit_depth, row)[column], 16),
    )
}

/// The residual at (`row`, `column`): the column stage, a rounding shift by 4 and
/// saturation to `bit_depth + 8` bits.
pub open spec fn residual_at(plan: StagePlan, dequant: Seq<int>, bit_depth: nat, row: int, column: int) -> int {
    let transformed = staged_spec(plan.vertical, column_input(plan, dequant, bit_depth, column), 16);
    clamp_range(
        round2_spec(transformed[row], 4),
        -signed_limit(bit_depth + 8),
        signed_limit(bit_depth + 8) - 1,
    )
}

/// The residual block: `height` rows of `width` values in raster order.
pub open spec fn residual_block(plan: StagePlan, dequant: Seq<int>, bit_depth: nat, output: Seq<i32>) -> bool {
    &&& output.len() == plan.width * plan.height
    &&& forall|row: int, column: int|
        0 <= row < plan.height && 0 <= column < plan.width ==> #[trigger] output[row * plan.width + column]
            == residual_at(plan, dequant, bit_depth, row, column)
}

/// `row * width + column` addresses a cell of a `height` x `width` grid.
pub proof fn lemma_grid_index(row: int, column: int, width: int, height: int)
    requires
        0 <= row < height,
        0 <= column < width,
    ensures
        0 <= row * width + column < width * height,
        0 <= row * width + column < height * width,
        (row + 1) * width == row * width + width,
        (row + 1) * width <= width * height,
{
    assert(width * height == height * width) by (nonlinear_arith);
    assert(0 <= row * width + column < width * height) by (nonlinear_arith)
        requires
            0 <= row < height,
            0 <= column < width,
    ;
    assert((row + 1) * width == row * width + width) by (nonlinear_arith);
    assert((row + 1) * width <= width * height) by (nonlinear_arith)
        requires
            0 <= row < height,
            0 <= column < width,
    ;
}

/// Cells of earlier rows come before every cell of `row`.
pub proof fn lemma_grid_row_before(r: int, c: int, row: int, width: int)
    requires
        0 <= r < row,
        0 <= c < width,
    ensures
        r * width + c < row * width,
{
    assert(r * width + c < row * width) by (nonlinear_arith)
        requires
            0 <= r < row,
            0 <= c < width,
    ;
}

/// Distinct cells of a grid have distinct raster indices.
pub proof fn lemma_grid_index_injective(r1: int, c1: int, r2: int, c2: int, width: int)
    requires
        0 <= c1 < width,
        0 <= c2 < width,
        0 <= r1,
        0 <= r2,
        r1 * width + c1 == r2 * width + c2,
    ensures
        r1 == r2 && c1 == c2,
{
    if r1 < r2 {
        assert(r1 * width + c1 < r2 * width + c2) by (nonlinear_arith)
            requires
                r1 < r2,
                0 <= c1 < width,
                0 <= c2 < width,
        ;
    } else if r2 < r1 {
        assert(r2 * width + c2 < r1 * width + c1) by (nonlinear_arith)
            requires
                r2 < r1,
                0 <= c1 < width,
                0 <= c2 < width,
        ;
    }
}

/// Multiplies by `1/sqrt(2)` in 12-bit fixed point.
fn scale_inv_sqrt2(value: i32) -> (result: i32)
    ensures
        result == mul_round12(value as int, 2896),
{
    proof {
        lemma_small_pow2();
        assert(-0x2000_0000_0000 <= value as int * 2896 <= 0x2000_0000_0000) by (nonlinear_arith);
    }
    let shifted = round_shift_i64(value as i64 * NEW_INV_SQRT2, NEW_SQRT2_BITS);
    proof {
        assert(-0x6000_0000 <= shifted <= 0x6000_0000) by (nonlinear_arith)
            requires
                shifted == (value as int * 2896 + 2048) / 4096,
                i32::MIN <= value <= i32::MAX,
        ;
    }
    shifted as i32
}

} // verus!

verus! {

/// The row stage: every row's intermediate values.
fn transform_rows(plan: StagePlan, dequant: &[i32], bit_depth: u8) -> (rows: Vec<Vec<i32>>)
    requires
        plan_valid(plan),
        transform_bit_depth_ok(bit_depth),
        dequant@.len() == plan.width * plan.height,
    ensures
        rows@.len() == plan.height,
        forall|r: int|
            0 <= r < plan.height ==> ints(#[trigger] rows@[r]@) == row_output(plan, ints(dequant@), bit_depth as nat, r),
{
    let width = plan.width;
    let height = plan.height;
    let bits = bit_depth + 8;
    proof {
        lemma_kernel_limit(bits as nat);
    }
    let ghost dq = ints(dequant@);
    let mut rows: Vec<Vec<i32>> = Vec::new();
    let mut row: usize = 0;
    while row < height
        invariant
            row <= height,
            width == plan.width,
            height == plan.height,
            bits == bit_depth + 8,
            plan_valid(plan),
            transform_bit_depth_ok(bit_depth),
            dequant@.len() == width * height,
            dq == ints(dequant@),
            32768 <= signed_limit(bits as nat) <= 524288,
            rows@.len() == row,
            forall|r: int| 0 <= r < row ==> ints(#[trigger] rows@[r]@) == row_output(plan, dq, bit_depth as nat, r),
        decreases height - row,
    {
        let mut input: Vec<i32> = Vec::new();
        let mut column: usize = 0;
        while column < width
            invariant
                column <= width,
                row < height,
                width == plan.width,
                height == plan.height,
                bits == bit_depth + 8,
                16 <= bits <= 20,
                plan_valid(plan),
                dequant@.len() == width * height,
                dq == ints(dequant@),
                32768 <= signed_limit(bits as nat) <= 524288,
                input@.len() == column,
                bounded(input@, kernel_input_bound()),
                forall|c: int| 0 <= c < column ==> input@[c] as int == #[trigger] row_input(plan, dq, bit_depth as nat, row as int)[c],
            decreases width - column,
        {
            proof {
                lemma_grid_index(row as int, column as int, width as int, height as int);
                lemma_grid_index(column as int, row as int, height as int, width as int);
            }
            let index = if plan.column_major_input {
                column * height + row
            } else {
                row * width + column
            };
            let raw = dequant[index];
            let value = if plan.scale_input {
                scale_inv_sqrt2(raw)
            } else {
                raw
            };
            input.push(clamp_signed(value, bits));
            column = column + 1;
        }
        assert(ints(input@) =~= row_input(plan, dq, bit_depth as nat, row as int));
        let values = inverse_staged_dynamic(plan.horizontal, input.as_slice(), plan.row_range);
        let mut out_row: Vec<i32> = Vec::new();
        let mut column: usize = 0;
        while column < width
            invariant
                column <= width,
                width == plan.width,
                values@.len() == width,
                out_row@.len() == column,
                plan.row_shift <= 2,
                forall|c: int| 0 <= c < column ==> out_row@[c] as int == round2_spec(#[trigger] values@[c] as int, plan.row_shift as nat),
            decreases width - column,
        {
            out_row.push(round2_signed(values[column], plan.row_shift));
            column = column + 1;
        }
        assert(ints(out_row@) =~= row_output(plan, dq, bit_depth as nat, row as int));
        rows.push(out_row);
        row = row + 1;
    }
    rows
}

/// The column stage: every column's transformed values.
fn transform_columns(plan: StagePlan, rows: &Vec<Vec<i32>>, dequant: Ghost<Seq<int>>, bit_depth: u8) -> (columns: Vec<Vec<i32>>)
    requires
        plan_valid(plan),
        transform_bit_depth_ok(bit_depth),
        rows@.len() == plan.height,
        forall|r: int|
            0 <= r < plan.height ==> ints(#[trigger] rows@[r]@) == row_output(plan, dequant@, bit_depth as nat, r),
    ensures
        columns@.len() == plan.width,
        forall|c: int|
            0 <= c < plan.width ==> #[trigger] columns@[c]@.len() == plan.height
                && ints(columns@[c]@) == staged_spec(plan.vertical, column_input(plan, dequant@, bit_depth as nat, c), 16),
{
    let width = plan.width;
    let height = plan.height;
    proof {
        lemma_kernel_limit(16);
    }
    let mut columns: Vec<Vec<i32>> = Vec::new();
    let mut column: usize = 0;
    while column < width
        invariant
            column <= width,
            width == plan.width,
            height == plan.height,
            plan_valid(plan),
            rows@.len() == height,
            signed_limit(16) <= 524288,
            forall|r: int| 0 <= r < height ==> ints(#[trigger] rows@[r]@) == row_output(plan, dequant@, bit_depth as nat, r),
            columns@.len() == column,
            forall|c: int|
                0 <= c < column ==> #[trigger] columns@[c]@.len() == height
                    && ints(columns@[c]@) == staged_spec(plan.vertical, column_input(plan, dequant@, bit_depth as nat, c), 16),
        decreases width - column,
    {
        let mut input: Vec<i32> = Vec::new();
        let mut row: usize = 0;
        while row < height
            invariant
                row <= height,
                column < width,
                width == plan.width,
                height == plan.height,
                rows@.len() == height,
                forall|r: int| 0 <= r < height ==> ints(#[trigger] rows@[r]@) == row_output(plan, dequant@, bit_depth as nat, r),
                input@.len() == row,
                signed_limit(16) <= 524288,
                bounded(input@, kernel_input_bound()),
                forall|r: int| 0 <= r < row ==> input@[r] as int == #[trigger] column_input(plan, dequant@, bit_depth as nat, column as int)[r],
            decreases height - row,
        {
            let ghost expected = row_output(plan, dequant@, bit_depth as nat, row as int);
            assert(ints(rows@[row as int]@) == expected);
            assert(rows@[row as int]@.len() == width);
            let value = rows[row][column];
            assert(value as int == expected[column as int]);
            input.push(clamp_signed(value, 16));
            row = row + 1;
        }
        assert(ints(input@) =~= column_input(plan, dequant@, bit_depth as nat, column as int));
        let values = inverse_staged_dynamic(plan.vertical, input.as_slice(), 16);
        columns.push(values);
        column = column + 1;
    }
    columns
}

/// Rounds the column-stage values by 4 bits, saturates them to the residual range
/// and lays them out in raster order.
fn assemble_residual(plan: StagePlan, columns: &Vec<Vec<i32>>, dequant: Ghost<Seq<int>>, bit_depth: u8) -> (output: Vec<i32>)
    requires
        plan_valid(plan),
        transform_bit_depth_ok(bit_depth),
        columns@.len() == plan.width,
        forall|c: int|
            0 <= c < plan.width ==> #[trigger] columns@[c]@.len() == plan.height
                && ints(columns@[c]@) == staged_spec(plan.vertical, column_input(plan, dequant@, bit_depth as nat, c), 16),
    ensures
        residual_block(plan, dequant@, bit_depth as nat, output@),
{
    let width = plan.width;
    let height = plan.height;
    proof {
        lemma_i32_one_shl((bit_depth + 7) as u8);
        lemma_kernel_limit(bit_depth as nat + 8);
    }
    let limit = 1i32 << (bit_depth + 7);
    assert(limit == signed_limit(bit_depth as nat + 8));
    let mut output: Vec<i32> = Vec::new();
    let mut row: usize = 0;
    while row < height
        invariant
            row <= height,
            width == plan.width,
            height == plan.height,
            plan_valid(plan),
            limit == signed_limit(bit_depth as nat + 8),
            columns@.len() == width,
            forall|c: int|
                0 <= c < width ==> #[trigger] columns@[c]@.len() == height
                    && ints(columns@[c]@) == staged_spec(plan.vertical, column_input(plan, dequant@, bit_depth as nat, c), 16),
            output@.len() == row * width,
            forall|r: int, c: int|
                0 <= r < row && 0 <= c < width ==> #[trigger] output@[r * width + c]
                    == residual_at(plan, dequant@, bit_depth as nat, r, c),
        decreases height - row,
    {
        let mut column: usize = 0;
        while column < width
            invariant
                column <= width,
                row < height,
                width == plan.width,
                height == plan.height,
                limit == signed_limit(bit_depth as nat + 8),
                columns@.len() == width,
                forall|c: int|
                    0 <= c < width ==> #[trigger] columns@[c]@.len() == height
                        && ints(columns@[c]@) == staged_spec(plan.vertical, column_input(plan, dequant@, bit_depth as nat, c), 16),
                output@.len() == row * width + column,
                forall|r: int, c: int|
                    0 <= r < row && 0 <= c < width ==> #[trigger] output@[r * width + c]
                        == residual_at(plan, dequant@, bit_depth as nat, r, c),
                forall|c: int|
                    0 <= c < column ==> #[trigger] output@[row * width + c]
                        == residual_at(plan, dequant@, bit_depth as nat, row as int, c),
            decreases width - column,
        {
            proof {
                lemma_grid_index(row as int, column as int, width as int, height as int);
            }
            let ghost before = output@;
            let ghost transformed = staged_spec(plan.vertical, column_input(plan, dequant@, bit_depth as nat, column as int), 16);
            assert(ints(columns@[column as int]@) == transformed);
            let value = columns[column][row];
            assert(value as int == transformed[row as int]);
            let rounded = round2_signed(value, 4);
            let residual = if rounded < -limit {
                -limit
            } else if rounded > limit - 1 {
                limit - 1
            } else {
                rounded
            };
            output.push(residual);
            proof {
                assert forall|r: int, c: int|
                    0 <= r < row && 0 <= c < width implies #[trigger] output@[r * width + c]
                        == residual_at(plan, dequant@, bit_depth as nat, r, c) by {
                    lemma_grid_row_before(r, c, row as int, width as int);
                    assert(output@[r * width + c] == before[r * width + c]);
                }
                assert forall|c: int|
                    0 <= c < column + 1 implies #[trigger] output@[row * width + c]
                        == residual_at(plan, dequant@, bit_depth as nat, row as int, c) by {
                    if c < column {
                        assert(output@[row * width + c] == before[row * width + c]);
                    }
                }
            }
            column = column + 1;
        }
        proof {
            lemma_grid_index(row as int, 0, width as int, height as int);
        }
        row = row + 1;
    }
    output
}

/// The two-dimensional inverse transform of `plan`: row stage, column stage and
/// final rounding to residuals.
pub fn inverse_transform_2d(plan: StagePlan, dequant: &[i32], bit_depth: u8) -> (output: Vec<i32>)
    requires
        plan_valid(plan),
        transform_bit_depth_ok(bit_depth),
        dequant@.len() == plan.width * plan.height,
    ensures
        residual_block(plan, ints(dequant@), bit_depth as nat, output@),
{
    let rows = transform_rows(plan, dequant, bit_depth);
    let columns = transform_columns(plan, &rows, Ghost(ints(dequant@)), bit_depth);
    assemble_residual(plan, &columns, Ghost(ints(dequant@)), bit_depth)
}

} // verus!

verus! {

/// The plan of a square transform whose coefficients are stored row by row.
pub open spec fn square_plan(tx_type: TxType, side: usize, row_range: u8, row_shift: u8) -> StagePlan {
    StagePlan {
        vertical: staged_pair_spec(tx_type).0,
        horizontal: staged_pair_spec(tx_type).1,
        width: side,
        height: side,
        column_major_input: false,
        scale_input: false,
        row_range,
        row_shift,
    }
}

fn square_plan_for(tx_type: TxType, side: usize, row_range: u8, row_shift: u8) -> (plan: StagePlan)
    ensures
        plan == square_plan(tx_type, side, row_range, row_shift),
{
    let (vertical, horizontal) = staged_transform_pair(tx_type);
    StagePlan {
        vertical,
        horizontal,
        width: side,
        height: side,
        column_major_input: false,
        scale_input: false,
        row_range,
        row_shift,
    }
}

/// The 4x4 inverse transform (rows at `bit_depth + 8` bits, no intermediate shift).
pub fn inverse_transform_4x4(tx_type: TxType, dequant: &[i32], bit_depth: u8) -> (output: Vec<i32>)
    requires
        transform_bit_depth_ok(bit_depth),
        dequant@.len() == 16,
    ensures
        residual_block(square_plan(tx_type, 4, (bit_depth + 8) as u8, 0), ints(dequant@), bit_depth as nat, output@),
{
    let plan = square_plan_for(tx_type, 4, bit_depth + 8, 0);
    inverse_transform_2d(plan, dequant, bit_depth)
}

/// The 8x8 inverse transform (rows at `bit_depth + 8` bits, intermediate shift 1).
pub fn inverse_transform_8x8(tx_type: TxType, dequant: &[i32], bit_depth: u8) -> (output: Vec<i32>)
    requires
        transform_bit_depth_ok(bit_depth),
        dequant@.len() == 64,
    ensures
        residual_block(square_plan(tx_type, 8, (bit_depth + 8) as u8, 1), ints(dequant@), bit_depth as nat, output@),
{
    let plan = square_plan_for(tx_type, 8, bit_depth + 8, 1);
    inverse_transform_2d(plan, dequant, bit_depth)
}

/// The 16x16 inverse transform (rows at 16 bits, intermediate shift 2).
pub fn inverse_transform_16x16(tx_type: TxType, dequant: &[i32], bit_depth: u8) -> (output: Vec<i32>)
    requires
        transform_bit_depth_ok(bit_depth),
        dequant@.len() == 256,
    ensures
        residual_block(square_plan(tx_type, 16, 16, 2), ints(dequant@), bit_depth as nat, output@),
{
    let plan = square_plan_for(tx_type, 16, 16, 2);
    inverse_transform_2d(plan, dequant, bit_depth)
}

/// `log2` of a transform side.
pub open spec fn log2_side(side: nat) -> int {
    if side == 4 {
        2
    } else if side == 8 {
        3
    } else if side == 16 {
        4
    } else if side == 32 {
        5
    } else {
        6
    }
}

fn log2_side_exec(side: usize) -> (log: u32)
    ensures
        log == log2_side(side as nat),
{
    if side == 4 {
        2
    } else if side == 8 {
        3
    } else if side == 16 {
        4
    } else if side == 32 {
        5
    } else {
        6
    }
}

/// The intermediate shift of a rectangular transform.
pub open spec fn rect_row_shift(tx_size: TxSize) -> u8 {
    match tx_size {
        TxSize::Tx4x8 | TxSize::Tx8x4 => 0,
        TxSize::Tx8x32 | TxSize::Tx32x8 | TxSize::Tx16x64 | TxSize::Tx64x16 => 2,
        _ => 1,
    }
}

/// The plan of a rectangular transform: coefficients stored column by column,
/// row inputs scaled by `1/sqrt(2)` when the log2 aspect ratio is odd.
pub open spec fn rect_plan(tx_type: TxType, tx_size: TxSize, bit_depth: u8) -> StagePlan {
    StagePlan {
        vertical: staged_pair_spec(tx_type).0,
        horizontal: staged_pair_spec(tx_type).1,
        width: tx_size.spec_width() as usize,
        height: tx_size.spec_height() as usize,
        column_major_input: true,
        scale_input: (log2_side(tx_size.spec_width()) - log2_side(tx_size.spec_height())) % 2 != 0,
        row_range: (bit_depth + 8) as u8,
        row_shift: rect_row_shift(tx_size),
    }
}

/// The inverse transform of a rectangular size.
pub fn inverse_transform_rect(tx_type: TxType, tx_size: TxSize, dequant: &[i32], bit_depth: u8) -> (output: Vec<i32>)
    requires
        transform_bit_depth_ok(bit_depth),
        tx_size.spec_is_rectangular(),
        tx_size.spec_width() > 16 || tx_size.spec_height() > 16 ==> tx_type == TxType::DctDct,
        dequant@.len() == tx_size.spec_sample_count(),
    ensures
        residual_block(rect_plan(tx_type, tx_size, bit_depth), ints(dequant@), bit_depth as nat, output@),
{
    let width = tx_size.width();
    let height = tx_size.height();
    let (vertical, horizontal) = staged_transform_pair(tx_type);
    let row_shift: u8 = match tx_size {
        TxSize::Tx4x8 | TxSize::Tx8x4 => 0,
        TxSize::Tx8x32 | TxSize::Tx32x8 | TxSize::Tx16x64 | TxSize::Tx64x16 => 2,
        _ => 1,
    };
    let width_log = log2_side_exec(width);
    let height_log = log2_side_exec(height);
    let log_ratio = if width_log > height_log {
        width_log - height_log
    } else {
        height_log - width_log
    };
    let plan = StagePlan {
        vertical,
        horizontal,
        width,
        height,
        column_major_input: true,
        scale_input: log_ratio % 2 == 1,
        row_range: bit_depth + 8,
        row_shift,
    };
    assert(plan == rect_plan(tx_type, tx_size, bit_depth));
    inverse_transform_2d(plan, dequant, bit_depth)
}

} // verus!

verus! {

/// `cos(unit * pi / 128)` in 12-bit fixed point for any non-negative `unit`.
pub open spec fn cospi_unit_spec(unit: nat) -> int {
    let folded = unit % 256;
    let folded = if folded > 128 { (256 - folded) as nat } else { folded };
    if folded == 64 {
        0
    } else if folded <= 64 {
        cospi_spec(folded as usize)
    } else {
        -cospi_spec((128 - folded) as usize)
    }
}

/// Looks up `cos(unit * pi / 128)` by folding the angle into the first quadrant.
pub fn cospi_unit_128(unit: usize) -> (value: i32)
    ensures
        value == cospi_unit_spec(unit as nat),
        -4096 <= value <= 4096,
{
    let unit = unit % 256;
    let unit = if unit > 128 {
        256 - unit
    } else {
        unit
    };
    if unit == 64 {
        return 0;
    }
    if unit <= 64 {
        cospi(unit)
    } else {
        -cospi(128 - unit)
    }
}

/// The fixed-point 64-point DCT basis value for (`sample`, `coefficient`).
pub open spec fn dct64_basis_spec(sample: nat, coefficient: nat) -> int {
    if coefficient == 0 {
        512
    } else {
        round_shift_spec(cospi_unit_spec((2 * sample + 1) * coefficient) * 5793, 15)
    }
}

/// The basis value `round(sqrt(2) * cos((2*sample + 1) * coefficient * pi / 128) * 2^-3)`
/// in 12-bit fixed point, or 512 for the DC coefficient.
pub fn inverse_dct64_basis(sample: usize, coefficient: usize) -> (value: i32)
    requires
        sample < 64,
        coefficient < 64,
    ensures
        value == dct64_basis_spec(sample as nat, coefficient as nat),
        -724 <= value <= 724,
{
    if coefficient == 0 {
        return 512;
    }
    proof {
        lemma_small_pow2();
        lemma2_to64();
        assert((2 * sample + 1) * coefficient < 0x10000) by (nonlinear_arith)
            requires
                sample < 64,
                coefficient < 64,
        ;
    }
    let unit = cospi_unit_128((2 * sample + 1) * coefficient);
    let value = round_shift_i64(unit as i64 * NEW_SQRT2, NEW_SQRT2_BITS + 3);
    proof {
        assert(pow2(15) == 32768) by {
            lemma2_to64();
        }
        assert(-724 <= value <= 724) by (nonlinear_arith)
            requires
                value == (unit as int * 5793 + 16384) / 32768,
                -4096 <= unit <= 4096,
        ;
    }
    value as i32
}

/// The 64x64 basis table: entry `sample * 64 + coefficient`.
pub fn inverse_dct64_basis_table() -> (table: Vec<i32>)
    ensures
        table@.len() == 4096,
        forall|sample: int, coefficient: int|
            0 <= sample < 64 && 0 <= coefficient < 64 ==> #[trigger] table@[sample * 64 + coefficient]
                == dct64_basis_spec(sample as nat, coefficient as nat),
        forall|index: int| 0 <= index < 4096 ==> -724 <= #[trigger] table@[index] <= 724,
{
    let mut table: Vec<i32> = Vec::new();
    let mut sample: usize = 0;
    while sample < 64
        invariant
            sample <= 64,
            table@.len() == sample * 64,
            forall|s: int, c: int|
                0 <= s < sample && 0 <= c < 64 ==> #[trigger] table@[s * 64 + c] == dct64_basis_spec(s as nat, c as nat),
            forall|index: int| 0 <= index < table@.len() ==> -724 <= #[trigger] table@[index] <= 724,
        decreases 64 - sample,
    {
        let mut coefficient: usize = 0;
        while coefficient < 64
            invariant
                sample < 64,
                coefficient <= 64,
                table@.len() == sample * 64 + coefficient,
                forall|s: int, c: int|
                    0 <= s < sample && 0 <= c < 64 ==> #[trigger] table@[s * 64 + c] == dct64_basis_spec(s as nat, c as nat),
                forall|c: int| 0 <= c < coefficient ==> #[trigger] table@[sample * 64 + c] == dct64_basis_spec(sample as nat, c as nat),
                forall|index: int| 0 <= index < table@.len() ==> -724 <= #[trigger] table@[index] <= 724,
            decreases 64 - coefficient,
        {
            let ghost before = table@;
            table.push(inverse_dct64_basis(sample, coefficient));
            proof {
                assert forall|s: int, c: int| 0 <= s < sample && 0 <= c < 64 implies #[trigger] table@[s * 64 + c]
                    == dct64_basis_spec(s as nat, c as nat) by {
                    lemma_grid_row_before(s, c, sample as int, 64);
                    assert(table@[s * 64 + c] == before[s * 64 + c]);
                }
                assert forall|c: int| 0 <= c < coefficient + 1 implies #[trigger] table@[sample * 64 + c]
                    == dct64_basis_spec(sample as nat, c as nat) by {
                    if c < coefficient {
                        assert(table@[sample * 64 + c] == before[sample * 64 + c]);
                    }
                }
            }
            coefficient = coefficient + 1;
        }
        sample = sample + 1;
    }
    table
}

} // verus!

verus! {

/// `sum_{u < n} basis[x * side + u] * dequant[row * side + u]`: row `row` of the
/// coefficients against basis function `x`.
pub open spec fn basis_row_sum(basis: Seq<int>, dequant: Seq<int>, side: int, row: int, x: int, n: nat) -> int
    decreases n,
{
    if n == 0 {
        0
    } else {
        basis_row_sum(basis, dequant, side, row, x, (n - 1) as nat)
            + basis[x * side + (n - 1)] * dequant[row * side + (n - 1)]
    }
}

/// `sum_{v < n} basis[y * side + v] * basis_row_sum(.., v, x, side)`.
pub open spec fn basis_column_sum(basis: Seq<int>, dequant: Seq<int>, side: int, y: int, x: int, n: nat) -> int
    decreases n,
{
    if n == 0 {
        0
    } else {
        basis_column_sum(basis, dequant, side, y, x, (n - 1) as nat)
            + basis[y * side + (n - 1)] * basis_row_sum(basis, dequant, side, (n - 1) as int, x, side as nat)
    }
}

/// The residual at (`y`, `x`) of the separable fixed-basis transform: both passes
/// summed exactly, rounded by 24 bits and saturated to `bit_depth + 8` bits.
pub open spec fn fixed_basis_residual(basis: Seq<int>, dequant: Seq<int>, side: int, bit_depth: nat, y: int, x: int) -> int {
    clamp_range(
        round_shift_spec(basis_column_sum(basis, dequant, side, y, x, side as nat), 24),
        -signed_limit(bit_depth + 8),
        signed_limit(bit_depth + 8) - 1,
    )
}

/// Largest magnitude of a basis entry.
pub open spec fn basis_bound() -> int {
    724
}

pub open spec fn basis_entries_bounded(basis: Seq<i32>) -> bool {
    forall|index: int| 0 <= index < basis.len() ==> -basis_bound() <= #[trigger] basis[index] <= basis_bound()
}

proof fn lemma_basis_row_sum_bound(basis: Seq<int>, dequant: Seq<int>, side: int, row: int, x: int, n: nat)
    requires
        0 < side <= 64,
        n <= side,
        0 <= row < side,
        0 <= x < side,
        basis.len() == side * side,
        dequant.len() == side * side,
        forall|index: int| 0 <= index < basis.len() ==> -724 <= #[trigger] basis[index] <= 724,
        forall|index: int| 0 <= index < dequant.len() ==> -0x8000_0000 <= #[trigger] dequant[index] <= 0x8000_0000,
    ensures
        -(n * 1554778161152) <= basis_row_sum(basis, dequant, side, row, x, n) <= n * 1554778161152,
    decreases n,
{
    if n > 0 {
        lemma_basis_row_sum_bound(basis, dequant, side, row, x, (n - 1) as nat);
        lemma_grid_index(x, n - 1, side, side);
        lemma_grid_index(row, n - 1, side, side);
        let b = basis[x * side + (n - 1)];
        let d = dequant[row * side + (n - 1)];
        assert(-1554778161152 <= b * d <= 1554778161152) by (nonlinear_arith)
            requires
                -724 <= b <= 724,
                -0x8000_0000 <= d <= 0x8000_0000,
        ;
        assert((n - 1) * 1554778161152 + 1554778161152 == n * 1554778161152) by (nonlinear_arith);
    }
}

proof fn lemma_basis_column_sum_bound(basis: Seq<int>, dequant: Seq<int>, side: int, y: int, x: int, n: nat)
    requires
        0 < side <= 64,
        n <= side,
        0 <= y < side,
        0 <= x < side,
        basis.len() == side * side,
        dequant.len() == side * side,
        forall|index: int| 0 <= index < basis.len() ==> -724 <= #[trigger] basis[index] <= 724,
        forall|index: int| 0 <= index < dequant.len() ==> -0x8000_0000 <= #[trigger] dequant[index] <= 0x8000_0000,
    ensures
        -(n * 72042200875139072) <= basis_column_sum(basis, dequant, side, y, x, n)
            <= n * 72042200875139072,
    decreases n,
{
    if n > 0 {
        lemma_basis_column_sum_bound(basis, dequant, side, y, x, (n - 1) as nat);
        lemma_basis_row_sum_bound(basis, dequant, side, n - 1, x, side as nat);
        lemma_grid_index(y, n - 1, side, side);
        let b = basis[y * side + (n - 1)];
        let t = basis_row_sum(basis, dequant, side, n - 1, x, side as nat);
        assert(side * 1554778161152 <= 99505802313728) by (nonlinear_arith)
            requires
                side <= 64,
        ;
        assert(-72042200875139072 <= b * t <= 72042200875139072) by (nonlinear_arith)
            requires
                -724 <= b <= 724,
                -99505802313728 <= t <= 99505802313728,
        ;
        assert((n - 1) * 72042200875139072 + 72042200875139072 == n * 72042200875139072) by (nonlinear_arith);
    }
}

/// The separable square inverse transform against a fixed basis table: exact 64-bit
/// sums over rows, then over columns, rounded by 24 bits and saturated.
pub fn inverse_square_dct_fixed_basis(side: usize, basis: &[i32], dequant: &[i32], bit_depth: u8) -> (output: Vec<i32>)
    requires
        0 < side <= 64,
        transform_bit_depth_ok(bit_depth),
        basis@.len() == side * side,
        dequant@.len() == side * side,
        basis_entries_bounded(basis@),
    ensures
        output@.len() == side * side,
        forall|y: int, x: int|
            0 <= y < side && 0 <= x < side ==> #[trigger] output@[y * side + x]
                == fixed_basis_residual(ints(basis@), ints(dequant@), side as int, bit_depth as nat, y, x),
{
    let ghost b = ints(basis@);
    let ghost d = ints(dequant@);
    proof {
        assert(side * side <= 4096) by (nonlinear_arith)
            requires
                0 < side <= 64,
        ;
        assert forall|index: int| 0 <= index < b.len() implies -724 <= #[trigger] b[index] <= 724 by {
            assert(-724 <= basis@[index] <= 724);
        }
        assert forall|index: int| 0 <= index < d.len() implies -0x8000_0000 <= #[trigger] d[index] <= 0x8000_0000 by {
            assert(i32::MIN <= dequant@[index] <= i32::MAX);
        }
    }
    let mut temp: Vec<i64> = Vec::new();
    let mut row: usize = 0;
    while row < side
        invariant
            0 < side <= 64,
            side * side <= 4096,
            row <= side,
            basis@.len() == side * side,
            dequant@.len() == side * side,
            b == ints(basis@),
            d == ints(dequant@),
            b.len() == side * side,
            d.len() == side * side,
            forall|index: int| 0 <= index < b.len() ==> -724 <= #[trigger] b[index] <= 724,
            forall|index: int| 0 <= index < d.len() ==> -0x8000_0000 <= #[trigger] d[index] <= 0x8000_0000,
            temp@.len() == row * side,
            forall|r: int, x: int|
                0 <= r < row && 0 <= x < side ==> #[trigger] temp@[r * side + x] == basis_row_sum(b, d, side as int, r, x, side as nat),
        decreases side - row,
    {
        let mut x: usize = 0;
        while x < side
            invariant
                0 < side <= 64,
                side * side <= 4096,
            side * side <= 4096,
                row < side,
                x <= side,
                basis@.len() == side * side,
                dequant@.len() == side * side,
                b == ints(basis@),
                d == ints(dequant@),
                b.len() == side * side,
                d.len() == side * side,
                forall|index: int| 0 <= index < b.len() ==> -724 <= #[trigger] b[index] <= 724,
                forall|index: int| 0 <= index < d.len() ==> -0x8000_0000 <= #[trigger] d[index] <= 0x8000_0000,
                temp@.len() == row * side + x,
                forall|r: int, c: int|
                    0 <= r < row && 0 <= c < side ==> #[trigger] temp@[r * side + c] == basis_row_sum(b, d, side as int, r, c, side as nat),
                forall|c: int| 0 <= c < x ==> #[trigger] temp@[row * side + c] == basis_row_sum(b, d, side as int, row as int, c, side as nat),
            decreases side - x,
        {
            let mut sum: i64 = 0;
            let mut u: usize = 0;
            while u < side
                invariant
                    0 < side <= 64,
                    side * side <= 4096,
                side * side <= 4096,
            side * side <= 4096,
                    row < side,
                    x < side,
                    u <= side,
                    basis@.len() == side * side,
                    dequant@.len() == side * side,
                    b == ints(basis@),
                    d == ints(dequant@),
                    b.len() == side * side,
                    d.len() == side * side,
                    forall|index: int| 0 <= index < b.len() ==> -724 <= #[trigger] b[index] <= 724,
                    forall|index: int| 0 <= index < d.len() ==> -0x8000_0000 <= #[trigger] d[index] <= 0x8000_0000,
                    sum == basis_row_sum(b, d, side as int, row as int, x as int, u as nat),
                decreases side - u,
            {
                proof {
                    lemma_grid_index(x as int, u as int, side as int, side as int);
                    lemma_grid_index(row as int, u as int, side as int, side as int);
                    lemma_basis_row_sum_bound(b, d, side as int, row as int, x as int, (u + 1) as nat);
                    assert((u + 1) * 1554778161152 <= 99505802313728) by (nonlinear_arith)
                        requires
                            u + 1 <= 64,
                    ;
                }
                let weight = basis[x * side + u] as i64;
                let coefficient = dequant[row * side + u] as i64;
                proof {
                    assert(-1554778161152 <= weight * coefficient <= 1554778161152) by (nonlinear_arith)
                        requires
                            -724 <= weight <= 724,
                            -0x8000_0000 <= coefficient <= 0x8000_0000,
                    ;
                }
                let term = weight * coefficient;
                sum = sum + term;
                u = u + 1;
            }
            let ghost before = temp@;
            temp.push(sum);
            proof {
                lemma_grid_index(row as int, x as int, side as int, side as int);
                assert forall|r: int, c: int| 0 <= r < row && 0 <= c < side implies #[trigger] temp@[r * side + c]
                    == basis_row_sum(b, d, side as int, r, c, side as nat) by {
                    lemma_grid_row_before(r, c, row as int, side as int);
                    assert(temp@[r * side + c] == before[r * side + c]);
                }
                assert forall|c: int| 0 <= c < x + 1 implies #[trigger] temp@[row * side + c]
                    == basis_row_sum(b, d, side as int, row as int, c, side as nat) by {
                    if c < x {
                        assert(temp@[row * side + c] == before[row * side + c]);
                    }
                }
            }
            x = x + 1;
        }
        proof {
            lemma_grid_index(row as int, 0, side as int, side as int);
        }
        row = row + 1;
    }
    proof {
        lemma_i64_one_shl((bit_depth + 7) as u8);
        lemma_small_pow2();
    }
    let limit: i64 = 1i64 << (bit_depth + 7);
    assert(limit == signed_limit(bit_depth as nat + 8));
    let mut output: Vec<i32> = Vec::new();
    let mut y: usize = 0;
    while y < side
        invariant
            0 < side <= 64,
            side * side <= 4096,
            y <= side,
            transform_bit_depth_ok(bit_depth),
            limit == signed_limit(bit_depth as nat + 8),
            limit <= 524288,
            basis@.len() == side * side,
            dequant@.len() == side * side,
            b == ints(basis@),
            d == ints(dequant@),
            b.len() == side * side,
            d.len() == side * side,
            forall|index: int| 0 <= index < b.len() ==> -724 <= #[trigger] b[index] <= 724,
            forall|index: int| 0 <= index < d.len() ==> -0x8000_0000 <= #[trigger] d[index] <= 0x8000_0000,
            temp@.len() == side * side,
            forall|r: int, x: int|
                0 <= r < side && 0 <= x < side ==> #[trigger] temp@[r * side + x] == basis_row_sum(b, d, side as int, r, x, side as nat),
            output@.len() == y * side,
            forall|r: int, x: int|
                0 <= r < y && 0 <= x < side ==> #[trigger] output@[r * side + x]
                    == fixed_basis_residual(b, d, side as int, bit_depth as nat, r, x),
        decreases side - y,
    {
        let mut x: usize = 0;
        while x < side
            invariant
                0 < side <= 64,
                side * side <= 4096,
            side * side <= 4096,
                y < side,
                x <= side,
                limit == signed_limit(bit_depth as nat + 8),
                limit <= 524288,
                basis@.len() == side * side,
                dequant@.len() == side * side,
                b == ints(basis@),
                d == ints(dequant@),
                b.len() == side * side,
                d.len() == side * side,
                forall|index: int| 0 <= index < b.len() ==> -724 <= #[trigger] b[index] <= 724,
                forall|index: int| 0 <= index < d.len() ==> -0x8000_0000 <= #[trigger] d[index] <= 0x8000_0000,
                temp@.len() == side * side,
                forall|r: int, c: int|
                    0 <= r < side && 0 <= c < side ==> #[trigger] temp@[r * side + c] == basis_row_sum(b, d, side as int, r, c, side as nat),
                output@.len() == y * side + x,
                forall|r: int, c: int|
                    0 <= r < y && 0 <= c < side ==> #[trigger] output@[r * side + c]
                        == fixed_basis_residual(b, d, side as int, bit_depth as nat, r, c),
                forall|c: int|
                    0 <= c < x ==> #[trigger] output@[y * side + c]
                        == fixed_basis_residual(b, d, side as int, bit_depth as nat, y as int, c),
            decreases side - x,
        {
            let mut sum: i64 = 0;
            let mut v: usize = 0;
            while v < side
                invariant
                    0 < side <= 64,
                    side * side <= 4096,
                side * side <= 4096,
            side * side <= 4096,
                    y < side,
                    x < side,
                    v <= side,
                    basis@.len() == side * side,
                    dequant@.len() == side * side,
                    b == ints(basis@),
                    d == ints(dequant@),
                    b.len() == side * side,
                    d.len() == side * side,
                    forall|index: int| 0 <= index < b.len() ==> -724 <= #[trigger] b[index] <= 724,
                    forall|index: int| 0 <= index < d.len() ==> -0x8000_0000 <= #[trigger] d[index] <= 0x8000_0000,
                    temp@.len() == side * side,
                    forall|r: int, c: int|
                        0 <= r < side && 0 <= c < side ==> #[trigger] temp@[r * side + c] == basis_row_sum(b, d, side as int, r, c, side as nat),
                    sum == basis_column_sum(b, d, side as int, y as int, x as int, v as nat),
                decreases side - v,
            {
                proof {
                    lemma_grid_index(y as int, v as int, side as int, side as int);
                    lemma_grid_index(v as int, x as int, side as int, side as int);
                    lemma_basis_column_sum_bound(b, d, side as int, y as int, x as int, (v + 1) as nat);
                    lemma_basis_row_sum_bound(b, d, side as int, v as int, x as int, side as nat);
                    assert(side * 1554778161152 <= 99505802313728) by (nonlinear_arith)
                        requires
                            side <= 64,
                    ;
                    assert((v + 1) * 72042200875139072 <= 4610700856008900608) by (nonlinear_arith)
                        requires
                            v + 1 <= 64,
                    ;
                }
                let weight = basis[y * side + v] as i64;
                let partial = temp[v * side + x];
                proof {
                    assert(-72042200875139072 <= weight * partial <= 72042200875139072) by (nonlinear_arith)
                        requires
                            -724 <= weight <= 724,
                            -99505802313728 <= partial <= 99505802313728,
                    ;
                }
                sum = sum + weight * partial;
                v = v + 1;
            }
            proof {
                lemma_basis_column_sum_bound(b, d, side as int, y as int, x as int, side as nat);
                assert(side * 72042200875139072 <= 4610700856008900608) by (nonlinear_arith)
                    requires
                        side <= 64,
                ;
                lemma2_to64();
                let ghost bound = (side as nat) * 72042200875139072;
                assert(-bound <= sum <= bound);
                assert(bound <= 4610700856008900608);
                assert(-4_700_000_000_000_000_000 <= sum <= 4_700_000_000_000_000_000);
            }
            let rounded = round_shift_i64(sum, 24);
            let clamped = if rounded < -limit {
                -limit
            } else if rounded > limit - 1 {
                limit - 1
            } else {
                rounded
            };
            let ghost before = output@;
            output.push(clamped as i32);
            proof {
                lemma_grid_index(y as int, x as int, side as int, side as int);
                assert forall|r: int, c: int| 0 <= r < y && 0 <= c < side implies #[trigger] output@[r * side + c]
                    == fixed_basis_residual(b, d, side as int, bit_depth as nat, r, c) by {
                    lemma_grid_row_before(r, c, y as int, side as int);
                    assert(output@[r * side + c] == before[r * side + c]);
                }
                assert forall|c: int| 0 <= c < x + 1 implies #[trigger] output@[y * side + c]
                    == fixed_basis_residual(b, d, side as int, bit_depth as nat, y as int, c) by {
                    if c < x {
                        assert(output@[y * side + c] == before[y * side + c]);
                    }
                }
            }
            x = x + 1;
        }
        proof {
            lemma_grid_index(y as int, 0, side as int, side as int);
        }
        y = y + 1;
    }
    output
}

} // verus!

verus! {

/// The DC-only value of the 64x64 inverse DCT: the DC coefficient scaled by
/// `cos(pi/4)` for the row pass, shifted by 2, scaled again for the column pass,
/// shifted by 4 and saturated.
pub open spec fn dct64_dc_value(dc: int, bit_depth: nat) -> int {
    let row = round_shift_spec(dc * 2896, 12);
    let row = round2_spec(row, 2);
    let column = round_shift_spec(row * 2896, 12);
    clamp_range(round2_spec(column, 4), -signed_limit(bit_depth + 8), signed_limit(bit_depth + 8) - 1)
}

/// The 64x64 inverse DCT of a block whose only non-zero coefficient is the DC.
pub fn inverse_dct64_dc_only(dc: i32, bit_depth: u8) -> (output: Vec<i32>)
    requires
        transform_bit_depth_ok(bit_depth),
    ensures
        output@.len() == 4096,
        forall|index: int| 0 <= index < 4096 ==> #[trigger] output@[index] as int == dct64_dc_value(dc as int, bit_depth as nat),
{
    proof {
        lemma_small_pow2();
    }
    let cos_bit: u8 = 12;
    let row = round_shift_i64(dc as i64 * cospi(32) as i64, cos_bit);
    proof {
        assert(-0x6000_0000 <= row <= 0x6000_0000) by (nonlinear_arith)
            requires
                row == (dc as int * 2896 + 2048) / 4096,
                i32::MIN <= dc <= i32::MAX,
        ;
    }
    let row = round2_signed(row as i32, 2);
    let column = round_shift_i64(row as i64 * cospi(32) as i64, cos_bit);
    proof {
        assert(-0x6000_0000 <= column <= 0x6000_0000) by (nonlinear_arith)
            requires
                column == (row as int * 2896 + 2048) / 4096,
                i32::MIN <= row <= i32::MAX,
        ;
        lemma_i32_one_shl((bit_depth + 7) as u8);
        lemma_kernel_limit(bit_depth as nat + 8);
    }
    let limit = 1i32 << (bit_depth + 7);
    let rounded = round2_signed(column as i32, 4);
    let value = if rounded < -limit {
        -limit
    } else if rounded > limit - 1 {
        limit - 1
    } else {
        rounded
    };
    let output = vec![value; 4096];
    proof {
        assert forall|index: int| 0 <= index < 4096 implies #[trigger] output@[index] as int == dct64_dc_value(dc as int, bit_depth as nat) by {
            assert(cloned(value, output@[index]));
        }
    }
    output
}

/// Whether every coefficient after the first is zero.
pub open spec fn only_dc(coefficients: Seq<i32>) -> bool {
    forall|index: int| 1 <= index < coefficients.len() ==> coefficients[index] == 0
}

/// The 64x64 inverse DCT through the fixed basis (the DC-only shortcut when it applies).
pub open spec fn dct64_fixed_basis_residual(dequant: Seq<i32>, bit_depth: nat, y: int, x: int) -> int {
    if only_dc(dequant) {
        dct64_dc_value(dequant[0] as int, bit_depth)
    } else {
        fixed_basis_residual(
            Seq::new(4096, |index: int| dct64_basis_spec((index / 64) as nat, (index % 64) as nat)),
            ints(dequant),
            64,
            bit_depth,
            y,
            x,
        )
    }
}

/// The 64x64 inverse DCT by exact products with the fixed basis.
pub fn inverse_dct64_fixed_basis(dequant: &[i32], bit_depth: u8) -> (output: Vec<i32>)
    requires
        transform_bit_depth_ok(bit_depth),
        dequant@.len() == 4096,
    ensures
        output@.len() == 4096,
        forall|y: int, x: int|
            0 <= y < 64 && 0 <= x < 64 ==> #[trigger] output@[y * 64 + x] as int
                == dct64_fixed_basis_residual(dequant@, bit_depth as nat, y, x),
{
    let mut index: usize = 1;
    let mut all_zero = true;
    while index < dequant.len()
        invariant
            1 <= index <= dequant@.len(),
            dequant@.len() == 4096,
            all_zero == (forall|k: int| 1 <= k < index ==> dequant@[k] == 0),
        decreases dequant@.len() - index,
    {
        if dequant[index] != 0 {
            all_zero = false;
        }
        index = index + 1;
    }
    if all_zero {
        let output = inverse_dct64_dc_only(dequant[0], bit_depth);
        proof {
            assert forall|y: int, x: int| 0 <= y < 64 && 0 <= x < 64 implies #[trigger] output@[y * 64 + x] as int
                == dct64_fixed_basis_residual(dequant@, bit_depth as nat, y, x) by {
                lemma_grid_index(y, x, 64, 64);
            }
        }
        return output;
    }
    let basis = inverse_dct64_basis_table();
    let ghost table = Seq::new(4096, |index: int| dct64_basis_spec((index / 64) as nat, (index % 64) as nat));
    proof {
        assert forall|index: int| 0 <= index < 4096 implies #[trigger] ints(basis@)[index] == table[index] by {
            let s = index / 64;
            let c = index % 64;
            assert(index == s * 64 + c);
            assert(basis@[s * 64 + c] == dct64_basis_spec(s as nat, c as nat));
        }
        assert(ints(basis@) =~= table);
    }
    inverse_square_dct_fixed_basis(64, basis.as_slice(), dequant, bit_depth)
}

} // verus!

verus! {

/// A coefficient outside the coded top-left 32x32 area of a 64-wide block is non-zero.
pub open spec fn nonzero_outside_tx64_coded_area(coefficients: Seq<i32>) -> bool {
    exists|index: int|
        0 <= index < coefficients.len() && coefficients[index] != 0 && (index / 64 >= 32 || index % 64 >= 32)
}

/// Whether a coefficient outside the coded top-left 32x32 area is non-zero.
pub fn has_non_zero_outside_tx64_coded_top_left(coefficients: &[i32]) -> (found: bool)
    ensures
        found == nonzero_outside_tx64_coded_area(coefficients@),
{
    let mut index: usize = 0;
    while index < coefficients.len()
        invariant
            index <= coefficients@.len(),
            forall|k: int|
                0 <= k < index ==> !(coefficients@[k] != 0 && (k / 64 >= 32 || k % 64 >= 32)),
        decreases coefficients@.len() - index,
    {
        if coefficients[index] != 0 && (index / 64 >= 32 || index % 64 >= 32) {
            return true;
        }
        index = index + 1;
    }
    false
}

/// Accepts the bit depths of the inverse transforms (8, 10 and 12).
pub fn validate_transform_bit_depth(bit_depth: u8) -> (result: Result<(), DecoderError>)
    ensures
        result is Ok <==> transform_bit_depth_ok(bit_depth),
        result is Err ==> result->Err_0 is InvalidParam,
{
    if bit_depth == 8 || bit_depth == 10 || bit_depth == 12 {
        Ok(())
    } else {
        let head = crate::text::concat("AV1 ", crate::text::decimal(bit_depth as u64).as_str());
        Err(DecoderError::InvalidParam(crate::text::concat(head.as_str(), "-bit transform is not supported")))
    }
}

/// The 32x32 inverse DCT (rows at `bit_depth + 8` bits, intermediate shift 2); the
/// coefficient count must be 1024.
pub fn inverse_transform_32x32_dct(dequant: &[i32], bit_depth: u8) -> (result: Result<Vec<i32>, DecoderError>)
    requires
        transform_bit_depth_ok(bit_depth),
    ensures
        match result {
            Ok(output) => dequant@.len() == 1024 && residual_block(
                square_plan(TxType::DctDct, 32, (bit_depth + 8) as u8, 2),
                ints(dequant@),
                bit_depth as nat,
                output@,
            ),
            Err(error) => dequant@.len() != 1024 && error is InvalidParam,
        },
{
    if dequant.len() != 1024 {
        return Err(DecoderError::InvalidParam(
            "AV1 32x32 DCT coefficient count does not match transform size".to_string(),
        ));
    }
    let plan = square_plan_for(TxType::DctDct, 32, bit_depth + 8, 2);
    Ok(inverse_transform_2d(plan, dequant, bit_depth))
}

/// The 64x64 inverse DCT; coefficients outside the coded top-left 32x32 area must be
/// zero and the coefficient count must be 4096.
pub fn inverse_transform_64x64_dct(dequant: &[i32], bit_depth: u8) -> (result: Result<Vec<i32>, DecoderError>)
    requires
        transform_bit_depth_ok(bit_depth),
    ensures
        match result {
            Ok(output) => {
                &&& !nonzero_outside_tx64_coded_area(dequant@)
                &&& dequant@.len() == 4096
                &&& output@.len() == 4096
                &&& forall|y: int, x: int|
                    0 <= y < 64 && 0 <= x < 64 ==> #[trigger] output@[y * 64 + x] as int
                        == dct64_fixed_basis_residual(dequant@, bit_depth as nat, y, x)
            },
            Err(error) => (nonzero_outside_tx64_coded_area(dequant@) || dequant@.len() != 4096) && error is InvalidParam,
        },
{
    if has_non_zero_outside_tx64_coded_top_left(dequant) {
        return Err(DecoderError::InvalidParam(
            "AV1 64x64 DCT coefficients outside the coded top-left 32x32 area must be zero".to_string(),
        ));
    }
    if dequant.len() != 4096 {
        return Err(DecoderError::InvalidParam(
            "AV1 64x64 DCT coefficient count does not match transform size".to_string(),
        ));
    }
    Ok(inverse_dct64_fixed_basis(dequant, bit_depth))
}

} // verus!

verus! {

/// Every value is zero.
pub open spec fn all_zero(values: Seq<i32>) -> bool {
    forall|index: int| 0 <= index < values.len() ==> values[index] == 0
}

/// The bit depth or the coefficient count is not one the transforms accept.
pub open spec fn transform_input_invalid(tx_size: TxSize, dequant: Seq<i32>, bit_depth: u8) -> bool {
    !transform_bit_depth_ok(bit_depth) || dequant.len() != tx_size.spec_sample_count()
}

/// Non-DCT transforms with a side above 16 are not signalled for intra blocks.
pub open spec fn transform_unsupported(tx_type: TxType, tx_size: TxSize) -> bool {
    tx_type != TxType::DctDct && (tx_size.spec_width() > 16 || tx_size.spec_height() > 16)
}

/// The residual block that the inverse transform of a non-zero block computes.
pub open spec fn transform_residual(tx_type: TxType, tx_size: TxSize, dequant: Seq<i32>, bit_depth: u8, output: Seq<i32>) -> bool {
    match tx_size {
        TxSize::Tx4x4 => residual_block(square_plan(tx_type, 4, (bit_depth + 8) as u8, 0), ints(dequant), bit_depth as nat, output),
        TxSize::Tx8x8 => residual_block(square_plan(tx_type, 8, (bit_depth + 8) as u8, 1), ints(dequant), bit_depth as nat, output),
        TxSize::Tx16x16 => residual_block(square_plan(tx_type, 16, 16, 2), ints(dequant), bit_depth as nat, output),
        TxSize::Tx32x32 => residual_block(
            square_plan(TxType::DctDct, 32, (bit_depth + 8) as u8, 2),
            ints(dequant),
            bit_depth as nat,
            output,
        ),
        TxSize::Tx64x64 => {
            &&& output.len() == 4096
            &&& forall|y: int, x: int|
                0 <= y < 64 && 0 <= x < 64 ==> #[trigger] output[y * 64 + x] as int
                    == dct64_fixed_basis_residual(dequant, bit_depth as nat, y, x)
        },
        _ => residual_block(rect_plan(tx_type, tx_size, bit_depth), ints(dequant), bit_depth as nat, output),
    }
}

/// Reconstructs the residual block of one transform from its dequantized coefficients.
///
/// An all-zero block gives an all-zero residual whatever the transform type.
#[verifier::spinoff_prover]
pub fn inverse_transform(tx_type: TxType, tx_size: TxSize, dequant: &[i32], bit_depth: u8) -> (result: Result<Vec<i32>, DecoderError>)
    ensures
        match result {
            Ok(output) => {
                &&& !transform_input_invalid(tx_size, dequant@, bit_depth)
                &&& all_zero(dequant@) ==> output@ == Seq::new(dequant@.len(), |index: int| 0i32)
                &&& !all_zero(dequant@) ==> {
                    &&& !transform_unsupported(tx_type, tx_size)
                    &&& !(tx_size == TxSize::Tx64x64 && nonzero_outside_tx64_coded_area(dequant@))
                    &&& transform_residual(tx_type, tx_size, dequant@, bit_depth, output@)
                }
            },
            Err(DecoderError::InvalidParam(_)) => transform_input_invalid(tx_size, dequant@, bit_depth) || (
                !all_zero(dequant@) && !transform_unsupported(tx_type, tx_size) && tx_size == TxSize::Tx64x64
                    && nonzero_outside_tx64_coded_area(dequant@)),
            Err(DecoderError::Unsupported(_)) => !transform_input_invalid(tx_size, dequant@, bit_depth) && !all_zero(dequant@)
                && transform_unsupported(tx_type, tx_size),
            Err(_) => false,
        },
{
    match validate_transform_bit_depth(bit_depth) {
        Ok(()) => {},
        Err(error) => return Err(error),
    }
    let count = tx_size.sample_count();
    if dequant.len() != count {
        return Err(DecoderError::InvalidParam(
            "AV1 dequant coefficient count does not match transform size".to_string(),
        ));
    }
    let mut index: usize = 0;
    let mut zero = true;
    while index < dequant.len()
        invariant
            index <= dequant@.len(),
            zero == (forall|k: int| 0 <= k < index ==> dequant@[k] == 0),
        decreases dequant@.len() - index,
    {
        if dequant[index] != 0 {
            zero = false;
        }
        index = index + 1;
    }
    if zero {
        let output = vec![0i32; count];
        proof {
            assert forall|k: int| 0 <= k < count implies output@[k] == 0i32 by {
                assert(cloned(0i32, output@[k]));
            }
            assert(output@ =~= Seq::new(dequant@.len(), |index: int| 0i32));
        }
        return Ok(output);
    }
    if tx_size == TxSize::Tx4x4 {
        return Ok(inverse_transform_4x4(tx_type, dequant, bit_depth));
    }
    if tx_size == TxSize::Tx8x8 {
        return Ok(inverse_transform_8x8(tx_type, dequant, bit_depth));
    }
    let width = tx_size.width();
    let height = tx_size.height();
    if tx_size.is_rectangular() {
        if (width > 16 || height > 16) && tx_type != TxType::DctDct {
            let head = crate::text::concat("AV1 ", tx_size.debug_name());
            return Err(DecoderError::Unsupported(crate::text::concat(
                head.as_str(),
                " non-DCT transform is not signaled for intra blocks",
            )));
        }
        return Ok(inverse_transform_rect(tx_type, tx_size, dequant, bit_depth));
    }
    if tx_size == TxSize::Tx16x16 {
        assert(tx_size.spec_width() == 16 && tx_size.spec_height() == 16);
        assert(tx_size.spec_sample_count() == 16 * 16);
        assert(dequant@.len() == 256);
        return Ok(inverse_transform_16x16(tx_type, dequant, bit_depth));
    }
    assert(tx_size == TxSize::Tx32x32 || tx_size == TxSize::Tx64x64);
    if tx_type != TxType::DctDct {
        let head = crate::text::concat("AV1 ", tx_size.debug_name());
        return Err(DecoderError::Unsupported(crate::text::concat(
            head.as_str(),
            " non-DCT transform is not signaled for intra blocks",
        )));
    }
    assert(!transform_unsupported(tx_type, tx_size));
    if tx_size == TxSize::Tx32x32 {
        assert(tx_size.spec_width() == 32 && tx_size.spec_height() == 32);
        assert(tx_size.spec_sample_count() == 32 * 32);
        assert(dequant@.len() == 1024);
        inverse_transform_32x32_dct(dequant, bit_depth)
    } else {
        assert(tx_size.spec_width() == 64 && tx_size.spec_height() == 64);
        assert(tx_size.spec_sample_count() == 64 * 64);
        assert(dequant@.len() == 4096);
        let result = inverse_transform_64x64_dct(dequant, bit_depth);
        assert(result is Err ==> nonzero_outside_tx64_coded_area(dequant@));
        result
    }
}

} // verus!

verus! {

/// The inverse Walsh-Hadamard butterfly on (`a`, `c`, `d`, `b`), giving `[a, b, c, d]`.
pub open spec fn wht4_spec(a: int, c: int, d: int, b: int) -> Seq<int> {
    let a1 = a + c;
    let d1 = d - b;
    let e = (a1 - d1) / 2;
    let b1 = e - b;
    let c1 = e - c;
    seq![a1 - b1, b1, c1, d1 + c1]
}

/// Halves a value, rounding towards negative infinity (`>> 1`).
fn floor_half(value: i64) -> (result: i64)
    ensures
        result == value as int / 2,
{
    proof {
        lemma_i64_shr_is_floor_div(value, 1);
        lemma_small_pow2();
    }
    value >> 1
}

/// Whether `x` is a value of `i32`.
pub open spec fn fits_i32(x: int) -> bool {
    i32::MIN <= x <= i32::MAX
}

/// Whether every step of the Walsh-Hadamard butterfly on (`a`, `c`, `d`, `b`),
/// done in 32-bit arithmetic, stays within `i32`.
pub open spec fn wht4_fits(a: int, c: int, d: int, b: int) -> bool {
    let a1 = a + c;
    let d1 = d - b;
    let e = (a1 - d1) / 2;
    let b1 = e - b;
    let c1 = e - c;
    &&& fits_i32(a1)
    &&& fits_i32(d1)
    &&& fits_i32(a1 - d1)
    &&& fits_i32(b1)
    &&& fits_i32(c1)
    &&& fits_i32(a1 - b1)
    &&& fits_i32(d1 + c1)
}

/// The inverse Walsh-Hadamard butterfly of the lossless transform.
pub fn inverse_wht4(a: i32, c: i32, d: i32, b: i32) -> (output: [i32; 4])
    requires
        wht4_fits(a as int, c as int, d as int, b as int),
    ensures
        ints(output@) == wht4_spec(a as int, c as int, d as int, b as int),
{
    let a1 = a + c;
    let d1 = d - b;
    let e = floor_half((a1 - d1) as i64) as i32;
    let b1 = e - b;
    let c1 = e - c;
    let output = [a1 - b1, b1, c1, d1 + c1];
    assert(ints(output@) =~= wht4_spec(a as int, c as int, d as int, b as int));
    output
}

/// The first (column) pass of the lossless transform at (`row`, `column`).
pub open spec fn lossless_intermediate(dequant: Seq<int>, row: int, column: int) -> int {
    wht4_spec(dequant[column] / 4, dequant[4 + column] / 4, dequant[8 + column] / 4, dequant[12 + column] / 4)[row]
}

/// The lossless 4x4 residual at index `column * 4 + row`: the row pass over the
/// intermediate values of `row`.
pub open spec fn lossless_residual(dequant: Seq<int>, row: int, column: int) -> int {
    wht4_spec(
        lossless_intermediate(dequant, row, 0),
        lossless_intermediate(dequant, row, 1),
        lossless_intermediate(dequant, row, 2),
        lossless_intermediate(dequant, row, 3),
    )[column]
}

/// Whether both passes of the lossless transform on `dequant` stay within
/// `i32` at every step.
pub open spec fn lossless_fits(dequant: Seq<int>) -> bool {
    &&& forall|column: int|
        0 <= column < 4 ==> #[trigger] wht4_fits(
            dequant[column] / 4,
            dequant[4 + column] / 4,
            dequant[8 + column] / 4,
            dequant[12 + column] / 4,
        )
    &&& forall|row: int|
        0 <= row < 4 ==> #[trigger] wht4_fits(
            lossless_intermediate(dequant, row, 0),
            lossless_intermediate(dequant, row, 1),
            lossless_intermediate(dequant, row, 2),
            lossless_intermediate(dequant, row, 3),
        )
}

/// Quarters a value, rounding towards negative infinity (`>> 2`).
fn floor_quarter(value: i32) -> (result: i32)
    ensures
        result == value as int / 4,
{
    proof {
        lemma_i64_shr_is_floor_div(value as i64, 2);
        lemma_small_pow2();
    }
    ((value as i64) >> 2) as i32
}

/// The lossless (Walsh-Hadamard) 4x4 inverse transform.
pub fn inverse_lossless_transform_4x4(dequant: &[i32]) -> (output: Vec<i32>)
    requires
        dequant@.len() >= 16,
        lossless_fits(ints(dequant@)),
    ensures
        output@.len() == 16,
        forall|row: int, column: int|
            0 <= row < 4 && 0 <= column < 4 ==> #[trigger] output@[column * 4 + row] as int
                == lossless_residual(ints(dequant@), row, column),
{
    let ghost dq = ints(dequant@);
    let mut intermediate = [0i32; 16];
    let mut column: usize = 0;
    while column < 4
        invariant
            column <= 4,
            dequant@.len() >= 16,
            dq == ints(dequant@),
            lossless_fits(dq),
            forall|r: int, c: int|
                0 <= r < 4 && 0 <= c < column ==> #[trigger] intermediate[r * 4 + c] as int == lossless_intermediate(dq, r, c),
        decreases 4 - column,
    {
        proof {
            assert(wht4_fits(dq[column as int] / 4, dq[4 + column] / 4, dq[8 + column] / 4, dq[12 + column] / 4));
        }
        let transformed = inverse_wht4(
            floor_quarter(dequant[column]),
            floor_quarter(dequant[4 + column]),
            floor_quarter(dequant[8 + column]),
            floor_quarter(dequant[12 + column]),
        );
        let mut row: usize = 0;
        while row < 4
            invariant
                row <= 4,
                column < 4,
                dequant@.len() >= 16,
                dq == ints(dequant@),
                ints(transformed@) == wht4_spec(dq[column as int] / 4, dq[4 + column] / 4, dq[8 + column] / 4, dq[12 + column] / 4),
                forall|r: int, c: int|
                    0 <= r < 4 && 0 <= c < column ==> #[trigger] intermediate[r * 4 + c] as int == lossless_intermediate(dq, r, c),
                forall|r: int| 0 <= r < row ==> #[trigger] intermediate[r * 4 + column] as int == lossless_intermediate(dq, r, column as int),
            decreases 4 - row,
        {
            assert(transformed@[row as int] as int == ints(transformed@)[row as int]);
            intermediate[row * 4 + column] = transformed[row];
            row = row + 1;
        }
        column = column + 1;
    }
    let mut block = [0i32; 16];
    let mut row: usize = 0;
    while row < 4
        invariant
            row <= 4,
            forall|r: int, c: int|
                0 <= r < 4 && 0 <= c < 4 ==> #[trigger] intermediate[r * 4 + c] as int == lossless_intermediate(dq, r, c),
            lossless_fits(dq),
            forall|r: int, c: int|
                0 <= r < row && 0 <= c < 4 ==> #[trigger] block[c * 4 + r] as int == lossless_residual(dq, r, c),
        decreases 4 - row,
    {
        let offset = row * 4;
        proof {
            assert(intermediate[row * 4 + 0] as int == lossless_intermediate(dq, row as int, 0));
            assert(intermediate[row * 4 + 1] as int == lossless_intermediate(dq, row as int, 1));
            assert(intermediate[row * 4 + 2] as int == lossless_intermediate(dq, row as int, 2));
            assert(intermediate[row * 4 + 3] as int == lossless_intermediate(dq, row as int, 3));
            assert(wht4_fits(
                lossless_intermediate(dq, row as int, 0),
                lossless_intermediate(dq, row as int, 1),
                lossless_intermediate(dq, row as int, 2),
                lossless_intermediate(dq, row as int, 3),
            ));
        }
        let transformed = inverse_wht4(
            intermediate[offset],
            intermediate[offset + 1],
            intermediate[offset + 2],
            intermediate[offset + 3],
        );
        let mut column: usize = 0;
        while column < 4
            invariant
                column <= 4,
                row < 4,
                offset == row * 4,
                ints(transformed@) == wht4_spec(
                    lossless_intermediate(dq, row as int, 0),
                    lossless_intermediate(dq, row as int, 1),
                    lossless_intermediate(dq, row as int, 2),
                    lossless_intermediate(dq, row as int, 3),
                ),
                forall|r: int, c: int|
                    0 <= r < row && 0 <= c < 4 ==> #[trigger] block[c * 4 + r] as int == lossless_residual(dq, r, c),
                forall|c: int| 0 <= c < column ==> #[trigger] block[c * 4 + row] as int == lossless_residual(dq, row as int, c),
            decreases 4 - column,
        {
            assert(transformed@[column as int] as int == ints(transformed@)[column as int]);
            block[column * 4 + row] = transformed[column];
            column = column + 1;
        }
        row = row + 1;
    }
    vstd::slice::slice_to_vec(&block)
}

} // verus!

verus! {

/// One transform block of a plane: its top-left sample and its size.
#[derive(Debug, Clone, Copy, PartialEq, Eq, Structural)]
pub struct TransformBlock {
    pub plane: usize,
    pub x: usize,
    pub y: usize,
    pub tx_size: TxSize,
}

/// A transform block with its type and quantized coefficients.
#[derive(Debug, Clone, PartialEq, Eq)]
pub struct QuantizedTransform {
    pub block: TransformBlock,
    pub tx_type: TxType,
    pub coefficients: Vec<i32>,
}

/// What reconstructing one transform block did.
#[derive(Debug, Clone, PartialEq, Eq)]
pub struct ReconstructedTransform {
    pub block: TransformBlock,
    pub tx_type: TxType,
    pub non_zero_coefficients: usize,
}

/// `ceil(length / step)`: how many steps of `step` start inside `length`.
pub open spec fn tile_count(length: nat, step: nat) -> nat {
    ((length + step - 1) / (step as int)) as nat
}

/// The extent of a block along one axis, clipped at the frame edge.
pub open spec fn clipped_extent(block_side: nat, frame_side: nat, origin: nat) -> nat {
    let available = if frame_side > origin { (frame_side - origin) as nat } else { 0nat };
    if block_side < available { block_side } else { available }
}

/// The transform blocks covering a block, row by row: block (`i`, `j`) starts at
/// (`x + j * width`, `y + i * height`) for every start inside the clipped block.
pub open spec fn transform_tiling(
    plane: usize,
    x: usize,
    y: usize,
    block_size: BlockSize,
    tx_size: TxSize,
    frame_width: usize,
    frame_height: usize,
    blocks: Seq<TransformBlock>,
) -> bool {
    let columns = tile_count(clipped_extent(block_size.spec_width(), frame_width as nat, x as nat), tx_size.spec_width());
    let rows = tile_count(clipped_extent(block_size.spec_height(), frame_height as nat, y as nat), tx_size.spec_height());
    &&& blocks.len() == rows * columns
    &&& forall|i: int, j: int|
        0 <= i < rows && 0 <= j < columns ==> #[trigger] blocks[i * columns + j] == (TransformBlock {
            plane,
            x: (x + j * tx_size.spec_width()) as usize,
            y: (y + i * tx_size.spec_height()) as usize,
            tx_size,
        })
}

/// `q = ceil(length / step)` is the first multiple of `step` reaching `length`.
proof fn lemma_tile_count(length: nat, step: nat, k: nat)
    requires
        step > 0,
    ensures
        k * step < length <==> k < tile_count(length, step),
{
    let q = tile_count(length, step);
    assert(q * step >= length && (q == 0 || (q - 1) * step < length)) by (nonlinear_arith)
        requires
            step > 0,
            q == (length + step - 1) / (step as int),
    ;
    if k < q {
        assert(k * step <= (q - 1) * step) by (nonlinear_arith)
            requires
                k <= q - 1,
        ;
    } else {
        assert(k * step >= q * step) by (nonlinear_arith)
            requires
                k >= q,
        ;
    }
}

/// Tiles a block with transforms of `tx_size`, clipping the block at the frame edge.
pub fn plan_transform_blocks_with_tx_size(
    plane: usize,
    x: usize,
    y: usize,
    block_size: BlockSize,
    tx_size: TxSize,
    frame_width: usize,
    frame_height: usize,
) -> (blocks: Vec<TransformBlock>)
    ensures
        transform_tiling(plane, x, y, block_size, tx_size, frame_width, frame_height, blocks@),
{
    let tx_width = tx_size.width();
    let tx_height = tx_size.height();
    let block_width = if block_size.width() < frame_width.saturating_sub(x) {
        block_size.width()
    } else {
        frame_width.saturating_sub(x)
    };
    let block_height = if block_size.height() < frame_height.saturating_sub(y) {
        block_size.height()
    } else {
        frame_height.saturating_sub(y)
    };
    let ghost columns = tile_count(block_width as nat, tx_width as nat);
    let ghost rows = tile_count(block_height as nat, tx_height as nat);
    let mut blocks: Vec<TransformBlock> = Vec::new();
    let mut offset_y: usize = 0;
    let ghost mut i: nat = 0;
    while offset_y < block_height
        invariant
            tx_width == tx_size.spec_width(),
            tx_height == tx_size.spec_height(),
            tx_width >= 4,
            tx_height >= 4,
            block_width == clipped_extent(block_size.spec_width(), frame_width as nat, x as nat),
            block_height == clipped_extent(block_size.spec_height(), frame_height as nat, y as nat),
            block_width <= 128,
            block_height <= 128,
            x + block_width <= usize::MAX,
            y + block_height <= usize::MAX,
            columns == tile_count(block_width as nat, tx_width as nat),
            rows == tile_count(block_height as nat, tx_height as nat),
            offset_y == i * tx_height,
            offset_y <= block_height + 64,
            i <= rows,
            blocks@.len() == i * columns,
            forall|r: int, j: int|
                0 <= r < i && 0 <= j < columns ==> #[trigger] blocks@[r * columns + j] == (TransformBlock {
                    plane,
                    x: (x + j * tx_width) as usize,
                    y: (y + r * tx_height) as usize,
                    tx_size,
                }),
        decreases rows - i,
    {
        proof {
            lemma_tile_count(block_height as nat, tx_height as nat, i);
        }
        let mut offset_x: usize = 0;
        let ghost mut j: nat = 0;
        while offset_x < block_width
            invariant
                tx_width == tx_size.spec_width(),
                tx_width >= 4,
                block_width <= 128,
                x + block_width <= usize::MAX,
                offset_y < block_height,
                y + block_height <= usize::MAX,
                offset_y == i * tx_height,
                i < rows,
                columns == tile_count(block_width as nat, tx_width as nat),
                offset_x == j * tx_width,
                offset_x <= block_width + 64,
                j <= columns,
                blocks@.len() == i * columns + j,
                forall|r: int, c: int|
                    0 <= r < i && 0 <= c < columns ==> #[trigger] blocks@[r * columns + c] == (TransformBlock {
                        plane,
                        x: (x + c * tx_width) as usize,
                        y: (y + r * tx_height) as usize,
                        tx_size,
                    }),
                forall|c: int|
                    0 <= c < j ==> #[trigger] blocks@[i * columns + c] == (TransformBlock {
                        plane,
                        x: (x + c * tx_width) as usize,
                        y: (y + i * tx_height) as usize,
                        tx_size,
                    }),
            decreases columns - j,
        {
            proof {
                lemma_tile_count(block_width as nat, tx_width as nat, j);
            }
            let ghost before = blocks@;
            blocks.push(TransformBlock { plane, x: x + offset_x, y: y + offset_y, tx_size });
            proof {
                assert forall|r: int, c: int|
                    0 <= r < i && 0 <= c < columns implies #[trigger] blocks@[r * columns + c] == (TransformBlock {
                        plane,
                        x: (x + c * tx_width) as usize,
                        y: (y + r * tx_height) as usize,
                        tx_size,
                    }) by {
                    lemma_grid_row_before(r, c, i as int, columns as int);
                    assert(blocks@[r * columns + c] == before[r * columns + c]);
                }
                assert forall|c: int| 0 <= c < j + 1 implies #[trigger] blocks@[i * columns + c] == (TransformBlock {
                    plane,
                    x: (x + c * tx_width) as usize,
                    y: (y + i * tx_height) as usize,
                    tx_size,
                }) by {
                    if c < j {
                        assert(blocks@[i * columns + c] == before[i * columns + c]);
                    }
                }
            }
            offset_x = offset_x + tx_width;
            proof {
                j = j + 1;
                assert(offset_x == j * tx_width) by (nonlinear_arith)
                    requires
                        offset_x == (j - 1) * tx_width + tx_width,
                ;
            }
        }
        proof {
            lemma_tile_count(block_width as nat, tx_width as nat, j);
            assert(j == columns);
            assert(i * columns + columns == (i + 1) * columns) by (nonlinear_arith);
        }
        offset_y = offset_y + tx_height;
        proof {
            i = i + 1;
            assert(offset_y == i * tx_height) by (nonlinear_arith)
                requires
                    offset_y == (i - 1) * tx_height + tx_height,
            ;
        }
    }
    proof {
        lemma_tile_count(block_height as nat, tx_height as nat, i);
    }
    blocks
}

/// Tiles a block with the largest transform that fits it.
pub fn plan_transform_blocks(
    plane: usize,
    x: usize,
    y: usize,
    block_size: BlockSize,
    frame_width: usize,
    frame_height: usize,
) -> (blocks: Vec<TransformBlock>)
    ensures
        exists|tx_size: TxSize|
            #![trigger transform_tiling(plane, x, y, block_size, tx_size, frame_width, frame_height, blocks@)]
            tx_size.spec_width() == (if block_size.spec_width() < 64 { block_size.spec_width() } else { 64 })
                && tx_size.spec_height() == (if block_size.spec_height() < 64 { block_size.spec_height() } else { 64 })
                && transform_tiling(plane, x, y, block_size, tx_size, frame_width, frame_height, blocks@),
{
    let tx_size = block_size.largest_supported_tx_size();
    plan_transform_blocks_with_tx_size(plane, x, y, block_size, tx_size, frame_width, frame_height)
}

/// A quantized transform with every coefficient zero.
pub fn zero_quantized_transform(block: TransformBlock, tx_type: TxType) -> (quantized: QuantizedTransform)
    ensures
        quantized.block == block,
        quantized.tx_type == tx_type,
        quantized.coefficients@ == Seq::new(block.tx_size.spec_sample_count(), |index: int| 0i32),
{
    let count = block.tx_size.sample_count();
    let coefficients = vec![0i32; count];
    proof {
        assert forall|k: int| 0 <= k < count implies coefficients@[k] == 0i32 by {
            assert(cloned(0i32, coefficients@[k]));
        }
        assert(coefficients@ =~= Seq::new(block.tx_size.spec_sample_count(), |index: int| 0i32));
    }
    QuantizedTransform { block, tx_type, coefficients }
}

} // verus!

verus! {

/// Whether coefficients of this transform are stored transposed before the inverse
/// transform reads them.
pub open spec fn needs_coefficient_remap(tx_size: TxSize, tx_type: TxType, coded_lossless: bool) -> bool {
    (tx_type == TxType::DctDct && !coded_lossless && (tx_size == TxSize::Tx4x4 || tx_size == TxSize::Tx8x8))
        || tx_type == TxType::AdstDct || tx_type == TxType::DctAdst || tx_type == TxType::AdstAdst
        || tx_type == TxType::Identity || tx_type == TxType::VerticalDct || tx_type == TxType::HorizontalDct
}

/// The coefficients as the inverse transform reads them: transposed for a square
/// transform that needs it, as they are otherwise.
pub open spec fn stored_for_inverse(tx_size: TxSize, tx_type: TxType, coded_lossless: bool, coefficients: Seq<i32>) -> Seq<i32> {
    let side = tx_size.spec_width() as int;
    if coefficients.len() == tx_size.spec_sample_count() && !tx_size.spec_is_rectangular() && needs_coefficient_remap(
        tx_size,
        tx_type,
        coded_lossless,
    ) {
        Seq::new(coefficients.len(), |i: int| coefficients[(i % side) * side + i / side])
    } else {
        coefficients
    }
}

/// Storing coefficients for the inverse transform twice gives them back: the
/// transposition undoes itself.
pub proof fn lemma_stored_for_inverse_twice(tx_size: TxSize, tx_type: TxType, coded_lossless: bool, coefficients: Seq<i32>)
    ensures
        stored_for_inverse(tx_size, tx_type, coded_lossless, stored_for_inverse(tx_size, tx_type, coded_lossless, coefficients))
            == coefficients,
{
    let side = tx_size.spec_width() as int;
    let once = stored_for_inverse(tx_size, tx_type, coded_lossless, coefficients);
    let twice = stored_for_inverse(tx_size, tx_type, coded_lossless, once);
    if coefficients.len() == tx_size.spec_sample_count() && !tx_size.spec_is_rectangular() && needs_coefficient_remap(
        tx_size,
        tx_type,
        coded_lossless,
    ) {
        assert(tx_size.spec_sample_count() == side * side && side > 0);
        assert forall|i: int| 0 <= i < coefficients.len() implies twice[i] == coefficients[i] by {
            let r = i / side;
            let c = i % side;
            vstd::arithmetic::div_mod::lemma_fundamental_div_mod(i, side);
            vstd::arithmetic::div_mod::lemma_mod_bound(i, side);
            vstd::arithmetic::div_mod::lemma_div_pos_is_pos(i, side);
            assert(r < side) by {
                vstd::arithmetic::div_mod::lemma_div_is_ordered(i, side * side - 1, side);
                assert(side * side - 1 == (side - 1) * side + (side - 1)) by (nonlinear_arith);
                vstd::arithmetic::div_mod::lemma_fundamental_div_mod_converse(side * side - 1, side, side - 1, side - 1);
            }
            let j = c * side + r;
            lemma_grid_index(c, r, side, side);
            vstd::arithmetic::div_mod::lemma_fundamental_div_mod_converse(j, side, c, r);
            assert(i == r * side + c) by (nonlinear_arith)
                requires
                    i == side * (i / side) + i % side,
                    r == i / side,
                    c == i % side,
            ;
        }
        assert(twice =~= coefficients);
    }
}

/// Transposes the coefficients of a square transform that needs it; any other block
/// is left unchanged.
pub fn remap_coefficients_for_inverse_storage(
    tx_size: TxSize,
    tx_type: TxType,
    coded_lossless: bool,
    coefficients: &mut [i32],
)
    ensures
        final(coefficients)@.len() == old(coefficients)@.len(),
        old(coefficients)@.len() == tx_size.spec_sample_count() && !tx_size.spec_is_rectangular()
            && needs_coefficient_remap(tx_size, tx_type, coded_lossless) ==> forall|row: int, column: int|
            0 <= row < tx_size.spec_width() && 0 <= column < tx_size.spec_width() ==> #[trigger] final(coefficients)@[row
                * tx_size.spec_width() + column] == old(coefficients)@[column * tx_size.spec_width() + row],
        !(old(coefficients)@.len() == tx_size.spec_sample_count() && !tx_size.spec_is_rectangular()
            && needs_coefficient_remap(tx_size, tx_type, coded_lossless)) ==> final(coefficients)@ == old(coefficients)@,
        final(coefficients)@ == stored_for_inverse(tx_size, tx_type, coded_lossless, old(coefficients)@),
{
    let needs_remap = (tx_type == TxType::DctDct && !coded_lossless && (tx_size == TxSize::Tx4x4
        || tx_size == TxSize::Tx8x8)) || tx_type == TxType::AdstDct || tx_type == TxType::DctAdst
        || tx_type == TxType::AdstAdst || tx_type == TxType::Identity || tx_type == TxType::VerticalDct
        || tx_type == TxType::HorizontalDct;
    if coefficients.len() != tx_size.sample_count() || tx_size.is_rectangular() || !needs_remap {
        return;
    }
    let side = tx_size.width();
    let column_major = vstd::slice::slice_to_vec(coefficients);
    proof {
        assert(side * side <= 4096) by (nonlinear_arith)
            requires
                side <= 64,
        ;
    }
    assert(column_major@ == old(coefficients)@);
    let mut row: usize = 0;
    while row < side
        invariant
            row <= side,
            side == tx_size.spec_width(),
            side == tx_size.spec_height(),
            side <= 64,
            side * side <= 4096,
            column_major@ == old(coefficients)@,
            coefficients@.len() == side * side,
            column_major@.len() == side * side,
            forall|r: int, c: int|
                0 <= r < row && 0 <= c < side ==> #[trigger] coefficients@[r * side + c] == column_major@[c * side + r],
        decreases side - row,
    {
        let mut column: usize = 0;
        while column < side
            invariant
                row < side,
                column <= side,
                side <= 64,
                side * side <= 4096,
                coefficients@.len() == side * side,
                column_major@.len() == side * side,
                forall|r: int, c: int|
                    0 <= r < row && 0 <= c < side ==> #[trigger] coefficients@[r * side + c] == column_major@[c * side + r],
                forall|c: int| 0 <= c < column ==> #[trigger] coefficients@[row * side + c] == column_major@[c * side + row],
            decreases side - column,
        {
            proof {
                lemma_grid_index(row as int, column as int, side as int, side as int);
                lemma_grid_index(column as int, row as int, side as int, side as int);
            }
            let ghost before = coefficients@;
            coefficients[row * side + column] = column_major[column * side + row];
            proof {
                assert forall|r: int, c: int| 0 <= r < row && 0 <= c < side implies #[trigger] coefficients@[r * side
                    + c] == column_major@[c * side + r] by {
                    lemma_grid_row_before(r, c, row as int, side as int);
                    lemma_grid_index(r, c, side as int, side as int);
                }
                assert forall|c: int| 0 <= c < column + 1 implies #[trigger] coefficients@[row * side + c]
                    == column_major@[c * side + row] by {
                    if c < column {
                        assert(row * side + c < row * side + column);
                    }
                }
            }
            column = column + 1;
        }
        row = row + 1;
    }
    proof {
        let target = stored_for_inverse(tx_size, tx_type, coded_lossless, column_major@);
        assert forall|i: int| 0 <= i < coefficients@.len() implies coefficients@[i] == target[i] by {
            let r = i / side as int;
            let c = i % side as int;
            vstd::arithmetic::div_mod::lemma_fundamental_div_mod(i, side as int);
            vstd::arithmetic::div_mod::lemma_mod_bound(i, side as int);
            vstd::arithmetic::div_mod::lemma_div_pos_is_pos(i, side as int);
            assert(r < side) by {
                vstd::arithmetic::div_mod::lemma_div_is_ordered(i, side * side - 1, side as int);
                assert(side * side - 1 == (side - 1) * side + (side - 1)) by (nonlinear_arith);
                vstd::arithmetic::div_mod::lemma_fundamental_div_mod_converse(side * side - 1, side as int, side - 1, side - 1);
            }
            assert(i == r * side + c) by (nonlinear_arith)
                requires
                    i == side * (i / side as int) + i % side as int,
                    r == i / side as int,
                    c == i % side as int,
            ;
        }
        assert(coefficients@ =~= target);
    }
}

} // verus!

verus! {

/// The coded extent of a transform side: coefficients beyond 32 are never coded.
pub open spec fn scan_extent(side: nat) -> int {
    if side < 32 { side as int } else { 32 }
}

/// The first row index on diagonal `d` of a `scan_width`-wide coded area.
pub open spec fn diagonal_first(d: int, scan_width: int) -> int {
    if d + 1 > scan_width { d + 1 - scan_width } else { 0 }
}

/// The last row index on diagonal `d` of a `scan_height`-tall coded area.
pub open spec fn diagonal_last(d: int, scan_height: int) -> int {
    if d < scan_height - 1 { d } else { scan_height - 1 }
}

/// The number of coded cells on diagonal `d`.
pub open spec fn diagonal_length(tx_size: TxSize, d: int) -> int {
    diagonal_last(d, scan_extent(tx_size.spec_height())) - diagonal_first(d, scan_extent(tx_size.spec_width())) + 1
}

/// The (row, column) of the `k`-th cell visited on diagonal `d` (`row + column == d`).
///
/// Rectangular transforms walk each diagonal from its bottom row up when the coded
/// area is at least as wide as tall, and down otherwise; square transforms alternate,
/// walking up on odd diagonals and right-to-left in columns on even ones.
pub open spec fn diagonal_cell(tx_size: TxSize, d: int, k: int) -> (int, int) {
    let sw = scan_extent(tx_size.spec_width());
    let sh = scan_extent(tx_size.spec_height());
    let first = diagonal_first(d, sw);
    let last = diagonal_last(d, sh);
    if tx_size.spec_is_rectangular() {
        if sw >= sh {
            (last - k, d - (last - k))
        } else {
            (first + k, d - (first + k))
        }
    } else if d % 2 == 1 {
        (last - k, d - (last - k))
    } else {
        (d - (last - k), last - k)
    }
}

/// The coefficient index of cell (`row`, `column`): rectangular transforms store
/// coefficients column by column, square ones row by row.
pub open spec fn cell_position(tx_size: TxSize, row: int, column: int) -> int {
    if tx_size.spec_is_rectangular() {
        column * tx_size.spec_height() + row
    } else {
        row * tx_size.spec_width() + column
    }
}

/// The coefficient indices visited along diagonal `d`.
pub open spec fn zig_zag_diagonal(tx_size: TxSize, d: int) -> Seq<int> {
    Seq::new(
        diagonal_length(tx_size, d) as nat,
        |k: int| cell_position(tx_size, diagonal_cell(tx_size, d, k).0, diagonal_cell(tx_size, d, k).1),
    )
}

/// The coefficient indices visited along the first `n` diagonals.
pub open spec fn zig_zag_prefix(tx_size: TxSize, n: nat) -> Seq<int>
    decreases n,
{
    if n == 0 {
        Seq::empty()
    } else {
        zig_zag_prefix(tx_size, (n - 1) as nat) + zig_zag_diagonal(tx_size, n - 1)
    }
}

/// The default (zig-zag) scan order of a transform's coded area.
pub open spec fn zig_zag_spec(tx_size: TxSize) -> Seq<int> {
    zig_zag_prefix(
        tx_size,
        (scan_extent(tx_size.spec_width()) + scan_extent(tx_size.spec_height()) - 1) as nat,
    )
}

/// The values of a sequence of indices, as mathematical integers.
pub open spec fn indices(s: Seq<usize>) -> Seq<int> {
    Seq::new(s.len(), |i: int| s[i] as int)
}

/// The cells of a diagonal lie in the coded area and add up to the diagonal.
pub proof fn lemma_diagonal_cell(tx_size: TxSize, d: int, k: int)
    requires
        0 <= d < scan_extent(tx_size.spec_width()) + scan_extent(tx_size.spec_height()) - 1,
        0 <= k < diagonal_length(tx_size, d),
    ensures
        diagonal_cell(tx_size, d, k).0 + diagonal_cell(tx_size, d, k).1 == d,
        0 <= diagonal_cell(tx_size, d, k).0 < scan_extent(tx_size.spec_height()),
        0 <= diagonal_cell(tx_size, d, k).1 < scan_extent(tx_size.spec_width()),
{
}

} // verus!

verus! {

/// The default coefficient scan: the coded area (at most 32x32) walked diagonal by
/// diagonal.
pub fn zig_zag_scan(tx_size: TxSize) -> (scan: Vec<usize>)
    ensures
        indices(scan@) == zig_zag_spec(tx_size),
{
    let full_width = tx_size.width();
    let full_height = tx_size.height();
    let scan_width = if full_width < 32 { full_width } else { 32 };
    let scan_height = if full_height < 32 { full_height } else { 32 };
    let rectangular = tx_size.is_rectangular();
    let mut scan: Vec<usize> = Vec::new();
    let mut diagonal: usize = 0;
    while diagonal < scan_width + scan_height - 1
        invariant
            full_width == tx_size.spec_width(),
            full_height == tx_size.spec_height(),
            scan_width == scan_extent(tx_size.spec_width()),
            scan_height == scan_extent(tx_size.spec_height()),
            4 <= scan_width <= 32,
            4 <= scan_height <= 32,
            full_width <= 64,
            full_height <= 64,
            rectangular == tx_size.spec_is_rectangular(),
            diagonal <= scan_width + scan_height - 1,
            indices(scan@) == zig_zag_prefix(tx_size, diagonal as nat),
        decreases scan_width + scan_height - 1 - diagonal,
    {
        let first = (diagonal + 1).saturating_sub(scan_width);
        let last = if diagonal < scan_height - 1 {
            diagonal
        } else {
            scan_height - 1
        };
        let ghost diagonal_cells = zig_zag_diagonal(tx_size, diagonal as int);
        let mut k: usize = 0;
        while k < last - first + 1
            invariant
                full_width == tx_size.spec_width(),
                full_height == tx_size.spec_height(),
                scan_width == scan_extent(tx_size.spec_width()),
                scan_height == scan_extent(tx_size.spec_height()),
                4 <= scan_width <= 32,
                4 <= scan_height <= 32,
                full_width <= 64,
                full_height <= 64,
                rectangular == tx_size.spec_is_rectangular(),
                diagonal < scan_width + scan_height - 1,
                first == diagonal_first(diagonal as int, scan_width as int),
                last == diagonal_last(diagonal as int, scan_height as int),
                first <= last,
                k <= last - first + 1,
                diagonal_cells == zig_zag_diagonal(tx_size, diagonal as int),
                indices(scan@) == zig_zag_prefix(tx_size, diagonal as nat) + diagonal_cells.take(k as int),
            decreases last - first + 1 - k,
        {
            proof {
                lemma_diagonal_cell(tx_size, diagonal as int, k as int);
            }
            let (row, column) = if rectangular {
                if scan_width >= scan_height {
                    (last - k, diagonal - (last - k))
                } else {
                    (first + k, diagonal - (first + k))
                }
            } else if diagonal % 2 == 1 {
                (last - k, diagonal - (last - k))
            } else {
                (diagonal - (last - k), last - k)
            };
            proof {
                assert(column * full_height <= 32 * 64 && row * full_width <= 32 * 64) by (nonlinear_arith)
                    requires
                        column < 32,
                        row < 32,
                        full_width <= 64,
                        full_height <= 64,
                ;
            }
            let position = if rectangular {
                column * full_height + row
            } else {
                row * full_width + column
            };
            let ghost before = indices(scan@);
            scan.push(position);
            proof {
                assert(diagonal_cells.take(k + 1) =~= diagonal_cells.take(k as int).push(position as int));
                assert(indices(scan@) =~= before.push(position as int));
            }
            k = k + 1;
        }
        proof {
            assert(diagonal_cells.take(k as int) =~= diagonal_cells);
        }
        diagonal = diagonal + 1;
    }
    scan
}

} // verus!

verus! {

/// The scan order of a transform's coded area: row or column order for the
/// one-dimensional DCTs, the zig-zag scan otherwise.
pub open spec fn coefficient_scan_spec(tx_size: TxSize, tx_type: TxType) -> Seq<int> {
    let width = tx_size.spec_width() as int;
    let height = tx_size.spec_height() as int;
    let sw = scan_extent(tx_size.spec_width());
    let sh = scan_extent(tx_size.spec_height());
    let count = (sw * sh) as nat;
    match tx_type {
        TxType::VerticalDct => if tx_size.spec_is_rectangular() {
            Seq::new(count, |k: int| (k % sw) * height + k / sw)
        } else {
            Seq::new(count, |k: int| (k % sh) * width + k / sh)
        },
        TxType::HorizontalDct => if tx_size.spec_is_rectangular() {
            Seq::new(count, |k: int| k)
        } else {
            Seq::new(count, |k: int| (k / sw) * width + k % sw)
        },
        _ => zig_zag_spec(tx_size),
    }
}

/// Row `row`, column `column` of a `width`-wide grid in raster order.
pub proof fn lemma_raster_div_mod(row: int, column: int, width: int)
    requires
        0 <= column < width,
    ensures
        (row * width + column) / width == row,
        (row * width + column) % width == column,
{
    vstd::arithmetic::div_mod::lemma_fundamental_div_mod_converse(row * width + column, width, row, column);
}

/// Walks `outer_count` rows of `inner_count` cells, emitting
/// `outer * outer_stride + inner * inner_stride` for each.
fn raster_scan(outer_count: usize, inner_count: usize, outer_stride: usize, inner_stride: usize) -> (scan: Vec<usize>)
    requires
        0 < outer_count <= 32,
        0 < inner_count <= 32,
        outer_stride <= 64,
        inner_stride <= 64,
    ensures
        scan@.len() == outer_count * inner_count,
        forall|k: int| 0 <= k < scan@.len() ==> #[trigger] scan@[k] as int
            == (k / inner_count as int) * outer_stride + (k % inner_count as int) * inner_stride,
{
    let mut scan: Vec<usize> = Vec::new();
    let mut outer: usize = 0;
    while outer < outer_count
        invariant
            outer <= outer_count <= 32,
            0 < inner_count <= 32,
            outer_stride <= 64,
            inner_stride <= 64,
            scan@.len() == outer * inner_count,
            forall|k: int| 0 <= k < scan@.len() ==> #[trigger] scan@[k] as int
                == (k / inner_count as int) * outer_stride + (k % inner_count as int) * inner_stride,
        decreases outer_count - outer,
    {
        let mut inner: usize = 0;
        while inner < inner_count
            invariant
                outer < outer_count <= 32,
                inner <= inner_count <= 32,
                0 < inner_count,
                outer_stride <= 64,
                inner_stride <= 64,
                scan@.len() == outer * inner_count + inner,
                forall|k: int| 0 <= k < scan@.len() ==> #[trigger] scan@[k] as int
                    == (k / inner_count as int) * outer_stride + (k % inner_count as int) * inner_stride,
            decreases inner_count - inner,
        {
            proof {
                assert(outer * outer_stride <= 32 * 64 && inner * inner_stride <= 32 * 64) by (nonlinear_arith)
                    requires
                        outer < 32,
                        inner < 32,
                        outer_stride <= 64,
                        inner_stride <= 64,
                ;
                lemma_raster_div_mod(outer as int, inner as int, inner_count as int);
            }
            scan.push(outer * outer_stride + inner * inner_stride);
            inner = inner + 1;
        }
        proof {
            assert(outer * inner_count + inner_count == (outer + 1) * inner_count) by (nonlinear_arith);
        }
        outer = outer + 1;
    }
    scan
}

/// The scan order of a transform's coded area.
#[verifier::spinoff_prover]
#[verifier::rlimit(40)]
pub fn coefficient_scan(tx_size: TxSize, tx_type: TxType) -> (scan: Vec<usize>)
    ensures
        indices(scan@) == coefficient_scan_spec(tx_size, tx_type),
{
    let width = tx_size.width();
    let height = tx_size.height();
    let scan_width = if width < 32 { width } else { 32 };
    let scan_height = if height < 32 { height } else { 32 };
    let rectangular = tx_size.is_rectangular();
    let ghost expected = coefficient_scan_spec(tx_size, tx_type);
    match tx_type {
        TxType::VerticalDct => {
            let scan = if rectangular {
                raster_scan(scan_height, scan_width, 1, height)
            } else {
                raster_scan(scan_width, scan_height, 1, width)
            };
            proof {
                assert forall|k: int| 0 <= k < scan@.len() implies #[trigger] indices(scan@)[k] == expected[k] by {
                    if rectangular {
                        assert(scan@[k] as int == (k / scan_width as int) * 1 + (k % scan_width as int) * height);
                    } else {
                        assert(scan@[k] as int == (k / scan_height as int) * 1 + (k % scan_height as int) * width);
                    }
                }
                assert(indices(scan@) =~= expected);
            }
            scan
        },
        TxType::HorizontalDct => {
            let scan = if rectangular {
                raster_scan(scan_height, scan_width, scan_width, 1)
            } else {
                raster_scan(scan_height, scan_width, width, 1)
            };
            proof {
                assert forall|k: int| 0 <= k < scan@.len() implies #[trigger] indices(scan@)[k] == expected[k] by {
                    if rectangular {
                        assert(scan@[k] as int == (k / scan_width as int) * scan_width + (k % scan_width as int) * 1);
                        vstd::arithmetic::div_mod::lemma_fundamental_div_mod(k, scan_width as int);
                    }
                }
                assert(indices(scan@) =~= expected);
            }
            scan
        },
        _ => zig_zag_scan(tx_size),
    }
}

} // verus!

verus! {

/// `position` is the index of a coefficient inside the coded (at most 32x32) area.
pub open spec fn coded_position(tx_size: TxSize, position: int) -> bool {
    let width = tx_size.spec_width() as int;
    let height = tx_size.spec_height() as int;
    &&& 0 <= position < width * height
    &&& if tx_size.spec_is_rectangular() {
        position / height < scan_extent(tx_size.spec_width()) && position % height < scan_extent(tx_size.spec_height())
    } else {
        position / width < scan_extent(tx_size.spec_height()) && position % width < scan_extent(tx_size.spec_width())
    }
}

/// The diagonal (row + column) of the cell at coefficient index `position`.
pub open spec fn position_diagonal(tx_size: TxSize, position: int) -> int {
    if tx_size.spec_is_rectangular() {
        position / (tx_size.spec_height() as int) + position % (tx_size.spec_height() as int)
    } else {
        position / (tx_size.spec_width() as int) + position % (tx_size.spec_width() as int)
    }
}

/// No index occurs twice.
pub open spec fn distinct_indices(s: Seq<int>) -> bool {
    forall|i: int, j: int| 0 <= i < s.len() && 0 <= j < s.len() && i != j ==> s[i] != s[j]
}

/// A coded cell's index lies in the coded area and records the cell's diagonal.
proof fn lemma_cell_position(tx_size: TxSize, row: int, column: int)
    requires
        0 <= row < scan_extent(tx_size.spec_height()),
        0 <= column < scan_extent(tx_size.spec_width()),
    ensures
        coded_position(tx_size, cell_position(tx_size, row, column)),
        position_diagonal(tx_size, cell_position(tx_size, row, column)) == row + column,
{
    let width = tx_size.spec_width() as int;
    let height = tx_size.spec_height() as int;
    if tx_size.spec_is_rectangular() {
        lemma_raster_div_mod(column, row, height);
        lemma_grid_index(column, row, height, width);
    } else {
        lemma_raster_div_mod(row, column, width);
        lemma_grid_index(row, column, width, height);
    }
}

/// Distinct coded cells have distinct coefficient indices.
proof fn lemma_cell_position_injective(tx_size: TxSize, r1: int, c1: int, r2: int, c2: int)
    requires
        0 <= r1 < scan_extent(tx_size.spec_height()),
        0 <= c1 < scan_extent(tx_size.spec_width()),
        0 <= r2 < scan_extent(tx_size.spec_height()),
        0 <= c2 < scan_extent(tx_size.spec_width()),
        cell_position(tx_size, r1, c1) == cell_position(tx_size, r2, c2),
    ensures
        r1 == r2 && c1 == c2,
{
    if tx_size.spec_is_rectangular() {
        lemma_grid_index_injective(c1, r1, c2, r2, tx_size.spec_height() as int);
    } else {
        lemma_grid_index_injective(r1, c1, r2, c2, tx_size.spec_width() as int);
    }
}

/// The first `n` diagonals of the zig-zag scan visit distinct coded cells, each on a
/// diagonal before `n`.
pub proof fn lemma_zig_zag_prefix(tx_size: TxSize, n: nat)
    requires
        n <= scan_extent(tx_size.spec_width()) + scan_extent(tx_size.spec_height()) - 1,
    ensures
        distinct_indices(zig_zag_prefix(tx_size, n)),
        forall|i: int|
            0 <= i < zig_zag_prefix(tx_size, n).len() ==> coded_position(tx_size, #[trigger] zig_zag_prefix(tx_size, n)[i])
                && position_diagonal(tx_size, zig_zag_prefix(tx_size, n)[i]) < n,
    decreases n,
{
    if n > 0 {
        let d = n - 1;
        lemma_zig_zag_prefix(tx_size, d as nat);
        let before = zig_zag_prefix(tx_size, d as nat);
        let diagonal = zig_zag_diagonal(tx_size, d);
        let all = zig_zag_prefix(tx_size, n);
        assert(all == before + diagonal);
        assert forall|k: int| 0 <= k < diagonal.len() implies coded_position(tx_size, #[trigger] diagonal[k])
            && position_diagonal(tx_size, diagonal[k]) == d by {
            lemma_diagonal_cell(tx_size, d, k);
            let cell = diagonal_cell(tx_size, d, k);
            lemma_cell_position(tx_size, cell.0, cell.1);
        }
        assert forall|i: int| 0 <= i < all.len() implies coded_position(tx_size, #[trigger] all[i])
            && position_diagonal(tx_size, all[i]) < n by {
            if i >= before.len() {
                assert(all[i] == diagonal[i - before.len()]);
            }
        }
        assert forall|i: int, j: int| 0 <= i < all.len() && 0 <= j < all.len() && i != j implies all[i] != all[j] by {
            if i >= before.len() && j >= before.len() {
                let ki = i - before.len();
                let kj = j - before.len();
                lemma_diagonal_cell(tx_size, d, ki);
                lemma_diagonal_cell(tx_size, d, kj);
                let ci = diagonal_cell(tx_size, d, ki);
                let cj = diagonal_cell(tx_size, d, kj);
                assert(all[i] == diagonal[ki]);
                assert(all[j] == diagonal[kj]);
                if all[i] == all[j] {
                    lemma_cell_position_injective(tx_size, ci.0, ci.1, cj.0, cj.1);
                }
            } else if i >= before.len() {
                assert(all[i] == diagonal[i - before.len()]);
                assert(all[j] == before[j]);
            } else if j >= before.len() {
                assert(all[j] == diagonal[j - before.len()]);
                assert(all[i] == before[i]);
            }
        }
    }
}

} // verus!

verus! {

/// Every coefficient scan lists distinct coefficient indices of the block; the
/// zig-zag scan (all types but the one-dimensional DCTs) stays inside the coded area.
pub proof fn lemma_coefficient_scan_distinct(tx_size: TxSize, tx_type: TxType)
    ensures
        distinct_indices(coefficient_scan_spec(tx_size, tx_type)),
        forall|i: int|
            0 <= i < coefficient_scan_spec(tx_size, tx_type).len() ==> 0 <= #[trigger] coefficient_scan_spec(tx_size, tx_type)[i]
                < tx_size.spec_sample_count(),
        tx_type != TxType::VerticalDct && tx_type != TxType::HorizontalDct ==> forall|i: int|
            0 <= i < coefficient_scan_spec(tx_size, tx_type).len() ==> coded_position(
                tx_size,
                #[trigger] coefficient_scan_spec(tx_size, tx_type)[i],
            ),
{
    let width = tx_size.spec_width() as int;
    let height = tx_size.spec_height() as int;
    let sw = scan_extent(tx_size.spec_width());
    let sh = scan_extent(tx_size.spec_height());
    let s = coefficient_scan_spec(tx_size, tx_type);
    assert(sw * sh <= width * height) by (nonlinear_arith)
        requires
            0 < sw <= width,
            0 < sh <= height,
    ;
    match tx_type {
        TxType::VerticalDct => {
            let (stride, minor_count, major_count) = if tx_size.spec_is_rectangular() {
                (height, sw, sh)
            } else {
                (width, sh, sw)
            };
            assert forall|k: int| 0 <= k < s.len() implies 0 <= #[trigger] s[k] < tx_size.spec_sample_count()
                && s[k] == (k % minor_count) * stride + k / minor_count && k / minor_count < major_count by {
                vstd::arithmetic::div_mod::lemma_fundamental_div_mod(k, minor_count);
                assert(k / minor_count < major_count) by (nonlinear_arith)
                    requires
                        0 <= k < minor_count * major_count,
                        k == minor_count * (k / minor_count) + k % minor_count,
                        0 <= k % minor_count < minor_count,
                ;
                assert(0 <= k / minor_count);
                if tx_size.spec_is_rectangular() {
                    lemma_grid_index(k % sw, k / sw, height, width);
                } else {
                    lemma_grid_index(k % sh, k / sh, width, height);
                }
            }
            assert forall|i: int, j: int| 0 <= i < s.len() && 0 <= j < s.len() && i != j implies s[i] != s[j] by {
                vstd::arithmetic::div_mod::lemma_fundamental_div_mod(i, minor_count);
                vstd::arithmetic::div_mod::lemma_fundamental_div_mod(j, minor_count);
                if s[i] == s[j] {
                    lemma_grid_index_injective(i % minor_count, i / minor_count, j % minor_count, j / minor_count, stride);
                }
            }
        },
        TxType::HorizontalDct => {
            if tx_size.spec_is_rectangular() {
            } else {
                assert forall|k: int| 0 <= k < s.len() implies 0 <= #[trigger] s[k] < tx_size.spec_sample_count() by {
                    vstd::arithmetic::div_mod::lemma_fundamental_div_mod(k, sw);
                    assert(k / sw < sh) by (nonlinear_arith)
                        requires
                            0 <= k < sw * sh,
                            k == sw * (k / sw) + k % sw,
                            0 <= k % sw < sw,
                    ;
                    assert(0 <= k / sw);
                    lemma_grid_index(k / sw, k % sw, width, height);
                }
                assert forall|i: int, j: int| 0 <= i < s.len() && 0 <= j < s.len() && i != j implies s[i] != s[j] by {
                    vstd::arithmetic::div_mod::lemma_fundamental_div_mod(i, sw);
                    vstd::arithmetic::div_mod::lemma_fundamental_div_mod(j, sw);
                    if s[i] == s[j] {
                        lemma_grid_index_injective(i / sw, i % sw, j / sw, j % sw, width);
                    }
                }
            }
        },
        _ => {
            lemma_zig_zag_prefix(tx_size, (sw + sh - 1) as nat);
        },
    }
}

} // verus!

verus! {

/// Places scanned coefficients at their positions in the block: the `i`-th scanned
/// value goes to index `scan[i]`, every other coefficient is zero.
pub fn coefficients_from_scan(tx_size: TxSize, tx_type: TxType, scanned_coefficients: &[i32]) -> (result: Result<Vec<i32>, DecoderError>)
    ensures
        match result {
            Ok(coefficients) => {
                let scan = coefficient_scan_spec(tx_size, tx_type);
                &&& scanned_coefficients@.len() <= scan.len()
                &&& coefficients@.len() == tx_size.spec_sample_count()
                &&& forall|i: int|
                    0 <= i < scanned_coefficients@.len() ==> coefficients@[#[trigger] scan[i]] == scanned_coefficients@[i]
                &&& forall|position: int|
                    0 <= position < coefficients@.len() && (forall|i: int|
                        0 <= i < scanned_coefficients@.len() ==> #[trigger] scan[i] != position) ==> coefficients@[position] == 0
            },
            Err(error) => scanned_coefficients@.len() > coefficient_scan_spec(tx_size, tx_type).len()
                && error is InvalidParam,
        },
{
    let scan = coefficient_scan(tx_size, tx_type);
    let ghost order = coefficient_scan_spec(tx_size, tx_type);
    proof {
        lemma_coefficient_scan_distinct(tx_size, tx_type);
    }
    if scanned_coefficients.len() > scan.len() {
        return Err(DecoderError::InvalidParam("AV1 scanned coefficient count exceeds transform size".to_string()));
    }
    let count = tx_size.sample_count();
    let mut coefficients = vec![0i32; count];
    proof {
        assert forall|k: int| 0 <= k < count implies coefficients@[k] == 0i32 by {
            assert(cloned(0i32, coefficients@[k]));
        }
    }
    let mut index: usize = 0;
    while index < scanned_coefficients.len()
        invariant
            index <= scanned_coefficients@.len() <= scan@.len(),
            indices(scan@) == order,
            order == coefficient_scan_spec(tx_size, tx_type),
            distinct_indices(order),
            forall|i: int| 0 <= i < order.len() ==> 0 <= #[trigger] order[i] < count,
            count == tx_size.spec_sample_count(),
            coefficients@.len() == count,
            forall|i: int| 0 <= i < index ==> coefficients@[#[trigger] order[i]] == scanned_coefficients@[i],
            forall|position: int|
                0 <= position < count && (forall|i: int| 0 <= i < index ==> #[trigger] order[i] != position)
                    ==> coefficients@[position] == 0,
        decreases scanned_coefficients@.len() - index,
    {
        let position = scan[index];
        assert(position as int == order[index as int]);
        coefficients.set(position, scanned_coefficients[index]);
        proof {
            assert forall|i: int| 0 <= i < index + 1 implies coefficients@[#[trigger] order[i]] == scanned_coefficients@[i] by {
                if i < index {
                    assert(order[i] != order[index as int]);
                }
            }
            assert forall|p: int|
                0 <= p < count && (forall|i: int| 0 <= i < index + 1 ==> #[trigger] order[i] != p) implies coefficients@[p] == 0 by {
                assert(order[index as int] != p);
            }
        }
        index = index + 1;
    }
    Ok(coefficients)
}

} // verus!

verus! {

/// A residual lies in the range of a `bit_depth + 8`-bit signed integer.
pub open spec fn residual_in_range(value: int, bit_depth: nat) -> bool {
    -signed_limit(bit_depth + 8) <= value <= signed_limit(bit_depth + 8) - 1
}

/// A clamped residual lies in the residual range.
proof fn lemma_clamped_residual(value: int, bit_depth: nat)
    ensures
        residual_in_range(
            clamp_range(value, -signed_limit(bit_depth + 8), signed_limit(bit_depth + 8) - 1),
            bit_depth,
        ),
{
    vstd::arithmetic::power2::lemma_pow2_pos((bit_depth + 7) as nat);
}

/// Every residual of a staged block lies in the residual range.
proof fn lemma_residual_block_in_range(plan: StagePlan, dequant: Seq<int>, bit_depth: nat, output: Seq<i32>)
    requires
        residual_block(plan, dequant, bit_depth, output),
    ensures
        forall|k: int| 0 <= k < output.len() ==> residual_in_range(#[trigger] output[k] as int, bit_depth),
{
    assert forall|k: int| 0 <= k < output.len() implies residual_in_range(#[trigger] output[k] as int, bit_depth) by {
        let width = plan.width as int;
        if width > 0 {
            vstd::arithmetic::div_mod::lemma_fundamental_div_mod(k, width);
            let row = k / width;
            let column = k % width;
            assert(row * width + column == k) by (nonlinear_arith)
                requires
                    k == width * (k / width) + k % width,
                    row == k / width,
                    column == k % width,
            ;
            assert(0 <= row < plan.height) by (nonlinear_arith)
                requires
                    0 <= k < plan.width * plan.height,
                    width == plan.width,
                    width > 0,
                    row == k / width,
            ;
            lemma_clamped_residual(
                round2_spec(
                    staged_spec(plan.vertical, column_input(plan, dequant, bit_depth, column), 16)[row],
                    4,
                ),
                bit_depth,
            );
            assert(output[row * plan.width + column] == residual_at(plan, dequant, bit_depth, row, column));
        } else {
            assert(output.len() == 0) by (nonlinear_arith)
                requires
                    output.len() == plan.width * plan.height,
                    plan.width == 0,
            ;
        }
    }
}

/// Every residual that an inverse transform gives lies within the range of a
/// `bit_depth + 8`-bit signed integer, that is `-2^(bit_depth + 7)` up to
/// `2^(bit_depth + 7) - 1`.
pub proof fn lemma_transform_residual_in_range(
    tx_type: TxType,
    tx_size: TxSize,
    dequant: Seq<i32>,
    bit_depth: u8,
    output: Seq<i32>,
)
    requires
        transform_residual(tx_type, tx_size, dequant, bit_depth, output),
    ensures
        forall|k: int| 0 <= k < output.len() ==> residual_in_range(#[trigger] output[k] as int, bit_depth as nat),
{
    match tx_size {
        TxSize::Tx64x64 => {
            assert forall|k: int| 0 <= k < output.len() implies residual_in_range(#[trigger] output[k] as int, bit_depth as nat) by {
                let y = k / 64;
                let x = k % 64;
                assert(y * 64 + x == k);
                if only_dc(dequant) {
                    let dc = dequant[0] as int;
                    let row = round2_spec(round_shift_spec(dc * 2896, 12), 2);
                    lemma_clamped_residual(round2_spec(round_shift_spec(row * 2896, 12), 4), bit_depth as nat);
                } else {
                    lemma_clamped_residual(
                        round_shift_spec(
                            basis_column_sum(
                                Seq::new(4096, |index: int| dct64_basis_spec((index / 64) as nat, (index % 64) as nat)),
                                ints(dequant),
                                64,
                                y,
                                x,
                                64,
                            ),
                            24,
                        ),
                        bit_depth as nat,
                    );
                }
                assert(output[y * 64 + x] as int == dct64_fixed_basis_residual(dequant, bit_depth as nat, y, x));
            }
        },
        TxSize::Tx4x4 => lemma_residual_block_in_range(square_plan(tx_type, 4, (bit_depth + 8) as u8, 0), ints(dequant), bit_depth as nat, output),
        TxSize::Tx8x8 => lemma_residual_block_in_range(square_plan(tx_type, 8, (bit_depth + 8) as u8, 1), ints(dequant), bit_depth as nat, output),
        TxSize::Tx16x16 => lemma_residual_block_in_range(square_plan(tx_type, 16, 16, 2), ints(dequant), bit_depth as nat, output),
        TxSize::Tx32x32 => lemma_residual_block_in_range(
            square_plan(TxType::DctDct, 32, (bit_depth + 8) as u8, 2),
            ints(dequant),
            bit_depth as nat,
            output,
        ),
        _ => lemma_residual_block_in_range(rect_plan(tx_type, tx_size, bit_depth), ints(dequant), bit_depth as nat, output),
    }
}

} // verus!

verus! {

/// The diagonals up to `n` hold, together, the sum of their lengths.
proof fn lemma_zig_zag_prefix_length(tx_size: TxSize, n: nat)
    ensures
        zig_zag_prefix(tx_size, n).len() == diagonal_length_sum(tx_size, n),
    decreases n,
{
    if n > 0 {
        lemma_zig_zag_prefix_length(tx_size, (n - 1) as nat);
    }
}

/// The sum of the lengths of the first `n` diagonals.
pub open spec fn diagonal_length_sum(tx_size: TxSize, n: nat) -> int
    decreases n,
{
    if n == 0 {
        0
    } else {
        diagonal_length_sum(tx_size, (n - 1) as nat) + (diagonal_length(tx_size, n - 1) as nat)
    }
}

/// The lengths of the first `n` diagonals of a `scan_width`-wide, `scan_height`-tall
/// area, added up.
pub open spec fn area_diagonal_sum(scan_width: int, scan_height: int, n: nat) -> int
    decreases n,
{
    if n == 0 {
        0
    } else {
        area_diagonal_sum(scan_width, scan_height, (n - 1) as nat) + diagonal_last(n - 1, scan_height) - diagonal_first(
            n - 1,
            scan_width,
        ) + 1
    }
}

/// One more column lengthens every diagonal from the `scan_width`-th on by one cell.
proof fn lemma_area_sum_one_wider(scan_width: int, scan_height: int, n: nat)
    requires
        scan_width >= 1,
    ensures
        area_diagonal_sum(scan_width + 1, scan_height, n) == area_diagonal_sum(scan_width, scan_height, n) + (if n
            > scan_width {
            n - scan_width
        } else {
            0
        }),
    decreases n,
{
    if n > 0 {
        lemma_area_sum_one_wider(scan_width, scan_height, (n - 1) as nat);
    }
}

/// In a one-column area every diagonal holds one cell.
proof fn lemma_area_sum_one_column(scan_height: int, n: nat)
    requires
        scan_height >= 1,
        n <= scan_height,
    ensures
        area_diagonal_sum(1, scan_height, n) == n,
    decreases n,
{
    if n > 0 {
        lemma_area_sum_one_column(scan_height, (n - 1) as nat);
    }
}

/// The diagonals of an area cover its cells: their lengths add up to its size.
proof fn lemma_area_sum(scan_width: int, scan_height: int)
    requires
        scan_width >= 1,
        scan_height >= 1,
    ensures
        area_diagonal_sum(scan_width, scan_height, (scan_width + scan_height - 1) as nat) == scan_width * scan_height,
    decreases scan_width,
{
    if scan_width == 1 {
        lemma_area_sum_one_column(scan_height, scan_height as nat);
    } else {
        let m = (scan_width + scan_height - 2) as nat;
        lemma_area_sum(scan_width - 1, scan_height);
        lemma_area_sum_one_wider(scan_width - 1, scan_height, m);
        assert(area_diagonal_sum(scan_width, scan_height, (m + 1) as nat) == area_diagonal_sum(scan_width, scan_height, m)
            + diagonal_last(m as int, scan_height) - diagonal_first(m as int, scan_width) + 1);
        assert((scan_width - 1) * scan_height + scan_height == scan_width * scan_height) by (nonlinear_arith);
    }
}

/// Within the coded area, the diagonal lengths of a transform are those of its area.
proof fn lemma_diagonal_sum_of_area(tx_size: TxSize, n: nat)
    requires
        n <= scan_extent(tx_size.spec_width()) + scan_extent(tx_size.spec_height()) - 1,
    ensures
        diagonal_length_sum(tx_size, n) == area_diagonal_sum(
            scan_extent(tx_size.spec_width()),
            scan_extent(tx_size.spec_height()),
            n,
        ),
    decreases n,
{
    if n > 0 {
        lemma_diagonal_sum_of_area(tx_size, (n - 1) as nat);
    }
}

/// The zig-zag scan has one entry for each cell of the coded area (at most 32 by 32).
pub proof fn lemma_zig_zag_scan_length(tx_size: TxSize)
    ensures
        zig_zag_spec(tx_size).len() == scan_extent(tx_size.spec_width()) * scan_extent(tx_size.spec_height()),
{
    let sw = scan_extent(tx_size.spec_width());
    let sh = scan_extent(tx_size.spec_height());
    let n = (sw + sh - 1) as nat;
    lemma_zig_zag_prefix_length(tx_size, n);
    lemma_diagonal_sum_of_area(tx_size, n);
    lemma_area_sum(sw, sh);
}

/// Every coefficient scan has one entry for each cell of the coded area: the block,
/// or its top-left 32 by 32 corner.
pub proof fn lemma_coefficient_scan_length(tx_size: TxSize, tx_type: TxType)
    ensures
        coefficient_scan_spec(tx_size, tx_type).len() == scan_extent(tx_size.spec_width()) * scan_extent(
            tx_size.spec_height(),
        ),
{
    lemma_zig_zag_scan_length(tx_size);
}

} // verus!
