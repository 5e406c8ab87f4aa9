//! The 64-point inverse DCT, written as its butterfly network one stage at a time.
use vstd::prelude::*;
use super::{bounded, clamp_signed, clamp_spec, cospi, cospi_spec, half_btf, hb, ints, kernel_input_bound, lemma_kernel_limit};

verus! {

/// The low half of the input permutation (six-bit bit reversal of the index).
pub open spec fn idct64_step0_lo(x: Seq<int>) -> Seq<int> {
    seq![x[0], x[32], x[16], x[48], x[8], x[40], x[24], x[56], x[4], x[36], x[20], x[52], x[12], x[44], x[28], x[60], x[2], x[34], x[18], x[50], x[10], x[42], x[26], x[58], x[6], x[38], x[22], x[54], x[14], x[46], x[30], x[62]]
}

/// The high half of the input permutation (six-bit bit reversal of the index).
pub open spec fn idct64_step0_hi(x: Seq<int>) -> Seq<int> {
    seq![x[1], x[33], x[17], x[49], x[9], x[41], x[25], x[57], x[5], x[37], x[21], x[53], x[13], x[45], x[29], x[61], x[3], x[35], x[19], x[51], x[11], x[43], x[27], x[59], x[7], x[39], x[23], x[55], x[15], x[47], x[31], x[63]]
}

/// The low half of stage 1 of the 64-point inverse DCT butterfly network.
pub open spec fn idct64_step1_lo(x: Seq<int>, r: nat) -> Seq<int> {
    seq![
        x[0],
        x[1],
        x[2],
        x[3],
        x[4],
        x[5],
        x[6],
        x[7],
        x[8],
        x[9],
        x[10],
        x[11],
        x[12],
        x[13],
        x[14],
        x[15],
        x[16],
        x[17],
        x[18],
        x[19],
        x[20],
        x[21],
        x[22],
        x[23],
        x[24],
        x[25],
        x[26],
        x[27],
        x[28],
        x[29],
        x[30],
        x[31],
    ]
}

/// The high half of stage 1 of the 64-point inverse DCT butterfly network.
pub open spec fn idct64_step1_hi(x: Seq<int>, r: nat) -> Seq<int> {
    seq![
        hb(cospi_spec(63), x[32], -cospi_spec(1), x[63]),
        hb(cospi_spec(31), x[33], -cospi_spec(33), x[62]),
        hb(cospi_spec(47), x[34], -cospi_spec(17), x[61]),
        hb(cospi_spec(15), x[35], -cospi_spec(49), x[60]),
        hb(cospi_spec(55), x[36], -cospi_spec(9), x[59]),
        hb(cospi_spec(23), x[37], -cospi_spec(41), x[58]),
        hb(cospi_spec(39), x[38], -cospi_spec(25), x[57]),
        hb(cospi_spec(7), x[39], -cospi_spec(57), x[56]),
        hb(cospi_spec(59), x[40], -cospi_spec(5), x[55]),
        hb(cospi_spec(27), x[41], -cospi_spec(37), x[54]),
        hb(cospi_spec(43), x[42], -cospi_spec(21), x[53]),
        hb(cospi_spec(11), x[43], -cospi_spec(53), x[52]),
        hb(cospi_spec(51), x[44], -cospi_spec(13), x[51]),
        hb(cospi_spec(19), x[45], -cospi_spec(45), x[50]),
        hb(cospi_spec(35), x[46], -cospi_spec(29), x[49]),
        hb(cospi_spec(3), x[47], -cospi_spec(61), x[48]),
        hb(cospi_spec(61), x[47], cospi_spec(3), x[48]),
        hb(cospi_spec(29), x[46], cospi_spec(35), x[49]),
        hb(cospi_spec(45), x[45], cospi_spec(19), x[50]),
        hb(cospi_spec(13), x[44], cospi_spec(51), x[51]),
        hb(cospi_spec(53), x[43], cospi_spec(11), x[52]),
        hb(cospi_spec(21), x[42], cospi_spec(43), x[53]),
        hb(cospi_spec(37), x[41], cospi_spec(27), x[54]),
        hb(cospi_spec(5), x[40], cospi_spec(59), x[55]),
        hb(cospi_spec(57), x[39], cospi_spec(7), x[56]),
        hb(cospi_spec(25), x[38], cospi_spec(39), x[57]),
        hb(cospi_spec(41), x[37], cospi_spec(23), x[58]),
        hb(cospi_spec(9), x[36], cospi_spec(55), x[59]),
        hb(cospi_spec(49), x[35], cospi_spec(15), x[60]),
        hb(cospi_spec(17), x[34], cospi_spec(47), x[61]),
        hb(cospi_spec(33), x[33], cospi_spec(31), x[62]),
        hb(cospi_spec(1), x[32], cospi_spec(63), x[63]),
    ]
}

/// Stage 1 of the 64-point inverse DCT butterfly network.
pub open spec fn idct64_step1(x: Seq<int>, r: nat) -> Seq<int> {
    idct64_step1_lo(x, r) + idct64_step1_hi(x, r)
}

/// The low half of stage 2 of the 64-point inverse DCT butterfly network.
pub open spec fn idct64_step2_lo(x: Seq<int>, r: nat) -> Seq<int> {
    seq![
        x[0],
        x[1],
        x[2],
        x[3],
        x[4],
        x[5],
        x[6],
        x[7],
        x[8],
        x[9],
        x[10],
        x[11],
        x[12],
        x[13],
        x[14],
        x[15],
        hb(cospi_spec(62), x[16], -cospi_spec(2), x[31]),
        hb(cospi_spec(30), x[17], -cospi_spec(34), x[30]),
        hb(cospi_spec(46), x[18], -cospi_spec(18), x[29]),
        hb(cospi_spec(14), x[19], -cospi_spec(50), x[28]),
        hb(cospi_spec(54), x[20], -cospi_spec(10), x[27]),
        hb(cospi_spec(22), x[21], -cospi_spec(42), x[26]),
        hb(cospi_spec(38), x[22], -cospi_spec(26), x[25]),
        hb(cospi_spec(6), x[23], -cospi_spec(58), x[24]),
        hb(cospi_spec(58), x[23], cospi_spec(6), x[24]),
        hb(cospi_spec(26), x[22], cospi_spec(38), x[25]),
        hb(cospi_spec(42), x[21], cospi_spec(22), x[26]),
        hb(cospi_spec(10), x[20], cospi_spec(54), x[27]),
        hb(cospi_spec(50), x[19], cospi_spec(14), x[28]),
        hb(cospi_spec(18), x[18], cospi_spec(46), x[29]),
        hb(cospi_spec(34), x[17], cospi_spec(30), x[30]),
        hb(cospi_spec(2), x[16], cospi_spec(62), x[31]),
    ]
}

/// The high half of stage 2 of the 64-point inverse DCT butterfly network.
pub open spec fn idct64_step2_hi(x: Seq<int>, r: nat) -> Seq<int> {
    seq![
        clamp_spec(x[32] + x[33], r),
        clamp_spec(x[32] - x[33], r),
        clamp_spec(-x[34] + x[35], r),
        clamp_spec(x[34] + x[35], r),
        clamp_spec(x[36] + x[37], r),
        clamp_spec(x[36] - x[37], r),
        clamp_spec(-x[38] + x[39], r),
        clamp_spec(x[38] + x[39], r),
        clamp_spec(x[40] + x[41], r),
        clamp_spec(x[40] - x[41], r),
        clamp_spec(-x[42] + x[43], r),
        clamp_spec(x[42] + x[43], r),
        clamp_spec(x[44] + x[45], r),
        clamp_spec(x[44] - x[45], r),
        clamp_spec(-x[46] + x[47], r),
        clamp_spec(x[46] + x[47], r),
        clamp_spec(x[48] + x[49], r),
        clamp_spec(x[48] - x[49], r),
        clamp_spec(-x[50] + x[51], r),
        clamp_spec(x[50] + x[51], r),
        clamp_spec(x[52] + x[53], r),
        clamp_spec(x[52] - x[53], r),
        clamp_spec(-x[54] + x[55], r),
        clamp_spec(x[54] + x[55], r),
        clamp_spec(x[56] + x[57], r),
        clamp_spec(x[56] - x[57], r),
        clamp_spec(-x[58] + x[59], r),
        clamp_spec(x[58] + x[59], r),
        clamp_spec(x[60] + x[61], r),
        clamp_spec(x[60] - x[61], r),
        clamp_spec(-x[62] + x[63], r),
        clamp_spec(x[62] + x[63], r),
    ]
}

/// Stage 2 of the 64-point inverse DCT butterfly network.
pub open spec fn idct64_step2(x: Seq<int>, r: nat) -> Seq<int> {
    idct64_step2_lo(x, r) + idct64_step2_hi(x, r)
}

/// The low half of stage 3 of the 64-point inverse DCT butterfly network.
pub open spec fn idct64_step3_lo(x: Seq<int>, r: nat) -> Seq<int> {
    seq![
        x[0],
        x[1],
        x[2],
        x[3],
        x[4],
        x[5],
        x[6],
        x[7],
        hb(cospi_spec(60), x[8], -cospi_spec(4), x[15]),
        hb(cospi_spec(28), x[9], -cospi_spec(36), x[14]),
        hb(cospi_spec(44), x[10], -cospi_spec(20), x[13]),
        hb(cospi_spec(12), x[11], -cospi_spec(52), x[12]),
        hb(cospi_spec(52), x[11], cospi_spec(12), x[12]),
        hb(cospi_spec(20), x[10], cospi_spec(44), x[13]),
        hb(cospi_spec(36), x[9], cospi_spec(28), x[14]),
        hb(cospi_spec(4), x[8], cospi_spec(60), x[15]),
        clamp_spec(x[16] + x[17], r),
        clamp_spec(x[16] - x[17], r),
        clamp_spec(-x[18] + x[19], r),
        clamp_spec(x[18] + x[19], r),
        clamp_spec(x[20] + x[21], r),
        clamp_spec(x[20] - x[21], r),
        clamp_spec(-x[22] + x[23], r),
        clamp_spec(x[22] + x[23], r),
        clamp_spec(x[24] + x[25], r),
        clamp_spec(x[24] - x[25], r),
        clamp_spec(-x[26] + x[27], r),
        clamp_spec(x[26] + x[27], r),
        clamp_spec(x[28] + x[29], r),
        clamp_spec(x[28] - x[29], r),
        clamp_spec(-x[30] + x[31], r),
        clamp_spec(x[30] + x[31], r),
    ]
}

/// The high half of stage 3 of the 64-point inverse DCT butterfly network.
pub open spec fn idct64_step3_hi(x: Seq<int>, r: nat) -> Seq<int> {
    seq![
        x[32],
        hb(-cospi_spec(4), x[33], cospi_spec(60), x[62]),
        hb(-cospi_spec(60), x[34], -cospi_spec(4), x[61]),
        x[35],
        x[36],
        hb(-cospi_spec(36), x[37], cospi_spec(28), x[58]),
        hb(-cospi_spec(28), x[38], -cospi_spec(36), x[57]),
        x[39],
        x[40],
        hb(-cospi_spec(20), x[41], cospi_spec(44), x[54]),
        hb(-cospi_spec(44), x[42], -cospi_spec(20), x[53]),
        x[43],
        x[44],
        hb(-cospi_spec(52), x[45], cospi_spec(12), x[50]),
        hb(-cospi_spec(12), x[46], -cospi_spec(52), x[49]),
        x[47],
        x[48],
        hb(-cospi_spec(52), x[46], cospi_spec(12), x[49]),
        hb(cospi_spec(12), x[45], cospi_spec(52), x[50]),
        x[51],
        x[52],
        hb(-cospi_spec(20), x[42], cospi_spec(44), x[53]),
        hb(cospi_spec(44), x[41], cospi_spec(20), x[54]),
        x[55],
        x[56],
        hb(-cospi_spec(36), x[38], cospi_spec(28), x[57]),
        hb(cospi_spec(28), x[37], cospi_spec(36), x[58]),
        x[59],
        x[60],
        hb(-cospi_spec(4), x[34], cospi_spec(60), x[61]),
        hb(cospi_spec(60), x[33], cospi_spec(4), x[62]),
        x[63],
    ]
}

/// Stage 3 of the 64-point inverse DCT butterfly network.
pub open spec fn idct64_step3(x: Seq<int>, r: nat) -> Seq<int> {
    idct64_step3_lo(x, r) + idct64_step3_hi(x, r)
}

/// The low half of stage 4 of the 64-point inverse DCT butterfly network.
pub open spec fn idct64_step4_lo(x: Seq<int>, r: nat) -> Seq<int> {
    seq![
        x[0],
        x[1],
        x[2],
        x[3],
        hb(cospi_spec(56), x[4], -cospi_spec(8), x[7]),
        hb(cospi_spec(24), x[5], -cospi_spec(40), x[6]),
        hb(cospi_spec(40), x[5], cospi_spec(24), x[6]),
        hb(cospi_spec(8), x[4], cospi_spec(56), x[7]),
        clamp_spec(x[8] + x[9], r),
        clamp_spec(x[8] - x[9], r),
        clamp_spec(-x[10] + x[11], r),
        clamp_spec(x[10] + x[11], r),
        clamp_spec(x[12] + x[13], r),
        clamp_spec(x[12] - x[13], r),
        clamp_spec(-x[14] + x[15], r),
        clamp_spec(x[14] + x[15], r),
        x[16],
        hb(-cospi_spec(8), x[17], cospi_spec(56), x[30]),
        hb(-cospi_spec(56), x[18], -cospi_spec(8), x[29]),
        x[19],
        x[20],
        hb(-cospi_spec(40), x[21], cospi_spec(24), x[26]),
        hb(-cospi_spec(24), x[22], -cospi_spec(40), x[25]),
        x[23],
        x[24],
        hb(-cospi_spec(40), x[22], cospi_spec(24), x[25]),
        hb(cospi_spec(24), x[21], cospi_spec(40), x[26]),
        x[27],
        x[28],
        hb(-cospi_spec(8), x[18], cospi_spec(56), x[29]),
        hb(cospi_spec(56), x[17], cospi_spec(8), x[30]),
        x[31],
    ]
}

/// The high half of stage 4 of the 64-point inverse DCT butterfly network.
pub open spec fn idct64_step4_hi(x: Seq<int>, r: nat) -> Seq<int> {
    seq![
        clamp_spec(x[32] + x[35], r),
        clamp_spec(x[33] + x[34], r),
        clamp_spec(x[33] - x[34], r),
        clamp_spec(x[32] - x[35], r),
        clamp_spec(-x[36] + x[39], r),
        clamp_spec(-x[37] + x[38], r),
        clamp_spec(x[37] + x[38], r),
        clamp_spec(x[36] + x[39], r),
        clamp_spec(x[40] + x[43], r),
        clamp_spec(x[41] + x[42], r),
        clamp_spec(x[41] - x[42], r),
        clamp_spec(x[40] - x[43], r),
        clamp_spec(-x[44] + x[47], r),
        clamp_spec(-x[45] + x[46], r),
        clamp_spec(x[45] + x[46], r),
        clamp_spec(x[44] + x[47], r),
        clamp_spec(x[48] + x[51], r),
        clamp_spec(x[49] + x[50], r),
        clamp_spec(x[49] - x[50], r),
        clamp_spec(x[48] - x[51], r),
        clamp_spec(-x[52] + x[55], r),
        clamp_spec(-x[53] + x[54], r),
        clamp_spec(x[53] + x[54], r),
        clamp_spec(x[52] + x[55], r),
        clamp_spec(x[56] + x[59], r),
        clamp_spec(x[57] + x[58], r),
        clamp_spec(x[57] - x[58], r),
        clamp_spec(x[56] - x[59], r),
        clamp_spec(-x[60] + x[63], r),
        clamp_spec(-x[61] + x[62], r),
        clamp_spec(x[61] + x[62], r),
        clamp_spec(x[60] + x[63], r),
    ]
}

/// Stage 4 of the 64-point inverse DCT butterfly network.
pub open spec fn idct64_step4(x: Seq<int>, r: nat) -> Seq<int> {
    idct64_step4_lo(x, r) + idct64_step4_hi(x, r)
}

/// The low half of stage 5 of the 64-point inverse DCT butterfly network.
pub open spec fn idct64_step5_lo(x: Seq<int>, r: nat) -> Seq<int> {
    seq![
        hb(cospi_spec(32), x[0], cospi_spec(32), x[1]),
        hb(cospi_spec(32), x[0], -cospi_spec(32), x[1]),
        hb(cospi_spec(48), x[2], -cospi_spec(16), x[3]),
        hb(cospi_spec(16), x[2], cospi_spec(48), x[3]),
        clamp_spec(x[4] + x[5], r),
        clamp_spec(x[4] - x[5], r),
        clamp_spec(-x[6] + x[7], r),
        clamp_spec(x[6] + x[7], r),
        x[8],
        hb(-cospi_spec(16), x[9], cospi_spec(48), x[14]),
        hb(-cospi_spec(48), x[10], -cospi_spec(16), x[13]),
        x[11],
        x[12],
        hb(-cospi_spec(16), x[10], cospi_spec(48), x[13]),
        hb(cospi_spec(48), x[9], cospi_spec(16), x[14]),
        x[15],
        clamp_spec(x[16] + x[19], r),
        clamp_spec(x[17] + x[18], r),
        clamp_spec(x[17] - x[18], r),
        clamp_spec(x[16] - x[19], r),
        clamp_spec(-x[20] + x[23], r),
        clamp_spec(-x[21] + x[22], r),
        clamp_spec(x[21] + x[22], r),
        clamp_spec(x[20] + x[23], r),
        clamp_spec(x[24] + x[27], r),
        clamp_spec(x[25] + x[26], r),
        clamp_spec(x[25] - x[26], r),
        clamp_spec(x[24] - x[27], r),
        clamp_spec(-x[28] + x[31], r),
        clamp_spec(-x[29] + x[30], r),
        clamp_spec(x[29] + x[30], r),
        clamp_spec(x[28] + x[31], r),
    ]
}

/// The high half of stage 5 of the 64-point inverse DCT butterfly network.
pub open spec fn idct64_step5_hi(x: Seq<int>, r: nat) -> Seq<int> {
    seq![
        x[32],
        x[33],
        hb(-cospi_spec(8), x[34], cospi_spec(56), x[61]),
        hb(-cospi_spec(8), x[35], cospi_spec(56), x[60]),
        hb(-cospi_spec(56), x[36], -cospi_spec(8), x[59]),
        hb(-cospi_spec(56), x[37], -cospi_spec(8), x[58]),
        x[38],
        x[39],
        x[40],
        x[41],
        hb(-cospi_spec(40), x[42], cospi_spec(24), x[53]),
        hb(-cospi_spec(40), x[43], cospi_spec(24), x[52]),
        hb(-cospi_spec(24), x[44], -cospi_spec(40), x[51]),
        hb(-cospi_spec(24), x[45], -cospi_spec(40), x[50]),
        x[46],
        x[47],
        x[48],
        x[49],
        hb(-cospi_spec(40), x[45], cospi_spec(24), x[50]),
        hb(-cospi_spec(40), x[44], cospi_spec(24), x[51]),
        hb(cospi_spec(24), x[43], cospi_spec(40), x[52]),
        hb(cospi_spec(24), x[42], cospi_spec(40), x[53]),
        x[54],
        x[55],
        x[56],
        x[57],
        hb(-cospi_spec(8), x[37], cospi_spec(56), x[58]),
        hb(-cospi_spec(8), x[36], cospi_spec(56), x[59]),
        hb(cospi_spec(56), x[35], cospi_spec(8), x[60]),
        hb(cospi_spec(56), x[34], cospi_spec(8), x[61]),
        x[62],
        x[63],
    ]
}

/// Stage 5 of the 64-point inverse DCT butterfly network.
pub open spec fn idct64_step5(x: Seq<int>, r: nat) -> Seq<int> {
    idct64_step5_lo(x, r) + idct64_step5_hi(x, r)
}

/// The low half of stage 6 of the 64-point inverse DCT butterfly network.
pub open spec fn idct64_step6_lo(x: Seq<int>, r: nat) -> Seq<int> {
    seq![
        clamp_spec(x[0] + x[3], r),
        clamp_spec(x[1] + x[2], r),
        clamp_spec(x[1] - x[2], r),
        clamp_spec(x[0] - x[3], r),
        x[4],
        hb(-cospi_spec(32), x[5], cospi_spec(32), x[6]),
        hb(cospi_spec(32), x[5], cospi_spec(32), x[6]),
        x[7],
        clamp_spec(x[8] + x[11], r),
        clamp_spec(x[9] + x[10], r),
        clamp_spec(x[9] - x[10], r),
        clamp_spec(x[8] - x[11], r),
        clamp_spec(-x[12] + x[15], r),
        clamp_spec(-x[13] + x[14], r),
        clamp_spec(x[13] + x[14], r),
        clamp_spec(x[12] + x[15], r),
        x[16],
        x[17],
        hb(-cospi_spec(16), x[18], cospi_spec(48), x[29]),
        hb(-cospi_spec(16), x[19], cospi_spec(48), x[28]),
        hb(-cospi_spec(48), x[20], -cospi_spec(16), x[27]),
        hb(-cospi_spec(48), x[21], -cospi_spec(16), x[26]),
        x[22],
        x[23],
        x[24],
        x[25],
        hb(-cospi_spec(16), x[21], cospi_spec(48), x[26]),
        hb(-cospi_spec(16), x[20], cospi_spec(48), x[27]),
        hb(cospi_spec(48), x[19], cospi_spec(16), x[28]),
        hb(cospi_spec(48), x[18], cospi_spec(16), x[29]),
        x[30],
        x[31],
    ]
}

/// The high half of stage 6 of the 64-point inverse DCT butterfly network.
pub open spec fn idct64_step6_hi(x: Seq<int>, r: nat) -> Seq<int> {
    seq![
        clamp_spec(x[32] + x[39], r),
        clamp_spec(x[33] + x[38], r),
        clamp_spec(x[34] + x[37], r),
        clamp_spec(x[35] + x[36], r),
        clamp_spec(x[35] - x[36], r),
        clamp_spec(x[34] - x[37], r),
        clamp_spec(x[33] - x[38], r),
        clamp_spec(x[32] - x[39], r),
        clamp_spec(-x[40] + x[47], r),
        clamp_spec(-x[41] + x[46], r),
        clamp_spec(-x[42] + x[45], r),
        clamp_spec(-x[43] + x[44], r),
        clamp_spec(x[43] + x[44], r),
        clamp_spec(x[42] + x[45], r),
        clamp_spec(x[41] + x[46], r),
        clamp_spec(x[40] + x[47], r),
        clamp_spec(x[48] + x[55], r),
        clamp_spec(x[49] + x[54], r),
        clamp_spec(x[50] + x[53], r),
        clamp_spec(x[51] + x[52], r),
        clamp_spec(x[51] - x[52], r),
        clamp_spec(x[50] - x[53], r),
        clamp_spec(x[49] - x[54], r),
        clamp_spec(x[48] - x[55], r),
        clamp_spec(-x[56] + x[63], r),
        clamp_spec(-x[57] + x[62], r),
        clamp_spec(-x[58] + x[61], r),
        clamp_spec(-x[59] + x[60], r),
        clamp_spec(x[59] + x[60], r),
        clamp_spec(x[58] + x[61], r),
        clamp_spec(x[57] + x[62], r),
        clamp_spec(x[56] + x[63], r),
    ]
}

/// Stage 6 of the 64-point inverse DCT butterfly network.
pub open spec fn idct64_step6(x: Seq<int>, r: nat) -> Seq<int> {
    idct64_step6_lo(x, r) + idct64_step6_hi(x, r)
}

/// The low half of stage 7 of the 64-point inverse DCT butterfly network.
pub open spec fn idct64_step7_lo(x: Seq<int>, r: nat) -> Seq<int> {
    seq![
        clamp_spec(x[0] + x[7], r),
        clamp_spec(x[1] + x[6], r),
        clamp_spec(x[2] + x[5], r),
        clamp_spec(x[3] + x[4], r),
        clamp_spec(x[3] - x[4], r),
        clamp_spec(x[2] - x[5], r),
        clamp_spec(x[1] - x[6], r),
        clamp_spec(x[0] - x[7], r),
        x[8],
        x[9],
        hb(-cospi_spec(32), x[10], cospi_spec(32), x[13]),
        hb(-cospi_spec(32), x[11], cospi_spec(32), x[12]),
        hb(cospi_spec(32), x[11], cospi_spec(32), x[12]),
        hb(cospi_spec(32), x[10], cospi_spec(32), x[13]),
        x[14],
        x[15],
        clamp_spec(x[16] + x[23], r),
        clamp_spec(x[17] + x[22], r),
        clamp_spec(x[18] + x[21], r),
        clamp_spec(x[19] + x[20], r),
        clamp_spec(x[19] - x[20], r),
        clamp_spec(x[18] - x[21], r),
        clamp_spec(x[17] - x[22], r),
        clamp_spec(x[16] - x[23], r),
        clamp_spec(-x[24] + x[31], r),
        clamp_spec(-x[25] + x[30], r),
        clamp_spec(-x[26] + x[29], r),
        clamp_spec(-x[27] + x[28], r),
        clamp_spec(x[27] + x[28], r),
        clamp_spec(x[26] + x[29], r),
        clamp_spec(x[25] + x[30], r),
        clamp_spec(x[24] + x[31], r),
    ]
}

/// The high half of stage 7 of the 64-point inverse DCT butterfly network.
pub open spec fn idct64_step7_hi(x: Seq<int>, r: nat) -> Seq<int> {
    seq![
        x[32],
        x[33],
        x[34],
        x[35],
        hb(-cospi_spec(16), x[36], cospi_spec(48), x[59]),
        hb(-cospi_spec(16), x[37], cospi_spec(48), x[58]),
        hb(-cospi_spec(16), x[38], cospi_spec(48), x[57]),
        hb(-cospi_spec(16), x[39], cospi_spec(48), x[56]),
        hb(-cospi_spec(48), x[40], -cospi_spec(16), x[55]),
        hb(-cospi_spec(48), x[41], -cospi_spec(16), x[54]),
        hb(-cospi_spec(48), x[42], -cospi_spec(16), x[53]),
        hb(-cospi_spec(48), x[43], -cospi_spec(16), x[52]),
        x[44],
        x[45],
        x[46],
        x[47],
        x[48],
        x[49],
        x[50],
        x[51],
        hb(-cospi_spec(16), x[43], cospi_spec(48), x[52]),
        hb(-cospi_spec(16), x[42], cospi_spec(48), x[53]),
        hb(-cospi_spec(16), x[41], cospi_spec(48), x[54]),
        hb(-cospi_spec(16), x[40], cospi_spec(48), x[55]),
        hb(cospi_spec(48), x[39], cospi_spec(16), x[56]),
        hb(cospi_spec(48), x[38], cospi_spec(16), x[57]),
        hb(cospi_spec(48), x[37], cospi_spec(16), x[58]),
        hb(cospi_spec(48), x[36], cospi_spec(16), x[59]),
        x[60],
        x[61],
        x[62],
        x[63],
    ]
}

/// Stage 7 of the 64-point inverse DCT butterfly network.
pub open spec fn idct64_step7(x: Seq<int>, r: nat) -> Seq<int> {
    idct64_step7_lo(x, r) + idct64_step7_hi(x, r)
}

/// The low half of stage 8 of the 64-point inverse DCT butterfly network.
pub open spec fn idct64_step8_lo(x: Seq<int>, r: nat) -> Seq<int> {
    seq![
        clamp_spec(x[0] + x[15], r),
        clamp_spec(x[1] + x[14], r),
        clamp_spec(x[2] + x[13], r),
        clamp_spec(x[3] + x[12], r),
        clamp_spec(x[4] + x[11], r),
        clamp_spec(x[5] + x[10], r),
        clamp_spec(x[6] + x[9], r),
        clamp_spec(x[7] + x[8], r),
        clamp_spec(x[7] - x[8], r),
        clamp_spec(x[6] - x[9], r),
        clamp_spec(x[5] - x[10], r),
        clamp_spec(x[4] - x[11], r),
        clamp_spec(x[3] - x[12], r),
        clamp_spec(x[2] - x[13], r),
        clamp_spec(x[1] - x[14], r),
        clamp_spec(x[0] - x[15], r),
        x[16],
        x[17],
        x[18],
        x[19],
        hb(-cospi_spec(32), x[20], cospi_spec(32), x[27]),
        hb(-cospi_spec(32), x[21], cospi_spec(32), x[26]),
        hb(-cospi_spec(32), x[22], cospi_spec(32), x[25]),
        hb(-cospi_spec(32), x[23], cospi_spec(32), x[24]),
        hb(cospi_spec(32), x[23], cospi_spec(32), x[24]),
        hb(cospi_spec(32), x[22], cospi_spec(32), x[25]),
        hb(cospi_spec(32), x[21], cospi_spec(32), x[26]),
        hb(cospi_spec(32), x[20], cospi_spec(32), x[27]),
        x[28],
        x[29],
        x[30],
        x[31],
    ]
}

/// The high half of stage 8 of the 64-point inverse DCT butterfly network.
pub open spec fn idct64_step8_hi(x: Seq<int>, r: nat) -> Seq<int> {
    seq![
        clamp_spec(x[32] + x[47], r),
        clamp_spec(x[33] + x[46], r),
        clamp_spec(x[34] + x[45], r),
        clamp_spec(x[35] + x[44], r),
        clamp_spec(x[36] + x[43], r),
        clamp_spec(x[37] + x[42], r),
        clamp_spec(x[38] + x[41], r),
        clamp_spec(x[39] + x[40], r),
        clamp_spec(x[39] - x[40], r),
        clamp_spec(x[38] - x[41], r),
        clamp_spec(x[37] - x[42], r),
        clamp_spec(x[36] - x[43], r),
        clamp_spec(x[35] - x[44], r),
        clamp_spec(x[34] - x[45], r),
        clamp_spec(x[33] - x[46], r),
        clamp_spec(x[32] - x[47], r),
        clamp_spec(-x[48] + x[63], r),
        clamp_spec(-x[49] + x[62], r),
        clamp_spec(-x[50] + x[61], r),
        clamp_spec(-x[51] + x[60], r),
        clamp_spec(-x[52] + x[59], r),
        clamp_spec(-x[53] + x[58], r),
        clamp_spec(-x[54] + x[57], r),
        clamp_spec(-x[55] + x[56], r),
        clamp_spec(x[55] + x[56], r),
        clamp_spec(x[54] + x[57], r),
        clamp_spec(x[53] + x[58], r),
        clamp_spec(x[52] + x[59], r),
        clamp_spec(x[51] + x[60], r),
        clamp_spec(x[50] + x[61], r),
        clamp_spec(x[49] + x[62], r),
        clamp_spec(x[48] + x[63], r),
    ]
}

/// Stage 8 of the 64-point inverse DCT butterfly network.
pub open spec fn idct64_step8(x: Seq<int>, r: nat) -> Seq<int> {
    idct64_step8_lo(x, r) + idct64_step8_hi(x, r)
}

/// The low half of stage 9 of the 64-point inverse DCT butterfly network.
pub open spec fn idct64_step9_lo(x: Seq<int>, r: nat) -> Seq<int> {
    seq![
        clamp_spec(x[0] + x[31], r),
        clamp_spec(x[1] + x[30], r),
        clamp_spec(x[2] + x[29], r),
        clamp_spec(x[3] + x[28], r),
        clamp_spec(x[4] + x[27], r),
        clamp_spec(x[5] + x[26], r),
        clamp_spec(x[6] + x[25], r),
        clamp_spec(x[7] + x[24], r),
        clamp_spec(x[8] + x[23], r),
        clamp_spec(x[9] + x[22], r),
        clamp_spec(x[10] + x[21], r),
        clamp_spec(x[11] + x[20], r),
        clamp_spec(x[12] + x[19], r),
        clamp_spec(x[13] + x[18], r),
        clamp_spec(x[14] + x[17], r),
        clamp_spec(x[15] + x[16], r),
        clamp_spec(x[15] - x[16], r),
        clamp_spec(x[14] - x[17], r),
        clamp_spec(x[13] - x[18], r),
        clamp_spec(x[12] - x[19], r),
        clamp_spec(x[11] - x[20], r),
        clamp_spec(x[10] - x[21], r),
        clamp_spec(x[9] - x[22], r),
        clamp_spec(x[8] - x[23], r),
        clamp_spec(x[7] - x[24], r),
        clamp_spec(x[6] - x[25], r),
        clamp_spec(x[5] - x[26], r),
        clamp_spec(x[4] - x[27], r),
        clamp_spec(x[3] - x[28], r),
        clamp_spec(x[2] - x[29], r),
        clamp_spec(x[1] - x[30], r),
        clamp_spec(x[0] - x[31], r),
    ]
}

/// The high half of stage 9 of the 64-point inverse DCT butterfly network.
pub open spec fn idct64_step9_hi(x: Seq<int>, r: nat) -> Seq<int> {
    seq![
        x[32],
        x[33],
        x[34],
        x[35],
        x[36],
        x[37],
        x[38],
        x[39],
        hb(-cospi_spec(32), x[40], cospi_spec(32), x[55]),
        hb(-cospi_spec(32), x[41], cospi_spec(32), x[54]),
        hb(-cospi_spec(32), x[42], cospi_spec(32), x[53]),
        hb(-cospi_spec(32), x[43], cospi_spec(32), x[52]),
        hb(-cospi_spec(32), x[44], cospi_spec(32), x[51]),
        hb(-cospi_spec(32), x[45], cospi_spec(32), x[50]),
        hb(-cospi_spec(32), x[46], cospi_spec(32), x[49]),
        hb(-cospi_spec(32), x[47], cospi_spec(32), x[48]),
        hb(cospi_spec(32), x[47], cospi_spec(32), x[48]),
        hb(cospi_spec(32), x[46], cospi_spec(32), x[49]),
        hb(cospi_spec(32), x[45], cospi_spec(32), x[50]),
        hb(cospi_spec(32), x[44], cospi_spec(32), x[51]),
        hb(cospi_spec(32), x[43], cospi_spec(32), x[52]),
        hb(cospi_spec(32), x[42], cospi_spec(32), x[53]),
        hb(cospi_spec(32), x[41], cospi_spec(32), x[54]),
        hb(cospi_spec(32), x[40], cospi_spec(32), x[55]),
        x[56],
        x[57],
        x[58],
        x[59],
        x[60],
        x[61],
        x[62],
        x[63],
    ]
}

/// Stage 9 of the 64-point inverse DCT butterfly network.
pub open spec fn idct64_step9(x: Seq<int>, r: nat) -> Seq<int> {
    idct64_step9_lo(x, r) + idct64_step9_hi(x, r)
}

/// The low half of stage 10 of the 64-point inverse DCT butterfly network.
pub open spec fn idct64_step10_lo(x: Seq<int>, r: nat) -> Seq<int> {
    seq![
        clamp_spec(x[0] + x[63], r),
        clamp_spec(x[1] + x[62], r),
        clamp_spec(x[2] + x[61], r),
        clamp_spec(x[3] + x[60], r),
        clamp_spec(x[4] + x[59], r),
        clamp_spec(x[5] + x[58], r),
        clamp_spec(x[6] + x[57], r),
        clamp_spec(x[7] + x[56], r),
        clamp_spec(x[8] + x[55], r),
        clamp_spec(x[9] + x[54], r),
        clamp_spec(x[10] + x[53], r),
        clamp_spec(x[11] + x[52], r),
        clamp_spec(x[12] + x[51], r),
        clamp_spec(x[13] + x[50], r),
        clamp_spec(x[14] + x[49], r),
        clamp_spec(x[15] + x[48], r),
        clamp_spec(x[16] + x[47], r),
        clamp_spec(x[17] + x[46], r),
        clamp_spec(x[18] + x[45], r),
        clamp_spec(x[19] + x[44], r),
        clamp_spec(x[20] + x[43], r),
        clamp_spec(x[21] + x[42], r),
        clamp_spec(x[22] + x[41], r),
        clamp_spec(x[23] + x[40], r),
        clamp_spec(x[24] + x[39], r),
        clamp_spec(x[25] + x[38], r),
        clamp_spec(x[26] + x[37], r),
        clamp_spec(x[27] + x[36], r),
        clamp_spec(x[28] + x[35], r),
        clamp_spec(x[29] + x[34], r),
        clamp_spec(x[30] + x[33], r),
        clamp_spec(x[31] + x[32], r),
    ]
}

/// The high half of stage 10 of the 64-point inverse DCT butterfly network.
pub open spec fn idct64_step10_hi(x: Seq<int>, r: nat) -> Seq<int> {
    seq![
        clamp_spec(x[31] - x[32], r),
        clamp_spec(x[30] - x[33], r),
        clamp_spec(x[29] - x[34], r),
        clamp_spec(x[28] - x[35], r),
        clamp_spec(x[27] - x[36], r),
        clamp_spec(x[26] - x[37], r),
        clamp_spec(x[25] - x[38], r),
        clamp_spec(x[24] - x[39], r),
        clamp_spec(x[23] - x[40], r),
        clamp_spec(x[22] - x[41], r),
        clamp_spec(x[21] - x[42], r),
        clamp_spec(x[20] - x[43], r),
        clamp_spec(x[19] - x[44], r),
        clamp_spec(x[18] - x[45], r),
        clamp_spec(x[17] - x[46], r),
        clamp_spec(x[16] - x[47], r),
        clamp_spec(x[15] - x[48], r),
        clamp_spec(x[14] - x[49], r),
        clamp_spec(x[13] - x[50], r),
        clamp_spec(x[12] - x[51], r),
        clamp_spec(x[11] - x[52], r),
        clamp_spec(x[10] - x[53], r),
        clamp_spec(x[9] - x[54], r),
        clamp_spec(x[8] - x[55], r),
        clamp_spec(x[7] - x[56], r),
        clamp_spec(x[6] - x[57], r),
        clamp_spec(x[5] - x[58], r),
        clamp_spec(x[4] - x[59], r),
        clamp_spec(x[3] - x[60], r),
        clamp_spec(x[2] - x[61], r),
        clamp_spec(x[1] - x[62], r),
        clamp_spec(x[0] - x[63], r),
    ]
}

/// Stage 10 of the 64-point inverse DCT butterfly network.
pub open spec fn idct64_step10(x: Seq<int>, r: nat) -> Seq<int> {
    idct64_step10_lo(x, r) + idct64_step10_hi(x, r)
}

/// The 64-point inverse DCT butterfly network.
pub open spec fn idct64_spec(x: Seq<int>, r: nat) -> Seq<int> {
    idct64_step10(idct64_step9(idct64_step8(idct64_step7(idct64_step6(idct64_step5(idct64_step4(idct64_step3(idct64_step2(idct64_step1(idct64_step0_lo(x) + idct64_step0_hi(x), r), r), r), r), r), r), r), r), r), r)
}

/// The low half of stage 1 of the 64-point inverse DCT.
fn dct64_stage1_lo(lo: &[i32; 32], hi: &[i32; 32], r: u8) -> (y: [i32; 32])
    requires
        16 <= r <= 20,
        bounded(lo@, 524288),
        bounded(hi@, 524288),
    ensures
        bounded(y@, 1048577),
        ints(y@) == idct64_step1_lo(ints(lo@) + ints(hi@), r as nat),
{
    proof {
        lemma_kernel_limit(r as nat);
        assert(forall|j: int| 0 <= j < 32 ==> -524288 <= #[trigger] lo[j] <= 524288);
        assert(forall|j: int| 0 <= j < 32 ==> -524288 <= #[trigger] hi[j] <= 524288);
    }
    let B: u8 = 12;
    let y = [
        lo[0],
        lo[1],
        lo[2],
        lo[3],
        lo[4],
        lo[5],
        lo[6],
        lo[7],
        lo[8],
        lo[9],
        lo[10],
        lo[11],
        lo[12],
        lo[13],
        lo[14],
        lo[15],
        lo[16],
        lo[17],
        lo[18],
        lo[19],
        lo[20],
        lo[21],
        lo[22],
        lo[23],
        lo[24],
        lo[25],
        lo[26],
        lo[27],
        lo[28],
        lo[29],
        lo[30],
        lo[31],
    ];
    proof {
        assert(-1048577 <= y[0] <= 1048577);
        assert(-1048577 <= y[1] <= 1048577);
        assert(-1048577 <= y[2] <= 1048577);
        assert(-1048577 <= y[3] <= 1048577);
        assert(-1048577 <= y[4] <= 1048577);
        assert(-1048577 <= y[5] <= 1048577);
        assert(-1048577 <= y[6] <= 1048577);
        assert(-1048577 <= y[7] <= 1048577);
        assert(-1048577 <= y[8] <= 1048577);
        assert(-1048577 <= y[9] <= 1048577);
        assert(-1048577 <= y[10] <= 1048577);
        assert(-1048577 <= y[11] <= 1048577);
        assert(-1048577 <= y[12] <= 1048577);
        assert(-1048577 <= y[13] <= 1048577);
        assert(-1048577 <= y[14] <= 1048577);
        assert(-1048577 <= y[15] <= 1048577);
        assert(-1048577 <= y[16] <= 1048577);
        assert(-1048577 <= y[17] <= 1048577);
        assert(-1048577 <= y[18] <= 1048577);
        assert(-1048577 <= y[19] <= 1048577);
        assert(-1048577 <= y[20] <= 1048577);
        assert(-1048577 <= y[21] <= 1048577);
        assert(-1048577 <= y[22] <= 1048577);
        assert(-1048577 <= y[23] <= 1048577);
        assert(-1048577 <= y[24] <= 1048577);
        assert(-1048577 <= y[25] <= 1048577);
        assert(-1048577 <= y[26] <= 1048577);
        assert(-1048577 <= y[27] <= 1048577);
        assert(-1048577 <= y[28] <= 1048577);
        assert(-1048577 <= y[29] <= 1048577);
        assert(-1048577 <= y[30] <= 1048577);
        assert(-1048577 <= y[31] <= 1048577);
    }
    assert(ints(y@) =~= idct64_step1_lo(ints(lo@) + ints(hi@), r as nat));
    y
}

/// The high half of stage 1 of the 64-point inverse DCT.
fn dct64_stage1_hi(lo: &[i32; 32], hi: &[i32; 32], r: u8) -> (y: [i32; 32])
    requires
        16 <= r <= 20,
        bounded(lo@, 524288),
        bounded(hi@, 524288),
    ensures
        bounded(y@, 1048577),
        ints(y@) == idct64_step1_hi(ints(lo@) + ints(hi@), r as nat),
{
    proof {
        lemma_kernel_limit(r as nat);
        assert(forall|j: int| 0 <= j < 32 ==> -524288 <= #[trigger] lo[j] <= 524288);
        assert(forall|j: int| 0 <= j < 32 ==> -524288 <= #[trigger] hi[j] <= 524288);
    }
    let B: u8 = 12;
    let y = [
        half_btf(cospi(63), hi[0], -cospi(1), hi[31], B),
        half_btf(cospi(31), hi[1], -cospi(33), hi[30], B),
        half_btf(cospi(47), hi[2], -cospi(17), hi[29], B),
        half_btf(cospi(15), hi[3], -cospi(49), hi[28], B),
        half_btf(cospi(55), hi[4], -cospi(9), hi[27], B),
        half_btf(cospi(23), hi[5], -cospi(41), hi[26], B),
        half_btf(cospi(39), hi[6], -cospi(25), hi[25], B),
        half_btf(cospi(7), hi[7], -cospi(57), hi[24], B),
        half_btf(cospi(59), hi[8], -cospi(5), hi[23], B),
        half_btf(cospi(27), hi[9], -cospi(37), hi[22], B),
        half_btf(cospi(43), hi[10], -cospi(21), hi[21], B),
        half_btf(cospi(11), hi[11], -cospi(53), hi[20], B),
        half_btf(cospi(51), hi[12], -cospi(13), hi[19], B),
        half_btf(cospi(19), hi[13], -cospi(45), hi[18], B),
        half_btf(cospi(35), hi[14], -cospi(29), hi[17], B),
        half_btf(cospi(3), hi[15], -cospi(61), hi[16], B),
        half_btf(cospi(61), hi[15], cospi(3), hi[16], B),
        half_btf(cospi(29), hi[14], cospi(35), hi[17], B),
        half_btf(cospi(45), hi[13], cospi(19), hi[18], B),
        half_btf(cospi(13), hi[12], cospi(51), hi[19], B),
        half_btf(cospi(53), hi[11], cospi(11), hi[20], B),
        half_btf(cospi(21), hi[10], cospi(43), hi[21], B),
        half_btf(cospi(37), hi[9], cospi(27), hi[22], B),
        half_btf(cospi(5), hi[8], cospi(59), hi[23], B),
        half_btf(cospi(57), hi[7], cospi(7), hi[24], B),
        half_btf(cospi(25), hi[6], cospi(39), hi[25], B),
        half_btf(cospi(41), hi[5], cospi(23), hi[26], B),
        half_btf(cospi(9), hi[4], cospi(55), hi[27], B),
        half_btf(cospi(49), hi[3], cospi(15), hi[28], B),
        half_btf(cospi(17), hi[2], cospi(47), hi[29], B),
        half_btf(cospi(33), hi[1], cospi(31), hi[30], B),
        half_btf(cospi(1), hi[0], cospi(63), hi[31], B),
    ];
    proof {
        assert(-1048577 <= y[0] <= 1048577);
        assert(-1048577 <= y[1] <= 1048577);
        assert(-1048577 <= y[2] <= 1048577);
        assert(-1048577 <= y[3] <= 1048577);
        assert(-1048577 <= y[4] <= 1048577);
        assert(-1048577 <= y[5] <= 1048577);
        assert(-1048577 <= y[6] <= 1048577);
        assert(-1048577 <= y[7] <= 1048577);
        assert(-1048577 <= y[8] <= 1048577);
        assert(-1048577 <= y[9] <= 1048577);
        assert(-1048577 <= y[10] <= 1048577);
        assert(-1048577 <= y[11] <= 1048577);
        assert(-1048577 <= y[12] <= 1048577);
        assert(-1048577 <= y[13] <= 1048577);
        assert(-1048577 <= y[14] <= 1048577);
        assert(-1048577 <= y[15] <= 1048577);
        assert(-1048577 <= y[16] <= 1048577);
        assert(-1048577 <= y[17] <= 1048577);
        assert(-1048577 <= y[18] <= 1048577);
        assert(-1048577 <= y[19] <= 1048577);
        assert(-1048577 <= y[20] <= 1048577);
        assert(-1048577 <= y[21] <= 1048577);
        assert(-1048577 <= y[22] <= 1048577);
        assert(-1048577 <= y[23] <= 1048577);
        assert(-1048577 <= y[24] <= 1048577);
        assert(-1048577 <= y[25] <= 1048577);
        assert(-1048577 <= y[26] <= 1048577);
        assert(-1048577 <= y[27] <= 1048577);
        assert(-1048577 <= y[28] <= 1048577);
        assert(-1048577 <= y[29] <= 1048577);
        assert(-1048577 <= y[30] <= 1048577);
        assert(-1048577 <= y[31] <= 1048577);
    }
    assert(ints(y@) =~= idct64_step1_hi(ints(lo@) + ints(hi@), r as nat));
    y
}

/// The low half of stage 2 of the 64-point inverse DCT.
fn dct64_stage2_lo(lo: &[i32; 32], hi: &[i32; 32], r: u8) -> (y: [i32; 32])
    requires
        16 <= r <= 20,
        bounded(lo@, 1048577),
        bounded(hi@, 1048577),
    ensures
        bounded(y@, 2097155),
        ints(y@) == idct64_step2_lo(ints(lo@) + ints(hi@), r as nat),
{
    proof {
        lemma_kernel_limit(r as nat);
        assert(forall|j: int| 0 <= j < 32 ==> -1048577 <= #[trigger] lo[j] <= 1048577);
        assert(forall|j: int| 0 <= j < 32 ==> -1048577 <= #[trigger] hi[j] <= 1048577);
    }
    let B: u8 = 12;
    let y = [
        lo[0],
        lo[1],
        lo[2],
        lo[3],
        lo[4],
        lo[5],
        lo[6],
        lo[7],
        lo[8],
        lo[9],
        lo[10],
        lo[11],
        lo[12],
        lo[13],
        lo[14],
        lo[15],
        half_btf(cospi(62), lo[16], -cospi(2), lo[31], B),
        half_btf(cospi(30), lo[17], -cospi(34), lo[30], B),
        half_btf(cospi(46), lo[18], -cospi(18), lo[29], B),
        half_btf(cospi(14), lo[19], -cospi(50), lo[28], B),
        half_btf(cospi(54), lo[20], -cospi(10), lo[27], B),
        half_btf(cospi(22), lo[21], -cospi(42), lo[26], B),
        half_btf(cospi(38), lo[22], -cospi(26), lo[25], B),
        half_btf(cospi(6), lo[23], -cospi(58), lo[24], B),
        half_btf(cospi(58), lo[23], cospi(6), lo[24], B),
        half_btf(cospi(26), lo[22], cospi(38), lo[25], B),
        half_btf(cospi(42), lo[21], cospi(22), lo[26], B),
        half_btf(cospi(10), lo[20], cospi(54), lo[27], B),
        half_btf(cospi(50), lo[19], cospi(14), lo[28], B),
        half_btf(cospi(18), lo[18], cospi(46), lo[29], B),
        half_btf(cospi(34), lo[17], cospi(30), lo[30], B),
        half_btf(cospi(2), lo[16], cospi(62), lo[31], B),
    ];
    proof {
        assert(-2097155 <= y[0] <= 2097155);
        assert(-2097155 <= y[1] <= 2097155);
        assert(-2097155 <= y[2] <= 2097155);
        assert(-2097155 <= y[3] <= 2097155);
        assert(-2097155 <= y[4] <= 2097155);
        assert(-2097155 <= y[5] <= 2097155);
        assert(-2097155 <= y[6] <= 2097155);
        assert(-2097155 <= y[7] <= 2097155);
        assert(-2097155 <= y[8] <= 2097155);
        assert(-2097155 <= y[9] <= 2097155);
        assert(-2097155 <= y[10] <= 2097155);
        assert(-2097155 <= y[11] <= 2097155);
        assert(-2097155 <= y[12] <= 2097155);
        assert(-2097155 <= y[13] <= 2097155);
        assert(-2097155 <= y[14] <= 2097155);
        assert(-2097155 <= y[15] <= 2097155);
        assert(-2097155 <= y[16] <= 2097155);
        assert(-2097155 <= y[17] <= 2097155);
        assert(-2097155 <= y[18] <= 2097155);
        assert(-2097155 <= y[19] <= 2097155);
        assert(-2097155 <= y[20] <= 2097155);
        assert(-2097155 <= y[21] <= 2097155);
        assert(-2097155 <= y[22] <= 2097155);
        assert(-2097155 <= y[23] <= 2097155);
        assert(-2097155 <= y[24] <= 2097155);
        assert(-2097155 <= y[25] <= 2097155);
        assert(-2097155 <= y[26] <= 2097155);
        assert(-2097155 <= y[27] <= 2097155);
        assert(-2097155 <= y[28] <= 2097155);
        assert(-2097155 <= y[29] <= 2097155);
        assert(-2097155 <= y[30] <= 2097155);
        assert(-2097155 <= y[31] <= 2097155);
    }
    assert(ints(y@) =~= idct64_step2_lo(ints(lo@) + ints(hi@), r as nat));
    y
}

/// The high half of stage 2 of the 64-point inverse DCT.
fn dct64_stage2_hi(lo: &[i32; 32], hi: &[i32; 32], r: u8) -> (y: [i32; 32])
    requires
        16 <= r <= 20,
        bounded(lo@, 1048577),
        bounded(hi@, 1048577),
    ensures
        bounded(y@, 2097155),
        ints(y@) == idct64_step2_hi(ints(lo@) + ints(hi@), r as nat),
{
    proof {
        lemma_kernel_limit(r as nat);
        assert(forall|j: int| 0 <= j < 32 ==> -1048577 <= #[trigger] lo[j] <= 1048577);
        assert(forall|j: int| 0 <= j < 32 ==> -1048577 <= #[trigger] hi[j] <= 1048577);
    }
    let B: u8 = 12;
    let y = [
        clamp_signed(hi[0] + hi[1], r),
        clamp_signed(hi[0] - hi[1], r),
        clamp_signed(-hi[2] + hi[3], r),
        clamp_signed(hi[2] + hi[3], r),
        clamp_signed(hi[4] + hi[5], r),
        clamp_signed(hi[4] - hi[5], r),
        clamp_signed(-hi[6] + hi[7], r),
        clamp_signed(hi[6] + hi[7], r),
        clamp_signed(hi[8] + hi[9], r),
        clamp_signed(hi[8] - hi[9], r),
        clamp_signed(-hi[10] + hi[11], r),
        clamp_signed(hi[10] + hi[11], r),
        clamp_signed(hi[12] + hi[13], r),
        clamp_signed(hi[12] - hi[13], r),
        clamp_signed(-hi[14] + hi[15], r),
        clamp_signed(hi[14] + hi[15], r),
        clamp_signed(hi[16] + hi[17], r),
        clamp_signed(hi[16] - hi[17], r),
        clamp_signed(-hi[18] + hi[19], r),
        clamp_signed(hi[18] + hi[19], r),
        clamp_signed(hi[20] + hi[21], r),
        clamp_signed(hi[20] - hi[21], r),
        clamp_signed(-hi[22] + hi[23], r),
        clamp_signed(hi[22] + hi[23], r),
        clamp_signed(hi[24] + hi[25], r),
        clamp_signed(hi[24] - hi[25], r),
        clamp_signed(-hi[26] + hi[27], r),
        clamp_signed(hi[26] + hi[27], r),
        clamp_signed(hi[28] + hi[29], r),
        clamp_signed(hi[28] - hi[29], r),
        clamp_signed(-hi[30] + hi[31], r),
        clamp_signed(hi[30] + hi[31], r),
    ];
    proof {
        assert(-2097155 <= y[0] <= 2097155);
        assert(-2097155 <= y[1] <= 2097155);
        assert(-2097155 <= y[2] <= 2097155);
        assert(-2097155 <= y[3] <= 2097155);
        assert(-2097155 <= y[4] <= 2097155);
        assert(-2097155 <= y[5] <= 2097155);
        assert(-2097155 <= y[6] <= 2097155);
        assert(-2097155 <= y[7] <= 2097155);
        assert(-2097155 <= y[8] <= 2097155);
        assert(-2097155 <= y[9] <= 2097155);
        assert(-2097155 <= y[10] <= 2097155);
        assert(-2097155 <= y[11] <= 2097155);
        assert(-2097155 <= y[12] <= 2097155);
        assert(-2097155 <= y[13] <= 2097155);
        assert(-2097155 <= y[14] <= 2097155);
        assert(-2097155 <= y[15] <= 2097155);
        assert(-2097155 <= y[16] <= 2097155);
        assert(-2097155 <= y[17] <= 2097155);
        assert(-2097155 <= y[18] <= 2097155);
        assert(-2097155 <= y[19] <= 2097155);
        assert(-2097155 <= y[20] <= 2097155);
        assert(-2097155 <= y[21] <= 2097155);
        assert(-2097155 <= y[22] <= 2097155);
        assert(-2097155 <= y[23] <= 2097155);
        assert(-2097155 <= y[24] <= 2097155);
        assert(-2097155 <= y[25] <= 2097155);
        assert(-2097155 <= y[26] <= 2097155);
        assert(-2097155 <= y[27] <= 2097155);
        assert(-2097155 <= y[28] <= 2097155);
        assert(-2097155 <= y[29] <= 2097155);
        assert(-2097155 <= y[30] <= 2097155);
        assert(-2097155 <= y[31] <= 2097155);
    }
    assert(ints(y@) =~= idct64_step2_hi(ints(lo@) + ints(hi@), r as nat));
    y
}

/// The low half of stage 3 of the 64-point inverse DCT.
fn dct64_stage3_lo(lo: &[i32; 32], hi: &[i32; 32], r: u8) -> (y: [i32; 32])
    requires
        16 <= r <= 20,
        bounded(lo@, 2097155),
        bounded(hi@, 2097155),
    ensures
        bounded(y@, 4194311),
        ints(y@) == idct64_step3_lo(ints(lo@) + ints(hi@), r as nat),
{
    proof {
        lemma_kernel_limit(r as nat);
        assert(forall|j: int| 0 <= j < 32 ==> -2097155 <= #[trigger] lo[j] <= 2097155);
        assert(forall|j: int| 0 <= j < 32 ==> -2097155 <= #[trigger] hi[j] <= 2097155);
    }
    let B: u8 = 12;
    let y = [
        lo[0],
        lo[1],
        lo[2],
        lo[3],
        lo[4],
        lo[5],
        lo[6],
        lo[7],
        half_btf(cospi(60), lo[8], -cospi(4), lo[15], B),
        half_btf(cospi(28), lo[9], -cospi(36), lo[14], B),
        half_btf(cospi(44), lo[10], -cospi(20), lo[13], B),
        half_btf(cospi(12), lo[11], -cospi(52), lo[12], B),
        half_btf(cospi(52), lo[11], cospi(12), lo[12], B),
        half_btf(cospi(20), lo[10], cospi(44), lo[13], B),
        half_btf(cospi(36), lo[9], cospi(28), lo[14], B),
        half_btf(cospi(4), lo[8], cospi(60), lo[15], B),
        clamp_signed(lo[16] + lo[17], r),
        clamp_signed(lo[16] - lo[17], r),
        clamp_signed(-lo[18] + lo[19], r),
        clamp_signed(lo[18] + lo[19], r),
        clamp_signed(lo[20] + lo[21], r),
        clamp_signed(lo[20] - lo[21], r),
        clamp_signed(-lo[22] + lo[23], r),
        clamp_signed(lo[22] + lo[23], r),
        clamp_signed(lo[24] + lo[25], r),
        clamp_signed(lo[24] - lo[25], r),
        clamp_signed(-lo[26] + lo[27], r),
        clamp_signed(lo[26] + lo[27], r),
        clamp_signed(lo[28] + lo[29], r),
        clamp_signed(lo[28] - lo[29], r),
        clamp_signed(-lo[30] + lo[31], r),
        clamp_signed(lo[30] + lo[31], r),
    ];
    proof {
        assert(-4194311 <= y[0] <= 4194311);
        assert(-4194311 <= y[1] <= 4194311);
        assert(-4194311 <= y[2] <= 4194311);
        assert(-4194311 <= y[3] <= 4194311);
        assert(-4194311 <= y[4] <= 4194311);
        assert(-4194311 <= y[5] <= 4194311);
        assert(-4194311 <= y[6] <= 4194311);
        assert(-4194311 <= y[7] <= 4194311);
        assert(-4194311 <= y[8] <= 4194311);
        assert(-4194311 <= y[9] <= 4194311);
        assert(-4194311 <= y[10] <= 4194311);
        assert(-4194311 <= y[11] <= 4194311);
        assert(-4194311 <= y[12] <= 4194311);
        assert(-4194311 <= y[13] <= 4194311);
        assert(-4194311 <= y[14] <= 4194311);
        assert(-4194311 <= y[15] <= 4194311);
        assert(-4194311 <= y[16] <= 4194311);
        assert(-4194311 <= y[17] <= 4194311);
        assert(-4194311 <= y[18] <= 4194311);
        assert(-4194311 <= y[19] <= 4194311);
        assert(-4194311 <= y[20] <= 4194311);
        assert(-4194311 <= y[21] <= 4194311);
        assert(-4194311 <= y[22] <= 4194311);
        assert(-4194311 <= y[23] <= 4194311);
        assert(-4194311 <= y[24] <= 4194311);
        assert(-4194311 <= y[25] <= 4194311);
        assert(-4194311 <= y[26] <= 4194311);
        assert(-4194311 <= y[27] <= 4194311);
        assert(-4194311 <= y[28] <= 4194311);
        assert(-4194311 <= y[29] <= 4194311);
        assert(-4194311 <= y[30] <= 4194311);
        assert(-4194311 <= y[31] <= 4194311);
    }
    assert(ints(y@) =~= idct64_step3_lo(ints(lo@) + ints(hi@), r as nat));
    y
}

/// The high half of stage 3 of the 64-point inverse DCT.
fn dct64_stage3_hi(lo: &[i32; 32], hi: &[i32; 32], r: u8) -> (y: [i32; 32])
    requires
        16 <= r <= 20,
        bounded(lo@, 2097155),
        bounded(hi@, 2097155),
    ensures
        bounded(y@, 4194311),
        ints(y@) == idct64_step3_hi(ints(lo@) + ints(hi@), r as nat),
{
    proof {
        lemma_kernel_limit(r as nat);
        assert(forall|j: int| 0 <= j < 32 ==> -2097155 <= #[trigger] lo[j] <= 2097155);
        assert(forall|j: int| 0 <= j < 32 ==> -2097155 <= #[trigger] hi[j] <= 2097155);
    }
    let B: u8 = 12;
    let y = [
        hi[0],
        half_btf(-cospi(4), hi[1], cospi(60), hi[30], B),
        half_btf(-cospi(60), hi[2], -cospi(4), hi[29], B),
        hi[3],
        hi[4],
        half_btf(-cospi(36), hi[5], cospi(28), hi[26], B),
        half_btf(-cospi(28), hi[6], -cospi(36), hi[25], B),
        hi[7],
        hi[8],
        half_btf(-cospi(20), hi[9], cospi(44), hi[22], B),
        half_btf(-cospi(44), hi[10], -cospi(20), hi[21], B),
        hi[11],
        hi[12],
        half_btf(-cospi(52), hi[13], cospi(12), hi[18], B),
        half_btf(-cospi(12), hi[14], -cospi(52), hi[17], B),
        hi[15],
        hi[16],
        half_btf(-cospi(52), hi[14], cospi(12), hi[17], B),
        half_btf(cospi(12), hi[13], cospi(52), hi[18], B),
        hi[19],
        hi[20],
        half_btf(-cospi(20), hi[10], cospi(44), hi[21], B),
        half_btf(cospi(44), hi[9], cospi(20), hi[22], B),
        hi[23],
        hi[24],
        half_btf(-cospi(36), hi[6], cospi(28), hi[25], B),
        half_btf(cospi(28), hi[5], cospi(36), hi[26], B),
        hi[27],
        hi[28],
        half_btf(-cospi(4), hi[2], cospi(60), hi[29], B),
        half_btf(cospi(60), hi[1], cospi(4), hi[30], B),
        hi[31],
    ];
    proof {
        assert(-4194311 <= y[0] <= 4194311);
        assert(-4194311 <= y[1] <= 4194311);
        assert(-4194311 <= y[2] <= 4194311);
        assert(-4194311 <= y[3] <= 4194311);
        assert(-4194311 <= y[4] <= 4194311);
        assert(-4194311 <= y[5] <= 4194311);
        assert(-4194311 <= y[6] <= 4194311);
        assert(-4194311 <= y[7] <= 4194311);
        assert(-4194311 <= y[8] <= 4194311);
        assert(-4194311 <= y[9] <= 4194311);
        assert(-4194311 <= y[10] <= 4194311);
        assert(-4194311 <= y[11] <= 4194311);
        assert(-4194311 <= y[12] <= 4194311);
        assert(-4194311 <= y[13] <= 4194311);
        assert(-4194311 <= y[14] <= 4194311);
        assert(-4194311 <= y[15] <= 4194311);
        assert(-4194311 <= y[16] <= 4194311);
        assert(-4194311 <= y[17] <= 4194311);
        assert(-4194311 <= y[18] <= 4194311);
        assert(-4194311 <= y[19] <= 4194311);
        assert(-4194311 <= y[20] <= 4194311);
        assert(-4194311 <= y[21] <= 4194311);
        assert(-4194311 <= y[22] <= 4194311);
        assert(-4194311 <= y[23] <= 4194311);
        assert(-4194311 <= y[24] <= 4194311);
        assert(-4194311 <= y[25] <= 4194311);
        assert(-4194311 <= y[26] <= 4194311);
        assert(-4194311 <= y[27] <= 4194311);
        assert(-4194311 <= y[28] <= 4194311);
        assert(-4194311 <= y[29] <= 4194311);
        assert(-4194311 <= y[30] <= 4194311);
        assert(-4194311 <= y[31] <= 4194311);
    }
    assert(ints(y@) =~= idct64_step3_hi(ints(lo@) + ints(hi@), r as nat));
    y
}

/// The low half of stage 4 of the 64-point inverse DCT.
fn dct64_stage4_lo(lo: &[i32; 32], hi: &[i32; 32], r: u8) -> (y: [i32; 32])
    requires
        16 <= r <= 20,
        bounded(lo@, 4194311),
        bounded(hi@, 4194311),
    ensures
        bounded(y@, 8388623),
        ints(y@) == idct64_step4_lo(ints(lo@) + ints(hi@), r as nat),
{
    proof {
        lemma_kernel_limit(r as nat);
        assert(forall|j: int| 0 <= j < 32 ==> -4194311 <= #[trigger] lo[j] <= 4194311);
        assert(forall|j: int| 0 <= j < 32 ==> -4194311 <= #[trigger] hi[j] <= 4194311);
    }
    let B: u8 = 12;
    let y = [
        lo[0],
        lo[1],
        lo[2],
        lo[3],
        half_btf(cospi(56), lo[4], -cospi(8), lo[7], B),
        half_btf(cospi(24), lo[5], -cospi(40), lo[6], B),
        half_btf(cospi(40), lo[5], cospi(24), lo[6], B),
        half_btf(cospi(8), lo[4], cospi(56), lo[7], B),
        clamp_signed(lo[8] + lo[9], r),
        clamp_signed(lo[8] - lo[9], r),
        clamp_signed(-lo[10] + lo[11], r),
        clamp_signed(lo[10] + lo[11], r),
        clamp_signed(lo[12] + lo[13], r),
        clamp_signed(lo[12] - lo[13], r),
        clamp_signed(-lo[14] + lo[15], r),
        clamp_signed(lo[14] + lo[15], r),
        lo[16],
        half_btf(-cospi(8), lo[17], cospi(56), lo[30], B),
        half_btf(-cospi(56), lo[18], -cospi(8), lo[29], B),
        lo[19],
        lo[20],
        half_btf(-cospi(40), lo[21], cospi(24), lo[26], B),
        half_btf(-cospi(24), lo[22], -cospi(40), lo[25], B),
        lo[23],
        lo[24],
        half_btf(-cospi(40), lo[22], cospi(24), lo[25], B),
        half_btf(cospi(24), lo[21], cospi(40), lo[26], B),
        lo[27],
        lo[28],
        half_btf(-cospi(8), lo[18], cospi(56), lo[29], B),
        half_btf(cospi(56), lo[17], cospi(8), lo[30], B),
        lo[31],
    ];
    proof {
        assert(-8388623 <= y[0] <= 8388623);
        assert(-8388623 <= y[1] <= 8388623);
        assert(-8388623 <= y[2] <= 8388623);
        assert(-8388623 <= y[3] <= 8388623);
        assert(-8388623 <= y[4] <= 8388623);
        assert(-8388623 <= y[5] <= 8388623);
        assert(-8388623 <= y[6] <= 8388623);
        assert(-8388623 <= y[7] <= 8388623);
        assert(-8388623 <= y[8] <= 8388623);
        assert(-8388623 <= y[9] <= 8388623);
        assert(-8388623 <= y[10] <= 8388623);
        assert(-8388623 <= y[11] <= 8388623);
        assert(-8388623 <= y[12] <= 8388623);
        assert(-8388623 <= y[13] <= 8388623);
        assert(-8388623 <= y[14] <= 8388623);
        assert(-8388623 <= y[15] <= 8388623);
        assert(-8388623 <= y[16] <= 8388623);
        assert(-8388623 <= y[17] <= 8388623);
        assert(-8388623 <= y[18] <= 8388623);
        assert(-8388623 <= y[19] <= 8388623);
        assert(-8388623 <= y[20] <= 8388623);
        assert(-8388623 <= y[21] <= 8388623);
        assert(-8388623 <= y[22] <= 8388623);
        assert(-8388623 <= y[23] <= 8388623);
        assert(-8388623 <= y[24] <= 8388623);
        assert(-8388623 <= y[25] <= 8388623);
        assert(-8388623 <= y[26] <= 8388623);
        assert(-8388623 <= y[27] <= 8388623);
        assert(-8388623 <= y[28] <= 8388623);
        assert(-8388623 <= y[29] <= 8388623);
        assert(-8388623 <= y[30] <= 8388623);
        assert(-8388623 <= y[31] <= 8388623);
    }
    assert(ints(y@) =~= idct64_step4_lo(ints(lo@) + ints(hi@), r as nat));
    y
}

/// The high half of stage 4 of the 64-point inverse DCT.
fn dct64_stage4_hi(lo: &[i32; 32], hi: &[i32; 32], r: u8) -> (y: [i32; 32])
    requires
        16 <= r <= 20,
        bounded(lo@, 4194311),
        bounded(hi@, 4194311),
    ensures
        bounded(y@, 8388623),
        ints(y@) == idct64_step4_hi(ints(lo@) + ints(hi@), r as nat),
{
    proof {
        lemma_kernel_limit(r as nat);
        assert(forall|j: int| 0 <= j < 32 ==> -4194311 <= #[trigger] lo[j] <= 4194311);
        assert(forall|j: int| 0 <= j < 32 ==> -4194311 <= #[trigger] hi[j] <= 4194311);
    }
    let B: u8 = 12;
    let y = [
        clamp_signed(hi[0] + hi[3], r),
        clamp_signed(hi[1] + hi[2], r),
        clamp_signed(hi[1] - hi[2], r),
        clamp_signed(hi[0] - hi[3], r),
        clamp_signed(-hi[4] + hi[7], r),
        clamp_signed(-hi[5] + hi[6], r),
        clamp_signed(hi[5] + hi[6], r),
        clamp_signed(hi[4] + hi[7], r),
        clamp_signed(hi[8] + hi[11], r),
        clamp_signed(hi[9] + hi[10], r),
        clamp_signed(hi[9] - hi[10], r),
        clamp_signed(hi[8] - hi[11], r),
        clamp_signed(-hi[12] + hi[15], r),
        clamp_signed(-hi[13] + hi[14], r),
        clamp_signed(hi[13] + hi[14], r),
        clamp_signed(hi[12] + hi[15], r),
        clamp_signed(hi[16] + hi[19], r),
        clamp_signed(hi[17] + hi[18], r),
        clamp_signed(hi[17] - hi[18], r),
        clamp_signed(hi[16] - hi[19], r),
        clamp_signed(-hi[20] + hi[23], r),
        clamp_signed(-hi[21] + hi[22], r),
        clamp_signed(hi[21] + hi[22], r),
        clamp_signed(hi[20] + hi[23], r),
        clamp_signed(hi[24] + hi[27], r),
        clamp_signed(hi[25] + hi[26], r),
        clamp_signed(hi[25] - hi[26], r),
        clamp_signed(hi[24] - hi[27], r),
        clamp_signed(-hi[28] + hi[31], r),
        clamp_signed(-hi[29] + hi[30], r),
        clamp_signed(hi[29] + hi[30], r),
        clamp_signed(hi[28] + hi[31], r),
    ];
    proof {
        assert(-8388623 <= y[0] <= 8388623);
        assert(-8388623 <= y[1] <= 8388623);
        assert(-8388623 <= y[2] <= 8388623);
        assert(-8388623 <= y[3] <= 8388623);
        assert(-8388623 <= y[4] <= 8388623);
        assert(-8388623 <= y[5] <= 8388623);
        assert(-8388623 <= y[6] <= 8388623);
        assert(-8388623 <= y[7] <= 8388623);
        assert(-8388623 <= y[8] <= 8388623);
        assert(-8388623 <= y[9] <= 8388623);
        assert(-8388623 <= y[10] <= 8388623);
        assert(-8388623 <= y[11] <= 8388623);
        assert(-8388623 <= y[12] <= 8388623);
        assert(-8388623 <= y[13] <= 8388623);
        assert(-8388623 <= y[14] <= 8388623);
        assert(-8388623 <= y[15] <= 8388623);
        assert(-8388623 <= y[16] <= 8388623);
        assert(-8388623 <= y[17] <= 8388623);
        assert(-8388623 <= y[18] <= 8388623);
        assert(-8388623 <= y[19] <= 8388623);
        assert(-8388623 <= y[20] <= 8388623);
        assert(-8388623 <= y[21] <= 8388623);
        assert(-8388623 <= y[22] <= 8388623);
        assert(-8388623 <= y[23] <= 8388623);
        assert(-8388623 <= y[24] <= 8388623);
        assert(-8388623 <= y[25] <= 8388623);
        assert(-8388623 <= y[26] <= 8388623);
        assert(-8388623 <= y[27] <= 8388623);
        assert(-8388623 <= y[28] <= 8388623);
        assert(-8388623 <= y[29] <= 8388623);
        assert(-8388623 <= y[30] <= 8388623);
        assert(-8388623 <= y[31] <= 8388623);
    }
    assert(ints(y@) =~= idct64_step4_hi(ints(lo@) + ints(hi@), r as nat));
    y
}

/// The low half of stage 5 of the 64-point inverse DCT.
fn dct64_stage5_lo(lo: &[i32; 32], hi: &[i32; 32], r: u8) -> (y: [i32; 32])
    requires
        16 <= r <= 20,
        bounded(lo@, 8388623),
        bounded(hi@, 8388623),
    ensures
        bounded(y@, 16777247),
        ints(y@) == idct64_step5_lo(ints(lo@) + ints(hi@), r as nat),
{
    proof {
        lemma_kernel_limit(r as nat);
        assert(forall|j: int| 0 <= j < 32 ==> -8388623 <= #[trigger] lo[j] <= 8388623);
        assert(forall|j: int| 0 <= j < 32 ==> -8388623 <= #[trigger] hi[j] <= 8388623);
    }
    let B: u8 = 12;
    let y = [
        half_btf(cospi(32), lo[0], cospi(32), lo[1], B),
        half_btf(cospi(32), lo[0], -cospi(32), lo[1], B),
        half_btf(cospi(48), lo[2], -cospi(16), lo[3], B),
        half_btf(cospi(16), lo[2], cospi(48), lo[3], B),
        clamp_signed(lo[4] + lo[5], r),
        clamp_signed(lo[4] - lo[5], r),
        clamp_signed(-lo[6] + lo[7], r),
        clamp_signed(lo[6] + lo[7], r),
        lo[8],
        half_btf(-cospi(16), lo[9], cospi(48), lo[14], B),
        half_btf(-cospi(48), lo[10], -cospi(16), lo[13], B),
        lo[11],
        lo[12],
        half_btf(-cospi(16), lo[10], cospi(48), lo[13], B),
        half_btf(cospi(48), lo[9], cospi(16), lo[14], B),
        lo[15],
        clamp_signed(lo[16] + lo[19], r),
        clamp_signed(lo[17] + lo[18], r),
        clamp_signed(lo[17] - lo[18], r),
        clamp_signed(lo[16] - lo[19], r),
        clamp_signed(-lo[20] + lo[23], r),
        clamp_signed(-lo[21] + lo[22], r),
        clamp_signed(lo[21] + lo[22], r),
        clamp_signed(lo[20] + lo[23], r),
        clamp_signed(lo[24] + lo[27], r),
        clamp_signed(lo[25] + lo[26], r),
        clamp_signed(lo[25] - lo[26], r),
        clamp_signed(lo[24] - lo[27], r),
        clamp_signed(-lo[28] + lo[31], r),
        clamp_signed(-lo[29] + lo[30], r),
        clamp_signed(lo[29] + lo[30], r),
        clamp_signed(lo[28] + lo[31], r),
    ];
    proof {
        assert(-16777247 <= y[0] <= 16777247);
        assert(-16777247 <= y[1] <= 16777247);
        assert(-16777247 <= y[2] <= 16777247);
        assert(-16777247 <= y[3] <= 16777247);
        assert(-16777247 <= y[4] <= 16777247);
        assert(-16777247 <= y[5] <= 16777247);
        assert(-16777247 <= y[6] <= 16777247);
        assert(-16777247 <= y[7] <= 16777247);
        assert(-16777247 <= y[8] <= 16777247);
        assert(-16777247 <= y[9] <= 16777247);
        assert(-16777247 <= y[10] <= 16777247);
        assert(-16777247 <= y[11] <= 16777247);
        assert(-16777247 <= y[12] <= 16777247);
        assert(-16777247 <= y[13] <= 16777247);
        assert(-16777247 <= y[14] <= 16777247);
        assert(-16777247 <= y[15] <= 16777247);
        assert(-16777247 <= y[16] <= 16777247);
        assert(-16777247 <= y[17] <= 16777247);
        assert(-16777247 <= y[18] <= 16777247);
        assert(-16777247 <= y[19] <= 16777247);
        assert(-16777247 <= y[20] <= 16777247);
        assert(-16777247 <= y[21] <= 16777247);
        assert(-16777247 <= y[22] <= 16777247);
        assert(-16777247 <= y[23] <= 16777247);
        assert(-16777247 <= y[24] <= 16777247);
        assert(-16777247 <= y[25] <= 16777247);
        assert(-16777247 <= y[26] <= 16777247);
        assert(-16777247 <= y[27] <= 16777247);
        assert(-16777247 <= y[28] <= 16777247);
        assert(-16777247 <= y[29] <= 16777247);
        assert(-16777247 <= y[30] <= 16777247);
        assert(-16777247 <= y[31] <= 16777247);
    }
    assert(ints(y@) =~= idct64_step5_lo(ints(lo@) + ints(hi@), r as nat));
    y
}

/// The high half of stage 5 of the 64-point inverse DCT.
fn dct64_stage5_hi(lo: &[i32; 32], hi: &[i32; 32], r: u8) -> (y: [i32; 32])
    requires
        16 <= r <= 20,
        bounded(lo@, 8388623),
        bounded(hi@, 8388623),
    ensures
        bounded(y@, 16777247),
        ints(y@) == idct64_step5_hi(ints(lo@) + ints(hi@), r as nat),
{
    proof {
        lemma_kernel_limit(r as nat);
        assert(forall|j: int| 0 <= j < 32 ==> -8388623 <= #[trigger] lo[j] <= 8388623);
        assert(forall|j: int| 0 <= j < 32 ==> -8388623 <= #[trigger] hi[j] <= 8388623);
    }
    let B: u8 = 12;
    let y = [
        hi[0],
        hi[1],
        half_btf(-cospi(8), hi[2], cospi(56), hi[29], B),
        half_btf(-cospi(8), hi[3], cospi(56), hi[28], B),
        half_btf(-cospi(56), hi[4], -cospi(8), hi[27], B),
        half_btf(-cospi(56), hi[5], -cospi(8), hi[26], B),
        hi[6],
        hi[7],
        hi[8],
        hi[9],
        half_btf(-cospi(40), hi[10], cospi(24), hi[21], B),
        half_btf(-cospi(40), hi[11], cospi(24), hi[20], B),
        half_btf(-cospi(24), hi[12], -cospi(40), hi[19], B),
        half_btf(-cospi(24), hi[13], -cospi(40), hi[18], B),
        hi[14],
        hi[15],
        hi[16],
        hi[17],
        half_btf(-cospi(40), hi[13], cospi(24), hi[18], B),
        half_btf(-cospi(40), hi[12], cospi(24), hi[19], B),
        half_btf(cospi(24), hi[11], cospi(40), hi[20], B),
        half_btf(cospi(24), hi[10], cospi(40), hi[21], B),
        hi[22],
        hi[23],
        hi[24],
        hi[25],
        half_btf(-cospi(8), hi[5], cospi(56), hi[26], B),
        half_btf(-cospi(8), hi[4], cospi(56), hi[27], B),
        half_btf(cospi(56), hi[3], cospi(8), hi[28], B),
        half_btf(cospi(56), hi[2], cospi(8), hi[29], B),
        hi[30],
        hi[31],
    ];
    proof {
        assert(-16777247 <= y[0] <= 16777247);
        assert(-16777247 <= y[1] <= 16777247);
        assert(-16777247 <= y[2] <= 16777247);
        assert(-16777247 <= y[3] <= 16777247);
        assert(-16777247 <= y[4] <= 16777247);
        assert(-16777247 <= y[5] <= 16777247);
        assert(-16777247 <= y[6] <= 16777247);
        assert(-16777247 <= y[7] <= 16777247);
        assert(-16777247 <= y[8] <= 16777247);
        assert(-16777247 <= y[9] <= 16777247);
        assert(-16777247 <= y[10] <= 16777247);
        assert(-16777247 <= y[11] <= 16777247);
        assert(-16777247 <= y[12] <= 16777247);
        assert(-16777247 <= y[13] <= 16777247);
        assert(-16777247 <= y[14] <= 16777247);
        assert(-16777247 <= y[15] <= 16777247);
        assert(-16777247 <= y[16] <= 16777247);
        assert(-16777247 <= y[17] <= 16777247);
        assert(-16777247 <= y[18] <= 16777247);
        assert(-16777247 <= y[19] <= 16777247);
        assert(-16777247 <= y[20] <= 16777247);
        assert(-16777247 <= y[21] <= 16777247);
        assert(-16777247 <= y[22] <= 16777247);
        assert(-16777247 <= y[23] <= 16777247);
        assert(-16777247 <= y[24] <= 16777247);
        assert(-16777247 <= y[25] <= 16777247);
        assert(-16777247 <= y[26] <= 16777247);
        assert(-16777247 <= y[27] <= 16777247);
        assert(-16777247 <= y[28] <= 16777247);
        assert(-16777247 <= y[29] <= 16777247);
        assert(-16777247 <= y[30] <= 16777247);
        assert(-16777247 <= y[31] <= 16777247);
    }
    assert(ints(y@) =~= idct64_step5_hi(ints(lo@) + ints(hi@), r as nat));
    y
}

/// The low half of stage 6 of the 64-point inverse DCT.
fn dct64_stage6_lo(lo: &[i32; 32], hi: &[i32; 32], r: u8) -> (y: [i32; 32])
    requires
        16 <= r <= 20,
        bounded(lo@, 16777247),
        bounded(hi@, 16777247),
    ensures
        bounded(y@, 33554495),
        ints(y@) == idct64_step6_lo(ints(lo@) + ints(hi@), r as nat),
{
    proof {
        lemma_kernel_limit(r as nat);
        assert(forall|j: int| 0 <= j < 32 ==> -16777247 <= #[trigger] lo[j] <= 16777247);
        assert(forall|j: int| 0 <= j < 32 ==> -16777247 <= #[trigger] hi[j] <= 16777247);
    }
    let B: u8 = 12;
    let y = [
        clamp_signed(lo[0] + lo[3], r),
        clamp_signed(lo[1] + lo[2], r),
        clamp_signed(lo[1] - lo[2], r),
        clamp_signed(lo[0] - lo[3], r),
        lo[4],
        half_btf(-cospi(32), lo[5], cospi(32), lo[6], B),
        half_btf(cospi(32), lo[5], cospi(32), lo[6], B),
        lo[7],
        clamp_signed(lo[8] + lo[11], r),
        clamp_signed(lo[9] + lo[10], r),
        clamp_signed(lo[9] - lo[10], r),
        clamp_signed(lo[8] - lo[11], r),
        clamp_signed(-lo[12] + lo[15], r),
        clamp_signed(-lo[13] + lo[14], r),
        clamp_signed(lo[13] + lo[14], r),
        clamp_signed(lo[12] + lo[15], r),
        lo[16],
        lo[17],
        half_btf(-cospi(16), lo[18], cospi(48), lo[29], B),
        half_btf(-cospi(16), lo[19], cospi(48), lo[28], B),
        half_btf(-cospi(48), lo[20], -cospi(16), lo[27], B),
        half_btf(-cospi(48), lo[21], -cospi(16), lo[26], B),
        lo[22],
        lo[23],
        lo[24],
        lo[25],
        half_btf(-cospi(16), lo[21], cospi(48), lo[26], B),
        half_btf(-cospi(16), lo[20], cospi(48), lo[27], B),
        half_btf(cospi(48), lo[19], cospi(16), lo[28], B),
        half_btf(cospi(48), lo[18], cospi(16), lo[29], B),
        lo[30],
        lo[31],
    ];
    proof {
        assert(-33554495 <= y[0] <= 33554495);
        assert(-33554495 <= y[1] <= 33554495);
        assert(-33554495 <= y[2] <= 33554495);
        assert(-33554495 <= y[3] <= 33554495);
        assert(-33554495 <= y[4] <= 33554495);
        assert(-33554495 <= y[5] <= 33554495);
        assert(-33554495 <= y[6] <= 33554495);
        assert(-33554495 <= y[7] <= 33554495);
        assert(-33554495 <= y[8] <= 33554495);
        assert(-33554495 <= y[9] <= 33554495);
        assert(-33554495 <= y[10] <= 33554495);
        assert(-33554495 <= y[11] <= 33554495);
        assert(-33554495 <= y[12] <= 33554495);
        assert(-33554495 <= y[13] <= 33554495);
        assert(-33554495 <= y[14] <= 33554495);
        assert(-33554495 <= y[15] <= 33554495);
        assert(-33554495 <= y[16] <= 33554495);
        assert(-33554495 <= y[17] <= 33554495);
        assert(-33554495 <= y[18] <= 33554495);
        assert(-33554495 <= y[19] <= 33554495);
        assert(-33554495 <= y[20] <= 33554495);
        assert(-33554495 <= y[21] <= 33554495);
        assert(-33554495 <= y[22] <= 33554495);
        assert(-33554495 <= y[23] <= 33554495);
        assert(-33554495 <= y[24] <= 33554495);
        assert(-33554495 <= y[25] <= 33554495);
        assert(-33554495 <= y[26] <= 33554495);
        assert(-33554495 <= y[27] <= 33554495);
        assert(-33554495 <= y[28] <= 33554495);
        assert(-33554495 <= y[29] <= 33554495);
        assert(-33554495 <= y[30] <= 33554495);
        assert(-33554495 <= y[31] <= 33554495);
    }
    assert(ints(y@) =~= idct64_step6_lo(ints(lo@) + ints(hi@), r as nat));
    y
}

/// The high half of stage 6 of the 64-point inverse DCT.
fn dct64_stage6_hi(lo: &[i32; 32], hi: &[i32; 32], r: u8) -> (y: [i32; 32])
    requires
        16 <= r <= 20,
        bounded(lo@, 16777247),
        bounded(hi@, 16777247),
    ensures
        bounded(y@, 33554495),
        ints(y@) == idct64_step6_hi(ints(lo@) + ints(hi@), r as nat),
{
    proof {
        lemma_kernel_limit(r as nat);
        assert(forall|j: int| 0 <= j < 32 ==> -16777247 <= #[trigger] lo[j] <= 16777247);
        assert(forall|j: int| 0 <= j < 32 ==> -16777247 <= #[trigger] hi[j] <= 16777247);
    }
    let B: u8 = 12;
    let y = [
        clamp_signed(hi[0] + hi[7], r),
        clamp_signed(hi[1] + hi[6], r),
        clamp_signed(hi[2] + hi[5], r),
        clamp_signed(hi[3] + hi[4], r),
        clamp_signed(hi[3] - hi[4], r),
        clamp_signed(hi[2] - hi[5], r),
        clamp_signed(hi[1] - hi[6], r),
        clamp_signed(hi[0] - hi[7], r),
        clamp_signed(-hi[8] + hi[15], r),
        clamp_signed(-hi[9] + hi[14], r),
        clamp_signed(-hi[10] + hi[13], r),
        clamp_signed(-hi[11] + hi[12], r),
        clamp_signed(hi[11] + hi[12], r),
        clamp_signed(hi[10] + hi[13], r),
        clamp_signed(hi[9] + hi[14], r),
        clamp_signed(hi[8] + hi[15], r),
        clamp_signed(hi[16] + hi[23], r),
        clamp_signed(hi[17] + hi[22], r),
        clamp_signed(hi[18] + hi[21], r),
        clamp_signed(hi[19] + hi[20], r),
        clamp_signed(hi[19] - hi[20], r),
        clamp_signed(hi[18] - hi[21], r),
        clamp_signed(hi[17] - hi[22], r),
        clamp_signed(hi[16] - hi[23], r),
        clamp_signed(-hi[24] + hi[31], r),
        clamp_signed(-hi[25] + hi[30], r),
        clamp_signed(-hi[26] + hi[29], r),
        clamp_signed(-hi[27] + hi[28], r),
        clamp_signed(hi[27] + hi[28], r),
        clamp_signed(hi[26] + hi[29], r),
        clamp_signed(hi[25] + hi[30], r),
        clamp_signed(hi[24] + hi[31], r),
    ];
    proof {
        assert(-33554495 <= y[0] <= 33554495);
        assert(-33554495 <= y[1] <= 33554495);
        assert(-33554495 <= y[2] <= 33554495);
        assert(-33554495 <= y[3] <= 33554495);
        assert(-33554495 <= y[4] <= 33554495);
        assert(-33554495 <= y[5] <= 33554495);
        assert(-33554495 <= y[6] <= 33554495);
        assert(-33554495 <= y[7] <= 33554495);
        assert(-33554495 <= y[8] <= 33554495);
        assert(-33554495 <= y[9] <= 33554495);
        assert(-33554495 <= y[10] <= 33554495);
        assert(-33554495 <= y[11] <= 33554495);
        assert(-33554495 <= y[12] <= 33554495);
        assert(-33554495 <= y[13] <= 33554495);
        assert(-33554495 <= y[14] <= 33554495);
        assert(-33554495 <= y[15] <= 33554495);
        assert(-33554495 <= y[16] <= 33554495);
        assert(-33554495 <= y[17] <= 33554495);
        assert(-33554495 <= y[18] <= 33554495);
        assert(-33554495 <= y[19] <= 33554495);
        assert(-33554495 <= y[20] <= 33554495);
        assert(-33554495 <= y[21] <= 33554495);
        assert(-33554495 <= y[22] <= 33554495);
        assert(-33554495 <= y[23] <= 33554495);
        assert(-33554495 <= y[24] <= 33554495);
        assert(-33554495 <= y[25] <= 33554495);
        assert(-33554495 <= y[26] <= 33554495);
        assert(-33554495 <= y[27] <= 33554495);
        assert(-33554495 <= y[28] <= 33554495);
        assert(-33554495 <= y[29] <= 33554495);
        assert(-33554495 <= y[30] <= 33554495);
        assert(-33554495 <= y[31] <= 33554495);
    }
    assert(ints(y@) =~= idct64_step6_hi(ints(lo@) + ints(hi@), r as nat));
    y
}

/// The low half of stage 7 of the 64-point inverse DCT.
fn dct64_stage7_lo(lo: &[i32; 32], hi: &[i32; 32], r: u8) -> (y: [i32; 32])
    requires
        16 <= r <= 20,
        bounded(lo@, 33554495),
        bounded(hi@, 33554495),
    ensures
        bounded(y@, 67108991),
        ints(y@) == idct64_step7_lo(ints(lo@) + ints(hi@), r as nat),
{
    proof {
        lemma_kernel_limit(r as nat);
        assert(forall|j: int| 0 <= j < 32 ==> -33554495 <= #[trigger] lo[j] <= 33554495);
        assert(forall|j: int| 0 <= j < 32 ==> -33554495 <= #[trigger] hi[j] <= 33554495);
    }
    let B: u8 = 12;
    let y = [
        clamp_signed(lo[0] + lo[7], r),
        clamp_signed(lo[1] + lo[6], r),
        clamp_signed(lo[2] + lo[5], r),
        clamp_signed(lo[3] + lo[4], r),
        clamp_signed(lo[3] - lo[4], r),
        clamp_signed(lo[2] - lo[5], r),
        clamp_signed(lo[1] - lo[6], r),
        clamp_signed(lo[0] - lo[7], r),
        lo[8],
        lo[9],
        half_btf(-cospi(32), lo[10], cospi(32), lo[13], B),
        half_btf(-cospi(32), lo[11], cospi(32), lo[12], B),
        half_btf(cospi(32), lo[11], cospi(32), lo[12], B),
        half_btf(cospi(32), lo[10], cospi(32), lo[13], B),
        lo[14],
        lo[15],
        clamp_signed(lo[16] + lo[23], r),
        clamp_signed(lo[17] + lo[22], r),
        clamp_signed(lo[18] + lo[21], r),
        clamp_signed(lo[19] + lo[20], r),
        clamp_signed(lo[19] - lo[20], r),
        clamp_signed(lo[18] - lo[21], r),
        clamp_signed(lo[17] - lo[22], r),
        clamp_signed(lo[16] - lo[23], r),
        clamp_signed(-lo[24] + lo[31], r),
        clamp_signed(-lo[25] + lo[30], r),
        clamp_signed(-lo[26] + lo[29], r),
        clamp_signed(-lo[27] + lo[28], r),
        clamp_signed(lo[27] + lo[28], r),
        clamp_signed(lo[26] + lo[29], r),
        clamp_signed(lo[25] + lo[30], r),
        clamp_signed(lo[24] + lo[31], r),
    ];
    proof {
        assert(-67108991 <= y[0] <= 67108991);
        assert(-67108991 <= y[1] <= 67108991);
        assert(-67108991 <= y[2] <= 67108991);
        assert(-67108991 <= y[3] <= 67108991);
        assert(-67108991 <= y[4] <= 67108991);
        assert(-67108991 <= y[5] <= 67108991);
        assert(-67108991 <= y[6] <= 67108991);
        assert(-67108991 <= y[7] <= 67108991);
        assert(-67108991 <= y[8] <= 67108991);
        assert(-67108991 <= y[9] <= 67108991);
        assert(-67108991 <= y[10] <= 67108991);
        assert(-67108991 <= y[11] <= 67108991);
        assert(-67108991 <= y[12] <= 67108991);
        assert(-67108991 <= y[13] <= 67108991);
        assert(-67108991 <= y[14] <= 67108991);
        assert(-67108991 <= y[15] <= 67108991);
        assert(-67108991 <= y[16] <= 67108991);
        assert(-67108991 <= y[17] <= 67108991);
        assert(-67108991 <= y[18] <= 67108991);
        assert(-67108991 <= y[19] <= 67108991);
        assert(-67108991 <= y[20] <= 67108991);
        assert(-67108991 <= y[21] <= 67108991);
        assert(-67108991 <= y[22] <= 67108991);
        assert(-67108991 <= y[23] <= 67108991);
        assert(-67108991 <= y[24] <= 67108991);
        assert(-67108991 <= y[25] <= 67108991);
        assert(-67108991 <= y[26] <= 67108991);
        assert(-67108991 <= y[27] <= 67108991);
        assert(-67108991 <= y[28] <= 67108991);
        assert(-67108991 <= y[29] <= 67108991);
        assert(-67108991 <= y[30] <= 67108991);
        assert(-67108991 <= y[31] <= 67108991);
    }
    assert(ints(y@) =~= idct64_step7_lo(ints(lo@) + ints(hi@), r as nat));
    y
}

/// The high half of stage 7 of the 64-point inverse DCT.
fn dct64_stage7_hi(lo: &[i32; 32], hi: &[i32; 32], r: u8) -> (y: [i32; 32])
    requires
        16 <= r <= 20,
        bounded(lo@, 33554495),
        bounded(hi@, 33554495),
    ensures
        bounded(y@, 67108991),
        ints(y@) == idct64_step7_hi(ints(lo@) + ints(hi@), r as nat),
{
    proof {
        lemma_kernel_limit(r as nat);
        assert(forall|j: int| 0 <= j < 32 ==> -33554495 <= #[trigger] lo[j] <= 33554495);
        assert(forall|j: int| 0 <= j < 32 ==> -33554495 <= #[trigger] hi[j] <= 33554495);
    }
    let B: u8 = 12;
    let y = [
        hi[0],
        hi[1],
        hi[2],
        hi[3],
        half_btf(-cospi(16), hi[4], cospi(48), hi[27], B),
        half_btf(-cospi(16), hi[5], cospi(48), hi[26], B),
        half_btf(-cospi(16), hi[6], cospi(48), hi[25], B),
        half_btf(-cospi(16), hi[7], cospi(48), hi[24], B),
        half_btf(-cospi(48), hi[8], -cospi(16), hi[23], B),
        half_btf(-cospi(48), hi[9], -cospi(16), hi[22], B),
        half_btf(-cospi(48), hi[10], -cospi(16), hi[21], B),
        half_btf(-cospi(48), hi[11], -cospi(16), hi[20], B),
        hi[12],
        hi[13],
        hi[14],
        hi[15],
        hi[16],
        hi[17],
        hi[18],
        hi[19],
        half_btf(-cospi(16), hi[11], cospi(48), hi[20], B),
        half_btf(-cospi(16), hi[10], cospi(48), hi[21], B),
        half_btf(-cospi(16), hi[9], cospi(48), hi[22], B),
        half_btf(-cospi(16), hi[8], cospi(48), hi[23], B),
        half_btf(cospi(48), hi[7], cospi(16), hi[24], B),
        half_btf(cospi(48), hi[6], cospi(16), hi[25], B),
        half_btf(cospi(48), hi[5], cospi(16), hi[26], B),
        half_btf(cospi(48), hi[4], cospi(16), hi[27], B),
        hi[28],
        hi[29],
        hi[30],
        hi[31],
    ];
    proof {
        assert(-67108991 <= y[0] <= 67108991);
        assert(-67108991 <= y[1] <= 67108991);
        assert(-67108991 <= y[2] <= 67108991);
        assert(-67108991 <= y[3] <= 67108991);
        assert(-67108991 <= y[4] <= 67108991);
        assert(-67108991 <= y[5] <= 67108991);
        assert(-67108991 <= y[6] <= 67108991);
        assert(-67108991 <= y[7] <= 67108991);
        assert(-67108991 <= y[8] <= 67108991);
        assert(-67108991 <= y[9] <= 67108991);
        assert(-67108991 <= y[10] <= 67108991);
        assert(-67108991 <= y[11] <= 67108991);
        assert(-67108991 <= y[12] <= 67108991);
        assert(-67108991 <= y[13] <= 67108991);
        assert(-67108991 <= y[14] <= 67108991);
        assert(-67108991 <= y[15] <= 67108991);
        assert(-67108991 <= y[16] <= 67108991);
        assert(-67108991 <= y[17] <= 67108991);
        assert(-67108991 <= y[18] <= 67108991);
        assert(-67108991 <= y[19] <= 67108991);
        assert(-67108991 <= y[20] <= 67108991);
        assert(-67108991 <= y[21] <= 67108991);
        assert(-67108991 <= y[22] <= 67108991);
        assert(-67108991 <= y[23] <= 67108991);
        assert(-67108991 <= y[24] <= 67108991);
        assert(-67108991 <= y[25] <= 67108991);
        assert(-67108991 <= y[26] <= 67108991);
        assert(-67108991 <= y[27] <= 67108991);
        assert(-67108991 <= y[28] <= 67108991);
        assert(-67108991 <= y[29] <= 67108991);
        assert(-67108991 <= y[30] <= 67108991);
        assert(-67108991 <= y[31] <= 67108991);
    }
    assert(ints(y@) =~= idct64_step7_hi(ints(lo@) + ints(hi@), r as nat));
    y
}

/// The low half of stage 8 of the 64-point inverse DCT.
fn dct64_stage8_lo(lo: &[i32; 32], hi: &[i32; 32], r: u8) -> (y: [i32; 32])
    requires
        16 <= r <= 20,
        bounded(lo@, 67108991),
        bounded(hi@, 67108991),
    ensures
        bounded(y@, 134217983),
        ints(y@) == idct64_step8_lo(ints(lo@) + ints(hi@), r as nat),
{
    proof {
        lemma_kernel_limit(r as nat);
        assert(forall|j: int| 0 <= j < 32 ==> -67108991 <= #[trigger] lo[j] <= 67108991);
        assert(forall|j: int| 0 <= j < 32 ==> -67108991 <= #[trigger] hi[j] <= 67108991);
    }
    let B: u8 = 12;
    let y = [
        clamp_signed(lo[0] + lo[15], r),
        clamp_signed(lo[1] + lo[14], r),
        clamp_signed(lo[2] + lo[13], r),
        clamp_signed(lo[3] + lo[12], r),
        clamp_signed(lo[4] + lo[11], r),
        clamp_signed(lo[5] + lo[10], r),
        clamp_signed(lo[6] + lo[9], r),
        clamp_signed(lo[7] + lo[8], r),
        clamp_signed(lo[7] - lo[8], r),
        clamp_signed(lo[6] - lo[9], r),
        clamp_signed(lo[5] - lo[10], r),
        clamp_signed(lo[4] - lo[11], r),
        clamp_signed(lo[3] - lo[12], r),
        clamp_signed(lo[2] - lo[13], r),
        clamp_signed(lo[1] - lo[14], r),
        clamp_signed(lo[0] - lo[15], r),
        lo[16],
        lo[17],
        lo[18],
        lo[19],
        half_btf(-cospi(32), lo[20], cospi(32), lo[27], B),
        half_btf(-cospi(32), lo[21], cospi(32), lo[26], B),
        half_btf(-cospi(32), lo[22], cospi(32), lo[25], B),
        half_btf(-cospi(32), lo[23], cospi(32), lo[24], B),
        half_btf(cospi(32), lo[23], cospi(32), lo[24], B),
        half_btf(cospi(32), lo[22], cospi(32), lo[25], B),
        half_btf(cospi(32), lo[21], cospi(32), lo[26], B),
        half_btf(cospi(32), lo[20], cospi(32), lo[27], B),
        lo[28],
        lo[29],
        lo[30],
        lo[31],
    ];
    proof {
        assert(-134217983 <= y[0] <= 134217983);
        assert(-134217983 <= y[1] <= 134217983);
        assert(-134217983 <= y[2] <= 134217983);
        assert(-134217983 <= y[3] <= 134217983);
        assert(-134217983 <= y[4] <= 134217983);
        assert(-134217983 <= y[5] <= 134217983);
        assert(-134217983 <= y[6] <= 134217983);
        assert(-134217983 <= y[7] <= 134217983);
        assert(-134217983 <= y[8] <= 134217983);
        assert(-134217983 <= y[9] <= 134217983);
        assert(-134217983 <= y[10] <= 134217983);
        assert(-134217983 <= y[11] <= 134217983);
        assert(-134217983 <= y[12] <= 134217983);
        assert(-134217983 <= y[13] <= 134217983);
        assert(-134217983 <= y[14] <= 134217983);
        assert(-134217983 <= y[15] <= 134217983);
        assert(-134217983 <= y[16] <= 134217983);
        assert(-134217983 <= y[17] <= 134217983);
        assert(-134217983 <= y[18] <= 134217983);
        assert(-134217983 <= y[19] <= 134217983);
        assert(-134217983 <= y[20] <= 134217983);
        assert(-134217983 <= y[21] <= 134217983);
        assert(-134217983 <= y[22] <= 134217983);
        assert(-134217983 <= y[23] <= 134217983);
        assert(-134217983 <= y[24] <= 134217983);
        assert(-134217983 <= y[25] <= 134217983);
        assert(-134217983 <= y[26] <= 134217983);
        assert(-134217983 <= y[27] <= 134217983);
        assert(-134217983 <= y[28] <= 134217983);
        assert(-134217983 <= y[29] <= 134217983);
        assert(-134217983 <= y[30] <= 134217983);
        assert(-134217983 <= y[31] <= 134217983);
    }
    assert(ints(y@) =~= idct64_step8_lo(ints(lo@) + ints(hi@), r as nat));
    y
}

/// The high half of stage 8 of the 64-point inverse DCT.
fn dct64_stage8_hi(lo: &[i32; 32], hi: &[i32; 32], r: u8) -> (y: [i32; 32])
    requires
        16 <= r <= 20,
        bounded(lo@, 67108991),
        bounded(hi@, 67108991),
    ensures
        bounded(y@, 134217983),
        ints(y@) == idct64_step8_hi(ints(lo@) + ints(hi@), r as nat),
{
    proof {
        lemma_kernel_limit(r as nat);
        assert(forall|j: int| 0 <= j < 32 ==> -67108991 <= #[trigger] lo[j] <= 67108991);
        assert(forall|j: int| 0 <= j < 32 ==> -67108991 <= #[trigger] hi[j] <= 67108991);
    }
    let B: u8 = 12;
    let y = [
        clamp_signed(hi[0] + hi[15], r),
        clamp_signed(hi[1] + hi[14], r),
        clamp_signed(hi[2] + hi[13], r),
        clamp_signed(hi[3] + hi[12], r),
        clamp_signed(hi[4] + hi[11], r),
        clamp_signed(hi[5] + hi[10], r),
        clamp_signed(hi[6] + hi[9], r),
        clamp_signed(hi[7] + hi[8], r),
        clamp_signed(hi[7] - hi[8], r),
        clamp_signed(hi[6] - hi[9], r),
        clamp_signed(hi[5] - hi[10], r),
        clamp_signed(hi[4] - hi[11], r),
        clamp_signed(hi[3] - hi[12], r),
        clamp_signed(hi[2] - hi[13], r),
        clamp_signed(hi[1] - hi[14], r),
        clamp_signed(hi[0] - hi[15], r),
        clamp_signed(-hi[16] + hi[31], r),
        clamp_signed(-hi[17] + hi[30], r),
        clamp_signed(-hi[18] + hi[29], r),
        clamp_signed(-hi[19] + hi[28], r),
        clamp_signed(-hi[20] + hi[27], r),
        clamp_signed(-hi[21] + hi[26], r),
        clamp_signed(-hi[22] + hi[25], r),
        clamp_signed(-hi[23] + hi[24], r),
        clamp_signed(hi[23] + hi[24], r),
        clamp_signed(hi[22] + hi[25], r),
        clamp_signed(hi[21] + hi[26], r),
        clamp_signed(hi[20] + hi[27], r),
        clamp_signed(hi[19] + hi[28], r),
        clamp_signed(hi[18] + hi[29], r),
        clamp_signed(hi[17] + hi[30], r),
        clamp_signed(hi[16] + hi[31], r),
    ];
    proof {
        assert(-134217983 <= y[0] <= 134217983);
        assert(-134217983 <= y[1] <= 134217983);
        assert(-134217983 <= y[2] <= 134217983);
        assert(-134217983 <= y[3] <= 134217983);
        assert(-134217983 <= y[4] <= 134217983);
        assert(-134217983 <= y[5] <= 134217983);
        assert(-134217983 <= y[6] <= 134217983);
        assert(-134217983 <= y[7] <= 134217983);
        assert(-134217983 <= y[8] <= 134217983);
        assert(-134217983 <= y[9] <= 134217983);
        assert(-134217983 <= y[10] <= 134217983);
        assert(-134217983 <= y[11] <= 134217983);
        assert(-134217983 <= y[12] <= 134217983);
        assert(-134217983 <= y[13] <= 134217983);
        assert(-134217983 <= y[14] <= 134217983);
        assert(-134217983 <= y[15] <= 134217983);
        assert(-134217983 <= y[16] <= 134217983);
        assert(-134217983 <= y[17] <= 134217983);
        assert(-134217983 <= y[18] <= 134217983);
        assert(-134217983 <= y[19] <= 134217983);
        assert(-134217983 <= y[20] <= 134217983);
        assert(-134217983 <= y[21] <= 134217983);
        assert(-134217983 <= y[22] <= 134217983);
        assert(-134217983 <= y[23] <= 134217983);
        assert(-134217983 <= y[24] <= 134217983);
        assert(-134217983 <= y[25] <= 134217983);
        assert(-134217983 <= y[26] <= 134217983);
        assert(-134217983 <= y[27] <= 134217983);
        assert(-134217983 <= y[28] <= 134217983);
        assert(-134217983 <= y[29] <= 134217983);
        assert(-134217983 <= y[30] <= 134217983);
        assert(-134217983 <= y[31] <= 134217983);
    }
    assert(ints(y@) =~= idct64_step8_hi(ints(lo@) + ints(hi@), r as nat));
    y
}

/// The low half of stage 9 of the 64-point inverse DCT.
fn dct64_stage9_lo(lo: &[i32; 32], hi: &[i32; 32], r: u8) -> (y: [i32; 32])
    requires
        16 <= r <= 20,
        bounded(lo@, 134217983),
        bounded(hi@, 134217983),
    ensures
        bounded(y@, 268435967),
        ints(y@) == idct64_step9_lo(ints(lo@) + ints(hi@), r as nat),
{
    proof {
        lemma_kernel_limit(r as nat);
        assert(forall|j: int| 0 <= j < 32 ==> -134217983 <= #[trigger] lo[j] <= 134217983);
        assert(forall|j: int| 0 <= j < 32 ==> -134217983 <= #[trigger] hi[j] <= 134217983);
    }
    let B: u8 = 12;
    let y = [
        clamp_signed(lo[0] + lo[31], r),
        clamp_signed(lo[1] + lo[30], r),
        clamp_signed(lo[2] + lo[29], r),
        clamp_signed(lo[3] + lo[28], r),
        clamp_signed(lo[4] + lo[27], r),
        clamp_signed(lo[5] + lo[26], r),
        clamp_signed(lo[6] + lo[25], r),
        clamp_signed(lo[7] + lo[24], r),
        clamp_signed(lo[8] + lo[23], r),
        clamp_signed(lo[9] + lo[22], r),
        clamp_signed(lo[10] + lo[21], r),
        clamp_signed(lo[11] + lo[20], r),
        clamp_signed(lo[12] + lo[19], r),
        clamp_signed(lo[13] + lo[18], r),
        clamp_signed(lo[14] + lo[17], r),
        clamp_signed(lo[15] + lo[16], r),
        clamp_signed(lo[15] - lo[16], r),
        clamp_signed(lo[14] - lo[17], r),
        clamp_signed(lo[13] - lo[18], r),
        clamp_signed(lo[12] - lo[19], r),
        clamp_signed(lo[11] - lo[20], r),
        clamp_signed(lo[10] - lo[21], r),
        clamp_signed(lo[9] - lo[22], r),
        clamp_signed(lo[8] - lo[23], r),
        clamp_signed(lo[7] - lo[24], r),
        clamp_signed(lo[6] - lo[25], r),
        clamp_signed(lo[5] - lo[26], r),
        clamp_signed(lo[4] - lo[27], r),
        clamp_signed(lo[3] - lo[28], r),
        clamp_signed(lo[2] - lo[29], r),
        clamp_signed(lo[1] - lo[30], r),
        clamp_signed(lo[0] - lo[31], r),
    ];
    proof {
        assert(-268435967 <= y[0] <= 268435967);
        assert(-268435967 <= y[1] <= 268435967);
        assert(-268435967 <= y[2] <= 268435967);
        assert(-268435967 <= y[3] <= 268435967);
        assert(-268435967 <= y[4] <= 268435967);
        assert(-268435967 <= y[5] <= 268435967);
        assert(-268435967 <= y[6] <= 268435967);
        assert(-268435967 <= y[7] <= 268435967);
        assert(-268435967 <= y[8] <= 268435967);
        assert(-268435967 <= y[9] <= 268435967);
        assert(-268435967 <= y[10] <= 268435967);
        assert(-268435967 <= y[11] <= 268435967);
        assert(-268435967 <= y[12] <= 268435967);
        assert(-268435967 <= y[13] <= 268435967);
        assert(-268435967 <= y[14] <= 268435967);
        assert(-268435967 <= y[15] <= 268435967);
        assert(-268435967 <= y[16] <= 268435967);
        assert(-268435967 <= y[17] <= 268435967);
        assert(-268435967 <= y[18] <= 268435967);
        assert(-268435967 <= y[19] <= 268435967);
        assert(-268435967 <= y[20] <= 268435967);
        assert(-268435967 <= y[21] <= 268435967);
        assert(-268435967 <= y[22] <= 268435967);
        assert(-268435967 <= y[23] <= 268435967);
        assert(-268435967 <= y[24] <= 268435967);
        assert(-268435967 <= y[25] <= 268435967);
        assert(-268435967 <= y[26] <= 268435967);
        assert(-268435967 <= y[27] <= 268435967);
        assert(-268435967 <= y[28] <= 268435967);
        assert(-268435967 <= y[29] <= 268435967);
        assert(-268435967 <= y[30] <= 268435967);
        assert(-268435967 <= y[31] <= 268435967);
    }
    assert(ints(y@) =~= idct64_step9_lo(ints(lo@) + ints(hi@), r as nat));
    y
}

/// The high half of stage 9 of the 64-point inverse DCT.
fn dct64_stage9_hi(lo: &[i32; 32], hi: &[i32; 32], r: u8) -> (y: [i32; 32])
    requires
        16 <= r <= 20,
        bounded(lo@, 134217983),
        bounded(hi@, 134217983),
    ensures
        bounded(y@, 268435967),
        ints(y@) == idct64_step9_hi(ints(lo@) + ints(hi@), r as nat),
{
    proof {
        lemma_kernel_limit(r as nat);
        assert(forall|j: int| 0 <= j < 32 ==> -134217983 <= #[trigger] lo[j] <= 134217983);
        assert(forall|j: int| 0 <= j < 32 ==> -134217983 <= #[trigger] hi[j] <= 134217983);
    }
    let B: u8 = 12;
    let y = [
        hi[0],
        hi[1],
        hi[2],
        hi[3],
        hi[4],
        hi[5],
        hi[6],
        hi[7],
        half_btf(-cospi(32), hi[8], cospi(32), hi[23], B),
        half_btf(-cospi(32), hi[9], cospi(32), hi[22], B),
        half_btf(-cospi(32), hi[10], cospi(32), hi[21], B),
        half_btf(-cospi(32), hi[11], cospi(32), hi[20], B),
        half_btf(-cospi(32), hi[12], cospi(32), hi[19], B),
        half_btf(-cospi(32), hi[13], cospi(32), hi[18], B),
        half_btf(-cospi(32), hi[14], cospi(32), hi[17], B),
        half_btf(-cospi(32), hi[15], cospi(32), hi[16], B),
        half_btf(cospi(32), hi[15], cospi(32), hi[16], B),
        half_btf(cospi(32), hi[14], cospi(32), hi[17], B),
        half_btf(cospi(32), hi[13], cospi(32), hi[18], B),
        half_btf(cospi(32), hi[12], cospi(32), hi[19], B),
        half_btf(cospi(32), hi[11], cospi(32), hi[20], B),
        half_btf(cospi(32), hi[10], cospi(32), hi[21], B),
        half_btf(cospi(32), hi[9], cospi(32), hi[22], B),
        half_btf(cospi(32), hi[8], cospi(32), hi[23], B),
        hi[24],
        hi[25],
        hi[26],
        hi[27],
        hi[28],
        hi[29],
        hi[30],
        hi[31],
    ];
    proof {
        assert(-268435967 <= y[0] <= 268435967);
        assert(-268435967 <= y[1] <= 268435967);
        assert(-268435967 <= y[2] <= 268435967);
        assert(-268435967 <= y[3] <= 268435967);
        assert(-268435967 <= y[4] <= 268435967);
        assert(-268435967 <= y[5] <= 268435967);
        assert(-268435967 <= y[6] <= 268435967);
        assert(-268435967 <= y[7] <= 268435967);
        assert(-268435967 <= y[8] <= 268435967);
        assert(-268435967 <= y[9] <= 268435967);
        assert(-268435967 <= y[10] <= 268435967);
        assert(-268435967 <= y[11] <= 268435967);
        assert(-268435967 <= y[12] <= 268435967);
        assert(-268435967 <= y[13] <= 268435967);
        assert(-268435967 <= y[14] <= 268435967);
        assert(-268435967 <= y[15] <= 268435967);
        assert(-268435967 <= y[16] <= 268435967);
        assert(-268435967 <= y[17] <= 268435967);
        assert(-268435967 <= y[18] <= 268435967);
        assert(-268435967 <= y[19] <= 268435967);
        assert(-268435967 <= y[20] <= 268435967);
        assert(-268435967 <= y[21] <= 268435967);
        assert(-268435967 <= y[22] <= 268435967);
        assert(-268435967 <= y[23] <= 268435967);
        assert(-268435967 <= y[24] <= 268435967);
        assert(-268435967 <= y[25] <= 268435967);
        assert(-268435967 <= y[26] <= 268435967);
        assert(-268435967 <= y[27] <= 268435967);
        assert(-268435967 <= y[28] <= 268435967);
        assert(-268435967 <= y[29] <= 268435967);
        assert(-268435967 <= y[30] <= 268435967);
        assert(-268435967 <= y[31] <= 268435967);
    }
    assert(ints(y@) =~= idct64_step9_hi(ints(lo@) + ints(hi@), r as nat));
    y
}

/// The low half of stage 10 of the 64-point inverse DCT.
fn dct64_stage10_lo(lo: &[i32; 32], hi: &[i32; 32], r: u8) -> (y: [i32; 32])
    requires
        16 <= r <= 20,
        bounded(lo@, 268435967),
        bounded(hi@, 268435967),
    ensures
        bounded(y@, 524288),
        ints(y@) == idct64_step10_lo(ints(lo@) + ints(hi@), r as nat),
{
    proof {
        lemma_kernel_limit(r as nat);
        assert(forall|j: int| 0 <= j < 32 ==> -268435967 <= #[trigger] lo[j] <= 268435967);
        assert(forall|j: int| 0 <= j < 32 ==> -268435967 <= #[trigger] hi[j] <= 268435967);
    }
    let B: u8 = 12;
    let y = [
        clamp_signed(lo[0] + hi[31], r),
        clamp_signed(lo[1] + hi[30], r),
        clamp_signed(lo[2] + hi[29], r),
        clamp_signed(lo[3] + hi[28], r),
        clamp_signed(lo[4] + hi[27], r),
        clamp_signed(lo[5] + hi[26], r),
        clamp_signed(lo[6] + hi[25], r),
        clamp_signed(lo[7] + hi[24], r),
        clamp_signed(lo[8] + hi[23], r),
        clamp_signed(lo[9] + hi[22], r),
        clamp_signed(lo[10] + hi[21], r),
        clamp_signed(lo[11] + hi[20], r),
        clamp_signed(lo[12] + hi[19], r),
        clamp_signed(lo[13] + hi[18], r),
        clamp_signed(lo[14] + hi[17], r),
        clamp_signed(lo[15] + hi[16], r),
        clamp_signed(lo[16] + hi[15], r),
        clamp_signed(lo[17] + hi[14], r),
        clamp_signed(lo[18] + hi[13], r),
        clamp_signed(lo[19] + hi[12], r),
        clamp_signed(lo[20] + hi[11], r),
        clamp_signed(lo[21] + hi[10], r),
        clamp_signed(lo[22] + hi[9], r),
        clamp_signed(lo[23] + hi[8], r),
        clamp_signed(lo[24] + hi[7], r),
        clamp_signed(lo[25] + hi[6], r),
        clamp_signed(lo[26] + hi[5], r),
        clamp_signed(lo[27] + hi[4], r),
        clamp_signed(lo[28] + hi[3], r),
        clamp_signed(lo[29] + hi[2], r),
        clamp_signed(lo[30] + hi[1], r),
        clamp_signed(lo[31] + hi[0], r),
    ];
    proof {
        assert(-524288 <= y[0] <= 524288);
        assert(-524288 <= y[1] <= 524288);
        assert(-524288 <= y[2] <= 524288);
        assert(-524288 <= y[3] <= 524288);
        assert(-524288 <= y[4] <= 524288);
        assert(-524288 <= y[5] <= 524288);
        assert(-524288 <= y[6] <= 524288);
        assert(-524288 <= y[7] <= 524288);
        assert(-524288 <= y[8] <= 524288);
        assert(-524288 <= y[9] <= 524288);
        assert(-524288 <= y[10] <= 524288);
        assert(-524288 <= y[11] <= 524288);
        assert(-524288 <= y[12] <= 524288);
        assert(-524288 <= y[13] <= 524288);
        assert(-524288 <= y[14] <= 524288);
        assert(-524288 <= y[15] <= 524288);
        assert(-524288 <= y[16] <= 524288);
        assert(-524288 <= y[17] <= 524288);
        assert(-524288 <= y[18] <= 524288);
        assert(-524288 <= y[19] <= 524288);
        assert(-524288 <= y[20] <= 524288);
        assert(-524288 <= y[21] <= 524288);
        assert(-524288 <= y[22] <= 524288);
        assert(-524288 <= y[23] <= 524288);
        assert(-524288 <= y[24] <= 524288);
        assert(-524288 <= y[25] <= 524288);
        assert(-524288 <= y[26] <= 524288);
        assert(-524288 <= y[27] <= 524288);
        assert(-524288 <= y[28] <= 524288);
        assert(-524288 <= y[29] <= 524288);
        assert(-524288 <= y[30] <= 524288);
        assert(-524288 <= y[31] <= 524288);
    }
    assert(ints(y@) =~= idct64_step10_lo(ints(lo@) + ints(hi@), r as nat));
    y
}

/// The high half of stage 10 of the 64-point inverse DCT.
fn dct64_stage10_hi(lo: &[i32; 32], hi: &[i32; 32], r: u8) -> (y: [i32; 32])
    requires
        16 <= r <= 20,
        bounded(lo@, 268435967),
        bounded(hi@, 268435967),
    ensures
        bounded(y@, 524288),
        ints(y@) == idct64_step10_hi(ints(lo@) + ints(hi@), r as nat),
{
    proof {
        lemma_kernel_limit(r as nat);
        assert(forall|j: int| 0 <= j < 32 ==> -268435967 <= #[trigger] lo[j] <= 268435967);
        assert(forall|j: int| 0 <= j < 32 ==> -268435967 <= #[trigger] hi[j] <= 268435967);
    }
    let B: u8 = 12;
    let y = [
        clamp_signed(lo[31] - hi[0], r),
        clamp_signed(lo[30] - hi[1], r),
        clamp_signed(lo[29] - hi[2], r),
        clamp_signed(lo[28] - hi[3], r),
        clamp_signed(lo[27] - hi[4], r),
        clamp_signed(lo[26] - hi[5], r),
        clamp_signed(lo[25] - hi[6], r),
        clamp_signed(lo[24] - hi[7], r),
        clamp_signed(lo[23] - hi[8], r),
        clamp_signed(lo[22] - hi[9], r),
        clamp_signed(lo[21] - hi[10], r),
        clamp_signed(lo[20] - hi[11], r),
        clamp_signed(lo[19] - hi[12], r),
        clamp_signed(lo[18] - hi[13], r),
        clamp_signed(lo[17] - hi[14], r),
        clamp_signed(lo[16] - hi[15], r),
        clamp_signed(lo[15] - hi[16], r),
        clamp_signed(lo[14] - hi[17], r),
        clamp_signed(lo[13] - hi[18], r),
        clamp_signed(lo[12] - hi[19], r),
        clamp_signed(lo[11] - hi[20], r),
        clamp_signed(lo[10] - hi[21], r),
        clamp_signed(lo[9] - hi[22], r),
        clamp_signed(lo[8] - hi[23], r),
        clamp_signed(lo[7] - hi[24], r),
        clamp_signed(lo[6] - hi[25], r),
        clamp_signed(lo[5] - hi[26], r),
        clamp_signed(lo[4] - hi[27], r),
        clamp_signed(lo[3] - hi[28], r),
        clamp_signed(lo[2] - hi[29], r),
        clamp_signed(lo[1] - hi[30], r),
        clamp_signed(lo[0] - hi[31], r),
    ];
    proof {
        assert(-524288 <= y[0] <= 524288);
        assert(-524288 <= y[1] <= 524288);
        assert(-524288 <= y[2] <= 524288);
        assert(-524288 <= y[3] <= 524288);
        assert(-524288 <= y[4] <= 524288);
        assert(-524288 <= y[5] <= 524288);
        assert(-524288 <= y[6] <= 524288);
        assert(-524288 <= y[7] <= 524288);
        assert(-524288 <= y[8] <= 524288);
        assert(-524288 <= y[9] <= 524288);
        assert(-524288 <= y[10] <= 524288);
        assert(-524288 <= y[11] <= 524288);
        assert(-524288 <= y[12] <= 524288);
        assert(-524288 <= y[13] <= 524288);
        assert(-524288 <= y[14] <= 524288);
        assert(-524288 <= y[15] <= 524288);
        assert(-524288 <= y[16] <= 524288);
        assert(-524288 <= y[17] <= 524288);
        assert(-524288 <= y[18] <= 524288);
        assert(-524288 <= y[19] <= 524288);
        assert(-524288 <= y[20] <= 524288);
        assert(-524288 <= y[21] <= 524288);
        assert(-524288 <= y[22] <= 524288);
        assert(-524288 <= y[23] <= 524288);
        assert(-524288 <= y[24] <= 524288);
        assert(-524288 <= y[25] <= 524288);
        assert(-524288 <= y[26] <= 524288);
        assert(-524288 <= y[27] <= 524288);
        assert(-524288 <= y[28] <= 524288);
        assert(-524288 <= y[29] <= 524288);
        assert(-524288 <= y[30] <= 524288);
        assert(-524288 <= y[31] <= 524288);
    }
    assert(ints(y@) =~= idct64_step10_hi(ints(lo@) + ints(hi@), r as nat));
    y
}

/// The 64-point inverse DCT with intermediate results saturated to `r` bits.
pub fn inverse_dct64(i: [i32; 64], r: u8) -> (output: [i32; 64])
    requires
        16 <= r <= 20,
        bounded(i@, kernel_input_bound()),
    ensures
        ints(output@) == idct64_spec(ints(i@), r as nat),
{
    proof {
        assert(forall|j: int| 0 <= j < 64 ==> -524288 <= #[trigger] i[j] <= 524288);
    }
    let lo = [i[0], i[32], i[16], i[48], i[8], i[40], i[24], i[56], i[4], i[36], i[20], i[52], i[12], i[44], i[28], i[60], i[2], i[34], i[18], i[50], i[10], i[42], i[26], i[58], i[6], i[38], i[22], i[54], i[14], i[46], i[30], i[62]];
    let hi = [i[1], i[33], i[17], i[49], i[9], i[41], i[25], i[57], i[5], i[37], i[21], i[53], i[13], i[45], i[29], i[61], i[3], i[35], i[19], i[51], i[11], i[43], i[27], i[59], i[7], i[39], i[23], i[55], i[15], i[47], i[31], i[63]];
    assert(ints(lo@) =~= idct64_step0_lo(ints(i@)));
    assert(ints(hi@) =~= idct64_step0_hi(ints(i@)));
    let lo2 = dct64_stage1_lo(&lo, &hi, r);
    let hi2 = dct64_stage1_hi(&lo, &hi, r);
    let lo = lo2;
    let hi = hi2;
    let lo2 = dct64_stage2_lo(&lo, &hi, r);
    let hi2 = dct64_stage2_hi(&lo, &hi, r);
    let lo = lo2;
    let hi = hi2;
    let lo2 = dct64_stage3_lo(&lo, &hi, r);
    let hi2 = dct64_stage3_hi(&lo, &hi, r);
    let lo = lo2;
    let hi = hi2;
    let lo2 = dct64_stage4_lo(&lo, &hi, r);
    let hi2 = dct64_stage4_hi(&lo, &hi, r);
    let lo = lo2;
    let hi = hi2;
    let lo2 = dct64_stage5_lo(&lo, &hi, r);
    let hi2 = dct64_stage5_hi(&lo, &hi, r);
    let lo = lo2;
    let hi = hi2;
    let lo2 = dct64_stage6_lo(&lo, &hi, r);
    let hi2 = dct64_stage6_hi(&lo, &hi, r);
    let lo = lo2;
    let hi = hi2;
    let lo2 = dct64_stage7_lo(&lo, &hi, r);
    let hi2 = dct64_stage7_hi(&lo, &hi, r);
    let lo = lo2;
    let hi = hi2;
    let lo2 = dct64_stage8_lo(&lo, &hi, r);
    let hi2 = dct64_stage8_hi(&lo, &hi, r);
    let lo = lo2;
    let hi = hi2;
    let lo2 = dct64_stage9_lo(&lo, &hi, r);
    let hi2 = dct64_stage9_hi(&lo, &hi, r);
    let lo = lo2;
    let hi = hi2;
    let lo2 = dct64_stage10_lo(&lo, &hi, r);
    let hi2 = dct64_stage10_hi(&lo, &hi, r);
    let lo = lo2;
    let hi = hi2;
    let mut output = [0i32; 64];
    let mut k: usize = 0;
    while k < 32
        invariant
            k <= 32,
            forall|j: int| 0 <= j < k ==> output[j] == lo[j] && output[j + 32] == hi[j],
        decreases 32 - k,
    {
        output[k] = lo[k];
        output[k + 32] = hi[k];
        k = k + 1;
    }
    assert(ints(output@) =~= ints(lo@) + ints(hi@));
    output
}

} // verus!
