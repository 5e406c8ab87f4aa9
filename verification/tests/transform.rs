//! Inverse transforms, scans and transform-block planning.
use avif_decoder::av1::syntax::{BlockSize, TxSize, TxType};
use avif_decoder::av1::transform::{
    clamp_signed, coefficient_scan, coefficients_from_scan, cospi, cospi_unit_128, inverse_adst16, inverse_adst4,
    inverse_adst8, inverse_dct16, inverse_dct4, inverse_dct64_basis, inverse_dct64_fixed_basis, inverse_dct8,
    inverse_lossless_transform_4x4, inverse_staged_16, inverse_staged_4, inverse_staged_8, inverse_transform,
    inverse_transform_32x32_dct, inverse_transform_64x64_dct, plan_transform_blocks, remap_coefficients_for_inverse_storage,
    round2_signed, round_shift_i64, staged_transform_pair, zig_zag_scan, StagedTransform,
};
use avif_decoder::DecoderError;

/// Dequantizer steps of one plane.
#[derive(Debug, Clone, Copy)]
struct PlaneQuant {
    dc: i32,
    ac: i32,
}

/// Scales quantized coefficients by the DC step (first coefficient) or AC step,
/// divided by the transform's dequantization denominator.
fn dequantize_coefficients(quantized: &[i32], quant: PlaneQuant, _bit_depth: u8, denominator: u32) -> Vec<i32> {
    quantized
        .iter()
        .enumerate()
        .map(|(index, value)| {
            let step = if index == 0 { quant.dc } else { quant.ac };
            (i64::from(*value) * i64::from(step) / i64::from(denominator)) as i32
        })
        .collect()
}

/// Adds a residual to a prediction, clipping to the sample range of `bit_depth`.
fn add_residual_to_prediction(prediction: &[u16], residual: &[i32], bit_depth: u8) -> Result<Vec<u16>, DecoderError> {
    if prediction.len() != residual.len() {
        return Err(DecoderError::InvalidParam("prediction and residual lengths differ".to_string()));
    }
    let maximum = (1i32 << bit_depth) - 1;
    Ok(prediction
        .iter()
        .zip(residual)
        .map(|(sample, delta)| (i32::from(*sample) + delta).clamp(0, maximum) as u16)
        .collect())
}

fn normative_square_row_scan(tx_size: TxSize) -> Vec<usize> {
    match tx_size {
        TxSize::Tx4x4 => vec![0, 1, 4, 2, 5, 3, 6, 8, 9, 7, 12, 10, 13, 11, 14, 15],
        TxSize::Tx8x8 => vec![
            0, 1, 2, 8, 9, 3, 16, 10, 4, 17, 11, 24, 5, 18, 25, 12, 19, 26, 32, 6, 13, 20, 33, 27,
            7, 34, 40, 21, 28, 41, 14, 35, 48, 42, 29, 36, 49, 22, 43, 15, 56, 37, 50, 44, 30, 57,
            23, 51, 58, 45, 38, 52, 31, 59, 53, 46, 60, 39, 61, 47, 54, 55, 62, 63,
        ],
        TxSize::Tx16x16 => vec![
            0, 1, 2, 16, 3, 17, 4, 18, 32, 5, 33, 19, 6, 34, 48, 20, 49, 7, 35, 21, 50, 64, 8, 36,
            65, 22, 51, 37, 80, 9, 66, 52, 23, 38, 81, 67, 10, 53, 24, 82, 68, 96, 39, 11, 54, 83,
            97, 69, 25, 98, 84, 40, 112, 55, 12, 70, 99, 113, 85, 26, 41, 56, 114, 100, 13, 71,
            128, 86, 27, 115, 101, 129, 42, 57, 72, 116, 14, 87, 130, 102, 144, 73, 131, 117, 28,
            58, 15, 88, 43, 145, 103, 132, 146, 118, 74, 160, 89, 133, 104, 29, 59, 147, 119, 44,
            161, 148, 90, 105, 134, 162, 120, 176, 75, 135, 149, 30, 60, 163, 177, 45, 121, 91,
            106, 164, 178, 150, 192, 136, 165, 179, 31, 151, 193, 76, 122, 61, 137, 194, 107, 152,
            180, 208, 46, 166, 167, 195, 92, 181, 138, 209, 123, 153, 224, 196, 77, 168, 210, 182,
            240, 108, 197, 62, 154, 225, 183, 169, 211, 47, 139, 93, 184, 226, 212, 241, 198, 170,
            124, 155, 199, 78, 213, 185, 109, 227, 200, 63, 228, 242, 140, 214, 171, 186, 156, 229,
            243, 125, 94, 201, 244, 215, 216, 230, 141, 187, 202, 79, 172, 110, 157, 245, 217, 231,
            95, 246, 232, 126, 203, 247, 233, 173, 218, 142, 111, 158, 188, 248, 127, 234, 219,
            249, 189, 204, 143, 174, 159, 250, 235, 205, 220, 175, 190, 251, 221, 191, 206, 236,
            207, 237, 252, 222, 253, 223, 238, 239, 254, 255,
        ],
        _ => (0..tx_size.sample_count()).collect(),
    }
}

fn normative_square_col_scan(tx_size: TxSize) -> Vec<usize> {
    match tx_size {
        TxSize::Tx4x4 => vec![0, 4, 8, 1, 12, 5, 2, 9, 6, 3, 13, 10, 7, 14, 11, 15],
        TxSize::Tx8x8 => vec![
            0, 8, 16, 1, 24, 9, 32, 17, 2, 40, 25, 10, 33, 18, 48, 3, 26, 41, 11, 56, 19, 34, 4,
            49, 27, 42, 12, 35, 20, 57, 50, 28, 5, 43, 13, 36, 58, 51, 21, 44, 6, 29, 59, 37, 14,
            52, 22, 7, 45, 60, 30, 15, 38, 53, 23, 46, 31, 61, 39, 54, 47, 62, 55, 63,
        ],
        TxSize::Tx16x16 => vec![
            0, 16, 32, 48, 1, 64, 17, 80, 33, 96, 49, 2, 65, 112, 18, 81, 34, 128, 50, 97, 3, 66,
            144, 19, 113, 35, 82, 160, 98, 51, 129, 4, 67, 176, 20, 114, 145, 83, 36, 99, 130, 52,
            192, 5, 161, 68, 115, 21, 146, 84, 208, 177, 37, 131, 100, 53, 162, 224, 69, 6, 116,
            193, 147, 85, 22, 240, 132, 38, 178, 101, 163, 54, 209, 117, 70, 7, 148, 194, 86, 179,
            225, 23, 133, 39, 164, 8, 102, 210, 241, 55, 195, 118, 149, 71, 180, 24, 87, 226, 134,
            165, 211, 40, 103, 56, 72, 150, 196, 242, 119, 9, 181, 227, 88, 166, 25, 135, 41, 104,
            212, 57, 151, 197, 120, 73, 243, 182, 136, 167, 213, 89, 10, 228, 105, 152, 198, 26,
            42, 121, 183, 244, 168, 58, 137, 229, 74, 214, 90, 153, 199, 184, 11, 106, 245, 27,
            122, 230, 169, 43, 215, 59, 200, 138, 185, 246, 75, 12, 91, 154, 216, 231, 107, 28, 44,
            201, 123, 170, 60, 247, 232, 76, 139, 13, 92, 217, 186, 248, 155, 108, 29, 124, 45,
            202, 233, 171, 61, 14, 77, 140, 15, 249, 93, 30, 187, 156, 218, 46, 109, 125, 62, 172,
            78, 203, 31, 141, 234, 94, 47, 188, 63, 157, 110, 250, 219, 79, 126, 204, 173, 142, 95,
            189, 111, 235, 158, 220, 251, 127, 174, 143, 205, 236, 159, 190, 221, 252, 175, 206,
            237, 191, 253, 222, 238, 207, 254, 223, 239, 255,
        ],
        _ => (0..tx_size.sample_count()).collect(),
    }
}

#[test]
fn plans_128_block_as_four_64_transforms() {
    let blocks = plan_transform_blocks(0, 0, 0, BlockSize::Block128x128, 900, 900);

    assert_eq!(blocks.len(), 4);
    assert!(blocks.iter().all(|block| block.tx_size == TxSize::Tx64x64));
    assert_eq!(blocks[0].x, 0);
    assert_eq!(blocks[3].x, 64);
    assert_eq!(blocks[3].y, 64);
}

#[test]
fn transform_plan_clips_at_frame_edge() {
    let blocks = plan_transform_blocks(0, 896, 896, BlockSize::Block128x128, 900, 900);

    assert_eq!(blocks.len(), 1);
    assert_eq!(blocks[0].x, 896);
    assert_eq!(blocks[0].y, 896);
}

#[test]
fn zig_zag_scan_orders_square_transform() {
    let scan = zig_zag_scan(TxSize::Tx4x4);

    assert_eq!(
        scan,
        vec![0, 4, 1, 2, 5, 8, 12, 9, 6, 3, 7, 10, 13, 14, 11, 15]
    );
}

#[test]
fn zig_zag_scan_orders_aom_rectangular_transform() {
    assert_eq!(
        zig_zag_scan(TxSize::Tx8x4),
        vec![
            0, 1, 4, 2, 5, 8, 3, 6, 9, 12, 7, 10, 13, 16, 11, 14, 17, 20, 15, 18, 21, 24, 19,
            22, 25, 28, 23, 26, 29, 27, 30, 31,
        ]
    );
}

#[test]
fn tx64_scan_codes_top_left_32_square_only() {
    let scan = zig_zag_scan(TxSize::Tx64x64);

    assert_eq!(scan.len(), TxSize::Tx32x32.sample_count());
    assert_eq!(&scan[..6], &[0, 64, 1, 2, 65, 128]);
    assert_eq!(
        scan.last().copied(),
        Some(31 * TxSize::Tx64x64.width() + 31)
    );
    assert!(
        scan.iter()
            .all(|position| position / TxSize::Tx64x64.width() < 32
                && position % TxSize::Tx64x64.width() < 32)
    );
    assert!(!scan.contains(&(32 * TxSize::Tx64x64.width())));
    assert!(!scan.contains(&32));
}

#[test]
fn coefficients_from_scan_places_values_in_raster_slots() {
    let coefficients =
        coefficients_from_scan(TxSize::Tx4x4, TxType::DctDct, &[1, 2, 3]).unwrap();

    assert_eq!(coefficients[0], 1);
    assert_eq!(coefficients[4], 2);
    assert_eq!(coefficients[1], 3);
    assert_eq!(coefficients.iter().filter(|value| **value != 0).count(), 3);
}

#[test]
fn tx64_coefficients_from_scan_rejects_beyond_coded_top_left_32_square() {
    let coded_count = TxSize::Tx32x32.sample_count();
    let scanned_coefficients = vec![1; coded_count];
    let coefficients =
        coefficients_from_scan(TxSize::Tx64x64, TxType::DctDct, &scanned_coefficients).unwrap();

    assert_eq!(coefficients.len(), TxSize::Tx64x64.sample_count());
    assert_eq!(
        coefficients
            .iter()
            .filter(|coefficient| **coefficient != 0)
            .count(),
        coded_count
    );
    assert_eq!(coefficients[31 * TxSize::Tx64x64.width() + 31], 1);
    assert_eq!(coefficients[32 * TxSize::Tx64x64.width()], 0);
    assert_eq!(coefficients[32], 0);

    let too_many_coefficients = vec![1; coded_count + 1];
    assert!(matches!(
        coefficients_from_scan(TxSize::Tx64x64, TxType::DctDct, &too_many_coefficients),
        Err(DecoderError::InvalidParam(_))
    ));
}

#[test]
fn tx64_inverse_transform_rejects_non_zero_coefficients_outside_coded_top_left() {
    let mut coefficients = vec![0; TxSize::Tx64x64.sample_count()];
    coefficients[32] = 1;
    assert!(matches!(
        inverse_transform(TxType::DctDct, TxSize::Tx64x64, &coefficients, 8),
        Err(DecoderError::InvalidParam(_))
    ));

    coefficients[32] = 0;
    coefficients[32 * TxSize::Tx64x64.width()] = 1;
    assert!(matches!(
        inverse_transform(TxType::DctDct, TxSize::Tx64x64, &coefficients, 8),
        Err(DecoderError::InvalidParam(_))
    ));
}

#[test]
fn directional_dct_scans_match_aom_mrow_and_mcol_orders() {
    assert_eq!(
        &coefficient_scan(TxSize::Tx4x4, TxType::VerticalDct)[..8],
        &[0, 4, 8, 12, 1, 5, 9, 13]
    );
    assert_eq!(
        &coefficient_scan(TxSize::Tx4x4, TxType::HorizontalDct)[..8],
        &[0, 1, 2, 3, 4, 5, 6, 7]
    );
    assert_eq!(
        &coefficient_scan(TxSize::Tx8x8, TxType::VerticalDct)[..8],
        &[0, 8, 16, 24, 32, 40, 48, 56]
    );
    assert_eq!(
        &coefficient_scan(TxSize::Tx8x8, TxType::HorizontalDct)[..8],
        &[0, 1, 2, 3, 4, 5, 6, 7]
    );
}

#[test]
fn remaps_one_dimensional_and_identity_square_coefficients() {
    let mut coefficients = vec![0; TxSize::Tx8x8.sample_count()];
    for (index, position) in coefficient_scan(TxSize::Tx8x8, TxType::HorizontalDct)
        .into_iter()
        .enumerate()
    {
        coefficients[position] = index as i32;
    }
    remap_coefficients_for_inverse_storage(
        TxSize::Tx8x8,
        TxType::HorizontalDct,
        false,
        &mut coefficients,
    );
    assert_eq!(&coefficients[..8], &[0, 8, 16, 24, 32, 40, 48, 56]);

    let mut coefficients = vec![0; TxSize::Tx8x8.sample_count()];
    for (index, position) in coefficient_scan(TxSize::Tx8x8, TxType::VerticalDct)
        .into_iter()
        .enumerate()
    {
        coefficients[position] = index as i32;
    }
    remap_coefficients_for_inverse_storage(
        TxSize::Tx8x8,
        TxType::VerticalDct,
        false,
        &mut coefficients,
    );
    assert_eq!(&coefficients[..8], &[0, 1, 2, 3, 4, 5, 6, 7]);

    let mut identity = (0..TxSize::Tx4x4.sample_count() as i32).collect::<Vec<_>>();
    remap_coefficients_for_inverse_storage(
        TxSize::Tx4x4,
        TxType::Identity,
        false,
        &mut identity,
    );
    assert_eq!(
        identity,
        vec![0, 4, 8, 12, 1, 5, 9, 13, 2, 6, 10, 14, 3, 7, 11, 15]
    );

    let mut two_dimensional = (0..TxSize::Tx4x4.sample_count() as i32).collect::<Vec<_>>();
    remap_coefficients_for_inverse_storage(
        TxSize::Tx4x4,
        TxType::DctDct,
        true,
        &mut two_dimensional,
    );
    assert_eq!(two_dimensional, (0..16).collect::<Vec<_>>());

    remap_coefficients_for_inverse_storage(
        TxSize::Tx4x4,
        TxType::DctDct,
        false,
        &mut two_dimensional,
    );
    assert_eq!(
        two_dimensional,
        vec![0, 4, 8, 12, 1, 5, 9, 13, 2, 6, 10, 14, 3, 7, 11, 15]
    );
}

#[test]
fn normative_directional_scans_are_permutations_for_supported_square_sizes() {
    for tx_size in [TxSize::Tx4x4, TxSize::Tx8x8, TxSize::Tx16x16] {
        for scan in [
            normative_square_row_scan(tx_size),
            normative_square_col_scan(tx_size),
        ] {
            assert_eq!(scan.len(), tx_size.sample_count());
            let mut sorted = scan;
            sorted.sort_unstable();
            assert_eq!(sorted, (0..tx_size.sample_count()).collect::<Vec<_>>());
        }
    }
}

#[test]
fn small_dct_dc_only_outputs_constant_residuals_for_supported_bit_depths() {
    for (tx_size, dc) in [
        (TxSize::Tx4x4, 16),
        (TxSize::Tx8x8, 32),
        (TxSize::Tx16x16, 64),
        (TxSize::Tx8x4, 32),
    ] {
        let mut coefficients = vec![0; tx_size.sample_count()];
        coefficients[0] = dc;
        for bit_depth in [8, 10, 12] {
            assert_eq!(
                inverse_transform(TxType::DctDct, tx_size, &coefficients, bit_depth).unwrap(),
                vec![1; tx_size.sample_count()],
                "{tx_size:?} {bit_depth}-bit"
            );
        }
    }
}

#[test]
fn tx4x8_adst_dct_matches_rectangular_inverse_reference() {
    let mut coefficients = vec![0; TxSize::Tx4x8.sample_count()];
    coefficients[1] = 176;
    coefficients[3] = -176;
    coefficients[8] = -176;
    coefficients[9] = -176;

    assert_eq!(
        inverse_transform(TxType::AdstDct, TxSize::Tx4x8, &coefficients, 8).unwrap(),
        vec![
            -5, -3, -1, 1, -8, -4, 3, 7, -3, 3, 11, 18, -1, 6, 15, 21, -6, -1, 7, 12, -11, -8,
            -3, 0, -8, -7, -5, -4, -1, -1, -1, -1,
        ]
    );
}

#[test]
fn transform_round_shift_matches_aom_negative_ties() {
    assert_eq!(round_shift_i64(-8, 4), 0);
    assert_eq!(round_shift_i64(-24, 4), -1);
    assert_eq!(round2_signed(-8, 4), 0);
}

#[test]
fn tx4x4_horizontal_dct_matches_aom_wml2viewer_block() {
    // AOM stores transform coefficients column-major. Transpose the
    // traced input into the row-major storage consumed by this module.
    let coefficients = vec![
        0, 0, 0, 0, 0, 0, 0, 0, 2112, -704, -1056, -528, 1936, 176, 0, 0,
    ];
    let prediction = vec![0, 0, 0, 0, 0, 0, 0, 2, 0, 3, 29, 66, 43, 80, 95, 91];
    let residual =
        inverse_transform(TxType::HorizontalDct, TxSize::Tx4x4, &coefficients, 8).unwrap();
    assert_eq!(
        add_residual_to_prediction(&prediction, &residual, 8).unwrap(),
        vec![0, 0, 0, 0, 0, 0, 0, 2, 0, 220, 208, 207, 178, 207, 210, 198]
    );
}

#[test]
fn tx4x4_adst_adst_matches_aom_wml2viewer_block() {
    let mut coefficients = vec![
        420, 704, -704, -176, -704, -1056, 528, 880, 176, -528, 0, 528, 528, 352, -352, -176,
    ];
    remap_coefficients_for_inverse_storage(
        TxSize::Tx4x4,
        TxType::AdstAdst,
        false,
        &mut coefficients,
    );
    let prediction = vec![
        1, 1, 1, 1, 98, 98, 98, 98, 157, 157, 157, 157, 176, 176, 176, 176,
    ];
    let residual =
        inverse_transform(TxType::AdstAdst, TxSize::Tx4x4, &coefficients, 8).unwrap();
    assert_eq!(
        add_residual_to_prediction(&prediction, &residual, 8).unwrap(),
        vec![
            0, 0, 2, 0, 0, 0, 247, 236, 213, 127, 197, 227, 204, 156, 128, 147
        ]
    );
}

#[test]
fn tx4x4_dct_dct_matches_aom_wml2viewer_block() {
    let mut coefficients = vec![
        0, -1056, -528, 0, 176, 1056, 176, 176, 0, -528, -352, -352, 0, 176, 352, 176,
    ];
    remap_coefficients_for_inverse_storage(
        TxSize::Tx4x4,
        TxType::DctDct,
        false,
        &mut coefficients,
    );
    let prediction = vec![
        175, 185, 204, 185, 95, 139, 168, 182, 38, 48, 79, 123, 36, 37, 38, 43,
    ];
    let residual = inverse_transform(TxType::DctDct, TxSize::Tx4x4, &coefficients, 8).unwrap();
    assert_eq!(
        add_residual_to_prediction(&prediction, &residual, 8).unwrap(),
        vec![
            163, 167, 180, 1, 116, 147, 125, 191, 60, 80, 105, 181, 34, 27, 68, 132
        ]
    );
}

#[test]
fn tx8x8_dct_dct_matches_aom_wml2viewer_palette_block() {
    let mut coefficients = vec![0; TxSize::Tx8x8.sample_count()];
    coefficients[16] = 176;
    coefficients[47] = 176;
    coefficients[54] = 176;
    coefficients[55] = -176;
    remap_coefficients_for_inverse_storage(
        TxSize::Tx8x8,
        TxType::DctDct,
        false,
        &mut coefficients,
    );
    let prediction = vec![
        0, 0, 0, 0, 0, 0, 0, 0, 207, 207, 0, 0, 0, 0, 0, 0, 176, 176, 176, 207, 207, 0, 0, 0,
        114, 114, 176, 207, 207, 0, 0, 0, 39, 78, 142, 142, 142, 207, 207, 0, 39, 39, 39, 78,
        114, 176, 207, 142, 39, 39, 39, 39, 78, 114, 114, 142, 39, 39, 39, 39, 39, 0, 78, 78,
    ];
    let residual = inverse_transform(TxType::DctDct, TxSize::Tx8x8, &coefficients, 8).unwrap();
    assert_eq!(
        add_residual_to_prediction(&prediction, &residual, 8).unwrap(),
        vec![
            5, 0, 0, 0, 0, 0, 2, 3, 208, 213, 0, 0, 0, 0, 0, 5, 182, 173, 176, 207, 200, 0, 6,
            1, 116, 118, 177, 198, 207, 3, 0, 8, 43, 81, 135, 146, 137, 198, 221, 0, 44, 36,
            46, 67, 111, 184, 195, 152, 41, 45, 31, 41, 75, 104, 126, 141, 43, 39, 40, 33, 35,
            2, 76, 83,
        ]
    );
}

#[test]
fn tx32x16_dct_dc_matches_aom_wml2viewer_chroma_block() {
    let mut quantized = vec![0; TxSize::Tx32x16.sample_count()];
    quantized[0] = -1;
    let coefficients = dequantize_coefficients(
        &quantized,
        PlaneQuant { dc: 140, ac: 176 },
        8,
        TxSize::Tx32x16.dq_denom(),
    );
    assert_eq!(coefficients[0], -70);
    assert_eq!(
        inverse_transform(TxType::DctDct, TxSize::Tx32x16, &coefficients, 8).unwrap(),
        vec![-1; TxSize::Tx32x16.sample_count()]
    );
}

#[test]
fn tx32x32_dct_dc_matches_aom_wml2viewer_luma_block() {
    let mut coefficients = vec![0; TxSize::Tx32x32.sample_count()];
    coefficients[0] = -140;
    assert_eq!(
        inverse_transform(TxType::DctDct, TxSize::Tx32x32, &coefficients, 8).unwrap(),
        vec![-1; TxSize::Tx32x32.sample_count()]
    );
}

#[test]
fn inverse_transform_rejects_unsupported_bit_depth_before_transform_math() {
    let mut coefficients = vec![0; TxSize::Tx4x4.sample_count()];
    coefficients[0] = 16;

    for bit_depth in [0, 7, 9, 11, 13, 16] {
        assert!(
            matches!(
                inverse_transform(TxType::DctDct, TxSize::Tx4x4, &coefficients, bit_depth),
                Err(DecoderError::InvalidParam(_))
            ),
            "{bit_depth}"
        );
    }
}

#[test]
fn staged_4_point_vectors_match_aom_integer_rounding() {
    let input = [16, -8, 4, 2];

    assert_eq!(inverse_dct4(input, 16), [7, 3, 13, 21]);
    assert_eq!(inverse_adst4(input), [4, 0, 11, 23]);
}

fn inverse_transform_4x4_staged_reference(
    tx_type: TxType,
    dequant: &[i32],
    bit_depth: u8,
) -> Vec<i32> {
    let (vertical, horizontal) = staged_transform_pair(tx_type);
    let row_range = bit_depth + 8;
    let mut intermediate = [0i32; 16];
    for row in 0..4 {
        let input = std::array::from_fn(|column| {
            clamp_signed(dequant[row * 4 + column], bit_depth + 8)
        });
        let output = inverse_staged_4(horizontal, input, row_range);
        intermediate[row * 4..row * 4 + 4].copy_from_slice(&output);
    }

    let residual_limit = 1i32 << (bit_depth + 7);
    let mut output = vec![0i32; 16];
    for column in 0..4 {
        let input = std::array::from_fn(|row| clamp_signed(intermediate[row * 4 + column], 16));
        let transformed = inverse_staged_4(vertical, input, 16);
        for row in 0..4 {
            output[row * 4 + column] =
                round2_signed(transformed[row], 4).clamp(-residual_limit, residual_limit - 1);
        }
    }
    output
}

#[test]
fn tx4_dispatch_matches_staged_core_for_all_supported_types() {
    let mut coefficients = vec![0; TxSize::Tx4x4.sample_count()];
    coefficients[0] = 32;
    coefficients[1] = -8;
    coefficients[TxSize::Tx4x4.width()] = 4;
    coefficients[TxSize::Tx4x4.width() + 1] = -2;

    for bit_depth in [8, 10, 12] {
        for tx_type in [
            TxType::DctDct,
            TxType::AdstDct,
            TxType::DctAdst,
            TxType::AdstAdst,
            TxType::Identity,
            TxType::VerticalDct,
            TxType::HorizontalDct,
        ] {
            assert_eq!(
                inverse_transform(tx_type, TxSize::Tx4x4, &coefficients, bit_depth).unwrap(),
                inverse_transform_4x4_staged_reference(tx_type, &coefficients, bit_depth),
                "{tx_type:?} {bit_depth}-bit"
            );
        }
    }
}

#[test]
fn staged_8_point_vectors_match_aom_integer_rounding() {
    assert_eq!(inverse_dct8([32, 0, 0, 0, 0, 0, 0, 0], 16), [23; 8]);
    assert_eq!(
        inverse_adst8([32, 0, 0, 0, 0, 0, 0, 0], 16),
        [3, 9, 16, 21, 25, 28, 31, 32]
    );
}

fn inverse_transform_8x8_staged_reference(
    tx_type: TxType,
    dequant: &[i32],
    bit_depth: u8,
) -> Vec<i32> {
    let (vertical, horizontal) = staged_transform_pair(tx_type);
    let row_range = bit_depth + 8;
    let mut intermediate = [0i32; 64];
    for row in 0..8 {
        let input = std::array::from_fn(|column| {
            clamp_signed(dequant[row * 8 + column], bit_depth + 8)
        });
        let transformed = inverse_staged_8(horizontal, input, row_range);
        for column in 0..8 {
            intermediate[row * 8 + column] = round2_signed(transformed[column], 1);
        }
    }

    let residual_limit = 1i32 << (bit_depth + 7);
    let mut output = vec![0i32; 64];
    for column in 0..8 {
        let input = std::array::from_fn(|row| clamp_signed(intermediate[row * 8 + column], 16));
        let transformed = inverse_staged_8(vertical, input, 16);
        for row in 0..8 {
            output[row * 8 + column] =
                round2_signed(transformed[row], 4).clamp(-residual_limit, residual_limit - 1);
        }
    }
    output
}

#[test]
fn tx8_dispatch_matches_staged_core_for_all_supported_types() {
    let mut coefficients = vec![0; TxSize::Tx8x8.sample_count()];
    coefficients[0] = 48;
    coefficients[1] = -12;
    coefficients[TxSize::Tx8x8.width()] = 6;
    coefficients[TxSize::Tx8x8.width() + 1] = -3;

    for bit_depth in [8, 10, 12] {
        for tx_type in [
            TxType::DctDct,
            TxType::AdstDct,
            TxType::DctAdst,
            TxType::AdstAdst,
            TxType::Identity,
            TxType::VerticalDct,
            TxType::HorizontalDct,
        ] {
            assert_eq!(
                inverse_transform(tx_type, TxSize::Tx8x8, &coefficients, bit_depth).unwrap(),
                inverse_transform_8x8_staged_reference(tx_type, &coefficients, bit_depth),
                "{tx_type:?} {bit_depth}-bit"
            );
        }
    }
}

#[test]
fn staged_16_point_dct_matches_aom_integer_rounding() {
    assert_eq!(
        inverse_dct16([64, 0, 0, 0, 0, 0, 0, 0, 0, 0, 0, 0, 0, 0, 0, 0], 16),
        [45; 16]
    );
}

#[test]
fn large_dct_dc_outputs_follow_size_specific_rounding() {
    let mut tx32 = vec![0; TxSize::Tx32x32.sample_count()];
    tx32[0] = 32;
    assert_eq!(
        inverse_transform(TxType::DctDct, TxSize::Tx32x32, &tx32, 8).unwrap(),
        vec![0; TxSize::Tx32x32.sample_count()]
    );

    let mut tx64 = vec![0; TxSize::Tx64x64.sample_count()];
    tx64[0] = 64;
    assert_eq!(
        inverse_transform(TxType::DctDct, TxSize::Tx64x64, &tx64, 8).unwrap(),
        vec![1; TxSize::Tx64x64.sample_count()]
    );

    tx64[0] = -192;
    assert_eq!(
        inverse_transform(TxType::DctDct, TxSize::Tx64x64, &tx64, 8).unwrap(),
        vec![-1; TxSize::Tx64x64.sample_count()]
    );

    tx64[0] = -105;
    assert_eq!(
        inverse_transform(TxType::DctDct, TxSize::Tx64x64, &tx64, 8).unwrap(),
        vec![-1; TxSize::Tx64x64.sample_count()]
    );
}

#[test]
fn tx16x64_dct_uses_staged_64_point_rounding() {
    let mut coefficients = vec![0; TxSize::Tx16x64.sample_count()];
    coefficients[1] = 88;
    let residual =
        inverse_transform(TxType::DctDct, TxSize::Tx16x64, &coefficients, 8).unwrap();

    assert_eq!(&residual[..16], &[1; 16]);
    assert!(residual.iter().any(|sample| *sample != 0));
}

#[test]
fn all_zero_transforms_return_zero_without_transform_dispatch() {
    for tx_size in [
        TxSize::Tx4x4,
        TxSize::Tx8x8,
        TxSize::Tx16x16,
        TxSize::Tx32x32,
        TxSize::Tx64x64,
    ] {
        let coefficients = vec![0; tx_size.sample_count()];
        for bit_depth in [8, 10, 12] {
            for tx_type in [
                TxType::DctDct,
                TxType::AdstDct,
                TxType::DctAdst,
                TxType::AdstAdst,
                TxType::Identity,
                TxType::VerticalDct,
                TxType::HorizontalDct,
            ] {
                assert_eq!(
                    inverse_transform(tx_type, tx_size, &coefficients, bit_depth).unwrap(),
                    vec![0; tx_size.sample_count()],
                    "{tx_type:?} {tx_size:?} {bit_depth}-bit"
                );
            }
        }
    }
}

#[test]
fn tx32_dct_dispatch_outputs_bounded_nonzero_residuals_for_sparse_coefficients() {
    let residual_limit = 1 << 15;
    let mut coefficients = vec![0; TxSize::Tx32x32.sample_count()];
    coefficients[0] = 64;
    coefficients[1] = -32;
    coefficients[TxSize::Tx32x32.width()] = 16;

    let residual =
        inverse_transform(TxType::DctDct, TxSize::Tx32x32, &coefficients, 8).unwrap();

    assert_eq!(residual.len(), TxSize::Tx32x32.sample_count());
    assert!(
        residual
            .iter()
            .all(|value| (-residual_limit..residual_limit).contains(value))
    );
    assert!(residual.iter().any(|value| *value != 0));
}

#[test]
fn tx64_dct_dispatch_outputs_clamped_residuals_for_coded_top_left_sparse_coefficients() {
    let residual_limit = 1 << 15;
    let mut coefficients = vec![0; TxSize::Tx64x64.sample_count()];
    coefficients[0] = 64;
    coefficients[1] = -32;
    coefficients[TxSize::Tx64x64.width()] = 16;
    coefficients[31 * TxSize::Tx64x64.width() + 31] = -8;

    let residual =
        inverse_transform(TxType::DctDct, TxSize::Tx64x64, &coefficients, 8).unwrap();

    assert_eq!(residual.len(), TxSize::Tx64x64.sample_count());
    assert!(
        residual
            .iter()
            .all(|value| (-residual_limit..residual_limit).contains(value))
    );
    assert_eq!(&residual[..8], &[1, 1, 1, 1, 1, 1, 1, 1]);
    assert_eq!(
        (0..8)
            .map(|y| residual[y * TxSize::Tx64x64.width()])
            .collect::<Vec<_>>(),
        vec![1, 1, 1, 1, 0, 1, 1, 1]
    );
    assert_eq!(residual[63], 2);
    assert_eq!(residual[31 * TxSize::Tx64x64.width() + 31], 1);
    assert_eq!(residual[TxSize::Tx64x64.sample_count() - 1], 1);
}

#[test]
fn tx64_dct_fixed_basis_matches_pinned_sparse_reference() {
    let mut coefficients = vec![0; TxSize::Tx64x64.sample_count()];
    coefficients[0] = 64;
    coefficients[1] = -32;
    coefficients[TxSize::Tx64x64.width()] = 16;
    coefficients[31 * TxSize::Tx64x64.width() + 31] = -8;
    let residual = inverse_dct64_fixed_basis(&coefficients, 8);

    assert_eq!(residual.len(), TxSize::Tx64x64.sample_count());
    assert_eq!(&residual[..8], &[1, 1, 1, 1, 1, 1, 1, 1]);
    assert_eq!(
        (0..8)
            .map(|y| residual[y * TxSize::Tx64x64.width()])
            .collect::<Vec<_>>(),
        vec![1, 1, 1, 1, 0, 1, 1, 1]
    );
    assert_eq!(residual[63], 2);
    assert_eq!(residual[31 * TxSize::Tx64x64.width() + 31], 1);
    assert_eq!(residual[TxSize::Tx64x64.sample_count() - 1], 1);
}

#[test]
fn tx64_dct_fixed_basis_matches_dc_reference() {
    let mut coefficients = vec![0; TxSize::Tx64x64.sample_count()];
    coefficients[0] = 64;
    assert_eq!(
        inverse_dct64_fixed_basis(&coefficients, 8),
        vec![1; TxSize::Tx64x64.sample_count()]
    );

    coefficients[0] = -192;
    assert_eq!(
        inverse_dct64_fixed_basis(&coefficients, 8),
        vec![-1; TxSize::Tx64x64.sample_count()]
    );
}

#[test]
fn tx64_dct_dispatch_matches_fixed_basis_core() {
    let mut tx64_coefficients = vec![0; TxSize::Tx64x64.sample_count()];
    tx64_coefficients[0] = 64;
    tx64_coefficients[1] = -32;
    tx64_coefficients[TxSize::Tx64x64.width()] = 16;
    tx64_coefficients[31 * TxSize::Tx64x64.width() + 31] = -8;

    for bit_depth in [8, 10, 12] {
        assert_eq!(
            inverse_transform(
                TxType::DctDct,
                TxSize::Tx64x64,
                &tx64_coefficients,
                bit_depth
            )
            .unwrap(),
            inverse_dct64_fixed_basis(&tx64_coefficients, bit_depth),
            "Tx64x64 {bit_depth}-bit"
        );
    }
}

#[test]
fn tx64_dct_fixed_basis_table_matches_expected_endpoints() {
    assert_eq!(inverse_dct64_basis(0, 0), 512);
    assert_eq!(inverse_dct64_basis(63, 0), 512);
    assert_eq!(inverse_dct64_basis(0, 1), 724);
    assert_eq!(inverse_dct64_basis(63, 1), -724);
    assert_eq!(inverse_dct64_basis(0, 32), 512);
    assert_eq!(inverse_dct64_basis(1, 32), -512);
}

#[test]
fn cospi_unit_128_matches_quadrant_symmetry() {
    assert_eq!(cospi_unit_128(0), cospi(0));
    assert_eq!(cospi_unit_128(64), 0);
    assert_eq!(cospi_unit_128(96), -cospi(32));
    assert_eq!(cospi_unit_128(160), -cospi(32));
    assert_eq!(cospi_unit_128(224), cospi(32));
}

#[test]
fn size_specific_large_dct_paths_validate_coefficient_counts() {
    let tx32 = vec![0; TxSize::Tx32x32.sample_count()];
    let tx64 = vec![0; TxSize::Tx64x64.sample_count()];

    assert!(matches!(
        inverse_transform_32x32_dct(&tx32[..TxSize::Tx32x32.sample_count() - 1], 8),
        Err(DecoderError::InvalidParam(_))
    ));
    assert!(matches!(
        inverse_transform_64x64_dct(&tx64[..TxSize::Tx64x64.sample_count() - 1], 8),
        Err(DecoderError::InvalidParam(_))
    ));
}

#[test]
fn tx32_and_tx64_non_dct_large_transforms_reject_non_zero_coefficients() {
    for tx_size in [TxSize::Tx32x32, TxSize::Tx64x64] {
        for tx_type in [
            TxType::AdstDct,
            TxType::DctAdst,
            TxType::AdstAdst,
            TxType::Identity,
            TxType::VerticalDct,
            TxType::HorizontalDct,
        ] {
            let mut coefficients = vec![0; tx_size.sample_count()];
            coefficients[0] = 64;

            assert!(
                matches!(
                    inverse_transform(tx_type, tx_size, &coefficients, 8),
                    Err(DecoderError::Unsupported(_))
                ),
                "{tx_type:?} {tx_size:?}"
            );
        }
    }
}

#[test]
fn larger_identity_transform_zero_coefficients_use_zero_fast_path() {
    for tx_size in [TxSize::Tx32x32, TxSize::Tx64x64] {
        let coefficients = vec![0; tx_size.sample_count()];

        let residual = inverse_transform(TxType::Identity, tx_size, &coefficients, 8).unwrap();

        assert_eq!(residual, coefficients, "{tx_size:?}");
    }
}

#[test]
fn larger_dct_dc_only_clips_to_bit_depth_residual_range() {
    for tx_size in [TxSize::Tx32x32, TxSize::Tx64x64] {
        let mut coefficients = vec![0; tx_size.sample_count()];

        coefficients[0] = i32::MAX;
        assert_eq!(
            inverse_transform(TxType::DctDct, tx_size, &coefficients, 8)
                .unwrap()
                .into_iter()
                .max(),
            Some(if tx_size == TxSize::Tx32x32 {
                1 << 8
            } else {
                (1 << 15) - 1
            }),
            "{tx_size:?} 8-bit"
        );
        assert_eq!(
            inverse_transform(TxType::DctDct, tx_size, &coefficients, 10)
                .unwrap()
                .into_iter()
                .max(),
            Some(if tx_size == TxSize::Tx32x32 {
                1 << 10
            } else {
                (1 << 17) - 1
            }),
            "{tx_size:?} 10-bit"
        );
        assert_eq!(
            inverse_transform(TxType::DctDct, tx_size, &coefficients, 12)
                .unwrap()
                .into_iter()
                .max(),
            Some(if tx_size == TxSize::Tx32x32 {
                1448
            } else {
                (1 << 19) - 1
            }),
            "{tx_size:?} 12-bit"
        );

        coefficients[0] = i32::MIN;
        assert_eq!(
            inverse_transform(TxType::DctDct, tx_size, &coefficients, 8)
                .unwrap()
                .into_iter()
                .min(),
            Some(if tx_size == TxSize::Tx32x32 {
                -(1 << 8)
            } else {
                -(1 << 15)
            }),
            "{tx_size:?} negative 8-bit"
        );
    }
}

#[test]
fn staged_16_point_iadst_matches_aom_reference_vectors() {
    assert_eq!(
        inverse_adst16([64, 0, 0, 0, 0, 0, 0, 0, 0, 0, 0, 0, 0, 0, 0, 0], 20),
        [
            3, 10, 15, 22, 27, 33, 37, 43, 47, 52, 54, 58, 60, 62, 63, 64
        ]
    );
    assert_eq!(
        inverse_adst16([64, -17, 9, 0, 3, -5, 0, 2, -1, 0, 4, -3, 0, 1, -2, 6], 20,),
        [9, 4, 16, 12, 26, 13, 22, 18, 31, 42, 61, 43, 67, 74, 83, 97]
    );
}

#[test]
fn staged_16_point_identity_matches_aom_reference_vectors() {
    assert_eq!(
        inverse_staged_16(
            StagedTransform::Identity,
            [64, 0, 0, 0, 0, 0, 0, 0, 0, 0, 0, 0, 0, 0, 0, 0],
            20,
        ),
        [181, 0, 0, 0, 0, 0, 0, 0, 0, 0, 0, 0, 0, 0, 0, 0]
    );
    assert_eq!(
        inverse_staged_16(
            StagedTransform::Identity,
            [64, -17, 9, 0, 3, -5, 0, 2, -1, 0, 4, -3, 0, 1, -2, 6],
            20,
        ),
        [181, -48, 25, 0, 8, -14, 0, 6, -3, 0, 11, -8, 0, 3, -6, 17]
    );
}

#[test]
fn tx16_routes_all_supported_types_through_integer_stages() {
    let mut coefficients = vec![0; TxSize::Tx16x16.sample_count()];
    coefficients[0] = 64;
    coefficients[1] = -17;
    coefficients[16] = 23;

    for tx_type in [
        TxType::DctDct,
        TxType::AdstDct,
        TxType::DctAdst,
        TxType::AdstAdst,
        TxType::Identity,
        TxType::VerticalDct,
        TxType::HorizontalDct,
    ] {
        let residual = inverse_transform(tx_type, TxSize::Tx16x16, &coefficients, 8).unwrap();
        assert_eq!(residual.len(), 256);
        assert!(residual.iter().all(|value| value.abs() < (1 << 15)));
    }
}

fn inverse_transform_16x16_staged_reference(
    tx_type: TxType,
    dequant: &[i32],
    bit_depth: u8,
) -> Vec<i32> {
    let (vertical, horizontal) = staged_transform_pair(tx_type);
    let mut temp = vec![0i32; 256];
    for row in 0..16 {
        let input = std::array::from_fn(|x| clamp_signed(dequant[row * 16 + x], bit_depth + 8));
        let values = inverse_staged_16(horizontal, input, 16);
        for x in 0..16 {
            temp[row * 16 + x] = round2_signed(values[x], 2);
        }
    }

    let limit = 1i32 << (bit_depth + 7);
    let mut out = vec![0i32; 256];
    for x in 0..16 {
        let input = std::array::from_fn(|y| clamp_signed(temp[y * 16 + x], 16));
        let values = inverse_staged_16(vertical, input, 16);
        for y in 0..16 {
            out[y * 16 + x] = round2_signed(values[y], 4).clamp(-limit, limit - 1);
        }
    }
    out
}

#[test]
fn tx16_dispatch_matches_staged_core_for_all_supported_types() {
    let mut coefficients = vec![0; TxSize::Tx16x16.sample_count()];
    coefficients[0] = 64;
    coefficients[1] = -16;
    coefficients[TxSize::Tx16x16.width()] = 8;
    coefficients[TxSize::Tx16x16.width() + 1] = -4;

    for bit_depth in [8, 10, 12] {
        for tx_type in [
            TxType::DctDct,
            TxType::AdstDct,
            TxType::DctAdst,
            TxType::AdstAdst,
            TxType::Identity,
            TxType::VerticalDct,
            TxType::HorizontalDct,
        ] {
            assert_eq!(
                inverse_transform(tx_type, TxSize::Tx16x16, &coefficients, bit_depth).unwrap(),
                inverse_transform_16x16_staged_reference(tx_type, &coefficients, bit_depth),
                "{tx_type:?} {bit_depth}-bit"
            );
        }
    }
}

#[test]
fn enabled_transform_size_reference_anchors_match_fixed_vectors() {
    let cases = [
        (TxSize::Tx4x4, TxType::DctDct, [2, 2, 1, 2, 2]),
        (TxSize::Tx4x4, TxType::AdstDct, [1, 1, 1, 2, 3]),
        (TxSize::Tx4x4, TxType::DctAdst, [1, 1, 0, 1, 3]),
        (TxSize::Tx4x4, TxType::AdstAdst, [0, 1, 0, 1, 4]),
        (TxSize::Tx4x4, TxType::Identity, [8, -2, 1, 0, 0]),
        (TxSize::Tx4x4, TxType::VerticalDct, [5, -1, 4, -1, 0]),
        (TxSize::Tx4x4, TxType::HorizontalDct, [3, 3, 1, 1, 0]),
        (TxSize::Tx8x8, TxType::DctDct, [1, 1, 1, 1, 1]),
        (TxSize::Tx8x8, TxType::AdstDct, [0, 0, 0, 0, 2]),
        (TxSize::Tx8x8, TxType::DctAdst, [0, 0, 0, 0, 2]),
        (TxSize::Tx8x8, TxType::AdstAdst, [0, 0, 0, 0, 2]),
        (TxSize::Tx8x8, TxType::Identity, [8, -2, 1, 0, 0]),
        (TxSize::Tx8x8, TxType::VerticalDct, [3, -1, 3, -1, 0]),
        (TxSize::Tx8x8, TxType::HorizontalDct, [2, 2, 0, 0, 0]),
        (TxSize::Tx16x16, TxType::DctDct, [0, 0, 0, 0, 1]),
        (TxSize::Tx16x16, TxType::AdstDct, [0, 0, 0, 0, 1]),
        (TxSize::Tx16x16, TxType::DctAdst, [0, 0, 0, 0, 1]),
        (TxSize::Tx16x16, TxType::AdstAdst, [0, 0, 0, 0, 1]),
        (TxSize::Tx16x16, TxType::Identity, [8, -2, 1, 0, 0]),
        (TxSize::Tx16x16, TxType::VerticalDct, [2, 0, 2, 0, 0]),
        (TxSize::Tx16x16, TxType::HorizontalDct, [1, 1, 0, 0, 0]),
        (TxSize::Tx32x32, TxType::DctDct, [0, 0, 0, 0, 1]),
        (TxSize::Tx64x64, TxType::DctDct, [1, 1, 1, 1, 1]),
    ];

    for (tx_size, tx_type, expected) in cases {
        let mut coefficients = vec![0; tx_size.sample_count()];
        coefficients[0] = 64;
        coefficients[1] = -16;
        coefficients[tx_size.width()] = 8;
        if tx_size.width() >= 32 {
            coefficients[31 * tx_size.width() + 31] = -4;
        }
        let residual = inverse_transform(tx_type, tx_size, &coefficients, 8).unwrap();
        let positions = [
            0,
            1,
            tx_size.width(),
            tx_size.width() + 1,
            residual.len() - 1,
        ];
        assert_eq!(
            positions.map(|position| residual[position]),
            expected,
            "{tx_size:?} {tx_type:?}"
        );
    }
}

#[test]
fn identity_transform_rounds_and_clips() {
    let residual = inverse_transform(TxType::Identity, TxSize::Tx4x4, &[64; 16], 8).unwrap();

    assert_eq!(residual, vec![8; 16]);
}

#[test]
fn lossless_wht_dc_basis_is_spread_over_the_block() {
    let mut coefficients = [0i32; 16];
    coefficients[0] = 16;

    assert_eq!(inverse_lossless_transform_4x4(&coefficients), vec![1; 16]);
}

#[test]
fn lossless_wht_accepts_large_dc_coefficients() {
    let mut coefficients = [0i32; 16];
    coefficients[0] = 1 << 30;

    assert_eq!(inverse_lossless_transform_4x4(&coefficients), vec![1 << 26; 16]);
}

#[test]
fn lossless_wht_matches_aom_sparse_reference_vector() {
    let coefficients = [
        16, -8, 4, -12, 8, 0, -4, 12, -16, 20, 0, -8, 4, -20, 24, -28,
    ];

    assert_eq!(
        inverse_lossless_transform_4x4(&coefficients),
        vec![0, 2, -2, 0, 1, 1, -1, 2, -2, 6, -1, -3, 5, -1, 9, -4]
    );
}

#[test]
fn vertical_dct_only_mixes_columns() {
    let mut coeffs = vec![0; TxSize::Tx4x4.sample_count()];
    coeffs[0] = 16;
    coeffs[1] = 32;

    let residual = inverse_transform(TxType::VerticalDct, TxSize::Tx4x4, &coeffs, 8).unwrap();

    assert_eq!(
        residual,
        vec![1, 2, 0, 0, 1, 2, 0, 0, 1, 2, 0, 0, 1, 2, 0, 0]
    );
}

#[test]
fn horizontal_dct_only_mixes_rows() {
    let mut coeffs = vec![0; TxSize::Tx4x4.sample_count()];
    coeffs[0] = 16;
    coeffs[4] = 32;

    let residual = inverse_transform(TxType::HorizontalDct, TxSize::Tx4x4, &coeffs, 8).unwrap();

    assert_eq!(
        residual,
        vec![1, 1, 1, 1, 2, 2, 2, 2, 0, 0, 0, 0, 0, 0, 0, 0]
    );
}

#[test]
fn adst_dct_staging_transform_outputs_finite_residuals() {
    let mut coeffs = vec![0; TxSize::Tx4x4.sample_count()];
    coeffs[0] = 16;
    coeffs[1] = 8;
    coeffs[4] = -12;

    let residual = inverse_transform(TxType::AdstDct, TxSize::Tx4x4, &coeffs, 8).unwrap();

    assert_eq!(residual.len(), 16);
    assert!(residual.iter().any(|value| *value != 0));
    assert!(residual.iter().all(|value| value.abs() < (1 << 15)));
}
