//! Whole-library rules checked on concrete values.
use avif_decoder::av1::syntax::{TxSize, TxType};
use avif_decoder::av1::transform::coefficient_scan;
use avif_decoder::container::sample_transform::SampleTransformToken;
use avif_decoder::decoder::evaluate_sample_transform_expression;
use avif_decoder::DecoderError;

#[test]
fn zig_zag_scan_covers_the_coded_area_once() {
    let cases = [
        (TxSize::Tx4x4, 16),
        (TxSize::Tx8x16, 128),
        (TxSize::Tx32x32, 1024),
        (TxSize::Tx64x64, 1024),
        (TxSize::Tx16x64, 512),
        (TxSize::Tx64x16, 512),
        (TxSize::Tx4x16, 64),
    ];
    for (tx_size, cells) in cases {
        let scan = coefficient_scan(tx_size, TxType::DctDct);
        assert_eq!(scan.len(), cells);
        let mut seen = scan.clone();
        seen.sort_unstable();
        seen.dedup();
        assert_eq!(seen.len(), cells);
    }
}

#[test]
fn every_scan_type_has_one_entry_per_coded_cell() {
    for tx_type in [TxType::VerticalDct, TxType::HorizontalDct, TxType::Identity] {
        assert_eq!(coefficient_scan(TxSize::Tx64x32, tx_type).len(), 1024);
        assert_eq!(coefficient_scan(TxSize::Tx8x4, tx_type).len(), 32);
    }
}

#[test]
fn unsupported_intermediate_depth_is_refused_before_evaluation() {
    let tokens = [SampleTransformToken::Input(5)];
    let mut stack = Vec::new();
    for depth in [0u8, 7, 65, 255] {
        let result = evaluate_sample_transform_expression(&tokens, depth, 255, &[], &mut stack);
        assert!(matches!(result, Err(DecoderError::Unsupported(_))));
    }
}

#[test]
fn evaluated_value_is_clamped_to_the_output_range() {
    let mut stack = Vec::new();
    let high = [SampleTransformToken::Constant(1000)];
    assert_eq!(evaluate_sample_transform_expression(&high, 16, 255, &[], &mut stack).unwrap(), 255);
    let low = [SampleTransformToken::Constant(-4)];
    assert_eq!(evaluate_sample_transform_expression(&low, 16, 255, &[], &mut stack).unwrap(), 0);
}
