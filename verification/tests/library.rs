//! Checks of the library's laws and edge cases on concrete values.
use avif_decoder::av1::syntax::{TxSize, TxType};
use avif_decoder::av1::transform::remap_coefficients_for_inverse_storage;
use avif_decoder::compat::{is_abort, CallbackResponse, ImageRect, NextBlend, NextDispose, NextOptions};
use avif_decoder::container::avif::is_avif_file;
use avif_decoder::container::gain_map::parse_gain_map_metadata_payload;
use avif_decoder::container::properties::parse_auxc;
use avif_decoder::container::sample_transform::{parse_sample_transform_payload, sato_tokens_fit, SampleTransformToken};
use avif_decoder::container::types::{AvifInfo, CleanAperture, ColorInformation, GridImage, ImageMirror, ImageRotation, PixelInformation};
use avif_decoder::decoder::composition::{apply_clean_aperture, apply_image_transforms, apply_mirror, apply_rotation, clean_aperture_rect};
use avif_decoder::decoder::frame::unpremultiply_rgba8;
use avif_decoder::decoder::sequence::{
    encode_obu, motion_offset, project_temporal_motion_vector, relative_order_hint_distance, split_av1_sequence_sample,
};
use avif_decoder::decoder::still::{apply_alpha_rows, compose_grid_images, scale_sample_to_u8};
use avif_decoder::decoder::{
    ceil_shift, container_metadata, container_summary, evaluate_sample_transform_expression, loop_filter_mode_delta_index,
    loop_filter_reference_delta_index, remaining_length, saturating_pow_i128,
};
use avif_decoder::compat::DataMap;
use avif_decoder::obu::{parse_obu_stream, ObuType};
use avif_decoder::{DecoderError, ImageBuffer};

fn pixels(width: usize, height: usize) -> ImageBuffer {
    ImageBuffer {
        width,
        height,
        rgba: (0..width * height * 4).map(|value| value as u8).collect(),
    }
}

#[test]
fn mirroring_twice_restores_the_image() {
    for axis in [0, 1] {
        let original = pixels(3, 2);
        let mut image = original.clone();
        apply_mirror(&mut image, Some(ImageMirror { axis })).unwrap();
        assert_ne!(image, original);
        apply_mirror(&mut image, Some(ImageMirror { axis })).unwrap();
        assert_eq!(image, original);
    }
}

#[test]
fn horizontal_mirror_reverses_columns() {
    let mut image = pixels(2, 1);
    apply_mirror(&mut image, Some(ImageMirror { axis: 0 })).unwrap();
    assert_eq!(image.rgba, vec![4, 5, 6, 7, 0, 1, 2, 3]);
    let mut image = pixels(1, 2);
    apply_mirror(&mut image, Some(ImageMirror { axis: 1 })).unwrap();
    assert_eq!(image.rgba, vec![4, 5, 6, 7, 0, 1, 2, 3]);
}

#[test]
fn four_quarter_turns_restore_the_image() {
    let original = pixels(3, 2);
    let mut image = original.clone();
    for _ in 0..4 {
        apply_rotation(&mut image, Some(ImageRotation { angle: 1 })).unwrap();
    }
    assert_eq!(image, original);
    let mut image = original.clone();
    apply_rotation(&mut image, Some(ImageRotation { angle: 3 })).unwrap();
    apply_rotation(&mut image, Some(ImageRotation { angle: 1 })).unwrap();
    assert_eq!(image, original);
}

#[test]
fn half_turn_swaps_corners() {
    let mut image = pixels(2, 1);
    apply_rotation(&mut image, Some(ImageRotation { angle: 2 })).unwrap();
    assert_eq!((image.width, image.height), (2, 1));
    assert_eq!(image.rgba, vec![4, 5, 6, 7, 0, 1, 2, 3]);
}

#[test]
fn invalid_mirror_axis_and_rotation_angle_are_rejected_unchanged() {
    let original = pixels(2, 2);
    let mut image = original.clone();
    assert!(matches!(apply_mirror(&mut image, Some(ImageMirror { axis: 2 })), Err(DecoderError::Bitstream(_))));
    assert!(matches!(apply_rotation(&mut image, Some(ImageRotation { angle: 4 })), Err(DecoderError::Bitstream(_))));
    assert_eq!(image, original);
}

fn aperture(width: u32, height: u32, x: i32, y: i32) -> CleanAperture {
    CleanAperture {
        width_n: width,
        width_d: 1,
        height_n: height,
        height_d: 1,
        horizontal_offset_n: x as u32,
        horizontal_offset_d: 1,
        vertical_offset_n: y as u32,
        vertical_offset_d: 1,
    }
}

#[test]
fn clean_aperture_crops_a_centred_window() {
    assert_eq!(clean_aperture_rect(4, 4, aperture(2, 2, 0, 0)).unwrap(), (1, 1, 2, 2));
    assert_eq!(clean_aperture_rect(4, 4, aperture(2, 2, -1, 1)).unwrap(), (0, 2, 2, 2));
    let mut image = pixels(3, 3);
    apply_clean_aperture(&mut image, Some(aperture(1, 1, 0, 0))).unwrap();
    assert_eq!((image.width, image.height), (1, 1));
    assert_eq!(image.rgba, vec![16, 17, 18, 19]);
}

#[test]
fn clean_aperture_rejects_zero_denominators_and_windows_outside() {
    let mut zero = aperture(2, 2, 0, 0);
    zero.vertical_offset_d = 0;
    assert!(matches!(clean_aperture_rect(4, 4, zero), Err(DecoderError::Bitstream(message)) if message.contains("zero denominator")));
    assert!(matches!(clean_aperture_rect(4, 4, aperture(4, 4, 1, 0)), Err(DecoderError::Bitstream(message)) if message.contains("outside")));
    assert!(matches!(clean_aperture_rect(4, 4, aperture(0, 4, 0, 0)), Err(DecoderError::Bitstream(_))));
}

#[test]
fn transforms_apply_crop_then_mirror_then_rotation() {
    let mut image = pixels(3, 1);
    apply_image_transforms(&mut image, Some(aperture(2, 1, 0, 0)), Some(ImageMirror { axis: 0 }), Some(ImageRotation { angle: 1 }))
        .unwrap();
    // Crop keeps pixels 0 and 1; the mirror swaps them; the turn stands them up.
    assert_eq!((image.width, image.height), (1, 2));
    assert_eq!(image.rgba, vec![0, 1, 2, 3, 4, 5, 6, 7]);
}

#[test]
fn storing_coefficients_twice_restores_them() {
    let original: Vec<i32> = (0..16).collect();
    let mut coefficients = original.clone();
    remap_coefficients_for_inverse_storage(TxSize::Tx4x4, TxType::AdstAdst, false, &mut coefficients);
    assert_ne!(coefficients, original);
    remap_coefficients_for_inverse_storage(TxSize::Tx4x4, TxType::AdstAdst, false, &mut coefficients);
    assert_eq!(coefficients, original);
}

#[test]
fn parsed_sample_transform_evaluates_to_one_value() {
    let payload = [1, 5, 1, 0, 1, 0, 130, 2, 128];
    assert!(sato_tokens_fit(&payload));
    let (depth, tokens) = parse_sample_transform_payload(&payload).unwrap();
    let mut stack = Vec::new();
    let value = evaluate_sample_transform_expression(&tokens, depth, 65_535, &[3, 7], &mut stack).unwrap();
    assert_eq!(value, 3 * 256 + 7);
    assert!(stack.is_empty());
}

#[test]
fn sato_token_list_running_past_its_payload_is_detected() {
    assert!(!sato_tokens_fit(&[0, 2, 0, 5]));
    assert!(sato_tokens_fit(&[0, 1, 0, 5]));
}

#[test]
fn sample_transform_evaluation_reports_operand_and_operator_errors() {
    let mut stack = Vec::new();
    let divide_by_zero = [SampleTransformToken::Constant(4), SampleTransformToken::Constant(0), SampleTransformToken::Binary(3)];
    assert!(matches!(evaluate_sample_transform_expression(&divide_by_zero, 16, 255, &[], &mut stack), Err(DecoderError::Bitstream(_))));
    let negative_power = [SampleTransformToken::Constant(2), SampleTransformToken::Constant(-1), SampleTransformToken::Binary(7)];
    assert!(matches!(evaluate_sample_transform_expression(&negative_power, 16, 255, &[], &mut stack), Err(DecoderError::Unsupported(_))));
    let missing_input = [SampleTransformToken::Input(2)];
    assert!(matches!(evaluate_sample_transform_expression(&missing_input, 16, 255, &[1, 2], &mut stack), Err(DecoderError::Bitstream(_))));
    let two_values = [SampleTransformToken::Constant(1), SampleTransformToken::Constant(2)];
    assert!(matches!(evaluate_sample_transform_expression(&two_values, 16, 255, &[], &mut stack), Err(DecoderError::Bitstream(_))));
    assert!(matches!(evaluate_sample_transform_expression(&two_values, 7, 255, &[], &mut stack), Err(DecoderError::Unsupported(_))));
}

#[test]
fn sample_transform_operators_clamp_to_the_intermediate_depth() {
    let mut stack = Vec::new();
    let tokens = [SampleTransformToken::Constant(100), SampleTransformToken::Constant(100), SampleTransformToken::Binary(2)];
    // 100 * 100 is clamped to 127 at 8 bits.
    assert_eq!(evaluate_sample_transform_expression(&tokens, 8, 1000, &[], &mut stack).unwrap(), 127);
    let tokens = [SampleTransformToken::Constant(-7), SampleTransformToken::Constant(2), SampleTransformToken::Binary(3)];
    // Division rounds toward zero; the result is then clamped to the output range.
    assert_eq!(evaluate_sample_transform_expression(&tokens, 16, 1000, &[], &mut stack).unwrap(), 0);
    let tokens = [SampleTransformToken::Constant(40), SampleTransformToken::Unary(3)];
    assert_eq!(evaluate_sample_transform_expression(&tokens, 16, 1000, &[], &mut stack).unwrap(), 5);
    assert_eq!(saturating_pow_i128(3, 4), 81);
    assert_eq!(saturating_pow_i128(-2, 127), i128::MIN);
    assert_eq!(saturating_pow_i128(2, 200), i128::MAX);
}

#[test]
fn rebuilt_obus_read_back_as_written() {
    for (obu_type, payload) in [
        (ObuType::FrameHeader, vec![9u8; 3]),
        (ObuType::TileGroup, vec![1u8; 200]),
        (ObuType::Frame, Vec::new()),
    ] {
        let encoded = encode_obu(obu_type, &payload).unwrap();
        let obus = parse_obu_stream(&encoded).unwrap();
        assert_eq!(obus.len(), 1);
        assert_eq!(obus[0].obu_type, obu_type);
        assert_eq!(obus[0].payload, payload);
    }
    assert_eq!(encode_obu(ObuType::TileGroup, &[0; 200]).unwrap()[1..3], [0xc8, 0x01]);
    assert!(matches!(encode_obu(ObuType::Padding, &[]), Err(DecoderError::Unsupported(_))));
}

#[test]
fn avis_sample_splits_into_frames_with_the_sequence_header_in_front() {
    let sequence_header = encode_obu(ObuType::SequenceHeader, &[0xaa]).unwrap();
    let frame_header = encode_obu(ObuType::FrameHeader, &[0x10]).unwrap();
    let tile_group = encode_obu(ObuType::TileGroup, &[0x20]).unwrap();
    let frame = encode_obu(ObuType::Frame, &[0x30]).unwrap();
    let sample = [sequence_header.clone(), frame_header.clone(), tile_group.clone(), frame.clone()].concat();
    let units = split_av1_sequence_sample(&sample).unwrap();
    assert_eq!(units.len(), 2);
    assert_eq!(units[0].payload, [sequence_header.clone(), frame_header, tile_group].concat());
    assert_eq!(units[1].payload, [sequence_header, frame].concat());
    assert!(units.iter().all(|unit| unit.has_sequence_header));
    assert!(matches!(split_av1_sequence_sample(&[0x80]), Err(DecoderError::Bitstream(_))));
}

#[test]
fn order_hints_and_projected_motion() {
    assert_eq!(relative_order_hint_distance(7, 1, 127), 2);
    assert_eq!(relative_order_hint_distance(7, 127, 1), -2);
    assert_eq!(relative_order_hint_distance(0, 5, 1), 0);
    assert_eq!(motion_offset(130), 2);
    assert_eq!(motion_offset(-130), -2);
    assert_eq!(project_temporal_motion_vector((64, -64), 1, 2), (32, -32));
    assert_eq!(project_temporal_motion_vector((i32::MAX, 0), 31, 1), (32767, 0));
}

#[test]
fn is_avif_file_reads_the_opening_brands() {
    let mut avif = vec![0, 0, 0, 24];
    avif.extend_from_slice(b"ftypmif1\0\0\0\0mif1avif");
    assert!(is_avif_file(&avif));
    let mut heic = vec![0, 0, 0, 16];
    heic.extend_from_slice(b"ftypheic\0\0\0\0");
    assert!(!is_avif_file(&heic));
    assert!(!is_avif_file(b"not a file"));
}

#[test]
fn gain_map_metadata_rejects_truncation_and_degenerate_values() {
    assert!(matches!(parse_gain_map_metadata_payload(&[0, 0, 0, 0]), Err(DecoderError::Bitstream(_))));
    assert!(matches!(parse_gain_map_metadata_payload(&[0]), Err(DecoderError::NotEnoughData(_))));
    let mut payload = vec![0, 0, 0, 0, 0];
    for value in [1u32, 1, 1, 1] {
        payload.extend_from_slice(&value.to_be_bytes());
    }
    let channel: [u32; 10] = [0, 1, 1, 1, 1, 1, 0, 1, 0, 1];
    for value in channel {
        payload.extend_from_slice(&value.to_be_bytes());
    }
    assert!(matches!(parse_gain_map_metadata_payload(&payload), Err(DecoderError::Bitstream(message)) if message.contains("headroom")));
    payload[17..21].copy_from_slice(&2u32.to_be_bytes());
    payload[21 + 16..21 + 20].copy_from_slice(&0u32.to_be_bytes());
    assert!(matches!(parse_gain_map_metadata_payload(&payload), Err(DecoderError::Bitstream(message)) if message.contains("gamma")));
    let mut unsupported = payload.clone();
    unsupported[1] = 3;
    assert!(matches!(parse_gain_map_metadata_payload(&unsupported), Err(DecoderError::Unsupported(message)) if message.contains("version 3 is")));
}

#[test]
fn error_text_names_the_category_and_detail() {
    assert_eq!(DecoderError::Bitstream("bad box".to_string()).to_string(), "bitstream error: bad box");
    assert_eq!(DecoderError::Io("closed".to_string()).to_string(), "io error: closed");
}

#[test]
fn auxiliary_type_text_is_decoded_up_to_its_terminator() {
    assert_eq!(parse_auxc(&[0, 0, 0, 0, b'a', b'b', 0, b'c']).unwrap(), "ab");
    assert!(matches!(parse_auxc(&[0, 0, 0, 0, 0xff]), Err(DecoderError::Bitstream(_))));
}

fn info() -> AvifInfo {
    AvifInfo {
        major_brand: *b"avif",
        compatible_brands: Vec::new(),
        primary_item_id: Some(1),
        width: Some(64),
        height: None,
        pixel_information: Some(PixelInformation { bits_per_channel: vec![8, 8, 8], extended_channels: None }),
        color_information: Some(ColorInformation { color_type: [b'n', b'c', 0xff, b'x'], payload: Vec::new() }),
        alpha_premultiplied: false,
        alpha_auxiliary_items: Vec::new(),
        alpha_grid: None,
        primary_grid: None,
        clean_aperture: None,
        rotation: None,
        mirror: None,
        av1_config: Some(vec![0x81]),
        primary_item_payload: vec![0; 5],
        sequence_sample_payloads: Vec::new(),
    }
}

#[test]
fn container_metadata_lists_present_fields_in_order() {
    let entries = container_metadata(&info());
    let keys: Vec<&str> = entries.iter().map(|(key, _)| key.as_str()).collect();
    assert_eq!(keys, vec!["Format", "width", "AVIF primary item", "AVIF bits per channel", "AVIF color type", "AV1 config"]);
    assert_eq!(entries[0].1, DataMap::Ascii("AVIF".to_string()));
    assert_eq!(entries[1].1, DataMap::UInt(64));
    assert_eq!(entries[3].1, DataMap::UIntAllay(vec![8, 8, 8]));
    assert_eq!(entries[4].1, DataMap::Ascii("nc\u{fffd}x".to_string()));
    assert_eq!(entries[5].1, DataMap::Raw(vec![0x81]));
    assert_eq!(container_summary(&info()), "AVIF 64x0 primary_item_payload=5 bytes");
}

#[test]
fn reader_length_is_checked() {
    assert_eq!(remaining_length(3, 10).unwrap(), 7);
    assert!(matches!(remaining_length(10, 3), Err(DecoderError::Bitstream(_))));
}

#[test]
fn unpremultiply_rounds_and_caps() {
    let mut rgba = vec![64, 128, 200, 128, 1, 2, 3];
    unpremultiply_rgba8(&mut rgba);
    assert_eq!(rgba, vec![128, 255, 255, 128, 1, 2, 3]);
}

#[test]
fn samples_scale_to_bytes_and_fill_alpha() {
    assert_eq!(scale_sample_to_u8(1023, 10), 255);
    assert_eq!(scale_sample_to_u8(512, 10), 128);
    let mut rgba = vec![0u8; 2 * 4];
    apply_alpha_rows(&mut rgba, 0, 2, 2, 1, 0, 0, &[0, 255], 8);
    assert_eq!(rgba, vec![0, 0, 0, 0, 0, 0, 0, 255]);
}

#[test]
fn grid_composition_reports_mismatches() {
    let grid = GridImage { item_id: 1, rows: 1, columns: 2, output_width: 2, output_height: 1, payload: Vec::new(), cells: Vec::new() };
    let cell = ImageBuffer { width: 1, height: 1, rgba: vec![7; 4] };
    assert!(matches!(compose_grid_images(&grid, &[cell.clone()], &[1, 1], &[1]), Err(DecoderError::InvalidParam(_))));
    assert!(matches!(
        compose_grid_images(&grid, &[cell.clone(), cell.clone()], &[2, 1], &[1]),
        Err(DecoderError::Bitstream(_))
    ));
    let image = compose_grid_images(&grid, &[cell.clone(), cell], &[1, 1], &[1]).unwrap();
    assert_eq!(image.rgba, vec![7; 8]);
}

#[test]
fn small_filter_helpers() {
    assert_eq!(ceil_shift(5, 1), 3);
    assert_eq!(ceil_shift(8, 2), 2);
    assert_eq!(loop_filter_reference_delta_index(true, Some(3)), 3);
    assert_eq!(loop_filter_reference_delta_index(false, Some(3)), 0);
    assert_eq!(loop_filter_reference_delta_index(true, Some(9)), 0);
    assert_eq!(loop_filter_mode_delta_index(true, true), 1);
    assert_eq!(loop_filter_mode_delta_index(true, false), 0);
}

#[test]
fn callback_responses_and_full_canvas_frames() {
    assert!(is_abort(Some(CallbackResponse::abort())));
    assert!(!is_abort(Some(CallbackResponse::cont())));
    assert!(!is_abort(None));
    let options = NextOptions::full_canvas(4, 3, 40);
    assert_eq!(options.await_time, 40);
    assert_eq!(options.image_rect, Some(ImageRect { start_x: 0, start_y: 0, width: 4, height: 3 }));
    assert_eq!(options.dispose, NextDispose::Keep);
    assert_eq!(options.blend, NextBlend::Override);
}
