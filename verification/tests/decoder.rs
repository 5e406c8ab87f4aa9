//! Decoded-image helpers: composition, transforms, alpha, filters and sample transforms.
use avif_decoder::container::sample_transform::SampleTransformToken;
use avif_decoder::container::types::{GridImage, ImageRotation};
use avif_decoder::decoder::composition::apply_image_transforms;
use avif_decoder::decoder::frame::{unpremultiply_rgba16, unpremultiply_rgba8};
use avif_decoder::decoder::still::{apply_alpha_rows, compose_grid_images};
use avif_decoder::av1::headers::CdefParams;
use avif_decoder::decoder::{
    apply_loop_filter_deltas, cdef_has_active_strengths, cdef_indices_have_active_strengths, cdef_strengths_disabled,
    evaluate_sample_transform_expression,
};
use avif_decoder::ImageBuffer;

fn cell(width: usize, height: usize, value: u8) -> ImageBuffer {
    ImageBuffer {
        width,
        height,
        rgba: vec![value; width * height * 4],
    }
}

#[test]
fn compose_grid_places_cells_in_reference_order() {
    let grid = GridImage {
        item_id: 1,
        rows: 2,
        columns: 2,
        output_width: 3,
        output_height: 3,
        payload: Vec::new(),
        cells: Vec::new(),
    };
    let cells = vec![cell(2, 2, 10), cell(1, 2, 20), cell(2, 1, 30), cell(1, 1, 40)];
    let image = compose_grid_images(&grid, &cells, &[2, 1], &[2, 1]).unwrap();
    assert_eq!((image.width, image.height), (3, 3));
    assert_eq!(image.rgba[0], 10);
    assert_eq!(image.rgba[8], 20);
    assert_eq!(image.rgba[2 * 3 * 4], 30);
    assert_eq!(image.rgba[(2 * 3 + 2) * 4], 40);
}

#[test]
fn compose_grid_crops_oversized_edge_cells_to_output() {
    let grid = GridImage {
        item_id: 1,
        rows: 2,
        columns: 1,
        output_width: 2,
        output_height: 3,
        payload: Vec::new(),
        cells: Vec::new(),
    };
    let cells = vec![cell(2, 2, 10), cell(2, 2, 20)];
    let image = compose_grid_images(&grid, &cells, &[2], &[2, 2]).unwrap();
    assert_eq!((image.width, image.height), (2, 3));
    assert_eq!(image.rgba[0], 10);
    assert_eq!(image.rgba[(2 * 2) * 4], 20);
    assert_eq!(image.rgba[(2 * 2 + 1) * 4], 20);
}

#[test]
fn irot_angle_one_rotates_counter_clockwise() {
    let mut image = ImageBuffer {
        width: 2,
        height: 1,
        rgba: vec![10, 0, 0, 255, 20, 0, 0, 255],
    };
    apply_image_transforms(&mut image, None, None, Some(ImageRotation { angle: 1 })).unwrap();

    assert_eq!((image.width, image.height), (1, 2));
    assert_eq!(image.rgba, vec![20, 0, 0, 255, 10, 0, 0, 255]);
}

#[test]
fn zero_alpha_clears_unpremultiplied_channels() {
    let mut rgba8 = vec![255, 127, 1, 0];
    unpremultiply_rgba8(&mut rgba8);
    assert_eq!(rgba8, vec![0, 0, 0, 0]);
    let mut rgba16 = vec![u16::MAX, 32768, 1, 0];
    unpremultiply_rgba16(&mut rgba16);
    assert_eq!(rgba16, vec![0, 0, 0, 0]);
}

#[test]
fn segmentation_loop_filter_delta_is_applied_before_other_deltas() {
    assert_eq!(apply_loop_filter_deltas(10, false, 7, 9, 2, 5), 17);
    assert_eq!(apply_loop_filter_deltas(10, true, 1, 2, 2, 5), 20);
    assert_eq!(apply_loop_filter_deltas(2, false, 0, 0, 0, -9), 0);
    assert_eq!(apply_loop_filter_deltas(60, true, 0, 0, 0, 9), 63);
}

#[test]
fn zero_cdef_strengths_are_detected_without_filtering() {
    assert!(cdef_strengths_disabled(0, 0));
    assert!(!cdef_strengths_disabled(1, 0));
    assert!(!cdef_strengths_disabled(0, 1));
}

#[test]
fn alpha_row_chunks_match_one_pass_with_subsampling() {
    let width = 8;
    let height = 4;
    let alpha_samples = vec![0, 64, 128, 255, 32, 96, 160, 224];
    let mut one_pass = vec![0u8; width * height * 4];
    apply_alpha_rows(&mut one_pass, 0, width, 4, 2, 1, 1, &alpha_samples, 8);
    let mut chunked = vec![0u8; width * height * 4];
    for row in 0..height {
        let start = row * width * 4;
        apply_alpha_rows(&mut chunked[start..start + width * 4], row, width, 4, 2, 1, 1, &alpha_samples, 8);
    }
    assert_eq!(chunked, one_pass);
}

#[test]
fn evaluates_64_bit_sato_expression_with_saturation() {
    let tokens = [
        SampleTransformToken::Constant(i64::MAX),
        SampleTransformToken::Constant(2),
        SampleTransformToken::Binary(0),
    ];
    let mut stack = Vec::new();
    let value = evaluate_sample_transform_expression(&tokens, 64, 65_535, &[0], &mut stack).unwrap();
    assert_eq!(value, 65_535);

    let tokens = [
        SampleTransformToken::Constant(2),
        SampleTransformToken::Constant(63),
        SampleTransformToken::Binary(7),
    ];
    let value = evaluate_sample_transform_expression(&tokens, 64, 65_535, &[0], &mut stack).unwrap();
    assert_eq!(value, 65_535);
}

#[test]
fn rebuilt_reference_probe_obus_roundtrip_through_stream_parser() {
    let encoded = avif_decoder::decoder::sequence::encode_obu(avif_decoder::obu::ObuType::SequenceHeader, &[0x01, 0x02, 0x03]).unwrap();
    let obus = avif_decoder::obu::parse_obu_stream(&encoded).unwrap();
    assert_eq!(obus.len(), 1);
    assert_eq!(obus[0].obu_type, avif_decoder::obu::ObuType::SequenceHeader);
    assert_eq!(obus[0].payload, [0x01, 0x02, 0x03]);
}

#[test]
fn all_zero_cdef_indices_skip_the_whole_stage() {
    let mut cdef = CdefParams {
        enabled: true,
        bits: 2,
        ..CdefParams::default()
    };
    assert!(!cdef_has_active_strengths(&cdef));
    cdef.strengths[2].uv_sec = 1;
    assert!(cdef_has_active_strengths(&cdef));
}

#[test]
fn cdef_presets_past_the_signalled_bits_are_not_active() {
    let mut cdef = CdefParams {
        enabled: true,
        bits: 1,
        ..CdefParams::default()
    };
    cdef.strengths[2].y_pri = 4;
    assert!(!cdef_has_active_strengths(&cdef));
    assert!(!cdef_indices_have_active_strengths(&cdef, &[0, 1, 255]));
    assert!(cdef_indices_have_active_strengths(&cdef, &[255, 2]));
    assert!(!cdef_indices_have_active_strengths(&cdef, &[9]));
}
