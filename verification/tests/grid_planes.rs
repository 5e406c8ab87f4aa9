use avif_decoder::av1::headers::{ColorConfig, ColorRange};
use avif_decoder::av1::planes::{FrameBuffers, PlaneBuffer, PlaneLayout};
use avif_decoder::container::types::{AvifInfo, CleanAperture, GridCell, GridImage, ImageMirror, ImageRotation};
use avif_decoder::decoder::frame::DecodedFrame;
use avif_decoder::decoder::grid_planes::{
    apply_alpha_grid, compose_alpha_grid_plane, compose_grid_frame, compose_grid_image, normalize_grid_cells,
};
use avif_decoder::decoder::native::apply_native_grid_geometry;
use avif_decoder::decoder::still::{append_alpha_plane, append_alpha_plane_buffer, apply_alpha_plane_rows, apply_alpha_rows};
use avif_decoder::{DecoderError, ImageBuffer};

fn cell(width: usize, height: usize, value: u8) -> ImageBuffer {
    ImageBuffer {
        width,
        height,
        rgba: vec![value; width * height * 4],
    }
}

fn plane(index: u8, width: usize, height: usize, subsampling: u8, samples: Vec<u16>) -> PlaneBuffer {
    PlaneBuffer {
        layout: PlaneLayout {
            plane: index,
            width,
            height,
            subsampling_x: subsampling,
            subsampling_y: subsampling,
            sample_count: samples.len(),
        },
        samples,
    }
}

fn color_config(monochrome: bool, subsampled: bool) -> ColorConfig {
    ColorConfig {
        high_bitdepth: false,
        twelve_bit: false,
        bit_depth: 8,
        monochrome,
        color_description: None,
        color_range: ColorRange::Full,
        subsampling_x: subsampled,
        subsampling_y: subsampled,
        chroma_sample_position: None,
        separate_uv_delta_q: false,
    }
}

fn frame(width: usize, height: usize, monochrome: bool, planes: Vec<PlaneBuffer>) -> DecodedFrame {
    DecodedFrame {
        width,
        height,
        render_width: width,
        render_height: height,
        bit_depth: 8,
        color_config: color_config(monochrome, true),
        color_information: None,
        alpha_premultiplied: false,
        buffers: FrameBuffers { width, height, planes },
    }
}

fn grid_cell(item_id: u32, width: u32, height: u32) -> GridCell {
    GridCell {
        item_id,
        width,
        height,
        pixel_information: None,
        color_information: None,
        av1_config: None,
        payload: Vec::new(),
    }
}

fn grid(rows: u8, columns: u8, output_width: u32, output_height: u32, cells: Vec<GridCell>) -> GridImage {
    GridImage {
        item_id: 1,
        rows,
        columns,
        output_width,
        output_height,
        payload: Vec::new(),
        cells,
    }
}

fn info_with_grid(primary_grid: GridImage) -> AvifInfo {
    AvifInfo {
        major_brand: *b"avif",
        compatible_brands: vec![*b"avif"],
        primary_item_id: Some(1),
        width: None,
        height: None,
        pixel_information: None,
        color_information: None,
        alpha_premultiplied: false,
        alpha_auxiliary_items: Vec::new(),
        alpha_grid: None,
        primary_grid: Some(primary_grid),
        clean_aperture: None,
        rotation: None,
        mirror: None,
        av1_config: None,
        primary_item_payload: Vec::new(),
        sequence_sample_payloads: Vec::new(),
    }
}

#[test]
fn alpha_grid_rejects_mismatched_output_dimensions() {
    let mut image = cell(2, 1, 90);
    let grid = GridImage {
        item_id: 2,
        rows: 1,
        columns: 1,
        output_width: 1,
        output_height: 1,
        payload: Vec::new(),
        cells: Vec::new(),
    };
    let error = apply_alpha_grid(&mut image, &grid, &[]).unwrap_err();
    assert!(error.to_string().contains("dimensions do not match"));
}

#[test]
fn alpha_grid_takes_alpha_from_the_first_byte_of_each_cell_pixel() {
    let mut image = ImageBuffer { width: 2, height: 1, rgba: vec![1, 2, 3, 4, 5, 6, 7, 8] };
    let alpha_grid = grid(1, 1, 2, 1, vec![grid_cell(7, 2, 1)]);
    let alpha_cell = ImageBuffer { width: 2, height: 1, rgba: vec![100, 0, 0, 255, 200, 0, 0, 255] };
    apply_alpha_grid(&mut image, &alpha_grid, &[alpha_cell]).unwrap();
    assert_eq!(image.rgba, vec![1, 2, 3, 100, 5, 6, 7, 200]);
    let mismatched = grid(1, 1, 2, 1, vec![grid_cell(7, 2, 1)]);
    assert!(matches!(
        apply_alpha_grid(&mut image, &mismatched, &[cell(1, 1, 0)]),
        Err(DecoderError::Bitstream(_))
    ));
}

#[test]
fn rgba_grid_image_places_and_clips_cells() {
    let info = info_with_grid(grid(1, 2, 3, 1, vec![grid_cell(2, 2, 1), grid_cell(3, 2, 1)]));
    let image = compose_grid_image(&info, &[cell(2, 1, 10), cell(2, 1, 20)]).unwrap();
    assert_eq!((image.width, image.height), (3, 1));
    assert_eq!(image.rgba, vec![10, 10, 10, 10, 10, 10, 10, 10, 20, 20, 20, 20]);
    let uncovered = info_with_grid(grid(1, 2, 5, 1, vec![grid_cell(2, 2, 1), grid_cell(3, 2, 1)]));
    assert!(matches!(
        compose_grid_image(&uncovered, &[cell(2, 1, 10), cell(2, 1, 20)]),
        Err(DecoderError::Bitstream(message)) if message.contains("cover")
    ));
    let zero = info_with_grid(grid(1, 2, 3, 1, vec![grid_cell(2, 0, 1), grid_cell(3, 2, 1)]));
    assert!(matches!(compose_grid_image(&zero, &[cell(2, 1, 10), cell(2, 1, 20)]), Err(DecoderError::Bitstream(_))));
}

#[test]
fn alpha_grid_plane_composes_cells_side_by_side() {
    let alpha_grid = grid(1, 2, 4, 1, vec![grid_cell(2, 2, 1), grid_cell(3, 2, 1)]);
    let cells = vec![
        frame(2, 1, true, vec![plane(0, 2, 1, 0, vec![1, 2])]),
        frame(2, 1, true, vec![plane(0, 2, 1, 0, vec![3, 4])]),
    ];
    let (alpha, bit_depth) = compose_alpha_grid_plane(&alpha_grid, &cells).unwrap();
    assert_eq!(bit_depth, 8);
    assert_eq!(alpha.layout.plane, 3);
    assert_eq!((alpha.layout.width, alpha.layout.height, alpha.layout.sample_count), (4, 1, 4));
    assert_eq!(alpha.samples, vec![1, 2, 3, 4]);
    let mut other_depth = cells.clone();
    other_depth[1].bit_depth = 10;
    assert!(matches!(compose_alpha_grid_plane(&alpha_grid, &other_depth), Err(DecoderError::Unsupported(_))));
    assert!(matches!(compose_alpha_grid_plane(&alpha_grid, &cells[..1]), Err(DecoderError::Bitstream(_))));
}

fn subsampled_cell(luma: [u16; 4], cb: u16, cr: u16) -> DecodedFrame {
    frame(
        2,
        2,
        false,
        vec![plane(0, 2, 2, 0, luma.to_vec()), plane(1, 1, 1, 1, vec![cb]), plane(2, 1, 1, 1, vec![cr])],
    )
}

#[test]
fn grid_frame_composes_every_plane_in_its_subsampling() {
    let info = info_with_grid(grid(1, 2, 4, 2, vec![grid_cell(2, 2, 2), grid_cell(3, 2, 2)]));
    let cells = vec![subsampled_cell([1, 2, 3, 4], 10, 20), subsampled_cell([5, 6, 7, 8], 11, 21)];
    let composed = compose_grid_frame(&info, cells).unwrap();
    assert_eq!((composed.width, composed.height), (4, 2));
    assert_eq!(composed.buffers.planes.len(), 3);
    assert_eq!(composed.buffers.planes[0].samples, vec![1, 2, 5, 6, 3, 4, 7, 8]);
    assert_eq!((composed.buffers.planes[1].layout.width, composed.buffers.planes[1].layout.height), (2, 1));
    assert_eq!(composed.buffers.planes[1].samples, vec![10, 11]);
    assert_eq!(composed.buffers.planes[2].samples, vec![20, 21]);
}

#[test]
fn grid_frame_gives_monochrome_cells_neutral_chroma() {
    let info = info_with_grid(grid(1, 2, 4, 2, vec![grid_cell(2, 2, 2), grid_cell(3, 2, 2)]));
    let monochrome = frame(2, 2, true, vec![plane(0, 2, 2, 0, vec![5, 6, 7, 8])]);
    let cells = vec![subsampled_cell([1, 2, 3, 4], 10, 20), monochrome];
    let composed = compose_grid_frame(&info, cells).unwrap();
    assert_eq!(composed.buffers.planes[0].samples, vec![1, 2, 5, 6, 3, 4, 7, 8]);
    assert_eq!(composed.buffers.planes[1].samples, vec![10, 128]);
    assert_eq!(composed.buffers.planes[2].samples, vec![20, 128]);
}

#[test]
fn grid_frame_rejects_cells_of_another_layout_or_misaligned_chroma() {
    let info = info_with_grid(grid(1, 2, 4, 2, vec![grid_cell(2, 2, 2), grid_cell(3, 2, 2)]));
    let mut deep = subsampled_cell([5, 6, 7, 8], 11, 21);
    deep.bit_depth = 10;
    assert!(matches!(
        compose_grid_frame(&info, vec![subsampled_cell([1, 2, 3, 4], 10, 20), deep]),
        Err(DecoderError::Unsupported(_))
    ));
    let odd = info_with_grid(grid(1, 2, 4, 2, vec![grid_cell(2, 1, 2), grid_cell(3, 3, 2)]));
    let narrow = frame(1, 2, false, vec![plane(0, 1, 2, 0, vec![1, 3]), plane(1, 1, 1, 1, vec![10]), plane(2, 1, 1, 1, vec![20])]);
    let wide = frame(3, 2, false, vec![plane(0, 3, 2, 0, vec![1, 2, 3, 4, 5, 6]), plane(1, 2, 1, 1, vec![11, 12]), plane(2, 2, 1, 1, vec![21, 22])]);
    assert!(matches!(compose_grid_frame(&odd, vec![narrow, wide]), Err(DecoderError::Unsupported(_))));
    let missing = AvifInfo { primary_grid: None, ..info.clone() };
    assert!(matches!(compose_grid_frame(&missing, Vec::new()), Err(DecoderError::Bitstream(_))));
}

#[test]
fn normalizing_grid_cells_adds_opaque_alpha_where_the_grid_has_alpha() {
    let mut with_alpha = subsampled_cell([1, 2, 3, 4], 10, 20);
    with_alpha.buffers.planes.push(plane(3, 2, 2, 0, vec![9, 9, 9, 9]));
    let mut cells = vec![with_alpha, subsampled_cell([5, 6, 7, 8], 11, 21)];
    normalize_grid_cells(&mut cells).unwrap();
    assert_eq!(cells[0].buffers.planes.len(), 4);
    assert_eq!(cells[1].buffers.planes.len(), 4);
    assert_eq!(cells[1].buffers.planes[3].layout.plane, 3);
    assert_eq!(cells[1].buffers.planes[3].samples, vec![255; 4]);
    let mut lumaless = vec![subsampled_cell([1, 2, 3, 4], 10, 20), frame(2, 2, true, vec![plane(3, 2, 2, 0, vec![1; 4])])];
    assert!(matches!(normalize_grid_cells(&mut lumaless), Err(DecoderError::Bitstream(message)) if message.contains("luma")));
}

#[test]
fn appended_alpha_is_rescaled_to_the_frame_depth() {
    let mut base = subsampled_cell([1, 2, 3, 4], 10, 20);
    base.bit_depth = 10;
    append_alpha_plane_buffer(&mut base, plane(0, 2, 2, 0, vec![0, 128, 255, 255]), 8).unwrap();
    let alpha = &base.buffers.planes[3];
    assert_eq!(alpha.layout.plane, 3);
    assert_eq!(alpha.samples, vec![0, 514, 1023, 1023]);
    assert!(matches!(
        append_alpha_plane_buffer(&mut base, plane(0, 2, 2, 0, vec![0; 4]), 10),
        Err(DecoderError::Bitstream(message)) if message.contains("duplicate")
    ));
    let mut empty_target = subsampled_cell([1, 2, 3, 4], 10, 20);
    assert!(matches!(
        append_alpha_plane_buffer(&mut empty_target, plane(0, 0, 2, 0, Vec::new()), 8),
        Err(DecoderError::Bitstream(_))
    ));
    assert_eq!(empty_target.buffers.planes.len(), 3);
}

#[test]
fn appended_alpha_frame_must_match_and_be_single_plane() {
    let mut base = subsampled_cell([1, 2, 3, 4], 10, 20);
    let small = frame(1, 1, true, vec![plane(0, 1, 1, 0, vec![7])]);
    assert!(matches!(append_alpha_plane(&mut base, &small), Err(DecoderError::Bitstream(_))));
    let two_planes = frame(2, 2, true, vec![plane(0, 2, 2, 0, vec![7; 4]), plane(1, 1, 1, 1, vec![7])]);
    assert!(matches!(append_alpha_plane(&mut base, &two_planes), Err(DecoderError::Unsupported(_))));
    let alpha = frame(2, 2, true, vec![plane(0, 2, 2, 0, vec![7, 8, 9, 10])]);
    append_alpha_plane(&mut base, &alpha).unwrap();
    assert_eq!(base.buffers.planes[3].samples, vec![7, 8, 9, 10]);
}

#[test]
fn alpha_plane_rows_scale_and_subsample() {
    let mut rgba = vec![1, 2, 3, 4, 5, 6, 7, 8, 9, 10, 11, 12, 13, 14, 15, 16];
    let alpha = plane(0, 1, 1, 1, vec![1023]);
    apply_alpha_plane_rows(&mut rgba, 2, 2, &alpha, 10);
    assert_eq!(rgba, vec![1, 2, 3, 255, 5, 6, 7, 255, 9, 10, 11, 255, 13, 14, 15, 255]);
}

#[test]
fn alpha_rows_written_in_row_chunks_match_one_pass() {
    let samples: Vec<u16> = (0..12).map(|value| value * 20).collect();
    let mut whole = vec![0u8; 3 * 4 * 4];
    apply_alpha_rows(&mut whole, 0, 3, 3, 4, 0, 0, &samples, 8);
    let mut split = vec![0u8; 3 * 4 * 4];
    let (top, bottom) = split.split_at_mut(3 * 4);
    apply_alpha_rows(top, 0, 3, 3, 4, 0, 0, &samples, 8);
    apply_alpha_rows(bottom, 1, 3, 3, 4, 0, 0, &samples, 8);
    assert_eq!(split, whole);
    assert_eq!(whole[3], 0);
    assert_eq!(whole[4 * 4 + 3], 80);
}

#[test]
fn native_geometry_crops_mirrors_and_turns_planes() {
    let mut image = frame(4, 2, true, vec![plane(0, 4, 2, 0, vec![1, 2, 3, 4, 5, 6, 7, 8])]);
    let mut info = info_with_grid(grid(1, 1, 4, 2, vec![grid_cell(2, 4, 2)]));
    info.clean_aperture = Some(CleanAperture {
        width_n: 2,
        width_d: 1,
        height_n: 2,
        height_d: 1,
        horizontal_offset_n: 0,
        horizontal_offset_d: 1,
        vertical_offset_n: 0,
        vertical_offset_d: 1,
    });
    let mut cropped_only = image.clone();
    let crop_info = info.clone();
    apply_native_grid_geometry(&mut cropped_only, &crop_info).unwrap();
    assert_eq!((cropped_only.width, cropped_only.height), (2, 2));
    assert_eq!(cropped_only.buffers.planes[0].samples, vec![2, 3, 6, 7]);
    info.mirror = Some(ImageMirror { axis: 0 });
    info.rotation = Some(ImageRotation { angle: 1 });
    apply_native_grid_geometry(&mut image, &info).unwrap();
    assert_eq!(image.buffers.planes[0].samples, vec![2, 6, 3, 7]);
}

#[test]
fn native_geometry_rejects_a_crop_off_the_chroma_grid() {
    let mut image = subsampled_cell([1, 2, 3, 4], 10, 20);
    let mut info = info_with_grid(grid(1, 1, 2, 2, vec![grid_cell(2, 2, 2)]));
    info.clean_aperture = Some(CleanAperture {
        width_n: 1,
        width_d: 1,
        height_n: 1,
        height_d: 1,
        horizontal_offset_n: 0,
        horizontal_offset_d: 1,
        vertical_offset_n: 0,
        vertical_offset_d: 1,
    });
    assert!(matches!(apply_native_grid_geometry(&mut image, &info), Err(DecoderError::Unsupported(_))));
}
