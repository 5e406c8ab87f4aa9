use avif_decoder::av1::headers::{ColorConfig, ColorRange};
use avif_decoder::av1::planes::{FrameBuffers, PlaneBuffer, PlaneLayout};
use avif_decoder::container::types::{ImageMirror, ImageRotation};
use avif_decoder::decoder::frame::DecodedFrame;
use avif_decoder::decoder::native::{apply_native_mirror, apply_native_rotation};
use avif_decoder::DecoderError;

fn native_frame(width: usize, height: usize, plane: PlaneBuffer) -> DecodedFrame {
    DecodedFrame {
        width,
        height,
        render_width: width,
        render_height: height,
        bit_depth: 8,
        color_config: ColorConfig {
            high_bitdepth: false,
            twelve_bit: false,
            bit_depth: 8,
            monochrome: true,
            color_description: None,
            color_range: ColorRange::Full,
            subsampling_x: false,
            subsampling_y: false,
            chroma_sample_position: None,
            separate_uv_delta_q: false,
        },
        color_information: None,
        alpha_premultiplied: false,
        buffers: FrameBuffers {
            width,
            height,
            planes: vec![plane],
        },
    }
}

fn native_plane(width: usize, height: usize, samples: Vec<u16>) -> PlaneBuffer {
    PlaneBuffer {
        layout: PlaneLayout {
            plane: 0,
            width,
            height,
            subsampling_x: 0,
            subsampling_y: 0,
            sample_count: width * height,
        },
        samples,
    }
}

#[test]
fn native_grid_mirror_reverses_each_plane_without_reallocation() {
    let mut frame = native_frame(3, 2, native_plane(3, 2, vec![1, 2, 3, 4, 5, 6]));
    apply_native_mirror(&mut frame.buffers, ImageMirror { axis: 0 }).unwrap();
    assert_eq!(frame.buffers.planes[0].samples, vec![3, 2, 1, 6, 5, 4]);
}

#[test]
fn native_grid_rotation_updates_frame_and_plane_dimensions() {
    let mut frame = native_frame(2, 3, native_plane(2, 3, vec![1, 2, 3, 4, 5, 6]));
    apply_native_rotation(&mut frame, ImageRotation { angle: 1 }).unwrap();
    assert_eq!((frame.width, frame.height), (3, 2));
    assert_eq!(frame.buffers.planes[0].samples, vec![2, 4, 6, 1, 3, 5]);
}

#[test]
fn native_grid_rotation_swaps_422_subsampling_axes() {
    let mut frame = native_frame(4, 2, native_plane(4, 2, (10..18).collect()));
    frame.color_config.monochrome = false;
    frame.color_config.subsampling_x = true;
    frame.buffers.planes.push(PlaneBuffer {
        layout: PlaneLayout {
            plane: 1,
            width: 2,
            height: 2,
            subsampling_x: 1,
            subsampling_y: 0,
            sample_count: 4,
        },
        samples: (0..4).collect(),
    });

    apply_native_rotation(&mut frame, ImageRotation { angle: 1 }).unwrap();

    assert_eq!((frame.width, frame.height), (2, 4));
    assert_eq!(
        (
            frame.color_config.subsampling_x,
            frame.color_config.subsampling_y
        ),
        (false, true)
    );
    let chroma = &frame.buffers.planes[1];
    assert_eq!((chroma.layout.width, chroma.layout.height), (2, 2));
    assert_eq!(
        (chroma.layout.subsampling_x, chroma.layout.subsampling_y),
        (0, 1)
    );
    assert_eq!(chroma.samples, vec![1, 3, 0, 2]);
}

#[test]
fn native_mirror_about_the_horizontal_axis_reverses_row_order() {
    let mut frame = native_frame(3, 2, native_plane(3, 2, vec![1, 2, 3, 4, 5, 6]));
    apply_native_mirror(&mut frame.buffers, ImageMirror { axis: 1 }).unwrap();
    assert_eq!(frame.buffers.planes[0].samples, vec![4, 5, 6, 1, 2, 3]);
    apply_native_mirror(&mut frame.buffers, ImageMirror { axis: 1 }).unwrap();
    assert_eq!(frame.buffers.planes[0].samples, vec![1, 2, 3, 4, 5, 6]);
    let before = frame.clone();
    assert!(matches!(
        apply_native_mirror(&mut frame.buffers, ImageMirror { axis: 2 }),
        Err(DecoderError::Bitstream(_))
    ));
    assert_eq!(frame, before);
}

#[test]
fn native_rotation_by_four_quarters_restores_the_frame() {
    let mut frame = native_frame(2, 3, native_plane(2, 3, vec![1, 2, 3, 4, 5, 6]));
    let before = frame.clone();
    apply_native_rotation(&mut frame, ImageRotation { angle: 2 }).unwrap();
    assert_eq!(frame.buffers.planes[0].samples, vec![6, 5, 4, 3, 2, 1]);
    apply_native_rotation(&mut frame, ImageRotation { angle: 2 }).unwrap();
    assert_eq!(frame, before);
    assert!(matches!(
        apply_native_rotation(&mut frame, ImageRotation { angle: 4 }),
        Err(DecoderError::Bitstream(_))
    ));
    assert_eq!(frame, before);
}
