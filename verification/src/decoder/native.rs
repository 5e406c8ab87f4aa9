//! The geometric transforms of an item applied to decoded planes before colour
//! conversion: mirror and anticlockwise quarter turns of every plane.
use vstd::prelude::*;
use crate::av1::headers::ColorConfig;
use crate::av1::planes::{plane_views, FrameBuffers, FrameBuffersView, PlaneBuffer, PlaneLayout, PlaneView};
use crate::container::types::{AvifInfo, CleanAperture, ImageMirror, ImageRotation};
use crate::decoder::composition::{aperture_rect, clean_aperture_rect};
use crate::decoder::frame::{DecodedFrame, DecodedFrameView};
use crate::decoder::grid_planes::decoded_planes_valid;
use crate::error::{DecoderError, ErrorKind};

verus! {

/// The samples with every whole row of `width` reversed (a mirror about the
/// vertical axis); a trailing partial row is kept.
pub open spec fn row_reversed(samples: Seq<u16>, width: int) -> Seq<u16> {
    Seq::new(
        samples.len(),
        |i: int|
            if i < samples.len() as int / width * width {
                samples[i / width * width + (width - 1 - i % width)]
            } else {
                samples[i]
            },
    )
}

/// The samples with the first `height` rows of `width` in reverse order (a mirror
/// about the horizontal axis); samples past them are kept.
pub open spec fn rows_reversed(samples: Seq<u16>, width: int, height: int) -> Seq<u16> {
    Seq::new(
        samples.len(),
        |i: int|
            if i < width * height {
                samples[(height - 1 - i / width) * width + i % width]
            } else {
                samples[i]
            },
    )
}

/// The `width` by `height` samples turned a quarter anticlockwise: sample (x, y)
/// moves to (y, width - 1 - x) of a plane `height` wide. Samples past the plane
/// become zero.
pub open spec fn quarter_turned(samples: Seq<u16>, width: int, height: int) -> Seq<u16> {
    Seq::new(
        samples.len(),
        |j: int|
            if j < width * height {
                samples[(j % height) * width + (width - 1 - j / height)]
            } else {
                0
            },
    )
}

/// A plane mirrored about the vertical axis (`axis` 0) or the horizontal one.
pub open spec fn mirrored_plane(plane: PlaneView, axis: u8) -> PlaneView {
    PlaneView {
        layout: plane.layout,
        samples: if axis == 0 {
            row_reversed(plane.samples, plane.layout.width as int)
        } else {
            rows_reversed(plane.samples, plane.layout.width as int, plane.layout.height as int)
        },
    }
}

/// A plane turned a quarter anticlockwise: width and height exchange, and so do the
/// subsampling factors of a plane other than the first.
pub open spec fn turned_plane(plane: PlaneView) -> PlaneView {
    let layout = plane.layout;
    PlaneView {
        layout: PlaneLayout {
            plane: layout.plane,
            width: layout.height,
            height: layout.width,
            subsampling_x: if layout.plane != 0 { layout.subsampling_y } else { layout.subsampling_x },
            subsampling_y: if layout.plane != 0 { layout.subsampling_x } else { layout.subsampling_y },
            sample_count: plane.samples.len() as usize,
        },
        samples: quarter_turned(plane.samples, layout.width as int, layout.height as int),
    }
}

/// A plane holds at least its `width` by `height` samples.
pub open spec fn plane_covered(plane: PlaneView) -> bool {
    plane.layout.width * plane.layout.height <= plane.samples.len()
}

/// A frame turned a quarter anticlockwise: every plane turns, and the frame's
/// dimensions and chroma subsampling exchange their axes.
pub open spec fn turned_frame(frame: DecodedFrameView) -> DecodedFrameView {
    DecodedFrameView {
        width: frame.height,
        height: frame.width,
        render_width: frame.render_height,
        render_height: frame.render_width,
        bit_depth: frame.bit_depth,
        color_config: ColorConfig {
            subsampling_x: frame.color_config.subsampling_y,
            subsampling_y: frame.color_config.subsampling_x,
            ..frame.color_config
        },
        color_information: frame.color_information,
        alpha_premultiplied: frame.alpha_premultiplied,
        buffers: FrameBuffersView {
            width: frame.buffers.height,
            height: frame.buffers.width,
            planes: frame.buffers.planes.map_values(|plane: PlaneView| turned_plane(plane)),
        },
    }
}

/// A frame turned `turns` quarters anticlockwise.
pub open spec fn frame_turns(frame: DecodedFrameView, turns: nat) -> DecodedFrameView
    decreases turns,
{
    if turns == 0 {
        frame
    } else {
        turned_frame(frame_turns(frame, (turns - 1) as nat))
    }
}

/// Index `y * width + x` of a `width` by `height` plane lies in the plane, and
/// gives back its column and row.
pub proof fn lemma_cell_decode(width: int, height: int, x: int, y: int)
    requires
        0 <= x < width,
        0 <= y < height,
    ensures
        0 <= y * width + x < width * height,
        (y * width + x) / width == y,
        (y * width + x) % width == x,
{
    assert(y * width + x < width * height) by (nonlinear_arith)
        requires
            0 <= x < width,
            0 <= y < height,
    ;
    assert(0 <= y * width) by (nonlinear_arith)
        requires
            0 <= y,
            0 <= width,
    ;
    vstd::arithmetic::div_mod::lemma_fundamental_div_mod_converse(y * width + x, width, y, x);
}

/// An index of a `width` by `height` plane splits into its column and row.
pub proof fn lemma_cell_encode(width: int, height: int, i: int)
    requires
        0 <= width,
        0 <= height,
        0 <= i < width * height,
    ensures
        0 < width,
        0 < height,
        0 <= i % width < width,
        0 <= i / width < height,
        i == (i / width) * width + i % width,
{
    assert(0 < width && 0 < height) by (nonlinear_arith)
        requires
            0 <= width,
            0 <= height,
            0 <= i < width * height,
    ;
    vstd::arithmetic::div_mod::lemma_fundamental_div_mod(i, width);
    vstd::arithmetic::div_mod::lemma_mod_bound(i, width);
    vstd::arithmetic::div_mod::lemma_div_pos_is_pos(i, width);
    assert(i / width < height) by (nonlinear_arith)
        requires
            0 < width,
            i == width * (i / width) + i % width,
            0 <= i % width,
            i < width * height,
    ;
    assert(width * (i / width) == (i / width) * width) by (nonlinear_arith);
}

/// Reverses every whole row of `width` samples.
fn reverse_rows(samples: &[u16], width: usize) -> (reversed: Vec<u16>)
    requires
        0 < width,
    ensures
        reversed@ == row_reversed(samples@, width as int),
{
    let total = samples.len();
    let ghost target = row_reversed(samples@, width as int);
    proof {
        vstd::arithmetic::div_mod::lemma_fundamental_div_mod(total as int, width as int);
        vstd::arithmetic::div_mod::lemma_mod_bound(total as int, width as int);
        assert(total as int / width as int * width == width * (total as int / width as int)) by (nonlinear_arith);
    }
    let full = total / width * width;
    let mut reversed: Vec<u16> = Vec::new();
    let mut i: usize = 0;
    while i < total
        invariant
            0 < width,
            total == samples@.len(),
            full == total as int / width as int * width,
            full <= total,
            target == row_reversed(samples@, width as int),
            i <= total,
            reversed@.len() == i,
            forall|j: int| 0 <= j < i ==> reversed@[j] == target[j],
        decreases total - i,
    {
        let value = if i < full {
            let row = i / width;
            let column = i % width;
            proof {
                vstd::arithmetic::div_mod::lemma_fundamental_div_mod(i as int, width as int);
                vstd::arithmetic::div_mod::lemma_mod_bound(i as int, width as int);
                assert(row * width + width <= full) by (nonlinear_arith)
                    requires
                        i == width * row + column,
                        0 <= column < width,
                        0 <= row,
                        i < full,
                        full == total as int / width as int * width,
                        0 < width,
                ;
            }
            samples[row * width + (width - 1 - column)]
        } else {
            samples[i]
        };
        reversed.push(value);
        i = i + 1;
    }
    assert(reversed@ =~= target);
    reversed
}

/// Puts the first `height` rows of `width` samples in reverse order.
fn reverse_row_order(samples: &[u16], width: usize, height: usize) -> (reversed: Vec<u16>)
    requires
        width * height <= samples@.len(),
    ensures
        reversed@ == rows_reversed(samples@, width as int, height as int),
{
    let total = samples.len();
    let area = width * height;
    let ghost target = rows_reversed(samples@, width as int, height as int);
    let mut reversed: Vec<u16> = Vec::new();
    let mut i: usize = 0;
    while i < total
        invariant
            total == samples@.len(),
            area == width * height,
            area <= total,
            target == rows_reversed(samples@, width as int, height as int),
            i <= total,
            reversed@.len() == i,
            forall|j: int| 0 <= j < i ==> reversed@[j] == target[j],
        decreases total - i,
    {
        let value = if i < area {
            proof {
                lemma_cell_encode(width as int, height as int, i as int);
                lemma_cell_decode(width as int, height as int, i as int % width as int, height - 1 - i as int / width as int);
            }
            samples[(height - 1 - i / width) * width + i % width]
        } else {
            samples[i]
        };
        reversed.push(value);
        i = i + 1;
    }
    assert(reversed@ =~= target);
    reversed
}

/// Turns `width` by `height` samples a quarter anticlockwise.
fn turn_samples(samples: &[u16], width: usize, height: usize) -> (turned: Vec<u16>)
    requires
        width * height <= samples@.len(),
    ensures
        turned@ == quarter_turned(samples@, width as int, height as int),
{
    let total = samples.len();
    let area = width * height;
    let ghost target = quarter_turned(samples@, width as int, height as int);
    let mut turned: Vec<u16> = Vec::new();
    let mut j: usize = 0;
    while j < total
        invariant
            total == samples@.len(),
            area == width * height,
            area <= total,
            target == quarter_turned(samples@, width as int, height as int),
            j <= total,
            turned@.len() == j,
            forall|k: int| 0 <= k < j ==> turned@[k] == target[k],
        decreases total - j,
    {
        let value = if j < area {
            proof {
                assert(height * width == width * height) by (nonlinear_arith);
                lemma_cell_encode(height as int, width as int, j as int);
                lemma_cell_decode(width as int, height as int, width - 1 - j as int / height as int, j as int % height as int);
            }
            samples[(j % height) * width + (width - 1 - j / height)]
        } else {
            0
        };
        turned.push(value);
        j = j + 1;
    }
    assert(turned@ =~= target);
    turned
}

/// Mirrors every plane about the vertical axis (`axis` 0: each row reversed) or the
/// horizontal axis (`axis` 1: row order reversed). Any other axis is a bitstream
/// error that leaves the planes as they were.
pub fn apply_native_mirror(buffers: &mut FrameBuffers, mirror: ImageMirror) -> (result: Result<(), DecoderError>)
    requires
        mirror.axis == 0 ==> forall|p: int| 0 <= p < old(buffers).planes@.len() ==> 0 < (#[trigger] old(buffers).planes@[p]).layout.width,
        mirror.axis == 1 ==> forall|p: int| 0 <= p < old(buffers).planes@.len() ==> plane_covered((#[trigger] old(buffers).planes@[p])@),
    ensures
        result is Ok <==> mirror.axis <= 1,
        match result {
            Ok(()) => final(buffers)@ == (FrameBuffersView {
                width: old(buffers)@.width,
                height: old(buffers)@.height,
                planes: old(buffers)@.planes.map_values(|plane: PlaneView| mirrored_plane(plane, mirror.axis)),
            }),
            Err(error) => error.kind() == ErrorKind::Bitstream && final(buffers)@ == old(buffers)@,
        },
{
    if mirror.axis > 1 {
        return Err(DecoderError::Bitstream("AVIF mirror axis is invalid".to_string()));
    }
    let ghost original = buffers@;
    let ghost planes = buffers.planes@;
    let mut p: usize = 0;
    while p < buffers.planes.len()
        invariant
            mirror.axis <= 1,
            original == old(buffers)@,
            planes == old(buffers).planes@,
            mirror.axis == 0 ==> forall|q: int| 0 <= q < planes.len() ==> 0 < (#[trigger] planes[q]).layout.width,
            mirror.axis == 1 ==> forall|q: int| 0 <= q < planes.len() ==> plane_covered((#[trigger] planes[q])@),
            buffers.width == original.width,
            buffers.height == original.height,
            buffers.planes@.len() == planes.len(),
            p <= planes.len(),
            forall|q: int| 0 <= q < p ==> (#[trigger] buffers.planes@[q])@ == mirrored_plane(planes[q]@, mirror.axis),
            forall|q: int| p <= q < planes.len() ==> #[trigger] buffers.planes@[q] == planes[q],
        decreases planes.len() - p,
    {
        let layout = buffers.planes[p].layout;
        assert(buffers.planes@[p as int] == planes[p as int]);
        let samples = if mirror.axis == 0 {
            reverse_rows(buffers.planes[p].samples.as_slice(), layout.width)
        } else {
            reverse_row_order(buffers.planes[p].samples.as_slice(), layout.width, layout.height)
        };
        buffers.planes.set(p, PlaneBuffer { layout, samples });
        p = p + 1;
    }
    proof {
        let expected = original.planes.map_values(|plane: PlaneView| mirrored_plane(plane, mirror.axis));
        assert forall|q: int| 0 <= q < planes.len() implies buffers@.planes[q] == expected[q] by {
            assert(buffers.planes@[q]@ == mirrored_plane(planes[q]@, mirror.axis));
        }
        assert(buffers@.planes =~= expected);
    }
    Ok(())
}

/// Turns every plane of the frame a quarter anticlockwise.
fn turn_frame_once(frame: &mut DecodedFrame)
    requires
        forall|p: int| 0 <= p < old(frame).buffers.planes@.len() ==> plane_covered((#[trigger] old(frame).buffers.planes@[p])@),
    ensures
        final(frame)@ == turned_frame(old(frame)@),
        forall|p: int| 0 <= p < final(frame).buffers.planes@.len() ==> plane_covered((#[trigger] final(frame).buffers.planes@[p])@),
{
    let ghost original = frame@;
    let ghost planes = frame.buffers.planes@;
    let mut p: usize = 0;
    while p < frame.buffers.planes.len()
        invariant
            original == old(frame)@,
            planes == old(frame).buffers.planes@,
            forall|q: int| 0 <= q < planes.len() ==> plane_covered((#[trigger] planes[q])@),
            frame.width == original.width,
            frame.height == original.height,
            frame.render_width == original.render_width,
            frame.render_height == original.render_height,
            frame.bit_depth == original.bit_depth,
            frame.color_config == original.color_config,
            frame@.color_information == original.color_information,
            frame.alpha_premultiplied == original.alpha_premultiplied,
            frame.buffers.width == original.buffers.width,
            frame.buffers.height == original.buffers.height,
            frame.buffers.planes@.len() == planes.len(),
            p <= planes.len(),
            forall|q: int| 0 <= q < p ==> (#[trigger] frame.buffers.planes@[q])@ == turned_plane(planes[q]@),
            forall|q: int| p <= q < planes.len() ==> #[trigger] frame.buffers.planes@[q] == planes[q],
        decreases planes.len() - p,
    {
        assert(frame.buffers.planes@[p as int] == planes[p as int]);
        let layout = frame.buffers.planes[p].layout;
        let samples = turn_samples(frame.buffers.planes[p].samples.as_slice(), layout.width, layout.height);
        let swap_axes = layout.plane != 0;
        let turned_layout = PlaneLayout {
            plane: layout.plane,
            width: layout.height,
            height: layout.width,
            subsampling_x: if swap_axes { layout.subsampling_y } else { layout.subsampling_x },
            subsampling_y: if swap_axes { layout.subsampling_x } else { layout.subsampling_y },
            sample_count: samples.len(),
        };
        frame.buffers.planes.set(p, PlaneBuffer { layout: turned_layout, samples });
        p = p + 1;
    }
    let width = frame.width;
    frame.width = frame.height;
    frame.height = width;
    let render_width = frame.render_width;
    frame.render_width = frame.render_height;
    frame.render_height = render_width;
    let subsampling_x = frame.color_config.subsampling_x;
    frame.color_config.subsampling_x = frame.color_config.subsampling_y;
    frame.color_config.subsampling_y = subsampling_x;
    let buffers_width = frame.buffers.width;
    frame.buffers.width = frame.buffers.height;
    frame.buffers.height = buffers_width;
    proof {
        let expected = turned_frame(original);
        assert forall|q: int| 0 <= q < planes.len() implies frame@.buffers.planes[q] == expected.buffers.planes[q] by {
            assert(frame.buffers.planes@[q]@ == turned_plane(planes[q]@));
        }
        assert(frame@.buffers.planes =~= expected.buffers.planes);
        assert forall|q: int| 0 <= q < frame.buffers.planes@.len() implies plane_covered((#[trigger] frame.buffers.planes@[q])@) by {
            assert(frame.buffers.planes@[q]@ == turned_plane(planes[q]@));
            let layout = planes[q].layout;
            assert(layout.height * layout.width == layout.width * layout.height) by (nonlinear_arith);
        }
    }
}

/// Turns the frame by the quarter turns of an `irot` property, anticlockwise: each
/// plane turns, and the frame's dimensions and chroma subsampling exchange their
/// axes once per turn. An angle above three is a bitstream error that leaves the
/// frame as it was.
pub fn apply_native_rotation(frame: &mut DecodedFrame, rotation: ImageRotation) -> (result: Result<(), DecoderError>)
    requires
        forall|p: int| 0 <= p < old(frame).buffers.planes@.len() ==> plane_covered((#[trigger] old(frame).buffers.planes@[p])@),
    ensures
        result is Ok <==> rotation.angle <= 3,
        match result {
            Ok(()) => final(frame)@ == frame_turns(old(frame)@, rotation.angle as nat),
            Err(error) => error.kind() == ErrorKind::Bitstream && final(frame)@ == old(frame)@,
        },
{
    if rotation.angle > 3 {
        return Err(DecoderError::Bitstream("AVIF rotation angle is invalid".to_string()));
    }
    let ghost original = frame@;
    let mut turn: u8 = 0;
    while turn < rotation.angle
        invariant
            original == old(frame)@,
            turn <= rotation.angle,
            frame@ == frame_turns(original, turn as nat),
            forall|p: int| 0 <= p < frame.buffers.planes@.len() ==> plane_covered((#[trigger] frame.buffers.planes@[p])@),
        decreases rotation.angle - turn,
    {
        turn_frame_once(frame);
        turn = turn + 1;
    }
    Ok(())
}

/// A plane holds exactly its `width` by `height` samples, and says so.
pub open spec fn plane_well_formed(plane: PlaneView) -> bool {
    &&& plane.samples.len() == plane.layout.width * plane.layout.height
    &&& plane.layout.sample_count == plane.samples.len()
}

/// Mirroring a plane twice about the same axis gives it back.
pub proof fn lemma_native_mirror_twice(plane: PlaneView, axis: u8)
    requires
        axis <= 1,
        axis == 0 ==> 0 < plane.layout.width,
        axis == 1 ==> plane_covered(plane),
    ensures
        mirrored_plane(mirrored_plane(plane, axis), axis) == plane,
{
    let s = plane.samples;
    let width = plane.layout.width as int;
    let height = plane.layout.height as int;
    let once = mirrored_plane(plane, axis).samples;
    let twice = mirrored_plane(mirrored_plane(plane, axis), axis).samples;
    if axis == 0 {
        let full = s.len() as int / width * width;
        vstd::arithmetic::div_mod::lemma_fundamental_div_mod(s.len() as int, width);
        vstd::arithmetic::div_mod::lemma_mod_bound(s.len() as int, width);
        assert(full <= s.len()) by (nonlinear_arith)
            requires
                s.len() == width * (s.len() as int / width) + s.len() as int % width,
                s.len() as int % width >= 0,
                full == s.len() as int / width * width,
        ;
        assert forall|i: int| 0 <= i < s.len() implies twice[i] == s[i] by {
            if i < full {
                let row = i / width;
                let column = i % width;
                vstd::arithmetic::div_mod::lemma_fundamental_div_mod(i, width);
                vstd::arithmetic::div_mod::lemma_mod_bound(i, width);
                vstd::arithmetic::div_mod::lemma_div_pos_is_pos(i, width);
                let k = row * width + (width - 1 - column);
                assert(row * width + width <= full) by (nonlinear_arith)
                    requires
                        i == width * row + column,
                        0 <= column < width,
                        0 <= row,
                        i < full,
                        full == s.len() as int / width * width,
                        0 < width,
                ;
                assert(width * row == row * width) by (nonlinear_arith);
                vstd::arithmetic::div_mod::lemma_fundamental_div_mod_converse(k, width, row, width - 1 - column);
                assert(once[k] == s[row * width + column]);
            }
        }
    } else {
        assert forall|i: int| 0 <= i < s.len() implies twice[i] == s[i] by {
            if i < width * height {
                lemma_cell_encode(width, height, i);
                let row = i / width;
                let column = i % width;
                let k = (height - 1 - row) * width + column;
                lemma_cell_decode(width, height, column, height - 1 - row);
                assert(once[k] == s[row * width + column]);
            }
        }
    }
    assert(twice =~= s);
}

/// Two quarter turns of an exactly filled plane reverse its samples.
pub proof fn lemma_two_quarter_turns_reverse(samples: Seq<u16>, width: int, height: int)
    requires
        0 <= width,
        0 <= height,
        samples.len() == width * height,
    ensures
        quarter_turned(quarter_turned(samples, width, height), height, width) == Seq::new(
            samples.len(),
            |i: int| samples[samples.len() - 1 - i],
        ),
{
    let once = quarter_turned(samples, width, height);
    let twice = quarter_turned(once, height, width);
    let reversed = Seq::new(samples.len(), |i: int| samples[samples.len() - 1 - i]);
    assert(height * width == width * height) by (nonlinear_arith);
    assert forall|j: int| 0 <= j < samples.len() implies twice[j] == reversed[j] by {
        lemma_cell_encode(width, height, j);
        let a = j % width;
        let b = j / width;
        let k = a * height + (height - 1 - b);
        lemma_cell_decode(height, width, height - 1 - b, a);
        assert((height - 1 - b) * width + (width - 1 - a) == width * height - 1 - (b * width + a)) by (nonlinear_arith);
    }
    assert(twice =~= reversed);
}

/// Four quarter turns give a well-formed plane back.
pub proof fn lemma_native_plane_four_turns(plane: PlaneView)
    requires
        plane_well_formed(plane),
    ensures
        turned_plane(turned_plane(turned_plane(turned_plane(plane)))) == plane,
{
    let width = plane.layout.width as int;
    let height = plane.layout.height as int;
    let s = plane.samples;
    let once = turned_plane(plane);
    let twice = turned_plane(once);
    let thrice = turned_plane(twice);
    let four = turned_plane(thrice);
    lemma_two_quarter_turns_reverse(s, width, height);
    let half = twice.samples;
    assert(half.len() == width * height);
    lemma_two_quarter_turns_reverse(half, width, height);
    assert(four.samples =~= s);
    assert(four.layout == plane.layout);
}

/// Four quarter turns give a frame of well-formed planes back.
pub proof fn lemma_native_four_turns(frame: DecodedFrameView)
    requires
        forall|p: int| 0 <= p < frame.buffers.planes.len() ==> plane_well_formed(#[trigger] frame.buffers.planes[p]),
    ensures
        frame_turns(frame, 4) == frame,
{
    reveal_with_fuel(frame_turns, 5);
    let four = frame_turns(frame, 4);
    assert forall|p: int| 0 <= p < frame.buffers.planes.len() implies four.buffers.planes[p] == frame.buffers.planes[p] by {
        lemma_native_plane_four_turns(frame.buffers.planes[p]);
    }
    assert(four.buffers.planes =~= frame.buffers.planes);
    assert(four.color_config == frame.color_config);
}

/// `value` divided by `2^shift`, rounded up.
pub open spec fn ceil_scaled(value: int, shift: u8) -> int {
    (value + vstd::arithmetic::power2::pow2(shift as nat) - 1) / (vstd::arithmetic::power2::pow2(shift as nat) as int)
}

/// Why the image-sample window (`x`, `y`, `width`, `height`) cannot be cut from a
/// plane, if it cannot: its corner is off the plane's sample grid (unsupported), or
/// the scaled window leaves the plane (a bitstream error).
pub open spec fn plane_crop_error(plane: PlaneView, x: int, y: int, width: int, height: int) -> Option<ErrorKind> {
    let scale_x = vstd::arithmetic::power2::pow2(plane.layout.subsampling_x as nat) as int;
    let scale_y = vstd::arithmetic::power2::pow2(plane.layout.subsampling_y as nat) as int;
    if x % scale_x != 0 || y % scale_y != 0 {
        Some(ErrorKind::Unsupported)
    } else if x / scale_x + ceil_scaled(width, plane.layout.subsampling_x) > plane.layout.width || y / scale_y + ceil_scaled(
        height,
        plane.layout.subsampling_y,
    ) > plane.layout.height {
        Some(ErrorKind::Bitstream)
    } else {
        None
    }
}

/// The error of the first of the first `n` planes that cannot be cut.
pub open spec fn first_crop_error(planes: Seq<PlaneView>, x: int, y: int, width: int, height: int, n: int) -> Option<ErrorKind>
    decreases n,
{
    if n <= 0 {
        None
    } else {
        match first_crop_error(planes, x, y, width, height, n - 1) {
            Some(kind) => Some(kind),
            None => plane_crop_error(planes[n - 1], x, y, width, height),
        }
    }
}

/// The plane's part of the image-sample window (`x`, `y`, `width`, `height`), in the
/// plane's own samples.
pub open spec fn cropped_plane(plane: PlaneView, x: int, y: int, width: int, height: int) -> PlaneView {
    let scale_x = vstd::arithmetic::power2::pow2(plane.layout.subsampling_x as nat) as int;
    let scale_y = vstd::arithmetic::power2::pow2(plane.layout.subsampling_y as nat) as int;
    let plane_width = ceil_scaled(width, plane.layout.subsampling_x);
    let plane_height = ceil_scaled(height, plane.layout.subsampling_y);
    PlaneView {
        layout: PlaneLayout {
            width: plane_width as usize,
            height: plane_height as usize,
            sample_count: (plane_width * plane_height) as usize,
            ..plane.layout
        },
        samples: Seq::new(
            (plane_width * plane_height) as nat,
            |i: int| plane.samples[(y / scale_y + i / plane_width) * plane.layout.width + x / scale_x + i % plane_width],
        ),
    }
}

/// The frame cut to the image-sample window (`x`, `y`, `width`, `height`).
pub open spec fn cropped_frame(frame: DecodedFrameView, x: int, y: int, width: int, height: int) -> DecodedFrameView {
    DecodedFrameView {
        width: width as usize,
        height: height as usize,
        render_width: width as usize,
        render_height: height as usize,
        buffers: FrameBuffersView {
            width: width as usize,
            height: height as usize,
            planes: frame.buffers.planes.map_values(|plane: PlaneView| cropped_plane(plane, x, y, width, height)),
        },
        ..frame
    }
}

/// What the item's geometric transforms do to decoded planes: the clean aperture
/// (see `aperture_rect`) cuts every plane, then the mirror, then the quarter turns;
/// or the kind of the first error.
pub open spec fn native_geometry_outcome(
    frame: DecodedFrameView,
    aperture: Option<CleanAperture>,
    mirror: Option<ImageMirror>,
    rotation: Option<ImageRotation>,
) -> Result<DecodedFrameView, ErrorKind> {
    let cropped = match aperture {
        None => Ok(frame),
        Some(aperture) => match aperture_rect(frame.width as int, frame.height as int, aperture) {
            Err(kind) => Err(kind),
            Ok((x, y, width, height)) => match first_crop_error(frame.buffers.planes, x, y, width, height, frame.buffers.planes.len() as int) {
                Some(kind) => Err(kind),
                None => Ok(cropped_frame(frame, x, y, width, height)),
            },
        },
    };
    match cropped {
        Err(kind) => Err(kind),
        Ok(cropped) => {
            let mirrored = match mirror {
                None => Ok(cropped),
                Some(mirror) => if mirror.axis > 1 {
                    Err(ErrorKind::Bitstream)
                } else {
                    Ok(
                        DecodedFrameView {
                            buffers: FrameBuffersView {
                                planes: cropped.buffers.planes.map_values(|plane: PlaneView| mirrored_plane(plane, mirror.axis)),
                                ..cropped.buffers
                            },
                            ..cropped
                        },
                    )
                },
            };
            match mirrored {
                Err(kind) => Err(kind),
                Ok(mirrored) => match rotation {
                    None => Ok(mirrored),
                    Some(rotation) => if rotation.angle > 3 {
                        Err(ErrorKind::Bitstream)
                    } else {
                        Ok(frame_turns(mirrored, rotation.angle as nat))
                    },
                },
            }
        },
    }
}

/// `2^shift` for a shift below the width of `usize`.
fn plane_scale(shift: u8) -> (scale: usize)
    requires
        shift < usize::BITS,
    ensures
        scale == vstd::arithmetic::power2::pow2(shift as nat),
        0 < scale,
{
    proof {
        vstd::bits::lemma_usize_pow2_no_overflow(shift as nat);
        vstd::bits::lemma_usize_shl_is_mul(1, shift as usize);
        vstd::arithmetic::power2::lemma_pow2_pos(shift as nat);
    }
    1usize << shift as usize
}

/// Cuts the plane's part of an image-sample window out of it (see
/// `plane_crop_error` and `cropped_plane`).
fn crop_plane(plane: &PlaneBuffer, x: usize, y: usize, width: usize, height: usize) -> (result: Result<PlaneBuffer, DecoderError>)
    requires
        plane_covered(plane@),
        plane.layout.subsampling_x < usize::BITS,
        plane.layout.subsampling_y < usize::BITS,
    ensures
        match (result, plane_crop_error(plane@, x as int, y as int, width as int, height as int)) {
            (Ok(cropped), None) => cropped@ == cropped_plane(plane@, x as int, y as int, width as int, height as int),
            (Err(error), Some(kind)) => error.kind() == kind,
            _ => false,
        },
{
    let scale_x = plane_scale(plane.layout.subsampling_x);
    let scale_y = plane_scale(plane.layout.subsampling_y);
    if x % scale_x != 0 || y % scale_y != 0 {
        return Err(DecoderError::Unsupported("AVIF native-plane clean aperture is not aligned to chroma samples".to_string()));
    }
    let start_x = x / scale_x;
    let start_y = y / scale_y;
    let plane_width = crate::decoder::ceil_shift(width, plane.layout.subsampling_x as usize);
    let plane_height = crate::decoder::ceil_shift(height, plane.layout.subsampling_y as usize);
    if plane_width > plane.layout.width || start_x > plane.layout.width - plane_width || plane_height > plane.layout.height
        || start_y > plane.layout.height - plane_height {
        return Err(DecoderError::Bitstream("AVIF native-plane clean aperture exceeds a source plane".to_string()));
    }
    let source_width = plane.layout.width;
    let source_height = plane.layout.height;
    proof {
        assert(plane_width * plane_height <= source_width * source_height) by (nonlinear_arith)
            requires
                plane_width <= source_width,
                plane_height <= source_height,
        ;
    }
    let sample_total = plane.samples.len();
    let count = plane_width * plane_height;
    let ghost target = cropped_plane(plane@, x as int, y as int, width as int, height as int);
    let mut samples: Vec<u16> = Vec::new();
    let mut i: usize = 0;
    while i < count
        invariant
            plane_covered(plane@),
            source_width == plane.layout.width,
            source_height == plane.layout.height,
            start_x + plane_width <= source_width,
            start_y + plane_height <= source_height,
            count == plane_width * plane_height,
            start_x == x as int / scale_x as int,
            start_y == y as int / scale_y as int,
            scale_x == vstd::arithmetic::power2::pow2(plane.layout.subsampling_x as nat),
            scale_y == vstd::arithmetic::power2::pow2(plane.layout.subsampling_y as nat),
            plane_width == ceil_scaled(width as int, plane.layout.subsampling_x),
            plane_height == ceil_scaled(height as int, plane.layout.subsampling_y),
            target == cropped_plane(plane@, x as int, y as int, width as int, height as int),
            i <= count,
            samples@.len() == i,
            forall|j: int| 0 <= j < i ==> samples@[j] == target.samples[j],
        decreases count - i,
    {
        proof {
            lemma_cell_encode(plane_width as int, plane_height as int, i as int);
            lemma_cell_decode(source_width as int, source_height as int, start_x + i as int % plane_width as int, start_y + i as int / plane_width as int);
        }
        let total = plane.samples.len();
        let row = i / plane_width;
        let column = i % plane_width;
        samples.push(plane.samples[(start_y + row) * source_width + start_x + column]);
        i = i + 1;
    }
    let layout = PlaneLayout { width: plane_width, height: plane_height, sample_count: count, ..plane.layout };
    let cropped = PlaneBuffer { layout, samples };
    assert(cropped@.samples =~= target.samples);
    Ok(cropped)
}

/// Once a plane is the first that cannot be cut, its error is the first among any
/// longer prefix.
proof fn lemma_first_crop_error_stays(planes: Seq<PlaneView>, x: int, y: int, width: int, height: int, k: int, n: int)
    requires
        0 <= k < n,
        first_crop_error(planes, x, y, width, height, k) is None,
        plane_crop_error(planes[k], x, y, width, height) is Some,
    ensures
        first_crop_error(planes, x, y, width, height, n) == plane_crop_error(planes[k], x, y, width, height),
    decreases n,
{
    if n > k + 1 {
        lemma_first_crop_error_stays(planes, x, y, width, height, k, n - 1);
    }
}

/// Cuts every plane of the frame to an image-sample window and gives the frame the
/// window's size (see `cropped_frame`). On an error, the planes before the failing
/// one are already cut.
fn crop_frame(frame: &mut DecodedFrame, x: usize, y: usize, width: usize, height: usize) -> (result: Result<(), DecoderError>)
    requires
        decoded_planes_valid(old(frame)@),
    ensures
        match (result, first_crop_error(old(frame)@.buffers.planes, x as int, y as int, width as int, height as int, old(frame)@.buffers.planes.len() as int)) {
            (Ok(()), None) => final(frame)@ == cropped_frame(old(frame)@, x as int, y as int, width as int, height as int),
            (Err(error), Some(kind)) => error.kind() == kind,
            _ => false,
        },
{
    let ghost original = frame@;
    let ghost planes = frame.buffers.planes@;
    let mut p: usize = 0;
    while p < frame.buffers.planes.len()
        invariant
            original == old(frame)@,
            planes == old(frame).buffers.planes@,
            decoded_planes_valid(original),
            frame@.width == original.width,
            frame@.height == original.height,
            frame@.render_width == original.render_width,
            frame@.render_height == original.render_height,
            frame@.bit_depth == original.bit_depth,
            frame@.color_config == original.color_config,
            frame@.color_information == original.color_information,
            frame@.alpha_premultiplied == original.alpha_premultiplied,
            frame@.buffers.width == original.buffers.width,
            frame@.buffers.height == original.buffers.height,
            frame.buffers.planes@.len() == planes.len(),
            p <= planes.len(),
            first_crop_error(original.buffers.planes, x as int, y as int, width as int, height as int, p as int) is None,
            forall|q: int| 0 <= q < p ==> (#[trigger] frame.buffers.planes@[q])@ == cropped_plane(planes[q]@, x as int, y as int, width as int, height as int),
            forall|q: int| p <= q < planes.len() ==> #[trigger] frame.buffers.planes@[q] == planes[q],
        decreases planes.len() - p,
    {
        assert(frame.buffers.planes@[p as int] == planes[p as int]);
        assert(original.buffers.planes[p as int] == planes[p as int]@);
        let cropped = match crop_plane(&frame.buffers.planes[p], x, y, width, height) {
            Ok(cropped) => cropped,
            Err(error) => {
                proof {
                    lemma_first_crop_error_stays(original.buffers.planes, x as int, y as int, width as int, height as int, p as int, planes.len() as int);
                }
                return Err(error);
            },
        };
        frame.buffers.planes.set(p, cropped);
        p = p + 1;
    }
    frame.width = width;
    frame.height = height;
    frame.render_width = width;
    frame.render_height = height;
    frame.buffers.width = width;
    frame.buffers.height = height;
    proof {
        let expected = cropped_frame(original, x as int, y as int, width as int, height as int);
        assert forall|q: int| 0 <= q < planes.len() implies frame@.buffers.planes[q] == expected.buffers.planes[q] by {
            assert(frame.buffers.planes@[q]@ == cropped_plane(planes[q]@, x as int, y as int, width as int, height as int));
        }
        assert(frame@.buffers.planes =~= expected.buffers.planes);
    }
    Ok(())
}

/// The planes of a frame cut to a non-empty window without error are valid and at
/// least one sample wide.
proof fn lemma_cropped_frame_valid(frame: DecodedFrameView, x: int, y: int, width: int, height: int)
    requires
        decoded_planes_valid(frame),
        0 <= x,
        0 <= y,
        0 < width,
        0 < height,
        first_crop_error(frame.buffers.planes, x, y, width, height, frame.buffers.planes.len() as int) is None,
    ensures
        decoded_planes_valid(cropped_frame(frame, x, y, width, height)),
        forall|p: int| 0 <= p < frame.buffers.planes.len() ==> 0 < (#[trigger] cropped_frame(frame, x, y, width, height).buffers.planes[p]).layout.width,
{
    let cropped = cropped_frame(frame, x, y, width, height);
    assert forall|p: int| 0 <= p < frame.buffers.planes.len() implies plane_covered(#[trigger] cropped.buffers.planes[p])
        && cropped.buffers.planes[p].layout.subsampling_x < usize::BITS && cropped.buffers.planes[p].layout.subsampling_y < usize::BITS
        && 0 < cropped.buffers.planes[p].layout.width by {
        let plane = frame.buffers.planes[p];
        lemma_no_crop_error(frame.buffers.planes, x, y, width, height, frame.buffers.planes.len() as int, p);
        let sx = plane.layout.subsampling_x as nat;
        let sy = plane.layout.subsampling_y as nat;
        lemma_ceil_scaled_positive(width, sx);
        lemma_ceil_scaled_positive(height, sy);
        vstd::arithmetic::power2::lemma_pow2_pos(sx);
        vstd::arithmetic::power2::lemma_pow2_pos(sy);
        vstd::arithmetic::div_mod::lemma_div_pos_is_pos(x, vstd::arithmetic::power2::pow2(sx) as int);
        vstd::arithmetic::div_mod::lemma_div_pos_is_pos(y, vstd::arithmetic::power2::pow2(sy) as int);
        assert(cropped.buffers.planes[p] == cropped_plane(plane, x, y, width, height));
        let plane_width = ceil_scaled(width, plane.layout.subsampling_x);
        let plane_height = ceil_scaled(height, plane.layout.subsampling_y);
        assert(1 <= plane_width <= plane.layout.width);
        assert(1 <= plane_height <= plane.layout.height);
        assert(plane_width * plane_height >= 0) by (nonlinear_arith)
            requires
                plane_width >= 1,
                plane_height >= 1,
        ;
    }
}

/// With no crop error among the first `n` planes, plane `k` among them fits the window.
proof fn lemma_no_crop_error(planes: Seq<PlaneView>, x: int, y: int, width: int, height: int, n: int, k: int)
    requires
        0 <= k < n,
        first_crop_error(planes, x, y, width, height, n) is None,
    ensures
        plane_crop_error(planes[k], x, y, width, height) is None,
    decreases n,
{
    if k < n - 1 {
        lemma_no_crop_error(planes, x, y, width, height, n - 1, k);
    }
}

/// A positive value divided by a power of two, rounded up, is positive.
proof fn lemma_ceil_scaled_positive(value: int, shift: nat)
    requires
        0 < value,
    ensures
        0 < (value + vstd::arithmetic::power2::pow2(shift) - 1) / (vstd::arithmetic::power2::pow2(shift) as int),
{
    let d = vstd::arithmetic::power2::pow2(shift) as int;
    vstd::arithmetic::power2::lemma_pow2_pos(shift);
    let a = value + d - 1;
    vstd::arithmetic::div_mod::lemma_fundamental_div_mod(a, d);
    vstd::arithmetic::div_mod::lemma_mod_bound(a, d);
    assert(a / d > 0) by (nonlinear_arith)
        requires
            a == d * (a / d) + a % d,
            0 <= a % d < d,
            a >= d,
            d > 0,
    ;
}

/// Applies an item's geometric transforms to decoded planes (see
/// `native_geometry_outcome`): the clean aperture, the mirror, then the rotation.
/// On an error, the frame may be partly transformed.
pub fn apply_native_grid_geometry(frame: &mut DecodedFrame, info: &AvifInfo) -> (result: Result<(), DecoderError>)
    requires
        decoded_planes_valid(old(frame)@),
        info.clean_aperture is Some ==> old(frame).width <= i64::MAX && old(frame).height <= i64::MAX,
        info.clean_aperture is None && info.mirror == Some(ImageMirror { axis: 0 }) ==> forall|p: int|
            0 <= p < old(frame).buffers.planes@.len() ==> 0 < (#[trigger] old(frame).buffers.planes@[p]).layout.width,
    ensures
        match (result, native_geometry_outcome(old(frame)@, info.clean_aperture, info.mirror, info.rotation)) {
            (Ok(()), Ok(expected)) => final(frame)@ == expected,
            (Err(error), Err(kind)) => error.kind() == kind,
            _ => false,
        },
{
    let ghost original = frame@;
    if let Some(aperture) = info.clean_aperture {
        let (x, y, width, height) = clean_aperture_rect(frame.width, frame.height, aperture)?;
        crop_frame(frame, x, y, width, height)?;
        proof {
            lemma_cropped_frame_valid(original, x as int, y as int, width as int, height as int);
        }
    }
    let ghost cropped = frame@;
    assert(decoded_planes_valid(cropped));
    if let Some(mirror) = info.mirror {
        proof {
            assert forall|p: int| 0 <= p < frame.buffers.planes@.len() implies mirror.axis == 0 ==> 0 < (#[trigger] frame.buffers.planes@[p]).layout.width by {
                assert(frame@.buffers.planes[p] == frame.buffers.planes@[p]@);
            }
            assert forall|p: int| 0 <= p < frame.buffers.planes@.len() implies plane_covered((#[trigger] frame.buffers.planes@[p])@) by {
                assert(frame@.buffers.planes[p] == frame.buffers.planes@[p]@);
            }
        }
        apply_native_mirror(&mut frame.buffers, mirror)?;
        assert(frame@.buffers.planes == cropped.buffers.planes.map_values(|plane: PlaneView| mirrored_plane(plane, mirror.axis)));
        assert(frame@.buffers.planes.len() == cropped.buffers.planes.len());
    }
    assert(frame.buffers.planes@.len() == frame@.buffers.planes.len());
    assert(frame@.buffers.planes.len() == cropped.buffers.planes.len());
    proof {
        assert forall|p: int| 0 <= p < frame.buffers.planes@.len() implies plane_covered((#[trigger] frame.buffers.planes@[p])@) by {
            assert(frame@.buffers.planes[p] == frame.buffers.planes@[p]@);
            assert(p < cropped.buffers.planes.len());
            assert(plane_covered(cropped.buffers.planes[p]));
            if let Some(mirror) = info.mirror {
                assert(frame@.buffers.planes[p] == mirrored_plane(cropped.buffers.planes[p], mirror.axis));
            }
        }
    }
    if let Some(rotation) = info.rotation {
        apply_native_rotation(frame, rotation)?;
    }
    Ok(())
}

} // verus!
