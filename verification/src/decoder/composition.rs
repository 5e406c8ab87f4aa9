//! The geometric transforms of an item applied to a decoded RGBA image: clean
//! aperture crop, mirror and anticlockwise quarter turns.
use vstd::prelude::*;
use crate::container::types::{CleanAperture, ImageMirror, ImageRotation};
use crate::error::{DecoderError, ErrorKind};
use crate::image::ImageBuffer;

verus! {

/// The index of byte `c` of pixel (`x`, `y`) in a row-major RGBA buffer `width`
/// pixels wide.
pub open spec fn rgba_at(width: int, x: int, y: int, c: int) -> int {
    (y * width + x) * 4 + c
}

/// The column of the pixel that byte `i` belongs to.
pub open spec fn pixel_x(width: int, i: int) -> int {
    (i / 4) % width
}

/// The row of the pixel that byte `i` belongs to.
pub open spec fn pixel_y(width: int, i: int) -> int {
    (i / 4) / width
}

/// The image mirrored about its vertical axis (`horizontal`: columns reversed) or
/// its horizontal axis (rows reversed).
pub open spec fn mirrored(width: int, height: int, horizontal: bool, rgba: Seq<u8>) -> Seq<u8> {
    Seq::new(
        rgba.len(),
        |i: int|
            if horizontal {
                rgba[rgba_at(width, width - 1 - pixel_x(width, i), pixel_y(width, i), i % 4)]
            } else {
                rgba[rgba_at(width, pixel_x(width, i), height - 1 - pixel_y(width, i), i % 4)]
            },
    )
}

/// The image turned a quarter anticlockwise: pixel (x, y) moves to (y, width - 1 - x)
/// of an image `height` pixels wide.
pub open spec fn rotated(width: int, height: int, rgba: Seq<u8>) -> Seq<u8> {
    Seq::new(
        rgba.len(),
        |i: int| rgba[rgba_at(width, width - 1 - pixel_y(height, i), pixel_x(height, i), i % 4)],
    )
}

/// The image turned `turns` quarters anticlockwise: its width, height and bytes.
pub open spec fn turned(width: int, height: int, rgba: Seq<u8>, turns: nat) -> (int, int, Seq<u8>)
    decreases turns,
{
    if turns == 0 {
        (width, height, rgba)
    } else {
        let previous = turned(width, height, rgba, (turns - 1) as nat);
        (previous.1, previous.0, rotated(previous.0, previous.1, previous.2))
    }
}

/// The `crop_width` by `crop_height` window of the image whose top-left pixel is
/// (`start_x`, `start_y`).
pub open spec fn cropped(width: int, start_x: int, start_y: int, crop_width: int, crop_height: int, rgba: Seq<u8>) -> Seq<u8> {
    Seq::new(
        (crop_width * crop_height * 4) as nat,
        |i: int| rgba[rgba_at(width, start_x + pixel_x(crop_width, i), start_y + pixel_y(crop_width, i), i % 4)],
    )
}

/// Byte `c` of pixel (`x`, `y`) lies in the buffer, and the pixel and channel are
/// read back from its index.
pub proof fn lemma_pixel_decode(width: int, height: int, x: int, y: int, c: int)
    requires
        0 <= x < width,
        0 <= y < height,
        0 <= c < 4,
    ensures
        0 <= rgba_at(width, x, y, c) < width * height * 4,
        pixel_x(width, rgba_at(width, x, y, c)) == x,
        pixel_y(width, rgba_at(width, x, y, c)) == y,
        rgba_at(width, x, y, c) % 4 == c,
{
    let p = y * width + x;
    assert(0 <= y * width) by (nonlinear_arith)
        requires
            0 <= y,
            0 <= width,
    ;
    assert((y + 1) * width <= height * width) by (nonlinear_arith)
        requires
            y + 1 <= height,
            0 <= width,
    ;
    assert(p < width * height) by (nonlinear_arith)
        requires
            p == y * width + x,
            x < width,
            (y + 1) * width <= height * width,
    ;
    vstd::arithmetic::div_mod::lemma_fundamental_div_mod_converse(p * 4 + c, 4, p, c);
    vstd::arithmetic::div_mod::lemma_fundamental_div_mod_converse(p, width, y, x);
}

/// Every byte of a buffer of `width` by `height` pixels is byte `i % 4` of pixel
/// (`pixel_x`, `pixel_y`).
pub proof fn lemma_pixel_encode(width: int, height: int, i: int)
    requires
        0 < width,
        0 <= i < width * height * 4,
    ensures
        0 <= pixel_x(width, i) < width,
        0 <= pixel_y(width, i) < height,
        0 <= i % 4 < 4,
        i == rgba_at(width, pixel_x(width, i), pixel_y(width, i), i % 4),
{
    let p = i / 4;
    vstd::arithmetic::div_mod::lemma_fundamental_div_mod(i, 4);
    vstd::arithmetic::div_mod::lemma_fundamental_div_mod(p, width);
    vstd::arithmetic::div_mod::lemma_mod_bound(i, 4);
    vstd::arithmetic::div_mod::lemma_mod_bound(p, width);
    assert(0 <= p < width * height) by {
        vstd::arithmetic::div_mod::lemma_div_pos_is_pos(i, 4);
        vstd::arithmetic::div_mod::lemma_div_is_ordered(i, width * height * 4 - 1, 4);
        assert((width * height * 4 - 1) / 4 < width * height) by {
            vstd::arithmetic::div_mod::lemma_fundamental_div_mod_converse(width * height * 4 - 1, 4, width * height - 1, 3);
        }
    }
    vstd::arithmetic::div_mod::lemma_div_pos_is_pos(p, width);
    assert(p / width < height) by {
        vstd::arithmetic::div_mod::lemma_div_is_ordered(p, width * height - 1, width);
        assert(width * height - 1 == (height - 1) * width + (width - 1)) by (nonlinear_arith);
        vstd::arithmetic::div_mod::lemma_fundamental_div_mod_converse(width * height - 1, width, height - 1, width - 1);
    }
    assert(i == (p / width * width + p % width) * 4 + i % 4) by (nonlinear_arith)
        requires
            i == 4 * p + i % 4,
            p == width * (p / width) + p % width,
    ;
}

/// The last pixel of a row is followed by the first pixel of the next row.
pub proof fn lemma_next_row(width: int, y: int)
    ensures
        rgba_at(width, width, y, 0) == rgba_at(width, 0, y + 1, 0),
{
    assert((y + 1) * width == y * width + width) by (nonlinear_arith);
}

/// Mirroring an image twice about the same axis gives it back.
pub proof fn lemma_mirror_twice(width: int, height: int, horizontal: bool, rgba: Seq<u8>)
    requires
        0 < width,
        0 < height,
        rgba.len() == width * height * 4,
    ensures
        mirrored(width, height, horizontal, mirrored(width, height, horizontal, rgba)) == rgba,
{
    let once = mirrored(width, height, horizontal, rgba);
    let twice = mirrored(width, height, horizontal, once);
    assert forall|i: int| 0 <= i < rgba.len() implies twice[i] == rgba[i] by {
        lemma_pixel_encode(width, height, i);
        let x = pixel_x(width, i);
        let y = pixel_y(width, i);
        let c = i % 4;
        if horizontal {
            lemma_pixel_decode(width, height, width - 1 - x, y, c);
        } else {
            lemma_pixel_decode(width, height, x, height - 1 - y, c);
        }
    }
    assert(twice =~= rgba);
}

/// Mirrors the image about the axis of an `imir` property; no property leaves it as
/// it is, and an axis other than 0 or 1 is a `Bitstream` error.
pub fn apply_mirror(image: &mut ImageBuffer, mirror: Option<ImageMirror>) -> (result: Result<(), DecoderError>)
    requires
        old(image).well_formed(),
    ensures
        final(image).width == old(image).width,
        final(image).height == old(image).height,
        match mirror {
            None => result is Ok && final(image).rgba@ == old(image).rgba@,
            Some(mirror) => if mirror.axis > 1 {
                result is Err && result->Err_0.kind() == ErrorKind::Bitstream && final(image).rgba@ == old(image).rgba@
            } else {
                result is Ok && final(image).rgba@ == mirrored(
                    old(image).width as int,
                    old(image).height as int,
                    mirror.axis == 0,
                    old(image).rgba@,
                )
            },
        },
{
    let mirror = match mirror {
        Some(mirror) => mirror,
        None => return Ok(()),
    };
    if mirror.axis > 1 {
        let text = crate::text::concat("AVIF mirror axis ", crate::text::decimal(mirror.axis as u64).as_str());
        return Err(DecoderError::Bitstream(crate::text::concat(text.as_str(), " is invalid")));
    }
    let horizontal = mirror.axis == 0;
    let width = image.width;
    let height = image.height;
    let ghost source = image.rgba@;
    let ghost target = mirrored(width as int, height as int, horizontal, source);
    let mut transformed: Vec<u8> = Vec::new();
    let mut y: usize = 0;
    while y < height
        invariant
            source.len() == width * height * 4,
            target == mirrored(width as int, height as int, horizontal, source),
            image.rgba@ == source,
            y <= height,
            transformed@.len() == rgba_at(width as int, 0, y as int, 0),
            forall|j: int| 0 <= j < transformed@.len() ==> transformed@[j] == target[j],
        decreases height - y,
    {
        let mut x: usize = 0;
        while x < width
            invariant
                source.len() == width * height * 4,
                target == mirrored(width as int, height as int, horizontal, source),
                image.rgba@ == source,
                y < height,
                x <= width,
                transformed@.len() == rgba_at(width as int, x as int, y as int, 0),
                forall|j: int| 0 <= j < transformed@.len() ==> transformed@[j] == target[j],
            decreases width - x,
        {
            let (source_x, source_y) = if horizontal {
                (width - 1 - x, y)
            } else {
                (x, height - 1 - y)
            };
            proof {
                lemma_pixel_decode(width as int, height as int, source_x as int, source_y as int, 3);
                lemma_pixel_decode(width as int, height as int, x as int, y as int, 3);
            }
            let total = image.rgba.len();
            assert(rgba_at(width as int, source_x as int, source_y as int, 3) < total);
            assert(source_y * width <= total);
            let source_index = (source_y * width + source_x) * 4;
            let mut c: usize = 0;
            while c < 4
                invariant
                    source.len() == width * height * 4,
                    target == mirrored(width as int, height as int, horizontal, source),
                    image.rgba@ == source,
                    y < height,
                    x < width,
                    c <= 4,
                    source_index == rgba_at(width as int, source_x as int, source_y as int, 0),
                    horizontal ==> source_x == width - 1 - x && source_y == y,
                    !horizontal ==> source_x == x && source_y == height - 1 - y,
                    transformed@.len() == rgba_at(width as int, x as int, y as int, c as int),
                    forall|j: int| 0 <= j < transformed@.len() ==> transformed@[j] == target[j],
                decreases 4 - c,
            {
                proof {
                    lemma_pixel_decode(width as int, height as int, x as int, y as int, c as int);
                    lemma_pixel_decode(width as int, height as int, source_x as int, source_y as int, c as int);
                }
                transformed.push(image.rgba[source_index + c]);
                c = c + 1;
            }
            x = x + 1;
        }
        proof {
            lemma_next_row(width as int, y as int);
        }
        y = y + 1;
    }
    proof {
        assert(rgba_at(width as int, 0, height as int, 0) == width * height * 4) by (nonlinear_arith);
        assert(transformed@ =~= target);
    }
    image.rgba = transformed;
    Ok(())
}

/// The image turned half a turn: pixel (x, y) moves to (width - 1 - x, height - 1 - y).
pub open spec fn half_turned(width: int, height: int, rgba: Seq<u8>) -> Seq<u8> {
    Seq::new(
        rgba.len(),
        |i: int| rgba[rgba_at(width, width - 1 - pixel_x(width, i), height - 1 - pixel_y(width, i), i % 4)],
    )
}

/// Two quarter turns make a half turn.
pub proof fn lemma_two_quarter_turns(width: int, height: int, rgba: Seq<u8>)
    requires
        0 < width,
        0 < height,
        rgba.len() == width * height * 4,
    ensures
        rotated(height, width, rotated(width, height, rgba)) == half_turned(width, height, rgba),
{
    let once = rotated(width, height, rgba);
    let twice = rotated(height, width, once);
    let half = half_turned(width, height, rgba);
    assert(height * width == width * height) by (nonlinear_arith);
    assert forall|i: int| 0 <= i < rgba.len() implies twice[i] == half[i] by {
        // `twice` is `width` pixels wide again.
        lemma_pixel_encode(width, height, i);
        let x = pixel_x(width, i);
        let y = pixel_y(width, i);
        let c = i % 4;
        // Byte i of `twice` reads pixel (height - 1 - y, x) of `once`, which is `height` wide.
        lemma_pixel_decode(height, width, height - 1 - y, x, c);
    }
    assert(twice =~= half);
}

/// Two half turns give the image back.
pub proof fn lemma_two_half_turns(width: int, height: int, rgba: Seq<u8>)
    requires
        0 < width,
        0 < height,
        rgba.len() == width * height * 4,
    ensures
        half_turned(width, height, half_turned(width, height, rgba)) == rgba,
{
    let once = half_turned(width, height, rgba);
    let twice = half_turned(width, height, once);
    assert forall|i: int| 0 <= i < rgba.len() implies twice[i] == rgba[i] by {
        lemma_pixel_encode(width, height, i);
        let x = pixel_x(width, i);
        let y = pixel_y(width, i);
        lemma_pixel_decode(width, height, width - 1 - x, height - 1 - y, i % 4);
    }
    assert(twice =~= rgba);
}

/// Four quarter turns give the image back, with its width and height.
pub proof fn lemma_four_turns(width: int, height: int, rgba: Seq<u8>)
    requires
        0 < width,
        0 < height,
        rgba.len() == width * height * 4,
    ensures
        turned(width, height, rgba, 4) == (width, height, rgba),
{
    reveal_with_fuel(turned, 5);
    let half = half_turned(width, height, rgba);
    lemma_two_quarter_turns(width, height, rgba);
    assert(half.len() == width * height * 4);
    lemma_two_quarter_turns(width, height, half);
    lemma_two_half_turns(width, height, rgba);
    assert(turned(width, height, rgba, 2) == (width, height, half));
}

/// Turns a `width` by `height` image a quarter anticlockwise.
fn rotate_quarter(rgba: &Vec<u8>, width: usize, height: usize) -> (turned_rgba: Vec<u8>)
    requires
        rgba@.len() == width * height * 4,
    ensures
        turned_rgba@ == rotated(width as int, height as int, rgba@),
{
    let ghost target = rotated(width as int, height as int, rgba@);
    let mut transformed: Vec<u8> = Vec::new();
    let mut dy: usize = 0;
    while dy < width
        invariant
            rgba@.len() == width * height * 4,
            target == rotated(width as int, height as int, rgba@),
            dy <= width,
            transformed@.len() == rgba_at(height as int, 0, dy as int, 0),
            forall|j: int| 0 <= j < transformed@.len() ==> transformed@[j] == target[j],
        decreases width - dy,
    {
        let mut dx: usize = 0;
        while dx < height
            invariant
                rgba@.len() == width * height * 4,
                target == rotated(width as int, height as int, rgba@),
                dy < width,
                dx <= height,
                transformed@.len() == rgba_at(height as int, dx as int, dy as int, 0),
                forall|j: int| 0 <= j < transformed@.len() ==> transformed@[j] == target[j],
            decreases height - dx,
        {
            let source_x = width - 1 - dy;
            let source_y = dx;
            proof {
                lemma_pixel_decode(width as int, height as int, source_x as int, source_y as int, 3);
            }
            let total = rgba.len();
            assert(source_y * width <= total);
            let source_index = (source_y * width + source_x) * 4;
            let mut c: usize = 0;
            while c < 4
                invariant
                    rgba@.len() == width * height * 4,
                    target == rotated(width as int, height as int, rgba@),
                    dy < width,
                    dx < height,
                    c <= 4,
                    source_x == width - 1 - dy,
                    source_y == dx,
                    source_index == rgba_at(width as int, source_x as int, source_y as int, 0),
                    transformed@.len() == rgba_at(height as int, dx as int, dy as int, c as int),
                    forall|j: int| 0 <= j < transformed@.len() ==> transformed@[j] == target[j],
                decreases 4 - c,
            {
                proof {
                    assert(height * width == width * height) by (nonlinear_arith);
                    lemma_pixel_decode(height as int, width as int, dx as int, dy as int, c as int);
                    lemma_pixel_decode(width as int, height as int, source_x as int, source_y as int, c as int);
                }
                transformed.push(rgba[source_index + c]);
                c = c + 1;
            }
            dx = dx + 1;
        }
        proof {
            lemma_next_row(height as int, dy as int);
        }
        dy = dy + 1;
    }
    proof {
        assert(rgba_at(height as int, 0, width as int, 0) == width * height * 4) by (nonlinear_arith);
        assert(transformed@ =~= target);
    }
    transformed
}

/// Turns the image by the quarter turns of an `irot` property, anticlockwise; no
/// property leaves it as it is, and an angle above 3 is a `Bitstream` error.
pub fn apply_rotation(image: &mut ImageBuffer, rotation: Option<ImageRotation>) -> (result: Result<(), DecoderError>)
    requires
        old(image).well_formed(),
    ensures
        match rotation {
            None => result is Ok && *final(image) == *old(image),
            Some(rotation) => if rotation.angle > 3 {
                result is Err && result->Err_0.kind() == ErrorKind::Bitstream && *final(image) == *old(image)
            } else {
                &&& result is Ok
                &&& (final(image).width as int, final(image).height as int, final(image).rgba@) == turned(
                    old(image).width as int,
                    old(image).height as int,
                    old(image).rgba@,
                    rotation.angle as nat,
                )
            },
        },
{
    let rotation = match rotation {
        Some(rotation) => rotation,
        None => return Ok(()),
    };
    if rotation.angle > 3 {
        let text = crate::text::concat("AVIF rotation angle ", crate::text::decimal(rotation.angle as u64).as_str());
        return Err(DecoderError::Bitstream(crate::text::concat(text.as_str(), " is invalid")));
    }
    let ghost start = *image;
    let mut turn: u8 = 0;
    while turn < rotation.angle
        invariant
            turn <= rotation.angle,
            image.well_formed(),
            (image.width as int, image.height as int, image.rgba@) == turned(
                start.width as int,
                start.height as int,
                start.rgba@,
                turn as nat,
            ),
        decreases rotation.angle - turn,
    {
        let transformed = rotate_quarter(&image.rgba, image.width, image.height);
        let new_width = image.height;
        let new_height = image.width;
        image.width = new_width;
        image.height = new_height;
        image.rgba = transformed;
        proof {
            assert(new_width * new_height == new_height * new_width) by (nonlinear_arith);
        }
        turn = turn + 1;
    }
    Ok(())
}

/// A 32-bit field read as a two's-complement number.
pub open spec fn as_signed32(value: u32) -> int {
    if value >= 0x8000_0000 {
        value - 0x1_0000_0000
    } else {
        value as int
    }
}

/// Division rounding toward zero, for a positive divisor.
pub open spec fn div_toward_zero(numerator: int, denominator: int) -> int {
    if numerator >= 0 {
        numerator / denominator
    } else {
        -((-numerator) / denominator)
    }
}

/// The window a clean aperture selects in an image: its left column, top row,
/// width and height, centred on the image centre moved by the signed offsets.
pub open spec fn aperture_rect(image_width: int, image_height: int, aperture: CleanAperture) -> Result<(int, int, int, int), ErrorKind> {
    if aperture.width_d == 0 || aperture.height_d == 0 || aperture.horizontal_offset_d == 0 || aperture.vertical_offset_d == 0 {
        Err(ErrorKind::Bitstream)
    } else {
        let width = aperture.width_n / aperture.width_d;
        let height = aperture.height_n / aperture.height_d;
        let start_x = image_width / 2 + div_toward_zero(as_signed32(aperture.horizontal_offset_n), aperture.horizontal_offset_d as int) - width / 2;
        let start_y = image_height / 2 + div_toward_zero(as_signed32(aperture.vertical_offset_n), aperture.vertical_offset_d as int) - height / 2;
        if width == 0 || height == 0 || start_x < 0 || start_y < 0 || start_x + width > image_width || start_y + height > image_height {
            Err(ErrorKind::Bitstream)
        } else {
            Ok((start_x, start_y, width as int, height as int))
        }
    }
}

fn signed_offset(numerator: u32, denominator: u32) -> (offset: i64)
    requires
        denominator != 0,
    ensures
        offset == div_toward_zero(as_signed32(numerator), denominator as int),
{
    let signed: i64 = if numerator >= 0x8000_0000 {
        numerator as i64 - 0x1_0000_0000
    } else {
        numerator as i64
    };
    if signed >= 0 {
        signed / denominator as i64
    } else {
        -((-signed) / denominator as i64)
    }
}

/// The window of a clean aperture in an image of the given size (see
/// `aperture_rect`); a zero denominator, an empty window or one that leaves the
/// image is a `Bitstream` error.
pub fn clean_aperture_rect(image_width: usize, image_height: usize, aperture: CleanAperture) -> (result: Result<(usize, usize, usize, usize), DecoderError>)
    requires
        image_width <= i64::MAX,
        image_height <= i64::MAX,
    ensures
        match result {
            Ok((start_x, start_y, width, height)) => aperture_rect(image_width as int, image_height as int, aperture)
                == Ok::<(int, int, int, int), ErrorKind>((start_x as int, start_y as int, width as int, height as int)),
            Err(error) => aperture_rect(image_width as int, image_height as int, aperture) == Err::<(int, int, int, int), ErrorKind>(error.kind()),
        },
{
    if aperture.width_d == 0 || aperture.height_d == 0 || aperture.horizontal_offset_d == 0 || aperture.vertical_offset_d == 0 {
        return Err(DecoderError::Bitstream("AVIF clean aperture has a zero denominator".to_string()));
    }
    let width = (aperture.width_n as u64 / aperture.width_d as u64) as usize;
    let height = (aperture.height_n as u64 / aperture.height_d as u64) as usize;
    let center_x = image_width as i64 / 2;
    let center_y = image_height as i64 / 2;
    let offset_x = signed_offset(aperture.horizontal_offset_n, aperture.horizontal_offset_d);
    let offset_y = signed_offset(aperture.vertical_offset_n, aperture.vertical_offset_d);
    let start_x = center_x + offset_x - width as i64 / 2;
    let start_y = center_y + offset_y - height as i64 / 2;
    if width == 0 || height == 0 || start_x < 0 || start_y < 0 || start_x as i128 + width as i128 > image_width as i128
        || start_y as i128 + height as i128 > image_height as i128 {
        return Err(DecoderError::Bitstream("AVIF clean aperture is outside the decoded image".to_string()));
    }
    Ok((start_x as usize, start_y as usize, width, height))
}

/// Crops the image to its clean aperture; no property leaves it as it is.
pub fn apply_clean_aperture(image: &mut ImageBuffer, aperture: Option<CleanAperture>) -> (result: Result<(), DecoderError>)
    requires
        old(image).well_formed(),
        old(image).width <= i64::MAX,
        old(image).height <= i64::MAX,
    ensures
        final(image).well_formed(),
        match aperture {
            None => result is Ok && *final(image) == *old(image),
            Some(aperture) => match aperture_rect(old(image).width as int, old(image).height as int, aperture) {
                Ok((start_x, start_y, width, height)) => {
                    &&& result is Ok
                    &&& final(image).width == width
                    &&& final(image).height == height
                    &&& final(image).rgba@ == cropped(old(image).width as int, start_x, start_y, width, height, old(image).rgba@)
                },
                Err(kind) => result is Err && result->Err_0.kind() == kind && *final(image) == *old(image),
            },
        },
{
    let aperture = match aperture {
        Some(aperture) => aperture,
        None => return Ok(()),
    };
    let (start_x, start_y, width, height) = clean_aperture_rect(image.width, image.height, aperture)?;
    let image_width = image.width;
    let image_height = image.height;
    let ghost source = image.rgba@;
    let ghost target = cropped(image_width as int, start_x as int, start_y as int, width as int, height as int, source);
    let mut cropped_rgba: Vec<u8> = Vec::new();
    let mut y: usize = 0;
    while y < height
        invariant
            source.len() == image_width * image_height * 4,
            image.rgba@ == source,
            target == cropped(image_width as int, start_x as int, start_y as int, width as int, height as int, source),
            start_x + width <= image_width,
            start_y + height <= image_height,
            y <= height,
            cropped_rgba@.len() == rgba_at(width as int, 0, y as int, 0),
            forall|j: int| 0 <= j < cropped_rgba@.len() ==> cropped_rgba@[j] == target[j],
        decreases height - y,
    {
        let mut x: usize = 0;
        while x < width
            invariant
                source.len() == image_width * image_height * 4,
                image.rgba@ == source,
                target == cropped(image_width as int, start_x as int, start_y as int, width as int, height as int, source),
                start_x + width <= image_width,
                start_y + height <= image_height,
                y < height,
                x <= width,
                cropped_rgba@.len() == rgba_at(width as int, x as int, y as int, 0),
                forall|j: int| 0 <= j < cropped_rgba@.len() ==> cropped_rgba@[j] == target[j],
            decreases width - x,
        {
            let source_x = start_x + x;
            let source_y = start_y + y;
            proof {
                lemma_pixel_decode(image_width as int, image_height as int, source_x as int, source_y as int, 3);
            }
            let total = image.rgba.len();
            assert(source_y * image_width <= total);
            let source_index = (source_y * image_width + source_x) * 4;
            let mut c: usize = 0;
            while c < 4
                invariant
                    source.len() == image_width * image_height * 4,
                    image.rgba@ == source,
                    target == cropped(image_width as int, start_x as int, start_y as int, width as int, height as int, source),
                    start_x + width <= image_width,
                    start_y + height <= image_height,
                    y < height,
                    x < width,
                    c <= 4,
                    source_x == start_x + x,
                    source_y == start_y + y,
                    source_index == rgba_at(image_width as int, source_x as int, source_y as int, 0),
                    cropped_rgba@.len() == rgba_at(width as int, x as int, y as int, c as int),
                    forall|j: int| 0 <= j < cropped_rgba@.len() ==> cropped_rgba@[j] == target[j],
                decreases 4 - c,
            {
                proof {
                    lemma_pixel_decode(width as int, height as int, x as int, y as int, c as int);
                    lemma_pixel_decode(image_width as int, image_height as int, source_x as int, source_y as int, c as int);
                }
                cropped_rgba.push(image.rgba[source_index + c]);
                c = c + 1;
            }
            x = x + 1;
        }
        proof {
            lemma_next_row(width as int, y as int);
        }
        y = y + 1;
    }
    proof {
        assert(rgba_at(width as int, 0, height as int, 0) == width * height * 4) by (nonlinear_arith);
        assert(cropped_rgba@ =~= target);
    }
    image.width = width;
    image.height = height;
    image.rgba = cropped_rgba;
    Ok(())
}

/// Applies an item's transforms in the order the format prescribes: clean aperture,
/// then mirror, then rotation. An invalid property stops the chain with a
/// `Bitstream` error, leaving the transforms before it applied.
pub fn apply_image_transforms(
    image: &mut ImageBuffer,
    aperture: Option<CleanAperture>,
    mirror: Option<ImageMirror>,
    rotation: Option<ImageRotation>,
) -> (result: Result<(), DecoderError>)
    requires
        old(image).well_formed(),
        old(image).width <= i64::MAX,
        old(image).height <= i64::MAX,
    ensures
        result is Ok <==> {
            &&& (aperture matches Some(a) ==> aperture_rect(old(image).width as int, old(image).height as int, a) is Ok)
            &&& (mirror matches Some(m) ==> m.axis <= 1)
            &&& (rotation matches Some(r) ==> r.angle <= 3)
        },
        result is Ok ==> {
            let (width, height, rgba) = transformed_image(old(image).width as int, old(image).height as int, old(image).rgba@, aperture, mirror, rotation);
            final(image).width == width && final(image).height == height && final(image).rgba@ == rgba
        },
        result is Err ==> result->Err_0.kind() == ErrorKind::Bitstream,
{
    apply_clean_aperture(image, aperture)?;
    apply_mirror(image, mirror)?;
    apply_rotation(image, rotation)
}

/// The image after a clean aperture, mirror and rotation that are all valid.
pub open spec fn transformed_image(
    width: int,
    height: int,
    rgba: Seq<u8>,
    aperture: Option<CleanAperture>,
    mirror: Option<ImageMirror>,
    rotation: Option<ImageRotation>,
) -> (int, int, Seq<u8>) {
    let (w1, h1, r1) = match aperture {
        Some(a) => match aperture_rect(width, height, a) {
            Ok((start_x, start_y, crop_width, crop_height)) => (crop_width, crop_height, cropped(width, start_x, start_y, crop_width, crop_height, rgba)),
            Err(_) => (width, height, rgba),
        },
        None => (width, height, rgba),
    };
    let r2 = match mirror {
        Some(m) => mirrored(w1, h1, m.axis == 0, r1),
        None => r1,
    };
    match rotation {
        Some(r) => turned(w1, h1, r2, r.angle as nat),
        None => (w1, h1, r2),
    }
}

} // verus!
