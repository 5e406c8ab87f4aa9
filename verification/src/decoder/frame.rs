//! Conversions of decoded frames to the output sample layout.
use vstd::prelude::*;
use crate::av1::headers::ColorConfig;
use crate::av1::planes::{FrameBuffers, FrameBuffersView};
use crate::container::types::{ColorInformation, ColorInformationView};

verus! {

/// Decoded planes of a frame before colour conversion, with the colour facts that
/// conversion needs. Plane three, where present, is alpha.
#[derive(Debug, Clone, PartialEq, Eq)]
pub struct DecodedFrame {
    pub width: usize,
    pub height: usize,
    pub render_width: usize,
    pub render_height: usize,
    pub bit_depth: u8,
    pub color_config: ColorConfig,
    pub color_information: Option<ColorInformation>,
    pub alpha_premultiplied: bool,
    pub buffers: FrameBuffers,
}

/// A decoded frame as a mathematical value.
pub struct DecodedFrameView {
    pub width: usize,
    pub height: usize,
    pub render_width: usize,
    pub render_height: usize,
    pub bit_depth: u8,
    pub color_config: ColorConfig,
    pub color_information: Option<ColorInformationView>,
    pub alpha_premultiplied: bool,
    pub buffers: FrameBuffersView,
}

/// The views of a list of decoded frames.
pub open spec fn frame_views(frames: Seq<DecodedFrame>) -> Seq<DecodedFrameView> {
    frames.map_values(|frame: DecodedFrame| frame@)
}

/// The view of an optional colour box.
pub open spec fn color_information_view(info: Option<ColorInformation>) -> Option<ColorInformationView> {
    match info {
        Some(info) => Some(info@),
        None => None,
    }
}

impl View for DecodedFrame {
    type V = DecodedFrameView;

    open spec fn view(&self) -> DecodedFrameView {
        DecodedFrameView {
            width: self.width,
            height: self.height,
            render_width: self.render_width,
            render_height: self.render_height,
            bit_depth: self.bit_depth,
            color_config: self.color_config,
            color_information: color_information_view(self.color_information),
            alpha_premultiplied: self.alpha_premultiplied,
            buffers: self.buffers@,
        }
    }
}

/// A colour channel of a premultiplied 8-bit pixel divided by its alpha, rounding
/// to nearest and capped at 255.
pub open spec fn unpremultiplied8(channel: u8, alpha: u8) -> u8 {
    if alpha == 0 {
        0
    } else if (channel * 255 + alpha / 2) / (alpha as int) < 255 {
        ((channel * 255 + alpha / 2) / (alpha as int)) as u8
    } else {
        255
    }
}

/// A colour channel of a premultiplied 16-bit pixel divided by its alpha, rounding
/// to nearest and capped at 65535.
pub open spec fn unpremultiplied16(channel: u16, alpha: u16) -> u16 {
    if alpha == 0 {
        0
    } else if (channel * 65535 + alpha / 2) / (alpha as int) < 65535 {
        ((channel * 65535 + alpha / 2) / (alpha as int)) as u16
    } else {
        65535
    }
}

/// Turns premultiplied RGBA pixels into straight alpha: each colour channel is
/// divided by the pixel's alpha, and a pixel with zero alpha becomes black. Alpha
/// and a trailing partial pixel are kept.
pub fn unpremultiply_rgba8(rgba: &mut [u8])
    ensures
        final(rgba)@.len() == old(rgba)@.len(),
        forall|i: int|
            0 <= i < old(rgba)@.len() ==> #[trigger] final(rgba)@[i] == if i % 4 != 3 && i < old(rgba)@.len() / 4 * 4 {
                unpremultiplied8(old(rgba)@[i], old(rgba)@[i - i % 4 + 3])
            } else {
                old(rgba)@[i]
            },
{
    let ghost before = rgba@;
    let pixels = rgba.len() / 4;
    let total = rgba.len();
    assert(before.len() <= usize::MAX);
    let mut p: usize = 0;
    while p < pixels
        invariant
            rgba@.len() == before.len(),
            before.len() <= usize::MAX,
            pixels == before.len() / 4,
            p <= pixels,
            forall|i: int|
                0 <= i < before.len() ==> #[trigger] rgba@[i] == if i % 4 != 3 && i < p * 4 {
                    unpremultiplied8(before[i], before[i - i % 4 + 3])
                } else {
                    before[i]
                },
        decreases pixels - p,
    {
        let base = p * 4;
        let alpha = rgba[base + 3];
        let mut c: usize = 0;
        while c < 3
            invariant
                rgba@.len() == before.len(),
                pixels == before.len() / 4,
                p < pixels,
                base == p * 4,
                c <= 3,
                alpha == before[base + 3],
                forall|i: int|
                    0 <= i < before.len() ==> #[trigger] rgba@[i] == if i % 4 != 3 && i < base + c {
                        unpremultiplied8(before[i], before[i - i % 4 + 3])
                    } else {
                        before[i]
                    },
            decreases 3 - c,
        {
            let channel = rgba[base + c];
            let value: u8 = if alpha == 0 {
                0
            } else {
                let scaled = (channel as u32 * 255 + alpha as u32 / 2) / alpha as u32;
                if scaled < 255 {
                    scaled as u8
                } else {
                    255
                }
            };
            proof {
                vstd::arithmetic::div_mod::lemma_fundamental_div_mod_converse(base + c, 4, p as int, c as int);
            }
            rgba[base + c] = value;
            c = c + 1;
        }
        proof {
            assert forall|i: int|
                0 <= i < before.len() implies #[trigger] rgba@[i] == if i % 4 != 3 && i < (p + 1) * 4 {
                    unpremultiplied8(before[i], before[i - i % 4 + 3])
                } else {
                    before[i]
                } by {
                if base + 3 == i {
                    vstd::arithmetic::div_mod::lemma_fundamental_div_mod_converse(i, 4, p as int, 3);
                }
            }
        }
        p = p + 1;
    }
}

/// The 16-bit form of `unpremultiply_rgba8`.
pub fn unpremultiply_rgba16(rgba: &mut [u16])
    ensures
        final(rgba)@.len() == old(rgba)@.len(),
        forall|i: int|
            0 <= i < old(rgba)@.len() ==> #[trigger] final(rgba)@[i] == if i % 4 != 3 && i < old(rgba)@.len() / 4 * 4 {
                unpremultiplied16(old(rgba)@[i], old(rgba)@[i - i % 4 + 3])
            } else {
                old(rgba)@[i]
            },
{
    let ghost before = rgba@;
    let pixels = rgba.len() / 4;
    let total = rgba.len();
    assert(before.len() <= usize::MAX);
    let mut p: usize = 0;
    while p < pixels
        invariant
            rgba@.len() == before.len(),
            before.len() <= usize::MAX,
            pixels == before.len() / 4,
            p <= pixels,
            forall|i: int|
                0 <= i < before.len() ==> #[trigger] rgba@[i] == if i % 4 != 3 && i < p * 4 {
                    unpremultiplied16(before[i], before[i - i % 4 + 3])
                } else {
                    before[i]
                },
        decreases pixels - p,
    {
        let base = p * 4;
        let alpha = rgba[base + 3];
        let mut c: usize = 0;
        while c < 3
            invariant
                rgba@.len() == before.len(),
                pixels == before.len() / 4,
                p < pixels,
                base == p * 4,
                c <= 3,
                alpha == before[base + 3],
                forall|i: int|
                    0 <= i < before.len() ==> #[trigger] rgba@[i] == if i % 4 != 3 && i < base + c {
                        unpremultiplied16(before[i], before[i - i % 4 + 3])
                    } else {
                        before[i]
                    },
            decreases 3 - c,
        {
            let channel = rgba[base + c];
            let value: u16 = if alpha == 0 {
                0
            } else {
                let scaled = (channel as u64 * 65535 + alpha as u64 / 2) / alpha as u64;
                if scaled < 65535 {
                    scaled as u16
                } else {
                    65535
                }
            };
            proof {
                vstd::arithmetic::div_mod::lemma_fundamental_div_mod_converse(base + c, 4, p as int, c as int);
            }
            rgba[base + c] = value;
            c = c + 1;
        }
        proof {
            assert forall|i: int|
                0 <= i < before.len() implies #[trigger] rgba@[i] == if i % 4 != 3 && i < (p + 1) * 4 {
                    unpremultiplied16(before[i], before[i - i % 4 + 3])
                } else {
                    before[i]
                } by {
                if base + 3 == i {
                    vstd::arithmetic::div_mod::lemma_fundamental_div_mod_converse(i, 4, p as int, 3);
                }
            }
        }
        p = p + 1;
    }
}

} // verus!
