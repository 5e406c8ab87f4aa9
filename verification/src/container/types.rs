//! The values that container parsing hands to callers.
use vstd::prelude::*;

verus! {

/// The coded-frame kind found in one AVIS track sample.
///
/// This is a header-level classification: it says what kind of frame a sample
/// starts with, not whether the decoder can reconstruct it.
#[derive(Debug, Clone, Copy, PartialEq, Eq, Structural)]
pub enum AvifSequenceSampleKind {
    Key,
    Inter,
    IntraOnly,
    Switch,
    ShowExisting { frame_to_show_map_idx: u8 },
}

/// Header-level facts about one AVIS sample: its first coded frame's kind and
/// whether it carries a sequence header.
#[derive(Debug, Clone, Copy, PartialEq, Eq, Structural)]
pub struct AvifSequenceSampleInfo {
    pub kind: Option<AvifSequenceSampleKind>,
    pub has_sequence_header: bool,
}

/// `ispe` image spatial extents.
#[derive(Debug, Clone, Copy, PartialEq, Eq, Structural)]
pub struct ImageSpatialExtents {
    pub width: u32,
    pub height: u32,
}

/// `pixi` pixel information.
#[derive(Debug, Clone, PartialEq, Eq)]
pub struct PixelInformation {
    pub bits_per_channel: Vec<u8>,
    /// Channel descriptors of the extended `pixi` form (flag bit 0 set).
    pub extended_channels: Option<Vec<PixelChannelInformation>>,
}

/// One channel descriptor carried by an extended `pixi` property.
#[derive(Debug, Clone, Copy, PartialEq, Eq, Structural)]
pub struct PixelChannelInformation {
    /// ISO/IEC 23008-12 channel identifier (0 is colour or grayscale).
    pub channel_idc: u8,
    /// ISO/IEC 23001-17 component format (0 is unsigned integer).
    pub component_format: u8,
    pub subsampling: Option<PixelSubsampling>,
}

/// Chroma subsampling type and sample location from an extended `pixi` field.
#[derive(Debug, Clone, Copy, PartialEq, Eq, Structural)]
pub struct PixelSubsampling {
    pub subsampling_type: u8,
    pub subsampling_location: u8,
}

/// `colr` colour information box payload.
#[derive(Debug, Clone, PartialEq, Eq)]
pub struct ColorInformation {
    pub color_type: [u8; 4],
    pub payload: Vec<u8>,
}

/// A colour box as a mathematical value: its type code and payload bytes.
pub struct ColorInformationView {
    pub color_type: [u8; 4],
    pub payload: Seq<u8>,
}

impl View for ColorInformation {
    type V = ColorInformationView;

    open spec fn view(&self) -> ColorInformationView {
        ColorInformationView { color_type: self.color_type, payload: self.payload@ }
    }
}

/// Structured `nclx` CICP colour information from an AVIF `colr` property.
#[derive(Debug, Clone, Copy, PartialEq, Eq, Structural)]
pub struct NclxColorInformation {
    pub color_primaries: u16,
    pub transfer_characteristics: u16,
    pub matrix_coefficients: u16,
    pub full_range_flag: bool,
}

/// Auxiliary image item payload, such as an AVIF alpha plane.
#[derive(Debug, Clone, PartialEq, Eq)]
pub struct AuxiliaryImage {
    pub item_id: u32,
    pub aux_type: String,
    pub payload: Vec<u8>,
}

/// A signed or unsigned rational value from an ISO 21496-1 gain-map descriptor.
/// Unsigned wire numerators are widened to `i64`.
#[derive(Debug, Clone, Copy, PartialEq, Eq, Structural)]
pub struct GainMapRational {
    pub numerator: i64,
    pub denominator: u32,
}

/// One channel's gain-map conversion parameters.
#[derive(Debug, Clone, Copy, PartialEq, Eq, Structural)]
pub struct GainMapChannel {
    pub gain_map_min: GainMapRational,
    pub gain_map_max: GainMapRational,
    pub gamma: GainMapRational,
    pub base_offset: GainMapRational,
    pub alternate_offset: GainMapRational,
}

/// Parsed ISO 21496-1 Annex C.2 metadata carried by a `tmap` item.
#[derive(Debug, Clone, PartialEq, Eq)]
pub struct GainMapMetadata {
    pub minimum_version: u16,
    pub writer_version: u16,
    pub is_multichannel: bool,
    pub use_base_colour_space: bool,
    pub backward_direction: bool,
    pub base_hdr_headroom: GainMapRational,
    pub alternate_hdr_headroom: GainMapRational,
    pub channels: Vec<GainMapChannel>,
}

impl GainMapMetadata {
    /// The number of channels described (1, or 3 for multichannel metadata).
    pub fn channel_count(&self) -> (count: usize)
        ensures
            count == self.channels@.len(),
    {
        self.channels.len()
    }
}

/// Parsed AVIF image grid derived item.
#[derive(Debug, Clone, PartialEq, Eq)]
pub struct GridImage {
    pub item_id: u32,
    pub rows: u8,
    pub columns: u8,
    pub output_width: u32,
    pub output_height: u32,
    pub payload: Vec<u8>,
    pub cells: Vec<GridCell>,
}

/// One AV1 image item referenced by a `grid` derived image item.
#[derive(Debug, Clone, PartialEq, Eq)]
pub struct GridCell {
    pub item_id: u32,
    pub width: u32,
    pub height: u32,
    pub pixel_information: Option<PixelInformation>,
    pub color_information: Option<ColorInformation>,
    pub av1_config: Option<Vec<u8>>,
    pub payload: Vec<u8>,
}

/// `clap` clean aperture item property.
#[derive(Debug, Clone, Copy, PartialEq, Eq, Structural)]
pub struct CleanAperture {
    pub width_n: u32,
    pub width_d: u32,
    pub height_n: u32,
    pub height_d: u32,
    pub horizontal_offset_n: u32,
    pub horizontal_offset_d: u32,
    pub vertical_offset_n: u32,
    pub vertical_offset_d: u32,
}

/// `irot` image rotation item property (quarter turns anticlockwise).
#[derive(Debug, Clone, Copy, PartialEq, Eq, Structural)]
pub struct ImageRotation {
    pub angle: u8,
}

/// `imir` image mirror item property (0: vertical axis, 1: horizontal axis).
#[derive(Debug, Clone, Copy, PartialEq, Eq, Structural)]
pub struct ImageMirror {
    pub axis: u8,
}

/// Parsed AVIF information needed before AV1 sample decode.
#[derive(Debug, Clone, PartialEq, Eq)]
pub struct AvifInfo {
    pub major_brand: [u8; 4],
    pub compatible_brands: Vec<[u8; 4]>,
    pub primary_item_id: Option<u32>,
    pub width: Option<u32>,
    pub height: Option<u32>,
    pub pixel_information: Option<PixelInformation>,
    pub color_information: Option<ColorInformation>,
    pub alpha_premultiplied: bool,
    pub alpha_auxiliary_items: Vec<AuxiliaryImage>,
    pub alpha_grid: Option<GridImage>,
    pub primary_grid: Option<GridImage>,
    pub clean_aperture: Option<CleanAperture>,
    pub rotation: Option<ImageRotation>,
    pub mirror: Option<ImageMirror>,
    pub av1_config: Option<Vec<u8>>,
    pub primary_item_payload: Vec<u8>,
    /// AV1 samples following the primary item in an AVIS image sequence; the
    /// primary item itself stays in `primary_item_payload`.
    pub sequence_sample_payloads: Vec<Vec<u8>>,
}

} // verus!
