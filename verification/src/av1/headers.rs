//! The AV1 sequence-level colour and configuration fields that the container is
//! checked against.
use vstd::prelude::*;

verus! {

/// AV1 `color_range`: studio swing or full swing.
#[derive(Debug, Clone, Copy, PartialEq, Eq, Structural)]
pub enum ColorRange {
    Studio,
    Full,
}

/// AV1 `chroma_sample_position`.
#[derive(Debug, Clone, Copy, PartialEq, Eq, Structural)]
pub enum ChromaSamplePosition {
    Unknown,
    Vertical,
    Colocated,
    Reserved,
}

/// The CICP codes of an AV1 `color_config` with `color_description_present_flag`.
#[derive(Debug, Clone, Copy, PartialEq, Eq, Structural)]
pub struct ColorDescription {
    pub color_primaries: u8,
    pub transfer_characteristics: u8,
    pub matrix_coefficients: u8,
}

/// AV1 `color_config()` of a sequence header.
#[derive(Debug, Clone, Copy, PartialEq, Eq, Structural)]
pub struct ColorConfig {
    pub high_bitdepth: bool,
    pub twelve_bit: bool,
    pub bit_depth: u8,
    pub monochrome: bool,
    pub color_description: Option<ColorDescription>,
    pub color_range: ColorRange,
    pub subsampling_x: bool,
    pub subsampling_y: bool,
    /// Signalled only for 4:2:0 content.
    pub chroma_sample_position: Option<ChromaSamplePosition>,
    pub separate_uv_delta_q: bool,
}

/// The AV1 codec configuration record (`av1C`).
#[derive(Debug, Clone, Copy, PartialEq, Eq, Structural)]
pub struct Av1CodecConfiguration {
    pub version: u8,
    pub seq_profile: u8,
    pub seq_level_idx_0: u8,
    pub seq_tier_0: bool,
    pub high_bitdepth: bool,
    pub twelve_bit: bool,
    pub monochrome: bool,
    pub chroma_subsampling_x: bool,
    pub chroma_subsampling_y: bool,
    pub chroma_sample_position: ChromaSamplePosition,
    pub initial_presentation_delay: Option<u8>,
}

impl Av1CodecConfiguration {
    /// The bit depth that `high_bitdepth` and `twelve_bit` select: 8, 10 or 12.
    pub open spec fn spec_bit_depth(self) -> u8 {
        if !self.high_bitdepth {
            8
        } else if self.twelve_bit {
            12
        } else {
            10
        }
    }

    /// The bit depth that `high_bitdepth` and `twelve_bit` select: 8, 10 or 12.
    pub fn bit_depth(&self) -> (depth: u8)
        ensures
            depth == self.spec_bit_depth(),
    {
        if !self.high_bitdepth {
            8
        } else if self.twelve_bit {
            12
        } else {
            10
        }
    }
}

/// AV1 `sequence_header_obu()` fields.
#[derive(Debug, Clone, Copy, PartialEq, Eq, Structural)]
pub struct SequenceHeader {
    pub seq_profile: u8,
    pub still_picture: bool,
    pub reduced_still_picture_header: bool,
    pub seq_level_idx_0: u8,
    pub frame_width_bits: u8,
    pub frame_height_bits: u8,
    pub max_frame_width: u32,
    pub max_frame_height: u32,
    pub frame_id_numbers_present: bool,
    pub frame_id_length: u8,
    pub delta_frame_id_length: u8,
    pub use_128x128_superblock: bool,
    pub enable_filter_intra: bool,
    pub enable_intra_edge_filter: bool,
    pub enable_order_hint: bool,
    pub enable_dual_filter: bool,
    pub enable_masked_compound: bool,
    pub enable_interintra_compound: bool,
    pub enable_dist_wtd_comp: bool,
    pub enable_warped_motion: bool,
    pub order_hint_bits: u8,
    pub seq_force_screen_content_tools: u8,
    pub seq_force_integer_mv: u8,
    pub enable_ref_frame_mvs: bool,
    pub enable_superres: bool,
    pub enable_cdef: bool,
    pub enable_restoration: bool,
    pub color_config: ColorConfig,
    pub film_grain_params_present: bool,
}

/// The four CDEF strengths of one strength preset.
#[derive(Debug, Clone, Copy, PartialEq, Eq, Structural)]
pub struct CdefStrength {
    pub y_pri: u8,
    pub y_sec: u8,
    pub uv_pri: u8,
    pub uv_sec: u8,
}

impl CdefStrength {
    /// Some strength of the preset is nonzero.
    pub open spec fn spec_active(self) -> bool {
        self.y_pri != 0 || self.y_sec != 0 || self.uv_pri != 0 || self.uv_sec != 0
    }
}

/// AV1 `cdef_params()`: whether CDEF runs, its damping, the number of bits that
/// select a preset, and the eight presets.
#[derive(Debug, Clone, Copy, PartialEq, Eq)]
pub struct CdefParams {
    pub enabled: bool,
    pub damping: u8,
    pub bits: u8,
    pub strengths: [CdefStrength; 8],
}

impl Default for CdefParams {
    fn default() -> (params: Self)
        ensures
            !params.enabled,
            params.damping == 3,
            params.bits == 0,
            forall|i: int| 0 <= i < 8 ==> !(#[trigger] params.strengths@[i]).spec_active(),
    {
        let zero = CdefStrength { y_pri: 0, y_sec: 0, uv_pri: 0, uv_sec: 0 };
        CdefParams { enabled: false, damping: 3, bits: 0, strengths: [zero, zero, zero, zero, zero, zero, zero, zero] }
    }
}

} // verus!
