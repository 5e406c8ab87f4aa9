//! Agreement between the container's declarations and the AV1 sequence header.
use vstd::prelude::*;
use crate::av1::headers::{Av1CodecConfiguration, ChromaSamplePosition, ColorConfig, ColorRange, SequenceHeader};
use crate::container::bytes::be_uint;
use crate::container::properties::code4;
use crate::container::types::{ColorInformation, PixelChannelInformation, PixelInformation};
use crate::error::{DecoderError, ErrorKind};

verus! {

/// The `av1C` record describes the same stream as the sequence header: profile,
/// level, bit depth, monochrome flag, subsampling, and the chroma sample position
/// where the sequence header signals one.
pub open spec fn av1_config_agrees(config: Av1CodecConfiguration, sequence: SequenceHeader) -> bool {
    &&& config.seq_profile == sequence.seq_profile
    &&& config.seq_level_idx_0 == sequence.seq_level_idx_0
    &&& config.spec_bit_depth() == sequence.color_config.bit_depth
    &&& config.monochrome == sequence.color_config.monochrome
    &&& config.chroma_subsampling_x == sequence.color_config.subsampling_x
    &&& config.chroma_subsampling_y == sequence.color_config.subsampling_y
    &&& match sequence.color_config.chroma_sample_position {
        Some(position) => config.chroma_sample_position == position,
        None => true,
    }
}

/// Checks the `av1C` record against the sequence header it configures.
pub fn validate_av1_config(config: &Av1CodecConfiguration, sequence: &SequenceHeader) -> (result: Result<(), DecoderError>)
    ensures
        result is Ok <==> av1_config_agrees(*config, *sequence),
        result matches Err(error) ==> error.kind() == ErrorKind::Bitstream,
{
    if config.seq_profile != sequence.seq_profile {
        return Err(DecoderError::Bitstream("av1C seq_profile does not match sequence header".to_string()));
    }
    if config.seq_level_idx_0 != sequence.seq_level_idx_0 {
        return Err(DecoderError::Bitstream("av1C seq_level_idx_0 does not match sequence header".to_string()));
    }
    if config.bit_depth() != sequence.color_config.bit_depth {
        return Err(DecoderError::Bitstream("av1C bit depth does not match sequence header".to_string()));
    }
    if config.monochrome != sequence.color_config.monochrome {
        return Err(DecoderError::Bitstream("av1C monochrome flag does not match sequence header".to_string()));
    }
    if config.chroma_subsampling_x != sequence.color_config.subsampling_x
        || config.chroma_subsampling_y != sequence.color_config.subsampling_y {
        return Err(DecoderError::Bitstream("av1C chroma subsampling does not match sequence header".to_string()));
    }
    if let Some(sequence_position) = sequence.color_config.chroma_sample_position {
        if config.chroma_sample_position != sequence_position {
            return Err(
                DecoderError::Bitstream("av1C chroma sample position does not match sequence header".to_string()),
            );
        }
    }
    Ok(())
}

/// An `nclx` code agrees with the AV1 one when it is equal or unspecified (2).
pub open spec fn cicp_code_agrees(nclx_code: int, av1_code: u8) -> bool {
    nclx_code == 2 || nclx_code == av1_code
}

/// The seven-byte `nclx` payload `p` agrees with the AV1 colour configuration: each
/// signalled CICP code matches the sequence header's colour description, and the
/// range flag matches unless all three codes are unspecified.
pub open spec fn nclx_agrees(p: Seq<u8>, color_config: ColorConfig) -> bool {
    let primaries = be_uint(p, 0, 2);
    let transfer = be_uint(p, 2, 2);
    let matrix = be_uint(p, 4, 2);
    &&& match color_config.color_description {
        Some(description) => cicp_code_agrees(primaries, description.color_primaries)
            && cicp_code_agrees(transfer, description.transfer_characteristics)
            && cicp_code_agrees(matrix, description.matrix_coefficients),
        None => true,
    }
    &&& ((p[6] >= 128) == (color_config.color_range == ColorRange::Full) || (primaries == 2 && transfer == 2
        && matrix == 2))
}

/// The colour box, if any, agrees with the AV1 colour configuration: only `nclx`
/// boxes are checked, and they must hold all seven bytes.
pub open spec fn color_metadata_agrees(color_information: Option<ColorInformation>, color_config: ColorConfig) -> bool {
    match color_information {
        None => true,
        Some(info) => info.color_type@ != code4(0x6e, 0x63, 0x6c, 0x78) || (info.payload@.len() >= 7 && nclx_agrees(
            info.payload@,
            color_config,
        )),
    }
}

/// Checks an `nclx` colour box against the AV1 colour configuration.
pub fn validate_color_metadata(color_information: Option<&ColorInformation>, color_config: &ColorConfig) -> (result:
    Result<(), DecoderError>)
    ensures
        result is Ok <==> color_metadata_agrees(
            match color_information {
                Some(info) => Some(*info),
                None => None,
            },
            *color_config,
        ),
        result matches Err(error) ==> error.kind() == ErrorKind::Bitstream,
{
    let color_information = match color_information {
        Some(info) => info,
        None => return Ok(()),
    };
    let nclx_code: [u8; 4] = [0x6e, 0x63, 0x6c, 0x78];
    assert(nclx_code@ =~= code4(0x6e, 0x63, 0x6c, 0x78));
    if !crate::container::properties::fourcc_eq(&color_information.color_type, &nclx_code) {
        return Ok(());
    }
    let nclx = match color_information.nclx() {
        Some(nclx) => nclx,
        None => return Err(DecoderError::Bitstream("AVIF nclx colour information is truncated".to_string())),
    };
    if let Some(description) = color_config.color_description {
        let primaries_mismatch = nclx.color_primaries != 2 && nclx.color_primaries != description.color_primaries as u16;
        let transfer_mismatch = nclx.transfer_characteristics != 2 && nclx.transfer_characteristics
            != description.transfer_characteristics as u16;
        let matrix_mismatch = nclx.matrix_coefficients != 2 && nclx.matrix_coefficients
            != description.matrix_coefficients as u16;
        if primaries_mismatch || transfer_mismatch || matrix_mismatch {
            return Err(
                DecoderError::Bitstream(
                    "AVIF nclx colour description does not match AV1 sequence header".to_string(),
                ),
            );
        }
    }
    let av1_full_range = color_config.color_range == ColorRange::Full;
    let nclx_color_unspecified = nclx.color_primaries == 2 && nclx.transfer_characteristics == 2
        && nclx.matrix_coefficients == 2;
    if nclx.full_range_flag != av1_full_range && !nclx_color_unspecified {
        return Err(DecoderError::Bitstream("AVIF nclx range does not match AV1 sequence header".to_string()));
    }
    Ok(())
}

/// The ISO/IEC 23001-17 subsampling type that AV1 implies for channel `index`: none
/// for luma, otherwise 4:2:0 (2), 4:2:2 (1), 4:4:0 (4) or none (0).
pub open spec fn expected_subsampling_type(index: int, color_config: ColorConfig) -> u8 {
    if index == 0 {
        0
    } else if color_config.subsampling_x && color_config.subsampling_y {
        2
    } else if color_config.subsampling_x {
        1
    } else if color_config.subsampling_y {
        4
    } else {
        0
    }
}

/// One extended `pixi` channel agrees with AV1: a signalled subsampling has the
/// implied type, and a chroma channel's location matches the AV1 chroma sample
/// position where that is vertical (0) or colocated (2); a reserved position is
/// never accepted for a signalled chroma subsampling.
pub open spec fn pixi_channel_agrees(index: int, channel: PixelChannelInformation, color_config: ColorConfig) -> bool {
    match channel.subsampling {
        None => true,
        Some(subsampling) => {
            &&& subsampling.subsampling_type == expected_subsampling_type(index, color_config)
            &&& index == 0 || match color_config.chroma_sample_position {
                Some(ChromaSamplePosition::Vertical) => subsampling.subsampling_location == 0,
                Some(ChromaSamplePosition::Colocated) => subsampling.subsampling_location == 2,
                Some(ChromaSamplePosition::Reserved) => false,
                _ => true,
            }
        },
    }
}

/// The extended `pixi` channels, if any, agree with AV1: one per AV1 plane (one for
/// monochrome, else three), each as `pixi_channel_agrees` says.
pub open spec fn extended_pixi_agrees(pixel_information: Option<PixelInformation>, color_config: ColorConfig) -> bool {
    match pixel_information {
        None => true,
        Some(pixi) => match pixi.extended_channels {
            None => true,
            Some(channels) => {
                &&& channels@.len() == (if color_config.monochrome { 1int } else { 3 })
                &&& forall|i: int| 0 <= i < channels@.len() ==> #[trigger] pixi_channel_agrees(i, channels@[i], color_config)
            },
        },
    }
}

/// Checks the extended `pixi` channel descriptors against the AV1 colour configuration.
pub fn validate_extended_pixi(pixel_information: Option<&PixelInformation>, color_config: &ColorConfig) -> (result:
    Result<(), DecoderError>)
    ensures
        result is Ok <==> extended_pixi_agrees(
            match pixel_information {
                Some(pixi) => Some(*pixi),
                None => None,
            },
            *color_config,
        ),
        result matches Err(error) ==> error.kind() == ErrorKind::Bitstream,
{
    let pixi = match pixel_information {
        Some(pixi) => pixi,
        None => return Ok(()),
    };
    let channels = match &pixi.extended_channels {
        Some(channels) => channels,
        None => return Ok(()),
    };
    let expected_channels: usize = if color_config.monochrome { 1 } else { 3 };
    if channels.len() != expected_channels {
        return Err(DecoderError::Bitstream("extended pixi channel count does not match AV1".to_string()));
    }
    let mut index: usize = 0;
    while index < channels.len()
        invariant
            index <= channels@.len(),
            pixel_information == Some(pixi),
            pixi.extended_channels == Some(*channels),
            channels@.len() == (if color_config.monochrome { 1int } else { 3 }),
            forall|i: int| 0 <= i < index ==> #[trigger] pixi_channel_agrees(i, channels@[i], *color_config),
        decreases channels@.len() - index,
    {
        let channel = channels[index];
        assert(channel == channels@[index as int]);
        let expected_type: u8 = if index == 0 {
            0
        } else if color_config.subsampling_x && color_config.subsampling_y {
            2
        } else if color_config.subsampling_x {
            1
        } else if color_config.subsampling_y {
            4
        } else {
            0
        };
        if let Some(subsampling) = channel.subsampling {
            if subsampling.subsampling_type != expected_type {
                assert(!pixi_channel_agrees(index as int, channels@[index as int], *color_config));
                return Err(
                    DecoderError::Bitstream("extended pixi channel subsampling type does not match AV1".to_string()),
                );
            }
            if index != 0 {
                match color_config.chroma_sample_position {
                    Some(ChromaSamplePosition::Vertical) => {
                        if subsampling.subsampling_location != 0 {
                            assert(!pixi_channel_agrees(index as int, channels@[index as int], *color_config));
                            return Err(
                                DecoderError::Bitstream(
                                    "extended pixi channel location does not match AV1 location".to_string(),
                                ),
                            );
                        }
                    },
                    Some(ChromaSamplePosition::Colocated) => {
                        if subsampling.subsampling_location != 2 {
                            assert(!pixi_channel_agrees(index as int, channels@[index as int], *color_config));
                            return Err(
                                DecoderError::Bitstream(
                                    "extended pixi channel location does not match AV1 location".to_string(),
                                ),
                            );
                        }
                    },
                    Some(ChromaSamplePosition::Reserved) => {
                        assert(!pixi_channel_agrees(index as int, channels@[index as int], *color_config));
                        return Err(DecoderError::Bitstream("AV1 chroma sample position is reserved".to_string()));
                    },
                    _ => {},
                }
            }
        }
        index = index + 1;
    }
    Ok(())
}

} // verus!
