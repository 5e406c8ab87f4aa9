use avif_decoder::av1::headers::{
    Av1CodecConfiguration, ChromaSamplePosition, ColorConfig, ColorDescription, ColorRange, SequenceHeader,
};
use avif_decoder::container::types::{ColorInformation, PixelChannelInformation, PixelInformation, PixelSubsampling};
use avif_decoder::decoder::validate::{validate_av1_config, validate_color_metadata, validate_extended_pixi};
use avif_decoder::compat::DataMap;
use avif_decoder::decoder::sequence_metadata;
use avif_decoder::DecoderError;

fn config() -> ColorConfig {
    ColorConfig {
        high_bitdepth: false,
        twelve_bit: false,
        bit_depth: 8,
        monochrome: false,
        color_description: Some(ColorDescription {
            color_primaries: 1,
            transfer_characteristics: 13,
            matrix_coefficients: 0,
        }),
        color_range: ColorRange::Full,
        subsampling_x: false,
        subsampling_y: false,
        chroma_sample_position: None,
        separate_uv_delta_q: false,
    }
}

fn nclx(primaries: u16, transfer: u16, matrix: u16, full_range: bool) -> ColorInformation {
    ColorInformation {
        color_type: *b"nclx",
        payload: vec![
            (primaries >> 8) as u8,
            primaries as u8,
            (transfer >> 8) as u8,
            transfer as u8,
            (matrix >> 8) as u8,
            matrix as u8,
            if full_range { 0x80 } else { 0 },
        ],
    }
}

#[test]
fn color_metadata_accepts_unspecified_nclx_codes() {
    validate_color_metadata(Some(&nclx(2, 2, 2, true)), &config()).unwrap();
}

#[test]
fn extended_pixi_must_match_av1_subsampling() {
    let mut color = config();
    color.subsampling_x = true;
    color.subsampling_y = true;
    color.chroma_sample_position = Some(ChromaSamplePosition::Vertical);
    let pixi = PixelInformation {
        bits_per_channel: vec![8, 8, 8],
        extended_channels: Some(vec![
            PixelChannelInformation {
                channel_idc: 0,
                component_format: 0,
                subsampling: Some(PixelSubsampling {
                    subsampling_type: 0,
                    subsampling_location: 0,
                }),
            },
            PixelChannelInformation {
                channel_idc: 0,
                component_format: 0,
                subsampling: Some(PixelSubsampling {
                    subsampling_type: 2,
                    subsampling_location: 0,
                }),
            },
            PixelChannelInformation {
                channel_idc: 0,
                component_format: 0,
                subsampling: Some(PixelSubsampling {
                    subsampling_type: 2,
                    subsampling_location: 0,
                }),
            },
        ]),
    };
    validate_extended_pixi(Some(&pixi), &color).unwrap();

    let mut mismatch = pixi.clone();
    mismatch.extended_channels.as_mut().unwrap()[1]
        .subsampling
        .as_mut()
        .unwrap()
        .subsampling_location = 2;
    assert!(matches!(
        validate_extended_pixi(Some(&mismatch), &color),
        Err(DecoderError::Bitstream(message)) if message.contains("location")
    ));
}

#[test]
fn color_metadata_rejects_explicit_nclx_mismatch() {
    let error = validate_color_metadata(Some(&nclx(9, 13, 0, true)), &config()).unwrap_err();
    assert!(matches!(error, DecoderError::Bitstream(message) if message.contains("does not match")));
}

#[test]
fn color_metadata_checks_range_unless_codes_are_unspecified() {
    let error = validate_color_metadata(Some(&nclx(1, 13, 0, false)), &config()).unwrap_err();
    assert!(matches!(error, DecoderError::Bitstream(message) if message.contains("range")));
    validate_color_metadata(Some(&nclx(2, 2, 2, false)), &config()).unwrap();
    validate_color_metadata(Some(&nclx(2, 13, 2, true)), &config()).unwrap();
    validate_color_metadata(None, &config()).unwrap();
    let icc = ColorInformation { color_type: *b"prof", payload: vec![1, 2, 3] };
    validate_color_metadata(Some(&icc), &config()).unwrap();
    let truncated = ColorInformation { color_type: *b"nclx", payload: vec![0, 2, 0, 2] };
    assert!(matches!(
        validate_color_metadata(Some(&truncated), &config()),
        Err(DecoderError::Bitstream(message)) if message.contains("truncated")
    ));
}

#[test]
fn extended_pixi_rejects_wrong_channel_count_and_reserved_position() {
    let mut color = config();
    color.subsampling_x = true;
    color.subsampling_y = true;
    let channel = |subsampling_type: u8| PixelChannelInformation {
        channel_idc: 0,
        component_format: 0,
        subsampling: Some(PixelSubsampling { subsampling_type, subsampling_location: 0 }),
    };
    let pixi = PixelInformation { bits_per_channel: vec![8], extended_channels: Some(vec![channel(0)]) };
    assert!(matches!(validate_extended_pixi(Some(&pixi), &color), Err(DecoderError::Bitstream(_))));
    let wrong_type = PixelInformation {
        bits_per_channel: vec![8, 8, 8],
        extended_channels: Some(vec![channel(0), channel(1), channel(2)]),
    };
    assert!(matches!(
        validate_extended_pixi(Some(&wrong_type), &color),
        Err(DecoderError::Bitstream(message)) if message.contains("subsampling type")
    ));
    color.chroma_sample_position = Some(ChromaSamplePosition::Reserved);
    let matching = PixelInformation {
        bits_per_channel: vec![8, 8, 8],
        extended_channels: Some(vec![channel(0), channel(2), channel(2)]),
    };
    assert!(matches!(
        validate_extended_pixi(Some(&matching), &color),
        Err(DecoderError::Bitstream(message)) if message.contains("reserved")
    ));
    let plain = PixelInformation { bits_per_channel: vec![8, 8, 8], extended_channels: None };
    validate_extended_pixi(Some(&plain), &color).unwrap();
    validate_extended_pixi(None, &color).unwrap();
}

fn av1_config(position: ChromaSamplePosition) -> Av1CodecConfiguration {
    Av1CodecConfiguration {
        version: 1,
        seq_profile: 0,
        seq_level_idx_0: 5,
        seq_tier_0: false,
        high_bitdepth: false,
        twelve_bit: false,
        monochrome: false,
        chroma_subsampling_x: true,
        chroma_subsampling_y: true,
        chroma_sample_position: position,
        initial_presentation_delay: None,
    }
}

fn sequence(position: ChromaSamplePosition) -> SequenceHeader {
    SequenceHeader {
        seq_profile: 0,
        still_picture: true,
        reduced_still_picture_header: true,
        seq_level_idx_0: 5,
        frame_width_bits: 8,
        frame_height_bits: 8,
        max_frame_width: 64,
        max_frame_height: 64,
        frame_id_numbers_present: false,
        frame_id_length: 0,
        delta_frame_id_length: 0,
        use_128x128_superblock: false,
        enable_filter_intra: false,
        enable_intra_edge_filter: false,
        enable_order_hint: false,
        enable_dual_filter: false,
        enable_masked_compound: false,
        enable_interintra_compound: false,
        enable_dist_wtd_comp: false,
        enable_warped_motion: false,
        order_hint_bits: 0,
        seq_force_screen_content_tools: 0,
        seq_force_integer_mv: 0,
        enable_ref_frame_mvs: false,
        enable_superres: false,
        enable_cdef: false,
        enable_restoration: false,
        color_config: ColorConfig {
            high_bitdepth: false,
            twelve_bit: false,
            bit_depth: 8,
            monochrome: false,
            color_description: None,
            color_range: ColorRange::Full,
            subsampling_x: true,
            subsampling_y: true,
            chroma_sample_position: Some(position),
            separate_uv_delta_q: false,
        },
        film_grain_params_present: false,
    }
}

#[test]
fn av1_config_rejects_chroma_sample_position_mismatch() {
    let error = validate_av1_config(
        &av1_config(ChromaSamplePosition::Colocated),
        &sequence(ChromaSamplePosition::Vertical),
    )
    .unwrap_err();
    assert!(matches!(
        error,
        DecoderError::Bitstream(message) if message.contains("chroma sample position")
    ));
}

#[test]
fn av1_config_accepts_matching_chroma_sample_position() {
    validate_av1_config(
        &av1_config(ChromaSamplePosition::Vertical),
        &sequence(ChromaSamplePosition::Vertical),
    )
    .unwrap();
}

#[test]
fn av1_config_compares_bit_depth_profile_and_level() {
    let mut config = av1_config(ChromaSamplePosition::Vertical);
    config.high_bitdepth = true;
    assert_eq!(config.bit_depth(), 10);
    config.twelve_bit = true;
    assert_eq!(config.bit_depth(), 12);
    let mut sequence = sequence(ChromaSamplePosition::Vertical);
    sequence.color_config.bit_depth = 12;
    validate_av1_config(&config, &sequence).unwrap();
    sequence.seq_level_idx_0 = 6;
    assert!(matches!(validate_av1_config(&config, &sequence), Err(DecoderError::Bitstream(_))));
    sequence.seq_level_idx_0 = 5;
    sequence.color_config.chroma_sample_position = None;
    config.chroma_sample_position = ChromaSamplePosition::Colocated;
    validate_av1_config(&config, &sequence).unwrap();
    config.monochrome = true;
    assert!(matches!(
        validate_av1_config(&config, &sequence),
        Err(DecoderError::Bitstream(message)) if message.contains("monochrome")
    ));
}

#[test]
fn sequence_metadata_reports_profile_depth_level_and_size() {
    let config = av1_config(ChromaSamplePosition::Vertical);
    let entries = sequence_metadata(Some(&config), &sequence(ChromaSamplePosition::Vertical));
    let keys: Vec<&str> = entries.iter().map(|(key, _)| key.as_str()).collect();
    assert_eq!(
        keys,
        vec!["AV1 config version", "AV1 profile", "AV1 bit depth", "AV1 level", "AV1 max frame width", "AV1 max frame height"]
    );
    assert!(matches!(entries[0].1, DataMap::UInt(1)));
    assert!(matches!(entries[2].1, DataMap::UInt(8)));
    assert!(matches!(entries[3].1, DataMap::UInt(5)));
    assert!(matches!(entries[4].1, DataMap::UInt(64)));
    let without_config = sequence_metadata(None, &sequence(ChromaSamplePosition::Vertical));
    assert_eq!(without_config.len(), 5);
    assert_eq!(without_config[0].0, "AV1 profile");
}
