//! Container parsing: boxes, items, properties, gain maps, sample transforms and sequences.
use avif_decoder::container::avif::{parse_avif, primary_item_metadata, primary_item_payload, primary_item_transforms, PrimaryItemTransforms};
use avif_decoder::container::boxes::read_box_header;
use avif_decoder::container::gain_map::{parse_gain_map_metadata, parse_gain_map_metadata_payload};
use avif_decoder::container::grid::{alpha_aux_type, alpha_auxiliary_items, parse_grid_payload, primary_grid, ParsedGridPayload};
use avif_decoder::container::items::{
    merge_ipma, parse_iinf, parse_iloc, parse_iloc_with_indexes, parse_iloc_with_methods, parse_ipma, parse_iref,
    ItemExtent, ItemInfo, ItemLocation, ItemProperty, ItemPropertyAssociation, ItemReference, MetaState, PropertyAssociation,
};
use avif_decoder::container::metadata::{effective_primary_item_id, item_metadata, validate_primary_item_metadata};
use avif_decoder::container::properties::{parse_a1lx, parse_a1op, parse_auxc, parse_clap, parse_colr, parse_imir, parse_irot, parse_lsel, parse_pixi};
use avif_decoder::container::sample_transform::{parse_sample_transform_payload, SampleTransformToken};
use avif_decoder::container::sequence::{
    build_sample_offsets_with_descriptions, classify_av1_sequence_sample, inspect_av1_sequence_sample, validate_sequence_sample_description,
};
use avif_decoder::container::types::{
    AuxiliaryImage, AvifSequenceSampleKind, CleanAperture, ColorInformation, ImageMirror, ImageRotation, ImageSpatialExtents,
    NclxColorInformation, PixelChannelInformation, PixelInformation, PixelSubsampling,
};
use avif_decoder::DecoderError;

fn push_u16(payload: &mut Vec<u8>, value: u16) {
    payload.extend_from_slice(&value.to_be_bytes());
}

fn push_u32(payload: &mut Vec<u8>, value: u32) {
    payload.extend_from_slice(&value.to_be_bytes());
}

fn push_i32(payload: &mut Vec<u8>, value: i32) {
    payload.extend_from_slice(&value.to_be_bytes());
}

fn boxed(box_type: &[u8; 4], payload: &[u8]) -> Vec<u8> {
    let size = u32::try_from(payload.len() + 8).unwrap();
    let mut output = Vec::with_capacity(payload.len() + 8);
    output.extend_from_slice(&size.to_be_bytes());
    output.extend_from_slice(box_type);
    output.extend_from_slice(payload);
    output
}

fn common_gain_map_payload() -> Vec<u8> {
    let mut payload = Vec::new();
    push_u16(&mut payload, 0);
    push_u16(&mut payload, 0);
    payload.push(0xc8 | 0x04); // RGB channels, base colour space, backward direction, common denominator.
    push_u32(&mut payload, 100);
    push_u32(&mut payload, 100);
    push_u32(&mut payload, 200);
    for channel in 0..3 {
        push_i32(&mut payload, -10 - channel);
        push_i32(&mut payload, 40 + channel);
        push_u32(&mut payload, 100);
        push_i32(&mut payload, 0);
        push_i32(&mut payload, 5);
    }
    payload.extend_from_slice(&[0, 1]);
    payload
}

#[test]
fn parses_gain_map_metadata_with_common_denominator() {
    let metadata = parse_gain_map_metadata_payload(&common_gain_map_payload()).unwrap();

    assert_eq!(metadata.channel_count(), 3);
    assert!(metadata.is_multichannel);
    assert!(metadata.use_base_colour_space);
    assert!(metadata.backward_direction);
    assert_eq!(metadata.base_hdr_headroom.numerator, 100);
    assert_eq!(metadata.alternate_hdr_headroom.numerator, 200);
    assert_eq!(metadata.channels[0].gain_map_min.numerator, -10);
    assert_eq!(metadata.channels[2].gain_map_max.numerator, 42);
    assert_eq!(metadata.channels[1].gamma.denominator, 100);
}

#[test]
fn parses_gain_map_metadata_with_per_field_denominators() {
    let mut payload = vec![0, 0, 0, 0, 0];
    push_u32(&mut payload, 1); // base headroom 1/1
    push_u32(&mut payload, 1);
    push_u32(&mut payload, 2); // alternate headroom 2/1
    push_u32(&mut payload, 1);
    push_i32(&mut payload, -1);
    push_u32(&mut payload, 1);
    push_i32(&mut payload, 3);
    push_u32(&mut payload, 1);
    push_u32(&mut payload, 1); // gamma numerator
    push_u32(&mut payload, 1);
    push_i32(&mut payload, 0);
    push_u32(&mut payload, 1);
    push_i32(&mut payload, 1);
    push_u32(&mut payload, 1);

    let metadata = parse_gain_map_metadata_payload(&payload).unwrap();
    assert_eq!(metadata.channel_count(), 1);
    assert_eq!(metadata.channels[0].gain_map_max.numerator, 3);
    assert_eq!(metadata.channels[0].alternate_offset.numerator, 1);
}

#[test]
fn rejects_invalid_gain_map_metadata_without_partial_result() {
    let mut unsupported = common_gain_map_payload();
    unsupported[0] = 1;
    assert!(matches!(
        parse_gain_map_metadata_payload(&unsupported),
        Err(DecoderError::Unsupported(message)) if message.contains("minimum version")
    ));

    let mut zero_denominator = common_gain_map_payload();
    zero_denominator[5..9].fill(0);
    assert!(matches!(
        parse_gain_map_metadata_payload(&zero_denominator),
        Err(DecoderError::Bitstream(message)) if message.contains("denominator")
    ));

    let mut invalid_range = common_gain_map_payload();
    invalid_range[21..25].copy_from_slice(&(-20_i32).to_be_bytes());
    assert!(matches!(
        parse_gain_map_metadata_payload(&invalid_range),
        Err(DecoderError::Bitstream(message)) if message.contains("maximum")
    ));
}

#[test]
fn gain_map_metadata_is_absent_without_tmap_item() {
    assert_eq!(parse_gain_map_metadata(b"not an avif").unwrap(), None);
}

#[test]
fn parses_gain_map_metadata_from_tmap_item_payload() {
    let gain_map = common_gain_map_payload();
    let mut infe = vec![2, 0, 0, 0, 0, 1, 0, 0];
    infe.extend_from_slice(b"tmapgain\0");
    let iinf_entry = boxed(b"infe", &infe);
    let mut iinf = vec![0, 0, 0, 0, 0, 1];
    iinf.extend_from_slice(&iinf_entry);

    let mut iloc = vec![
        1, 0, 0, 0, 0x04, 0, 0, 1, // version, sizes, one item
        0, 1, // item id
        0, 1, // construction method 1
        0, 0, // data reference index
        0, 1, // one extent
    ];
    iloc.extend_from_slice(&(u32::try_from(gain_map.len()).unwrap()).to_be_bytes());

    let mut meta_payload = vec![0, 0, 0, 0];
    meta_payload.extend_from_slice(&boxed(b"pitm", &[0, 0, 0, 0, 0, 1]));
    meta_payload.extend_from_slice(&boxed(b"iinf", &iinf));
    meta_payload.extend_from_slice(&boxed(b"iloc", &iloc));
    meta_payload.extend_from_slice(&boxed(b"idat", &gain_map));

    let metadata = parse_gain_map_metadata(&boxed(b"meta", &meta_payload))
        .unwrap()
        .expect("tmap metadata should be discovered from the item payload");
    assert_eq!(metadata.channel_count(), 3);
    assert_eq!(metadata.channels[2].gain_map_max.numerator, 42);
}

fn one_frame_obu(obu_type: u8, header_byte: u8) -> Vec<u8> {
    vec![(obu_type << 3) | 0x02, 1, header_byte]
}

#[test]
fn classifies_sequence_sample_frame_header_kinds() {
    assert_eq!(
        classify_av1_sequence_sample(&one_frame_obu(6, 0x00)).unwrap(),
        Some(AvifSequenceSampleKind::Key)
    );
    assert_eq!(
        classify_av1_sequence_sample(&one_frame_obu(6, 0x20)).unwrap(),
        Some(AvifSequenceSampleKind::Inter)
    );
    assert_eq!(
        classify_av1_sequence_sample(&one_frame_obu(3, 0xa0)).unwrap(),
        Some(AvifSequenceSampleKind::ShowExisting {
            frame_to_show_map_idx: 2
        })
    );
}

#[test]
fn inspects_sequence_header_presence_alongside_frame_kind() {
    let mut payload = vec![(1 << 3) | 0x02, 1, 0x00];
    payload.extend_from_slice(&one_frame_obu(6, 0x40));
    let info = inspect_av1_sequence_sample(&payload).unwrap();
    assert_eq!(info.kind, Some(AvifSequenceSampleKind::IntraOnly));
    assert!(info.has_sequence_header);
    assert_eq!(classify_av1_sequence_sample(&payload).unwrap(), info.kind);
}

#[test]
fn parses_sato_postfix_expression_with_16_bit_constant() {
    // input0 * 256 + input1, the canonical 8-bit-to-16-bit suffix.
    let payload = [1, 5, 1, 0, 1, 0, 130, 2, 128];
    let (depth, tokens) = parse_sample_transform_payload(&payload).unwrap();
    assert_eq!(depth, 16);
    assert_eq!(
        tokens,
        vec![
            SampleTransformToken::Input(0),
            SampleTransformToken::Constant(256),
            SampleTransformToken::Binary(2),
            SampleTransformToken::Input(1),
            SampleTransformToken::Binary(0),
        ]
    );
}

#[test]
fn rejects_sato_reserved_token_and_stack_leaks() {
    let reserved = [0, 1, 33];
    assert!(matches!(
        parse_sample_transform_payload(&reserved),
        Err(DecoderError::Unsupported(message)) if message.contains("reserved sato token")
    ));
    let leaked = [0, 2, 1, 2];
    assert!(matches!(
        parse_sample_transform_payload(&leaked),
        Err(DecoderError::Bitstream(message)) if message.contains("exactly one result")
    ));
}

#[test]
fn parses_sato_32_bit_signed_constants_and_unary_operators() {
    // -2, absolute value, then bitwise-not: ~abs(-2) == -3.
    let payload = [2, 3, 0, 0xff, 0xff, 0xff, 0xfe, 65, 66];
    let (depth, tokens) = parse_sample_transform_payload(&payload).unwrap();
    assert_eq!(depth, 32);
    assert_eq!(
        tokens,
        vec![
            SampleTransformToken::Constant(-2),
            SampleTransformToken::Unary(1),
            SampleTransformToken::Unary(2),
        ]
    );
}

#[test]
fn parses_sato_64_bit_signed_constants() {
    // The 64-bit form is a signed big-endian integer, not a reserved
    // expression width. Keep the value at the signed boundary so both
    // byte width and sign extension are covered.
    let payload = [3, 1, 0, 0x80, 0, 0, 0, 0, 0, 0, 0];
    let (depth, tokens) = parse_sample_transform_payload(&payload).unwrap();
    assert_eq!(depth, 64);
    assert_eq!(tokens, vec![SampleTransformToken::Constant(i64::MIN)]);
}

#[test]
fn rejects_empty_coded_frame_header_during_sequence_classification() {
    let error = classify_av1_sequence_sample(&[0x1a, 0]).unwrap_err();
    assert!(matches!(
        error,
        DecoderError::NotEnoughData(message) if message.contains("frame header is empty")
    ));
}

#[test]
fn rejects_truncated_top_level_box_header() {
    let err = parse_avif(&[0, 0, 0]).unwrap_err();

    assert!(
        matches!(err, DecoderError::NotEnoughData(message) if message.contains("box header"))
    );
}

#[test]
fn rejects_box_size_smaller_than_header() {
    let err = read_box_header(&[0, 0, 0, 4, b'f', b't', b'y', b'p'], 0, 8).unwrap_err();

    assert!(
        matches!(err, DecoderError::Bitstream(message) if message.contains("smaller than its header"))
    );
}

#[test]
fn rejects_box_extending_beyond_parent() {
    let err = read_box_header(&[0, 0, 0, 12, b'f', b't', b'y', b'p'], 0, 8).unwrap_err();

    assert!(
        matches!(err, DecoderError::NotEnoughData(message) if message.contains("beyond parent"))
    );
}

#[test]
fn rejects_item_extent_payload_length_overflow() {
    let state = MetaState {
        primary_item_id: Some(1),
        item_locations: vec![ItemLocation {
            item_id: 1,
            base_offset: 0,
            extents: vec![
                ItemExtent {
                    offset: 0,
                    length: u64::MAX,
                },
                ItemExtent {
                    offset: 0,
                    length: 1,
                },
            ],
        }],
        ..MetaState::default()
    };

    let err = primary_item_payload(&[], &state).unwrap_err();

    assert!(
        matches!(err, DecoderError::Bitstream(message) if message.contains("payload length overflow") || message.contains("too large"))
    );
}

#[test]
fn rejects_item_extent_offset_overflow() {
    let state = MetaState {
        primary_item_id: Some(1),
        item_locations: vec![ItemLocation {
            item_id: 1,
            base_offset: u64::MAX,
            extents: vec![ItemExtent {
                offset: 1,
                length: 0,
            }],
        }],
        ..MetaState::default()
    };

    let err = primary_item_payload(&[], &state).unwrap_err();

    assert!(
        matches!(err, DecoderError::Bitstream(message) if message.contains("offset overflow"))
    );
}

#[test]
fn rejects_item_extent_outside_file() {
    let state = MetaState {
        primary_item_id: Some(1),
        item_locations: vec![ItemLocation {
            item_id: 1,
            base_offset: 0,
            extents: vec![ItemExtent {
                offset: 1,
                length: 2,
            }],
        }],
        ..MetaState::default()
    };

    let err = primary_item_payload(&[0, 1], &state).unwrap_err();

    assert!(
        matches!(err, DecoderError::NotEnoughData(message) if message.contains("outside the file"))
    );
}

#[test]
fn rejects_iinf_entry_count_that_cannot_fit_in_payload() {
    let err = parse_iinf(&[
        1, 0, 0, 0, // version and flags
        0xff, 0xff, 0xff, 0xff, // entry count
    ])
    .unwrap_err();

    assert!(
        matches!(err, DecoderError::NotEnoughData(message) if message.contains("iinf entry count"))
    );
}

#[test]
fn rejects_iloc_item_count_that_cannot_fit_in_payload() {
    let err = parse_iloc(&[
        2, 0, 0, 0, // version and flags
        0, 0, // field sizes
        0xff, 0xff, 0xff, 0xff, // item count
    ])
    .unwrap_err();

    assert!(
        matches!(err, DecoderError::NotEnoughData(message) if message.contains("iloc item count"))
    );
}

#[test]
fn rejects_iloc_extent_count_that_cannot_fit_in_payload() {
    let err = parse_iloc(&[
        0, 0, 0, 0, // version and flags
        0x44, 0, // four-byte offsets and lengths, no base offset
        0, 1, // item count
        0, 1, // item id
        0, 0, // data reference index
        0xff, 0xff, // extent count
    ])
    .unwrap_err();

    assert!(
        matches!(err, DecoderError::NotEnoughData(message) if message.contains("iloc extent count"))
    );
}

#[test]
fn parses_idat_construction_method() {
    let (locations, methods) = parse_iloc_with_methods(&[
        1, 0, 0, 0, // version and flags
        0x44, 0, // four-byte offsets and lengths, no base/index
        0, 1, // item count
        0, 1, // item id
        0, 1, // idat construction method
        0, 0, // data reference index
        0, 1, // extent count
        0, 0, 0, 1, // extent offset
        0, 0, 0, 3, // extent length
    ])
    .unwrap();

    assert_eq!(methods, vec![(1, 1)]);
    assert_eq!(locations[0].item_id, 1);
    assert_eq!(locations[0].extents[0].offset, 1);
    assert_eq!(locations[0].extents[0].length, 3);
}

#[test]
fn parses_item_offset_construction_method() {
    let (_, methods) = parse_iloc_with_methods(&[
        1, 0, 0, 0, // version and flags
        0x44, 0, // four-byte offsets and lengths, no base/index
        0, 1, // item count
        0, 1, // item id
        0, 2, // item-offset construction method
        0, 0, // data reference index
        0, 1, // extent count
        0, 0, 0, 1, // item offset
        0, 0, 0, 2, // extent length
    ])
    .unwrap();

    assert_eq!(methods, vec![(1, 2)]);
}

#[test]
fn parses_explicit_item_offset_extent_indexes() {
    let (_, methods, indexes) = parse_iloc_with_indexes(&[
        1, 0, 0, 0, // version and flags
        0x44, 0x04, // four-byte offsets, lengths and extent indexes
        0, 1, // item count
        0, 1, // item id
        0, 2, // item-offset construction method
        0, 0, // data reference index
        0, 2, // extent count
        0, 0, 0, 2, // extent index 2
        0, 0, 0, 1, // item offset
        0, 0, 0, 2, // extent length
        0, 0, 0, 1, // extent index 1
        0, 0, 0, 0, // item offset
        0, 0, 0, 2, // extent length
    ])
    .unwrap();

    assert_eq!(methods, vec![(1, 2)]);
    assert_eq!(indexes, vec![(1, vec![2, 1])]);
}

#[test]
fn rejects_zero_item_offset_extent_index() {
    let error = parse_iloc_with_indexes(&[
        1, 0, 0, 0, // version and flags
        0x44, 0x04, // four-byte offsets, lengths and extent indexes
        0, 1, // item count
        0, 1, // item id
        0, 2, // item-offset construction method
        0, 0, // data reference index
        0, 1, // extent count
        0, 0, 0, 0, // reserved zero extent index
        0, 0, 0, 0, // item offset
        0, 0, 0, 1, // extent length
    ])
    .unwrap_err();

    assert!(
        matches!(error, DecoderError::Bitstream(message) if message.contains("extent index is zero"))
    );
}

#[test]
fn resolves_item_payload_from_idat() {
    let state = MetaState {
        primary_item_id: Some(1),
        item_locations: vec![ItemLocation {
            item_id: 1,
            base_offset: 0,
            extents: vec![ItemExtent {
                offset: 1,
                length: 3,
            }],
        }],
        item_construction_methods: vec![(1, 1)],
        idat_payload: Some(b"xyz123".to_vec()),
        ..MetaState::default()
    };

    assert_eq!(primary_item_payload(b"unused", &state).unwrap(), b"yz1");
}

#[test]
fn resolves_item_payload_from_item_offset_reference() {
    let state = MetaState {
        primary_item_id: Some(1),
        item_locations: vec![
            ItemLocation {
                item_id: 1,
                base_offset: 0,
                extents: vec![ItemExtent {
                    offset: 1,
                    length: 2,
                }],
            },
            ItemLocation {
                item_id: 2,
                base_offset: 0,
                extents: vec![ItemExtent {
                    offset: 0,
                    length: 5,
                }],
            },
        ],
        item_construction_methods: vec![(1, 2), (2, 0)],
        item_references: vec![ItemReference {
            reference_type: *b"iloc",
            from_item_id: 1,
            to_item_ids: vec![2],
        }],
        ..MetaState::default()
    };

    assert_eq!(primary_item_payload(b"abcde", &state).unwrap(), b"bc");
}

#[test]
fn resolves_item_payload_from_explicit_item_offset_indexes() {
    let state = MetaState {
        primary_item_id: Some(1),
        item_locations: vec![
            ItemLocation {
                item_id: 1,
                base_offset: 0,
                extents: vec![
                    ItemExtent {
                        offset: 1,
                        length: 2,
                    },
                    ItemExtent {
                        offset: 2,
                        length: 2,
                    },
                ],
            },
            ItemLocation {
                item_id: 2,
                base_offset: 0,
                extents: vec![ItemExtent {
                    offset: 0,
                    length: 5,
                }],
            },
            ItemLocation {
                item_id: 3,
                base_offset: 5,
                extents: vec![ItemExtent {
                    offset: 0,
                    length: 5,
                }],
            },
        ],
        item_construction_methods: vec![(1, 2), (2, 0), (3, 0)],
        item_extent_indexes: vec![(1, vec![2, 1])],
        item_references: vec![ItemReference {
            reference_type: *b"iloc",
            from_item_id: 1,
            to_item_ids: vec![2, 3],
        }],
        ..MetaState::default()
    };

    assert_eq!(
        primary_item_payload(b"abcdefghij", &state).unwrap(),
        b"ghcd"
    );
}

#[test]
fn rejects_item_offset_reference_cycles() {
    let state = MetaState {
        primary_item_id: Some(1),
        item_locations: vec![
            ItemLocation {
                item_id: 1,
                base_offset: 0,
                extents: vec![ItemExtent {
                    offset: 0,
                    length: 1,
                }],
            },
            ItemLocation {
                item_id: 2,
                base_offset: 0,
                extents: vec![ItemExtent {
                    offset: 0,
                    length: 1,
                }],
            },
        ],
        item_construction_methods: vec![(1, 2), (2, 2)],
        item_references: vec![
            ItemReference {
                reference_type: *b"iloc",
                from_item_id: 1,
                to_item_ids: vec![2],
            },
            ItemReference {
                reference_type: *b"iloc",
                from_item_id: 2,
                to_item_ids: vec![1],
            },
        ],
        ..MetaState::default()
    };

    let error = primary_item_payload(b"unused", &state).unwrap_err();
    assert!(
        matches!(error, DecoderError::Bitstream(message) if message.contains("reference cycle"))
    );
}

#[test]
fn rejects_idat_item_without_idat_box() {
    let state = MetaState {
        primary_item_id: Some(1),
        item_locations: vec![ItemLocation {
            item_id: 1,
            base_offset: 0,
            extents: vec![ItemExtent {
                offset: 0,
                length: 1,
            }],
        }],
        item_construction_methods: vec![(1, 1)],
        ..MetaState::default()
    };

    let err = primary_item_payload(b"unused", &state).unwrap_err();
    assert!(
        matches!(err, DecoderError::Bitstream(message) if message.contains("missing idat box"))
    );
}

#[test]
fn rejects_ipma_entry_count_that_cannot_fit_in_payload() {
    let err = parse_ipma(&[
        0, 0, 0, 0, // version and flags
        0xff, 0xff, 0xff, 0xff, // entry count
    ])
    .unwrap_err();

    assert!(
        matches!(err, DecoderError::NotEnoughData(message) if message.contains("ipma entry count"))
    );
}

#[test]
fn rejects_item_extent_payload_larger_than_source_file() {
    let state = MetaState {
        primary_item_id: Some(1),
        item_locations: vec![ItemLocation {
            item_id: 1,
            base_offset: 0,
            extents: vec![
                ItemExtent {
                    offset: 0,
                    length: 2,
                },
                ItemExtent {
                    offset: 0,
                    length: 2,
                },
            ],
        }],
        ..MetaState::default()
    };

    let err = primary_item_payload(&[0, 1], &state).unwrap_err();

    assert!(
        matches!(err, DecoderError::Bitstream(message) if message.contains("exceeds file size"))
    );
}

#[test]
fn rejects_truncated_large_grid_payload() {
    let err = parse_grid_payload(&[
        0, 1, // version, large-field flag
        0, 0, // rows minus 1, columns minus 1
        0, 0, 0, 1, // width
    ])
    .unwrap_err();

    assert!(
        matches!(err, DecoderError::NotEnoughData(message) if message.contains("large grid"))
    );
}

#[test]
fn color_information_exposes_nclx_and_icc_payloads() {
    let nclx = parse_colr(&[
        b'n', b'c', b'l', b'x', //
        0, 1, 0, 13, 0, 0, 0x80,
    ])
    .unwrap();
    assert_eq!(
        nclx.nclx(),
        Some(NclxColorInformation {
            color_primaries: 1,
            transfer_characteristics: 13,
            matrix_coefficients: 0,
            full_range_flag: true,
        })
    );
    assert_eq!(nclx.icc_profile(), None);

    let icc = parse_colr(&[b'p', b'r', b'o', b'f', 1, 2, 3, 4]).unwrap();
    assert_eq!(icc.nclx(), None);
    assert_eq!(icc.icc_profile(), Some(&[1, 2, 3, 4][..]));
}

#[test]
fn parses_extended_pixi_channel_subsampling() {
    let pixi = parse_pixi(&[
        0, 0, 0, 1, // version and extended-pixi flag
        3, 8, 8, 8, // three 8-bit channels
        0x02, 0x00, // Y: subsampling type 0, location 0
        0x02, 0x20, // U: subsampling type 2, location 0
        0x02, 0x20, // V: subsampling type 2, location 0
    ])
    .unwrap();
    assert_eq!(pixi.bits_per_channel, vec![8, 8, 8]);
    assert_eq!(
        pixi.extended_channels,
        Some(vec![
            PixelChannelInformation {
                channel_idc: 0,
                component_format: 0,
                subsampling: Some(PixelSubsampling {
                    subsampling_type: 0,
                    subsampling_location: 0,
                }),
            },
            PixelChannelInformation {
                channel_idc: 0,
                component_format: 0,
                subsampling: Some(PixelSubsampling {
                    subsampling_type: 2,
                    subsampling_location: 0,
                }),
            },
            PixelChannelInformation {
                channel_idc: 0,
                component_format: 0,
                subsampling: Some(PixelSubsampling {
                    subsampling_type: 2,
                    subsampling_location: 0,
                }),
            },
        ])
    );
}

#[test]
fn rejects_unsupported_extended_pixi_channel_fields() {
    let base = vec![0, 0, 0, 1, 1, 8, 0x02, 0x00];
    let mut version = base.clone();
    version[0] = 1;
    assert!(matches!(
        parse_pixi(&version),
        Err(DecoderError::Unsupported(message)) if message.contains("version")
    ));

    let mut flags = base.clone();
    flags[3] = 2;
    assert!(matches!(
        parse_pixi(&flags),
        Err(DecoderError::Unsupported(message)) if message.contains("flags")
    ));

    let mut channel_idc = base.clone();
    channel_idc[6] = 0x22;
    assert!(matches!(
        parse_pixi(&channel_idc),
        Err(DecoderError::Unsupported(message)) if message.contains("idc")
    ));

    let mut reserved = base.clone();
    reserved[6] = 0x12;
    assert!(matches!(
        parse_pixi(&reserved),
        Err(DecoderError::Bitstream(message)) if message.contains("reserved")
    ));

    let mut component_format = base.clone();
    component_format[6] = 0x06;
    assert!(matches!(
        parse_pixi(&component_format),
        Err(DecoderError::Unsupported(message)) if message.contains("component format")
    ));

    let mut subsampling_type = base;
    subsampling_type[7] = 0x50;
    assert!(matches!(
        parse_pixi(&subsampling_type),
        Err(DecoderError::Bitstream(message)) if message.contains("subsampling type")
    ));
}

#[test]
fn parses_alpha_auxiliary_item_metadata_and_payload() {
    let state = MetaState {
        primary_item_id: Some(1),
        item_locations: vec![
            ItemLocation {
                item_id: 1,
                base_offset: 0,
                extents: vec![ItemExtent {
                    offset: 0,
                    length: 4,
                }],
            },
            ItemLocation {
                item_id: 2,
                base_offset: 0,
                extents: vec![ItemExtent {
                    offset: 4,
                    length: 4,
                }],
            },
        ],
        item_property_associations: vec![ItemPropertyAssociation {
            item_id: 2,
            associations: vec![PropertyAssociation {
                index: 1,
                essential: false,
            }],
        }],
        item_properties: vec![ItemProperty::AuxiliaryType(alpha_aux_type().to_string())],
        ..MetaState::default()
    };

    let alpha_items = alpha_auxiliary_items(b"mainalph", &state).unwrap();

    assert_eq!(
        alpha_items,
        vec![AuxiliaryImage {
            item_id: 2,
            aux_type: alpha_aux_type().to_string(),
            payload: b"alph".to_vec(),
        }]
    );
}

#[test]
fn parses_auxiliary_item_references_as_alpha_fallback() {
    let payload = [
        0, 0, 0, 0, // iref version and flags
        0, 0, 0, 14, b'a', b'u', b'x', b'l', // auxl box header
        0, 1, // from item id
        0, 1, // reference count
        0, 2, // to item id
    ];

    let references = parse_iref(&payload).unwrap();

    assert_eq!(
        references,
        vec![ItemReference {
            reference_type: *b"auxl",
            from_item_id: 1,
            to_item_ids: vec![2],
        }]
    );
}

#[test]
fn parses_auxiliary_type_and_property_association() {
    let auxc = parse_auxc(
        &[
            0, 0, 0, 0, // auxC full-box header
        ]
        .into_iter()
        .chain(alpha_aux_type().bytes())
        .chain([0])
        .collect::<Vec<_>>(),
    )
    .unwrap();
    assert_eq!(auxc, alpha_aux_type());

    let associations = parse_ipma(&[
        0, 0, 0, 0, // version and flags
        0, 0, 0, 1, // entry count
        0, 2,    // item id
        1,    // association count
        0x81, // essential property index 1
    ])
    .unwrap();

    assert_eq!(
        associations,
        vec![ItemPropertyAssociation {
            item_id: 2,
            associations: vec![PropertyAssociation {
                index: 1,
                essential: true,
            }],
        }]
    );
}

#[test]
fn parses_layered_image_selector_properties() {
    assert_eq!(parse_a1op(&[0]).unwrap(), 0);
    assert_eq!(parse_lsel(&[0, 0]).unwrap(), 0);
    assert_eq!(parse_lsel(&[0xff, 0xff]).unwrap(), u16::MAX);
    assert_eq!(parse_a1lx(&[0, 0, 4, 0, 8, 0, 0]).unwrap(), [4, 8, 0]);
    assert_eq!(
        parse_a1lx(&[1, 0, 0, 0, 3, 0, 0, 0, 7, 0, 0, 0, 0]).unwrap(),
        [3, 7, 0]
    );
}

#[test]
fn layered_image_selectors_fail_closed_outside_default_layer_policy() {
    let state = MetaState {
        primary_item_id: Some(1),
        item_infos: vec![ItemInfo {
            item_id: 1,
            item_type: *b"av01",
            item_name: "primary".to_string(),
        }],
        item_locations: vec![ItemLocation {
            item_id: 1,
            base_offset: 0,
            extents: vec![ItemExtent {
                offset: 0,
                length: 1,
            }],
        }],
        item_property_associations: vec![ItemPropertyAssociation {
            item_id: 1,
            associations: vec![
                PropertyAssociation {
                    index: 1,
                    essential: true,
                },
                PropertyAssociation {
                    index: 2,
                    essential: true,
                },
                PropertyAssociation {
                    index: 3,
                    essential: true,
                },
                PropertyAssociation {
                    index: 4,
                    essential: true,
                },
            ],
        }],
        item_properties: vec![
            ItemProperty::SpatialExtents(ImageSpatialExtents {
                width: 1,
                height: 1,
            }),
            ItemProperty::PixelInformation(PixelInformation {
                bits_per_channel: vec![8, 8, 8],
                extended_channels: None,
            }),
            ItemProperty::Av1Config(vec![0x81, 0, 0, 0]),
            ItemProperty::LayerSelector(1),
        ],
        ..MetaState::default()
    };

    let error = validate_primary_item_metadata(&state).unwrap_err();
    assert!(matches!(
        error,
        DecoderError::Unsupported(message) if message.contains("lsel layer 1")
    ));
}

#[test]
fn tmap_primary_selects_the_referenced_base_av1_item() {
    let state = MetaState {
        primary_item_id: Some(10),
        item_infos: vec![
            ItemInfo {
                item_id: 10,
                item_type: *b"tmap",
                item_name: "tone map".to_string(),
            },
            ItemInfo {
                item_id: 11,
                item_type: *b"av01",
                item_name: "base".to_string(),
            },
            ItemInfo {
                item_id: 12,
                item_type: *b"av01",
                item_name: "gain map".to_string(),
            },
        ],
        item_references: vec![ItemReference {
            reference_type: *b"dimg",
            from_item_id: 10,
            to_item_ids: vec![11, 12],
        }],
        ..MetaState::default()
    };

    assert_eq!(effective_primary_item_id(&state).unwrap(), 11);

    let mut without_base = state;
    without_base.item_references[0].to_item_ids = Vec::new();
    let error = effective_primary_item_id(&without_base).unwrap_err();
    assert!(matches!(
        error,
        DecoderError::Unsupported(message) if message.contains("base av01")
    ));
}

#[test]
fn rejects_essential_unknown_item_property() {
    let state = MetaState {
        primary_item_id: Some(1),
        item_infos: vec![ItemInfo {
            item_id: 1,
            item_type: *b"av01",
            item_name: "primary".to_string(),
        }],
        item_locations: vec![ItemLocation {
            item_id: 1,
            base_offset: 0,
            extents: vec![ItemExtent {
                offset: 0,
                length: 1,
            }],
        }],
        item_property_associations: vec![ItemPropertyAssociation {
            item_id: 1,
            associations: vec![
                PropertyAssociation {
                    index: 1,
                    essential: true,
                },
                PropertyAssociation {
                    index: 2,
                    essential: true,
                },
                PropertyAssociation {
                    index: 3,
                    essential: true,
                },
                PropertyAssociation {
                    index: 4,
                    essential: true,
                },
            ],
        }],
        item_properties: vec![
            ItemProperty::SpatialExtents(ImageSpatialExtents {
                width: 1,
                height: 1,
            }),
            ItemProperty::PixelInformation(PixelInformation {
                bits_per_channel: vec![8, 8, 8],
                extended_channels: None,
            }),
            ItemProperty::Av1Config(vec![0x81, 0, 0, 0]),
            ItemProperty::Other,
        ],
        ..MetaState::default()
    };

    let error = validate_primary_item_metadata(&state).unwrap_err();
    assert!(matches!(
        error,
        DecoderError::Unsupported(message) if message.contains("essential unsupported property")
    ));
}

#[test]
fn rejects_primary_metadata_with_out_of_range_property_association() {
    let state = MetaState {
        primary_item_id: Some(1),
        item_infos: vec![ItemInfo {
            item_id: 1,
            item_type: *b"av01",
            item_name: "primary".to_string(),
        }],
        item_locations: vec![ItemLocation {
            item_id: 1,
            base_offset: 0,
            extents: vec![ItemExtent {
                offset: 0,
                length: 1,
            }],
        }],
        item_property_associations: vec![ItemPropertyAssociation {
            item_id: 1,
            associations: vec![PropertyAssociation {
                index: 2,
                essential: false,
            }],
        }],
        item_properties: vec![ItemProperty::Other],
        ..MetaState::default()
    };

    let error = validate_primary_item_metadata(&state).unwrap_err();
    assert!(
        matches!(error, DecoderError::Bitstream(message) if message.contains("out of range"))
    );
}

#[test]
fn parses_item_info_for_grid_items() {
    let payload = [
        0, 0, 0, 0, // iinf version and flags
        0, 1, // entry count
        0, 0, 0, 24, b'i', b'n', b'f', b'e', // infe box header
        2, 0, 0, 0, // infe version and flags
        0, 7, // item id
        0, 0, // protection index
        b'g', b'r', b'i', b'd', // item type
        b'g', b'r', b'i', b'd', 0, // item name
    ];

    let infos = parse_iinf(&payload).unwrap();

    assert_eq!(
        infos,
        vec![ItemInfo {
            item_id: 7,
            item_type: *b"grid",
            item_name: "grid".to_string(),
        }]
    );
}

#[test]
fn parses_grid_payload_small_and_large_dimensions() {
    assert_eq!(
        parse_grid_payload(&[
            0, 0, // version, flags
            1, 2, // rows_minus_one, columns_minus_one
            0x03, 0x20, // output width 800
            0x02, 0x58, // output height 600
        ])
        .unwrap(),
        ParsedGridPayload {
            rows: 2,
            columns: 3,
            output_width: 800,
            output_height: 600,
        }
    );

    assert_eq!(
        parse_grid_payload(&[
            0, 1, // version, large-fields flag
            0, 0, // rows_minus_one, columns_minus_one
            0, 0, 0x10, 0, // output width 4096
            0, 0, 0x08, 0, // output height 2048
        ])
        .unwrap(),
        ParsedGridPayload {
            rows: 1,
            columns: 1,
            output_width: 4096,
            output_height: 2048,
        }
    );
}

#[test]
fn primary_grid_requires_ordered_cell_references() {
    let state = MetaState {
        primary_item_id: Some(7),
        item_infos: vec![ItemInfo {
            item_id: 7,
            item_type: *b"grid",
            item_name: "grid".to_string(),
        }],
        ..MetaState::default()
    };
    let payload = [
        0, 0, // version, flags
        1, 1, // rows_minus_one, columns_minus_one
        0, 10, // output width
        0, 20, // output height
    ];

    let error = primary_grid(&[0; 4], &payload, &state).unwrap_err();
    assert!(matches!(error, DecoderError::Bitstream(message) if message.contains("dimg")));
}

#[test]
fn parses_clap_irot_and_imir_properties() {
    assert_eq!(
        parse_clap(&[
            0, 0, 3, 32, // width_n 800
            0, 0, 0, 1, // width_d
            0, 0, 2, 88, // height_n 600
            0, 0, 0, 1, // height_d
            0, 0, 0, 0, // horiz offset n
            0, 0, 0, 1, // horiz offset d
            0, 0, 0, 0, // vert offset n
            0, 0, 0, 1, // vert offset d
        ])
        .unwrap(),
        CleanAperture {
            width_n: 800,
            width_d: 1,
            height_n: 600,
            height_d: 1,
            horizontal_offset_n: 0,
            horizontal_offset_d: 1,
            vertical_offset_n: 0,
            vertical_offset_d: 1,
        }
    );
    assert_eq!(parse_irot(&[5]).unwrap(), ImageRotation { angle: 1 });
    assert_eq!(parse_imir(&[3]).unwrap(), ImageMirror { axis: 1 });
}

#[test]
fn primary_item_transforms_are_exposed_from_property_associations() {
    let clap = CleanAperture {
        width_n: 800,
        width_d: 1,
        height_n: 600,
        height_d: 1,
        horizontal_offset_n: 0,
        horizontal_offset_d: 1,
        vertical_offset_n: 0,
        vertical_offset_d: 1,
    };
    let state = MetaState {
        primary_item_id: Some(7),
        item_property_associations: vec![ItemPropertyAssociation {
            item_id: 7,
            associations: vec![
                PropertyAssociation {
                    index: 1,
                    essential: false,
                },
                PropertyAssociation {
                    index: 2,
                    essential: false,
                },
                PropertyAssociation {
                    index: 3,
                    essential: false,
                },
            ],
        }],
        item_properties: vec![
            ItemProperty::CleanAperture(clap),
            ItemProperty::Rotation(ImageRotation { angle: 2 }),
            ItemProperty::Mirror(ImageMirror { axis: 1 }),
        ],
        ..MetaState::default()
    };

    assert_eq!(
        primary_item_transforms(&state),
        PrimaryItemTransforms {
            clean_aperture: Some(clap),
            rotation: Some(ImageRotation { angle: 2 }),
            mirror: Some(ImageMirror { axis: 1 }),
        }
    );
}

#[test]
fn primary_metadata_preserves_premultiplied_alpha_property() {
    let state = MetaState {
        item_property_associations: vec![ItemPropertyAssociation {
            item_id: 7,
            associations: vec![PropertyAssociation {
                index: 1,
                essential: false,
            }],
        }],
        item_properties: vec![ItemProperty::Premultiplied],
        ..MetaState::default()
    };

    assert!(item_metadata(&state, 7).unwrap().alpha_premultiplied);
}

#[test]
fn primary_metadata_resolves_only_properties_associated_with_primary_item() {
    let primary_color = ColorInformation {
        color_type: *b"nclx",
        payload: vec![0, 1, 0, 13, 0, 0, 0x80],
    };
    let auxiliary_color = ColorInformation {
        color_type: *b"prof",
        payload: vec![9, 8, 7],
    };
    let state = MetaState {
        primary_item_id: Some(1),
        item_infos: vec![
            ItemInfo {
                item_id: 1,
                item_type: *b"av01",
                item_name: "primary".to_string(),
            },
            ItemInfo {
                item_id: 2,
                item_type: *b"av01",
                item_name: "auxiliary".to_string(),
            },
        ],
        item_locations: vec![
            ItemLocation {
                item_id: 1,
                base_offset: 0,
                extents: vec![ItemExtent {
                    offset: 0,
                    length: 1,
                }],
            },
            ItemLocation {
                item_id: 2,
                base_offset: 0,
                extents: vec![ItemExtent {
                    offset: 0,
                    length: 1,
                }],
            },
        ],
        item_properties: vec![
            ItemProperty::SpatialExtents(ImageSpatialExtents {
                width: 1204,
                height: 800,
            }),
            ItemProperty::PixelInformation(PixelInformation {
                bits_per_channel: vec![8, 8, 8],
                extended_channels: None,
            }),
            ItemProperty::Av1Config(vec![1, 2, 3]),
            ItemProperty::ColorInformation(primary_color.clone()),
            ItemProperty::SpatialExtents(ImageSpatialExtents {
                width: 10,
                height: 10,
            }),
            ItemProperty::PixelInformation(PixelInformation {
                bits_per_channel: vec![10],
                extended_channels: None,
            }),
            ItemProperty::Av1Config(vec![9]),
            ItemProperty::ColorInformation(auxiliary_color),
        ],
        item_property_associations: vec![
            ItemPropertyAssociation {
                item_id: 1,
                associations: vec![
                    PropertyAssociation {
                        index: 1,
                        essential: true,
                    },
                    PropertyAssociation {
                        index: 2,
                        essential: false,
                    },
                    PropertyAssociation {
                        index: 3,
                        essential: true,
                    },
                    PropertyAssociation {
                        index: 4,
                        essential: false,
                    },
                ],
            },
            ItemPropertyAssociation {
                item_id: 2,
                associations: vec![
                    PropertyAssociation {
                        index: 5,
                        essential: true,
                    },
                    PropertyAssociation {
                        index: 6,
                        essential: false,
                    },
                    PropertyAssociation {
                        index: 7,
                        essential: true,
                    },
                    PropertyAssociation {
                        index: 8,
                        essential: false,
                    },
                ],
            },
        ],
        ..MetaState::default()
    };

    validate_primary_item_metadata(&state).unwrap();
    let metadata = primary_item_metadata(&state).unwrap();
    assert_eq!(metadata.width, Some(1204));
    assert_eq!(metadata.height, Some(800));
    assert_eq!(
        metadata.pixel_information.unwrap().bits_per_channel,
        vec![8, 8, 8]
    );
    assert_eq!(metadata.av1_config, Some(vec![1, 2, 3]));
    assert_eq!(metadata.color_information, Some(primary_color));
}

#[test]
fn sato_primary_item_requires_derived_image_properties_not_av1c() {
    let state = MetaState {
        primary_item_id: Some(7),
        item_infos: vec![ItemInfo {
            item_id: 7,
            item_type: *b"sato",
            item_name: "sample transform".to_string(),
        }],
        item_locations: vec![ItemLocation {
            item_id: 7,
            base_offset: 0,
            extents: vec![ItemExtent {
                offset: 0,
                length: 2,
            }],
        }],
        item_properties: vec![
            ItemProperty::SpatialExtents(ImageSpatialExtents {
                width: 1,
                height: 1,
            }),
            ItemProperty::PixelInformation(PixelInformation {
                bits_per_channel: vec![16, 16, 16],
                extended_channels: None,
            }),
        ],
        item_property_associations: vec![ItemPropertyAssociation {
            item_id: 7,
            associations: vec![
                PropertyAssociation {
                    index: 1,
                    essential: true,
                },
                PropertyAssociation {
                    index: 2,
                    essential: true,
                },
            ],
        }],
        ..MetaState::default()
    };
    validate_primary_item_metadata(&state).unwrap();
}

    #[test]
fn merges_ipma_boxes_preserving_order_and_essential_flags() {
    let mut target = vec![ItemPropertyAssociation {
        item_id: 1,
        associations: vec![PropertyAssociation {
            index: 2,
            essential: true,
        }],
    }];
    merge_ipma(
        &mut target,
        vec![ItemPropertyAssociation {
            item_id: 1,
            associations: vec![PropertyAssociation {
                index: 1,
                essential: false,
            }],
        }],
    )
    .unwrap();
    assert_eq!(
        target[0].associations,
        vec![
            PropertyAssociation {
                index: 2,
                essential: true,
            },
            PropertyAssociation {
                index: 1,
                essential: false,
            },
        ]
    );
}

#[test]
fn rejects_duplicate_ipma_and_singleton_property_associations() {
    let mut target = vec![ItemPropertyAssociation {
        item_id: 1,
        associations: vec![PropertyAssociation {
            index: 1,
            essential: false,
        }],
    }];
    let duplicate = merge_ipma(
        &mut target,
        vec![ItemPropertyAssociation {
            item_id: 1,
            associations: vec![PropertyAssociation {
                index: 1,
                essential: true,
            }],
        }],
    )
    .unwrap_err();
    assert!(
        matches!(duplicate, DecoderError::Bitstream(message) if message.contains("duplicate property association"))
    );

    let state = MetaState {
        primary_item_id: Some(1),
        item_infos: vec![ItemInfo {
            item_id: 1,
            item_type: *b"av01",
            item_name: "primary".to_string(),
        }],
        item_locations: vec![ItemLocation {
            item_id: 1,
            base_offset: 0,
            extents: vec![ItemExtent {
                offset: 0,
                length: 1,
            }],
        }],
        item_properties: vec![
            ItemProperty::SpatialExtents(ImageSpatialExtents {
                width: 1,
                height: 1,
            }),
            ItemProperty::SpatialExtents(ImageSpatialExtents {
                width: 2,
                height: 2,
            }),
            ItemProperty::PixelInformation(PixelInformation {
                bits_per_channel: vec![8, 8, 8],
                extended_channels: None,
            }),
            ItemProperty::Av1Config(vec![1]),
        ],
        item_property_associations: vec![ItemPropertyAssociation {
            item_id: 1,
            associations: vec![
                PropertyAssociation {
                    index: 1,
                    essential: false,
                },
                PropertyAssociation {
                    index: 2,
                    essential: false,
                },
                PropertyAssociation {
                    index: 3,
                    essential: false,
                },
                PropertyAssociation {
                    index: 4,
                    essential: false,
                },
            ],
        }],
        ..MetaState::default()
    };
    let duplicate_singleton = validate_primary_item_metadata(&state).unwrap_err();
    assert!(
        matches!(duplicate_singleton, DecoderError::Bitstream(message) if message.contains("duplicate SpatialExtents"))
    );
}

#[test]
fn rejects_zero_ipma_property_index() {
    let associations = parse_ipma(&[
        0, 0, 0, 0, // version and flags
        0, 0, 0, 1, // entry count
        0, 1, // item id
        1, // association count
        0, // reserved/out-of-range property index
    ])
    .unwrap();
    let state = MetaState {
        primary_item_id: Some(1),
        item_infos: vec![ItemInfo {
            item_id: 1,
            item_type: *b"av01",
            item_name: "primary".to_string(),
        }],
        item_locations: vec![ItemLocation {
            item_id: 1,
            base_offset: 0,
            extents: vec![ItemExtent {
                offset: 0,
                length: 1,
            }],
        }],
        item_property_associations: associations,
        ..MetaState::default()
    };
    let error = validate_primary_item_metadata(&state).unwrap_err();
    assert!(
        matches!(error, DecoderError::Bitstream(message) if message.contains("out of range"))
    );
}

#[test]
fn accepts_repeated_identical_avis_sample_descriptions() {
    let descriptions = vec![
        Some(vec![b'a', b'v', b'0', b'1']),
        Some(vec![b'a', b'v', b'0', b'1']),
    ];
    let (offsets, indices) =
        build_sample_offsets_with_descriptions(&[100], &[(1, 2, 2)], &[3, 4], &descriptions)
            .unwrap();
    assert_eq!(offsets, vec![100, 103]);
    assert_eq!(indices, vec![1, 1]);
}

#[test]
fn accepts_differing_avis_sample_descriptions_for_later_validation() {
    let descriptions = vec![
        Some(vec![b'a', b'v', b'0', b'1']),
        Some(vec![b'a', b'v', b'0', b'2']),
    ];
    let (offsets, indices) =
        build_sample_offsets_with_descriptions(&[100], &[(1, 1, 2)], &[3], &descriptions)
            .unwrap();
    assert_eq!(offsets, vec![100]);
    assert_eq!(indices, vec![1]);
}

#[test]
fn differing_avis_description_requires_a_per_sample_sequence_header() {
    let first = *b"av01-description-one";
    let changed = *b"av01-description-two";
    let sequence_header = [0x0a, 0x00];
    validate_sequence_sample_description(&changed, &first, &sequence_header).unwrap();

    let frame_only = [0x32, 0x01, 0x00];
    let error =
        validate_sequence_sample_description(&changed, &first, &frame_only).unwrap_err();
    assert!(matches!(
        error,
        DecoderError::Unsupported(message)
            if message.contains("require a sequence header")
    ));
}
