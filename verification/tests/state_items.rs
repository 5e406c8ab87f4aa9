//! Gain-map and sample-transform items read from gathered metadata.
use avif_decoder::container::gain_map::{gain_map_image_from_state, parse_item_gain_map_metadata};
use avif_decoder::container::items::{ItemExtent, ItemInfo, ItemLocation, ItemReference, MetaState};
use avif_decoder::container::sample_transform::sample_transform_from_state;
use avif_decoder::DecoderError;

fn info(item_id: u32, item_type: &[u8; 4]) -> ItemInfo {
    ItemInfo { item_id, item_type: *item_type, item_name: String::new() }
}

fn dimg(from_item_id: u32, to_item_ids: Vec<u32>) -> ItemReference {
    ItemReference { reference_type: *b"dimg", from_item_id, to_item_ids }
}

fn located(item_id: u32, offset: u64, length: u64) -> ItemLocation {
    ItemLocation { item_id, base_offset: 0, extents: vec![ItemExtent { offset, length }] }
}

#[test]
fn item_descriptor_with_short_supported_version_is_bitstream() {
    let state = MetaState { item_locations: vec![located(7, 0, 4)], ..MetaState::default() };
    let error = parse_item_gain_map_metadata(&[0, 0, 0, 0], &state, 7).unwrap_err();
    assert!(matches!(error, DecoderError::Bitstream(_)));
}

#[test]
fn item_descriptor_with_unknown_version_is_unsupported() {
    let state = MetaState { item_locations: vec![located(7, 0, 4)], ..MetaState::default() };
    let error = parse_item_gain_map_metadata(&[0, 1, 0, 0], &state, 7).unwrap_err();
    assert!(matches!(error, DecoderError::Unsupported(_)));
}

#[test]
fn item_descriptor_reads_the_item_bytes_not_the_file_start() {
    // The item's four bytes start at offset 2: [0, 0, 0, 0] after a [9, 9] prefix.
    let state = MetaState { item_locations: vec![located(7, 2, 4)], ..MetaState::default() };
    let error = parse_item_gain_map_metadata(&[9, 9, 0, 0, 0, 0], &state, 7).unwrap_err();
    assert!(matches!(error, DecoderError::Bitstream(_)));
}

#[test]
fn item_descriptor_of_unlocated_item_is_bitstream() {
    let error = parse_item_gain_map_metadata(&[0, 0, 0, 0], &MetaState::default(), 7).unwrap_err();
    assert!(matches!(error, DecoderError::Bitstream(_)));
}

#[test]
fn gain_map_image_without_dimg_reference_is_bitstream() {
    let state = MetaState { item_infos: vec![info(1, b"tmap")], ..MetaState::default() };
    let error = gain_map_image_from_state(&[], &state, 1).unwrap_err();
    assert!(matches!(error, DecoderError::Bitstream(message) if message.contains("dimg input references")));
}

#[test]
fn gain_map_image_needs_exactly_two_inputs() {
    let state = MetaState {
        item_infos: vec![info(1, b"tmap"), info(2, b"av01"), info(3, b"av01"), info(4, b"av01")],
        item_references: vec![dimg(1, vec![2, 3, 4])],
        ..MetaState::default()
    };
    let error = gain_map_image_from_state(&[], &state, 1).unwrap_err();
    assert!(matches!(error, DecoderError::Bitstream(message) if message.contains("one base image and one gain map")));
}

#[test]
fn gain_map_image_uses_the_first_dimg_reference() {
    // The first reference names three inputs, so the valid second one is never used.
    let state = MetaState {
        item_infos: vec![info(1, b"tmap"), info(2, b"av01"), info(3, b"av01")],
        item_references: vec![dimg(1, vec![2, 3, 3]), dimg(1, vec![2, 3])],
        ..MetaState::default()
    };
    let error = gain_map_image_from_state(&[], &state, 1).unwrap_err();
    assert!(matches!(error, DecoderError::Bitstream(_)));
}

#[test]
fn gain_map_image_input_without_item_info_is_bitstream() {
    let state = MetaState {
        item_infos: vec![info(1, b"tmap"), info(2, b"av01")],
        item_references: vec![dimg(1, vec![2, 3])],
        ..MetaState::default()
    };
    let error = gain_map_image_from_state(&[], &state, 1).unwrap_err();
    assert!(matches!(error, DecoderError::Bitstream(message) if message == "tmap gain map item 3 is missing item info"));
}

#[test]
fn gain_map_image_input_of_other_type_is_unsupported() {
    let state = MetaState {
        item_infos: vec![info(1, b"tmap"), info(2, b"av01"), info(3, b"grid")],
        item_references: vec![dimg(1, vec![2, 3])],
        ..MetaState::default()
    };
    let error = gain_map_image_from_state(&[], &state, 1).unwrap_err();
    assert!(matches!(error, DecoderError::Unsupported(message) if message.contains("has unsupported type")));
}

#[test]
fn sample_transform_without_primary_item_is_none() {
    let state = MetaState { item_infos: vec![info(1, b"sato")], ..MetaState::default() };
    assert!(matches!(sample_transform_from_state(&[], &state), Ok(None)));
}

#[test]
fn sample_transform_without_sato_candidate_is_none() {
    let state = MetaState {
        primary_item_id: Some(1),
        item_infos: vec![info(1, b"av01"), info(5, b"sato")],
        item_references: vec![dimg(5, vec![2])],
        ..MetaState::default()
    };
    assert!(matches!(sample_transform_from_state(&[], &state), Ok(None)));
}

#[test]
fn sato_primary_item_without_inputs_is_bitstream() {
    let state = MetaState {
        primary_item_id: Some(1),
        item_infos: vec![info(1, b"sato")],
        ..MetaState::default()
    };
    let error = sample_transform_from_state(&[], &state).unwrap_err();
    assert!(matches!(error, DecoderError::Bitstream(message) if message.contains("missing dimg input references")));
}

#[test]
fn sato_primary_item_with_empty_input_list_is_bitstream() {
    let state = MetaState {
        primary_item_id: Some(1),
        item_infos: vec![info(1, b"sato")],
        item_references: vec![dimg(1, vec![])],
        ..MetaState::default()
    };
    let error = sample_transform_from_state(&[], &state).unwrap_err();
    assert!(matches!(error, DecoderError::Bitstream(message) if message.contains("empty")));
}

#[test]
fn sato_whose_first_inputs_leave_out_the_primary_item_is_unsupported() {
    let state = MetaState {
        primary_item_id: Some(1),
        item_infos: vec![info(1, b"av01"), info(5, b"sato")],
        item_references: vec![dimg(5, vec![9]), dimg(5, vec![1])],
        ..MetaState::default()
    };
    let error = sample_transform_from_state(&[], &state).unwrap_err();
    assert!(matches!(error, DecoderError::Unsupported(message) if message.contains("do not reference the primary item")));
}
