use avif_decoder::av1::tiles::{parse_tile_group, TileInfo};
use avif_decoder::decoder::tiles::{is_tile_edge, merge_tile_group_payloads, tile_id_at};
use avif_decoder::DecoderError;

fn tile_info() -> TileInfo {
    TileInfo {
        uniform_tile_spacing: true,
        dependent_tiles: false,
        loop_filter_across_tiles: false,
        tile_cols: 2,
        tile_rows: 1,
        tile_cols_log2: 1,
        tile_rows_log2: 0,
        tile_size_bytes: 1,
        context_update_tile_id: 0,
        mi_col_starts: vec![0, 16, 32],
        mi_row_starts: vec![0, 16],
    }
}

#[test]
fn merge_tile_groups_reorders_payloads_by_tile_id() {
    let info = tile_info();
    let first = [0x80, 0xaa];
    let second = [0xe0, 0xbb];
    let (data, group) = merge_tile_group_payloads(&[&second, &first], &info).unwrap();
    assert_eq!(data, vec![0xaa, 0xbb]);
    assert_eq!(group.start_tile, 0);
    assert_eq!(group.end_tile, 1);
    assert_eq!(group.tiles[0].tile_id, 0);
    assert_eq!(group.tiles[0].offset, 0);
    assert_eq!(group.tiles[1].tile_id, 1);
    assert_eq!(group.tiles[1].offset, 1);
}

#[test]
fn merge_tile_groups_rejects_duplicate_tiles() {
    let info = tile_info();
    let first = [0x80, 0xaa];
    let duplicate = [0x80, 0xbb];
    let err = merge_tile_group_payloads(&[&first, &duplicate], &info).unwrap_err();
    assert!(matches!(err, DecoderError::Bitstream(message) if message.contains("multiple tile groups")));
}

#[test]
fn merge_tile_groups_rejects_holes() {
    let info = tile_info();
    let first = [0x80, 0xaa];
    let err = merge_tile_group_payloads(&[&first], &info).unwrap_err();
    assert!(matches!(err, DecoderError::Unsupported(message) if message.contains("partial tile")));
}

#[test]
fn tile_group_without_a_range_holds_every_tile_with_sized_tiles() {
    let info = tile_info();
    let payload = [0x00, 0x01, 0xaa, 0xbb, 0xcc];
    let group = parse_tile_group(&payload, 0, &info).unwrap();
    assert_eq!((group.start_tile, group.end_tile, group.data_start_offset), (0, 1, 1));
    assert_eq!(group.tiles.len(), 2);
    assert_eq!((group.tiles[0].tile_id, group.tiles[0].offset, group.tiles[0].len), (0, 2, 2));
    assert_eq!((group.tiles[1].tile_id, group.tiles[1].offset, group.tiles[1].len), (1, 4, 1));
    let truncated = [0x00, 0x05, 0xaa];
    assert!(matches!(parse_tile_group(&truncated, 0, &info), Err(DecoderError::NotEnoughData(_))));
    let out_of_frame = [0xc0, 0xaa];
    assert!(matches!(parse_tile_group(&out_of_frame, 0, &info), Err(DecoderError::Bitstream(_))));
    assert!(matches!(parse_tile_group(&[], 0, &info), Err(DecoderError::NotEnoughData(_))));
}

#[test]
fn single_tile_group_has_no_header() {
    let info = TileInfo { tile_cols: 1, tile_cols_log2: 0, mi_col_starts: vec![0, 16], ..tile_info() };
    let group = parse_tile_group(&[7, 8, 9], 1, &info).unwrap();
    assert_eq!((group.start_tile, group.end_tile, group.data_start_offset), (0, 0, 1));
    assert_eq!((group.tiles[0].offset, group.tiles[0].len), (1, 2));
    let none = TileInfo { tile_rows: 0, ..tile_info() };
    assert!(matches!(parse_tile_group(&[0], 0, &none), Err(DecoderError::Bitstream(_))));
}

#[test]
fn tile_positions_follow_the_mode_info_starts() {
    let info = tile_info();
    assert_eq!(tile_id_at(&info, 0, 0), 0);
    assert_eq!(tile_id_at(&info, 63, 10), 0);
    assert_eq!(tile_id_at(&info, 64, 10), 1);
    assert_eq!(tile_id_at(&info, 4000, 4000), 1);
    assert!(is_tile_edge(&info, 64, 8, true));
    assert!(!is_tile_edge(&info, 60, 8, true));
    assert!(!is_tile_edge(&info, 64, 8, false));
    assert!(!is_tile_edge(&info, 0, 8, true));
    let single = TileInfo { tile_cols: 1, ..tile_info() };
    assert!(!is_tile_edge(&single, 64, 8, true));
}

#[test]
fn merge_tile_groups_gives_the_same_frame_in_either_order() {
    let info = tile_info();
    let first = [0x80, 0xaa];
    let second = [0xe0, 0xbb];
    let (forward_data, forward_group) = merge_tile_group_payloads(&[&first, &second], &info).unwrap();
    let (backward_data, backward_group) = merge_tile_group_payloads(&[&second, &first], &info).unwrap();
    assert_eq!(forward_data, backward_data);
    assert_eq!(forward_group.tiles.len(), backward_group.tiles.len());
    for i in 0..forward_group.tiles.len() {
        assert_eq!(forward_group.tiles[i].tile_id, backward_group.tiles[i].tile_id);
        assert_eq!(forward_group.tiles[i].offset, backward_group.tiles[i].offset);
        assert_eq!(forward_group.tiles[i].len, backward_group.tiles[i].len);
    }
}
