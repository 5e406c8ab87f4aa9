use avif_decoder::av1::syntax::{TxSize, TxType};
use avif_decoder::container::items::{parse_iloc, PropertyKind};
use avif_decoder::text::{bytes4_debug, hex_digit, hex_padded};

#[test]
fn hex_digits_are_lowercase() {
    assert_eq!(hex_digit(9), "9");
    assert_eq!(hex_digit(10), "a");
    assert_eq!(hex_digit(15), "f");
}

#[test]
fn hex_text_is_padded_to_the_width() {
    assert_eq!(hex_padded(0x1f, 4), "001f");
    assert_eq!(hex_padded(0xdead_beef, 2), "deadbeef");
    assert_eq!(hex_padded(0, 0), "0");
    assert_eq!(hex_padded(0, 3), "000");
}

#[test]
fn four_bytes_render_as_an_array() {
    assert_eq!(bytes4_debug(&[1, 2, 3, 255]), "[1, 2, 3, 255]");
}

#[test]
fn variant_names_match_debug_output() {
    assert_eq!(TxSize::Tx16x64.debug_name(), format!("{:?}", TxSize::Tx16x64));
    assert_eq!(TxType::HorizontalDct.debug_name(), format!("{:?}", TxType::HorizontalDct));
    assert_eq!(PropertyKind::LayerIndexing.debug_name(), "LayerIndexing");
}

#[test]
fn iloc_version_one_reads_methods_and_extents() {
    // version 1, offset/length sizes 4, base offset 0, index size 0, one item
    let payload = [
        1, 0, 0, 0, 0x44, 0x00, 0, 1, // header, item count 1
        0, 7, 0, 1, 0, 0, 0, 1, // item 7, method 1, data reference 0, one extent
        0, 0, 0, 5, 0, 0, 0, 9, // offset 5, length 9
    ];
    let locations = parse_iloc(&payload).unwrap();
    assert_eq!(locations.len(), 1);
    assert_eq!(locations[0].item_id, 7);
    assert_eq!(locations[0].extents[0].offset, 5);
    assert_eq!(locations[0].extents[0].length, 9);
    let truncated = &payload[..payload.len() - 1];
    assert!(parse_iloc(truncated).is_err());
}
