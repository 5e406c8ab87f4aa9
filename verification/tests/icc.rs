use avif_decoder::icc::{parse_icc_tag_table, read_icc_curve, read_icc_xyz, required_icc_tag, IccCurve};
use avif_decoder::DecoderError;

fn unsupported_message(error: DecoderError) -> String {
    match error {
        DecoderError::Unsupported(message) => message,
        other => panic!("expected an unsupported error, got {other:?}"),
    }
}

fn header(declared: u32, tag_count: u32) -> Vec<u8> {
    let mut profile = vec![0u8; 132];
    profile[0..4].copy_from_slice(&declared.to_be_bytes());
    profile[12..16].copy_from_slice(b"mntr");
    profile[16..20].copy_from_slice(b"RGB ");
    profile[20..24].copy_from_slice(b"XYZ ");
    profile[128..132].copy_from_slice(&tag_count.to_be_bytes());
    profile
}

fn push_entry(profile: &mut Vec<u8>, signature: &[u8; 4], offset: u32, size: u32) {
    profile.extend_from_slice(signature);
    profile.extend_from_slice(&offset.to_be_bytes());
    profile.extend_from_slice(&size.to_be_bytes());
}

#[test]
fn curve_lookup_table_rejects_truncated_payload() {
    let mut profile = vec![0; 16];
    profile[0..4].copy_from_slice(b"curv");
    profile[8..12].copy_from_slice(&3u32.to_be_bytes());
    profile[12..14].copy_from_slice(&0u16.to_be_bytes());
    let error = read_icc_curve(&profile, (0, profile.len())).unwrap_err();

    assert!(matches!(error, DecoderError::Unsupported(message) if message.contains("truncated")));
}

#[test]
fn parametric_curve_rejects_zero_division_coefficient() {
    let mut profile = vec![0; 24];
    profile[0..4].copy_from_slice(b"para");
    profile[8..10].copy_from_slice(&1u16.to_be_bytes());
    profile[12..16].copy_from_slice(&2i32.to_be_bytes());
    let error = read_icc_curve(&profile, (0, profile.len())).unwrap_err();

    assert!(matches!(error, DecoderError::Unsupported(message) if message.contains("zero division")));
}

#[test]
fn icc_tag_table_reads_known_tags_and_keeps_the_last_duplicate() {
    let mut profile = header(0, 3);
    push_entry(&mut profile, b"wtpt", 168, 20);
    push_entry(&mut profile, b"desc", 168, 8);
    push_entry(&mut profile, b"wtpt", 188, 20);
    profile.resize(208, 0);
    let declared = profile.len() as u32;
    profile[0..4].copy_from_slice(&declared.to_be_bytes());

    let table = parse_icc_tag_table(&profile).unwrap();
    assert_eq!(table.declared_size, 208);
    assert_eq!(table.tags[0], Some((188, 20)));
    assert_eq!(&table.tags[1..], &[None; 6]);
}

#[test]
fn icc_tag_table_rejects_bad_headers_in_order() {
    assert_eq!(
        unsupported_message(parse_icc_tag_table(&[0u8; 100]).unwrap_err()),
        "ICC matrix-shaper profile: ICC profile header is truncated"
    );
    assert_eq!(
        unsupported_message(parse_icc_tag_table(&header(500, 0)).unwrap_err()),
        "ICC matrix-shaper profile: ICC profile size is invalid"
    );
    let mut printer = header(132, 0);
    printer[12..16].copy_from_slice(b"scnr");
    assert_eq!(
        unsupported_message(parse_icc_tag_table(&printer).unwrap_err()),
        "ICC matrix-shaper profile: ICC profile device class is not supported"
    );
    let mut gray = header(132, 0);
    gray[16..20].copy_from_slice(b"GRAY");
    assert_eq!(
        unsupported_message(parse_icc_tag_table(&gray).unwrap_err()),
        "ICC matrix-shaper profile: ICC profile colour space is not RGB/XYZ"
    );
    assert_eq!(
        unsupported_message(parse_icc_tag_table(&header(132, 1)).unwrap_err()),
        "ICC matrix-shaper profile: ICC profile tag table is truncated"
    );
    let mut outside = header(0, 1);
    push_entry(&mut outside, b"rXYZ", 100, 20);
    let declared = outside.len() as u32;
    outside[0..4].copy_from_slice(&declared.to_be_bytes());
    assert_eq!(
        unsupported_message(parse_icc_tag_table(&outside).unwrap_err()),
        "ICC matrix-shaper profile: ICC profile tag is outside the profile"
    );
}

#[test]
fn icc_xyz_tag_reads_signed_fixed_point_values() {
    let mut tag = b"XYZ \0\0\0\0".to_vec();
    tag.extend_from_slice(&0x0000_F6D6u32.to_be_bytes());
    tag.extend_from_slice(&0x0001_0000u32.to_be_bytes());
    tag.extend_from_slice(&(-65536i32).to_be_bytes());
    assert_eq!(read_icc_xyz(&tag, (0, 20)).unwrap(), [0xF6D6, 0x1_0000, -65536]);
    assert_eq!(
        unsupported_message(read_icc_xyz(&tag, (0, 19)).unwrap_err()),
        "ICC matrix-shaper profile: ICC XYZ tag is invalid"
    );
}

#[test]
fn icc_curves_read_each_form() {
    let mut identity = b"curv\0\0\0\0".to_vec();
    identity.extend_from_slice(&0u32.to_be_bytes());
    assert_eq!(read_icc_curve(&identity, (0, 12)).unwrap(), IccCurve::Identity);

    let mut gamma = b"curv\0\0\0\0".to_vec();
    gamma.extend_from_slice(&1u32.to_be_bytes());
    gamma.extend_from_slice(&0x0233u16.to_be_bytes());
    assert_eq!(read_icc_curve(&gamma, (0, 14)).unwrap(), IccCurve::Gamma(0x0233));

    let mut table = b"curv\0\0\0\0".to_vec();
    table.extend_from_slice(&3u32.to_be_bytes());
    for sample in [0u16, 16_384, 65_535] {
        table.extend_from_slice(&sample.to_be_bytes());
    }
    assert_eq!(read_icc_curve(&table, (0, 18)).unwrap(), IccCurve::Table(vec![0, 16_384, 65_535]));

    let mut para = b"para\0\0\0\0".to_vec();
    para.extend_from_slice(&3u16.to_be_bytes());
    para.extend_from_slice(&[0, 0]);
    for value in [0x0002_6666i32, 0x0000_F2A7, 0x0000_0D59, 0x0000_13D0, 0x0000_0A5B] {
        para.extend_from_slice(&value.to_be_bytes());
    }
    assert_eq!(
        read_icc_curve(&para, (0, 32)).unwrap(),
        IccCurve::Parametric {
            function: 3,
            parameters: [0x0002_6666, 0x0000_F2A7, 0x0000_0D59, 0x0000_13D0, 0x0000_0A5B, 0, 0],
        }
    );

    let mut unknown = b"para\0\0\0\0".to_vec();
    unknown.extend_from_slice(&9u16.to_be_bytes());
    unknown.extend_from_slice(&[0, 0]);
    assert_eq!(
        unsupported_message(read_icc_curve(&unknown, (0, 12)).unwrap_err()),
        "ICC matrix-shaper profile: ICC parametric tone curve function 9 is not supported"
    );
    assert_eq!(
        unsupported_message(read_icc_curve(&b"mft2\0\0\0\0\0\0\0\0".to_vec(), (0, 12)).unwrap_err()),
        "ICC matrix-shaper profile: ICC tone curve is not a supported curv/para tag"
    );
}

#[test]
fn icc_missing_tag_is_named() {
    assert_eq!(required_icc_tag(Some((140, 20)), "rXYZ").unwrap(), (140, 20));
    assert_eq!(
        unsupported_message(required_icc_tag(None, "gTRC").unwrap_err()),
        "ICC matrix-shaper profile: ICC profile tag gTRC is missing"
    );
}
