use rdr2_xbox_save_converter::{
    build_pc_header, decode_utf16le_field, encode_utf16le_field, jooat, marker_offsets,
    parse_key, pc_header_checksum, pc_name, read_u32_be, read_u32_le, safe_zip_parts,
    swap_each_u32, ConvertError, KeyConfig,
};

fn chars(text: &str) -> Vec<char> {
    text.chars().collect()
}

#[test]
fn words_are_read_in_both_byte_orders() {
    let data = [0x01u8, 0x02, 0x03, 0x04, 0x05];
    assert_eq!(read_u32_le(&data, 0).unwrap(), 0x0403_0201);
    assert_eq!(read_u32_be(&data, 0).unwrap(), 0x0102_0304);
    assert_eq!(read_u32_le(&data, 1).unwrap(), 0x0504_0302);
    assert_eq!(read_u32_le(&data, 2), Err(ConvertError::UnexpectedEnd));
    assert_eq!(read_u32_be(&data, 9), Err(ConvertError::UnexpectedEnd));
}

#[test]
fn words_are_swapped_and_swapping_twice_restores() {
    let data = [1u8, 2, 3, 4, 5, 6, 7, 8];
    let once = swap_each_u32(&data).unwrap();
    assert_eq!(once, vec![4, 3, 2, 1, 8, 7, 6, 5]);
    assert_eq!(swap_each_u32(&once).unwrap(), data.to_vec());
    assert_eq!(swap_each_u32(&data[..3]), Err(ConvertError::WordUnaligned));
}

#[test]
fn chks_checksum_has_known_values() {
    assert_eq!(jooat(b"RSAV"), 0x7bee_4674);
    assert_eq!(jooat(&[0x80, 0xff, 0x01]), 0x0369_22c2);
    assert_eq!(jooat(&[]), 0x6ae1_5bb2);
}

#[test]
fn pc_header_has_known_layout_and_checksum() {
    let header = build_pc_header("Test save", 1_700_000_000).unwrap();
    assert_eq!(header.len(), 0x110);
    assert_eq!(&header[0..4], &[0, 0, 0, 4]);
    assert_eq!(&header[4..8], &[b'T', 0, b'e', 0]);
    assert_eq!(read_u32_be(&header, 0x104).unwrap(), 1_700_000_000);
    assert_eq!(&header[0x108..0x10C], &[0, 0, 0, 0]);
    assert_eq!(read_u32_be(&header, 0x10C).unwrap(), 0xd14b_ae79);
    assert_eq!(pc_header_checksum(&header[..0x10F]), Err(ConvertError::PcHeaderLength));
}

#[test]
fn utf16_fields_round_trip_and_truncate() {
    let field = encode_utf16le_field("Día 1 🐎", 0x100);
    assert_eq!(field.len(), 0x100);
    assert_eq!(decode_utf16le_field(&field).unwrap(), "Día 1 🐎");
    let long: String = "x".repeat(300);
    let field = encode_utf16le_field(&long, 0x100);
    assert_eq!(field.len(), 0x100);
    assert_eq!(&field[0xFC..], &[b'x', 0, 0, 0]);
    assert_eq!(decode_utf16le_field(&field).unwrap(), "x".repeat(127));
    assert_eq!(encode_utf16le_field("ab", 1), vec![0]);
}

#[test]
fn utf16_fields_are_checked() {
    assert_eq!(decode_utf16le_field(&[0x41, 0]).unwrap(), "A");
    assert_eq!(decode_utf16le_field(&[0x41, 0, 0]), Err(ConvertError::Utf16OddLength));
    assert_eq!(decode_utf16le_field(&[0x00, 0xD8, 0x41, 0]), Err(ConvertError::InvalidUtf16Title));
    assert_eq!(decode_utf16le_field(&[0x41, 0, 0, 0, 0x00, 0xD8]).unwrap(), "A");
}

#[test]
fn keys_are_cleaned_and_decoded() {
    let text = format!("  0x{} \n", "0A 1b".repeat(1) + &"ff".repeat(30));
    let key = parse_key("k", &text).unwrap();
    assert_eq!(key[0], 0x0A);
    assert_eq!(key[1], 0x1B);
    assert_eq!(key[31], 0xFF);
    assert_eq!(
        parse_key("k", &"zz".repeat(32)),
        Err(ConvertError::KeyNotHex { label: "k".to_string() })
    );
    assert_eq!(
        parse_key("k", &"0".repeat(63)),
        Err(ConvertError::KeyLength { label: "k".to_string() })
    );
    assert_eq!(
        parse_key("k", &format!("{}é", "0".repeat(62))),
        Err(ConvertError::KeyNotHex { label: "k".to_string() })
    );
    assert_eq!(
        parse_key("k", &format!("\u{3000}{}\u{3000}", "1".repeat(64))).unwrap(),
        [0x11u8; 32]
    );
}

#[test]
fn key_config_reports_the_failing_key() {
    let config = KeyConfig { xbox_save_key: "00".repeat(32), pc_save_key: "12".to_string() };
    assert_eq!(
        config.keys(),
        Err(ConvertError::KeyLength { label: "pc_save_key".to_string() })
    );
    let config = KeyConfig { xbox_save_key: "01".repeat(32), pc_save_key: "02".repeat(32) };
    let (xbox, pc) = config.keys().unwrap();
    assert_eq!(xbox, [1u8; 32]);
    assert_eq!(pc, [2u8; 32]);
}

#[test]
fn pc_names_are_mapped_exactly() {
    assert_eq!(pc_name("SRDR31234").unwrap(), "SRDR31234");
    assert_eq!(
        pc_name("SRDR3123"),
        Err(ConvertError::SlotName { name: "SRDR3123".to_string() })
    );
    assert!(pc_name("SRDR3123a").is_err());
    assert!(pc_name("srdr30000").is_err());
}

#[test]
fn zip_paths_are_split_and_checked() {
    assert_eq!(
        safe_zip_parts("a//SRDR30000/Save Game Data").unwrap(),
        vec![chars("a"), chars("SRDR30000"), chars("Save Game Data")]
    );
    assert_eq!(safe_zip_parts("").unwrap(), Vec::<Vec<char>>::new());
    for bad in ["/etc/passwd", "a\\b", "a/../b", "./a", "C:/x", "a\0b"] {
        assert_eq!(
            safe_zip_parts(bad),
            Err(ConvertError::UnsafeZipPath { name: bad.to_string() })
        );
    }
    assert!(safe_zip_parts("a/C:/x").is_ok());
}

#[test]
fn chks_markers_are_found_overlapping() {
    let mut data = vec![0u8; 4];
    data.extend_from_slice(b"CHKS\0\0\0\x14");
    data.extend_from_slice(b"CHKS\0\0\0\x14");
    assert_eq!(marker_offsets(&data), vec![4, 12]);
    assert_eq!(marker_offsets(b"CHKS"), Vec::<usize>::new());
}
