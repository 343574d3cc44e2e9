use rdr2_xbox_save_converter::{build_pc_header, parse_key, pc_header_checksum, pc_name, read_u32_be};

#[test]
fn slot_names_are_mapped_without_guessing() {
    assert_eq!(pc_name("SRDR30000").unwrap(), "SRDR30000");
    assert_eq!(pc_name("SRDR300014").unwrap(), "SRDR30014");
    assert_eq!(pc_name("SRDR300015").unwrap(), "SRDR30015");
    assert!(pc_name("SRDR300016").is_err());
}

#[test]
fn blank_or_short_keys_are_rejected() {
    assert!(parse_key("test", "").is_err());
    assert!(parse_key("test", "0011").is_err());
    assert!(parse_key("test", &"00".repeat(32)).is_ok());
}

#[test]
fn pc_header_is_self_consistent() {
    let header = build_pc_header("Test save", 1_700_000_000).unwrap();
    let expected = read_u32_be(&header, 0x10C).unwrap();
    let mut scratch = header;
    scratch[0x10C..0x110].fill(0);
    assert_eq!(pc_header_checksum(&scratch).unwrap(), expected);
}
