use rdr2_xbox_save_converter::{
    aes_ecb, manifest_entry, prepare_conversion, sha256_hex, validate_pc_file, validate_rsav,
    verify_xbox_key, build_pc_header, ConvertError, RsavValidation, XboxSlot, jooat,
};

const BLOCK_IDS: [u32; 9] = [
    0x41D6F794, 0x130F999E, 0x2016AB2F, 0xF0565D1D, 0x9466E30C, 0xF80C8931, 0x702A6025, 0x32D99C58,
    0x0C6ADEDD,
];

fn put_le(data: &mut [u8], offset: usize, value: u32) {
    data[offset..offset + 4].copy_from_slice(&value.to_le_bytes());
}

fn put_be(data: &mut [u8], offset: usize, value: u32) {
    data[offset..offset + 4].copy_from_slice(&value.to_be_bytes());
}

/// A CHKS record for the logical range `[offset, offset + size)`, placed in its last 16 bytes.
fn put_record(data: &mut [u8], offset: usize, size: usize) {
    let marker = offset + size - 0x10;
    let data_size = size - 12;
    data[marker..marker + 8].copy_from_slice(b"CHKS\0\0\0\x14");
    put_be(data, marker + 8, data_size as u32);
    let start = marker - data_size + 0x14;
    let end = marker + 0x14;
    let mut region = data[start..end].to_vec();
    let relative = marker - start;
    region[relative + 8..relative + 16].fill(0);
    let checksum = jooat(&region);
    put_be(data, marker + 12, checksum);
}

/// A smallest well-formed RSAV v3 payload: CODE of 0x20 bytes, nine
/// 0x20-byte blocks, ten CHKS records and the ENDS trailer.
fn sample_payload() -> Vec<u8> {
    let mut data = vec![0u8; 0x330];
    data[0..4].copy_from_slice(b"RSAV");
    put_le(&mut data, 4, 3);
    put_le(&mut data, 8, 0xB0);
    put_le(&mut data, 0x0C, 0x20);
    put_le(&mut data, 0x10, 9);
    data[0xB0..0xB4].copy_from_slice(b"CODE");
    for (index, id) in BLOCK_IDS.iter().enumerate() {
        let offset = 0xF0 + index * 0x40;
        let entry = 0x14 + index * 0x10;
        put_le(&mut data, entry, *id);
        put_le(&mut data, entry + 8, offset as u32);
        put_le(&mut data, entry + 12, 0x20);
        data[offset..offset + 4].copy_from_slice(format!("S00{index}").as_bytes());
    }
    data[0x320..0x324].copy_from_slice(b"ENDS");
    put_record(&mut data, 0xB0, 0x20);
    for index in 0..9 {
        put_record(&mut data, 0xF0 + index * 0x40, 0x20);
    }
    data
}

fn fips_key() -> [u8; 32] {
    let mut key = [0u8; 32];
    for (i, byte) in key.iter_mut().enumerate() {
        *byte = i as u8;
    }
    key
}

fn sample_slot(xbox_key: &[u8; 32]) -> XboxSlot {
    let data = aes_ecb(&sample_payload(), xbox_key, true).unwrap();
    XboxSlot {
        xbox_name: "SRDR300014".to_string(),
        pc_name: "SRDR30014".to_string(),
        title: "Chapter 2".to_string(),
        timestamp: 1_600_000_000,
        source_sha256: sha256_hex(&data),
        data,
    }
}

#[test]
fn aes_ecb_matches_the_fips_vector() {
    let plain: Vec<u8> = (0..16).map(|i| (i * 0x11) as u8).collect();
    let cipher = aes_ecb(&plain, &fips_key(), true).unwrap();
    assert_eq!(
        cipher,
        vec![
            0x8e, 0xa2, 0xb7, 0xca, 0x51, 0x67, 0x45, 0xbf, 0xea, 0xfc, 0x49, 0x90, 0x4b, 0x49, 0x60,
            0x89
        ]
    );
    assert_eq!(aes_ecb(&cipher, &fips_key(), false).unwrap(), plain);
    assert_eq!(aes_ecb(&plain[..15], &fips_key(), true), Err(ConvertError::AesUnaligned));
}

#[test]
fn aes_ecb_decryption_then_encryption_gives_the_data_back() {
    let data: Vec<u8> = (0..48).map(|i| (i * 7 + 3) as u8).collect();
    let decrypted = aes_ecb(&data, &fips_key(), false).unwrap();
    assert_eq!(decrypted.len(), data.len());
    assert_ne!(decrypted, data);
    assert_eq!(aes_ecb(&decrypted, &fips_key(), true).unwrap(), data);
    let encrypted = aes_ecb(&data, &fips_key(), true).unwrap();
    assert_eq!(aes_ecb(&encrypted, &fips_key(), false).unwrap(), data);
    assert_eq!(&encrypted[16..32], &aes_ecb(&data[16..32], &fips_key(), true).unwrap()[..]);
}

#[test]
fn sha256_hex_matches_the_known_digest() {
    assert_eq!(
        sha256_hex(b"abc"),
        "ba7816bf8f01cfea414140de5dae2223b00361a396177a9cb410ff61f20015ad"
    );
}

#[test]
fn well_formed_rsav_payload_is_accepted() {
    let payload = sample_payload();
    assert_eq!(
        validate_rsav(&payload),
        Ok(RsavValidation { size: 0x330, block_count: 9, checksum_count: 10 })
    );
}

#[test]
fn rsav_payload_errors_are_reported() {
    let payload = sample_payload();
    assert_eq!(validate_rsav(&payload[..0xF0]), Err(ConvertError::RsavLength));
    let mut bad = payload.clone();
    bad[0] = b'X';
    assert_eq!(validate_rsav(&bad), Err(ConvertError::RsavHeader));
    let mut bad = payload.clone();
    bad[0xB0] = b'X';
    assert_eq!(validate_rsav(&bad), Err(ConvertError::CodeBlockOffset));
    let mut bad = payload.clone();
    put_le(&mut bad, 0x14 + 3 * 0x10, 0);
    assert_eq!(validate_rsav(&bad), Err(ConvertError::BlockEntry { entry: 4 }));
    let mut bad = payload.clone();
    put_le(&mut bad, 0x14 + 2 * 0x10 + 12, 0x18);
    assert_eq!(validate_rsav(&bad), Err(ConvertError::BlockAlignment { entry: 3 }));
    let mut bad = payload.clone();
    put_le(&mut bad, 0x14 + 8, 0x10000);
    assert_eq!(validate_rsav(&bad), Err(ConvertError::BlockRange { entry: 1 }));
    let mut bad = payload.clone();
    bad[0xF0 + 0x40 + 3] = b'7';
    assert_eq!(validate_rsav(&bad), Err(ConvertError::SectionTag { entry: 2 }));
    let mut bad = payload.clone();
    put_le(&mut bad, 0x0C, 0x30);
    assert_eq!(validate_rsav(&bad), Err(ConvertError::CodeLength));
    let mut bad = payload.clone();
    bad[0x212] = 0x55;
    assert!(matches!(validate_rsav(&bad), Err(ConvertError::ChecksumMismatch { record: 6, .. })));
    let mut bad = payload.clone();
    bad[0x218..0x220].copy_from_slice(b"CHKS\0\0\0\x14");
    assert_eq!(validate_rsav(&bad), Err(ConvertError::ChecksumCount { found: 11 }));
    let mut bad = payload.clone();
    bad[0x32F] = 1;
    assert_eq!(validate_rsav(&bad), Err(ConvertError::RsavEnding));
}

#[test]
fn rsav_blocks_must_be_contiguous() {
    let mut payload = sample_payload();
    // Move block 5 back by 0x10 bytes, keeping its tag at its new offset.
    let entry = 0x14 + 4 * 0x10;
    let offset = 0xF0 + 4 * 0x40;
    put_le(&mut payload, entry + 8, (offset + 0x10) as u32);
    payload[offset + 0x10..offset + 0x14].copy_from_slice(b"S004");
    assert_eq!(validate_rsav(&payload), Err(ConvertError::BlocksNotContiguous { first: 4 }));
}

#[test]
fn pc_file_round_trips_and_validates() {
    let key = [7u8; 32];
    let payload = sample_payload();
    let mut pc_file = build_pc_header("Save", 42).unwrap();
    pc_file.extend_from_slice(&aes_ecb(&payload, &key, true).unwrap());
    assert_eq!(
        validate_pc_file(&pc_file, &key),
        Ok(RsavValidation { size: 0x330, block_count: 9, checksum_count: 10 })
    );
    let mut bad = pc_file.clone();
    bad[0x105] ^= 1;
    assert_eq!(validate_pc_file(&bad, &key), Err(ConvertError::PcHeaderChecksum));
    let mut bad = pc_file.clone();
    bad[3] = 5;
    assert_eq!(validate_pc_file(&bad, &key), Err(ConvertError::PcHeaderVersion));
    assert_eq!(validate_pc_file(&pc_file[..0x115], &key), Err(ConvertError::PcLength));
    assert_eq!(validate_pc_file(&pc_file, &[8u8; 32]), Err(ConvertError::RsavHeader));
}

#[test]
fn xbox_key_is_checked_against_every_slot() {
    let key = fips_key();
    let slots = vec![sample_slot(&key)];
    assert_eq!(verify_xbox_key(&key, &slots), Ok(()));
    assert_eq!(
        verify_xbox_key(&[9u8; 32], &slots),
        Err(ConvertError::XboxKeyMismatch { slot: "SRDR300014".to_string() })
    );
}

#[test]
fn conversion_keeps_the_payload_and_records_the_manifest() {
    let xbox_key = fips_key();
    let pc_key = [0x42u8; 32];
    let slots = vec![sample_slot(&xbox_key)];
    let prepared = prepare_conversion(&xbox_key, &pc_key, &slots).unwrap();
    assert_eq!(prepared.len(), 1);
    let save = &prepared[0];
    assert_eq!(save.pc_file.len(), 0x110 + 0x330);
    assert_eq!(&save.pc_file[..0x110], &build_pc_header("Chapter 2", 1_600_000_000).unwrap()[..]);
    assert_eq!(aes_ecb(&save.pc_file[0x110..], &pc_key, false).unwrap(), sample_payload());
    assert_eq!(save.validation, RsavValidation { size: 0x330, block_count: 9, checksum_count: 10 });
    let entry = manifest_entry(save);
    assert_eq!(entry.source_slot, "SRDR300014");
    assert_eq!(entry.pc_file, "SRDR30014");
    assert_eq!(entry.title, "Chapter 2");
    assert_eq!(entry.timestamp, 1_600_000_000);
    assert_eq!(entry.pc_size, 0x440);
    assert_eq!(entry.rsav_checksums, 10);
    assert_eq!(entry.pc_sha256, sha256_hex(&save.pc_file));
    assert_eq!(entry.source_sha256, slots[0].source_sha256);
}

#[test]
fn conversion_refuses_a_corrupt_payload() {
    let xbox_key = fips_key();
    let mut payload = sample_payload();
    payload[0x212] = 0x55;
    let data = aes_ecb(&payload, &xbox_key, true).unwrap();
    let slot = XboxSlot {
        xbox_name: "SRDR30001".to_string(),
        pc_name: "SRDR30001".to_string(),
        title: String::new(),
        timestamp: 0,
        source_sha256: sha256_hex(&data),
        data,
    };
    assert!(matches!(
        prepare_conversion(&xbox_key, &[1u8; 32], &vec![slot]),
        Err(ConvertError::ChecksumMismatch { record: 6, .. })
    ));
}
