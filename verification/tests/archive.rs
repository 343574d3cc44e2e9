use rdr2_xbox_save_converter::{
    sha256_hex, ArchiveScan, ConvertError, SaveFile, SlotMember, ZipEntryInfo,
};

fn info(name: &str, size: u64) -> ZipEntryInfo {
    ZipEntryInfo { name: name.to_string(), size, is_dir: false, unix_mode: None }
}

fn xbox_header(data_len: u32, timestamp: u32, title: &str) -> Vec<u8> {
    let mut header = vec![0u8; 0x118];
    header[0..4].copy_from_slice(&5u32.to_le_bytes());
    header[4..8].copy_from_slice(&data_len.to_le_bytes());
    header[0x10..0x14].copy_from_slice(&timestamp.to_le_bytes());
    let mut at = 0x18;
    for unit in title.encode_utf16() {
        header[at..at + 2].copy_from_slice(&unit.to_le_bytes());
        at += 2;
    }
    header
}

fn add(scan: &mut ArchiveScan, name: &str, bytes: Vec<u8>) {
    let member = scan.admit_entry(&info(name, bytes.len() as u64)).unwrap().unwrap();
    scan.store_member(member, bytes).unwrap();
}

#[test]
fn archive_slots_are_collected_and_sorted() {
    let mut scan = ArchiveScan::new();
    let data14 = vec![0xAAu8; 32];
    let data13 = vec![0xBBu8; 16];
    add(&mut scan, "root/SRDR300014/Save Game Data", data14.clone());
    add(&mut scan, "root/SRDR300014/Save Game Header", xbox_header(32, 7, "Fourteen"));
    add(&mut scan, "root/SRDR30013/Save Game Header", xbox_header(16, 9, "Thirteen"));
    add(&mut scan, "root/SRDR30013/Save Game Data", data13.clone());
    assert!(scan.admit_entry(&info("readme.txt", 3)).unwrap().is_none());
    assert!(scan.admit_entry(&info("root/SRDR30013/Other", 3)).unwrap().is_none());
    assert!(scan.admit_entry(&info("root/notes/Save Game Data", 3)).unwrap().is_none());
    let directory = ZipEntryInfo { name: "root/SRDR30013/".to_string(), size: 0, is_dir: true, unix_mode: None };
    assert!(scan.admit_entry(&directory).unwrap().is_none());
    let slots = scan.into_slots().unwrap();
    assert_eq!(slots.len(), 2);
    assert_eq!(slots[0].xbox_name, "SRDR30013");
    assert_eq!(slots[0].pc_name, "SRDR30013");
    assert_eq!(slots[0].title, "Thirteen");
    assert_eq!(slots[0].timestamp, 9);
    assert_eq!(slots[0].data, data13);
    assert_eq!(slots[0].source_sha256, sha256_hex(&data13));
    assert_eq!(slots[1].xbox_name, "SRDR300014");
    assert_eq!(slots[1].pc_name, "SRDR30014");
    assert_eq!(slots[1].title, "Fourteen");
    assert_eq!(slots[1].timestamp, 7);
}

#[test]
fn archive_members_are_screened() {
    let mut scan = ArchiveScan::new();
    assert!(scan.admit_entry(&info("a/b", 1)).unwrap().is_none());
    assert_eq!(
        scan.admit_entry(&info("a/b", 1)).err(),
        Some(ConvertError::DuplicateMember { name: "a/b".to_string() })
    );
    assert_eq!(
        scan.admit_entry(&info("../x/y", 1)).err(),
        Some(ConvertError::UnsafeZipPath { name: "../x/y".to_string() })
    );
    let link = ZipEntryInfo {
        name: "x/SRDR30000/Save Game Data".to_string(),
        size: 1,
        is_dir: false,
        unix_mode: Some(0o120777),
    };
    assert_eq!(
        scan.admit_entry(&link).err(),
        Some(ConvertError::SymbolicLink { name: "x/SRDR30000/Save Game Data".to_string() })
    );
    let regular = ZipEntryInfo {
        name: "x/SRDR30001/Save Game Data".to_string(),
        size: 1,
        is_dir: false,
        unix_mode: Some(0o100644),
    };
    let member = scan.admit_entry(&regular).unwrap().unwrap();
    assert_eq!(member.folder, "SRDR30001");
    assert_eq!(member.file, SaveFile::Data);
    assert_eq!(
        scan.admit_entry(&info("huge", 0x1000_0000)).err(),
        Some(ConvertError::ArchiveTooLarge)
    );
}

#[test]
fn repeated_slot_files_are_refused() {
    let mut scan = ArchiveScan::new();
    let first = SlotMember { folder: "SRDR30002".to_string(), file: SaveFile::Header };
    scan.store_member(first, vec![1]).unwrap();
    let second = SlotMember { folder: "SRDR30002".to_string(), file: SaveFile::Header };
    assert_eq!(
        scan.store_member(second, vec![2]),
        Err(ConvertError::DuplicateSlotMember {
            folder: "SRDR30002".to_string(),
            leaf: "Save Game Header".to_string()
        })
    );
}

#[test]
fn slot_assembly_errors_are_reported() {
    assert_eq!(ArchiveScan::new().into_slots().err(), Some(ConvertError::NoSaveAtoms));

    let mut scan = ArchiveScan::new();
    add(&mut scan, "SRDR30001/Save Game Data", vec![0u8; 16]);
    assert_eq!(
        scan.into_slots().err(),
        Some(ConvertError::MissingHeader { folder: "SRDR30001".to_string() })
    );

    let mut scan = ArchiveScan::new();
    add(&mut scan, "SRDR30001/Save Game Header", xbox_header(16, 0, ""));
    assert_eq!(
        scan.into_slots().err(),
        Some(ConvertError::MissingData { folder: "SRDR30001".to_string() })
    );

    let mut scan = ArchiveScan::new();
    add(&mut scan, "SRDR30001/Save Game Data", vec![0u8; 16]);
    add(&mut scan, "SRDR30001/Save Game Header", vec![0u8; 0x117]);
    assert_eq!(
        scan.into_slots().err(),
        Some(ConvertError::HeaderSize { folder: "SRDR30001".to_string() })
    );

    let mut scan = ArchiveScan::new();
    add(&mut scan, "SRDR30001/Save Game Data", vec![0u8; 16]);
    add(&mut scan, "SRDR30001/Save Game Header", xbox_header(32, 0, ""));
    assert_eq!(
        scan.into_slots().err(),
        Some(ConvertError::LengthMismatch { folder: "SRDR30001".to_string() })
    );

    let mut scan = ArchiveScan::new();
    add(&mut scan, "SRDR30001/Save Game Data", vec![0u8; 15]);
    add(&mut scan, "SRDR30001/Save Game Header", xbox_header(15, 0, ""));
    assert_eq!(
        scan.into_slots().err(),
        Some(ConvertError::NotBlockAligned { folder: "SRDR30001".to_string() })
    );

    let mut scan = ArchiveScan::new();
    add(&mut scan, "SRDR3000123/Save Game Data", vec![0u8; 16]);
    add(&mut scan, "SRDR3000123/Save Game Header", xbox_header(16, 0, ""));
    assert_eq!(
        scan.into_slots().err(),
        Some(ConvertError::SlotName { name: "SRDR3000123".to_string() })
    );

    let mut scan = ArchiveScan::new();
    add(&mut scan, "SRDR30014/Save Game Data", vec![0u8; 16]);
    add(&mut scan, "SRDR30014/Save Game Header", xbox_header(16, 0, ""));
    add(&mut scan, "SRDR300014/Save Game Data", vec![0u8; 16]);
    add(&mut scan, "SRDR300014/Save Game Header", xbox_header(16, 0, ""));
    assert_eq!(scan.into_slots().err(), Some(ConvertError::DuplicatePcName));
}
