use std::cmp::Ordering;

use chrono::DateTime;

use cvvc::index::errors::{InvalidIndexEntryKind, InvalidIndexKind};
use cvvc::index::{Index, IndexEntry, IndexEntryPermissions, IndexEntryType};
use cvvc::moments::{now, Timestamp};

fn utc(text: &str) -> Timestamp {
    let d = DateTime::parse_from_rfc3339(text).unwrap();
    Timestamp::utc(d.timestamp(), d.timestamp_subsec_nanos()).unwrap()
}

#[test]
fn index_entry_type_from_byte_file() {
    let test_input: u8 = 8;

    let result = IndexEntryType::from_byte(test_input);

    assert_eq!(Some(IndexEntryType::File), result);
}

#[test]
fn index_entry_type_from_byte_symlink() {
    let test_input: u8 = 10;

    let result = IndexEntryType::from_byte(test_input);

    assert_eq!(Some(IndexEntryType::Symlink), result);
}

#[test]
fn index_entry_type_from_byte_gitlink() {
    let test_input: u8 = 14;

    let result = IndexEntryType::from_byte(test_input);

    assert_eq!(Some(IndexEntryType::Gitlink), result);
}

#[test]
fn index_entry_type_from_byte_invalid() {
    let test_input: u8 = 242;

    let result = IndexEntryType::from_byte(test_input);

    assert_eq!(None, result);
}

#[test]
fn index_entry_type_to_byte_file() {
    let test_input = IndexEntryType::File;

    let result = test_input.to_byte();

    assert_eq!(8, result);
}

#[test]
fn index_entry_type_to_byte_symlink() {
    let test_input = IndexEntryType::Symlink;

    let result = test_input.to_byte();

    assert_eq!(10, result);
}

#[test]
fn index_entry_type_to_byte_gitlink() {
    let test_input = IndexEntryType::Gitlink;

    let result = test_input.to_byte();

    assert_eq!(14, result);
}

#[test]
fn index_entry_type_fmt_file() {
    let test_input = IndexEntryType::File;

    let result = test_input.to_string();

    assert_eq!("regular file", result);
}

#[test]
fn index_entry_type_fmt_symlink() {
    let test_input = IndexEntryType::Symlink;

    let result = test_input.to_string();

    assert_eq!("symbolic link", result);
}

#[test]
fn index_entry_type_fmt_gitlink() {
    let test_input = IndexEntryType::Gitlink;

    let result = test_input.to_string();

    assert_eq!("git link", result);
}

#[test]
fn index_entry_permissions_from_u16_non_executable() {
    let test_input: u16 = 0o644;

    let result = IndexEntryPermissions::from_u16(test_input);

    assert_eq!(Some(IndexEntryPermissions::NonExecutable), result);
}

#[test]
fn index_entry_permissions_from_u16_executable() {
    let test_input: u16 = 0o755;

    let result = IndexEntryPermissions::from_u16(test_input);

    assert_eq!(Some(IndexEntryPermissions::Executable), result);
}

#[test]
fn index_entry_permissions_from_u16_link() {
    let test_input: u16 = 0;

    let result = IndexEntryPermissions::from_u16(test_input);

    assert_eq!(Some(IndexEntryPermissions::Link), result);
}

#[test]
fn index_entry_permissions_from_u16_invalid_value() {
    let test_input: u16 = 0o237;

    let result = IndexEntryPermissions::from_u16(test_input);

    assert_eq!(None, result);
}

#[test]
fn index_entry_permissions_to_u16_non_executable() {
    let test_input = IndexEntryPermissions::NonExecutable;

    let result = test_input.to_u16();

    assert_eq!(0o644, result);
}

#[test]
fn index_entry_permissions_to_u16_executable() {
    let test_input = IndexEntryPermissions::Executable;

    let result = test_input.to_u16();

    assert_eq!(0o755, result);
}

#[test]
fn index_entry_permissions_to_u16_link() {
    let test_input = IndexEntryPermissions::Link;

    let result = test_input.to_u16();

    assert_eq!(0, result);
}

#[test]
fn index_entry_permissions_fmt_non_executable() {
    let test_input = IndexEntryPermissions::NonExecutable;

    let result = test_input.to_string();

    assert_eq!("0644", result);
}

#[test]
fn index_entry_permissions_fmt_executable() {
    let test_input = IndexEntryPermissions::Executable;

    let result = test_input.to_string();

    assert_eq!("0755", result);
}

#[test]
fn index_entry_permissions_fmt_link() {
    let test_input = IndexEntryPermissions::Link;

    let result = test_input.to_string();

    assert_eq!("0000", result);
}

#[test]
fn index_entry_byte_length_rounds_up() {
    let test_input = IndexEntry {
        ctime: now(),
        mtime: now(),
        dev: 4472,
        ino: 4468,
        mode_type: IndexEntryType::File,
        mode_perms: IndexEntryPermissions::NonExecutable,
        uid: 80105,
        gid: 2857,
        fsize: 71000,
        flag_assume_valid: false,
        flag_stage: 0,
        object_id: "00000000000000000000".to_string(),
        object_name: "an_ordinary_file_name".to_string(),
    };
    let expected_result = 88usize;

    let result = test_input.byte_length();

    assert_eq!(expected_result, result);
}

#[test]
fn index_entry_byte_length_does_not_round_up_on_block_boundary() {
    let test_input = IndexEntry {
        ctime: now(),
        mtime: now(),
        dev: 4472,
        ino: 4468,
        mode_type: IndexEntryType::File,
        mode_perms: IndexEntryPermissions::NonExecutable,
        uid: 80105,
        gid: 2857,
        fsize: 71000,
        flag_assume_valid: false,
        flag_stage: 0,
        object_id: "00000000000000000000".to_string(),
        object_name: "a__file__with_name_ending_on_the__block__boundary".to_string(),
    };
    let expected_result = 112usize;

    let result = test_input.byte_length();

    assert_eq!(expected_result, result);
}

#[test]
fn index_entry_from_bytes_returns_ok() {
    // This is a genuine index entry from this project's own index, tweaked so that the fields
    // that are zero on Windows are populated with the same values as the byte_length() tests above

    // This input is used for all the from_bytes() tests expected to return Ok(entry), and is tweaked
    // for tests expected to return Error(...)
    let test_input = [
        0x69u8, 0xae, 0xe0, 0x4, 0xc, 0xc8, 0x34, 0x60, 0x69, 0xb8, 0x42, 0x9e, 0x4, 0x68,
        0x2a, 0xf0, 0, 0, 0x11, 0x78, 0, 0, 0x11, 0x74, 0, 0, 0x81, 0xa4, 0, 0x1, 0x38, 0xe9,
        0, 0, 0x0b, 0x29, 0, 0, 0xd, 0x2c, 0xf6, 0xd9, 0xd2, 0x6f, 0x9d, 0x58, 0xb5, 0x8c, 0xd,
        0x7b, 0x1c, 0x69, 0xf6, 0xb2, 0x46, 0xcf, 0xca, 0x46, 0x40, 0xc4, 0, 0x13, 0x73, 0x72,
        0x63, 0x2f, 0x69, 0x6e, 0x64, 0x65, 0x78, 0x2f, 0x65, 0x72, 0x72, 0x6f, 0x72, 0x73,
        0x2e, 0x72, 0x73, 0, 0, 0, 0, 0, 0, 0,
    ];

    let result = IndexEntry::from_bytes(&test_input);

    assert!(result.is_ok());
}

#[test]
fn index_entry_from_bytes_sets_ctime() {
    let test_input = [
        0x69u8, 0xae, 0xe0, 0x4, 0xc, 0xc8, 0x34, 0x60, 0x69, 0xb8, 0x42, 0x9e, 0x4, 0x68,
        0x2a, 0xf0, 0, 0, 0x11, 0x78, 0, 0, 0x11, 0x74, 0, 0, 0x81, 0xa4, 0, 0x1, 0x38, 0xe9,
        0, 0, 0x0b, 0x29, 0, 0, 0xd, 0x2c, 0xf6, 0xd9, 0xd2, 0x6f, 0x9d, 0x58, 0xb5, 0x8c, 0xd,
        0x7b, 0x1c, 0x69, 0xf6, 0xb2, 0x46, 0xcf, 0xca, 0x46, 0x40, 0xc4, 0, 0x13, 0x73, 0x72,
        0x63, 0x2f, 0x69, 0x6e, 0x64, 0x65, 0x78, 0x2f, 0x65, 0x72, 0x72, 0x6f, 0x72, 0x73,
        0x2e, 0x72, 0x73, 0, 0, 0, 0, 0, 0, 0,
    ];
    let expected_ctime = utc("2026-03-09T14:58:12.214447200Z");

    let result = IndexEntry::from_bytes(&test_input);

    let Ok(result) = result else {
        panic!();
    };
    assert_eq!(expected_ctime, result.ctime);
}

#[test]
fn index_entry_from_bytes_sets_mtime() {
    let test_input = [
        0x69u8, 0xae, 0xe0, 0x4, 0xc, 0xc8, 0x34, 0x60, 0x69, 0xb8, 0x42, 0x9e, 0x4, 0x68,
        0x2a, 0xf0, 0, 0, 0x11, 0x78, 0, 0, 0x11, 0x74, 0, 0, 0x81, 0xa4, 0, 0x1, 0x38, 0xe9,
        0, 0, 0x0b, 0x29, 0, 0, 0xd, 0x2c, 0xf6, 0xd9, 0xd2, 0x6f, 0x9d, 0x58, 0xb5, 0x8c, 0xd,
        0x7b, 0x1c, 0x69, 0xf6, 0xb2, 0x46, 0xcf, 0xca, 0x46, 0x40, 0xc4, 0, 0x13, 0x73, 0x72,
        0x63, 0x2f, 0x69, 0x6e, 0x64, 0x65, 0x78, 0x2f, 0x65, 0x72, 0x72, 0x6f, 0x72, 0x73,
        0x2e, 0x72, 0x73, 0, 0, 0, 0, 0, 0, 0,
    ];
    let expected_mtime = utc("2026-03-16T17:49:18.073935600Z");

    let result = IndexEntry::from_bytes(&test_input);

    let Ok(result) = result else {
        panic!();
    };
    assert_eq!(expected_mtime, result.mtime);
}

#[test]
fn index_entry_from_bytes_sets_dev() {
    let test_input = [
        0x69u8, 0xae, 0xe0, 0x4, 0xc, 0xc8, 0x34, 0x60, 0x69, 0xb8, 0x42, 0x9e, 0x4, 0x68,
        0x2a, 0xf0, 0, 0, 0x11, 0x78, 0, 0, 0x11, 0x74, 0, 0, 0x81, 0xa4, 0, 0x1, 0x38, 0xe9,
        0, 0, 0x0b, 0x29, 0, 0, 0xd, 0x2c, 0xf6, 0xd9, 0xd2, 0x6f, 0x9d, 0x58, 0xb5, 0x8c, 0xd,
        0x7b, 0x1c, 0x69, 0xf6, 0xb2, 0x46, 0xcf, 0xca, 0x46, 0x40, 0xc4, 0, 0x13, 0x73, 0x72,
        0x63, 0x2f, 0x69, 0x6e, 0x64, 0x65, 0x78, 0x2f, 0x65, 0x72, 0x72, 0x6f, 0x72, 0x73,
        0x2e, 0x72, 0x73, 0, 0, 0, 0, 0, 0, 0,
    ];
    let expected_dev = 4472;

    let result = IndexEntry::from_bytes(&test_input);

    let Ok(result) = result else {
        panic!();
    };
    assert_eq!(expected_dev, result.dev);
}

#[test]
fn index_entry_from_bytes_sets_ino() {
    let test_input = [
        0x69u8, 0xae, 0xe0, 0x4, 0xc, 0xc8, 0x34, 0x60, 0x69, 0xb8, 0x42, 0x9e, 0x4, 0x68,
        0x2a, 0xf0, 0, 0, 0x11, 0x78, 0, 0, 0x11, 0x74, 0, 0, 0x81, 0xa4, 0, 0x1, 0x38, 0xe9,
        0, 0, 0x0b, 0x29, 0, 0, 0xd, 0x2c, 0xf6, 0xd9, 0xd2, 0x6f, 0x9d, 0x58, 0xb5, 0x8c, 0xd,
        0x7b, 0x1c, 0x69, 0xf6, 0xb2, 0x46, 0xcf, 0xca, 0x46, 0x40, 0xc4, 0, 0x13, 0x73, 0x72,
        0x63, 0x2f, 0x69, 0x6e, 0x64, 0x65, 0x78, 0x2f, 0x65, 0x72, 0x72, 0x6f, 0x72, 0x73,
        0x2e, 0x72, 0x73, 0, 0, 0, 0, 0, 0, 0,
    ];
    let expected_ino = 4468;

    let result = IndexEntry::from_bytes(&test_input);

    let Ok(result) = result else {
        panic!();
    };
    assert_eq!(expected_ino, result.ino);
}

#[test]
fn index_entry_from_bytes_sets_mode_type() {
    let test_input = [
        0x69u8, 0xae, 0xe0, 0x4, 0xc, 0xc8, 0x34, 0x60, 0x69, 0xb8, 0x42, 0x9e, 0x4, 0x68,
        0x2a, 0xf0, 0, 0, 0x11, 0x78, 0, 0, 0x11, 0x74, 0, 0, 0x81, 0xa4, 0, 0x1, 0x38, 0xe9,
        0, 0, 0x0b, 0x29, 0, 0, 0xd, 0x2c, 0xf6, 0xd9, 0xd2, 0x6f, 0x9d, 0x58, 0xb5, 0x8c, 0xd,
        0x7b, 0x1c, 0x69, 0xf6, 0xb2, 0x46, 0xcf, 0xca, 0x46, 0x40, 0xc4, 0, 0x13, 0x73, 0x72,
        0x63, 0x2f, 0x69, 0x6e, 0x64, 0x65, 0x78, 0x2f, 0x65, 0x72, 0x72, 0x6f, 0x72, 0x73,
        0x2e, 0x72, 0x73, 0, 0, 0, 0, 0, 0, 0,
    ];

    let result = IndexEntry::from_bytes(&test_input);

    let Ok(result) = result else {
        panic!();
    };
    assert_eq!(IndexEntryType::File, result.mode_type);
}

#[test]
fn index_entry_from_bytes_sets_mode_perms() {
    let test_input = [
        0x69u8, 0xae, 0xe0, 0x4, 0xc, 0xc8, 0x34, 0x60, 0x69, 0xb8, 0x42, 0x9e, 0x4, 0x68,
        0x2a, 0xf0, 0, 0, 0x11, 0x78, 0, 0, 0x11, 0x74, 0, 0, 0x81, 0xa4, 0, 0x1, 0x38, 0xe9,
        0, 0, 0x0b, 0x29, 0, 0, 0xd, 0x2c, 0xf6, 0xd9, 0xd2, 0x6f, 0x9d, 0x58, 0xb5, 0x8c, 0xd,
        0x7b, 0x1c, 0x69, 0xf6, 0xb2, 0x46, 0xcf, 0xca, 0x46, 0x40, 0xc4, 0, 0x13, 0x73, 0x72,
        0x63, 0x2f, 0x69, 0x6e, 0x64, 0x65, 0x78, 0x2f, 0x65, 0x72, 0x72, 0x6f, 0x72, 0x73,
        0x2e, 0x72, 0x73, 0, 0, 0, 0, 0, 0, 0,
    ];

    let result = IndexEntry::from_bytes(&test_input);

    let Ok(result) = result else {
        panic!();
    };
    assert_eq!(IndexEntryType::File, result.mode_type);
}

#[test]
fn index_entry_from_bytes_sets_uid() {
    let test_input = [
        0x69u8, 0xae, 0xe0, 0x4, 0xc, 0xc8, 0x34, 0x60, 0x69, 0xb8, 0x42, 0x9e, 0x4, 0x68,
        0x2a, 0xf0, 0, 0, 0x11, 0x78, 0, 0, 0x11, 0x74, 0, 0, 0x81, 0xa4, 0, 0x1, 0x38, 0xe9,
        0, 0, 0x0b, 0x29, 0, 0, 0xd, 0x2c, 0xf6, 0xd9, 0xd2, 0x6f, 0x9d, 0x58, 0xb5, 0x8c, 0xd,
        0x7b, 0x1c, 0x69, 0xf6, 0xb2, 0x46, 0xcf, 0xca, 0x46, 0x40, 0xc4, 0, 0x13, 0x73, 0x72,
        0x63, 0x2f, 0x69, 0x6e, 0x64, 0x65, 0x78, 0x2f, 0x65, 0x72, 0x72, 0x6f, 0x72, 0x73,
        0x2e, 0x72, 0x73, 0, 0, 0, 0, 0, 0, 0,
    ];
    let expected_uid = 80105;

    let result = IndexEntry::from_bytes(&test_input);

    let Ok(result) = result else {
        panic!();
    };
    assert_eq!(expected_uid, result.uid);
}

#[test]
fn index_entry_from_bytes_sets_gid() {
    let test_input = [
        0x69u8, 0xae, 0xe0, 0x4, 0xc, 0xc8, 0x34, 0x60, 0x69, 0xb8, 0x42, 0x9e, 0x4, 0x68,
        0x2a, 0xf0, 0, 0, 0x11, 0x78, 0, 0, 0x11, 0x74, 0, 0, 0x81, 0xa4, 0, 0x1, 0x38, 0xe9,
        0, 0, 0x0b, 0x29, 0, 0, 0xd, 0x2c, 0xf6, 0xd9, 0xd2, 0x6f, 0x9d, 0x58, 0xb5, 0x8c, 0xd,
        0x7b, 0x1c, 0x69, 0xf6, 0xb2, 0x46, 0xcf, 0xca, 0x46, 0x40, 0xc4, 0, 0x13, 0x73, 0x72,
        0x63, 0x2f, 0x69, 0x6e, 0x64, 0x65, 0x78, 0x2f, 0x65, 0x72, 0x72, 0x6f, 0x72, 0x73,
        0x2e, 0x72, 0x73, 0, 0, 0, 0, 0, 0, 0,
    ];
    let expected_gid = 2857;

    let result = IndexEntry::from_bytes(&test_input);

    let Ok(result) = result else {
        panic!();
    };
    assert_eq!(expected_gid, result.gid);
}

#[test]
fn index_entry_from_bytes_sets_fsize() {
    let test_input = [
        0x69u8, 0xae, 0xe0, 0x4, 0xc, 0xc8, 0x34, 0x60, 0x69, 0xb8, 0x42, 0x9e, 0x4, 0x68,
        0x2a, 0xf0, 0, 0, 0x11, 0x78, 0, 0, 0x11, 0x74, 0, 0, 0x81, 0xa4, 0, 0x1, 0x38, 0xe9,
        0, 0, 0x0b, 0x29, 0, 0, 0xd, 0x2c, 0xf6, 0xd9, 0xd2, 0x6f, 0x9d, 0x58, 0xb5, 0x8c, 0xd,
        0x7b, 0x1c, 0x69, 0xf6, 0xb2, 0x46, 0xcf, 0xca, 0x46, 0x40, 0xc4, 0, 0x13, 0x73, 0x72,
        0x63, 0x2f, 0x69, 0x6e, 0x64, 0x65, 0x78, 0x2f, 0x65, 0x72, 0x72, 0x6f, 0x72, 0x73,
        0x2e, 0x72, 0x73, 0, 0, 0, 0, 0, 0, 0,
    ];
    let expected_fsize = 3372;

    let result = IndexEntry::from_bytes(&test_input);

    let Ok(result) = result else {
        panic!();
    };
    assert_eq!(expected_fsize, result.fsize);
}

#[test]
fn index_entry_from_bytes_sets_object_id() {
    let test_input = [
        0x69u8, 0xae, 0xe0, 0x4, 0xc, 0xc8, 0x34, 0x60, 0x69, 0xb8, 0x42, 0x9e, 0x4, 0x68,
        0x2a, 0xf0, 0, 0, 0x11, 0x78, 0, 0, 0x11, 0x74, 0, 0, 0x81, 0xa4, 0, 0x1, 0x38, 0xe9,
        0, 0, 0x0b, 0x29, 0, 0, 0xd, 0x2c, 0xf6, 0xd9, 0xd2, 0x6f, 0x9d, 0x58, 0xb5, 0x8c, 0xd,
        0x7b, 0x1c, 0x69, 0xf6, 0xb2, 0x46, 0xcf, 0xca, 0x46, 0x40, 0xc4, 0, 0x13, 0x73, 0x72,
        0x63, 0x2f, 0x69, 0x6e, 0x64, 0x65, 0x78, 0x2f, 0x65, 0x72, 0x72, 0x6f, 0x72, 0x73,
        0x2e, 0x72, 0x73, 0, 0, 0, 0, 0, 0, 0,
    ];
    let expected_id = "f6d9d26f9d58b58c0d7b1c69f6b246cfca4640c4";

    let result = IndexEntry::from_bytes(&test_input);

    let Ok(result) = result else {
        panic!();
    };
    assert_eq!(expected_id, result.object_id);
}

#[test]
fn index_entry_from_bytes_sets_flag_assume_valid_false() {
    let test_input = [
        0x69u8, 0xae, 0xe0, 0x4, 0xc, 0xc8, 0x34, 0x60, 0x69, 0xb8, 0x42, 0x9e, 0x4, 0x68,
        0x2a, 0xf0, 0, 0, 0x11, 0x78, 0, 0, 0x11, 0x74, 0, 0, 0x81, 0xa4, 0, 0x1, 0x38, 0xe9,
        0, 0, 0x0b, 0x29, 0, 0, 0xd, 0x2c, 0xf6, 0xd9, 0xd2, 0x6f, 0x9d, 0x58, 0xb5, 0x8c, 0xd,
        0x7b, 0x1c, 0x69, 0xf6, 0xb2, 0x46, 0xcf, 0xca, 0x46, 0x40, 0xc4, 0, 0x13, 0x73, 0x72,
        0x63, 0x2f, 0x69, 0x6e, 0x64, 0x65, 0x78, 0x2f, 0x65, 0x72, 0x72, 0x6f, 0x72, 0x73,
        0x2e, 0x72, 0x73, 0, 0, 0, 0, 0, 0, 0,
    ];

    let result = IndexEntry::from_bytes(&test_input);

    let Ok(result) = result else {
        panic!();
    };
    assert!(!result.flag_assume_valid);
}

#[test]
fn index_entry_from_bytes_sets_flag_assume_valid_true() {
    let test_input = [
        0x69u8, 0xae, 0xe0, 0x4, 0xc, 0xc8, 0x34, 0x60, 0x69, 0xb8, 0x42, 0x9e, 0x4, 0x68,
        0x2a, 0xf0, 0, 0, 0x11, 0x78, 0, 0, 0x11, 0x74, 0, 0, 0x81, 0xa4, 0, 0x1, 0x38, 0xe9,
        0, 0, 0x0b, 0x29, 0, 0, 0xd, 0x2c, 0xf6, 0xd9, 0xd2, 0x6f, 0x9d, 0x58, 0xb5, 0x8c, 0xd,
        0x7b, 0x1c, 0x69, 0xf6, 0xb2, 0x46, 0xcf, 0xca, 0x46, 0x40, 0xc4, 0x80, 0x13, 0x73,
        0x72, 0x63, 0x2f, 0x69, 0x6e, 0x64, 0x65, 0x78, 0x2f, 0x65, 0x72, 0x72, 0x6f, 0x72,
        0x73, 0x2e, 0x72, 0x73, 0, 0, 0, 0, 0, 0, 0,
    ];

    let result = IndexEntry::from_bytes(&test_input);

    let Ok(result) = result else {
        panic!();
    };
    assert!(result.flag_assume_valid);
}

#[test]
fn index_entry_from_bytes_sets_flag_stage_0() {
    let test_input = [
        0x69u8, 0xae, 0xe0, 0x4, 0xc, 0xc8, 0x34, 0x60, 0x69, 0xb8, 0x42, 0x9e, 0x4, 0x68,
        0x2a, 0xf0, 0, 0, 0x11, 0x78, 0, 0, 0x11, 0x74, 0, 0, 0x81, 0xa4, 0, 0x1, 0x38, 0xe9,
        0, 0, 0x0b, 0x29, 0, 0, 0xd, 0x2c, 0xf6, 0xd9, 0xd2, 0x6f, 0x9d, 0x58, 0xb5, 0x8c, 0xd,
        0x7b, 0x1c, 0x69, 0xf6, 0xb2, 0x46, 0xcf, 0xca, 0x46, 0x40, 0xc4, 0, 0x13, 0x73, 0x72,
        0x63, 0x2f, 0x69, 0x6e, 0x64, 0x65, 0x78, 0x2f, 0x65, 0x72, 0x72, 0x6f, 0x72, 0x73,
        0x2e, 0x72, 0x73, 0, 0, 0, 0, 0, 0, 0,
    ];

    let result = IndexEntry::from_bytes(&test_input);

    let Ok(result) = result else {
        panic!();
    };
    assert_eq!(0, result.flag_stage);
}

#[test]
fn index_entry_from_bytes_sets_flag_stage_3() {
    let test_input = [
        0x69u8, 0xae, 0xe0, 0x4, 0xc, 0xc8, 0x34, 0x60, 0x69, 0xb8, 0x42, 0x9e, 0x4, 0x68,
        0x2a, 0xf0, 0, 0, 0x11, 0x78, 0, 0, 0x11, 0x74, 0, 0, 0x81, 0xa4, 0, 0x1, 0x38, 0xe9,
        0, 0, 0x0b, 0x29, 0, 0, 0xd, 0x2c, 0xf6, 0xd9, 0xd2, 0x6f, 0x9d, 0x58, 0xb5, 0x8c, 0xd,
        0x7b, 0x1c, 0x69, 0xf6, 0xb2, 0x46, 0xcf, 0xca, 0x46, 0x40, 0xc4, 0x30, 0x13, 0x73,
        0x72, 0x63, 0x2f, 0x69, 0x6e, 0x64, 0x65, 0x78, 0x2f, 0x65, 0x72, 0x72, 0x6f, 0x72,
        0x73, 0x2e, 0x72, 0x73, 0, 0, 0, 0, 0, 0, 0,
    ];

    let result = IndexEntry::from_bytes(&test_input);

    let Ok(result) = result else {
        panic!();
    };
    assert_eq!(3, result.flag_stage);
}

#[test]
fn index_entry_from_bytes_sets_name() {
    let test_input = [
        0x69u8, 0xae, 0xe0, 0x4, 0xc, 0xc8, 0x34, 0x60, 0x69, 0xb8, 0x42, 0x9e, 0x4, 0x68,
        0x2a, 0xf0, 0, 0, 0x11, 0x78, 0, 0, 0x11, 0x74, 0, 0, 0x81, 0xa4, 0, 0x1, 0x38, 0xe9,
        0, 0, 0x0b, 0x29, 0, 0, 0xd, 0x2c, 0xf6, 0xd9, 0xd2, 0x6f, 0x9d, 0x58, 0xb5, 0x8c, 0xd,
        0x7b, 0x1c, 0x69, 0xf6, 0xb2, 0x46, 0xcf, 0xca, 0x46, 0x40, 0xc4, 0x30, 0x13, 0x73,
        0x72, 0x63, 0x2f, 0x69, 0x6e, 0x64, 0x65, 0x78, 0x2f, 0x65, 0x72, 0x72, 0x6f, 0x72,
        0x73, 0x2e, 0x72, 0x73, 0, 0, 0, 0, 0, 0, 0,
    ];
    let expected_name = "src/index/errors.rs";

    let result = IndexEntry::from_bytes(&test_input);

    let Ok(result) = result else {
        panic!();
    };
    assert_eq!(expected_name, result.object_name);
}

#[test]
fn index_entry_from_bytes_error_if_insufficient_data_to_hold_all_fields() {
    let test_input = [0x69u8, 0xae, 0xe0, 0x4];

    let result = IndexEntry::from_bytes(&test_input);
    let result = result.unwrap_err();

    assert_eq!(InvalidIndexEntryKind::TooShort, result.error_kind);
}

#[test]
fn index_entry_from_bytes_error_if_invalid_ctime() {
    let test_input = [
        0x69u8, 0xae, 0xe0, 0x3, 0x68, 0x9a, 0xca, 0xff, 0x69, 0xb8, 0x42, 0x9e, 0x4, 0x68,
        0x2a, 0xf0, 0, 0, 0x11, 0x78, 0, 0, 0x11, 0x74, 0, 0, 0x81, 0xa4, 0, 0x1, 0x38, 0xe9,
        0, 0, 0x0b, 0x29, 0, 0, 0xd, 0x2c, 0xf6, 0xd9, 0xd2, 0x6f, 0x9d, 0x58, 0xb5, 0x8c, 0xd,
        0x7b, 0x1c, 0x69, 0xf6, 0xb2, 0x46, 0xcf, 0xca, 0x46, 0x40, 0xc4, 0x30, 0x13, 0x73,
        0x72, 0x63, 0x2f, 0x69, 0x6e, 0x64, 0x65, 0x78, 0x2f, 0x65, 0x72, 0x72, 0x6f, 0x72,
        0x73, 0x2e, 0x72, 0x73, 0, 0, 0, 0, 0, 0, 0,
    ];

    let result = IndexEntry::from_bytes(&test_input);
    let result = result.unwrap_err();
    let InvalidIndexEntryKind::UnparseableTimestamp(_x, _y) = result.error_kind else {
        panic!();
    };
}

#[test]
fn index_entry_from_bytes_error_if_invalid_mtime() {
    let test_input = [
        0x69u8, 0xae, 0xe0, 0x4, 0xc, 0xc8, 0x34, 0x60, 0x69, 0xb8, 0x42, 0x9e, 0x64, 0x68,
        0x2a, 0xf0, 0, 0, 0x11, 0x78, 0, 0, 0x11, 0x74, 0, 0, 0x81, 0xa4, 0, 0x1, 0x38, 0xe9,
        0, 0, 0x0b, 0x29, 0, 0, 0xd, 0x2c, 0xf6, 0xd9, 0xd2, 0x6f, 0x9d, 0x58, 0xb5, 0x8c, 0xd,
        0x7b, 0x1c, 0x69, 0xf6, 0xb2, 0x46, 0xcf, 0xca, 0x46, 0x40, 0xc4, 0x30, 0x13, 0x73,
        0x72, 0x63, 0x2f, 0x69, 0x6e, 0x64, 0x65, 0x78, 0x2f, 0x65, 0x72, 0x72, 0x6f, 0x72,
        0x73, 0x2e, 0x72, 0x73, 0, 0, 0, 0, 0, 0, 0,
    ];

    let result = IndexEntry::from_bytes(&test_input);
    let result = result.unwrap_err();
    let InvalidIndexEntryKind::UnparseableTimestamp(_x, _y) = result.error_kind else {
        panic!();
    };
}

#[test]
fn index_entry_from_bytes_error_if_invalid_mode_type() {
    let test_input = [
        0x69u8, 0xae, 0xe0, 0x4, 0xc, 0xc8, 0x34, 0x60, 0x69, 0xb8, 0x42, 0x9e, 0x4, 0x68,
        0x2a, 0xf0, 0, 0, 0x11, 0x78, 0, 0, 0x11, 0x74, 0, 0, 0x11, 0xa4, 0, 0x1, 0x38, 0xe9,
        0, 0, 0x0b, 0x29, 0, 0, 0xd, 0x2c, 0xf6, 0xd9, 0xd2, 0x6f, 0x9d, 0x58, 0xb5, 0x8c, 0xd,
        0x7b, 0x1c, 0x69, 0xf6, 0xb2, 0x46, 0xcf, 0xca, 0x46, 0x40, 0xc4, 0x30, 0x13, 0x73,
        0x72, 0x63, 0x2f, 0x69, 0x6e, 0x64, 0x65, 0x78, 0x2f, 0x65, 0x72, 0x72, 0x6f, 0x72,
        0x73, 0x2e, 0x72, 0x73, 0, 0, 0, 0, 0, 0, 0,
    ];

    let result = IndexEntry::from_bytes(&test_input);
    let result = result.unwrap_err();
    let InvalidIndexEntryKind::UnexpectedMode(x) = result.error_kind else {
        panic!();
    };
    assert_eq!(1, x);
}

#[test]
fn index_entry_from_bytes_error_if_invalid_mode_permissions() {
    let test_input = [
        0x69u8, 0xae, 0xe0, 0x4, 0xc, 0xc8, 0x34, 0x60, 0x69, 0xb8, 0x42, 0x9e, 0x4, 0x68,
        0x2a, 0xf0, 0, 0, 0x11, 0x78, 0, 0, 0x11, 0x74, 0, 0, 0x81, 0xaf, 0, 0x1, 0x38, 0xe9,
        0, 0, 0x0b, 0x29, 0, 0, 0xd, 0x2c, 0xf6, 0xd9, 0xd2, 0x6f, 0x9d, 0x58, 0xb5, 0x8c, 0xd,
        0x7b, 0x1c, 0x69, 0xf6, 0xb2, 0x46, 0xcf, 0xca, 0x46, 0x40, 0xc4, 0x30, 0x13, 0x73,
        0x72, 0x63, 0x2f, 0x69, 0x6e, 0x64, 0x65, 0x78, 0x2f, 0x65, 0x72, 0x72, 0x6f, 0x72,
        0x73, 0x2e, 0x72, 0x73, 0, 0, 0, 0, 0, 0, 0,
    ];

    let result = IndexEntry::from_bytes(&test_input);
    let result = result.unwrap_err();
    let InvalidIndexEntryKind::UnexpectedPermissions(x) = result.error_kind else {
        panic!();
    };
    assert_eq!(0o657, x);
}

#[test]
fn index_entry_from_bytes_error_if_data_is_too_short_for_declared_name_length() {
    let test_input = [
        0x69u8, 0xae, 0xe0, 0x4, 0xc, 0xc8, 0x34, 0x60, 0x69, 0xb8, 0x42, 0x9e, 0x4, 0x68,
        0x2a, 0xf0, 0, 0, 0x11, 0x78, 0, 0, 0x11, 0x74, 0, 0, 0x81, 0xa4, 0, 0x1, 0x38, 0xe9,
        0, 0, 0x0b, 0x29, 0, 0, 0xd, 0x2c, 0xf6, 0xd9, 0xd2, 0x6f, 0x9d, 0x58, 0xb5, 0x8c, 0xd,
        0x7b, 0x1c, 0x69, 0xf6, 0xb2, 0x46, 0xcf, 0xca, 0x46, 0x40, 0xc4, 0x30, 0x13, 0x73,
        0x72, 0x63, 0x2f, 0x69, 0x6e, 0x64, 0x65, 0x78, 0x2f, 0x65, 0x72, 0x72, 0x6f, 0x72,
        0x73,
    ];

    let result = IndexEntry::from_bytes(&test_input);
    let result = result.unwrap_err();
    let InvalidIndexEntryKind::TooShort = result.error_kind else {
        panic!();
    };
}

#[test]
fn index_entry_from_bytes_error_if_name_is_too_short() {
    let test_input = [
        0x69u8, 0xae, 0xe0, 0x4, 0xc, 0xc8, 0x34, 0x60, 0x69, 0xb8, 0x42, 0x9e, 0x4, 0x68,
        0x2a, 0xf0, 0, 0, 0x11, 0x78, 0, 0, 0x11, 0x74, 0, 0, 0x81, 0xa4, 0, 0x1, 0x38, 0xe9,
        0, 0, 0x0b, 0x29, 0, 0, 0xd, 0x2c, 0xf6, 0xd9, 0xd2, 0x6f, 0x9d, 0x58, 0xb5, 0x8c, 0xd,
        0x7b, 0x1c, 0x69, 0xf6, 0xb2, 0x46, 0xcf, 0xca, 0x46, 0x40, 0xc4, 0x30, 0x13, 0x73,
        0x72, 0x63, 0x2f, 0x69, 0x6e, 0x64, 0x65, 0x78, 0x2f, 0x65, 0x72, 0x72, 0x6f, 0x72,
        0x73, 0, 0x69, 0xae, 0xe0, 0x4, 0xc, 0xc8, 0x34, 0x60, 0x69, 0xb8, 0x42, 0x9e, 0x4,
        0x68,
    ];

    let result = IndexEntry::from_bytes(&test_input);
    let result = result.unwrap_err();
    let InvalidIndexEntryKind::NameNotNullTerminated = result.error_kind else {
        panic!();
    };
}

#[test]
fn index_entry_from_bytes_error_if_name_is_too_long() {
    let test_input = [
        0x69u8, 0xae, 0xe0, 0x4, 0xc, 0xc8, 0x34, 0x60, 0x69, 0xb8, 0x42, 0x9e, 0x4, 0x68,
        0x2a, 0xf0, 0, 0, 0x11, 0x78, 0, 0, 0x11, 0x74, 0, 0, 0x81, 0xa4, 0, 0x1, 0x38, 0xe9,
        0, 0, 0x0b, 0x29, 0, 0, 0xd, 0x2c, 0xf6, 0xd9, 0xd2, 0x6f, 0x9d, 0x58, 0xb5, 0x8c, 0xd,
        0x7b, 0x1c, 0x69, 0xf6, 0xb2, 0x46, 0xcf, 0xca, 0x46, 0x40, 0xc4, 0x30, 0x13, 0x73,
        0x72, 0x63, 0x2f, 0x69, 0x6e, 0x64, 0x65, 0x78, 0x2f, 0x65, 0x72, 0x72, 0x6f, 0x72,
        0x73, 0x2e, 0x72, 0x73, 0x73, 0, 0, 0, 0, 0, 0,
    ];

    let result = IndexEntry::from_bytes(&test_input);
    let result = result.unwrap_err();
    let InvalidIndexEntryKind::NameNotNullTerminated = result.error_kind else {
        panic!();
    };
}

#[test]
fn index_entry_serialise() {
    let test_input = IndexEntry {
        ctime: utc("2026-03-09T14:58:12.214447200Z"),
        mtime: utc("2026-03-16T17:49:18.073935600Z"),
        dev: 4472,
        ino: 4468,
        mode_type: IndexEntryType::File,
        mode_perms: IndexEntryPermissions::NonExecutable,
        uid: 80105,
        gid: 2857,
        fsize: 3372,
        flag_assume_valid: false,
        flag_stage: 0,
        object_id: "f6d9d26f9d58b58c0d7b1c69f6b246cfca4640c4".to_string(),
        object_name: "src/index/errors.rs".to_string(),
    };
    let expected_result = [
        0x69u8, 0xae, 0xe0, 0x4, 0xc, 0xc8, 0x34, 0x60, 0x69, 0xb8, 0x42, 0x9e, 0x4, 0x68,
        0x2a, 0xf0, 0, 0, 0x11, 0x78, 0, 0, 0x11, 0x74, 0, 0, 0x81, 0xa4, 0, 0x1, 0x38, 0xe9,
        0, 0, 0x0b, 0x29, 0, 0, 0xd, 0x2c, 0xf6, 0xd9, 0xd2, 0x6f, 0x9d, 0x58, 0xb5, 0x8c, 0xd,
        0x7b, 0x1c, 0x69, 0xf6, 0xb2, 0x46, 0xcf, 0xca, 0x46, 0x40, 0xc4, 0, 0x13, 0x73, 0x72,
        0x63, 0x2f, 0x69, 0x6e, 0x64, 0x65, 0x78, 0x2f, 0x65, 0x72, 0x72, 0x6f, 0x72, 0x73,
        0x2e, 0x72, 0x73, 0, 0, 0, 0, 0, 0, 0,
    ];
    let mut results = Vec::<u8>::new();

    test_input.serialise(&mut results);

    assert_eq!(expected_result, *results);
}

#[test]
fn index_entry_object_directory_name_if_non_root() {
    let test_input = IndexEntry {
        ctime: utc("2026-03-09T14:58:12.214447200Z"),
        mtime: utc("2026-03-16T17:49:18.073935600Z"),
        dev: 4472,
        ino: 4468,
        mode_type: IndexEntryType::File,
        mode_perms: IndexEntryPermissions::NonExecutable,
        uid: 80105,
        gid: 2857,
        fsize: 3372,
        flag_assume_valid: false,
        flag_stage: 0,
        object_id: "f6d9d26f9d58b58c0d7b1c69f6b246cfca4640c4".to_string(),
        object_name: "src/index/errors.rs".to_string(),
    };
    let expected_result = "src/index";

    let result = test_input.object_directory_name();

    assert_eq!(expected_result, result);
}

#[test]
fn index_entry_object_directory_name_if_root() {
    let test_input = IndexEntry {
        ctime: utc("2026-03-09T14:58:12.214447200Z"),
        mtime: utc("2026-03-16T17:49:18.073935600Z"),
        dev: 4472,
        ino: 4468,
        mode_type: IndexEntryType::File,
        mode_perms: IndexEntryPermissions::NonExecutable,
        uid: 80105,
        gid: 2857,
        fsize: 3372,
        flag_assume_valid: false,
        flag_stage: 0,
        object_id: "f6d9d26f9d58b58c0d7b1c69f6b246cfca4640c4".to_string(),
        object_name: "errors.rs".to_string(),
    };
    let expected_result = "";

    let result = test_input.object_directory_name();

    assert_eq!(expected_result, result);
}

#[test]
fn index_entry_object_file_name_if_non_root() {
    let test_input = IndexEntry {
        ctime: utc("2026-03-09T14:58:12.214447200Z"),
        mtime: utc("2026-03-16T17:49:18.073935600Z"),
        dev: 4472,
        ino: 4468,
        mode_type: IndexEntryType::File,
        mode_perms: IndexEntryPermissions::NonExecutable,
        uid: 80105,
        gid: 2857,
        fsize: 3372,
        flag_assume_valid: false,
        flag_stage: 0,
        object_id: "f6d9d26f9d58b58c0d7b1c69f6b246cfca4640c4".to_string(),
        object_name: "src/index/errors.rs".to_string(),
    };
    let expected_result = "errors.rs";

    let result = test_input.object_file_name();

    assert_eq!(expected_result, result);
}

#[test]
fn index_entry_object_file_name_if_root() {
    let test_input = IndexEntry {
        ctime: utc("2026-03-09T14:58:12.214447200Z"),
        mtime: utc("2026-03-16T17:49:18.073935600Z"),
        dev: 4472,
        ino: 4468,
        mode_type: IndexEntryType::File,
        mode_perms: IndexEntryPermissions::NonExecutable,
        uid: 80105,
        gid: 2857,
        fsize: 3372,
        flag_assume_valid: false,
        flag_stage: 0,
        object_id: "f6d9d26f9d58b58c0d7b1c69f6b246cfca4640c4".to_string(),
        object_name: "errors.rs".to_string(),
    };
    let expected_result = "errors.rs";

    let result = test_input.object_file_name();

    assert_eq!(expected_result, result);
}

#[test]
fn index_entry_mode_file_non_executable() {
    let test_input = IndexEntry {
        ctime: utc("2026-03-09T14:58:12.214447200Z"),
        mtime: utc("2026-03-16T17:49:18.073935600Z"),
        dev: 4472,
        ino: 4468,
        mode_type: IndexEntryType::File,
        mode_perms: IndexEntryPermissions::NonExecutable,
        uid: 80105,
        gid: 2857,
        fsize: 3372,
        flag_assume_valid: false,
        flag_stage: 0,
        object_id: "f6d9d26f9d58b58c0d7b1c69f6b246cfca4640c4".to_string(),
        object_name: "errors.rs".to_string(),
    };
    let expected_result = 0o100644;

    let result = test_input.mode();

    assert_eq!(expected_result, result);
}

#[test]
fn index_entry_mode_file_executable() {
    let test_input = IndexEntry {
        ctime: utc("2026-03-09T14:58:12.214447200Z"),
        mtime: utc("2026-03-16T17:49:18.073935600Z"),
        dev: 4472,
        ino: 4468,
        mode_type: IndexEntryType::File,
        mode_perms: IndexEntryPermissions::Executable,
        uid: 80105,
        gid: 2857,
        fsize: 3372,
        flag_assume_valid: false,
        flag_stage: 0,
        object_id: "f6d9d26f9d58b58c0d7b1c69f6b246cfca4640c4".to_string(),
        object_name: "errors.rs".to_string(),
    };
    let expected_result = 0o100755;

    let result = test_input.mode();

    assert_eq!(expected_result, result);
}

#[test]
fn index_entry_mode_file_symlink() {
    let test_input = IndexEntry {
        ctime: utc("2026-03-09T14:58:12.214447200Z"),
        mtime: utc("2026-03-16T17:49:18.073935600Z"),
        dev: 4472,
        ino: 4468,
        mode_type: IndexEntryType::Symlink,
        mode_perms: IndexEntryPermissions::Link,
        uid: 80105,
        gid: 2857,
        fsize: 3372,
        flag_assume_valid: false,
        flag_stage: 0,
        object_id: "f6d9d26f9d58b58c0d7b1c69f6b246cfca4640c4".to_string(),
        object_name: "errors.rs".to_string(),
    };
    let expected_result = 0o120000;

    let result = test_input.mode();

    assert_eq!(expected_result, result);
}

#[test]
fn index_entry_mode_file_gitlink() {
    let test_input = IndexEntry {
        ctime: utc("2026-03-09T14:58:12.214447200Z"),
        mtime: utc("2026-03-16T17:49:18.073935600Z"),
        dev: 4472,
        ino: 4468,
        mode_type: IndexEntryType::Gitlink,
        mode_perms: IndexEntryPermissions::Link,
        uid: 80105,
        gid: 2857,
        fsize: 3372,
        flag_assume_valid: false,
        flag_stage: 0,
        object_id: "f6d9d26f9d58b58c0d7b1c69f6b246cfca4640c4".to_string(),
        object_name: "errors.rs".to_string(),
    };
    let expected_result = 0o160000;

    let result = test_input.mode();

    assert_eq!(expected_result, result);
}

#[test]
fn index_entry_cmp_names_differ_at_root() {
    let test_input = IndexEntry {
        ctime: utc("2026-03-09T14:58:12.214447200Z"),
        mtime: utc("2026-03-16T17:49:18.073935600Z"),
        dev: 4472,
        ino: 4468,
        mode_type: IndexEntryType::File,
        mode_perms: IndexEntryPermissions::NonExecutable,
        uid: 80105,
        gid: 2857,
        fsize: 3372,
        flag_assume_valid: false,
        flag_stage: 0,
        object_id: "f6d9d26f9d58b58c0d7b1c69f6b246cfca4640c4".to_string(),
        object_name: "src/index/errors.rs".to_string(),
    };
    let other = IndexEntry {
        ctime: utc("2026-03-09T14:58:12.214447200Z"),
        mtime: utc("2026-03-16T17:49:18.073935600Z"),
        dev: 4472,
        ino: 4468,
        mode_type: IndexEntryType::File,
        mode_perms: IndexEntryPermissions::NonExecutable,
        uid: 80105,
        gid: 2857,
        fsize: 3372,
        flag_assume_valid: false,
        flag_stage: 0,
        object_id: "f6d9d26f9d58b58c0d7b1c69f6b246cfca4640c4".to_string(),
        object_name: "vrc/index/errors.rs".to_string(),
    };

    let result = test_input.cmp(&other);

    assert_eq!(Ordering::Less, result);
}

#[test]
fn index_entry_cmp_names_differ_at_file() {
    let test_input = IndexEntry {
        ctime: utc("2026-03-09T14:58:12.214447200Z"),
        mtime: utc("2026-03-16T17:49:18.073935600Z"),
        dev: 4472,
        ino: 4468,
        mode_type: IndexEntryType::File,
        mode_perms: IndexEntryPermissions::NonExecutable,
        uid: 80105,
        gid: 2857,
        fsize: 3372,
        flag_assume_valid: false,
        flag_stage: 0,
        object_id: "f6d9d26f9d58b58c0d7b1c69f6b246cfca4640c4".to_string(),
        object_name: "src/index/errors.rs".to_string(),
    };
    let other = IndexEntry {
        ctime: utc("2026-03-09T14:58:12.214447200Z"),
        mtime: utc("2026-03-16T17:49:18.073935600Z"),
        dev: 4472,
        ino: 4468,
        mode_type: IndexEntryType::File,
        mode_perms: IndexEntryPermissions::NonExecutable,
        uid: 80105,
        gid: 2857,
        fsize: 3372,
        flag_assume_valid: false,
        flag_stage: 0,
        object_id: "f6d9d26f9d58b58c0d7b1c69f6b246cfca4640c4".to_string(),
        object_name: "src/index/arrows.rs".to_string(),
    };

    let result = test_input.cmp(&other);

    assert_eq!(Ordering::Greater, result);
}

#[test]
fn index_entry_cmp_same_name_different_stage() {
    let test_input = IndexEntry {
        ctime: utc("2026-03-09T14:58:12.214447200Z"),
        mtime: utc("2026-03-16T17:49:18.073935600Z"),
        dev: 4472,
        ino: 4468,
        mode_type: IndexEntryType::File,
        mode_perms: IndexEntryPermissions::NonExecutable,
        uid: 80105,
        gid: 2857,
        fsize: 3372,
        flag_assume_valid: false,
        flag_stage: 0,
        object_id: "f6d9d26f9d58b58c0d7b1c69f6b246cfca4640c4".to_string(),
        object_name: "src/index/errors.rs".to_string(),
    };
    let other = IndexEntry {
        ctime: utc("2026-03-09T14:58:12.214447200Z"),
        mtime: utc("2026-03-16T17:49:18.073935600Z"),
        dev: 4472,
        ino: 4468,
        mode_type: IndexEntryType::File,
        mode_perms: IndexEntryPermissions::NonExecutable,
        uid: 80105,
        gid: 2857,
        fsize: 3372,
        flag_assume_valid: false,
        flag_stage: 2,
        object_id: "f6d9d26f9d58b58c0d7b1c69f6b246cfca4640c4".to_string(),
        object_name: "src/index/errors.rs".to_string(),
    };

    let result = test_input.cmp(&other);

    assert_eq!(Ordering::Less, result);
}

#[test]
fn index_entry_cmp_same_name_same_stage_other_fields_differ() {
    let test_input = IndexEntry {
        ctime: utc("2026-03-10T14:58:12.214447200Z"),
        mtime: utc("2026-03-10T17:49:18.073935600Z"),
        dev: 60105,
        ino: 60013,
        mode_type: IndexEntryType::Symlink,
        mode_perms: IndexEntryPermissions::Link,
        uid: 92220,
        gid: 1450,
        fsize: 819,
        flag_assume_valid: true,
        flag_stage: 0,
        object_id: "f6d9d26f9c58b58c0d7b1c69f6b246cfca4640c4".to_string(),
        object_name: "src/index/errors.rs".to_string(),
    };
    let other = IndexEntry {
        ctime: utc("2026-03-09T14:58:12.214447200Z"),
        mtime: utc("2026-03-16T17:49:18.073935600Z"),
        dev: 4472,
        ino: 4468,
        mode_type: IndexEntryType::File,
        mode_perms: IndexEntryPermissions::NonExecutable,
        uid: 80105,
        gid: 2857,
        fsize: 3372,
        flag_assume_valid: false,
        flag_stage: 0,
        object_id: "f6d9d26f9d58b58c0d7b1c69f6b246cfca4640c4".to_string(),
        object_name: "src/index/errors.rs".to_string(),
    };

    let result = test_input.cmp(&other);

    assert_eq!(Ordering::Equal, result);
}

#[test]
fn index_entry_eq_same_name_same_stage_other_fields_differ() {
    let test_input = IndexEntry {
        ctime: utc("2026-03-10T14:58:12.214447200Z"),
        mtime: utc("2026-03-10T17:49:18.073935600Z"),
        dev: 60105,
        ino: 60013,
        mode_type: IndexEntryType::Symlink,
        mode_perms: IndexEntryPermissions::Link,
        uid: 92220,
        gid: 1450,
        fsize: 819,
        flag_assume_valid: true,
        flag_stage: 0,
        object_id: "f6d9d26f9c58b58c0d7b1c69f6b246cfca4640c4".to_string(),
        object_name: "src/index/errors.rs".to_string(),
    };
    let other = IndexEntry {
        ctime: utc("2026-03-09T14:58:12.214447200Z"),
        mtime: utc("2026-03-16T17:49:18.073935600Z"),
        dev: 4472,
        ino: 4468,
        mode_type: IndexEntryType::File,
        mode_perms: IndexEntryPermissions::NonExecutable,
        uid: 80105,
        gid: 2857,
        fsize: 3372,
        flag_assume_valid: false,
        flag_stage: 0,
        object_id: "f6d9d26f9d58b58c0d7b1c69f6b246cfca4640c4".to_string(),
        object_name: "src/index/errors.rs".to_string(),
    };

    let result = test_input == other;

    assert!(result);
}

#[test]
fn index_entry_eq_names_differ() {
    let test_input = IndexEntry {
        ctime: utc("2026-03-09T14:58:12.214447200Z"),
        mtime: utc("2026-03-16T17:49:18.073935600Z"),
        dev: 4472,
        ino: 4468,
        mode_type: IndexEntryType::File,
        mode_perms: IndexEntryPermissions::NonExecutable,
        uid: 80105,
        gid: 2857,
        fsize: 3372,
        flag_assume_valid: false,
        flag_stage: 0,
        object_id: "f6d9d26f9d58b58c0d7b1c69f6b246cfca4640c4".to_string(),
        object_name: "src/index/errors.rs".to_string(),
    };
    let other = IndexEntry {
        ctime: utc("2026-03-09T14:58:12.214447200Z"),
        mtime: utc("2026-03-16T17:49:18.073935600Z"),
        dev: 4472,
        ino: 4468,
        mode_type: IndexEntryType::File,
        mode_perms: IndexEntryPermissions::NonExecutable,
        uid: 80105,
        gid: 2857,
        fsize: 3372,
        flag_assume_valid: false,
        flag_stage: 0,
        object_id: "f6d9d26f9d58b58c0d7b1c69f6b246cfca4640c4".to_string(),
        object_name: "src/index/arrows.rs".to_string(),
    };

    let result = test_input == other;

    assert!(!result);
}

#[test]
fn index_new_version() {
    let expected_result = 2;

    let test_result = Index::new();

    assert_eq!(expected_result, test_result.version);
}

#[test]
fn index_new_entries_empty() {
    let expected_result = 0;

    let test_result = Index::new().entries.len();

    assert_eq!(expected_result, test_result);
}

#[test]
fn index_from_bytes_loads_empty_index() {
    let test_input = [0x44u8, 0x49, 0x52, 0x43, 0, 0, 0, 2, 0, 0, 0, 0];

    let test_result = Index::from_bytes(&test_input).unwrap();

    assert_eq!(2, test_result.version);
    assert_eq!(0, test_result.entries.len());
}

#[test]
fn index_from_bytes_short_data() {
    let test_input = [0x44u8, 0x49, 0x52, 0x43, 0, 0, 0, 2, 0, 0, 0];

    let test_result = Index::from_bytes(&test_input).unwrap_err();

    assert_eq!(InvalidIndexKind::TooShort, test_result.error_kind);
}

#[test]
fn index_from_bytes_wrong_magic() {
    let test_input = [0x44u8, 0x49, 0x43, 0x52, 0, 0, 0, 2, 0, 0, 0, 0];

    let test_result = Index::from_bytes(&test_input).unwrap_err();

    assert_eq!(InvalidIndexKind::MissingMagic, test_result.error_kind);
}

#[test]
fn index_from_bytes_wrong_version() {
    let test_input = [0x44u8, 0x49, 0x52, 0x43, 0, 0, 0, 5, 0, 0, 0, 0];

    let test_result = Index::from_bytes(&test_input).unwrap_err();

    assert_eq!(
        InvalidIndexKind::UnsupportedVersion(5),
        test_result.error_kind
    );
}

#[test]
fn index_from_bytes_success() {
    let test_input = [
        0x44u8, 0x49, 0x52, 0x43, 0, 0, 0, 2, 0, 0, 0, 2, 0x69, 0xae, 0xe0, 4, 0xc, 0xc8, 0x34,
        0x60, 0x69, 0xb8, 0x42, 0x9d, 0x32, 0xfa, 0x47, 0xe0, 0, 0, 0, 0, 0, 0, 0, 0, 0, 0,
        0x81, 0xa4, 0, 0, 0, 0, 0, 0, 0, 0, 0, 0, 0xd, 0xb3, 0x27, 0x32, 0x6e, 0xa7, 0x73, 0,
        0xf6, 0xcf, 0xd5, 0xa2, 0xf3, 0x87, 0x49, 0xff, 0x41, 0x65, 0xf1, 0xac, 0x65, 0xc6, 0,
        0x12, 0x73, 0x72, 0x63, 0x2f, 0x63, 0x6c, 0x69, 0x2f, 0x6f, 0x62, 0x6a, 0x65, 0x63,
        0x74, 0x73, 0x2e, 0x72, 0x73, 0, 0, 0, 0, 0, 0, 0, 0, 0x69, 0xae, 0xe0, 4, 0xc, 0xc8,
        0x34, 0x60, 0x69, 0xb8, 0x41, 0xaa, 0x2c, 0x94, 0xa0, 0xd0, 0, 0, 0, 0, 0, 0, 0, 0, 0,
        0, 0x81, 0xa4, 0, 0, 0, 0, 0, 0, 0, 0, 0, 0, 2, 0x9d, 0xbe, 0x65, 0xc5, 0x99, 0xde,
        0x1f, 0xda, 0xbc, 0x46, 0x92, 0x2b, 0xa, 0x86, 0x9a, 0x25, 0x5c, 0xa8, 0x2f, 0xdd,
        0x80, 0, 0x12, 0x73, 0x72, 0x63, 0x2f, 0x63, 0x6c, 0x69, 0x2f, 0x72, 0x65, 0x66, 0x5f,
        0x6c, 0x6f, 0x67, 0x2e, 0x72, 0x73, 0, 0, 0, 0, 0, 0, 0, 0, 0,
    ];
    let expected_entries = vec![
        IndexEntry {
            ctime: utc("2026-03-09T14:58:12.214447200Z"),
            mtime: utc("2026-03-16T17:49:17.855263200Z"),
            dev: 0,
            ino: 0,
            mode_type: IndexEntryType::File,
            mode_perms: IndexEntryPermissions::NonExecutable,
            uid: 0,
            gid: 0,
            fsize: 3507,
            flag_assume_valid: false,
            flag_stage: 0,
            object_id: "27326ea77300f6cfd5a2f38749ff4165f1ac65c6".to_string(),
            object_name: "src/cli/objects.rs".to_string(),
        },
        IndexEntry {
            ctime: utc("2026-03-09T14:58:12.214447200Z"),
            mtime: utc("2026-03-16T17:45:14.747938Z"),
            dev: 0,
            ino: 0,
            mode_type: IndexEntryType::File,
            mode_perms: IndexEntryPermissions::NonExecutable,
            uid: 0,
            gid: 0,
            fsize: 669,
            flag_assume_valid: false,
            flag_stage: 0,
            object_id: "be65c599de1fdabc46922b0a869a255ca82fdd80".to_string(),
            object_name: "src/cli/ref_log.rs".to_string(),
        },
    ];

    let test_output = Index::from_bytes(&test_input).unwrap();

    assert_eq!(2, test_output.version);
    assert_eq!(2, test_output.entries.len());
    assert_eq!(expected_entries, test_output.entries);
}

#[test]
fn index_from_bytes_invalid_entry() {
    let test_input = [
        0x44u8, 0x49, 0x52, 0x43, 0, 0, 0, 2, 0, 0, 0, 2, 0x69, 0xae, 0xe0, 4, 0xaf, 0xc8,
        0x34, 0x60, 0x69, 0xb8, 0x8f, 0x9d, 0x32, 0xfa, 0x47, 0xe0, 0, 0, 0, 0, 0, 0, 0, 0, 0,
        0, 0x81, 0xa4, 0, 0, 0, 0, 0, 0, 0, 0, 0, 0, 0xd, 0xb3, 0x27, 0x32, 0x6e, 0xa7, 0x73,
        0, 0xf6, 0xcf, 0xd5, 0xa2, 0xf3, 0x87, 0x49, 0xff, 0x41, 0x65, 0xf1, 0xac, 0x65, 0xc6,
        0, 0x12, 0x73, 0x72, 0x63, 0x2f, 0x63, 0x6c, 0x69, 0x2f, 0x6f, 0x62, 0x6a, 0x65, 0x63,
        0x74, 0x73, 0x2e, 0x72, 0x73, 0, 0, 0, 0, 0, 0, 0, 0, 0x69, 0xae, 0xe0, 4, 0xc, 0xc8,
        0x34, 0x60, 0x69, 0xb8, 0x41, 0xaa, 0x2c, 0x94, 0xa0, 0xd0, 0, 0, 0, 0, 0, 0, 0, 0, 0,
        0, 0x81, 0xa4, 0, 0, 0, 0, 0, 0, 0, 0, 0, 0, 2, 0x9d, 0xbe, 0x65, 0xc5, 0x99, 0xde,
        0x1f, 0xda, 0xbc, 0x46, 0x92, 0x2b, 0xa, 0x86, 0x9a, 0x25, 0x5c, 0xa8, 0x2f, 0xdd,
        0x80, 0, 0x12, 0x73, 0x72, 0x63, 0x2f, 0x63, 0x6c, 0x69, 0x2f, 0x72, 0x65, 0x66, 0x5f,
        0x6c, 0x6f, 0x67, 0x2e, 0x72, 0x73, 0, 0, 0, 0, 0, 0, 0, 0, 0,
    ];

    let test_result = Index::from_bytes(&test_input).unwrap_err();

    assert!(matches!(
        test_result.error_kind,
        InvalidIndexKind::InvalidEntry(_)
    ));
}

#[test]
fn index_from_bytes_valid_but_truncated() {
    let test_input = [
        0x44u8, 0x49, 0x52, 0x43, 0, 0, 0, 2, 0, 0, 0, 2, 0x69, 0xae, 0xe0, 4, 0xc, 0xc8, 0x34,
        0x60, 0x69, 0xb8, 0x42, 0x9d, 0x32, 0xfa, 0x47, 0xe0, 0, 0, 0, 0, 0, 0, 0, 0, 0, 0,
        0x81, 0xa4, 0, 0, 0, 0, 0, 0, 0, 0, 0, 0, 0xd, 0xb3, 0x27, 0x32, 0x6e, 0xa7, 0x73, 0,
        0xf6, 0xcf, 0xd5, 0xa2, 0xf3, 0x87, 0x49, 0xff, 0x41, 0x65, 0xf1, 0xac, 0x65, 0xc6, 0,
        0x12, 0x73, 0x72, 0x63, 0x2f, 0x63, 0x6c, 0x69, 0x2f, 0x6f, 0x62, 0x6a, 0x65, 0x63,
        0x74, 0x73, 0x2e, 0x72, 0x73, 0, 0, 0, 0, 0, 0, 0, 0, 0x69, 0xae, 0xe0, 4, 0xc, 0xc8,
        0x34, 0x60, 0x69, 0xb8, 0x41, 0xaa, 0x2c, 0x94, 0xa0, 0xd0, 0, 0, 0, 0, 0, 0, 0, 0, 0,
        0, 0x81, 0xa4, 0, 0, 0, 0, 0, 0, 0, 0, 0, 0, 2, 0x9d, 0xbe, 0x65, 0xc5, 0x99, 0xde,
        0x1f, 0xda, 0xbc, 0x46, 0x92, 0x2b, 0xa, 0x86, 0x9a, 0x25, 0x5c, 0xa8, 0x2f, 0xdd,
        0x80, 0, 0x12, 0x73, 0x72, 0x63, 0x2f, 0x63, 0x6c, 0x69, 0x2f, 0x72, 0x65, 0x66, 0x5f,
        0x6c, 0x6f, 0x67, 0x2e, 0x72, 0x73, 0, 0, 0, 0, 0, 0, 0, 0,
    ];

    let test_result = Index::from_bytes(&test_input).unwrap_err();

    assert!(matches!(test_result.error_kind, InvalidIndexKind::TooShort));
}

#[test]
fn index_serialise() {
    let test_input = Index {
        version: 2,
        entries: vec![
            IndexEntry {
                ctime: utc("2026-03-09T14:58:12.214447200Z"),
                mtime: utc("2026-03-16T17:49:17.855263200Z"),
                dev: 0,
                ino: 0,
                mode_type: IndexEntryType::File,
                mode_perms: IndexEntryPermissions::NonExecutable,
                uid: 0,
                gid: 0,
                fsize: 3507,
                flag_assume_valid: false,
                flag_stage: 0,
                object_id: "27326ea77300f6cfd5a2f38749ff4165f1ac65c6".to_string(),
                object_name: "src/cli/objects.rs".to_string(),
            },
            IndexEntry {
                ctime: utc("2026-03-09T14:58:12.214447200Z"),
                mtime: utc("2026-03-16T17:45:14.747938Z"),
                dev: 0,
                ino: 0,
                mode_type: IndexEntryType::File,
                mode_perms: IndexEntryPermissions::NonExecutable,
                uid: 0,
                gid: 0,
                fsize: 669,
                flag_assume_valid: false,
                flag_stage: 0,
                object_id: "be65c599de1fdabc46922b0a869a255ca82fdd80".to_string(),
                object_name: "src/cli/ref_log.rs".to_string(),
            },
        ],
    };
    let expected_result = vec![
        0x44u8, 0x49, 0x52, 0x43, 0, 0, 0, 2, 0, 0, 0, 2, 0x69, 0xae, 0xe0, 4, 0xc, 0xc8, 0x34,
        0x60, 0x69, 0xb8, 0x42, 0x9d, 0x32, 0xfa, 0x47, 0xe0, 0, 0, 0, 0, 0, 0, 0, 0, 0, 0,
        0x81, 0xa4, 0, 0, 0, 0, 0, 0, 0, 0, 0, 0, 0xd, 0xb3, 0x27, 0x32, 0x6e, 0xa7, 0x73, 0,
        0xf6, 0xcf, 0xd5, 0xa2, 0xf3, 0x87, 0x49, 0xff, 0x41, 0x65, 0xf1, 0xac, 0x65, 0xc6, 0,
        0x12, 0x73, 0x72, 0x63, 0x2f, 0x63, 0x6c, 0x69, 0x2f, 0x6f, 0x62, 0x6a, 0x65, 0x63,
        0x74, 0x73, 0x2e, 0x72, 0x73, 0, 0, 0, 0, 0, 0, 0, 0, 0x69, 0xae, 0xe0, 4, 0xc, 0xc8,
        0x34, 0x60, 0x69, 0xb8, 0x41, 0xaa, 0x2c, 0x94, 0xa0, 0xd0, 0, 0, 0, 0, 0, 0, 0, 0, 0,
        0, 0x81, 0xa4, 0, 0, 0, 0, 0, 0, 0, 0, 0, 0, 2, 0x9d, 0xbe, 0x65, 0xc5, 0x99, 0xde,
        0x1f, 0xda, 0xbc, 0x46, 0x92, 0x2b, 0xa, 0x86, 0x9a, 0x25, 0x5c, 0xa8, 0x2f, 0xdd,
        0x80, 0, 0x12, 0x73, 0x72, 0x63, 0x2f, 0x63, 0x6c, 0x69, 0x2f, 0x72, 0x65, 0x66, 0x5f,
        0x6c, 0x6f, 0x67, 0x2e, 0x72, 0x73, 0, 0, 0, 0, 0, 0, 0, 0,
    ];
    let mut test_output: Vec<u8> = vec![];

    test_input.serialise(&mut test_output);

    assert_eq!(expected_result, test_output);
}

#[test]
fn index_contains_path_true() {
    let test_object = Index {
        version: 2,
        entries: vec![
            IndexEntry {
                ctime: utc("2026-03-09T14:58:12.214447200Z"),
                mtime: utc("2026-03-16T17:49:17.855263200Z"),
                dev: 0,
                ino: 0,
                mode_type: IndexEntryType::File,
                mode_perms: IndexEntryPermissions::NonExecutable,
                uid: 0,
                gid: 0,
                fsize: 3507,
                flag_assume_valid: false,
                flag_stage: 0,
                object_id: "27326ea77300f6cfd5a2f38749ff4165f1ac65c6".to_string(),
                object_name: "src/cli/objects.rs".to_string(),
            },
            IndexEntry {
                ctime: utc("2026-03-09T14:58:12.214447200Z"),
                mtime: utc("2026-03-16T17:45:14.747938Z"),
                dev: 0,
                ino: 0,
                mode_type: IndexEntryType::File,
                mode_perms: IndexEntryPermissions::NonExecutable,
                uid: 0,
                gid: 0,
                fsize: 669,
                flag_assume_valid: false,
                flag_stage: 0,
                object_id: "be65c599de1fdabc46922b0a869a255ca82fdd80".to_string(),
                object_name: "src/cli/ref_log.rs".to_string(),
            },
        ],
    };
    let test_input = "src/cli/ref_log.rs";

    let result = test_object.contains_path(test_input);

    assert!(result);
}

#[test]
fn index_contains_path_false() {
    let test_object = Index {
        version: 2,
        entries: vec![
            IndexEntry {
                ctime: utc("2026-03-09T14:58:12.214447200Z"),
                mtime: utc("2026-03-16T17:49:17.855263200Z"),
                dev: 0,
                ino: 0,
                mode_type: IndexEntryType::File,
                mode_perms: IndexEntryPermissions::NonExecutable,
                uid: 0,
                gid: 0,
                fsize: 3507,
                flag_assume_valid: false,
                flag_stage: 0,
                object_id: "27326ea77300f6cfd5a2f38749ff4165f1ac65c6".to_string(),
                object_name: "src/cli/objects.rs".to_string(),
            },
            IndexEntry {
                ctime: utc("2026-03-09T14:58:12.214447200Z"),
                mtime: utc("2026-03-16T17:45:14.747938Z"),
                dev: 0,
                ino: 0,
                mode_type: IndexEntryType::File,
                mode_perms: IndexEntryPermissions::NonExecutable,
                uid: 0,
                gid: 0,
                fsize: 669,
                flag_assume_valid: false,
                flag_stage: 0,
                object_id: "be65c599de1fdabc46922b0a869a255ca82fdd80".to_string(),
                object_name: "src/cli/ref_log.rs".to_string(),
            },
        ],
    };
    let test_input = "src/cli/init.rs";

    let result = test_object.contains_path(test_input);

    assert!(!result);
}

#[test]
fn index_contains_path_prefix_false() {
    let test_object = Index {
        version: 2,
        entries: vec![
            IndexEntry {
                ctime: utc("2026-03-09T14:58:12.214447200Z"),
                mtime: utc("2026-03-16T17:49:17.855263200Z"),
                dev: 0,
                ino: 0,
                mode_type: IndexEntryType::File,
                mode_perms: IndexEntryPermissions::NonExecutable,
                uid: 0,
                gid: 0,
                fsize: 3507,
                flag_assume_valid: false,
                flag_stage: 0,
                object_id: "27326ea77300f6cfd5a2f38749ff4165f1ac65c6".to_string(),
                object_name: "src/cli/objects.rs".to_string(),
            },
            IndexEntry {
                ctime: utc("2026-03-09T14:58:12.214447200Z"),
                mtime: utc("2026-03-16T17:45:14.747938Z"),
                dev: 0,
                ino: 0,
                mode_type: IndexEntryType::File,
                mode_perms: IndexEntryPermissions::NonExecutable,
                uid: 0,
                gid: 0,
                fsize: 669,
                flag_assume_valid: false,
                flag_stage: 0,
                object_id: "be65c599de1fdabc46922b0a869a255ca82fdd80".to_string(),
                object_name: "src/cli/ref_log.rs".to_string(),
            },
        ],
    };
    let test_input = "src/cli/ob";

    let result = test_object.contains_path(test_input);

    assert!(!result);
}

#[test]
fn index_remove_entry_present() {
    let mut test_object = Index {
        version: 2,
        entries: vec![
            IndexEntry {
                ctime: utc("2026-03-09T14:58:12.214447200Z"),
                mtime: utc("2026-03-16T17:49:17.855263200Z"),
                dev: 0,
                ino: 0,
                mode_type: IndexEntryType::File,
                mode_perms: IndexEntryPermissions::NonExecutable,
                uid: 0,
                gid: 0,
                fsize: 3507,
                flag_assume_valid: false,
                flag_stage: 0,
                object_id: "27326ea77300f6cfd5a2f38749ff4165f1ac65c6".to_string(),
                object_name: "src/cli/objects.rs".to_string(),
            },
            IndexEntry {
                ctime: utc("2026-03-09T14:58:12.214447200Z"),
                mtime: utc("2026-03-16T17:45:14.747938Z"),
                dev: 0,
                ino: 0,
                mode_type: IndexEntryType::File,
                mode_perms: IndexEntryPermissions::NonExecutable,
                uid: 0,
                gid: 0,
                fsize: 669,
                flag_assume_valid: false,
                flag_stage: 0,
                object_id: "be65c599de1fdabc46922b0a869a255ca82fdd80".to_string(),
                object_name: "src/cli/ref_log.rs".to_string(),
            },
        ],
    };
    let test_input = "src/cli/objects.rs";
    let expected_outcome = Index {
        version: 2,
        entries: vec![IndexEntry {
            ctime: utc("2026-03-09T14:58:12.214447200Z"),
            mtime: utc("2026-03-16T17:45:14.747938Z"),
            dev: 0,
            ino: 0,
            mode_type: IndexEntryType::File,
            mode_perms: IndexEntryPermissions::NonExecutable,
            uid: 0,
            gid: 0,
            fsize: 669,
            flag_assume_valid: false,
            flag_stage: 0,
            object_id: "be65c599de1fdabc46922b0a869a255ca82fdd80".to_string(),
            object_name: "src/cli/ref_log.rs".to_string(),
        }],
    };

    let result = test_object.remove(test_input);

    assert!(result);
    assert_eq!(expected_outcome, test_object);
}

#[test]
fn index_remove_entry_not_present() {
    let mut test_object = Index {
        version: 2,
        entries: vec![
            IndexEntry {
                ctime: utc("2026-03-09T14:58:12.214447200Z"),
                mtime: utc("2026-03-16T17:49:17.855263200Z"),
                dev: 0,
                ino: 0,
                mode_type: IndexEntryType::File,
                mode_perms: IndexEntryPermissions::NonExecutable,
                uid: 0,
                gid: 0,
                fsize: 3507,
                flag_assume_valid: false,
                flag_stage: 0,
                object_id: "27326ea77300f6cfd5a2f38749ff4165f1ac65c6".to_string(),
                object_name: "src/cli/objects.rs".to_string(),
            },
            IndexEntry {
                ctime: utc("2026-03-09T14:58:12.214447200Z"),
                mtime: utc("2026-03-16T17:45:14.747938Z"),
                dev: 0,
                ino: 0,
                mode_type: IndexEntryType::File,
                mode_perms: IndexEntryPermissions::NonExecutable,
                uid: 0,
                gid: 0,
                fsize: 669,
                flag_assume_valid: false,
                flag_stage: 0,
                object_id: "be65c599de1fdabc46922b0a869a255ca82fdd80".to_string(),
                object_name: "src/cli/ref_log.rs".to_string(),
            },
        ],
    };
    let test_input = "src/not_an/entry.html";
    let expected_outcome = Index {
        version: 2,
        entries: vec![
            IndexEntry {
                ctime: utc("2026-03-09T14:58:12.214447200Z"),
                mtime: utc("2026-03-16T17:49:17.855263200Z"),
                dev: 0,
                ino: 0,
                mode_type: IndexEntryType::File,
                mode_perms: IndexEntryPermissions::NonExecutable,
                uid: 0,
                gid: 0,
                fsize: 3507,
                flag_assume_valid: false,
                flag_stage: 0,
                object_id: "27326ea77300f6cfd5a2f38749ff4165f1ac65c6".to_string(),
                object_name: "src/cli/objects.rs".to_string(),
            },
            IndexEntry {
                ctime: utc("2026-03-09T14:58:12.214447200Z"),
                mtime: utc("2026-03-16T17:45:14.747938Z"),
                dev: 0,
                ino: 0,
                mode_type: IndexEntryType::File,
                mode_perms: IndexEntryPermissions::NonExecutable,
                uid: 0,
                gid: 0,
                fsize: 669,
                flag_assume_valid: false,
                flag_stage: 0,
                object_id: "be65c599de1fdabc46922b0a869a255ca82fdd80".to_string(),
                object_name: "src/cli/ref_log.rs".to_string(),
            },
        ],
    };

    let test_result = test_object.remove(test_input);

    assert!(!test_result);
    assert_eq!(expected_outcome, test_object);
}

#[test]
fn index_add() {
    let mut test_object = Index {
        version: 2,
        entries: vec![
            IndexEntry {
                ctime: utc("2026-03-09T14:58:12.214447200Z"),
                mtime: utc("2026-03-16T17:49:17.855263200Z"),
                dev: 0,
                ino: 0,
                mode_type: IndexEntryType::File,
                mode_perms: IndexEntryPermissions::NonExecutable,
                uid: 0,
                gid: 0,
                fsize: 3507,
                flag_assume_valid: false,
                flag_stage: 0,
                object_id: "27326ea77300f6cfd5a2f38749ff4165f1ac65c6".to_string(),
                object_name: "src/cli/objects.rs".to_string(),
            },
            IndexEntry {
                ctime: utc("2026-03-09T14:58:12.214447200Z"),
                mtime: utc("2026-03-16T17:45:14.747938Z"),
                dev: 0,
                ino: 0,
                mode_type: IndexEntryType::File,
                mode_perms: IndexEntryPermissions::NonExecutable,
                uid: 0,
                gid: 0,
                fsize: 669,
                flag_assume_valid: false,
                flag_stage: 0,
                object_id: "be65c599de1fdabc46922b0a869a255ca82fdd80".to_string(),
                object_name: "src/cli/ref_log.rs".to_string(),
            },
        ],
    };
    let test_input = IndexEntry {
        ctime: utc("2026-03-09T14:58:12.214447200Z"),
        mtime: utc("2026-03-16T17:45:14.747938Z"),
        dev: 0,
        ino: 0,
        mode_type: IndexEntryType::File,
        mode_perms: IndexEntryPermissions::NonExecutable,
        uid: 0,
        gid: 0,
        fsize: 669,
        flag_assume_valid: false,
        flag_stage: 0,
        object_id: "be65c599de1fdabc46922b0a869a255ca82fdd80".to_string(),
        object_name: "src/cli/private.rs".to_string(),
    };
    let expected_outcome = vec![
        IndexEntry {
            ctime: utc("2026-03-09T14:58:12.214447200Z"),
            mtime: utc("2026-03-16T17:49:17.855263200Z"),
            dev: 0,
            ino: 0,
            mode_type: IndexEntryType::File,
            mode_perms: IndexEntryPermissions::NonExecutable,
            uid: 0,
            gid: 0,
            fsize: 3507,
            flag_assume_valid: false,
            flag_stage: 0,
            object_id: "27326ea77300f6cfd5a2f38749ff4165f1ac65c6".to_string(),
            object_name: "src/cli/objects.rs".to_string(),
        },
        IndexEntry {
            ctime: utc("2026-03-09T14:58:12.214447200Z"),
            mtime: utc("2026-03-16T17:45:14.747938Z"),
            dev: 0,
            ino: 0,
            mode_type: IndexEntryType::File,
            mode_perms: IndexEntryPermissions::NonExecutable,
            uid: 0,
            gid: 0,
            fsize: 669,
            flag_assume_valid: false,
            flag_stage: 0,
            object_id: "be65c599de1fdabc46922b0a869a255ca82fdd80".to_string(),
            object_name: "src/cli/private.rs".to_string(),
        },
        IndexEntry {
            ctime: utc("2026-03-09T14:58:12.214447200Z"),
            mtime: utc("2026-03-16T17:45:14.747938Z"),
            dev: 0,
            ino: 0,
            mode_type: IndexEntryType::File,
            mode_perms: IndexEntryPermissions::NonExecutable,
            uid: 0,
            gid: 0,
            fsize: 669,
            flag_assume_valid: false,
            flag_stage: 0,
            object_id: "be65c599de1fdabc46922b0a869a255ca82fdd80".to_string(),
            object_name: "src/cli/ref_log.rs".to_string(),
        },
    ];

    test_object.add(test_input);

    assert_eq!(expected_outcome, test_object.entries);
}

#[test]
fn index_add_range() {
    let mut test_object = Index {
        version: 2,
        entries: vec![
            IndexEntry {
                ctime: utc("2026-03-09T14:58:12.214447200Z"),
                mtime: utc("2026-03-16T17:49:17.855263200Z"),
                dev: 0,
                ino: 0,
                mode_type: IndexEntryType::File,
                mode_perms: IndexEntryPermissions::NonExecutable,
                uid: 0,
                gid: 0,
                fsize: 3507,
                flag_assume_valid: false,
                flag_stage: 0,
                object_id: "27326ea77300f6cfd5a2f38749ff4165f1ac65c6".to_string(),
                object_name: "src/cli/objects.rs".to_string(),
            },
            IndexEntry {
                ctime: utc("2026-03-09T14:58:12.214447200Z"),
                mtime: utc("2026-03-16T17:45:14.747938Z"),
                dev: 0,
                ino: 0,
                mode_type: IndexEntryType::File,
                mode_perms: IndexEntryPermissions::NonExecutable,
                uid: 0,
                gid: 0,
                fsize: 669,
                flag_assume_valid: false,
                flag_stage: 0,
                object_id: "be65c599de1fdabc46922b0a869a255ca82fdd80".to_string(),
                object_name: "src/cli/ref_log.rs".to_string(),
            },
        ],
    };
    let mut test_input = vec![
        IndexEntry {
            ctime: utc("2026-03-09T14:58:12.214447200Z"),
            mtime: utc("2026-03-16T17:45:14.747938Z"),
            dev: 0,
            ino: 0,
            mode_type: IndexEntryType::File,
            mode_perms: IndexEntryPermissions::NonExecutable,
            uid: 0,
            gid: 0,
            fsize: 669,
            flag_assume_valid: false,
            flag_stage: 0,
            object_id: "be65c599de1fdabc46922b0a869a255ca82fdd80".to_string(),
            object_name: "src/cli/private.rs".to_string(),
        },
        IndexEntry {
            ctime: utc("2026-03-09T14:58:12.214447200Z"),
            mtime: utc("2026-03-16T17:45:14.747938Z"),
            dev: 0,
            ino: 0,
            mode_type: IndexEntryType::File,
            mode_perms: IndexEntryPermissions::NonExecutable,
            uid: 0,
            gid: 0,
            fsize: 669,
            flag_assume_valid: false,
            flag_stage: 0,
            object_id: "be65c599de1fdabc46922b0a869a255ca82fdd80".to_string(),
            object_name: "src/annex.rs".to_string(),
        },
    ];
    let expected_outcome = vec![
        IndexEntry {
            ctime: utc("2026-03-09T14:58:12.214447200Z"),
            mtime: utc("2026-03-16T17:45:14.747938Z"),
            dev: 0,
            ino: 0,
            mode_type: IndexEntryType::File,
            mode_perms: IndexEntryPermissions::NonExecutable,
            uid: 0,
            gid: 0,
            fsize: 669,
            flag_assume_valid: false,
            flag_stage: 0,
            object_id: "be65c599de1fdabc46922b0a869a255ca82fdd80".to_string(),
            object_name: "src/annex.rs".to_string(),
        },
        IndexEntry {
            ctime: utc("2026-03-09T14:58:12.214447200Z"),
            mtime: utc("2026-03-16T17:49:17.855263200Z"),
            dev: 0,
            ino: 0,
            mode_type: IndexEntryType::File,
            mode_perms: IndexEntryPermissions::NonExecutable,
            uid: 0,
            gid: 0,
            fsize: 3507,
            flag_assume_valid: false,
            flag_stage: 0,
            object_id: "27326ea77300f6cfd5a2f38749ff4165f1ac65c6".to_string(),
            object_name: "src/cli/objects.rs".to_string(),
        },
        IndexEntry {
            ctime: utc("2026-03-09T14:58:12.214447200Z"),
            mtime: utc("2026-03-16T17:45:14.747938Z"),
            dev: 0,
            ino: 0,
            mode_type: IndexEntryType::File,
            mode_perms: IndexEntryPermissions::NonExecutable,
            uid: 0,
            gid: 0,
            fsize: 669,
            flag_assume_valid: false,
            flag_stage: 0,
            object_id: "be65c599de1fdabc46922b0a869a255ca82fdd80".to_string(),
            object_name: "src/cli/private.rs".to_string(),
        },
        IndexEntry {
            ctime: utc("2026-03-09T14:58:12.214447200Z"),
            mtime: utc("2026-03-16T17:45:14.747938Z"),
            dev: 0,
            ino: 0,
            mode_type: IndexEntryType::File,
            mode_perms: IndexEntryPermissions::NonExecutable,
            uid: 0,
            gid: 0,
            fsize: 669,
            flag_assume_valid: false,
            flag_stage: 0,
            object_id: "be65c599de1fdabc46922b0a869a255ca82fdd80".to_string(),
            object_name: "src/cli/ref_log.rs".to_string(),
        },
    ];

    test_object.add_range(&mut test_input);

    assert_eq!(expected_outcome, test_object.entries);
}
