use cvvc::helpers::{
    append_newline_if_necessary, escaped_byte_string, is_ref_name_legal, timestamp_from_parts,
    timestamp_from_timestamped_name, timestamp_start, timestamped_name, TimestampError,
};
use cvvc::helpers::fs::{
    get_platform_metadata, index_path_file, index_path_parent, path_translate, path_translate_rev,
    time_convert, UnixMetadata,
};
use cvvc::index::errors::InvalidIndexKind;
use cvvc::index::{Index, IndexEntry, IndexEntryPermissions, IndexEntryType};
use cvvc::moments::{moment_here, moment_in_utc, now, now_here, Timestamp};
use cvvc::objects::errors::{FindObjectError, ObjectError, TreeError};
use cvvc::objects::raw::{ObjectMetadata, RawObject};
use cvvc::objects::tree::{Tree, TreeNode};
use cvvc::objects::{
    stored_object_matches_kind, Blob, Commit, GitObject, ObjectKind, StoredObject,
};
use cvvc::ref_log::{RefLog, RefLogEntry};
use cvvc::stores::loose::{
    loose_object_path, read_loose_object, write_loose_object, LooseObjectError,
};
use cvvc::stores::{BranchSpec, RefSpec, RefTarget};

const HELLO: &str = "ce013625030ba8dba906f756967f9e9ca394464a";

#[test]
fn loose_object_is_read_as_it_was_written() {
    let raw = RawObject::from_git_object(&Blob::new_from_read(b"hello\n".to_vec()));
    let stored = write_loose_object(&raw);
    assert_ne!(stored, raw.content_with_header());
    let read = read_loose_object(&stored).ok().unwrap();
    assert_eq!(read.data, b"hello\n");
    assert_eq!(read.metadata, ObjectMetadata::new(ObjectKind::Blob, 6));
    assert_eq!(
        loose_object_path(HELLO),
        vec!["objects", "ce", "013625030ba8dba906f756967f9e9ca394464a"]
    );
}

#[test]
fn loose_objects_that_are_not_valid() {
    assert!(matches!(
        read_loose_object(b"not compressed"),
        Err(LooseObjectError::Corrupt)
    ));
    let odd = RawObject::from_headerless_data(
        b"hello",
        HELLO,
        ObjectMetadata::new(ObjectKind::Blob, 7),
    );
    assert!(matches!(
        read_loose_object(&write_loose_object(&odd)),
        Err(LooseObjectError::Invalid(ObjectError::LengthMismatch))
    ));
}

#[test]
fn kinds_are_compared() {
    let blob = StoredObject::Blob(Blob::new_from_read(vec![]));
    assert!(stored_object_matches_kind(&ObjectKind::Blob, &blob));
    assert!(!stored_object_matches_kind(&ObjectKind::Tree, &blob));
    assert!(!stored_object_matches_kind(
        &ObjectKind::Delta(HELLO.to_string()),
        &blob
    ));
}

#[test]
fn messages_of_find_errors() {
    assert!(FindObjectError::none().candidates.is_none());
    let e = FindObjectError::some(&[HELLO.to_string()]);
    assert_eq!(e.candidates.unwrap(), vec![HELLO]);
}

#[test]
fn trees_are_sorted_like_directories() {
    let mut tree = Tree::new();
    let mut nodes = vec![
        TreeNode::from_subtree("a", HELLO),
        TreeNode {
            mode: 0o100644,
            name: "a.b".to_string(),
            object_id: HELLO.to_string(),
        },
        TreeNode {
            mode: 0o100644,
            name: "a".to_string(),
            object_id: HELLO.to_string(),
        },
    ];
    tree.add_entries(&mut nodes);
    assert!(nodes.is_empty());
    let names: Vec<(&str, u32)> = tree.entries().iter().map(|n| (n.name(), n.mode)).collect();
    assert_eq!(names, vec![("a", 0o100644), ("a.b", 0o100644), ("a", 0o40000)]);
    let mut data = vec![];
    tree.serialise(&mut data);
    let read = Tree::deserialise(&data).unwrap();
    assert_eq!(read.entries(), tree.entries());
}

#[test]
fn tree_entries_that_are_not_valid() {
    for (data, error) in [
        (&b"100644"[..], TreeError::NoModeEnd),
        (&b"1 a\0"[..], TreeError::ModeLength),
        (&b"\xff0000 a\0"[..], TreeError::ModeNotUtf8),
        (&b"100849 a\0"[..], TreeError::ModeNotOctal),
        (&b"100644 a"[..], TreeError::NoPathEnd),
        (&b"100644 a\0short"[..], TreeError::TooShort),
        (&b"100644 \xff\0aaaaaaaaaaaaaaaaaaaa"[..], TreeError::PathNotUtf8),
    ] {
        assert_eq!(Tree::deserialise(data).unwrap_err(), ObjectError::Tree(error));
    }
}

#[test]
fn object_headers_that_are_not_valid() {
    for (data, error) in [
        (&b"blob"[..], ObjectError::NoTypeEnd),
        (&b"blob 5"[..], ObjectError::NoLengthEnd),
        (&b"blub 0\0"[..], ObjectError::UnknownType),
        (&b"blob x\0"[..], ObjectError::BadLength),
        (&b"blob \xff\0"[..], ObjectError::BadLength),
        (&b"blob 1\0"[..], ObjectError::LengthMismatch),
    ] {
        assert_eq!(ObjectMetadata::try_from(data).unwrap_err(), error);
        assert!(!error.message().is_empty());
    }
}

#[test]
fn commits_with_text_that_is_not_valid() {
    assert_eq!(
        Commit::deserialise(b"tree \xff\n\nmessage\n").unwrap_err(),
        ObjectError::NotUtf8
    );
    assert!(!Commit::can_read(b""));
    assert!(!Commit::can_read(b"tree x\n"));
    assert!(Commit::can_read(b"tree x"));
    let c = Commit::deserialise(b"author x\n\nmessage\n").unwrap();
    assert!(c.tree().is_err());
}

#[test]
fn moments_in_names() {
    let t = Timestamp::new(1779135182, 0, -5400).unwrap();
    let text = timestamped_name("A <a@x>", &t);
    assert_eq!(text, "A <a@x> 1779135182 -0130");
    let read = timestamp_from_timestamped_name(&text).unwrap();
    assert_eq!((read.timestamp(), read.offset()), (1779135182, -5400));
    assert_eq!(timestamp_start(&text).unwrap(), " 1779135182 -0130");
    assert_eq!(
        timestamp_from_timestamped_name("name").unwrap_err(),
        TimestampError::NoSpaces
    );
    assert_eq!(
        timestamp_from_timestamped_name("a name").unwrap_err(),
        TimestampError::OneSpace
    );
    assert_eq!(
        timestamp_from_timestamped_name("a long name").unwrap_err(),
        TimestampError::Unparseable
    );
    assert!(timestamp_from_parts(None).is_err());
    assert_eq!(timestamp_from_parts(Some((5, 60))).unwrap().timestamp(), 5);
}

#[test]
fn moments_have_valid_parts() {
    assert!(Timestamp::new(0, 0, 86_400).is_none());
    assert!(Timestamp::new(0, 1_000_000_000, 0).is_none());
    assert!(Timestamp::new(i64::MAX, 0, 0).is_none());
    let t = moment_here(5, 6, 3600);
    assert_eq!((t.timestamp(), t.timestamp_subsec_nanos(), t.offset()), (5, 6, 3600));
    let t = moment_in_utc(5, 6, 3600);
    assert_eq!((t.timestamp(), t.timestamp_subsec_nanos(), t.offset()), (5, 6, 0));
    assert_eq!(now().offset(), 0);
    assert!(now_here().timestamp() > 1_700_000_000);
    assert_eq!(time_convert(5, -1).timestamp_subsec_nanos(), 0);
    assert_eq!(time_convert(i64::MAX, 7).timestamp(), 0);
}

#[test]
fn metadata_of_files() {
    let mut unix = UnixMetadata {
        ctime: 5,
        ctime_nsec: 6,
        mtime: 7,
        mtime_nsec: 8,
        is_symlink: false,
        mode: 0o100755,
        dev: 0x1_0000_0000,
        ino: 9,
        uid: 10,
        gid: 11,
        size: 0x1_0000_0000,
    };
    let m = get_platform_metadata(&unix);
    assert_eq!((m.ctime.timestamp(), m.ctime.timestamp_subsec_nanos()), (5, 6));
    assert_eq!((m.dev, m.ino, m.fsize), (u32::MAX, 9, u32::MAX));
    assert_eq!(m.mode_perms, IndexEntryPermissions::Executable);
    unix.is_symlink = true;
    let m = get_platform_metadata(&unix);
    assert_eq!(m.mode_type, IndexEntryType::Symlink);
    assert_eq!(m.mode_perms, IndexEntryPermissions::Link);
}

#[test]
fn paths_are_taken_apart_and_put_together() {
    assert_eq!(path_translate(&["a".to_string(), "b".to_string()]), "a/b");
    assert_eq!(path_translate_rev("a/b"), vec!["a", "b"]);
    assert_eq!(index_path_parent("a/b/c"), "a/b");
    assert_eq!(index_path_file("a/b/c"), "c");
    assert_eq!((index_path_parent("a"), index_path_file("a")), ("", "a"));
}

#[test]
fn small_helpers() {
    assert_eq!(append_newline_if_necessary("a"), "a\n");
    assert_eq!(append_newline_if_necessary("a\n"), "a\n");
    assert_eq!(escaped_byte_string(b"a\xff"), "a\\ff");
    assert!(is_ref_name_legal("a/b") && !is_ref_name_legal("a..b"));
}

#[test]
fn index_is_read_as_it_was_written() {
    let m = get_platform_metadata(&UnixMetadata {
        ctime: 5,
        ctime_nsec: 6,
        mtime: 7,
        mtime_nsec: 8,
        is_symlink: false,
        mode: 0o100644,
        dev: 1,
        ino: 2,
        uid: 3,
        gid: 4,
        size: 6,
    });
    let mut index = Index::new();
    for name in ["b", "a/file", "exactly_a_multiple_of_8_w"] {
        index.add(IndexEntry::from_metadata(&m, HELLO.to_string(), name.to_string()));
    }
    let mut data = vec![];
    index.serialise(&mut data);
    assert_eq!(
        Index::from_bytes(&data).unwrap_err().error_kind,
        InvalidIndexKind::TooShort
    );
    let file = index.file_bytes();
    assert_eq!(file[..data.len()], data);
    assert_eq!(file.len(), data.len() + 20);
    let mut empty = Index::new().file_bytes();
    assert_eq!(
        empty.split_off(12),
        [
            0x39, 0xd8, 0x90, 0x13, 0x9e, 0xe5, 0x35, 0x6c, 0x7e, 0xf5, 0x72, 0x21, 0x6c, 0xeb,
            0xcd, 0x27, 0xaa, 0x41, 0xf9, 0xdf
        ]
    );
    let data = file;
    let read = Index::from_bytes(&data).unwrap();
    let names: Vec<&str> = read.entries().iter().map(|e| e.object_name.as_str()).collect();
    assert_eq!(names, vec!["a/file", "b", "exactly_a_multiple_of_8_w"]);
    assert_eq!(read.entries()[0].object_id, HELLO);
    assert_eq!(read.entries()[0].mtime.timestamp_subsec_nanos(), 8);
    for e in read.entries() {
        let mut bytes = vec![];
        e.serialise(&mut bytes);
        assert_eq!(bytes.len(), e.byte_length());
    }
}

#[test]
fn index_loses_what_is_not_listed() {
    let m = get_platform_metadata(&UnixMetadata {
        ctime: 0,
        ctime_nsec: 0,
        mtime: 0,
        mtime_nsec: 0,
        is_symlink: false,
        mode: 0,
        dev: 0,
        ino: 0,
        uid: 0,
        gid: 0,
        size: 0,
    });
    let mut index = Index::new();
    index.add(IndexEntry::from_metadata(&m, "1".repeat(40), "a".to_string()));
    index.add(IndexEntry::from_metadata(&m, "2".repeat(40), "b".to_string()));
    index.remove_not_present(&["2".repeat(40)]);
    assert_eq!(index.entries().len(), 1);
    assert!(index.contains_path("b"));
    assert!(index.remove("b"));
    assert!(!index.remove("b"));
}

#[test]
fn ref_log_entry_is_read_as_it_was_written() {
    let old = "1".repeat(40);
    let e = RefLogEntry::new(Some(&old), HELLO, "A <a@x> 5 +0000", "a\tmessage");
    let line = e.to_string();
    assert_eq!(line, format!("{old} {HELLO} A <a@x> 5 +0000\ta\tmessage"));
    let read = RefLogEntry::from_str(&line).unwrap();
    assert_eq!(read.old_object_id, Some(old));
    assert_eq!(read.new_object_id, HELLO);
    assert_eq!(read.committer, "A <a@x> 5 +0000");
    assert_eq!(read.message, "a\tmessage");
    let line = RefLogEntry::new(None, HELLO, "A", "m").to_string();
    let read = RefLogEntry::from_str(&line).unwrap();
    assert!(read.old_object_id.is_none());
    let read = RefLogEntry::from_str(&format!("{HELLO} {HELLO} A")).unwrap();
    assert_eq!(read.message, "");
}

#[test]
fn ref_log_entries_that_are_not_valid() {
    for text in [
        String::new(),
        format!("{HELLO} {HELLO} "),
        format!("{HELLO}_{HELLO} A"),
        format!("{HELLO} {}g A", &HELLO[1..]),
    ] {
        assert_eq!(
            RefLogEntry::from_str(&text).unwrap_err(),
            "mangled ref log entry"
        );
    }
}

#[test]
fn files_of_ref_logs() {
    let log = RefLog::new(".git/logs");
    let e = RefLogEntry::new(None, HELLO, "A", "m");
    let appends = log.write(&e, Some("main"));
    assert_eq!(appends.len(), 2);
    assert_eq!(appends[0].path, vec!["refs", "heads", "main"]);
    assert_eq!(appends[1].path, vec!["HEAD"]);
    assert_eq!(appends[0].line, format!("{}\n", e.to_string()));
    assert_eq!(log.write(&e, None).len(), 1);
    assert_eq!(log.check_exists("HEAD"), vec!["HEAD"]);
    assert_eq!(log.check_exists("x"), vec!["refs", "heads", "x"]);
    assert_eq!(
        log.list_ref_logs(&[
            vec!["refs".to_string(), "heads".to_string(), "main".to_string()],
            vec!["HEAD".to_string()],
        ]),
        vec!["HEAD", "refs/heads/main"]
    );
}

#[test]
fn targets_are_read_as_they_were_written() {
    for t in [
        RefTarget::Object(HELLO.to_string()),
        RefTarget::SymbolicRef(BranchSpec::local("main").into_ref_spec()),
        RefTarget::SymbolicRef(RefSpec::Head),
    ] {
        let read = RefTarget::from_str(&t.to_string()).unwrap();
        assert!(read.same_target(&t));
    }
    assert!(RefTarget::from_str("ref: nonsense").is_err());
}
