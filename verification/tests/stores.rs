use std::io::Write;

use cvvc::objects::raw::RawObject;
use cvvc::objects::{Blob, ObjectKind};
use cvvc::repo::Repository;
use cvvc::stores::backends::ObjectStore;
use cvvc::stores::errors::InvalidRefNameError;
use cvvc::stores::packed_refs::{read_packed_refs, remove_packed_ref};
use cvvc::stores::packs::{load_pack, pack_file_name, PackError};
use cvvc::stores::tables::{ObjectTable, RefTable};
use cvvc::stores::{BranchLocation, BranchSpec, RefSpec, TagSpec};
use flate2::write::ZlibEncoder;
use flate2::Compression;
use sha1::{Digest, Sha1};

#[test]
fn branch_location_fmt_local() {
    let test_object = BranchLocation::Local;

    let test_output = test_object.to_string();

    assert_eq!("refs/heads", test_output);
}

#[test]
fn branch_location_fmt_remote() {
    let test_object = BranchLocation::Remote("example-origin".to_string());

    let test_output = test_object.to_string();

    assert_eq!("refs/remotes/example-origin", test_output);
}

#[test]
fn branch_location_from_str_succeeds_for_valid_local() {
    let test_input = "refs/heads/test-branch";

    let test_output = BranchLocation::from_str(test_input).unwrap();

    assert_eq!(BranchLocation::Local, test_output);
}

#[test]
fn branch_location_from_str_succeeds_for_valid_remote() {
    let test_input = "refs/remotes/test-remote/the/remote/branch";

    let test_output = BranchLocation::from_str(test_input).unwrap();

    assert_eq!(
        BranchLocation::Remote("test-remote".to_string()),
        test_output
    );
}

#[test]
fn branch_location_from_str_fails_for_partial_remote() {
    let test_input = "refs/remotes/";

    let test_output = BranchLocation::from_str(test_input).unwrap_err();

    assert_eq!(InvalidRefNameError::new(test_input), test_output);
}

#[test]
fn branch_location_from_str_fails_for_tags() {
    let test_input = "refs/tags/test-tag";

    let test_output = BranchLocation::from_str(test_input).unwrap_err();

    assert_eq!(InvalidRefNameError::new(test_input), test_output);
}

#[test]
fn branch_location_from_str_fails_for_refs_alone() {
    let test_input = "refs";

    let test_output = BranchLocation::from_str(test_input).unwrap_err();

    assert_eq!(InvalidRefNameError::new(test_input), test_output);
}

#[test]
fn branch_location_from_str_fails_for_nonsense() {
    let test_input = "zfymg";

    let test_output = BranchLocation::from_str(test_input).unwrap_err();

    assert_eq!(InvalidRefNameError::new(test_input), test_output);
}

#[test]
fn ref_spec_fmt_succeeds_for_tag() {
    let test_object = RefSpec::Tag(TagSpec {
        name: "example/tag".to_string(),
        peeled: false,
    });

    let test_output = test_object.to_string();

    assert_eq!("refs/tags/example/tag", test_output);
}

#[test]
fn ref_spec_fmt_succeeds_for_local_branch() {
    let test_object = RefSpec::Branch(BranchSpec {
        location: BranchLocation::Local,
        name: "test-branch".to_string(),
    });

    let test_output = test_object.to_string();

    assert_eq!("refs/heads/test-branch", test_output);
}

#[test]
fn ref_spec_fmt_succeeds_for_remote_branch() {
    let test_object = RefSpec::Branch(BranchSpec {
        location: BranchLocation::Remote("far".to_string()),
        name: "branch".to_string(),
    });

    let test_output = test_object.to_string();

    assert_eq!("refs/remotes/far/branch", test_output);
}

#[test]
fn ref_spec_from_str_succeeds_for_valid_tag() {
    let test_input = "refs/tags/a/valid/tag-name";

    let test_output = RefSpec::from_str(test_input).unwrap();

    assert_eq!(
        RefSpec::Tag(TagSpec {
            name: "a/valid/tag-name".to_string(),
            peeled: false
        }),
        test_output
    );
}

#[test]
fn ref_spec_from_str_succeeds_for_valid_local_branch() {
    let test_input = "refs/heads/the-branch";

    let test_output = RefSpec::from_str(test_input).unwrap();

    assert_eq!(
        RefSpec::Branch(BranchSpec {
            location: BranchLocation::Local,
            name: "the-branch".to_string()
        }),
        test_output
    );
}

#[test]
fn ref_spec_from_str_succeeds_for_valid_remote_branch() {
    let test_input = "refs/remotes/test-remote/the/branch";

    let test_output = RefSpec::from_str(test_input).unwrap();

    assert_eq!(
        RefSpec::Branch(BranchSpec {
            location: BranchLocation::Remote("test-remote".to_string()),
            name: "the/branch".to_string()
        }),
        test_output
    );
}

#[test]
fn ref_spec_from_str_fails_for_missing_tag_name() {
    let test_input = "refs/tags/";

    let test_output = RefSpec::from_str(test_input).unwrap_err();

    assert_eq!(InvalidRefNameError::new(test_input), test_output);
}

#[test]
fn ref_spec_from_str_fails_for_tag_name_starting_with_slash() {
    let test_input = "refs/tags//the-tag";

    let test_output = RefSpec::from_str(test_input).unwrap_err();

    assert_eq!(InvalidRefNameError::new(test_input), test_output);
}

#[test]
fn ref_spec_from_str_fails_for_tag_name_containing_double_slash() {
    let test_input = "refs/tags/the//tag";

    let test_output = RefSpec::from_str(test_input).unwrap_err();

    assert_eq!(InvalidRefNameError::new(test_input), test_output);
}

#[test]
fn ref_spec_from_str_fails_for_local_branch_with_no_branch_name() {
    let test_input = "refs/heads/";

    let test_output = RefSpec::from_str(test_input).unwrap_err();

    assert_eq!(InvalidRefNameError::new(test_input), test_output);
}

#[test]
fn ref_spec_from_str_fails_for_remote_branch_with_no_remote_name() {
    let test_input = "refs/remotes/";

    let test_output = RefSpec::from_str(test_input).unwrap_err();

    assert_eq!(InvalidRefNameError::new(test_input), test_output);
}

#[test]
fn ref_spec_from_str_fails_for_remote_branch_with_no_branch_name() {
    let test_input = "refs/remotes/the-remote/";

    let test_output = RefSpec::from_str(test_input).unwrap_err();

    assert_eq!(InvalidRefNameError::new(test_input), test_output);
}

#[test]
fn ref_spec_from_str_fails_for_refs_alone() {
    let test_input = "refs/";

    let test_output = RefSpec::from_str(test_input).unwrap_err();

    assert_eq!(InvalidRefNameError::new(test_input), test_output);
}

#[test]
fn ref_spec_from_str_fails_for_refs_something() {
    let test_input = "refs/anything-invalid";

    let test_output = RefSpec::from_str(test_input).unwrap_err();

    assert_eq!(InvalidRefNameError::new(test_input), test_output);
}

#[test]
fn ref_spec_from_str_fails_for_nonsense() {
    let test_input = "fejofejnmfvoweirtj";

    let test_output = RefSpec::from_str(test_input).unwrap_err();

    assert_eq!(InvalidRefNameError::new(test_input), test_output);
}

#[test]
fn branch_spec_new_succeeds_for_local() {
    let test_branch_name = "test-branch";

    let test_output = BranchSpec::new(test_branch_name, BranchLocation::Local);

    assert_eq!(test_output.name, test_branch_name);
    assert_eq!(BranchLocation::Local, test_output.location);
}

#[test]
fn branch_spec_new_succeeds_for_remote() {
    let test_remote_name = "the-remote";
    let test_branch_name = "test-branch";

    let test_output = BranchSpec::new(
        test_branch_name,
        BranchLocation::Remote(test_remote_name.to_string()),
    );

    assert_eq!(test_output.name, test_branch_name);
    assert_eq!(
        BranchLocation::Remote(test_remote_name.to_string()),
        test_output.location
    );
}

#[test]
fn branch_spec_into_ref_spec_succeeds() {
    let test_object = BranchSpec {
        name: "test-branch".to_string(),
        location: BranchLocation::Local,
    };

    let test_output = test_object.into_ref_spec();

    assert_eq!(
        RefSpec::Branch(BranchSpec {
            location: BranchLocation::Local,
            name: "test-branch".to_string()
        }),
        test_output
    );
}

#[test]
fn branch_spec_fmt_succeeds_for_local() {
    let test_object = BranchSpec {
        name: "test-branch".to_string(),
        location: BranchLocation::Local,
    };

    let test_output = test_object.to_string();

    assert_eq!("refs/heads/test-branch", test_output);
}

#[test]
fn branch_spec_fmt_succeeds_for_remote() {
    let test_object = BranchSpec {
        name: "the/branch".to_string(),
        location: BranchLocation::Remote("test-remote".to_string()),
    };

    let test_output = test_object.to_string();

    assert_eq!("refs/remotes/test-remote/the/branch", test_output);
}

#[test]
fn branch_spec_from_str_succeeds_for_valid_local() {
    let test_input = "refs/heads/some/branch/name";

    let test_output = BranchSpec::from_str(test_input).unwrap();

    assert_eq!(
        BranchSpec {
            location: BranchLocation::Local,
            name: "some/branch/name".to_string()
        },
        test_output
    );
}

#[test]
fn branch_spec_from_str_succeeds_for_valid_remote() {
    let test_input = "refs/remotes/some/branch/name";

    let test_output = BranchSpec::from_str(test_input).unwrap();

    assert_eq!(
        BranchSpec {
            location: BranchLocation::Remote("some".to_string()),
            name: "branch/name".to_string()
        },
        test_output
    );
}

#[test]
fn branch_spec_from_str_fails_for_missing_local_branch_name() {
    let test_input = "refs/heads/";

    let test_output = BranchSpec::from_str(test_input).unwrap_err();

    assert_eq!(InvalidRefNameError::new(test_input), test_output);
}

#[test]
fn branch_spec_from_str_fails_for_missing_remote_branch_name() {
    let test_input = "refs/remotes/server/";

    let test_output = BranchSpec::from_str(test_input).unwrap_err();

    assert_eq!(InvalidRefNameError::new(test_input), test_output);
}

#[test]
fn branch_spec_from_str_fails_for_missing_remote_server_name() {
    let test_input = "refs/remotes/";

    let test_output = BranchSpec::from_str(test_input).unwrap_err();

    assert_eq!(InvalidRefNameError::new(test_input), test_output);
}

#[test]
fn branch_spec_from_str_fails_for_valid_tag() {
    let test_input = "refs/tags/the-tag";

    let test_output = BranchSpec::from_str(test_input).unwrap_err();

    assert_eq!(InvalidRefNameError::new(test_input), test_output);
}

#[test]
fn branch_spec_from_str_fails_for_valid_local_branch_with_initial_slash() {
    let test_input = "/refs/heads/the-branch";

    let test_output = BranchSpec::from_str(test_input).unwrap_err();

    assert_eq!(InvalidRefNameError::new(test_input), test_output);
}

#[test]
fn branch_spec_from_str_fails_for_nonsense() {
    let test_input = "fmewiofjwpvita";

    let test_output = BranchSpec::from_str(test_input).unwrap_err();

    assert_eq!(InvalidRefNameError::new(test_input), test_output);
}

const HELLO_ID: &str = "ce013625030ba8dba906f756967f9e9ca394464a";

fn compressed(data: &[u8]) -> Vec<u8> {
    let mut encoder = ZlibEncoder::new(Vec::new(), Compression::default());
    encoder.write_all(data).unwrap();
    encoder.finish().unwrap()
}

fn pack_of(count: u8, entries: &[u8]) -> Vec<u8> {
    let mut pack = b"PACK\x00\x00\x00\x02\x00\x00\x00".to_vec();
    pack.push(count);
    pack.extend(entries);
    let digest = Sha1::digest(&pack).to_vec();
    pack.extend(digest);
    pack
}

// Copies the six bytes of its base and adds six more.
const DELTA: &[u8] = b"\x06\x0c\x90\x06\x06world\n";

fn hello_entry() -> Vec<u8> {
    let mut entry = vec![0x36];
    entry.extend(compressed(b"hello\n"));
    entry
}

#[test]
fn objects_of_a_pack_are_read() {
    let mut entries = hello_entry();
    let distance = entries.len() as u8;
    entries.extend([0x6b, distance]);
    entries.extend(compressed(DELTA));
    entries.push(0x7b);
    entries.extend(hex::decode(HELLO_ID).unwrap());
    entries.extend(compressed(b"\x06\x0c\x90\x06\x06again\n"));
    entries.extend([0xb0, 0x02]);
    entries.extend(compressed(&[b'x'; 32]));
    let pack = pack_of(4, &entries);
    let table = load_pack(&pack).ok().unwrap();
    for data in [&b"hello\n"[..], b"hello\nworld\n", b"hello\nagain\n", &[b'x'; 32]] {
        let whole = RawObject::from_git_object(&Blob::new_from_read(data.to_vec()));
        let read = table.read_raw_object_data(whole.object_id()).unwrap().unwrap();
        assert_eq!(read.data, data);
        assert_eq!(read.metadata.size, data.len());
        assert!(matches!(read.metadata.kind, ObjectKind::Blob));
    }
    assert!(table.has_object(HELLO_ID).unwrap());
    let digest = hex::encode(Sha1::digest(&pack[..pack.len() - 20]));
    assert_eq!(pack_file_name(&pack), format!("pack-{digest}.pack"));
    let mut repo = Repository {
        loose_object_store: ObjectTable::new(),
        packs: vec![],
        ref_store: RefTable::new(),
        head: None,
    };
    assert!(repo.read_raw_object(HELLO_ID).unwrap().is_none());
    repo.store_pack(&pack).unwrap();
    let raw = repo.read_raw_object(HELLO_ID).unwrap().unwrap();
    assert_eq!(raw.content_headerless(), b"hello\n");
    assert_eq!(repo.store_pack(b"PACK"), Err(PackError::NotAPack));
    assert_eq!(repo.packs.len(), 1);
}

#[test]
fn packs_that_are_not_valid() {
    let good = pack_of(1, &hello_entry());
    assert!(load_pack(&good).is_ok());
    let mut other = good.clone();
    other[0] = b'Q';
    assert_eq!(load_pack(&other).err(), Some(PackError::NotAPack));
    let mut other = good.clone();
    other[7] = 3;
    assert_eq!(load_pack(&other).err(), Some(PackError::Version));
    let mut other = good.clone();
    other[13] ^= 1;
    assert_eq!(load_pack(&other).err(), Some(PackError::Digest));
    assert_eq!(load_pack(&pack_of(1, &[0x56])).err(), Some(PackError::Entry));
    assert_eq!(load_pack(&pack_of(1, &[0xb6; 20])).err(), Some(PackError::Entry));
    assert_eq!(load_pack(&pack_of(2, &hello_entry())).err(), Some(PackError::Entry));
    assert_eq!(load_pack(&pack_of(1, b"\x36nothing")).err(), Some(PackError::Contents));
    let mut short = hello_entry();
    short[0] = 0x35;
    assert_eq!(load_pack(&pack_of(1, &short)).err(), Some(PackError::Contents));
    let mut long = hello_entry();
    long.push(0);
    assert_eq!(load_pack(&pack_of(1, &long)).err(), Some(PackError::TooLong));
    for distance in [1u8, 100] {
        let mut entries = hello_entry();
        entries.extend([0x6b, distance]);
        entries.extend(compressed(DELTA));
        assert_eq!(load_pack(&pack_of(2, &entries)).err(), Some(PackError::MissingBase));
    }
    let mut entries = hello_entry();
    let distance = entries.len() as u8;
    entries.extend([0x64, distance]);
    entries.extend(compressed(b"\x06\x09\x90\x09"));
    assert_eq!(load_pack(&pack_of(2, &entries)).err(), Some(PackError::BadDelta));
}

#[test]
fn packed_references_are_read_and_removed() {
    let text = "# pack-refs with: peeled fully-peeled sorted \n\
        1111111111111111111111111111111111111111 refs/heads/main\n\
        2222222222222222222222222222222222222222 refs/tags/v1\n\
        ^3333333333333333333333333333333333333333\n\
        4444444444444444444444444444444444444444 refs/stash\n\
        5555555555555555555555555555555555555555 refs/remotes/origin/main\n";
    let names = |text: &str| -> Vec<String> {
        read_packed_refs(text).iter().map(|r| r.spec.to_string()).collect()
    };
    assert_eq!(
        names(text),
        vec!["refs/heads/main", "refs/tags/v1", "refs/remotes/origin/main"]
    );
    assert_eq!(
        read_packed_refs(text)[0].target.to_string(),
        "1111111111111111111111111111111111111111"
    );
    let tag = RefSpec::from_str("refs/tags/v1").unwrap();
    let without = remove_packed_ref(text, &tag);
    assert_eq!(names(&without), vec!["refs/heads/main", "refs/remotes/origin/main"]);
    assert!(!without.contains('^') && without.contains("refs/stash") && without.ends_with('\n'));
    assert_eq!(remove_packed_ref(&without, &tag), without);
    assert!(names("").is_empty());
}
