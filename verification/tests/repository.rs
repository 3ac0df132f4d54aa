use cvvc::config::{following_branch, repository_version, version_of_values, VersionError};
use cvvc::helpers::fs::FileMetadata;
use cvvc::index::{Index, IndexEntry, IndexEntryPermissions, IndexEntryType};
use cvvc::moments::Timestamp;
use cvvc::objects::raw::{ObjectMetadata, RawObject};
use cvvc::objects::{Blob, Commit, ObjectKind, StoredObject, Tag};
use cvvc::repo::checkout::{update_index, CheckoutError, CheckoutItem};
use cvvc::repo::model::Fault;
use cvvc::repo::worktree::{
    canon_path, check_repository, check_repository_files, directories_of_new_repository, files_of_new_repository, git_file,
    ref_log_appends, remove_path_from_index, worktree_path, AddError, FileError, Found, OpenError,
    Resolved,
};
use cvvc::repo::{is_partial_object_id, RepoError, Repository};
use cvvc::stores::backends::{ObjectStore, RefStore};
use cvvc::stores::tables::{ObjectTable, RefTable};
use cvvc::stores::{BranchLocation, BranchSpec, RefSpec, RefTarget, TagSpec};

type Repo = Repository<ObjectTable, ObjectTable, RefTable>;

const HELLO: &str = "ce013625030ba8dba906f756967f9e9ca394464a";
const WORLD: &str = "cc628ccd10742baea8241c5924df992b5c019f71";
const WORLD_LOST: &str = "1111111111111111111111111111111111111111";
const SUB: &str = "721eea743f274b162a059c0032155c36a62cd740";
const ROOT: &str = "09de6ed5e00d06a6bf1ed0918415988a27e43ac0";

fn repo(head: Option<&str>) -> Repo {
    Repository {
        loose_object_store: ObjectTable::new(),
        packs: vec![],
        ref_store: RefTable::new(),
        head: head.map(String::from),
    }
}

fn moment(secs: i64) -> Timestamp {
    Timestamp::new(secs, 0, 3600).unwrap()
}

fn entry(name: &str, id: &str) -> IndexEntry {
    let metadata = FileMetadata {
        ctime: Timestamp::unix_epoch(),
        mtime: Timestamp::unix_epoch(),
        dev: 1,
        ino: 2,
        mode_type: IndexEntryType::File,
        mode_perms: IndexEntryPermissions::NonExecutable,
        uid: 3,
        gid: 4,
        fsize: 6,
    };
    IndexEntry::from_metadata(&metadata, id.to_string(), name.to_string())
}

fn two_files() -> Index {
    let mut index = Index::new();
    index.add(entry("dir/b.txt", WORLD));
    index.add(entry("a.txt", HELLO));
    index
}

fn with_two_files(head: Option<&str>) -> Repo {
    let mut repo = repo(head);
    repo.write_object(&Blob::new_from_read(b"hello\n".to_vec())).unwrap();
    repo.write_object(&Blob::new_from_read(b"world\n".to_vec())).unwrap();
    assert_eq!(repo.store_index(&two_files()).unwrap(), ROOT);
    repo
}

fn commit(repo: &mut Repo, parent: Option<&str>, secs: i64, message: &str) -> String {
    repo.create_commit_for_tree(ROOT, parent, message, "A <a@x>", "C <c@x>", &moment(secs))
        .unwrap()
}

fn path(text: &str) -> Vec<String> {
    text.split('/').map(String::from).collect()
}

#[test]
fn partial_object_ids() {
    assert!(is_partial_object_id("ce01"));
    assert!(is_partial_object_id(HELLO));
    assert!(!is_partial_object_id("ce0"));
    assert!(!is_partial_object_id("CE01"));
    assert!(!is_partial_object_id("ce01g"));
    assert!(!is_partial_object_id(&format!("{HELLO}0")));
}

#[test]
fn written_blob_is_read() {
    let mut repo = repo(None);
    let id = repo.write_object(&Blob::new_from_read(b"hello\n".to_vec())).unwrap();
    assert_eq!(id, HELLO);
    assert!(repo.has_object(HELLO).unwrap());
    assert!(!repo.has_object(WORLD).unwrap());
    let StoredObject::Blob(blob) = repo.read_object(HELLO).unwrap().unwrap() else {
        panic!();
    };
    assert_eq!(blob.data(), b"hello\n");
    assert!(repo.read_object(WORLD).unwrap().is_none());
}

#[test]
fn second_object_with_the_same_id_is_not_stored() {
    let mut repo = repo(None);
    repo.write_object(&Blob::new_from_read(b"hello\n".to_vec())).unwrap();
    let other = RawObject::from_headerless_data(
        b"other",
        HELLO,
        ObjectMetadata::new(ObjectKind::Blob, 5),
    );
    repo.write_raw_object(&other).unwrap();
    let raw = repo.read_raw_object(HELLO).unwrap().unwrap();
    assert_eq!(raw.content_headerless(), b"hello\n");
}

#[test]
fn changes_are_applied_to_their_base() {
    let mut repo = repo(None);
    let mut pack = ObjectTable::new();
    pack.write_raw_object(&RawObject::from_headerless_data(
        b"Biscuits",
        "8216d33b7e88ed6bf2cb4eea14b3020f54325484",
        ObjectMetadata::new(ObjectKind::Blob, 8),
    ))
    .unwrap();
    pack.write_raw_object(&RawObject::from_headerless_data(
        &[8u8, 7, 0x91, 3, 4, 2, 98, 97, 0x91, 6, 2],
        "1111111111111111111111111111111111111111",
        ObjectMetadata::new(
            ObjectKind::Delta("8216d33b7e88ed6bf2cb4eea14b3020f54325484".to_string()),
            8,
        ),
    ))
    .unwrap();
    repo.packs.push(pack);
    let raw = repo
        .read_raw_object("1111111111111111111111111111111111111111")
        .unwrap()
        .unwrap();
    assert_eq!(raw.content_headerless(), b"cuitbats");
    assert_eq!(raw.metadata().kind, ObjectKind::Blob);
}

#[test]
fn changes_without_their_base_are_an_error() {
    let mut repo = repo(None);
    repo.write_raw_object(&RawObject::from_headerless_data(
        &[8u8, 7, 0x91, 3, 4],
        "1111111111111111111111111111111111111111",
        ObjectMetadata::new(ObjectKind::Delta(HELLO.to_string()), 8),
    ))
    .unwrap();
    let e = repo
        .read_raw_object("1111111111111111111111111111111111111111")
        .unwrap_err();
    assert!(matches!(e, RepoError::Fault(Fault::MissingBase)));
}

#[test]
fn changes_that_do_not_apply_are_an_error() {
    let mut repo = repo(None);
    repo.write_object(&Blob::new_from_read(b"hello\n".to_vec())).unwrap();
    repo.write_raw_object(&RawObject::from_headerless_data(
        &[6u8, 7, 0x91, 3, 100],
        "1111111111111111111111111111111111111111",
        ObjectMetadata::new(ObjectKind::Delta(HELLO.to_string()), 8),
    ))
    .unwrap();
    let e = repo
        .read_raw_object("1111111111111111111111111111111111111111")
        .unwrap_err();
    assert!(matches!(e, RepoError::Fault(Fault::BadDelta)));
}

#[test]
fn object_is_found_by_the_start_of_its_id() {
    let repo = with_two_files(None);
    assert_eq!(repo.find_object("ce01", None, true).unwrap(), HELLO);
    assert_eq!(repo.find_object(" ce0136 ", None, true).unwrap(), HELLO);
    assert_eq!(
        repo.find_object("ce01", Some(ObjectKind::Blob), false).unwrap(),
        HELLO
    );
}

#[test]
fn object_of_another_kind_is_not_found() {
    let repo = with_two_files(None);
    for follow in [true, false] {
        let e = repo
            .find_object("ce01", Some(ObjectKind::Commit), follow)
            .unwrap_err();
        let RepoError::Find(e) = e else { panic!() };
        assert!(e.candidates.is_none());
    }
}

#[test]
fn unknown_names_are_not_found() {
    let repo = with_two_files(None);
    for name in ["", "  ", "ffff", "no-such-branch", "HEAD"] {
        let RepoError::Find(e) = repo.find_object(name, None, true).unwrap_err() else {
            panic!()
        };
        assert!(e.candidates.is_none());
    }
}

#[test]
fn ambiguous_names_list_their_candidates() {
    let mut repo = repo(None);
    for id in [
        "aaaa000000000000000000000000000000000001",
        "aaaa000000000000000000000000000000000002",
    ] {
        repo.write_raw_object(&RawObject::from_headerless_data(
            b"",
            id,
            ObjectMetadata::new(ObjectKind::Blob, 0),
        ))
        .unwrap();
    }
    let RepoError::Find(e) = repo.find_object("aaaa", None, true).unwrap_err() else {
        panic!()
    };
    let mut candidates = e.candidates.unwrap();
    candidates.sort();
    assert_eq!(
        candidates,
        vec![
            "aaaa000000000000000000000000000000000001",
            "aaaa000000000000000000000000000000000002"
        ]
    );
}

#[test]
fn local_branch_counts_for_more_than_those_of_remotes() {
    let mut repo = repo(None);
    repo.update_ref(
        &BranchSpec::new("main", BranchLocation::Remote("origin".to_string())).into_ref_spec(),
        &RefTarget::Object(WORLD.to_string()),
    )
    .unwrap();
    assert_eq!(repo.find_object("main", None, true).unwrap(), WORLD);
    repo.update_local_branch("main", HELLO).unwrap();
    assert_eq!(repo.find_object("main", None, true).unwrap(), HELLO);
}

#[test]
fn tag_and_commit_lead_to_a_tree() {
    let mut repo = with_two_files(None);
    let commit_id = commit(&mut repo, None, 1000, "first");
    let tag = Tag::new(&commit_id, "v1", Some("message\n"), "A <a@x>", &moment(5));
    let tag_id = repo.write_object(&tag).unwrap();
    repo.create_ref("refs/tags/v1", &tag_id).unwrap();
    assert_eq!(repo.find_object("v1", None, true).unwrap(), commit_id);
    assert_eq!(repo.find_object("v1", None, false).unwrap(), tag_id);
    let outer = Tag::new(&tag_id, "v2", None, "A <a@x>", &moment(5));
    let outer_id = repo.write_object(&outer).unwrap();
    assert_eq!(repo.find_object(&outer_id, None, true).unwrap(), commit_id);
    let lost = Tag::new(WORLD_LOST, "v3", None, "A <a@x>", &moment(5));
    let lost_id = repo.write_object(&lost).unwrap();
    assert_eq!(repo.find_object(&lost_id, None, true).unwrap(), WORLD_LOST);
    assert_eq!(repo.checkout_target("v1").unwrap().target_id, commit_id);
    assert_eq!(
        repo.find_object("v1", Some(ObjectKind::Commit), true).unwrap(),
        commit_id
    );
    assert_eq!(
        repo.find_object("v1", Some(ObjectKind::Tree), true).unwrap(),
        ROOT
    );
    assert!(repo.find_object("v1", Some(ObjectKind::Tree), false).is_err());
    assert!(repo.find_object("v1", Some(ObjectKind::Blob), true).is_err());
}

#[test]
fn commit_has_the_known_id_and_is_read() {
    let mut repo = with_two_files(None);
    let id = commit(&mut repo, None, 1000, "  first \n");
    assert_eq!(id, "be95e2af4a9d5d42633709c0dfca3b372608d523");
    let StoredObject::Commit(c) = repo.read_object(&id).unwrap().unwrap() else {
        panic!()
    };
    assert_eq!(c.tree().unwrap(), ROOT);
    assert!(c.parents().is_empty());
    assert_eq!(c.message, "first\n");
    assert_eq!(c.timestamp().unwrap().timestamp(), 1000);
    assert_eq!(c.timestamp().unwrap().offset(), 3600);
}

#[test]
fn stored_index_is_read_as_files() {
    let mut repo = with_two_files(Some("ref: refs/heads/main\n"));
    let id = commit(&mut repo, None, 1000, "first");
    repo.update_local_branch("main", &id).unwrap();
    let files = repo.flatten_head_tree().unwrap();
    assert_eq!(files.items.len(), 2);
    assert_eq!(files.get("a.txt"), Some(HELLO));
    assert_eq!(files.get("dir/b.txt"), Some(WORLD));
    assert_eq!(files.get("b.txt"), None);
    let StoredObject::Tree(tree) = repo.read_object(ROOT).unwrap().unwrap() else {
        panic!()
    };
    assert_eq!(tree.entries()[1].name(), "dir");
    assert_eq!(tree.entries()[1].object_id, SUB);
}

#[test]
fn index_without_entries_has_no_tree() {
    let mut repo = repo(None);
    assert_eq!(repo.store_index(&Index::new()).unwrap(), "");
    assert!(repo.loose_object_store.items.is_empty());
}

#[test]
fn tree_with_a_missing_directory_is_not_listed() {
    let mut repo = repo(None);
    let mut tree = cvvc::objects::tree::Tree::new();
    tree.add_entries(&mut vec![cvvc::objects::tree::TreeNode::from_subtree("dir", SUB)]);
    let id = repo.write_object(&tree).unwrap();
    let commit = Commit::new(&id, None, "A <a@x>", "A <a@x>", &moment(1), "m");
    let id = repo.write_object(&commit).unwrap();
    repo.head = Some(format!("{id}\n"));
    assert!(repo.flatten_head_tree().is_err());
}

#[test]
fn checkout_lists_directories_and_files() {
    let mut repo = with_two_files(None);
    let id = commit(&mut repo, None, 1000, "first");
    let target = repo.checkout_target(&id).unwrap();
    assert_eq!(target.target_id, id);
    let items = target.tree.checkout(&repo).unwrap();
    assert_eq!(items.len(), 3);
    let CheckoutItem::File(p, data, object_id) = &items[0] else { panic!() };
    assert_eq!((p.as_str(), data.as_slice(), object_id.as_str()), ("a.txt", &b"hello\n"[..], HELLO));
    let CheckoutItem::Directory(p) = &items[1] else { panic!() };
    assert_eq!(p, "dir");
    let CheckoutItem::File(p, data, _) = &items[2] else { panic!() };
    assert_eq!((p.as_str(), data.as_slice()), ("dir/b.txt", &b"world\n"[..]));
}

#[test]
fn only_commits_with_trees_are_checked_out() {
    let mut repo = with_two_files(None);
    assert!(matches!(
        repo.checkout_target(HELLO).unwrap_err(),
        CheckoutError::NotACommit(id) if id == HELLO
    ));
    let other = Commit::new(HELLO, None, "A <a@x>", "A <a@x>", &moment(1), "m");
    let id = repo.write_object(&other).unwrap();
    assert!(matches!(
        repo.checkout_target(&id).unwrap_err(),
        CheckoutError::NotATree(_)
    ));
    let missing = Commit::new(
        "1111111111111111111111111111111111111111",
        None,
        "A <a@x>",
        "A <a@x>",
        &moment(1),
        "m",
    );
    let id = repo.write_object(&missing).unwrap();
    assert!(matches!(
        repo.checkout_target(&id).unwrap_err(),
        CheckoutError::MissingTree(_)
    ));
    repo.create_ref(
        "refs/tags/gone",
        "2222222222222222222222222222222222222222",
    )
    .unwrap();
    assert!(matches!(
        repo.checkout_target("gone").unwrap_err(),
        CheckoutError::ObjectNotFound(name) if name == "gone"
    ));
    assert!(matches!(
        repo.checkout_target("nothing").unwrap_err(),
        CheckoutError::Repo(RepoError::Find(_))
    ));
}

#[test]
fn commits_of_another_repository_are_not_checked_out() {
    let mut repo = with_two_files(None);
    let id = commit(&mut repo, None, 1, "m");
    let mut tree = cvvc::objects::tree::Tree::new();
    tree.add_entries(&mut vec![cvvc::objects::tree::TreeNode::from_subtree("sub", &id)]);
    assert!(matches!(
        tree.checkout(&repo).unwrap_err(),
        CheckoutError::Submodule(x) if x == id
    ));
    let mut tree = cvvc::objects::tree::Tree::new();
    tree.add_entries(&mut vec![cvvc::objects::tree::TreeNode::from_subtree(
        "sub",
        "3333333333333333333333333333333333333333",
    )]);
    assert!(matches!(
        tree.checkout(&repo).unwrap_err(),
        CheckoutError::ObjectNotFound(_)
    ));
}

// first <- left  <- merge
//       <- right <-
fn history(repo: &mut Repo) -> (String, String, String, String) {
    let first = commit(repo, None, 1000, "first");
    let left = commit(repo, Some(&first), 2000, "left");
    let right = commit(repo, Some(&first), 3000, "right");
    let mut data = format!("tree {ROOT}\nparent {left}\nparent {right}\n").into_bytes();
    data.extend(b"author A <a@x> 4000 +0100\ncommitter C <c@x> 4000 +0100\n\nmerge\n");
    let size = data.len();
    let raw = RawObject::try_from(cvvc::objects::raw::RawObjectData::new(
        &data,
        ObjectMetadata::new(ObjectKind::Commit, size),
    ))
    .unwrap();
    let merge = repo.write_raw_object(&raw).unwrap();
    (first, left, right, merge)
}

#[test]
fn each_commit_comes_once() {
    let mut repo = with_two_files(None);
    let (first, left, right, merge) = history(&mut repo);
    let all = repo.commits(Some(&merge)).unwrap().all();
    assert_eq!(all, vec![merge.clone(), left.clone(), right.clone(), first.clone()]);
    let mut walk = repo.commits(Some(&left)).unwrap();
    assert_eq!(walk.queue_length(), 1);
    assert_eq!(walk.next().unwrap().unwrap(), left);
    assert_eq!(walk.next().unwrap().unwrap(), first);
    assert!(walk.next().is_none());
}

#[test]
fn walk_from_references_starts_with_the_newest() {
    let mut repo = with_two_files(None);
    let (first, left, right, _) = history(&mut repo);
    repo.update_local_branch("a", &left).unwrap();
    repo.update_local_branch("b", &right).unwrap();
    repo.create_ref("refs/tags/x", HELLO).unwrap();
    let walk = repo.commits(None).unwrap();
    assert_eq!(walk.queue_length(), 2);
    assert_eq!(walk.all(), vec![right, left, first]);
}

#[test]
fn walk_comes_to_commits_that_are_missing() {
    let mut repo = with_two_files(None);
    let id = commit(&mut repo, Some("1111111111111111111111111111111111111111"), 1, "m");
    let mut walk = repo.commits(Some(&id)).unwrap();
    assert!(walk.next().unwrap().is_ok());
    assert!(walk.next().unwrap().is_err());
    assert!(walk.next().is_none());
    assert_eq!(repo.commits(Some(&id)).unwrap().all(), vec![id.clone()]);
    assert!(repo.list_commits(Some(&id)).is_err());
    assert!(repo.list_commits(Some("nothing")).unwrap().is_empty());
}

#[test]
fn ancestors() {
    let mut repo = with_two_files(None);
    let (first, left, right, merge) = history(&mut repo);
    assert!(repo.commit_is_ancestor(&merge, &first).unwrap());
    assert!(repo.commit_is_ancestor(&merge, &merge).unwrap());
    assert!(!repo.commit_is_ancestor(&left, &right).unwrap());
    assert!(!repo.commit_is_ancestor(&first, &left).unwrap());
    assert!(repo.commit_is_pure_ancestor(&left, &first).unwrap());
    assert!(repo.commit_is_pure_ancestor(&merge, &first).unwrap());
    assert!(!repo.commit_is_pure_ancestor(&merge, &left).unwrap());
    assert!(!repo.commit_is_pure_ancestor(&first, &left).unwrap());
    assert_eq!(repo.list_commits(Some(&merge)).unwrap().len(), 4);
}

#[test]
fn references_are_listed_in_order() {
    let mut repo = repo(None);
    repo.create_ref("refs/tags/v2", WORLD).unwrap();
    repo.create_ref("refs/heads/main", HELLO).unwrap();
    repo.create_ref("refs/tags/v1", "ref: refs/heads/main").unwrap();
    assert_eq!(
        repo.show_refs().unwrap(),
        vec![
            format!("{HELLO} refs/heads/main"),
            "ref: refs/heads/main refs/tags/v1".to_string(),
            format!("{WORLD} refs/tags/v2"),
        ]
    );
    let mut tags = repo.show_tags().unwrap();
    tags.sort();
    assert_eq!(tags, vec!["refs/tags/v1", "refs/tags/v2"]);
    let map = repo.ref_list().unwrap();
    let names: Vec<&String> = map.keys().collect();
    assert_eq!(names, vec!["refs/heads/main", "refs/tags/v1", "refs/tags/v2"]);
}

#[test]
fn references_are_changed_and_deleted() {
    let mut repo = repo(None);
    let spec = RefSpec::Tag(TagSpec::new("v1", false));
    assert!(repo.resolve_ref(&spec).unwrap().is_none());
    repo.create_ref("refs/tags/v1", HELLO).unwrap();
    repo.create_ref("refs/tags/v1", WORLD).unwrap();
    assert_eq!(
        repo.resolve_ref(&spec).unwrap(),
        Some(RefTarget::Object(WORLD.to_string()))
    );
    assert!(repo.ref_store.is_existing_ref(&spec).unwrap());
    repo.delete_ref(&spec).unwrap();
    assert!(repo.resolve_ref(&spec).unwrap().is_none());
    assert!(matches!(
        repo.create_ref("tags/v1", HELLO).unwrap_err(),
        RepoError::Name(_)
    ));
    assert!(matches!(
        repo.create_ref("refs/tags/v1", "ref: nonsense").unwrap_err(),
        RepoError::Name(_)
    ));
}

#[test]
fn branches_hold_the_current_one() {
    let mut repo = repo(Some("ref: refs/heads/new\n"));
    repo.update_local_branch("old", HELLO).unwrap();
    repo.update_ref(
        &BranchSpec::new("old", BranchLocation::Remote("origin".to_string())).into_ref_spec(),
        &RefTarget::Object(WORLD.to_string()),
    )
    .unwrap();
    let names: Vec<String> = repo
        .branches()
        .unwrap()
        .iter()
        .map(|b| b.distinguished_name())
        .collect();
    assert_eq!(names, vec!["new", "old", "origin/old"]);
    assert!(repo.is_branch_name("old").unwrap());
    assert!(!repo.is_branch_name("new").unwrap());
    assert!(repo.is_remote_branch_name("old").unwrap());
    assert!(!repo.is_remote_branch_name("new").unwrap());
    repo.head = None;
    assert!(matches!(repo.branches().unwrap_err(), RepoError::MissingHead));
}

#[test]
fn head_names_a_branch_or_holds_a_commit() {
    let mut repo = repo(None);
    assert!(repo.current_commit().unwrap().is_none());
    repo.update_head("main");
    assert_eq!(repo.head.as_deref(), Some("ref: refs/heads/main\n"));
    assert_eq!(repo.current_branch().unwrap().unwrap().name, "main");
    assert!(repo.current_commit().unwrap().is_none());
    repo.update_local_branch("main", HELLO).unwrap();
    assert_eq!(repo.current_commit().unwrap().as_deref(), Some(HELLO));
    repo.update_head_detached(WORLD);
    assert!(repo.current_branch().unwrap().is_none());
    assert_eq!(repo.current_commit().unwrap().as_deref(), Some(WORLD));
    repo.head = Some("ref: nonsense\n".to_string());
    assert!(matches!(repo.current_branch().unwrap_err(), RepoError::Name(_)));
    assert!(matches!(repo.current_commit().unwrap_err(), RepoError::Name(_)));
    assert!(matches!(
        repo.find_object("HEAD", None, true).unwrap_err(),
        RepoError::Name(_)
    ));
}

#[test]
fn missing_objects_of_the_index_are_found() {
    let repo = with_two_files(None);
    assert!(repo.check_index(&two_files()).unwrap().is_none());
    let mut index = two_files();
    index.add(entry("b", "1111111111111111111111111111111111111111"));
    assert_eq!(
        repo.check_index(&index).unwrap().as_deref(),
        Some("1111111111111111111111111111111111111111")
    );
}

#[test]
fn files_are_added_to_the_index() {
    let mut repo = repo(None);
    let mut index = two_files();
    let work = path("/w");
    let git = path("/w/.git");
    let m = FileMetadata {
        ctime: Timestamp::unix_epoch(),
        mtime: Timestamp::unix_epoch(),
        dev: 0,
        ino: 0,
        mode_type: IndexEntryType::File,
        mode_perms: IndexEntryPermissions::Executable,
        uid: 0,
        gid: 0,
        fsize: 6,
    };
    let added = repo
        .add_path_partial(&mut index, &work, &git, &path("/w/dir/b.txt"), b"hello\n".to_vec(), &m)
        .unwrap()
        .unwrap();
    assert_eq!(added.object_name, "dir/b.txt");
    assert_eq!(added.object_id, HELLO);
    assert!(!index.contains_path("dir/b.txt"));
    assert!(repo.has_object(HELLO).unwrap());
    index.add_range(&mut vec![added]);
    assert!(index.contains_path("dir/b.txt"));
    assert!(repo
        .add_path_partial(&mut index, &work, &git, &path("/w/.git/x"), vec![], &m)
        .unwrap()
        .is_none());
    assert!(matches!(
        repo.add_path_partial(&mut index, &work, &git, &path("/x"), vec![], &m),
        Err(AddError::Outside)
    ));
    assert!(remove_path_from_index(&mut index, &path("dir/b.txt")));
    assert!(!remove_path_from_index(&mut index, &path("dir/b.txt")));
    assert_eq!(index.entries().len(), 1);
}

#[test]
fn paths_in_the_worktree() {
    let work = path("/w");
    assert_eq!(
        worktree_path(&work, "a/b", Some(path("/w/a/b")), Resolved::Missing).unwrap(),
        path("a/b")
    );
    assert_eq!(
        worktree_path(&work, "l", Some(path("/x/l")), Resolved::At(path("/w/t"))).unwrap(),
        path("t")
    );
    let e = worktree_path(&work, "l", Some(path("/w/l")), Resolved::At(path("/x/t"))).unwrap_err();
    assert_eq!(e.message(), "path 'l' is outside the repo");
    let e = worktree_path(&work, "l", None, Resolved::Missing).unwrap_err();
    assert_eq!(e.message(), "invalid path 'l'");
    assert_eq!(
        canon_path(&work, "a", Some(path("/w/a")), Resolved::Missing).unwrap(),
        path("/w/a")
    );
    assert!(canon_path(&work, "a", Some(path("/x/a")), Resolved::At(path("/w/a"))).is_err());
    assert!(canon_path(&work, "a", Some(path("/w/a")), Resolved::At(path("/x/a"))).is_err());
    assert!(canon_path(&work, "a", Some(path("/w/a")), Resolved::Invalid).is_err());
}

#[test]
fn files_of_the_repository() {
    let git = path("/w/.git");
    let at = path("/w/.git/HEAD");
    assert_eq!(
        git_file(&git, path("/w/HEAD"), Found::NothingInDirectory).unwrap_err(),
        FileError::Outside
    );
    assert_eq!(
        git_file(&git, at.clone(), Found::File(path("/x"))).unwrap_err(),
        FileError::Outside
    );
    assert_eq!(
        git_file(&git, at.clone(), Found::Other(at.clone())).unwrap_err(),
        FileError::NotAFile
    );
    assert_eq!(
        git_file(&git, at.clone(), Found::NothingInFile).unwrap_err(),
        FileError::ParentNotADirectory
    );
    let place = git_file(&git, at.clone(), Found::Nothing).unwrap();
    assert!(place.make_parent);
    assert_eq!(place.path, at);
    assert!(!git_file(&git, at.clone(), Found::File(at.clone())).unwrap().make_parent);
}

#[test]
fn repositories_are_checked_and_made() {
    assert_eq!(check_repository(false, true, true, Ok(0)), Ok(()));
    assert_eq!(
        check_repository(false, false, true, Ok(0)),
        Err(OpenError::NotARepository)
    );
    assert_eq!(
        check_repository(false, true, false, Ok(0)),
        Err(OpenError::NoConfiguration)
    );
    assert_eq!(check_repository(true, false, false, Ok(0)), Ok(()));
    assert_eq!(check_repository(true, true, true, Ok(1)), Err(OpenError::Version(1)));
    assert_eq!(
        check_repository(false, true, true, Err(VersionError::Missing)),
        Err(OpenError::Configuration(VersionError::Missing))
    );
    assert!(directories_of_new_repository().contains(&"refs/heads".to_string()));
    let files = files_of_new_repository("main");
    assert_eq!(files[0].contents, "Unnamed repository\n");
    assert_eq!(files[1].path, "HEAD");
    assert_eq!(files[1].contents, "ref: refs/heads/main\n");
}

#[test]
fn ref_log_lines_for_a_change() {
    let appends = ref_log_appends(
        None,
        HELLO,
        "C <c@x>",
        "commit: first",
        &BranchSpec::local("a/b").into_ref_spec(),
        true,
        &moment(1000),
    );
    assert_eq!(appends.len(), 2);
    assert_eq!(appends[0].path, vec!["HEAD"]);
    assert_eq!(appends[1].path, vec!["refs", "heads", "a", "b"]);
    assert_eq!(
        appends[0].line,
        format!("{} {HELLO} C <c@x> 1000 +0100\tcommit: first\n", "0".repeat(40))
    );
    assert_eq!(appends[1].line, appends[0].line);
}

#[test]
fn tag_without_a_target_is_not_followed() {
    let mut repo = repo(None);
    repo.write_raw_object(&RawObject::from_headerless_data(
        b"tag v1\n\nwords\n",
        WORLD_LOST,
        ObjectMetadata::new(ObjectKind::Tag, 14),
    ))
    .unwrap();
    assert!(matches!(
        repo.find_object("1111", None, true),
        Err(RepoError::Fault(Fault::NoTarget))
    ));
    assert_eq!(repo.find_object("1111", None, false).unwrap(), WORLD_LOST);
}

#[test]
fn index_follows_a_checkout() {
    let mut index = Index::new();
    index.add(entry("a.txt", WORLD));
    index.add(entry("copy.txt", HELLO));
    index.add(entry("old.txt", SUB));
    update_index(&mut index, vec![entry("b.txt", HELLO), entry("a.txt", HELLO)]);
    let listed: Vec<(&str, &str)> = index
        .entries()
        .iter()
        .map(|e| (e.object_name.as_str(), e.object_id.as_str()))
        .collect();
    assert_eq!(
        listed,
        vec![("a.txt", HELLO), ("b.txt", HELLO), ("copy.txt", HELLO)]
    );
    update_index(&mut index, vec![]);
    assert!(index.entries().is_empty());
}

#[test]
fn branch_that_the_current_one_is_mapped_to() {
    let config = ini::Ini::load_from_str(
        "[branch \"main\"]\nremote = other\nremote = origin\nmerge = refs/heads/trunk\n",
    )
    .unwrap();
    let mut repo = repo(Some("ref: refs/heads/main\n"));
    let b = repo.current_remote_tracking_branch(&config).unwrap().unwrap();
    assert_eq!(b.to_string(), "refs/remotes/origin/trunk");
    repo.update_head("side");
    assert!(repo.current_remote_tracking_branch(&config).unwrap().is_none());
    repo.update_head_detached(HELLO);
    assert!(repo.current_remote_tracking_branch(&config).unwrap().is_none());
    repo.head = None;
    assert!(matches!(
        repo.current_remote_tracking_branch(&config),
        Err(RepoError::MissingHead)
    ));
    assert!(following_branch(Some("origin"), None).is_none());
    assert!(following_branch(None, Some("refs/heads/a")).is_none());
    assert!(following_branch(Some("o"), Some("refs/tags/a")).is_none());
    assert!(following_branch(Some("o"), Some("refs/remotes/x/a")).is_none());
}

#[test]
fn configuration_of_a_repository_is_checked() {
    let version = |value: &str| format!("[core]\nrepositoryformatversion = {value}\n");
    assert_eq!(repository_version(&version("0")), Ok(0));
    assert_eq!(repository_version(&version("17")), Ok(17));
    assert_eq!(repository_version("[core\nx"), Err(VersionError::Malformed));
    assert_eq!(repository_version(""), Err(VersionError::Missing));
    assert_eq!(repository_version("[core]\nbare = true\n"), Err(VersionError::Missing));
    assert_eq!(
        repository_version("[other]\nrepositoryformatversion = 0\n"),
        Err(VersionError::Missing)
    );
    for value in ["x", "-1", "18446744073709551616"] {
        assert_eq!(repository_version(&version(value)), Err(VersionError::NotANumber));
    }
    assert_eq!(
        version_of_values(&["3".to_string(), "0".to_string()]),
        Ok(3)
    );
    assert_eq!(check_repository_files(false, true, Some(&version("0"))), Ok(()));
    assert_eq!(
        check_repository_files(false, true, Some(&version("1"))),
        Err(OpenError::Version(1))
    );
    assert_eq!(
        check_repository_files(false, true, Some("[core\nx")),
        Err(OpenError::Configuration(VersionError::Malformed))
    );
    assert_eq!(
        check_repository_files(false, true, None),
        Err(OpenError::NoConfiguration)
    );
    assert_eq!(
        check_repository_files(false, false, Some(&version("0"))),
        Err(OpenError::NotARepository)
    );
    assert_eq!(check_repository_files(true, false, None), Ok(()));
}
