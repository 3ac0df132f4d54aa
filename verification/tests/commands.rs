use cvvc::cli::branches::{
    branch_action, is_reserved, list_branches, BranchAction, BranchStyle, DeleteBranchError,
    NewBranchError,
};
use cvvc::cli::fetch::{
    abbrev_commit_id, update_warning, FetchRefMap, UpdateDecision,
};
use cvvc::cli::fetch_maps::{map_refs, FetchDefinition};
use cvvc::cli::listing::{
    check_format, check_ignore, is_pruned, list_files, list_remotes, remote_formatter,
    removal_outcome, RemoteInfo, RemovalOutcome,
};
use cvvc::cli::staging::{
    contents_differ, current_branch_and_commit, status_branch, status_index, status_summary,
    status_worktree, times_differ, untracked_files, CommitError, FileState,
};
use cvvc::cli::tags::TagError;
use cvvc::helpers::fs::FileMetadata;
use cvvc::ignore::{IgnoreInfo, ScopedFile};
use cvvc::index::{Index, IndexEntry, IndexEntryPermissions, IndexEntryType};
use cvvc::moments::Timestamp;
use cvvc::objects::raw::{ObjectMetadata, RawObject};
use cvvc::objects::{Blob, ObjectKind, StoredObject, Tag};
use cvvc::repo::flatten::PathMap;
use cvvc::repo::Repository;
use cvvc::stores::tables::{ObjectTable, RefTable};
use cvvc::stores::{BranchLocation, BranchSpec, RefSpec, RefTarget, TargetedRef};

type Repo = Repository<ObjectTable, ObjectTable, RefTable>;

const HELLO: &str = "ce013625030ba8dba906f756967f9e9ca394464a";
const WORLD: &str = "cc628ccd10742baea8241c5924df992b5c019f71";

fn moment() -> Timestamp {
    Timestamp::new(1000, 0, 3600).unwrap()
}

fn entry(name: &str, id: &str) -> IndexEntry {
    let metadata = FileMetadata {
        ctime: Timestamp::unix_epoch(),
        mtime: Timestamp::unix_epoch(),
        dev: 1,
        ino: 2,
        mode_type: IndexEntryType::File,
        mode_perms: IndexEntryPermissions::NonExecutable,
        uid: 3,
        gid: 4,
        fsize: 6,
    };
    IndexEntry::from_metadata(&metadata, id.to_string(), name.to_string())
}

fn index() -> Index {
    let mut index = Index::new();
    index.add(entry("a.txt", HELLO));
    index
}

fn new_repo() -> Repo {
    let mut repo = Repository {
        loose_object_store: ObjectTable::new(),
        packs: vec![],
        ref_store: RefTable::new(),
        head: Some("ref: refs/heads/main\n".to_string()),
    };
    repo.write_object(&Blob::new_from_read(b"hello\n".to_vec())).unwrap();
    repo
}

fn commit(repo: &mut Repo, message: &str) -> String {
    repo.full_commit(&index(), Some(message), "A <a@x>", "C <c@x>", &moment())
        .unwrap()
        .0
}

fn path(text: &str) -> Vec<String> {
    text.split('/').map(String::from).collect()
}

#[test]
fn what_the_branch_command_does() {
    assert_eq!(branch_action(true, true, true, true), BranchAction::List);
    assert_eq!(branch_action(false, false, true, false), BranchAction::List);
    assert_eq!(branch_action(false, true, false, false), BranchAction::New);
    assert_eq!(branch_action(false, true, false, true), BranchAction::Delete);
    assert_eq!(branch_action(false, true, true, false), BranchAction::Delete);
}

#[test]
fn branches_are_listed() {
    let branches = vec![
        BranchSpec::local("main"),
        BranchSpec::local("side"),
        BranchSpec::new("main", BranchLocation::Remote("origin".to_string())),
    ];
    let lines = list_branches(&branches, Some(&branches[0]), false);
    assert_eq!(lines.len(), 2);
    assert_eq!((lines[0].mark.as_str(), lines[0].name.as_str()), ("* ", "main"));
    assert_eq!(lines[0].style, BranchStyle::Current);
    assert_eq!((lines[1].mark.as_str(), lines[1].name.as_str()), ("  ", "side"));
    assert_eq!(lines[1].style, BranchStyle::Plain);
    let lines = list_branches(&branches, None, true);
    assert_eq!(lines[0].style, BranchStyle::Plain);
    assert_eq!(lines[2].name, "origin/main");
    assert_eq!(lines[2].style, BranchStyle::Remote);
}

#[test]
fn branch_is_made_from_the_current_commit() {
    let mut repo = new_repo();
    let id = commit(&mut repo, "first");
    let log = repo.new_branch("side", false, "C <c@x>", &moment()).unwrap();
    assert_eq!(log.len(), 2);
    assert_eq!(log[1].path, vec!["refs", "heads", "side"]);
    assert_eq!(
        log[1].line,
        format!("{} {id} C <c@x> 1000 +0100\tbranch: Created from HEAD\n", "0".repeat(40))
    );
    assert_eq!(repo.head.as_deref(), Some("ref: refs/heads/main\n"));
    assert_eq!(
        repo.resolve_ref(&BranchSpec::local("side").into_ref_spec()).unwrap(),
        Some(RefTarget::Object(id))
    );
    repo.new_branch("other", true, "C <c@x>", &moment()).unwrap();
    assert_eq!(repo.current_branch().unwrap().unwrap().name, "other");
}

#[test]
fn branch_without_commits_only_changes_head() {
    let mut repo = new_repo();
    assert!(repo.new_branch("side", true, "C <c@x>", &moment()).unwrap().is_empty());
    assert_eq!(repo.head.as_deref(), Some("ref: refs/heads/side\n"));
    assert!(!repo.is_branch_name("side").unwrap());
}

#[test]
fn branches_that_cannot_be_made() {
    let mut repo = new_repo();
    commit(&mut repo, "first");
    assert!(matches!(
        repo.new_branch("a..b", false, "C", &moment()),
        Err(NewBranchError::IllegalName)
    ));
    assert!(matches!(
        repo.new_branch("HEAD", false, "C", &moment()),
        Err(NewBranchError::Reserved)
    ));
    assert!(matches!(
        repo.new_branch("main", false, "C", &moment()),
        Err(NewBranchError::Exists)
    ));
    assert!(is_reserved("AUTO_MERGE") && !is_reserved("main"));
}

#[test]
fn checkout_of_a_branch_and_of_a_commit() {
    let mut repo = new_repo();
    let id = commit(&mut repo, "first");
    repo.new_branch("side", false, "C <c@x>", &moment()).unwrap();
    let (detached, log) = repo.finish_checkout("side", &id, "C <c@x>", &moment()).unwrap();
    assert!(!detached);
    assert_eq!(repo.head.as_deref(), Some("ref: refs/heads/side\n"));
    assert_eq!(log.len(), 1);
    assert_eq!(log[0].path, vec!["HEAD"]);
    assert_eq!(
        log[0].line,
        format!("{id} {id} C <c@x> 1000 +0100\tcheckout: moving from main to {id}\n")
    );
    let (detached, _) = repo.finish_checkout(&id, &id, "C <c@x>", &moment()).unwrap();
    assert!(detached);
    assert_eq!(repo.head, Some(format!("{id}\n")));
    repo.update_ref(
        &BranchSpec::new("far", BranchLocation::Remote("origin".to_string())).into_ref_spec(),
        &RefTarget::Object(id.clone()),
    )
    .unwrap();
    let (detached, log) = repo.finish_checkout("far", &id, "C <c@x>", &moment()).unwrap();
    assert!(!detached);
    assert!(repo.is_branch_name("far").unwrap());
    assert!(log[0].line.ends_with(&format!("checkout: moving from {id} to {id}\n")));
}

#[test]
fn branches_are_deleted_once_they_are_merged() {
    let mut repo = new_repo();
    let first = commit(&mut repo, "first");
    repo.new_branch("side", true, "C <c@x>", &moment()).unwrap();
    let second = commit(&mut repo, "second");
    assert!(matches!(
        repo.delete_branch("nothing", false),
        Err(DeleteBranchError::NotFound)
    ));
    assert!(matches!(
        repo.delete_branch("side", false),
        Err(DeleteBranchError::Current)
    ));
    assert_eq!(
        repo.delete_branch("main", false).unwrap(),
        format!("Deleted branch main (was {first})")
    );
    repo.update_local_branch("main", &first).unwrap();
    repo.update_head("main");
    assert!(matches!(
        repo.delete_branch("side", false),
        Err(DeleteBranchError::NotMerged)
    ));
    assert!(repo.is_branch_name("side").unwrap());
    assert_eq!(
        repo.delete_branch("side", true).unwrap(),
        format!("Deleted branch side (was {second})")
    );
    assert!(!repo.is_branch_name("side").unwrap());
}

#[test]
fn index_is_committed_to_the_current_branch() {
    let mut repo = new_repo();
    let (first, log) = repo
        .full_commit(&index(), Some("first\nmore"), "A <a@x>", "C <c@x>", &moment())
        .unwrap();
    assert_eq!(repo.current_commit().unwrap(), Some(first.clone()));
    assert_eq!(log.len(), 2);
    assert_eq!(
        log[0].line,
        format!("{} {first} C <c@x> 1000 +0100\tcommit: first\n", "0".repeat(40))
    );
    let (second, _) = repo
        .full_commit(&index(), None, "A <a@x>", "C <c@x>", &moment())
        .unwrap();
    let StoredObject::Commit(c) = repo.read_object(&second).unwrap().unwrap() else {
        panic!()
    };
    assert_eq!(c.parents(), vec![first.clone()]);
    assert_eq!(c.message, "User forgot to enter commit message\n");
    repo.update_head_detached(&first);
    let (third, log) = repo
        .full_commit(&index(), Some("third"), "A <a@x>", "C <c@x>", &moment())
        .unwrap();
    assert_eq!(repo.head, Some(format!("{third}\n")));
    assert_eq!(log.len(), 1);
    assert_eq!(log[0].path, vec!["HEAD"]);
}

#[test]
fn index_with_missing_objects_is_not_committed() {
    let mut repo = new_repo();
    let mut index = index();
    index.add(entry("b", WORLD));
    assert!(matches!(
        repo.full_commit(&index, None, "A", "C", &moment()),
        Err(CommitError::MissingObject(id)) if id == WORLD
    ));
    assert!(repo.store_index_as_tree(&index, false).is_err());
    assert!(repo.store_index_as_tree(&index, true).is_ok());
}

#[test]
fn tags_are_made() {
    let mut repo = new_repo();
    let id = commit(&mut repo, "first");
    repo.create_tag("thin", "HEAD", false, None, "A <a@x>", &moment()).unwrap();
    assert_eq!(repo.find_object("thin", None, true).unwrap(), id);
    repo.create_tag("chunky", "main", true, Some("words"), "A <a@x>", &moment())
        .unwrap();
    assert_eq!(repo.find_object("chunky", None, true).unwrap(), id);
    let tag_id = repo.find_object("chunky", None, false).unwrap();
    assert_ne!(tag_id, id);
    let StoredObject::Tag(tag) = repo.read_object(&tag_id).unwrap().unwrap() else {
        panic!()
    };
    assert_eq!(tag.target().unwrap(), id);
    assert_eq!(tag.message, "words\n");
    assert_eq!(
        repo.find_object("chunky", Some(ObjectKind::Commit), true).unwrap(),
        id
    );
    repo.create_tag("again", "chunky", false, None, "A <a@x>", &moment()).unwrap();
    assert_eq!(repo.find_object("again", None, false).unwrap(), id);
    assert!(matches!(
        repo.create_tag("a b", "HEAD", false, None, "A", &moment()),
        Err(TagError::IllegalName)
    ));
    assert!(matches!(
        repo.create_tag("x", "nothing", false, None, "A", &moment()),
        Err(TagError::Repo(_))
    ));
}

#[test]
fn history_is_drawn() {
    let mut repo = new_repo();
    let first = commit(&mut repo, "say \"hi\" \\ there\nmore");
    let second = commit(&mut repo, "second");
    assert_eq!(
        repo.log("HEAD").unwrap(),
        vec![
            "digraph cvlog{".to_string(),
            "  node[shape=rect]".to_string(),
            format!("  c_{second} [label=\"{}: second\"]", &second[..8]),
            format!("  c_{second} -> c_{first};"),
            format!(
                "  c_{first} [label=\"{}: say \\\"hi\\\" \\\\ there\"]",
                &first[..8]
            ),
            "}".to_string(),
        ]
    );
    assert!(repo.log("nothing").is_err());
    assert!(repo.log_commits_graphviz(HELLO).unwrap().is_empty());
}

#[test]
fn where_the_repository_is() {
    assert_eq!(
        current_branch_and_commit(Some(&BranchSpec::local("main")), Some(HELLO)),
        vec!["Branch: main".to_string(), format!("Commit: {HELLO}")]
    );
    assert_eq!(
        current_branch_and_commit(None, None),
        vec!["Branch: [none]", "Commit: [none]"]
    );
    assert_eq!(
        status_branch(Some(&BranchSpec::local("main")), None).unwrap(),
        "On branch refs/heads/main"
    );
    assert_eq!(
        status_branch(None, Some(HELLO)).unwrap(),
        format!("HEAD detached at {HELLO}")
    );
    assert!(status_branch(None, None).is_none());
}

#[test]
fn staged_changes_are_listed() {
    let mut committed = PathMap::new();
    committed.insert("same".to_string(), HELLO.to_string());
    committed.insert("changed".to_string(), HELLO.to_string());
    committed.insert("gone".to_string(), HELLO.to_string());
    let mut index = Index::new();
    index.add(entry("same", HELLO));
    index.add(entry("changed", WORLD));
    index.add(entry("new", WORLD));
    assert_eq!(
        status_index(committed, &index),
        vec!["\tmodified:   changed", "\tadded:      new", "\tdeleted:    gone"]
    );
}

#[test]
fn unstaged_changes_are_listed() {
    let mut index = Index::new();
    index.add(entry("a", HELLO));
    index.add(entry("b", HELLO));
    index.add(entry("c", HELLO));
    assert_eq!(
        status_worktree(
            &index,
            &[FileState::Missing, FileState::Same, FileState::Modified]
        ),
        vec!["\tdeleted: a", "\tmodified:   c"]
    );
    assert_eq!(
        untracked_files(&["a".to_string(), "x".to_string()], &index),
        vec!["x"]
    );
}

#[test]
fn files_are_compared_with_the_index() {
    let e = entry("a", HELLO);
    let epoch = Timestamp::unix_epoch();
    assert!(!times_differ(&e, None, epoch));
    assert!(!times_differ(&e, Some(epoch), epoch));
    assert!(times_differ(&e, Some(moment()), epoch));
    assert!(times_differ(&e, None, moment()));
    assert!(!contents_differ(&e, b"hello\n".to_vec()));
    assert!(contents_differ(&e, b"hello".to_vec()));
}

#[test]
fn last_line_of_a_status() {
    assert_eq!(
        status_summary(false, true),
        Some("no changes added to commit (use \"cv add\")")
    );
    assert_eq!(
        status_summary(false, false),
        Some("nothing to commit, working tree clean")
    );
    assert_eq!(status_summary(true, true), None);
    assert_eq!(status_summary(true, false), None);
}

#[test]
fn index_is_listed() {
    assert_eq!(list_files(&index(), false), vec!["a.txt"]);
    let lines = list_files(&index(), true);
    assert_eq!(
        lines,
        vec![
            "Index file format v2, containing 1 entries".to_string(),
            "a.txt".to_string(),
            "  regular file with perms: 0644".to_string(),
            format!("  on blob {HELLO}"),
            "  size 6".to_string(),
            "  created 1970-01-01 00:00:00 UTC, modified 1970-01-01 00:00:00 UTC".to_string(),
            "  device 1, inode 2".to_string(),
            "  user 3, group 4".to_string(),
            "  flags: stage=0, assume_valid=false".to_string(),
        ]
    );
}

#[test]
fn ignored_paths_are_listed() {
    let info = IgnoreInfo::from_files(
        &[],
        &[ScopedFile { directory: String::new(), data: b"*.o\n".to_vec() }],
    );
    assert_eq!(
        check_ignore(&["a.o".to_string(), "a.c".to_string()], &info),
        vec!["a.o"]
    );
    let work = path("/w");
    let git = path("/w/.git");
    assert!(is_pruned(&work, &git, &path("/x"), &info));
    assert!(is_pruned(&work, &git, &path("/w/.git/HEAD"), &info));
    assert!(is_pruned(&work, &git, &path("/w/d/a.o"), &info));
    assert!(!is_pruned(&work, &git, &path("/w/d/a.c"), &info));
}

#[test]
fn removal_of_no_file_is_an_error() {
    assert_eq!(removal_outcome(true, false), RemovalOutcome::WriteIndex);
    assert_eq!(removal_outcome(false, true), RemovalOutcome::Nothing);
    assert_eq!(removal_outcome(false, false), RemovalOutcome::NoneRemoved);
}

#[test]
fn remotes_are_listed() {
    let remotes = [RemoteInfo {
        name: "origin".to_string(),
        fetch_urls: vec!["https://x/".to_string()],
        push_urls: vec!["https://y/".to_string()],
        fetch_defs: vec![],
    }];
    assert_eq!(list_remotes(&remotes, false), vec!["origin"]);
    assert_eq!(
        list_remotes(&remotes, true),
        vec!["origin\thttps://x/ (fetch)", "origin\thttps://y/ (push)"]
    );
    assert_eq!(remote_formatter("a", "b", "c"), "a\tb (c)");
}

#[test]
fn names_of_references_are_checked() {
    assert!(check_format("refs/heads/main"));
    for name in ["a..b", "a b", "a~b", "a^b", "a:b"] {
        assert!(!check_format(name));
    }
}

fn definition(text: &str) -> FetchDefinition {
    FetchDefinition::from_str(text).unwrap()
}

fn update(repo: &Repo, name: &str, id: &str, force: bool) -> FetchRefMap {
    let mut maps = map_refs(
        &[TargetedRef {
            target: RefTarget::Object(id.to_string()),
            spec: BranchSpec::local(name).into_ref_spec(),
        }],
        &[definition("+refs/heads/*:refs/remotes/origin/*")],
    );
    assert_eq!(repo.updates_needed(&maps).len(), 1);
    let mut map = maps.remove(0);
    map.force = force;
    map
}

#[test]
fn branches_of_a_server_are_followed() {
    let maps = map_refs(
        &[
            TargetedRef {
                target: RefTarget::Object(HELLO.to_string()),
                spec: RefSpec::Head,
            },
            TargetedRef {
                target: RefTarget::Object(HELLO.to_string()),
                spec: BranchSpec::local("main").into_ref_spec(),
            },
        ],
        &[definition("+refs/heads/*:refs/remotes/origin/*")],
    );
    assert_eq!(maps.len(), 1);
    assert_eq!(maps[0].dest.to_string(), "refs/remotes/origin/main");
    assert!(maps[0].force);
}

#[test]
fn references_are_updated_by_a_fetch() {
    let mut repo = new_repo();
    let first = commit(&mut repo, "first");
    let second = commit(&mut repo, "second");
    let map = update(&repo, "main", &first, false);
    assert_eq!(repo.decide_update(&map).unwrap(), UpdateDecision::New);
    let outcome = repo.apply_update(&map, "C <c@x>", &moment()).unwrap();
    assert!(outcome.updated);
    assert_eq!(
        outcome.message.unwrap(),
        format!("Updated refs/remotes/origin/main: (none) => {}", &first[..8])
    );
    assert!(outcome.log[0].line.ends_with("\tfetch (new branch)\n"));
    assert!(repo.updates_needed(&[map]).is_empty());
    let map = update(&repo, "main", &second, false);
    assert_eq!(repo.decide_update(&map).unwrap(), UpdateDecision::FastForward);
    let outcome = repo.apply_update(&map, "C <c@x>", &moment()).unwrap();
    assert!(outcome.log[0].line.ends_with("\tfetch (fast forward)\n"));
    let map = update(&repo, "main", &first, false);
    assert_eq!(repo.decide_update(&map).unwrap(), UpdateDecision::Skip);
    let outcome = repo.apply_update(&map, "C <c@x>", &moment()).unwrap();
    assert!(!outcome.updated && outcome.log.is_empty());
    assert_eq!(
        outcome.message.unwrap(),
        format!(
            "Skipping update {} => {} for refs/remotes/origin/main (not fast-forwardable)",
            &second[..8],
            &first[..8]
        )
    );
    let map = update(&repo, "main", &first, true);
    assert_eq!(repo.decide_update(&map).unwrap(), UpdateDecision::Forced);
    let outcome = repo.apply_update(&map, "C <c@x>", &moment()).unwrap();
    assert!(outcome.log[0].line.ends_with("\tfetch (forced)\n"));
    let map = update(&repo, "main", WORLD, true);
    assert_eq!(repo.decide_update(&map).unwrap(), UpdateDecision::NotFetched);
    assert!(!repo.apply_update(&map, "C <c@x>", &moment()).unwrap().updated);
    assert_eq!(repo.objects_needed(&[map.clone(), map]), vec![WORLD]);
}

#[test]
fn ids_are_abbreviated() {
    assert_eq!(abbrev_commit_id(HELLO), "ce013625");
    assert_eq!(abbrev_commit_id("(none)"), "(none)");
}

#[test]
fn update_of_the_followed_branch_is_told() {
    let followed = BranchSpec::new("main", BranchLocation::Remote("origin".to_string()));
    let other = BranchSpec::new("main", BranchLocation::Remote("backup".to_string()));
    let updated = [other.clone().into_ref_spec(), followed.clone().into_ref_spec()];
    assert_eq!(
        update_warning(Some(&followed), &updated).unwrap(),
        "Your current branch has been updated on its remote server.\n\
         Pull to bring these changes in locally."
    );
    assert!(update_warning(Some(&followed), &updated[..1]).is_none());
    assert!(update_warning(None, &updated).is_none());
}

#[test]
fn each_commit_is_drawn_once() {
    let mut repo = new_repo();
    let root = commit(&mut repo, "root");
    let left = commit(&mut repo, "left");
    repo.update_local_branch("main", &root).unwrap();
    let right = commit(&mut repo, "right");
    let text = format!("parent {left}\nparent {right}\n\nmerge\n");
    let merge = "2222222222222222222222222222222222222222".to_string();
    repo.write_raw_object(&RawObject::from_headerless_data(
        text.as_bytes(),
        &merge,
        ObjectMetadata::new(ObjectKind::Commit, text.len()),
    ))
    .unwrap();
    let lines = repo.log_commits_graphviz(&merge).unwrap();
    for id in [&root, &left, &right, &merge] {
        let node = format!("  c_{id} [");
        assert_eq!(lines.iter().filter(|l| l.starts_with(&node)).count(), 1);
    }
    for (child, parent) in [(&merge, &left), (&merge, &right), (&left, &root), (&right, &root)] {
        let edge = format!("  c_{child} -> c_{parent};");
        assert_eq!(lines.iter().filter(|l| **l == edge).count(), 1);
    }
    assert_eq!(lines.len(), 8);
}

#[test]
fn definitions_of_a_fetch_are_read() {
    let d = definition(" +refs/heads/*:refs/remotes/origin/* ");
    assert!(d.force);
    assert_eq!((d.source.as_str(), d.dest.as_str()), ("refs/heads/*", "refs/remotes/origin/*"));
    assert!(!definition("a:b").force);
    for text in ["", "+", "refs/heads/main", ":x", "x:", "+:x"] {
        assert!(FetchDefinition::from_str(text).is_none());
    }
    let d = definition("refs/*/head:refs/remotes/o/*-head");
    assert_eq!(d.map_path("refs/pull/1/head").unwrap(), "refs/remotes/o/pull/1-head");
    assert!(d.map_path("refs/head").is_none());
    assert!(d.map_path("refs/pull/1/merge").is_none());
    assert!(definition("refs/heads/*:refs/x").map_path("refs/heads/a").is_none());
    let d = definition("refs/heads/main:refs/remotes/o/trunk");
    assert_eq!(d.map_path("refs/heads/main").unwrap(), "refs/remotes/o/trunk");
    assert!(d.map_path("refs/heads/mains").is_none());
}

#[test]
fn references_are_mapped_by_all_definitions() {
    let target = || RefTarget::Object(HELLO.to_string());
    let refs = [
        TargetedRef { target: target(), spec: BranchSpec::local("main").into_ref_spec() },
        TargetedRef { target: target(), spec: RefSpec::from_str("refs/tags/v1").unwrap() },
        TargetedRef { target: target(), spec: RefSpec::from_str("refs/tags/v1^{}").unwrap() },
    ];
    let defs = [
        definition("refs/heads/*:refs/remotes/origin/*"),
        definition("+refs/tags/*:refs/tags/*"),
        definition("refs/heads/main:refs/remotes/copy/main"),
        definition("refs/heads/*:nowhere/*"),
    ];
    let maps: Vec<(String, bool)> = map_refs(&refs, &defs)
        .iter()
        .map(|m| (m.dest.to_string(), m.force))
        .collect();
    assert_eq!(
        maps,
        vec![
            ("refs/remotes/origin/main".to_string(), false),
            ("refs/remotes/copy/main".to_string(), false),
            ("refs/tags/v1".to_string(), true),
        ]
    );
    assert!(map_refs(&refs, &[]).is_empty());
}

#[test]
fn trees_are_listed() {
    let mut repo = new_repo();
    let mut index = index();
    index.add(entry("dir/b.txt", HELLO));
    let tree = repo.store_index_as_tree(&index, false).unwrap();
    let lines = repo.list_tree(&tree, false).unwrap();
    assert_eq!(lines.len(), 2);
    assert_eq!(lines[0], format!("100644 blob {HELLO}\ta.txt"));
    assert!(lines[1].starts_with("040000 tree ") && lines[1].ends_with("\tdir"));
    assert_eq!(
        repo.list_tree(&tree, true).unwrap(),
        vec![
            format!("100644 blob {HELLO}\ta.txt"),
            format!("100644 blob {HELLO}\tdir/b.txt"),
        ]
    );
    assert!(repo.list_tree(HELLO, false).is_err());
}

#[test]
fn commits_of_annotated_tags_are_listed_in_order() {
    let mut repo = new_repo();
    let first = commit(&mut repo, "first");
    let second = commit(&mut repo, "second");
    assert_eq!(repo.list_commits(None).unwrap(), vec![second.clone(), first.clone()]);
    repo.create_tag("v1", "main", true, Some("words"), "A <a@x>", &moment()).unwrap();
    let tag = repo.find_object("v1", None, false).unwrap();
    repo.create_tag("plain", &first, false, None, "A <a@x>", &moment()).unwrap();
    repo.update_local_branch("main", &first).unwrap();
    let listed = repo.list_commits(None).unwrap();
    assert_eq!(listed.len(), 2);
    assert!(listed.contains(&second));
    let outer = Tag::new(&tag, "v2", None, "A <a@x>", &moment());
    let outer_id = repo.write_object(&outer).unwrap();
    repo.create_ref("refs/tags/v2", &outer_id).unwrap();
    let blob_tag = Tag::new(HELLO, "v3", None, "A <a@x>", &moment());
    let blob_tag_id = repo.write_object(&blob_tag).unwrap();
    repo.create_ref("refs/tags/v3", &blob_tag_id).unwrap();
    assert_eq!(repo.list_commits(None).unwrap().len(), 2);
}
