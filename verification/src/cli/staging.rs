//! The commands about the index and the worktree.

use vstd::prelude::*;

use crate::cli::branches::{change_line, logs_change};
use crate::helpers::{first_line, shorten_and_prefix_message, timestamped};
use crate::index::{entry_views, Index, IndexEntry};
use crate::moments::Timestamp;
use crate::objects::kvlm::kvlm_bytes;
use crate::objects::raw::{object_name, DataView, RawObject};
use crate::objects::{commit_fields, Blob, Commit, KindView};
use crate::ref_log::LogAppend;
use crate::repo::flatten::{path_map, PathItem, PathMap};
use crate::repo::model::{current_commit_id, head_branch, head_valid, local_branch, lookup, RepoView};
use crate::repo::trees::{dir_order, root_tree, with_trees};
use crate::repo::worktree::{blob_name, ref_log_appends};
use crate::repo::{RepoError, Repository};
use crate::stores::backends::{with_object, ObjectStore, RefStore, StoreError};
use crate::stores::{branch_text, parse_target, BranchSpec, BranchView, RefSpec, RefView};
use crate::text::{concat_texts, opt_str, opt_text, same_text, texts, trim};

verus! {

broadcast use vstd::string::group_string_axioms;

/// A text, or another one where it is missing.
pub open spec fn or_text(o: Option<Seq<char>>, otherwise: Seq<char>) -> Seq<char> {
    match o {
        Some(t) => t,
        None => otherwise,
    }
}

/// The lines that say where the repository is: its current branch and commit.
pub fn current_branch_and_commit(branch: Option<&BranchSpec>, commit: Option<&str>) -> (r: Vec<
    String,
>)
    ensures
        texts(r@) == seq![
            "Branch: "@ + (match branch {
                Some(b) => b.name@,
                None => "[none]"@,
            }),
            "Commit: "@ + or_text(opt_str(commit), "[none]"@),
        ],
{
    let branch_line = match branch {
        Some(b) => concat_texts("Branch: ", b.name.as_str()),
        None => concat_texts("Branch: ", "[none]"),
    };
    let commit_line = match commit {
        Some(c) => concat_texts("Commit: ", c),
        None => concat_texts("Commit: ", "[none]"),
    };
    let mut out: Vec<String> = Vec::new();
    out.push(branch_line);
    out.push(commit_line);
    assert(texts(out@) =~= seq![branch_line@, commit_line@]);
    out
}

/// The line that says which branch or commit is the current one; nothing where there is
/// neither.
pub fn status_branch(branch: Option<&BranchSpec>, head_commit: Option<&str>) -> (r: Option<String>)
    ensures
        opt_text(r) == match (branch, head_commit) {
            (Some(b), _) => Some("On branch "@ + branch_text(b@)),
            (None, Some(c)) => Some("HEAD detached at "@ + c@),
            (None, None) => None,
        },
{
    match (branch, head_commit) {
        (Some(b), _) => {
            let name = b.to_string();
            Some(concat_texts("On branch ", name.as_str()))
        },
        (None, Some(c)) => Some(concat_texts("HEAD detached at ", c)),
        (None, None) => None,
    }
}

/// The line at the end of a status: what there is to commit, where something is missing.
pub fn status_summary(staged_changes: bool, unstaged_changes: bool) -> (r: Option<&'static str>)
    ensures
        opt_str(r) == if staged_changes {
            None
        } else if unstaged_changes {
            Some("no changes added to commit (use \"cv add\")"@)
        } else {
            Some("nothing to commit, working tree clean"@)
        },
{
    if unstaged_changes {
        if !staged_changes {
            Some("no changes added to commit (use \"cv add\")")
        } else {
            None
        }
    } else if !staged_changes {
        Some("nothing to commit, working tree clean")
    } else {
        None
    }
}

/// The lines for entries of the index that are not as they were committed, and what was
/// committed and is not in the index.
pub open spec fn staged_changes(
    committed: Map<Seq<char>, Seq<char>>,
    entries: Seq<IndexEntry>,
) -> (Seq<Seq<char>>, Map<Seq<char>, Seq<char>>)
    decreases entries.len(),
{
    if entries.len() == 0 {
        (Seq::empty(), committed)
    } else {
        let (lines, rest) = staged_changes(committed, entries.drop_last());
        let e = entries.last();
        if !rest.contains_key(e.object_name@) {
            (lines.push("\tadded:      "@ + e.object_name@), rest)
        } else if rest[e.object_name@] != e.object_id@ {
            (lines.push("\tmodified:   "@ + e.object_name@), rest.remove(e.object_name@))
        } else {
            (lines, rest.remove(e.object_name@))
        }
    }
}

/// The line for a file that was committed and is not in the index.
pub open spec fn deleted_line(path: Seq<char>) -> Seq<char> {
    "\tdeleted:    "@ + path
}

/// Whether some lines are those for files that are not in the index.
pub open spec fn lists_deleted(lines: Seq<Seq<char>>, rest: Map<Seq<char>, Seq<char>>) -> bool {
    &&& lines.no_duplicates()
    &&& forall|line: Seq<char>| #[trigger]
        lines.contains(line) <==> exists|path: Seq<char>| #[trigger]
            rest.contains_key(path) && line == deleted_line(path)
}

impl PathMap {
    /// Takes a file out of the map, if it is there.
    pub fn remove(&mut self, path: &str)
        requires
            old(self).wf(),
        ensures
            final(self).wf(),
            final(self)@ == old(self)@.remove(path@),
    {
        let ghost before = self.items@;
        let mut i: usize = 0;
        while i < self.items.len()
            invariant
                self.wf(),
                self.items@ == before,
                before == old(self).items@,
                i <= before.len(),
                forall|j: int| 0 <= j < i ==> (#[trigger] before[j]).path@ != path@,
            decreases before.len() - i,
        {
            if same_text(self.items[i].path.as_str(), path) {
                self.items.remove(i);
                proof {
                    assert(self.items@ =~= before.remove(i as int));
                    lemma_path_map_remove(before, i as int);
                    assert forall|j: int, k: int| 0 <= j < k < self.items@.len() implies (
                    #[trigger] self.items@[j]).path@ != (#[trigger] self.items@[k]).path@ by {
                        let a = if j < i {
                            j
                        } else {
                            j + 1
                        };
                        let b = if k < i {
                            k
                        } else {
                            k + 1
                        };
                        assert(before[a].path@ != before[b].path@);
                    }
                }
                return;
            }
            i = i + 1;
        }
        proof {
            crate::repo::flatten::lemma_path_map_missing(before, path@);
            assert(path_map(before).remove(path@) =~= path_map(before));
        }
    }
}

proof fn lemma_path_map_remove(s: Seq<PathItem>, i: int)
    requires
        0 <= i < s.len(),
        forall|j: int, k: int|
            0 <= j < k < s.len() ==> (#[trigger] s[j]).path@ != (#[trigger] s[k]).path@,
    ensures
        path_map(s.remove(i)) == path_map(s).remove(s[i].path@),
    decreases s.len(),
{
    let t = s.remove(i);
    let before = s.drop_last();
    let k = s[i].path@;
    if i == s.len() - 1 {
        assert(t =~= before);
        assert forall|j: int| 0 <= j < before.len() implies (#[trigger] before[j]).path@ != k by {
            assert(s[j].path@ != s[i].path@);
        }
        crate::repo::flatten::lemma_path_map_missing(before, k);
        assert(path_map(s).remove(k) =~= path_map(before));
    } else {
        assert forall|j: int, m: int| 0 <= j < m < before.len() implies (
        #[trigger] before[j]).path@ != (#[trigger] before[m]).path@ by {
            assert(s[j].path@ != s[m].path@);
        }
        lemma_path_map_remove(before, i);
        assert(t.drop_last() =~= before.remove(i));
        assert(s[i].path@ != s[s.len() - 1].path@);
        assert(path_map(t) =~= path_map(s).remove(k));
    }
}

fn deleted_lines(map: &PathMap) -> (r: Vec<String>)
    requires
        map.wf(),
    ensures
        lists_deleted(texts(r@), map@),
{
    let mut lines: Vec<String> = Vec::new();
    let mut i: usize = 0;
    while i < map.items.len()
        invariant
            i <= map.items@.len(),
            lines@.len() == i,
            forall|j: int|
                0 <= j < i ==> (#[trigger] lines@[j])@ == deleted_line(map.items@[j].path@),
        decreases map.items@.len() - i,
    {
        lines.push(concat_texts("\tdeleted:    ", map.items[i].path.as_str()));
        i = i + 1;
    }
    proof {
        let all = texts(lines@);
        let prefix = "\tdeleted:    "@;
        assert forall|j: int, k: int| 0 <= j < k < all.len() implies all[j] != all[k] by {
            let a = map.items@[j].path@;
            let b = map.items@[k].path@;
            assert(a != b);
            assert(deleted_line(a).skip(prefix.len() as int) =~= a);
            assert(deleted_line(b).skip(prefix.len() as int) =~= b);
        }
        assert forall|line: Seq<char>| #[trigger]
            all.contains(line) <==> exists|path: Seq<char>| #[trigger]
                map@.contains_key(path) && line == deleted_line(path) by {
            if all.contains(line) {
                let j = choose|j: int| 0 <= j < all.len() && all[j] == line;
                assert forall|m: int| j < m < map.items@.len() implies (
                #[trigger] map.items@[m]).path@ != map.items@[j].path@ by {
                    assert(map.items@[j].path@ != map.items@[m].path@);
                }
                crate::repo::flatten::lemma_path_map_at(map.items@, map.items@[j].path@, j);
                assert(map@.contains_key(map.items@[j].path@));
            }
            if exists|path: Seq<char>| #[trigger]
                map@.contains_key(path) && line == deleted_line(path) {
                let path = choose|path: Seq<char>| #[trigger]
                    map@.contains_key(path) && line == deleted_line(path);
                if !(exists|j: int| 0 <= j < map.items@.len() && (#[trigger] map.items@[j]).path@
                    == path) {
                    crate::repo::flatten::lemma_path_map_missing(map.items@, path);
                }
                let j = choose|j: int|
                    0 <= j < map.items@.len() && (#[trigger] map.items@[j]).path@ == path;
                assert(all[j] == line);
            }
        }
    }
    lines
}

/// The lines for what is staged: what in the index is not as it was committed, and then what was
/// committed and is not in the index.
pub fn status_index(committed: PathMap, index: &Index) -> (r: Vec<String>)
    requires
        committed.wf(),
    ensures
        exists|deleted: Seq<Seq<char>>| #[trigger]
            lists_deleted(deleted, staged_changes(committed@, index.entries@).1) && texts(r@)
                == staged_changes(committed@, index.entries@).0 + deleted,
{
    let ghost start = committed@;
    let ghost entries = index.entries@;
    let mut rest = committed;
    let mut lines: Vec<String> = Vec::new();
    let mut i: usize = 0;
    assert(entries.take(0) =~= Seq::empty());
    assert(texts(lines@) =~= Seq::empty());
    while i < index.entries.len()
        invariant
            i <= index.entries@.len(),
            entries == index.entries@,
            start == committed@,
            rest.wf(),
            staged_changes(start, entries.take(i as int)) == (texts(lines@), rest@),
        decreases index.entries@.len() - i,
    {
        let entry = &index.entries[i];
        let ghost before = texts(lines@);
        assert(entries.take(i + 1).drop_last() =~= entries.take(i as int));
        assert(entries.take(i + 1).last() == entries[i as int]);
        let name = entry.object_name.as_str();
        let (is_there, same): (bool, bool) = match rest.get(name) {
            Some(id) => (true, same_text(id, entry.object_id.as_str())),
            None => (false, false),
        };
        if !is_there {
            let line = concat_texts("\tadded:      ", name);
            lines.push(line);
            assert(texts(lines@) =~= before.push(line@));
        } else {
            if !same {
                let line = concat_texts("\tmodified:   ", name);
                lines.push(line);
                assert(texts(lines@) =~= before.push(line@));
            }
            rest.remove(name);
        }
        i = i + 1;
    }
    assert(entries.take(i as int) =~= entries);
    let mut deleted = deleted_lines(&rest);
    let ghost a = texts(lines@);
    let ghost b = texts(deleted@);
    lines.append(&mut deleted);
    assert(texts(lines@) =~= a + b);
    assert(lists_deleted(b, staged_changes(committed@, index.entries@).1));
    lines
}

/// Whether the times of a file are not those that the index records; a time of change that is
/// not known does not count.
pub fn times_differ(entry: &IndexEntry, ctime: Option<Timestamp>, mtime: Timestamp) -> (r: bool)
    ensures
        r == ((ctime matches Some(c) && !(entry.ctime.spec_secs() == c.spec_secs()
            && entry.ctime.spec_nanos() == c.spec_nanos())) || !(entry.mtime.spec_secs()
            == mtime.spec_secs() && entry.mtime.spec_nanos() == mtime.spec_nanos())),
{
    let ctimes_differ = match ctime {
        Some(c) => !entry.ctime.same_moment(&c),
        None => false,
    };
    ctimes_differ || !entry.mtime.same_moment(&mtime)
}

/// Whether the contents of a file are not those that the index records.
pub fn contents_differ(entry: &IndexEntry, contents: Vec<u8>) -> (r: bool)
    ensures
        r == (entry.object_id@ != blob_name(contents@)),
{
    let raw = RawObject::from_git_object(&Blob::new_from_read(contents));
    !same_text(raw.object_id(), entry.object_id.as_str())
}

/// What a file in the index is in the worktree.
#[derive(Clone, Copy, Debug, PartialEq, Eq, Structural)]
pub enum FileState {
    /// It is not there.
    Missing,
    /// It is as the index records it.
    Same,
    /// It has other contents.
    Modified,
}

/// The lines for files that are not in the worktree as the index records them.
pub open spec fn unstaged_changes(entries: Seq<IndexEntry>, states: Seq<FileState>) -> Seq<
    Seq<char>,
>
    decreases entries.len(),
{
    if entries.len() == 0 {
        Seq::empty()
    } else {
        let before = unstaged_changes(entries.drop_last(), states);
        let name = entries.last().object_name@;
        match states[entries.len() - 1] {
            FileState::Missing => before.push("\tdeleted: "@ + name),
            FileState::Modified => before.push("\tmodified:   "@ + name),
            FileState::Same => before,
        }
    }
}

/// The lines for files that are not in the worktree as the index records them, given what each
/// one is there.
pub fn status_worktree(index: &Index, states: &[FileState]) -> (r: Vec<String>)
    requires
        states@.len() == index.entries@.len(),
    ensures
        texts(r@) == unstaged_changes(index.entries@, states@),
{
    let ghost entries = index.entries@;
    let mut lines: Vec<String> = Vec::new();
    let mut i: usize = 0;
    assert(entries.take(0) =~= Seq::empty());
    assert(texts(lines@) =~= Seq::empty());
    while i < index.entries.len()
        invariant
            i <= index.entries@.len(),
            entries == index.entries@,
            states@.len() == entries.len(),
            texts(lines@) == unstaged_changes(entries.take(i as int), states@),
        decreases index.entries@.len() - i,
    {
        let ghost before = texts(lines@);
        assert(entries.take(i + 1).drop_last() =~= entries.take(i as int));
        assert(entries.take(i + 1).last() == entries[i as int]);
        let name = index.entries[i].object_name.as_str();
        match states[i] {
            FileState::Missing => {
                let line = concat_texts("\tdeleted: ", name);
                lines.push(line);
                assert(texts(lines@) =~= before.push(line@));
            },
            FileState::Modified => {
                let line = concat_texts("\tmodified:   ", name);
                lines.push(line);
                assert(texts(lines@) =~= before.push(line@));
            },
            FileState::Same => {},
        }
        i = i + 1;
    }
    assert(entries.take(i as int) =~= entries);
    lines
}

/// The paths that are not those of entries of the index.
pub open spec fn untracked(files: Seq<Seq<char>>, entries: Seq<IndexEntry>) -> Seq<Seq<char>>
    decreases files.len(),
{
    if files.len() == 0 {
        Seq::empty()
    } else {
        let before = untracked(files.drop_last(), entries);
        if crate::index::has_path(entries, files.last()) {
            before
        } else {
            before.push(files.last())
        }
    }
}

/// The paths that are untracked are those of the files that are not paths of entries of the
/// index, all of them, as often and in the order in which they come.
pub proof fn theorem_untracked(files: Seq<Seq<char>>, entries: Seq<IndexEntry>)
    ensures
        forall|p: Seq<char>| #[trigger]
            untracked(files, entries).contains(p) <==> files.contains(p) && forall|i: int|
                0 <= i < entries.len() ==> (#[trigger] entries[i])@.object_name != p,
        untracked(files, entries) == files.filter(
            |p: Seq<char>| !crate::index::has_path(entries, p),
        ),
    decreases files.len(),
{
    let keep = |p: Seq<char>| !crate::index::has_path(entries, p);
    lemma_untracked_filter(files, entries);
    assert forall|p: Seq<char>| #[trigger]
        untracked(files, entries).contains(p) <==> files.contains(p) && forall|i: int|
            0 <= i < entries.len() ==> (#[trigger] entries[i])@.object_name != p by {
        crate::text::lemma_filter_contains(files, keep, p);
    }
}

proof fn lemma_untracked_filter(files: Seq<Seq<char>>, entries: Seq<IndexEntry>)
    ensures
        untracked(files, entries) == files.filter(
            |p: Seq<char>| !crate::index::has_path(entries, p),
        ),
    decreases files.len(),
{
    let keep = |p: Seq<char>| !crate::index::has_path(entries, p);
    reveal(Seq::filter);
    if files.len() > 0 {
        lemma_untracked_filter(files.drop_last(), entries);
    }
}

/// The paths of files in the worktree that are not in the index.
pub fn untracked_files(files: &[String], index: &Index) -> (r: Vec<String>)
    ensures
        texts(r@) == untracked(texts(files@), index.entries@),
        forall|p: Seq<char>| #[trigger]
            texts(r@).contains(p) <==> texts(files@).contains(p) && !crate::index::has_path(
                index.entries@,
                p,
            ),
{
    let ghost all = texts(files@);
    let mut out: Vec<String> = Vec::new();
    let mut i: usize = 0;
    assert(all.take(0) =~= Seq::empty());
    assert(texts(out@) =~= Seq::empty());
    while i < files.len()
        invariant
            i <= files@.len(),
            all == texts(files@),
            texts(out@) == untracked(all.take(i as int), index.entries@),
        decreases files@.len() - i,
    {
        let ghost before = texts(out@);
        assert(all.take(i + 1).drop_last() =~= all.take(i as int));
        assert(all.take(i + 1).last() == files@[i as int]@);
        if !index.contains_path(files[i].as_str()) {
            out.push(files[i].clone());
            assert(texts(out@) =~= before.push(files@[i as int]@));
        }
        i = i + 1;
    }
    assert(all.take(i as int) =~= all);
    proof {
        theorem_untracked(all, index.entries@);
    }
    out
}

/// The message of a commit without one.
pub open spec fn no_message() -> Seq<char> {
    "User forgot to enter commit message"@
}

/// The bytes that a new commit is stored as.
pub open spec fn commit_bytes(
    tree_id: Seq<char>,
    parent_id: Option<Seq<char>>,
    author: Seq<char>,
    committer: Seq<char>,
    timestamp: Timestamp,
    message: Seq<char>,
) -> Seq<u8> {
    kvlm_bytes(
        commit_fields(
            tree_id,
            parent_id,
            timestamped(author, timestamp.spec_secs(), timestamp.spec_offset()),
            timestamped(committer, timestamp.spec_secs(), timestamp.spec_offset()),
        ),
        trim(message).push('\n'),
    )
}

/// The stored form of a commit.
pub open spec fn commit_data(bytes: Seq<u8>) -> DataView {
    DataView { kind: KindView::Commit, size: bytes.len() as int, data: bytes }
}

/// The ID of a commit.
pub open spec fn commit_name(bytes: Seq<u8>) -> Seq<char> {
    object_name(KindView::Commit, bytes.len() as int, bytes)
}

/// Why the index cannot be committed.
#[derive(Debug)]
pub enum CommitError {
    /// An object that the index lists is not in the repository.
    MissingObject(String),
    /// The repository could not be read or written.
    Repo(RepoError),
}

/// Whether an object is the first one that the index lists and the repository does not hold.
pub open spec fn first_missing(repo: RepoView, entries: Seq<IndexEntry>, id: Seq<char>) -> bool {
    exists|i: int|
        0 <= i < entries.len() && (#[trigger] entries[i]).object_id@ == id && lookup(
            repo.objects,
            id,
        ) is None && forall|j: int|
            0 <= j < i ==> lookup(repo.objects, (#[trigger] entries[j]).object_id@) is Some
}

/// Whether the repository holds all objects that the index lists.
pub open spec fn none_missing(repo: RepoView, entries: Seq<IndexEntry>) -> bool {
    forall|i: int|
        0 <= i < entries.len() ==> lookup(
            repo.objects,
            (#[trigger] entries[i]).object_id@,
        ) is Some
}

impl<L: ObjectStore, P: ObjectStore, R: RefStore> Repository<L, P, R> {
    /// Stores the index as trees and gives the ID of the top one; the objects that it lists must
    /// be in the repository unless no check is wanted.
    pub fn store_index_as_tree(&mut self, index: &Index, no_checks: bool) -> (r: Result<
        String,
        CommitError,
    >)
        ensures
            final(self).packs == old(self).packs,
            final(self).ref_store == old(self).ref_store,
            final(self).head == old(self).head,
            old(self).loose_object_store.accepts_writes()
                ==> final(self).loose_object_store.accepts_writes(),
            match r {
                Ok(id) => {
                    let entries = entry_views(index.entries@);
                    &&& no_checks || none_missing(old(self)@, index.entries@)
                    &&& id@ == root_tree(entries)
                    &&& final(self).loose_object_store.objects() == with_trees(
                        old(self).loose_object_store.objects(),
                        entries,
                        dir_order(entries),
                        dir_order(entries).len(),
                    )
                },
                Err(CommitError::MissingObject(id)) => !no_checks && first_missing(
                    old(self)@,
                    index.entries@,
                    id@,
                ) && *final(self) == *old(self),
                Err(CommitError::Repo(RepoError::Store(_))) => {
                    ||| !no_checks && !old(self).reliable() && *final(self) == *old(self)
                    ||| (no_checks || none_missing(old(self)@, index.entries@))
                        && !old(self).loose_object_store.accepts_writes()
                },
                Err(CommitError::Repo(_)) => false,
            },
    {
        if !no_checks {
            match self.check_index(index) {
                Err(e) => {
                    return Err(CommitError::Repo(RepoError::Store(e)));
                },
                Ok(Some(id)) => {
                    return Err(CommitError::MissingObject(id));
                },
                Ok(None) => {},
            }
        }
        match self.store_index(index) {
            Err(e) => Err(CommitError::Repo(RepoError::Store(e))),
            Ok(id) => Ok(id),
        }
    }

    /// Stores a commit of a tree and gives its ID.
    pub fn create_commit_for_tree(
        &mut self,
        tree_id: &str,
        parent: Option<&str>,
        message: &str,
        author: &str,
        committer: &str,
        timestamp: &Timestamp,
    ) -> (r: Result<String, StoreError>)
        ensures
            final(self).packs == old(self).packs,
            final(self).ref_store == old(self).ref_store,
            final(self).head == old(self).head,
            r is Err ==> !old(self).loose_object_store.accepts_writes(),
            old(self).loose_object_store.accepts_writes()
                ==> final(self).loose_object_store.accepts_writes(),
            r matches Ok(id) ==> {
                let bytes = commit_bytes(
                    tree_id@,
                    opt_str(parent),
                    author@,
                    committer@,
                    *timestamp,
                    message@,
                );
                &&& id@ == commit_name(bytes)
                &&& final(self).loose_object_store.objects() == with_object(
                    old(self).loose_object_store.objects(),
                    commit_name(bytes),
                    commit_data(bytes),
                )
            },
    {
        let commit = Commit::new(tree_id, parent, author, committer, timestamp, message);
        self.write_object(&commit)
    }

    /// Commits the index: stores its trees and a commit of them that follows the current one,
    /// and makes the current branch, or else `HEAD`, lead to it.  Gives the ID of the commit and
    /// what to add to the ref logs.
    pub fn full_commit(
        &mut self,
        index: &Index,
        message: Option<&str>,
        author: &str,
        committer: &str,
        timestamp: &Timestamp,
    ) -> (r: Result<(String, Vec<LogAppend>), CommitError>)
        ensures
            final(self).packs == old(self).packs,
            ({
                let repo = old(self)@;
                let entries = entry_views(index.entries@);
                let text = or_text(opt_str(message), no_message());
                let bytes = commit_bytes(
                    root_tree(entries),
                    current_commit_id(repo),
                    author@,
                    committer@,
                    *timestamp,
                    text,
                );
                match r {
                    Ok((id, appends)) => {
                        &&& head_valid(repo)
                        &&& none_missing(repo, index.entries@)
                        &&& id@ == commit_name(bytes)
                        &&& final(self).loose_object_store.objects() == with_object(
                            with_trees(
                                old(self).loose_object_store.objects(),
                                entries,
                                dir_order(entries),
                                dir_order(entries).len(),
                            ),
                            commit_name(bytes),
                            commit_data(bytes),
                        )
                        &&& match head_branch(repo) {
                            Ok(Some(b)) => {
                                &&& parse_target(id@) is Some
                                &&& final(self)@.head == repo.head
                                &&& final(self)@.refs == repo.refs.insert(
                                    local_branch(b.name),
                                    parse_target(id@)->0,
                                )
                                &&& logs_change(
                                    appends@,
                                    change_line(
                                        current_commit_id(repo),
                                        id@,
                                        committer@,
                                        commit_log_message(text),
                                        *timestamp,
                                    ),
                                    RefView::Branch(b),
                                    true,
                                )
                            },
                            Ok(None) => {
                                &&& final(self)@.head == Some(id@ + "\n"@)
                                &&& final(self)@.refs == repo.refs
                                &&& logs_change(
                                    appends@,
                                    change_line(
                                        current_commit_id(repo),
                                        id@,
                                        committer@,
                                        commit_log_message(text),
                                        *timestamp,
                                    ),
                                    RefView::Head,
                                    false,
                                )
                            },
                            Err(_) => false,
                        }
                    },
                    Err(CommitError::MissingObject(id)) => head_valid(repo) && first_missing(
                        repo,
                        index.entries@,
                        id@,
                    ) && *final(self) == *old(self),
                    Err(CommitError::Repo(RepoError::Store(_))) => {
                        ||| !old(self).reliable() && *final(self) == *old(self)
                        ||| head_valid(repo) && none_missing(repo, index.entries@)
                            && !old(self).loose_object_store.accepts_writes()
                        ||| head_valid(repo) && none_missing(repo, index.entries@)
                            && !old(self).ref_store.accepts_writes() && (head_branch(
                            repo,
                        ) matches Ok(Some(_))) && parse_target(commit_name(bytes)) is Some
                    },
                    Err(CommitError::Repo(RepoError::MissingHead)) => {
                        &&& head_branch(repo) == Err::<Option<BranchView>, bool>(false)
                        &&& none_missing(repo, index.entries@)
                        &&& final(self)@.refs == repo.refs
                        &&& final(self)@.head == repo.head
                    },
                    Err(CommitError::Repo(RepoError::Name(_))) => {
                        &&& final(self)@.refs == repo.refs
                        &&& final(self)@.head == repo.head
                        &&& {
                            ||| !head_valid(repo) && *final(self) == *old(self)
                            ||| head_valid(repo) && none_missing(repo, index.entries@) && (
                            head_branch(repo) == Err::<Option<BranchView>, bool>(true) || (
                            head_branch(repo) matches Ok(Some(_)) && parse_target(
                                commit_name(bytes),
                            ) is None))
                        }
                    },
                    Err(_) => false,
                }
            }),
    {
        let parent = match self.current_commit() {
            Err(e) => {
                return Err(CommitError::Repo(e));
            },
            Ok(c) => c,
        };
        let parent_id: Option<&str> = match &parent {
            Some(c) => Some(c.as_str()),
            None => None,
        };
        let tree_id = match self.store_index_as_tree(index, false) {
            Err(e) => {
                return Err(e);
            },
            Ok(id) => id,
        };
        let text = match message {
            Some(m) => m,
            None => "User forgot to enter commit message",
        };
        let commit_id = match self.create_commit_for_tree(
            tree_id.as_str(),
            parent_id,
            text,
            author,
            committer,
            timestamp,
        ) {
            Err(e) => {
                return Err(CommitError::Repo(RepoError::Store(e)));
            },
            Ok(id) => id,
        };
        let log_message = shorten_and_prefix_message("commit", text);
        match self.current_branch() {
            Err(e) => Err(CommitError::Repo(e)),
            Ok(Some(b)) => match self.update_local_branch(b.name.as_str(), commit_id.as_str()) {
                Err(e) => Err(CommitError::Repo(e)),
                Ok(_) => {
                    let appends = ref_log_appends(
                        parent_id,
                        commit_id.as_str(),
                        committer,
                        log_message.as_str(),
                        &b.into_ref_spec(),
                        true,
                        timestamp,
                    );
                    Ok((commit_id, appends))
                },
            },
            Ok(None) => {
                self.update_head_detached(commit_id.as_str());
                let appends = ref_log_appends(
                    parent_id,
                    commit_id.as_str(),
                    committer,
                    log_message.as_str(),
                    &RefSpec::Head,
                    false,
                    timestamp,
                );
                Ok((commit_id, appends))
            },
        }
    }
}

/// What a ref log says of a commit.
pub open spec fn commit_log_message(message: Seq<char>) -> Seq<char> {
    "commit"@ + seq![':', ' '] + trim(first_line(message))
}

} // verus!
