//! The commands that list something.

use vstd::prelude::*;

use crate::cli::fetch_maps::FetchDefinition;
use crate::helpers::{is_ref_name_legal, legal_ref_name};
use crate::ignore::{is_ignored, IgnoreInfo};
use crate::index::{Index, IndexEntry};
use crate::interop::{show_moment, shown_moment};
use crate::moments::Timestamp;
use crate::numerals::{decimal, numeral};
use crate::helpers::fs::path_translate;
use crate::repo::commits::{is_commit, is_start, newest_first, reachable, whole_walk, WalkError};
use crate::repo::model::RepoView;
use crate::repo::refs::{
    any_ref, list_ref_targets, lists_targets, names_sorted, only_tags, ref_entries,
    target_list_view, RefTargets,
};
use crate::repo::worktree::{is_within, path_below_dir, path_is_within};
use crate::repo::{RepoError, Repository};
use crate::stores::backends::{ObjectStore, RefStore, StoreError};
use crate::stores::{target_text, TargetView};
use crate::text::{concat_texts, join, opt_str, texts};

verus! {

broadcast use vstd::string::group_string_axioms;

/// `true` or `false`.
pub open spec fn bool_text(b: bool) -> Seq<char> {
    if b {
        "true"@
    } else {
        "false"@
    }
}

/// A moment in UTC as text.
pub open spec fn moment_shown(t: Timestamp) -> Seq<char> {
    shown_moment(t.spec_secs(), t.spec_nanos())
}

/// The type of an entry in words.
pub open spec fn type_text(e: IndexEntry) -> Seq<char> {
    match e.mode_type {
        crate::index::IndexEntryType::File => "regular file"@,
        crate::index::IndexEntryType::Symlink => "symbolic link"@,
        crate::index::IndexEntryType::Gitlink => "git link"@,
    }
}

/// The permissions of an entry.
pub open spec fn permissions_text(e: IndexEntry) -> Seq<char> {
    match e.mode_perms {
        crate::index::IndexEntryPermissions::Executable => "0755"@,
        crate::index::IndexEntryPermissions::NonExecutable => "0644"@,
        crate::index::IndexEntryPermissions::Link => "0000"@,
    }
}

/// The lines that say everything about an entry of the index but its path.
pub open spec fn detail_lines(e: IndexEntry) -> Seq<Seq<char>> {
    seq![
        "  "@ + type_text(e) + " with perms: "@ + permissions_text(e),
        "  on blob "@ + e.object_id@,
        "  size "@ + numeral(e.fsize as nat, 10),
        "  created "@ + moment_shown(e.ctime) + ", modified "@ + moment_shown(e.mtime),
        "  device "@ + numeral(e.dev as nat, 10) + ", inode "@ + numeral(e.ino as nat, 10),
        "  user "@ + numeral(e.uid as nat, 10) + ", group "@ + numeral(e.gid as nat, 10),
        "  flags: stage="@ + numeral(e.flag_stage as nat, 10) + ", assume_valid="@ + bool_text(
            e.flag_assume_valid,
        ),
    ]
}

/// The lines for the entries of an index.
pub open spec fn entry_lines(entries: Seq<IndexEntry>, verbose: bool) -> Seq<Seq<char>>
    decreases entries.len(),
{
    if entries.len() == 0 {
        Seq::empty()
    } else {
        let before = entry_lines(entries.drop_last(), verbose).push(entries.last().object_name@);
        if verbose {
            before + detail_lines(entries.last())
        } else {
            before
        }
    }
}

/// The lines for an index.
pub open spec fn index_lines(index: Index, verbose: bool) -> Seq<Seq<char>> {
    let head = if verbose {
        seq![
            "Index file format v"@ + numeral(index.version as nat, 10) + ", containing "@ + numeral(
                index.entries@.len(),
                10,
            ) + " entries"@,
        ]
    } else {
        Seq::empty()
    };
    head + entry_lines(index.entries@, verbose)
}

fn show(t: &Timestamp) -> (r: String)
    ensures
        r@ == moment_shown(*t),
{
    let secs: i64 = t.timestamp();
    let nanos: u32 = t.timestamp_subsec_nanos();
    show_moment(secs, nanos)
}

fn four_parts(a: &str, b: &str, c: &str, d: &str) -> (r: String)
    ensures
        r@ == a@ + b@ + c@ + d@,
{
    let mut out = concat_texts(a, b);
    out.append(c);
    out.append(d);
    out
}

fn details(e: &IndexEntry) -> (r: Vec<String>)
    ensures
        texts(r@) == detail_lines(*e),
{
    let mut out: Vec<String> = Vec::new();
    out.push(
        four_parts(
            "  ",
            e.mode_type.to_string().as_str(),
            " with perms: ",
            e.mode_perms.to_string().as_str(),
        ),
    );
    out.push(concat_texts("  on blob ", e.object_id.as_str()));
    out.push(concat_texts("  size ", decimal(e.fsize as u64).as_str()));
    out.push(
        four_parts("  created ", show(&e.ctime).as_str(), ", modified ", show(&e.mtime).as_str()),
    );
    out.push(
        four_parts(
            "  device ",
            decimal(e.dev as u64).as_str(),
            ", inode ",
            decimal(e.ino as u64).as_str(),
        ),
    );
    out.push(
        four_parts(
            "  user ",
            decimal(e.uid as u64).as_str(),
            ", group ",
            decimal(e.gid as u64).as_str(),
        ),
    );
    out.push(
        four_parts(
            "  flags: stage=",
            decimal(e.flag_stage as u64).as_str(),
            ", assume_valid=",
            if e.flag_assume_valid {
                "true"
            } else {
                "false"
            },
        ),
    );
    assert(texts(out@) =~= detail_lines(*e));
    out
}

/// The lines for an index: the path of each entry, and everything else if asked for.
pub fn list_files(index: &Index, verbose: bool) -> (r: Vec<String>)
    ensures
        texts(r@) == index_lines(*index, verbose),
{
    let mut out: Vec<String> = Vec::new();
    let ghost entries = index.entries@;
    assert(texts(out@) =~= Seq::empty());
    if verbose {
        let mut line = four_parts(
            "Index file format v",
            decimal(index.version as u64).as_str(),
            ", containing ",
            decimal(index.entries.len() as u64).as_str(),
        );
        line.append(" entries");
        out.push(line);
        assert(texts(out@) =~= seq![line@]);
    }
    let ghost head = texts(out@);
    let mut i: usize = 0;
    assert(entries.take(0) =~= Seq::empty());
    assert(head + entry_lines(entries.take(0), verbose) =~= head);
    while i < index.entries.len()
        invariant
            i <= index.entries@.len(),
            entries == index.entries@,
            texts(out@) == head + entry_lines(entries.take(i as int), verbose),
        decreases index.entries@.len() - i,
    {
        let ghost before = texts(out@);
        let ghost so_far = entry_lines(entries.take(i as int), verbose);
        let entry = &index.entries[i];
        assert(entries.take(i + 1).drop_last() =~= entries.take(i as int));
        assert(entries.take(i + 1).last() == entries[i as int]);
        out.push(entry.object_name.clone());
        assert(texts(out@) =~= before.push(entry.object_name@));
        if verbose {
            let ghost middle = out@;
            let mut more = details(entry);
            let ghost new = more@;
            out.append(&mut more);
            assert(texts(out@) =~= texts(middle) + texts(new));
            assert(texts(out@) =~= head + (so_far.push(entry.object_name@) + detail_lines(*entry)));
        } else {
            assert(texts(out@) =~= head + so_far.push(entry.object_name@));
        }
        i = i + 1;
    }
    assert(entries.take(i as int) =~= entries);
    out
}

/// The line for a reference.
pub open spec fn ref_line(entry: (Seq<char>, TargetView), with_hash: bool) -> Seq<char> {
    if with_hash {
        target_text(entry.1) + " "@ + entry.0
    } else {
        entry.0
    }
}

/// The lines for references: their names, after what they lead to if asked for.
pub fn print_refs(ref_map: &RefTargets, with_hash: bool) -> (r: Vec<String>)
    ensures
        texts(r@) == ref_entries(*ref_map).map_values(
            |e: (Seq<char>, TargetView)| ref_line(e, with_hash),
        ),
{
    let list = list_ref_targets(ref_map);
    let ghost entries = ref_entries(*ref_map);
    let mut out: Vec<String> = Vec::new();
    let mut i: usize = 0;
    while i < list.len()
        invariant
            i <= list@.len(),
            entries == target_list_view(list@),
            out@.len() == i,
            forall|j: int| 0 <= j < i ==> (#[trigger] out@[j])@ == ref_line(entries[j], with_hash),
        decreases list@.len() - i,
    {
        let line = if with_hash {
            let mut line = list[i].1.to_string();
            line.append(" ");
            line.append(list[i].0.as_str());
            line
        } else {
            list[i].0.clone()
        };
        assert(entries[i as int] == (list@[i as int].0@, list@[i as int].1@));
        out.push(line);
        i = i + 1;
    }
    assert(texts(out@) =~= entries.map_values(
        |e: (Seq<char>, TargetView)| ref_line(e, with_hash),
    ));
    out
}

/// The line for an address of a remote.
pub fn remote_formatter(name: &str, url: &str, direction: &str) -> (r: String)
    ensures
        r@ == name@ + "\t"@ + url@ + " ("@ + direction@ + ")"@,
{
    let mut out = concat_texts(name, "\t");
    out.append(url);
    out.append(" (");
    out.append(direction);
    out.append(")");
    out
}

/// Whether a name is one that a reference can have.
pub fn check_format(ref_name: &str) -> (r: bool)
    ensures
        r == legal_ref_name(ref_name@),
{
    is_ref_name_legal(ref_name)
}

/// The paths that are ignored.
pub open spec fn ignored_paths(info: IgnoreInfo, paths: Seq<Seq<char>>) -> Seq<Seq<char>>
    decreases paths.len(),
{
    if paths.len() == 0 {
        Seq::empty()
    } else {
        let before = ignored_paths(info, paths.drop_last());
        if is_ignored(info, paths.last()) {
            before.push(paths.last())
        } else {
            before
        }
    }
}

/// The paths of a list that are ignored.
pub fn check_ignore(paths: &[String], info: &IgnoreInfo) -> (r: Vec<String>)
    requires
        info.wf(),
    ensures
        texts(r@) == ignored_paths(*info, texts(paths@)),
{
    let ghost all = texts(paths@);
    let mut out: Vec<String> = Vec::new();
    let mut i: usize = 0;
    assert(all.take(0) =~= Seq::empty());
    assert(texts(out@) =~= Seq::empty());
    while i < paths.len()
        invariant
            info.wf(),
            i <= paths@.len(),
            all == texts(paths@),
            texts(out@) == ignored_paths(*info, all.take(i as int)),
        decreases paths@.len() - i,
    {
        let ghost before = texts(out@);
        assert(all.take(i + 1).drop_last() =~= all.take(i as int));
        assert(all.take(i + 1).last() == paths@[i as int]@);
        if info.check(paths[i].as_str()) {
            out.push(paths[i].clone());
            assert(texts(out@) =~= before.push(paths@[i as int]@));
        }
        i = i + 1;
    }
    assert(all.take(i as int) =~= all);
    out
}

/// Whether a file or directory is left out when the worktree is searched: what is outside the
/// worktree or in the repository's own directory, and what is ignored.
pub fn is_pruned(
    worktree: &[String],
    git_dir: &[String],
    path: &[String],
    info: &IgnoreInfo,
) -> (r: bool)
    requires
        info.wf(),
    ensures
        r == ({
            let p = texts(path@);
            let below = join(p.skip(worktree@.len() as int), seq!['/']);
            !is_within(p, texts(worktree@)) || is_within(p, texts(git_dir@)) || is_ignored(
                *info,
                below,
            )
        }),
{
    if !path_is_within(path, worktree) || path_is_within(path, git_dir) {
        return true;
    }
    assert(texts(worktree@).len() == worktree@.len());
    assert(texts(path@).len() == path@.len());
    let below = path_below_dir(path, worktree);
    let name = path_translate(below.as_slice());
    info.check(name.as_str())
}

/// What to do after files were to be taken out of the index.
#[derive(Clone, Copy, Debug, PartialEq, Eq, Structural)]
pub enum RemovalOutcome {
    /// The index has to be written.
    WriteIndex,
    /// There is nothing to do.
    Nothing,
    /// No file was taken out, which is an error.
    NoneRemoved,
}

/// What to do after files were to be taken out of the index.
pub fn removal_outcome(some_removed: bool, ignore_no_matches: bool) -> (r: RemovalOutcome)
    ensures
        r == if some_removed {
            RemovalOutcome::WriteIndex
        } else if ignore_no_matches {
            RemovalOutcome::Nothing
        } else {
            RemovalOutcome::NoneRemoved
        },
{
    if some_removed {
        RemovalOutcome::WriteIndex
    } else if ignore_no_matches {
        RemovalOutcome::Nothing
    } else {
        RemovalOutcome::NoneRemoved
    }
}

/// A remote: its name, the addresses that are fetched from and pushed to, and what is followed.
pub struct RemoteInfo {
    /// The name.
    pub name: String,
    /// The addresses that are fetched from.
    pub fetch_urls: Vec<String>,
    /// The addresses that are pushed to.
    pub push_urls: Vec<String>,
    /// Which of its references are followed, and by which ones.
    pub fetch_defs: Vec<FetchDefinition>,
}

/// The lines for the addresses of a remote.
pub open spec fn url_lines(name: Seq<char>, urls: Seq<Seq<char>>, direction: Seq<char>) -> Seq<
    Seq<char>,
> {
    urls.map_values(|u: Seq<char>| name + "\t"@ + u + " ("@ + direction + ")"@)
}

/// The lines for remotes: their names, or their names and addresses.
pub open spec fn remote_lines(remotes: Seq<RemoteInfo>, verbose: bool) -> Seq<Seq<char>>
    decreases remotes.len(),
{
    if remotes.len() == 0 {
        Seq::empty()
    } else {
        let before = remote_lines(remotes.drop_last(), verbose);
        let r = remotes.last();
        if verbose {
            before + url_lines(r.name@, texts(r.fetch_urls@), "fetch"@) + url_lines(
                r.name@,
                texts(r.push_urls@),
                "push"@,
            )
        } else {
            before.push(r.name@)
        }
    }
}

fn push_url_lines(out: &mut Vec<String>, name: &str, urls: &[String], direction: &str)
    ensures
        texts(final(out)@) == texts(old(out)@) + url_lines(name@, texts(urls@), direction@),
{
    let ghost before = texts(out@);
    let ghost all = url_lines(name@, texts(urls@), direction@);
    let mut i: usize = 0;
    assert(before + all.take(0) =~= before);
    while i < urls.len()
        invariant
            i <= urls@.len(),
            all == url_lines(name@, texts(urls@), direction@),
            texts(out@) == before + all.take(i as int),
        decreases urls@.len() - i,
    {
        let ghost was = texts(out@);
        let line = remote_formatter(name, urls[i].as_str(), direction);
        assert(texts(urls@)[i as int] == urls@[i as int]@);
        assert(all[i as int] == line@);
        out.push(line);
        assert(texts(out@) =~= was.push(line@));
        assert(was.push(line@) =~= before + all.take(i + 1));
        i = i + 1;
    }
    assert(all.take(i as int) =~= all);
}

/// The lines for remotes: their names, or their names and addresses.
pub fn list_remotes(remotes: &[RemoteInfo], verbose: bool) -> (r: Vec<String>)
    ensures
        texts(r@) == remote_lines(remotes@, verbose),
{
    let mut out: Vec<String> = Vec::new();
    let mut i: usize = 0;
    assert(remotes@.take(0) =~= Seq::empty());
    assert(texts(out@) =~= Seq::empty());
    while i < remotes.len()
        invariant
            i <= remotes@.len(),
            texts(out@) == remote_lines(remotes@.take(i as int), verbose),
        decreases remotes@.len() - i,
    {
        let ghost before = texts(out@);
        assert(remotes@.take(i + 1).drop_last() =~= remotes@.take(i as int));
        assert(remotes@.take(i + 1).last() == remotes@[i as int]);
        let remote = &remotes[i];
        if verbose {
            push_url_lines(&mut out, remote.name.as_str(), remote.fetch_urls.as_slice(), "fetch");
            push_url_lines(&mut out, remote.name.as_str(), remote.push_urls.as_slice(), "push");
        } else {
            out.push(remote.name.clone());
            assert(texts(out@) =~= before.push(remote.name@));
        }
        i = i + 1;
    }
    assert(remotes@.take(i as int) =~= remotes@);
    out
}

impl<L: ObjectStore, P: ObjectStore, R: RefStore> Repository<L, P, R> {
    /// The lines for all references, with what they lead to.
    pub fn show_refs(&self) -> (r: Result<Vec<String>, StoreError>)
        ensures
            match r {
                Ok(lines) => exists|m: RefTargets|
                    lists_targets(ref_entries(m), self@.refs, any_ref()) && names_sorted(
                        #[trigger] ref_entries(m),
                    ) && texts(lines@) == ref_entries(m).map_values(
                        |e: (Seq<char>, TargetView)| ref_line(e, true),
                    ),
                Err(_) => !self.reliable(),
            },
    {
        match self.ref_list() {
            Err(e) => Err(e),
            Ok(m) => Ok(print_refs(&m, true)),
        }
    }

    /// The lines for all tags.
    pub fn show_tags(&self) -> (r: Result<Vec<String>, StoreError>)
        ensures
            match r {
                Ok(lines) => exists|m: RefTargets|
                    lists_targets(#[trigger] ref_entries(m), self@.refs, only_tags()) && texts(
                        lines@,
                    ) == ref_entries(m).map_values(
                        |e: (Seq<char>, TargetView)| ref_line(e, false),
                    ),
                Err(_) => !self.reliable(),
            },
    {
        match self.tag_list() {
            Err(e) => Err(e),
            Ok(m) => Ok(print_refs(&m, false)),
        }
    }

    /// The commits that references, or a given object, lead to, and their ancestors, each once
    /// and in the order of the walk; an error where one of them cannot be read.
    pub fn list_commits(&self, start: Option<&str>) -> (r: Result<Vec<String>, ListCommitsError>)
        ensures
            r matches Ok(ids) ==> {
                &&& texts(ids@).no_duplicates()
                &&& forall|id: Seq<char>| #[trigger]
                    texts(ids@).contains(id) ==> is_commit(self@.objects, id)
            },
            r matches Ok(ids) ==> self.reliable() ==> exists|starts: Seq<Seq<char>>|
                #[trigger] are_starts(self@, opt_str(start), starts) && forall|id: Seq<char>|
                    #[trigger] texts(ids@).contains(id) <==> reachable(
                        self@.objects,
                        Seq::empty(),
                        starts,
                        id,
                    ),
            r matches Ok(ids) ==> exists|starts: Seq<Seq<char>>|
                #[trigger] whole_walk(self@.objects, Seq::empty(), starts, texts(ids@))
                    && starts_walk(self@, opt_str(start), self.reliable(), starts),
            r matches Err(ListCommitsError::Repo(_)) ==> start is None && !self.reliable(),
            r matches Err(ListCommitsError::Walk(_)) ==> self.reliable() ==> exists|
                starts: Seq<Seq<char>>,
                id: Seq<char>,
            |
                are_starts(self@, opt_str(start), starts) && #[trigger] reachable(
                    self@.objects,
                    Seq::empty(),
                    starts,
                    id,
                ) && !is_commit(self@.objects, id),
    {
        let walk = match self.commits(start) {
            Err(e) => {
                return Err(ListCommitsError::Repo(e));
            },
            Ok(walk) => walk,
        };
        let ghost starts = texts(walk.queue@);
        assert(self.reliable() ==> are_starts(self@, opt_str(start), starts));
        assert(starts_walk(self@, opt_str(start), self.reliable(), starts));
        match walk.all_or_error() {
            Ok(ids) => Ok(ids),
            Err(e) => Err(ListCommitsError::Walk(e)),
        }
    }
}

/// Whether a list holds the commits that a walk starts with.
pub open spec fn are_starts(
    repo: RepoView,
    start: Option<Seq<char>>,
    starts: Seq<Seq<char>>,
) -> bool {
    forall|id: Seq<char>| #[trigger]
        starts.contains(id) <==> is_start(repo, start, Seq::empty(), id)
}

/// Whether a walk starts with the given commits in this order: each once, with the newest first,
/// as far as the stores can be read.
pub open spec fn starts_walk(
    repo: RepoView,
    start: Option<Seq<char>>,
    reliable: bool,
    starts: Seq<Seq<char>>,
) -> bool {
    &&& starts.no_duplicates()
    &&& forall|id: Seq<char>| #[trigger]
        starts.contains(id) ==> is_start(repo, start, Seq::empty(), id)
    &&& reliable ==> are_starts(repo, start, starts)
    &&& reliable ==> exists|now: Timestamp| #[trigger] newest_first(repo.objects, starts, now)
}

/// Why commits cannot be listed.
#[derive(Debug)]
pub enum ListCommitsError {
    /// The references could not be read.
    Repo(RepoError),
    /// A commit could not be read.
    Walk(WalkError),
}

} // verus!
