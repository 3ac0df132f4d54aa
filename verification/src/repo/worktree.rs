//! The files of a repository and its index.

use vstd::prelude::*;

use crate::config::{repository_version, version_read, VersionError};
use crate::helpers::fs::errors::{PathError, PathErrorKind};
use crate::helpers::fs::{path_translate, FileMetadata};
use crate::helpers::{timestamped, timestamped_name};
use crate::index::{has_path, moment_view, without_path, EntryView, Index, IndexEntry};
use crate::moments::Timestamp;
use crate::objects::raw::{object_name, RawObject};
use crate::objects::{Blob, GitObject, KindView};
use crate::ref_log::{LogAppend, LogView, RefLogEntry};
use crate::repo::model::lookup;
use crate::repo::Repository;
use crate::stores::backends::{with_object, ObjectStore, RefStore, StoreError};
use crate::stores::{ref_text, RefSpec};
use crate::text::{join, opt_str, same_text, split_on, starts_with, texts};

verus! {

broadcast use vstd::string::group_string_axioms;

/// What is known of a path in the file system.
#[derive(Debug)]
pub enum Resolved {
    /// Nothing exists there.
    Missing,
    /// The path cannot be resolved.
    Invalid,
    /// Something exists there, whose path without links has the given components.
    At(Vec<String>),
}

/// Whether the components of one path are the first ones of another.
pub open spec fn is_within(path: Seq<Seq<char>>, dir: Seq<Seq<char>>) -> bool {
    starts_with(path, dir)
}

/// Whether a path is a directory or lies in it.
pub fn path_is_within(path: &[String], dir: &[String]) -> (r: bool)
    ensures
        r == is_within(texts(path@), texts(dir@)),
{
    let ghost p = texts(path@);
    let ghost d = texts(dir@);
    if path.len() < dir.len() {
        return false;
    }
    let mut i: usize = 0;
    while i < dir.len()
        invariant
            p == texts(path@),
            d == texts(dir@),
            i <= dir@.len() <= path@.len(),
            forall|j: int| 0 <= j < i ==> (#[trigger] p[j]) == d[j],
        decreases dir@.len() - i,
    {
        if !same_text(path[i].as_str(), dir[i].as_str()) {
            assert(p[i as int] != d[i as int]);
            assert(!is_within(p, d)) by {
                if is_within(p, d) {
                    assert(p.take(d.len() as int)[i as int] == d[i as int]);
                }
            }
            return false;
        }
        assert(p[i as int] == d[i as int]);
        i = i + 1;
    }
    assert(p.take(d.len() as int) =~= d);
    true
}

/// The components of a path that follow those of a directory.
pub fn path_below_dir(path: &[String], dir: &[String]) -> (r: Vec<String>)
    requires
        dir@.len() <= path@.len(),
    ensures
        texts(r@) == texts(path@).skip(dir@.len() as int),
{
    let mut out: Vec<String> = Vec::new();
    let mut i: usize = dir.len();
    while i < path.len()
        invariant
            dir@.len() <= i <= path@.len(),
            out@.len() == i - dir@.len(),
            forall|j: int| 0 <= j < out@.len() ==> (#[trigger] out@[j])@ == path@[j + dir@.len()]@,
        decreases path@.len() - i,
    {
        out.push(path[i].clone());
        i = i + 1;
    }
    assert(texts(out@) =~= texts(path@).skip(dir@.len() as int));
    out
}

/// The path that something is looked up by: the one without links where it exists.
pub open spec fn resolved_path(absolute: Option<Seq<Seq<char>>>, canonical: Resolved) -> Option<
    Seq<Seq<char>>,
> {
    match (absolute, canonical) {
        (None, _) => None,
        (Some(_), Resolved::Invalid) => None,
        (Some(p), Resolved::Missing) => Some(p),
        (Some(_), Resolved::At(p)) => Some(texts(p@)),
    }
}

/// What the components of a path are, if it has any.
pub open spec fn opt_texts(o: Option<Vec<String>>) -> Option<Seq<Seq<char>>> {
    match o {
        Some(v) => Some(texts(v@)),
        None => None,
    }
}

/// The components of a path below those of the worktree, from its absolute form (if it has one)
/// and what is known of that in the file system.
pub fn worktree_path(
    worktree: &[String],
    path: &str,
    absolute: Option<Vec<String>>,
    canonical: Resolved,
) -> (r: Result<Vec<String>, PathError>)
    ensures
        match r {
            Ok(p) => resolved_path(opt_texts(absolute), canonical) matches Some(full) && is_within(
                full,
                texts(worktree@),
            ) && texts(p@) == full.skip(worktree@.len() as int),
            Err(e) => e.path@ == path@ && match resolved_path(opt_texts(absolute), canonical) {
                None => e.kind == PathErrorKind::InvalidPath,
                Some(full) => e.kind == PathErrorKind::PathOutsideRepo && !is_within(
                    full,
                    texts(worktree@),
                ),
            },
        },
{
    let full = match (absolute, canonical) {
        (Some(p), Resolved::Missing) => p,
        (Some(_), Resolved::At(p)) => p,
        _ => {
            return Err(PathError::new(path, PathErrorKind::InvalidPath));
        },
    };
    if !path_is_within(full.as_slice(), worktree) {
        return Err(PathError::new(path, PathErrorKind::PathOutsideRepo));
    }
    assert(texts(worktree@).len() == worktree@.len());
    assert(texts(full@).len() == full@.len());
    Ok(path_below_dir(full.as_slice(), worktree))
}

/// The components of a path in the worktree, from its absolute form (if it has one) and what is
/// known of that in the file system.  Both must lie in the worktree.
pub fn canon_path(
    worktree: &[String],
    path: &str,
    absolute: Option<Vec<String>>,
    canonical: Resolved,
) -> (r: Result<Vec<String>, PathError>)
    ensures
        match r {
            Ok(p) => absolute is Some && is_within(texts(absolute->0@), texts(worktree@))
                && resolved_path(opt_texts(absolute), canonical) == Some(texts(p@)) && is_within(
                texts(p@),
                texts(worktree@),
            ),
            Err(e) => e.path@ == path@ && match e.kind {
                PathErrorKind::InvalidPath => absolute is None || (is_within(
                    texts(absolute->0@),
                    texts(worktree@),
                ) && canonical is Invalid),
                PathErrorKind::PathOutsideRepo => absolute is Some && (!is_within(
                    texts(absolute->0@),
                    texts(worktree@),
                ) || (canonical matches Resolved::At(p) && !is_within(
                    texts(p@),
                    texts(worktree@),
                ))),
            },
        },
{
    let absolute = match absolute {
        Some(p) => p,
        None => {
            return Err(PathError::new(path, PathErrorKind::InvalidPath));
        },
    };
    if !path_is_within(absolute.as_slice(), worktree) {
        return Err(PathError::new(path, PathErrorKind::PathOutsideRepo));
    }
    match canonical {
        Resolved::Missing => Ok(absolute),
        Resolved::Invalid => Err(PathError::new(path, PathErrorKind::InvalidPath)),
        Resolved::At(p) => if path_is_within(p.as_slice(), worktree) {
            Ok(p)
        } else {
            Err(PathError::new(path, PathErrorKind::PathOutsideRepo))
        },
    }
}

/// What is found where a file of the repository's own directory should be.
#[derive(Debug)]
pub enum Found {
    /// A file, whose path without links has the given components.
    File(Vec<String>),
    /// Something that is not a file.
    Other(Vec<String>),
    /// Nothing, in a directory that exists.
    NothingInDirectory,
    /// Nothing, below something that is not a directory.
    NothingInFile,
    /// Nothing, in a directory that does not exist.
    Nothing,
}

/// What is wrong with the path of a file of the repository's own directory.
#[derive(Clone, Copy, Debug, PartialEq, Eq, Structural)]
pub enum FileError {
    /// The path lies outside the repository.
    Outside,
    /// There is something else than a file.
    NotAFile,
    /// The parent is not a directory.
    ParentNotADirectory,
}

/// Where a file of the repository's own directory is.
#[derive(Debug)]
pub struct FilePlace {
    /// The components of its path.
    pub path: Vec<String>,
    /// Whether its directory has to be made first.
    pub make_parent: bool,
}

/// What is wrong with the path of a file, if anything is.
pub open spec fn file_error(
    git_dir: Seq<Seq<char>>,
    absolute: Seq<Seq<char>>,
    found: Found,
) -> Option<FileError> {
    if !is_within(absolute, git_dir) {
        Some(FileError::Outside)
    } else {
        match found {
            Found::File(p) => if is_within(texts(p@), git_dir) {
                None
            } else {
                Some(FileError::Outside)
            },
            Found::Other(p) => if is_within(texts(p@), git_dir) {
                Some(FileError::NotAFile)
            } else {
                Some(FileError::Outside)
            },
            Found::NothingInFile => Some(FileError::ParentNotADirectory),
            _ => None,
        }
    }
}

/// Where a file of the repository's own directory is, from the absolute form of its path and
/// what is found there.
pub fn git_file(git_dir: &[String], absolute: Vec<String>, found: Found) -> (r: Result<
    FilePlace,
    FileError,
>)
    ensures
        match r {
            Ok(place) => file_error(texts(git_dir@), texts(absolute@), found) is None && texts(
                place.path@,
            ) == match found {
                Found::File(p) => texts(p@),
                _ => texts(absolute@),
            } && place.make_parent == (found is Nothing),
            Err(e) => file_error(texts(git_dir@), texts(absolute@), found) == Some(e),
        },
{
    if !path_is_within(absolute.as_slice(), git_dir) {
        return Err(FileError::Outside);
    }
    match found {
        Found::File(p) => if path_is_within(p.as_slice(), git_dir) {
            Ok(FilePlace { path: p, make_parent: false })
        } else {
            Err(FileError::Outside)
        },
        Found::Other(p) => if path_is_within(p.as_slice(), git_dir) {
            Err(FileError::NotAFile)
        } else {
            Err(FileError::Outside)
        },
        Found::NothingInDirectory => Ok(FilePlace { path: absolute, make_parent: false }),
        Found::NothingInFile => Err(FileError::ParentNotADirectory),
        Found::Nothing => Ok(FilePlace { path: absolute, make_parent: true }),
    }
}

/// Why a directory is not a repository that can be opened.
#[derive(Clone, Copy, Debug, PartialEq, Eq, Structural)]
pub enum OpenError {
    /// There is no directory `.git`.
    NotARepository,
    /// There is no configuration file.
    NoConfiguration,
    /// The configuration does not give the version of the format.
    Configuration(VersionError),
    /// The format of the repository is not one that is known.
    Version(u64),
}

/// What keeps a repository from being opened, if anything does.
pub open spec fn open_result(
    allow_invalid: bool,
    git_dir_exists: bool,
    config_exists: bool,
    version: Result<u64, VersionError>,
) -> Result<(), OpenError> {
    if !allow_invalid && !git_dir_exists {
        Err(OpenError::NotARepository)
    } else if !allow_invalid && !config_exists {
        Err(OpenError::NoConfiguration)
    } else {
        match version {
            Err(e) => Err(OpenError::Configuration(e)),
            Ok(n) => if n != 0 {
                Err(OpenError::Version(n))
            } else {
                Ok(())
            },
        }
    }
}

/// Whether a repository can be opened, from what is found of it and the version of its format.
pub fn check_repository(
    allow_invalid: bool,
    git_dir_exists: bool,
    config_exists: bool,
    version: Result<u64, VersionError>,
) -> (r: Result<(), OpenError>)
    ensures
        r == open_result(allow_invalid, git_dir_exists, config_exists, version),
{
    if !(allow_invalid || git_dir_exists) {
        return Err(OpenError::NotARepository);
    }
    if !allow_invalid && !config_exists {
        return Err(OpenError::NoConfiguration);
    }
    match version {
        Err(e) => Err(OpenError::Configuration(e)),
        Ok(n) => if n != 0 {
            Err(OpenError::Version(n))
        } else {
            Ok(())
        },
    }
}

/// Whether a repository can be opened, from what is found of it and the text of its
/// configuration file; one without that file counts as a new one, where it is allowed.
pub fn check_repository_files(
    allow_invalid: bool,
    git_dir_exists: bool,
    config_text: Option<&str>,
) -> (r: Result<(), OpenError>)
    ensures
        match config_text {
            None => r == open_result(allow_invalid, git_dir_exists, false, Ok(0)),
            Some(text) => exists|version: Result<u64, VersionError>|
                #[trigger] version_read(text@, version) && r == open_result(
                    allow_invalid,
                    git_dir_exists,
                    true,
                    version,
                ),
        },
{
    match config_text {
        None => check_repository(allow_invalid, git_dir_exists, false, Ok(0)),
        Some(text) => {
            let version = repository_version(text);
            assert(version_read(text@, version));
            check_repository(allow_invalid, git_dir_exists, true, version)
        },
    }
}

/// A text gives at most one version, or reason that there is none.
pub proof fn theorem_version_is_unique(
    text: Seq<char>,
    a: Result<u64, VersionError>,
    b: Result<u64, VersionError>,
)
    requires
        version_read(text, a),
        version_read(text, b),
    ensures
        a == b,
{
}

/// The directories of a new repository, below `.git`.
pub open spec fn new_directories() -> Seq<Seq<char>> {
    seq![
        "objects"@,
        "objects/pack"@,
        "logs"@,
        "refs"@,
        "refs/heads"@,
        "refs/remotes"@,
        "refs/tags"@,
    ]
}

/// The directories of a new repository, below `.git`, in the order in which they are made.
pub fn directories_of_new_repository() -> (r: Vec<String>)
    ensures
        texts(r@) == new_directories(),
{
    let mut dirs: Vec<String> = Vec::new();
    dirs.push("objects".to_string());
    dirs.push("objects/pack".to_string());
    dirs.push("logs".to_string());
    dirs.push("refs".to_string());
    dirs.push("refs/heads".to_string());
    dirs.push("refs/remotes".to_string());
    dirs.push("refs/tags".to_string());
    assert(texts(dirs@) =~= new_directories());
    dirs
}

/// A file to write.
#[derive(Debug)]
pub struct NewFile {
    /// Its path below `.git`.
    pub path: String,
    /// Its contents.
    pub contents: String,
}

/// The files of a new repository, below `.git`, besides its configuration.
pub fn files_of_new_repository(first_branch: &str) -> (r: Vec<NewFile>)
    ensures
        r@.len() == 2,
        r@[0].path@ == "description"@,
        r@[0].contents@ == "Unnamed repository\n"@,
        r@[1].path@ == "HEAD"@,
        r@[1].contents@ == "ref: refs/heads/"@ + first_branch@ + "\n"@,
{
    let mut head = crate::text::concat_texts("ref: refs/heads/", first_branch);
    head.append("\n");
    let mut files: Vec<NewFile> = Vec::new();
    files.push(
        NewFile {
            path: "description".to_string(),
            contents: "Unnamed repository\n".to_string(),
        },
    );
    files.push(NewFile { path: "HEAD".to_string(), contents: head });
    files
}

/// A path does not belong in the index.
#[derive(Debug)]
pub enum AddError {
    /// The path lies outside the worktree.
    Outside,
    /// The contents could not be stored.
    Store(StoreError),
}

/// The ID of a blob.
pub open spec fn blob_name(data: Seq<u8>) -> Seq<char> {
    object_name(KindView::Blob, data.len() as int, data)
}

impl<L: ObjectStore, P: ObjectStore, R: RefStore> Repository<L, P, R> {
    /// Adds an object to the store for new objects and gives its ID; an object that has the same
    /// ID already stays as it is.
    pub fn write_raw_object(&mut self, obj: &RawObject) -> (r: Result<String, StoreError>)
        ensures
            final(self).packs == old(self).packs,
            final(self).ref_store == old(self).ref_store,
            final(self).head == old(self).head,
            r matches Ok(id) ==> id@ == obj.object_id@
                && final(self).loose_object_store.objects() == with_object(
                old(self).loose_object_store.objects(),
                obj.object_id@,
                obj.content@,
            ),
            r is Err ==> !old(self).loose_object_store.accepts_writes(),
            old(self).loose_object_store.accepts_writes()
                ==> final(self).loose_object_store.accepts_writes(),
    {
        self.loose_object_store.write_raw_object(obj)
    }

    /// Stores an object and gives its ID.
    pub fn write_object<T: GitObject>(&mut self, obj: &T) -> (r: Result<String, StoreError>)
        ensures
            final(self).packs == old(self).packs,
            final(self).ref_store == old(self).ref_store,
            final(self).head == old(self).head,
            r is Err ==> !old(self).loose_object_store.accepts_writes(),
            old(self).loose_object_store.accepts_writes()
                ==> final(self).loose_object_store.accepts_writes(),
            r matches Ok(id) ==> {
                let size = obj.content().len() as int;
                let name = object_name(obj.spec_kind(), size, obj.content());
                &&& id@ == name
                &&& final(self).loose_object_store.objects() == with_object(
                    old(self).loose_object_store.objects(),
                    name,
                    (crate::objects::raw::DataView {
                        kind: obj.spec_kind(),
                        size,
                        data: obj.content(),
                    }),
                )
            },
    {
        let raw = RawObject::from_git_object(obj);
        self.loose_object_store.write_raw_object(&raw)
    }

    /// The first object that the index lists and the repository does not hold, if there is one.
    pub fn check_index(&self, index: &Index) -> (r: Result<Option<String>, StoreError>)
        ensures
            match r {
                Ok(Some(id)) => exists|i: int|
                    0 <= i < index.entries@.len() && (#[trigger] index.entries@[i]).object_id@
                        == id@ && lookup(self@.objects, id@) is None && forall|j: int|
                        0 <= j < i ==> lookup(
                            self@.objects,
                            (#[trigger] index.entries@[j]).object_id@,
                        ) is Some,
                Ok(None) => forall|i: int|
                    0 <= i < index.entries@.len() ==> lookup(
                        self@.objects,
                        (#[trigger] index.entries@[i]).object_id@,
                    ) is Some,
                Err(_) => !self.reliable(),
            },
    {
        let mut i: usize = 0;
        while i < index.entries.len()
            invariant
                i <= index.entries@.len(),
                forall|j: int|
                    0 <= j < i ==> lookup(
                        self@.objects,
                        (#[trigger] index.entries@[j]).object_id@,
                    ) is Some,
            decreases index.entries@.len() - i,
        {
            match self.has_object(index.entries[i].object_id.as_str()) {
                Err(e) => {
                    return Err(e);
                },
                Ok(true) => {},
                Ok(false) => {
                    let id = index.entries[i].object_id.clone();
                    assert(index.entries@[i as int].object_id@ == id@);
                    return Ok(Some(id));
                },
            }
            i = i + 1;
        }
        Ok(None)
    }

    /// Stores the contents of a file, takes its entry out of the index, and gives the new one;
    /// nothing happens for a file in the repository's own directory.
    pub fn add_path_partial(
        &mut self,
        index: &mut Index,
        worktree: &[String],
        git_dir: &[String],
        absolute_path: &[String],
        contents: Vec<u8>,
        metadata: &FileMetadata,
    ) -> (r: Result<Option<IndexEntry>, AddError>)
        ensures
            final(self).packs == old(self).packs,
            final(self).ref_store == old(self).ref_store,
            final(self).head == old(self).head,
            ({
                let path = texts(absolute_path@);
                let name = join(path.skip(worktree@.len() as int), seq!['/']);
                match r {
                    Err(AddError::Outside) => !is_within(path, texts(worktree@)) && *final(self)
                        == *old(self) && *final(index) == *old(index),
                    Err(AddError::Store(_)) => is_within(path, texts(worktree@)) && !is_within(
                        path,
                        texts(git_dir@),
                    ) && *final(index) == *old(index)
                        && !old(self).loose_object_store.accepts_writes(),
                    Ok(None) => is_within(path, texts(worktree@)) && is_within(
                        path,
                        texts(git_dir@),
                    ) && *final(self) == *old(self) && *final(index) == *old(index),
                    Ok(Some(e)) => {
                        &&& is_within(path, texts(worktree@))
                        &&& !is_within(path, texts(git_dir@))
                        &&& final(index).version == old(index).version
                        &&& final(index).entries@ == without_path(old(index).entries@, name)
                        &&& final(self).loose_object_store.objects() == with_object(
                            old(self).loose_object_store.objects(),
                            blob_name(contents@),
                            (crate::objects::raw::DataView {
                                kind: KindView::Blob,
                                size: contents@.len() as int,
                                data: contents@,
                            }),
                        )
                        &&& e@ == (EntryView {
                            ctime: moment_view(metadata.ctime),
                            mtime: moment_view(metadata.mtime),
                            dev: metadata.dev as int,
                            ino: metadata.ino as int,
                            mode_type: metadata.mode_type,
                            mode_perms: metadata.mode_perms,
                            uid: metadata.uid as int,
                            gid: metadata.gid as int,
                            fsize: metadata.fsize as int,
                            flag_assume_valid: false,
                            flag_stage: 0,
                            object_id: blob_name(contents@),
                            object_name: name,
                        })
                    },
                }
            }),
    {
        if !path_is_within(absolute_path, worktree) {
            return Err(AddError::Outside);
        }
        if path_is_within(absolute_path, git_dir) {
            return Ok(None);
        }
        assert(texts(worktree@).len() == worktree@.len());
        assert(texts(absolute_path@).len() == absolute_path@.len());
        let relative = path_below_dir(absolute_path, worktree);
        let index_path = path_translate(relative.as_slice());
        let hash = match self.write_object(&Blob::new_from_read(contents)) {
            Ok(hash) => hash,
            Err(e) => {
                return Err(AddError::Store(e));
            },
        };
        index.remove(index_path.as_str());
        Ok(Some(IndexEntry::from_metadata(metadata, hash, index_path)))
    }
}

/// Takes a path out of the index; whether it was there.
pub fn remove_path_from_index(index: &mut Index, worktree_path: &[String]) -> (r: bool)
    ensures
        ({
            let path = join(texts(worktree_path@), seq!['/']);
            &&& r == has_path(old(index).entries@, path)
            &&& final(index).version == old(index).version
            &&& final(index).entries@ == if r {
                without_path(old(index).entries@, path)
            } else {
                old(index).entries@
            }
        }),
{
    let index_path = path_translate(worktree_path);
    if !index.contains_path(index_path.as_str()) {
        return false;
    }
    index.remove(index_path.as_str());
    true
}

/// What to add to which ref logs for a change of a reference at a moment.
pub fn ref_log_appends(
    old_object_id: Option<&str>,
    new_object_id: &str,
    committer_name: &str,
    message: &str,
    branch: &RefSpec,
    also_update_head: bool,
    moment: &Timestamp,
) -> (r: Vec<LogAppend>)
    ensures
        r@.len() == if also_update_head {
            2int
        } else {
            1
        },
        also_update_head ==> texts(r@[0].path@) == seq!["HEAD"@],
        texts(r@.last().path@) == split_on(ref_text(branch@), '/'),
        forall|i: int|
            0 <= i < r@.len() ==> (#[trigger] r@[i]).line@ == crate::ref_log::log_line(
                (LogView {
                    old_object_id: opt_str(old_object_id),
                    new_object_id: new_object_id@,
                    committer: timestamped(
                        committer_name@,
                        moment.spec_secs(),
                        moment.spec_offset(),
                    ),
                    message: message@,
                }),
            ).push('\n'),
{
    let entry = RefLogEntry::new(
        old_object_id,
        new_object_id,
        timestamped_name(committer_name, moment).as_str(),
        message,
    );
    let mut line = entry.to_string();
    line.push('\n');
    let mut out: Vec<LogAppend> = Vec::new();
    if also_update_head {
        let mut path: Vec<String> = Vec::new();
        path.push("HEAD".to_string());
        assert(texts(path@) =~= seq!["HEAD"@]);
        out.push(LogAppend { path, line: line.clone() });
    }
    let name = branch.to_string();
    let path = crate::helpers::fs::path_translate_rev(name.as_str());
    out.push(LogAppend { path, line });
    out
}

/// A repository is opened where the version of its format is zero and, unless it may be invalid,
/// where it has its directory and its settings; a missing directory is reported before missing
/// settings, and both before the version.
pub proof fn theorem_opened_repositories(
    allow_invalid: bool,
    git_dir_exists: bool,
    config_exists: bool,
    version: Result<u64, VersionError>,
)
    ensures
        ({
            let r = open_result(allow_invalid, git_dir_exists, config_exists, version);
            &&& r is Ok <==> version == Ok::<u64, VersionError>(0) && (allow_invalid || (
            git_dir_exists && config_exists))
            &&& !allow_invalid && !git_dir_exists <==> r == Err::<(), OpenError>(
                OpenError::NotARepository,
            )
            &&& !allow_invalid && git_dir_exists && !config_exists <==> r == Err::<(), OpenError>(
                OpenError::NoConfiguration,
            )
        }),
{
}

/// A path outside the directory of the repository is refused, and so is one that leads to a file
/// outside of it; within it a file, and a place where nothing is, are accepted.
pub proof fn theorem_paths_outside_are_refused(
    git_dir: Seq<Seq<char>>,
    absolute: Seq<Seq<char>>,
    found: Found,
)
    ensures
        !is_within(absolute, git_dir) ==> file_error(git_dir, absolute, found) == Some(
            FileError::Outside,
        ),
        (found matches Found::File(p) && !is_within(texts(p@), git_dir)) ==> file_error(
            git_dir,
            absolute,
            found,
        ) == Some(FileError::Outside),
        (found matches Found::File(p) && is_within(texts(p@), git_dir) && is_within(
            absolute,
            git_dir,
        )) ==> file_error(git_dir, absolute, found) is None,
        file_error(git_dir, absolute, found) is None ==> !(found is Other),
{
}

} // verus!
