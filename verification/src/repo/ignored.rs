//! The ignore files of a repository.

use vstd::prelude::*;

use crate::helpers::fs::{index_path_parent, parent_path};
use crate::ignore::ScopedFile;
use crate::index::{Index, IndexEntry};
use crate::objects::{StoredObject, StoredView};
use crate::repo::model::{object_at, Fault, RepoView};
use crate::repo::{fault_error, RepoError, Repository};
use crate::stores::backends::{ObjectStore, RefStore};
use crate::text::{chars_of, ends_with, same_text, text_ends_with};

verus! {

broadcast use vstd::string::group_string_axioms;

/// Whether a path is that of an ignore file.
pub open spec fn is_ignore_file(path: Seq<char>) -> bool {
    path == ".gitignore"@ || ends_with(path, "/.gitignore"@)
}

/// An ignore file that the index lists cannot be read.
#[derive(Debug)]
pub enum IgnoreFileError {
    /// The object is not in the repository.
    Missing(String, String),
    /// The object is not a blob.
    NotABlob(String, String),
    /// The object could not be read.
    Repo(RepoError),
}

/// The contents of an ignore file, if they can be read.
pub open spec fn ignore_contents(repo: RepoView, entry: IndexEntry) -> Option<Seq<u8>> {
    match object_at(repo.objects, entry.object_id@) {
        Ok(Some(StoredView::Blob(data))) => Some(data),
        _ => None,
    }
}

/// The ignore files among some entries of the index, with their contents, if they can all be
/// read.
pub open spec fn ignore_files_of(repo: RepoView, entries: Seq<IndexEntry>) -> Option<
    Seq<(Seq<char>, Seq<u8>)>,
>
    decreases entries.len(),
{
    if entries.len() == 0 {
        Some(Seq::empty())
    } else {
        let e = entries.last();
        match ignore_files_of(repo, entries.drop_last()) {
            None => None,
            Some(files) => if !is_ignore_file(e.object_name@) {
                Some(files)
            } else {
                match ignore_contents(repo, e) {
                    Some(data) => Some(files.push((parent_path(e.object_name@), data))),
                    None => None,
                }
            },
        }
    }
}

/// What ignore files are.
pub open spec fn scoped_views(files: Seq<ScopedFile>) -> Seq<(Seq<char>, Seq<u8>)> {
    files.map_values(|f: ScopedFile| (f.directory@, f.data@))
}

impl<L: ObjectStore, P: ObjectStore, R: RefStore> Repository<L, P, R> {
    /// The ignore files that the index lists, as they were last added to it.
    pub fn read_ignore_files(&self, index: &Index) -> (r: Result<Vec<ScopedFile>, IgnoreFileError>)
        ensures
            match r {
                Ok(files) => ignore_files_of(self@, index.entries@) == Some(scoped_views(files@)),
                Err(IgnoreFileError::Repo(RepoError::Store(_))) => !self.reliable(),
                Err(IgnoreFileError::Missing(name, id)) => exists|i: int|
                    0 <= i < index.entries@.len() && (#[trigger] index.entries@[i]).object_name@
                        == name@ && index.entries@[i].object_id@ == id@ && is_ignore_file(name@)
                        && object_at(self@.objects, id@) == Ok::<Option<StoredView>, Fault>(None),
                Err(IgnoreFileError::NotABlob(name, id)) => exists|i: int|
                    0 <= i < index.entries@.len() && (#[trigger] index.entries@[i]).object_name@
                        == name@ && index.entries@[i].object_id@ == id@ && is_ignore_file(name@)
                        && (object_at(self@.objects, id@) matches Ok(Some(o)) && !(o is Blob)),
                Err(IgnoreFileError::Repo(e)) => exists|i: int|
                    0 <= i < index.entries@.len() && is_ignore_file(
                        (#[trigger] index.entries@[i]).object_name@,
                    ) && (object_at(self@.objects, index.entries@[i].object_id@) matches Err(f)
                        && fault_error(e, f)),
            },
            r is Err ==> ignore_files_of(self@, index.entries@) is None || !self.reliable(),
    {
        let mut files: Vec<ScopedFile> = Vec::new();
        let mut i: usize = 0;
        let ghost entries = index.entries@;
        assert(entries.take(0) =~= Seq::empty());
        assert(scoped_views(files@) =~= Seq::empty());
        while i < index.entries.len()
            invariant
                i <= index.entries@.len(),
                entries == index.entries@,
                ignore_files_of(self@, entries.take(i as int)) == Some(scoped_views(files@)),
            decreases index.entries@.len() - i,
        {
            let ghost before = scoped_views(files@);
            proof {
                assert(entries.take(i + 1).drop_last() =~= entries.take(i as int));
                assert(entries.take(i + 1).last() == entries[i as int]);
            }
            let entry = &index.entries[i];
            let cs = chars_of(entry.object_name.as_str());
            if same_text(entry.object_name.as_str(), ".gitignore") || text_ends_with(
                &cs,
                "/.gitignore",
            ) {
                let found = self.read_object(entry.object_id.as_str());
                proof {
                    if ignore_contents(self@, *entry) is None {
                        lemma_unreadable(self@, entries, i + 1);
                    }
                    assert(entry.object_name@ == index.entries@[i as int].object_name@);
                }
                match found {
                    Err(e) => {
                        return Err(IgnoreFileError::Repo(e));
                    },
                    Ok(None) => {
                        return Err(
                            IgnoreFileError::Missing(
                                entry.object_name.clone(),
                                entry.object_id.clone(),
                            ),
                        );
                    },
                    Ok(Some(StoredObject::Blob(blob))) => {
                        let directory = index_path_parent(entry.object_name.as_str()).to_string();
                        files.push(ScopedFile { directory, data: blob.data });
                        assert(scoped_views(files@) =~= before.push((directory@, blob.data@)));
                    },
                    Ok(Some(_)) => {
                        return Err(
                            IgnoreFileError::NotABlob(
                                entry.object_name.clone(),
                                entry.object_id.clone(),
                            ),
                        );
                    },
                }
            }
            i = i + 1;
        }
        assert(entries.take(i as int) =~= entries);
        Ok(files)
    }
}

proof fn lemma_unreadable(repo: RepoView, entries: Seq<IndexEntry>, n: int)
    requires
        0 <= n <= entries.len(),
    ensures
        ignore_files_of(repo, entries.take(n)) is None ==> ignore_files_of(repo, entries) is None,
    decreases entries.len() - n,
{
    if n < entries.len() {
        lemma_unreadable(repo, entries, n + 1);
        assert(entries.take(n + 1).drop_last() =~= entries.take(n));
    } else {
        assert(entries.take(n) =~= entries);
    }
}

} // verus!
