//! Paths in repository format, and the file metadata that an index records.

use vstd::prelude::*;

use crate::index::{IndexEntryPermissions, IndexEntryType};
use crate::interop::{supported_secs, valid_nanos};
use crate::moments::Timestamp;
use crate::text::{
    after_last, chars_of, find_after_last, join, join_texts, lemma_after_last, split_chars,
    split_on, texts, theorem_join_split,
};

pub mod errors;

verus! {

broadcast use vstd::string::group_string_axioms;

/// The components of a file system path as one path in repository format, with `/` between
/// them.
pub fn path_translate(components: &[String]) -> (r: String)
    ensures
        r@ == join(texts(components@), seq!['/']),
{
    proof {
        reveal_strlit("/");
    }
    assert("/"@ =~= seq!['/']);
    join_texts(components, "/")
}

/// The components of a path in repository format.
pub fn path_translate_rev(path: &str) -> (r: Vec<String>)
    ensures
        texts(r@) == split_on(path@, '/'),
{
    let cs = chars_of(path);
    split_chars(&cs, '/')
}

/// Taking a repository path apart into components and putting them together gives the path
/// back.
pub proof fn theorem_path_translate_round_trip(path: Seq<char>)
    ensures
        join(split_on(path, '/'), seq!['/']) == path,
{
    theorem_join_split(path, '/');
}

/// A path in repository format without its last component and the `/` before it.
pub open spec fn parent_path(path: Seq<char>) -> Seq<char> {
    let i = after_last(path, '/');
    if 0 < i <= path.len() {
        path.take(i - 1)
    } else {
        Seq::empty()
    }
}

/// The last component of a path in repository format.
pub open spec fn file_of_path(path: Seq<char>) -> Seq<char> {
    path.skip(after_last(path, '/'))
}

/// A path in repository format without its last component; empty where it has only one.
pub fn index_path_parent(path: &str) -> (r: &str)
    ensures
        r@ == parent_path(path@),
        r@.len() < path@.len() || path@.len() == 0,
{
    let cs = chars_of(path);
    let i: usize = find_after_last(&cs, '/');
    if i == 0 {
        path.substring_char(0, 0)
    } else {
        path.substring_char(0, i - 1)
    }
}

/// The last component of a path in repository format.
pub fn index_path_file(path: &str) -> (r: &str)
    ensures
        r@ == file_of_path(path@),
{
    let cs = chars_of(path);
    let i: usize = find_after_last(&cs, '/');
    path.substring_char(i, cs.len())
}

/// A path with a `/` in it is its parent, that `/`, and its last component.
pub proof fn theorem_parent_and_file(path: Seq<char>)
    ensures
        after_last(path, '/') > 0 ==> path == parent_path(path) + seq!['/'] + file_of_path(path),
        after_last(path, '/') == 0 ==> parent_path(path) == Seq::<char>::empty() && file_of_path(
            path,
        ) == path,
{
    lemma_after_last(path, '/');
    if after_last(path, '/') > 0 {
        assert(path =~= parent_path(path) + seq!['/'] + file_of_path(path));
    } else {
        assert(file_of_path(path) =~= path);
    }
}

/// The metadata of a file that an index entry records.
pub struct FileMetadata {
    /// On Windows, the file creation time.  On other systems, the file change time, if supported.
    pub ctime: Timestamp,
    /// File modification time.
    pub mtime: Timestamp,
    /// Device number (zero on systems that do not support it)
    pub dev: u32,
    /// File inode number (zero on systems that do not support it)
    pub ino: u32,
    /// File type
    pub mode_type: IndexEntryType,
    /// File "permissions"
    pub mode_perms: IndexEntryPermissions,
    /// User ID (zero on systems that do not support it)
    pub uid: u32,
    /// Group ID (zero on systems that do not support it)
    pub gid: u32,
    /// File size.  This is equal to [`u32::MAX`] if the file's true size is larger.
    pub fsize: u32,
}

/// The metadata of a file as a Unix file system reports it.
pub struct UnixMetadata {
    /// Seconds of the change time.
    pub ctime: i64,
    /// Nanoseconds of the change time.
    pub ctime_nsec: i64,
    /// Seconds of the modification time.
    pub mtime: i64,
    /// Nanoseconds of the modification time.
    pub mtime_nsec: i64,
    /// Whether the file is a symbolic link.
    pub is_symlink: bool,
    /// The mode bits.
    pub mode: u32,
    /// Device number.
    pub dev: u64,
    /// Inode number.
    pub ino: u64,
    /// User ID.
    pub uid: u32,
    /// Group ID.
    pub gid: u32,
    /// Size in bytes.
    pub size: u64,
}

/// The nanoseconds of a file time: zero where they do not fit in 32 bits.
pub open spec fn file_nanos(ns: int) -> int {
    if 0 <= ns <= u32::MAX {
        ns
    } else {
        0
    }
}

/// Whether a moment is the one that a file system's seconds and nanoseconds stand for: the
/// start of 1970 where they stand for none.
pub open spec fn is_file_time(t: Timestamp, s: int, ns: int) -> bool {
    &&& t.spec_offset() == 0
    &&& if supported_secs(s) && valid_nanos(s, file_nanos(ns)) {
        t.spec_secs() == s && t.spec_nanos() == file_nanos(ns)
    } else {
        t.spec_secs() == 0 && t.spec_nanos() == 0
    }
}

/// The moment that a file system's seconds and nanoseconds stand for.
pub fn time_convert(s: i64, ns: i64) -> (r: Timestamp)
    ensures
        is_file_time(r, s as int, ns as int),
{
    let nanos: u32 = if 0 <= ns && ns <= 0xffff_ffff {
        ns as u32
    } else {
        0
    };
    match Timestamp::utc(s, nanos) {
        Some(t) => t,
        None => Timestamp::unix_epoch(),
    }
}

/// A number, or the largest 32-bit number where it is larger.
pub open spec fn capped_u32(n: int) -> int {
    if n <= u32::MAX {
        n
    } else {
        u32::MAX as int
    }
}

fn cap_u32(n: u64) -> (r: u32)
    ensures
        r == capped_u32(n as int),
{
    if n <= 0xffff_ffff {
        n as u32
    } else {
        0xffff_ffff
    }
}

/// The metadata that an index records of a file, from what a Unix file system reports.
pub fn get_platform_metadata(m: &UnixMetadata) -> (r: FileMetadata)
    ensures
        is_file_time(r.ctime, m.ctime as int, m.ctime_nsec as int),
        is_file_time(r.mtime, m.mtime as int, m.mtime_nsec as int),
        r.dev == capped_u32(m.dev as int),
        r.ino == capped_u32(m.ino as int),
        r.mode_type == if m.is_symlink {
            IndexEntryType::Symlink
        } else {
            IndexEntryType::File
        },
        r.mode_perms == if m.is_symlink {
            IndexEntryPermissions::Link
        } else if m.mode & 0o100 != 0 {
            IndexEntryPermissions::Executable
        } else {
            IndexEntryPermissions::NonExecutable
        },
        r.uid == m.uid,
        r.gid == m.gid,
        r.fsize == capped_u32(m.size as int),
{
    let mode_type = if m.is_symlink {
        IndexEntryType::Symlink
    } else {
        IndexEntryType::File
    };
    let mode_perms = if m.is_symlink {
        IndexEntryPermissions::Link
    } else if m.mode & 0o100 != 0 {
        IndexEntryPermissions::Executable
    } else {
        IndexEntryPermissions::NonExecutable
    };
    FileMetadata {
        ctime: time_convert(m.ctime, m.ctime_nsec),
        mtime: time_convert(m.mtime, m.mtime_nsec),
        dev: cap_u32(m.dev),
        ino: cap_u32(m.ino),
        mode_type,
        mode_perms,
        uid: m.uid,
        gid: m.gid,
        fsize: cap_u32(m.size),
    }
}

} // verus!
