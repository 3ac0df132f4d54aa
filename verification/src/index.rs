//! The index: the files that the next commit will hold.

use std::cmp::Ordering;
use vstd::prelude::*;
use vstd::slice::slice_subrange;
use vstd::utf8::encode_utf8;

use crate::helpers::fs::{
    file_of_path, index_path_file, index_path_parent, parent_path, FileMetadata,
};
use crate::helpers::{datetime_to_bytes, u16_from_be_bytes_unchecked, u32_from_be_bytes_unchecked};
use crate::index::errors::{
    InvalidIndexEntryError, InvalidIndexEntryKind, InvalidIndexError, InvalidIndexKind,
};
use crate::index::laws::{storable, theorem_index_round_trip};
use crate::interop::{
    hex_bytes, hex_decode, hex_encode, hex_text, is_hex_text, lossy_string, sha1_digest, sha1_of,
    text_of_bytes, valid_nanos,
};
use crate::moments::Timestamp;
use crate::numerals::{be16, be16_bytes, be32, be32_bytes, put_be16, put_be32};
use crate::sorting::{bytes_before, key_lt, sort_items, stable_sort, Keyed, SortKey};
use crate::text::{find_byte, first_index, is_listed, same_text, texts};

pub mod errors;
pub mod laws;

verus! {

broadcast use vstd::string::group_string_axioms;

/// The file type of an index entry.
#[derive(Clone, Copy, Debug, PartialEq, Eq, Structural)]
pub enum IndexEntryType {
    /// Regular file
    File,
    /// Symbolic link
    Symlink,
    /// Git submodule
    Gitlink,
}

/// The file type that a number stands for.
pub open spec fn entry_type(b: int) -> Option<IndexEntryType> {
    if b == 8 {
        Some(IndexEntryType::File)
    } else if b == 10 {
        Some(IndexEntryType::Symlink)
    } else if b == 14 {
        Some(IndexEntryType::Gitlink)
    } else {
        None
    }
}

/// The number that stands for a file type.
pub open spec fn entry_type_number(t: IndexEntryType) -> int {
    match t {
        IndexEntryType::File => 8,
        IndexEntryType::Symlink => 10,
        IndexEntryType::Gitlink => 14,
    }
}

impl IndexEntryType {
    /// The file type that a byte stands for.
    pub fn from_byte(b: u8) -> (r: Option<Self>)
        ensures
            r == entry_type(b as int),
    {
        match b {
            8 => Some(IndexEntryType::File),
            10 => Some(IndexEntryType::Symlink),
            14 => Some(IndexEntryType::Gitlink),
            _ => None,
        }
    }

    /// The byte that stands for this file type.
    pub fn to_byte(&self) -> (r: u8)
        ensures
            r == entry_type_number(*self),
    {
        match self {
            IndexEntryType::File => 8,
            IndexEntryType::Symlink => 10,
            IndexEntryType::Gitlink => 14,
        }
    }

    /// The file type in words.
    pub fn to_string(&self) -> (r: String)
        ensures
            r@ == match self {
                IndexEntryType::File => "regular file"@,
                IndexEntryType::Symlink => "symbolic link"@,
                IndexEntryType::Gitlink => "git link"@,
            },
    {
        match self {
            IndexEntryType::File => "regular file".to_string(),
            IndexEntryType::Symlink => "symbolic link".to_string(),
            IndexEntryType::Gitlink => "git link".to_string(),
        }
    }
}

/// Reading the byte of a file type gives the file type back.
pub proof fn theorem_entry_type_round_trip(t: IndexEntryType)
    ensures
        entry_type(entry_type_number(t)) == Some(t),
{
}

/// The permissions of an index entry
#[derive(Clone, Copy, Debug, PartialEq, Eq, Structural)]
pub enum IndexEntryPermissions {
    /// An executable file.
    Executable,
    /// A file that is not executable.
    NonExecutable,
    /// Not a file.
    Link,
}

/// The permissions that a number stands for.
pub open spec fn entry_permissions(v: int) -> Option<IndexEntryPermissions> {
    if v == 0o644 {
        Some(IndexEntryPermissions::NonExecutable)
    } else if v == 0o755 {
        Some(IndexEntryPermissions::Executable)
    } else if v == 0 {
        Some(IndexEntryPermissions::Link)
    } else {
        None
    }
}

/// The number that stands for permissions.
pub open spec fn permissions_number(p: IndexEntryPermissions) -> int {
    match p {
        IndexEntryPermissions::Link => 0,
        IndexEntryPermissions::NonExecutable => 0o644,
        IndexEntryPermissions::Executable => 0o755,
    }
}

impl IndexEntryPermissions {
    /// The permissions that a number stands for: zero, octal 644 or octal 755.
    pub fn from_u16(v: u16) -> (r: Option<Self>)
        ensures
            r == entry_permissions(v as int),
    {
        if v == 0o644 {
            Some(IndexEntryPermissions::NonExecutable)
        } else if v == 0o755 {
            Some(IndexEntryPermissions::Executable)
        } else if v == 0 {
            Some(IndexEntryPermissions::Link)
        } else {
            None
        }
    }

    /// The number that stands for these permissions.
    pub fn to_u16(&self) -> (r: u16)
        ensures
            r == permissions_number(*self),
    {
        match self {
            IndexEntryPermissions::Link => 0,
            IndexEntryPermissions::NonExecutable => 0o644,
            IndexEntryPermissions::Executable => 0o755,
        }
    }

    /// The permissions in octal.
    pub fn to_string(&self) -> (r: String)
        ensures
            r@ == match self {
                IndexEntryPermissions::Executable => "0755"@,
                IndexEntryPermissions::NonExecutable => "0644"@,
                IndexEntryPermissions::Link => "0000"@,
            },
    {
        match self {
            IndexEntryPermissions::Executable => "0755".to_string(),
            IndexEntryPermissions::NonExecutable => "0644".to_string(),
            IndexEntryPermissions::Link => "0000".to_string(),
        }
    }
}

/// Reading the number of permissions gives the permissions back.
pub proof fn theorem_permissions_round_trip(p: IndexEntryPermissions)
    ensures
        entry_permissions(permissions_number(p)) == Some(p),
{
}

/// The contents of a single index entry.
#[derive(Clone, Debug)]
pub struct IndexEntry {
    /// On Windows, the file creation time.  On other operating systems, the file metadata change
    /// time, if supported.
    pub ctime: Timestamp,
    /// File modification time
    pub mtime: Timestamp,
    /// Device number, if supported
    pub dev: u32,
    /// File inode number, if supported
    pub ino: u32,
    /// File type
    pub mode_type: IndexEntryType,
    /// File permissions, largely limited to the executable bit.
    pub mode_perms: IndexEntryPermissions,
    /// User ID of file owner, if supported
    pub uid: u32,
    /// Group ID of file's owning group, if supported
    pub gid: u32,
    /// File size, or [`u32::MAX`] if the file size is larger than that value
    pub fsize: u32,
    /// Whether the file should not be checked for changes.  New entries have it unset.
    pub flag_assume_valid: bool,
    /// Tells unmerged items with the same path apart during a merge.
    pub flag_stage: u8,
    /// Object ID
    pub object_id: String,
    /// Object path, relative to the worktree, with `/` as the path separator
    pub object_name: String,
}

/// What an index entry holds.
pub struct EntryView {
    /// Seconds, nanoseconds and offset of the change time.
    pub ctime: (int, int, int),
    /// Seconds, nanoseconds and offset of the modification time.
    pub mtime: (int, int, int),
    /// Device number.
    pub dev: int,
    /// Inode number.
    pub ino: int,
    /// File type.
    pub mode_type: IndexEntryType,
    /// File permissions.
    pub mode_perms: IndexEntryPermissions,
    /// User ID.
    pub uid: int,
    /// Group ID.
    pub gid: int,
    /// File size.
    pub fsize: int,
    /// Whether the file should not be checked for changes.
    pub flag_assume_valid: bool,
    /// Merge stage.
    pub flag_stage: u8,
    /// Object ID.
    pub object_id: Seq<char>,
    /// Object path.
    pub object_name: Seq<char>,
}

/// The parts of a moment.
pub open spec fn moment_view(t: Timestamp) -> (int, int, int) {
    (t.spec_secs(), t.spec_nanos(), t.spec_offset())
}

impl View for IndexEntry {
    type V = EntryView;

    open spec fn view(&self) -> EntryView {
        EntryView {
            ctime: moment_view(self.ctime),
            mtime: moment_view(self.mtime),
            dev: self.dev as int,
            ino: self.ino as int,
            mode_type: self.mode_type,
            mode_perms: self.mode_perms,
            uid: self.uid as int,
            gid: self.gid as int,
            fsize: self.fsize as int,
            flag_assume_valid: self.flag_assume_valid,
            flag_stage: self.flag_stage,
            object_id: self.object_id@,
            object_name: self.object_name@,
        }
    }
}

/// What each entry of a sequence holds.
pub open spec fn entry_views(s: Seq<IndexEntry>) -> Seq<EntryView> {
    Seq::new(s.len(), |i: int| s[i]@)
}

/// The length of a stored entry for a name of the given length in bytes: 62 bytes, the name
/// and a NUL byte, rounded up to a multiple of eight.
pub open spec fn entry_length(name_len: int) -> int {
    (name_len + 63 + 7) / 8 * 8
}

/// The number in four bytes of a sequence.
pub open spec fn u32_at(d: Seq<u8>, i: int) -> int {
    be32(d[i], d[i + 1], d[i + 2], d[i + 3])
}

/// The number in two bytes of a sequence.
pub open spec fn u16_at(d: Seq<u8>, i: int) -> int {
    be16(d[i], d[i + 1])
}

/// Where the name of a stored entry ends: after the length that the entry declares, or at
/// the first NUL byte where the length is too large to be declared.
pub open spec fn name_end(d: Seq<u8>) -> int {
    let declared = u16_at(d, 60) % 0x1000;
    if declared < 0xfff {
        declared + 62
    } else {
        first_index(d, 0u8, 62)
    }
}

/// What a stored entry holds, or why it is invalid.
pub open spec fn parse_entry(d: Seq<u8>) -> Result<EntryView, InvalidIndexEntryKind> {
    let mode = u16_at(d, 26);
    let flags = u16_at(d, 60);
    if d.len() < 64 {
        Err(InvalidIndexEntryKind::TooShort)
    } else if !valid_nanos(u32_at(d, 0), u32_at(d, 4)) {
        Err(
            InvalidIndexEntryKind::UnparseableTimestamp(u32_at(d, 0) as u32, u32_at(d, 4) as u32),
        )
    } else if !valid_nanos(u32_at(d, 8), u32_at(d, 12)) {
        Err(
            InvalidIndexEntryKind::UnparseableTimestamp(u32_at(d, 8) as u32, u32_at(d, 12) as u32),
        )
    } else if entry_type(mode / 0x1000) is None {
        Err(InvalidIndexEntryKind::UnexpectedMode((mode / 0x1000) as u16))
    } else if entry_permissions(mode % 0x200) is None {
        Err(InvalidIndexEntryKind::UnexpectedPermissions((mode % 0x200) as u16))
    } else if d.len() < flags % 0x1000 + 63 {
        Err(InvalidIndexEntryKind::TooShort)
    } else if name_end(d) >= d.len() || d[name_end(d)] != 0 {
        Err(InvalidIndexEntryKind::NameNotNullTerminated)
    } else {
        Ok(
            EntryView {
                ctime: (u32_at(d, 0), u32_at(d, 4), 0),
                mtime: (u32_at(d, 8), u32_at(d, 12), 0),
                dev: u32_at(d, 16),
                ino: u32_at(d, 20),
                mode_type: entry_type(mode / 0x1000)->0,
                mode_perms: entry_permissions(mode % 0x200)->0,
                uid: u32_at(d, 28),
                gid: u32_at(d, 32),
                fsize: u32_at(d, 36),
                flag_assume_valid: flags / 0x8000 != 0,
                flag_stage: (flags / 0x1000 % 4) as u8,
                object_id: hex_text(d.subrange(40, 60)),
                object_name: text_of_bytes(d.subrange(62, name_end(d))),
            },
        )
    }
}

/// The flags of an entry: whether it is assumed valid, its merge stage, and the length of its
/// name, or the largest that there is room for where the name is longer.
pub open spec fn flags_word(assume_valid: bool, stage: u8, name_len: int) -> u16 {
    (if assume_valid {
        0x8000u16
    } else {
        0u16
    }) | ((stage as u16) << 12) | (if name_len > 0xfff {
        0xfffu16
    } else {
        name_len as u16
    })
}

/// The twenty bytes of an object ID, or what else its digits stand for; zeros where the ID is
/// not hexadecimal.
pub open spec fn id_bytes(id: Seq<char>) -> Seq<u8> {
    if is_hex_text(id) {
        hex_bytes(id)
    } else {
        Seq::new(20, |i: int| 0u8)
    }
}

/// A number of NUL bytes.
pub open spec fn nul_bytes(n: int) -> Seq<u8> {
    Seq::new(n as nat, |i: int| 0u8)
}

/// The eight bytes of a moment from its parts.
pub open spec fn time_bytes(t: (int, int, int)) -> Seq<u8> {
    be32_bytes(t.0 % 0x1_0000_0000) + be32_bytes(t.1)
}

/// The part of a stored entry in front of its name.
pub open spec fn entry_head(e: EntryView) -> Seq<u8> {
    time_bytes(e.ctime) + time_bytes(e.mtime) + be32_bytes(e.dev) + be32_bytes(e.ino) + be32_bytes(
        entry_type_number(e.mode_type) * 0x1000 + permissions_number(e.mode_perms),
    ) + be32_bytes(e.uid) + be32_bytes(e.gid) + be32_bytes(e.fsize) + id_bytes(e.object_id)
        + be16_bytes(
        flags_word(
            e.flag_assume_valid,
            e.flag_stage,
            encode_utf8(e.object_name).len() as int,
        ) as int,
    )
}

/// A stored entry.
pub open spec fn entry_bytes(e: EntryView) -> Seq<u8> {
    let name = encode_utf8(e.object_name);
    entry_head(e) + name + nul_bytes(entry_length(name.len() as int) - name.len() - 62)
}

impl Keyed for IndexEntry {
    open spec fn sort_key(&self) -> SortKey {
        (encode_utf8(self.object_name@), Seq::empty(), self.flag_stage as int)
    }

    fn before(&self, other: &Self) -> (r: bool) {
        let a = self.object_name.as_str().as_bytes();
        let b = other.object_name.as_str().as_bytes();
        if bytes_before(a, b) {
            return true;
        }
        if bytes_before(b, a) {
            proof {
                crate::sorting::lemma_key_order(
                    self.sort_key(),
                    other.sort_key(),
                    self.sort_key(),
                );
            }
            return false;
        }
        proof {
            crate::sorting::lemma_bytes_total(a@, b@);
            crate::sorting::lemma_bytes_irreflexive(Seq::<u8>::empty());
        }
        self.flag_stage < other.flag_stage
    }
}

impl PartialEq for IndexEntry {
    fn eq(&self, other: &Self) -> (r: bool) {
        same_text(self.object_name.as_str(), other.object_name.as_str()) && self.flag_stage
            == other.flag_stage
    }
}

impl vstd::std_specs::cmp::PartialEqSpecImpl for IndexEntry {
    open spec fn obeys_eq_spec() -> bool {
        true
    }

    open spec fn eq_spec(&self, other: &Self) -> bool {
        self.object_name@ == other.object_name@ && self.flag_stage == other.flag_stage
    }
}

impl Eq for IndexEntry {

}

impl IndexEntry {
    /// Orders two entries by name and then by merge stage.
    pub fn cmp(&self, other: &Self) -> (r: Ordering)
        ensures
            r == (if key_lt(self.sort_key(), other.sort_key()) {
                Ordering::Less
            } else if key_lt(other.sort_key(), self.sort_key()) {
                Ordering::Greater
            } else {
                Ordering::Equal
            }),
    {
        if self.before(other) {
            Ordering::Less
        } else if other.before(self) {
            Ordering::Greater
        } else {
            Ordering::Equal
        }
    }

    /// The length of this entry when stored, with the padding that rounds it up to a multiple
    /// of eight bytes.
    pub fn byte_length(&self) -> (r: usize)
        requires
            encode_utf8(self.object_name@).len() + 70 <= usize::MAX,
        ensures
            r == entry_length(encode_utf8(self.object_name@).len() as int),
    {
        let n: usize = self.object_name.as_str().as_bytes().len();
        (n + 70) / 8 * 8
    }

    /// Reads a stored entry.
    pub fn from_bytes(data: &[u8]) -> (r: Result<IndexEntry, InvalidIndexEntryError>)
        ensures
            match r {
                Ok(e) => parse_entry(data@) == Ok::<EntryView, InvalidIndexEntryKind>(e@),
                Err(e) => parse_entry(data@) == Err::<EntryView, InvalidIndexEntryKind>(
                    e.error_kind,
                ),
            },
    {
        let n: usize = data.len();
        if n < 64 {
            return Err(InvalidIndexEntryError { error_kind: InvalidIndexEntryKind::TooShort });
        }
        let ctime_s: u32 = u32_from_be_bytes_unchecked(data, 0);
        let ctime_ns: u32 = u32_from_be_bytes_unchecked(data, 4);
        let ctime = match Timestamp::utc(ctime_s as i64, ctime_ns) {
            Some(t) => t,
            None => {
                return Err(
                    InvalidIndexEntryError {
                        error_kind: InvalidIndexEntryKind::UnparseableTimestamp(ctime_s, ctime_ns),
                    },
                );
            },
        };
        let mtime_s: u32 = u32_from_be_bytes_unchecked(data, 8);
        let mtime_ns: u32 = u32_from_be_bytes_unchecked(data, 12);
        let mtime = match Timestamp::utc(mtime_s as i64, mtime_ns) {
            Some(t) => t,
            None => {
                return Err(
                    InvalidIndexEntryError {
                        error_kind: InvalidIndexEntryKind::UnparseableTimestamp(mtime_s, mtime_ns),
                    },
                );
            },
        };
        let dev: u32 = u32_from_be_bytes_unchecked(data, 16);
        let ino: u32 = u32_from_be_bytes_unchecked(data, 20);
        let mode: u16 = u16_from_be_bytes_unchecked(data, 26);
        let mode_type_val: u16 = mode / 0x1000;
        let mode_type = match IndexEntryType::from_byte(mode_type_val as u8) {
            Some(t) => t,
            None => {
                return Err(
                    InvalidIndexEntryError {
                        error_kind: InvalidIndexEntryKind::UnexpectedMode(mode_type_val),
                    },
                );
            },
        };
        let perms_val: u16 = mode % 0x200;
        let mode_perms = match IndexEntryPermissions::from_u16(perms_val) {
            Some(p) => p,
            None => {
                return Err(
                    InvalidIndexEntryError {
                        error_kind: InvalidIndexEntryKind::UnexpectedPermissions(perms_val),
                    },
                );
            },
        };
        let uid: u32 = u32_from_be_bytes_unchecked(data, 28);
        let gid: u32 = u32_from_be_bytes_unchecked(data, 32);
        let fsize: u32 = u32_from_be_bytes_unchecked(data, 36);
        let object_id = hex_encode(slice_subrange(data, 40, 60));
        let flags: u16 = u16_from_be_bytes_unchecked(data, 60);
        let flag_assume_valid = flags / 0x8000 != 0;
        let flag_stage: u8 = (flags / 0x1000 % 4) as u8;
        let name_len: usize = (flags % 0x1000) as usize;
        if n < name_len + 63 {
            return Err(InvalidIndexEntryError { error_kind: InvalidIndexEntryKind::TooShort });
        }
        let end: usize = if name_len < 0xfff {
            name_len + 62
        } else {
            find_byte(data, 0, 62)
        };
        assert(end == name_end(data@));
        if end >= n || data[end] != 0 {
            return Err(
                InvalidIndexEntryError {
                    error_kind: InvalidIndexEntryKind::NameNotNullTerminated,
                },
            );
        }
        let object_name = lossy_string(slice_subrange(data, 62, end));
        let entry = IndexEntry {
            ctime,
            mtime,
            dev,
            ino,
            mode_type,
            mode_perms,
            uid,
            gid,
            fsize,
            flag_assume_valid,
            flag_stage,
            object_id,
            object_name,
        };
        Ok(entry)
    }

    /// The entry for a file with the given metadata.
    pub fn from_metadata(
        metadata: &FileMetadata,
        object_id: String,
        index_ready_name: String,
    ) -> (r: Self)
        ensures
            r@ == (EntryView {
                ctime: moment_view(metadata.ctime),
                mtime: moment_view(metadata.mtime),
                dev: metadata.dev as int,
                ino: metadata.ino as int,
                mode_type: metadata.mode_type,
                mode_perms: metadata.mode_perms,
                uid: metadata.uid as int,
                gid: metadata.gid as int,
                fsize: metadata.fsize as int,
                flag_assume_valid: false,
                flag_stage: 0,
                object_id: object_id@,
                object_name: index_ready_name@,
            }),
    {
        IndexEntry {
            ctime: metadata.ctime,
            mtime: metadata.mtime,
            dev: metadata.dev,
            ino: metadata.ino,
            mode_type: metadata.mode_type,
            mode_perms: metadata.mode_perms,
            uid: metadata.uid,
            gid: metadata.gid,
            fsize: metadata.fsize,
            flag_assume_valid: false,
            flag_stage: 0,
            object_id,
            object_name: index_ready_name,
        }
    }

    /// Writes the entry in the form in which it is stored.
    pub fn serialise(&self, buf: &mut Vec<u8>)
        ensures
            final(buf)@ == old(buf)@ + entry_bytes(self@),
    {
        let ghost start = buf@;
        self.serialise_head(buf);
        let name = self.object_name.as_str().as_bytes();
        push_name(buf, name);
        proof {
            lemma_append_three(
                start,
                entry_head(self@),
                name@,
                nul_bytes(entry_length(name@.len() as int) - name@.len() - 62),
            );
        }
    }

    fn serialise_head(&self, buf: &mut Vec<u8>)
        ensures
            final(buf)@ == old(buf)@ + entry_head(self@),
    {
        let ghost start = buf@;
        let mut times = datetime_to_bytes(&self.ctime);
        let mut mtime = datetime_to_bytes(&self.mtime);
        times.append(&mut mtime);
        let mut head: Vec<u8> = times;
        put_be32(&mut head, self.dev);
        put_be32(&mut head, self.ino);
        let mode: u32 = self.mode_type.to_byte() as u32 * 0x1000 + self.mode_perms.to_u16() as u32;
        put_be32(&mut head, mode);
        put_be32(&mut head, self.uid);
        put_be32(&mut head, self.gid);
        put_be32(&mut head, self.fsize);
        match hex_decode(self.object_id.as_str()) {
            Some(id) => {
                let mut id_bytes = id;
                head.append(&mut id_bytes);
            },
            None => {
                push_nuls(&mut head, 20);
                assert(nul_bytes(20) =~= Seq::new(20, |i: int| 0u8));
            },
        }
        let name_len: usize = self.object_name.as_str().as_bytes().len();
        let capped_len: u16 = if name_len > 0xfff {
            0xfff
        } else {
            name_len as u16
        };
        let assume_valid: u16 = if self.flag_assume_valid {
            0x8000
        } else {
            0
        };
        let flags: u16 = assume_valid | ((self.flag_stage as u16) << 12) | capped_len;
        put_be16(&mut head, flags);
        assert(head@ == entry_head(self@));
        buf.append(&mut head);
    }

    /// The directory that the entry is in; empty for the root of the worktree.
    pub fn object_directory_name(&self) -> (r: &str)
        ensures
            r@ == parent_path(self.object_name@),
    {
        index_path_parent(self.object_name.as_str())
    }

    /// The file name of the entry.
    pub fn object_file_name(&self) -> (r: &str)
        ensures
            r@ == file_of_path(self.object_name@),
    {
        index_path_file(self.object_name.as_str())
    }

    /// The file type and the permissions as one number, as a tree records them.
    pub fn mode(&self) -> (r: u32)
        ensures
            r == entry_mode(self@),
    {
        let mt: u32 = match self.mode_type {
            IndexEntryType::File => 0o100000,
            IndexEntryType::Symlink => 0o120000,
            IndexEntryType::Gitlink => 0o160000,
        };
        let mp: u32 = match self.mode_perms {
            IndexEntryPermissions::NonExecutable => 0o644,
            IndexEntryPermissions::Executable => 0o755,
            IndexEntryPermissions::Link => 0,
        };
        mt + mp
    }
}

/// The file type and the permissions of an entry as one number.
pub open spec fn entry_mode(e: EntryView) -> int {
    entry_type_number(e.mode_type) * 0x1000 + permissions_number(e.mode_perms)
}

/// Appending twice is appending what was appended.
pub proof fn lemma_append<T>(a: Seq<T>, b: Seq<T>, c: Seq<T>)
    ensures
        a + b + c == a + (b + c),
{
    assert(a + b + c =~= a + (b + c));
}

proof fn lemma_append_three<T>(a: Seq<T>, b: Seq<T>, c: Seq<T>, d: Seq<T>)
    ensures
        a + b + (c + d) == a + (b + c + d),
{
    assert(a + b + (c + d) =~= a + (b + c + d));
}

/// Writes a name, the NUL byte that ends it, and the padding up to a multiple of eight bytes.
fn push_name(buf: &mut Vec<u8>, name: &[u8])
    ensures
        final(buf)@ == old(buf)@ + (name@ + nul_bytes(
            entry_length(name@.len() as int) - name@.len() - 62,
        )),
{
    let ghost start = buf@;
    push_bytes(buf, name);
    // One NUL byte ends the name, and up to seven more fill the last block.
    let over: usize = (name.len() % 8 + 63) % 8;
    let padding: usize = if over == 0 {
        1
    } else {
        9 - over
    };
    assert(padding == entry_length(name@.len() as int) - name@.len() - 62);
    push_nuls(buf, padding);
    proof {
        lemma_append(start, name@, nul_bytes(padding as int));
    }
}

fn push_nuls(buf: &mut Vec<u8>, n: usize)
    ensures
        final(buf)@ == old(buf)@ + nul_bytes(n as int),
{
    let ghost start = buf@;
    let mut i: usize = 0;
    assert(start + nul_bytes(0) =~= start);
    while i < n
        invariant
            i <= n,
            buf@ == start + nul_bytes(i as int),
        decreases n - i,
    {
        buf.push(0);
        i = i + 1;
        assert(buf@ =~= start + nul_bytes(i as int));
    }
}

/// Writes bytes at the end of others.
pub fn push_bytes(buf: &mut Vec<u8>, bytes: &[u8])
    ensures
        final(buf)@ == old(buf)@ + bytes@,
{
    let mut copy = vstd::slice::slice_to_vec(bytes);
    buf.append(&mut copy);
}

/// The in-memory representation of an entire index.
#[derive(Debug, PartialEq)]
pub struct Index {
    /// The index version number.  Only version 2 is supported.
    pub version: u32,
    /// The entries.
    pub entries: Vec<IndexEntry>,
}

/// The entry at an index of the data and where the next one starts, or why it is invalid.
/// More data must follow it.
pub open spec fn entry_at(d: Seq<u8>, at: int) -> Result<(EntryView, int), InvalidIndexKind> {
    match parse_entry(d.skip(at)) {
        Err(kind) => Err(
            InvalidIndexKind::InvalidEntry(InvalidIndexEntryError { error_kind: kind }),
        ),
        Ok(e) => {
            let next = at + entry_length(encode_utf8(e.object_name).len() as int);
            if next >= d.len() {
                Err(InvalidIndexKind::TooShort)
            } else {
                Ok((e, next))
            }
        },
    }
}

/// The entries that follow each other from an index of the data on, or why they are invalid.
pub open spec fn parse_entries(d: Seq<u8>, at: int, count: nat) -> Result<
    Seq<EntryView>,
    InvalidIndexKind,
>
    decreases count,
{
    if count == 0 {
        Ok(Seq::empty())
    } else {
        match entry_at(d, at) {
            Err(kind) => Err(kind),
            Ok((e, next)) => match parse_entries(d, next, (count - 1) as nat) {
                Err(kind) => Err(kind),
                Ok(rest) => Ok(seq![e] + rest),
            },
        }
    }
}

/// The entries of a stored index, or why it is invalid.
pub open spec fn parse_index(d: Seq<u8>) -> Result<Seq<EntryView>, InvalidIndexKind> {
    if d.len() < 12 {
        Err(InvalidIndexKind::TooShort)
    } else if d.take(4) != seq![68u8, 73, 82, 67] {
        Err(InvalidIndexKind::MissingMagic)
    } else if u32_at(d, 4) != 2 {
        Err(InvalidIndexKind::UnsupportedVersion(u32_at(d, 4) as u32))
    } else {
        parse_entries(d, 12, u32_at(d, 8) as nat)
    }
}

/// The stored forms of entries, one after the other.
pub open spec fn entries_bytes(s: Seq<EntryView>) -> Seq<u8>
    decreases s.len(),
{
    if s.len() == 0 {
        Seq::empty()
    } else {
        entry_bytes(s[0]) + entries_bytes(s.drop_first())
    }
}

/// A stored index.
pub open spec fn index_bytes(version: int, s: Seq<EntryView>) -> Seq<u8> {
    seq![68u8, 73, 82, 67] + be32_bytes(version) + be32_bytes(
        if s.len() > u32::MAX {
            u32::MAX as int
        } else {
            s.len() as int
        },
    ) + entries_bytes(s)
}

/// The stored form of entries with one more at the end.
pub proof fn lemma_entries_bytes_push(s: Seq<EntryView>, e: EntryView)
    ensures
        entries_bytes(s.push(e)) == entries_bytes(s) + entry_bytes(e),
    decreases s.len(),
{
    let t = s.push(e);
    if s.len() == 0 {
        assert(t.drop_first() =~= Seq::<EntryView>::empty());
        assert(entries_bytes(t.drop_first()) == Seq::<u8>::empty());
        assert(entry_bytes(e) + Seq::<u8>::empty() =~= Seq::<u8>::empty() + entry_bytes(e));
    } else {
        assert(t.drop_first() =~= s.drop_first().push(e));
        lemma_entries_bytes_push(s.drop_first(), e);
        lemma_append(entry_bytes(s[0]), entries_bytes(s.drop_first()), entry_bytes(e));
    }
}

/// Whether an entry has another path than the given one.
pub open spec fn other_path(path: Seq<char>) -> spec_fn(IndexEntry) -> bool {
    |e: IndexEntry| e.object_name@ != path
}

/// The entries other than those with the given path.
pub open spec fn without_path(s: Seq<IndexEntry>, path: Seq<char>) -> Seq<IndexEntry> {
    s.filter(other_path(path))
}

/// Whether the object ID of an entry is listed.
pub open spec fn listed_id(ids: Seq<Seq<char>>) -> spec_fn(IndexEntry) -> bool {
    |e: IndexEntry| ids.contains(e.object_id@)
}

/// The entries whose object ID is listed.
pub open spec fn with_listed_ids(s: Seq<IndexEntry>, ids: Seq<Seq<char>>) -> Seq<IndexEntry> {
    s.filter(listed_id(ids))
}

/// Whether an entry has the given path.
pub open spec fn has_path(s: Seq<IndexEntry>, path: Seq<char>) -> bool {
    exists|i: int| 0 <= i < s.len() && (#[trigger] s[i]).object_name@ == path
}

proof fn lemma_filter_step<T>(s: Seq<T>, k: int, p: spec_fn(T) -> bool)
    requires
        0 <= k < s.len(),
    ensures
        s.take(k + 1).filter(p) == if p(s[k]) {
            s.take(k).filter(p).push(s[k])
        } else {
            s.take(k).filter(p)
        },
{
    reveal(Seq::filter);
    assert(s.take(k + 1).drop_last() =~= s.take(k));
}

/// Reads the entry at an index of the data.
fn read_entry_at(data: &[u8], idx: usize) -> (r: Result<(IndexEntry, usize), InvalidIndexKind>)
    requires
        idx <= data@.len(),
    ensures
        match r {
            Ok((e, next)) => entry_at(data@, idx as int) == Ok::<
                (EntryView, int),
                InvalidIndexKind,
            >((e@, next as int)) && next <= data@.len(),
            Err(kind) => entry_at(data@, idx as int) == Err::<(EntryView, int), InvalidIndexKind>(
                kind,
            ),
        },
{
    let n: usize = data.len();
    let part = slice_subrange(data, idx, n);
    assert(part@ =~= data@.skip(idx as int));
    let entry = match IndexEntry::from_bytes(part) {
        Ok(e) => e,
        Err(e) => {
            return Err(InvalidIndexKind::InvalidEntry(e));
        },
    };
    let name_len: usize = entry.object_name.as_str().as_bytes().len();
    // A name as long as what is left would not fit in it.
    if name_len >= n - idx || 63 >= n - idx - name_len {
        return Err(InvalidIndexKind::TooShort);
    }
    let over: usize = (name_len + 63) % 8;
    let padding: usize = if over == 0 {
        0
    } else {
        8 - over
    };
    assert(name_len + 63 + padding == entry_length(name_len as int));
    if padding >= n - idx - name_len - 63 {
        return Err(InvalidIndexKind::TooShort);
    }
    let length: usize = name_len + 63 + padding;
    Ok((entry, idx + length))
}

impl Index {
    /// An empty index.
    pub fn new() -> (r: Self)
        ensures
            r.version == 2,
            r.entries@ == Seq::<IndexEntry>::empty(),
    {
        Index { version: 2, entries: Vec::new() }
    }

    /// The entries of the index.
    pub fn entries(&self) -> (r: &[IndexEntry])
        ensures
            r@ == self.entries@,
    {
        self.entries.as_slice()
    }

    /// Reads a stored index.
    pub fn from_bytes(data: &[u8]) -> (r: Result<Index, InvalidIndexError>)
        ensures
            match r {
                Ok(i) => i.version == 2 && parse_index(data@) == Ok::<
                    Seq<EntryView>,
                    InvalidIndexKind,
                >(entry_views(i.entries@)),
                Err(e) => parse_index(data@) == Err::<Seq<EntryView>, InvalidIndexKind>(
                    e.error_kind,
                ),
            },
    {
        let n: usize = data.len();
        if n < 12 {
            return Err(InvalidIndexError { error_kind: InvalidIndexKind::TooShort });
        }
        proof {
            assert(data@.take(4) =~= seq![data@[0], data@[1], data@[2], data@[3]]);
        }
        if data[0] != 68 || data[1] != 73 || data[2] != 82 || data[3] != 67 {
            proof {
                let m = seq![68u8, 73, 82, 67];
                assert(m[0] == 68 && m[1] == 73 && m[2] == 82 && m[3] == 67);
                assert(data@.take(4) != m);
            }
            return Err(InvalidIndexError { error_kind: InvalidIndexKind::MissingMagic });
        }
        let version: u32 = u32_from_be_bytes_unchecked(data, 4);
        if version != 2 {
            return Err(
                InvalidIndexError { error_kind: InvalidIndexKind::UnsupportedVersion(version) },
            );
        }
        let count: u32 = u32_from_be_bytes_unchecked(data, 8);
        let mut entries: Vec<IndexEntry> = Vec::new();
        let mut idx: usize = 12;
        let mut left: u32 = count;
        let ghost whole = parse_entries(data@, 12, count as nat);
        assert(entry_views(entries@) =~= Seq::<EntryView>::empty());
        proof {
            match parse_entries(data@, 12, count as nat) {
                Ok(rest) => {
                    assert(entry_views(entries@) + rest =~= rest);
                },
                Err(_) => {},
            }
        }
        while left > 0
            invariant
                n == data@.len(),
                idx <= n,
                match parse_entries(data@, idx as int, left as nat) {
                    Ok(rest) => whole == Ok::<Seq<EntryView>, InvalidIndexKind>(
                        entry_views(entries@) + rest,
                    ),
                    Err(kind) => whole == Err::<Seq<EntryView>, InvalidIndexKind>(kind),
                },
                whole == parse_index(data@),
            decreases left,
        {
            let (entry, next): (IndexEntry, usize) = match read_entry_at(data, idx) {
                Ok(found) => found,
                Err(kind) => {
                    return Err(InvalidIndexError { error_kind: kind });
                },
            };
            let ghost before = entries@;
            let ghost here = entry@;
            entries.push(entry);
            proof {
                assert(entry_views(entries@) =~= entry_views(before).push(here));
                match parse_entries(data@, next as int, (left - 1) as nat) {
                    Ok(rest) => {
                        assert(entry_views(before) + (seq![here] + rest) =~= entry_views(entries@)
                            + rest);
                    },
                    Err(_) => {},
                }
            }
            idx = next;
            left = left - 1;
        }
        assert(entry_views(entries@) + Seq::<EntryView>::empty() =~= entry_views(entries@));
        Ok(Index { version, entries })
    }

    /// Writes the index in the form in which it is stored.
    pub fn serialise(&self, buf: &mut Vec<u8>)
        ensures
            final(buf)@ == old(buf)@ + index_bytes(
                self.version as int,
                entry_views(self.entries@),
            ),
    {
        let ghost start = buf@;
        let ghost all = entry_views(self.entries@);
        let mut head: Vec<u8> = Vec::new();
        head.push(68);
        head.push(73);
        head.push(82);
        head.push(67);
        assert(head@ =~= seq![68u8, 73, 82, 67]);
        put_be32(&mut head, self.version);
        let truncated_count: u32 = if self.entries.len() > 0xffff_ffff {
            0xffff_ffff
        } else {
            self.entries.len() as u32
        };
        put_be32(&mut head, truncated_count);
        let ghost front = head@;
        buf.append(&mut head);
        let mut i: usize = 0;
        assert(all.take(0) =~= Seq::<EntryView>::empty());
        assert(buf@ =~= start + front + entries_bytes(all.take(0)));
        while i < self.entries.len()
            invariant
                i <= self.entries@.len(),
                all == entry_views(self.entries@),
                buf@ == start + front + entries_bytes(all.take(i as int)),
            decreases self.entries@.len() - i,
        {
            self.entries[i].serialise(buf);
            proof {
                assert(all.take(i + 1) =~= all.take(i as int).push(all[i as int]));
                lemma_entries_bytes_push(all.take(i as int), all[i as int]);
                lemma_append(
                    start + front,
                    entries_bytes(all.take(i as int)),
                    entry_bytes(all[i as int]),
                );
            }
            i = i + 1;
        }
        assert(all.take(i as int) =~= all);
        proof {
            lemma_append(start, front, entries_bytes(all));
        }
    }

    /// The contents of an index file: the stored index, and its SHA-1 digest.  Reading them
    /// gives back the entries, where their stored forms say all there is to say of them.
    pub fn file_bytes(&self) -> (r: Vec<u8>)
        ensures
            ({
                let stored = index_bytes(self.version as int, entry_views(self.entries@));
                r@ == stored + sha1_digest(stored)
            }),
            self.version == 2 && self.entries@.len() <= u32::MAX && (forall|i: int|
                0 <= i < self.entries@.len() ==> storable((#[trigger] self.entries@[i])@))
                ==> parse_index(r@) == Ok::<Seq<EntryView>, InvalidIndexKind>(
                entry_views(self.entries@),
            ),
    {
        let mut data: Vec<u8> = Vec::new();
        self.serialise(&mut data);
        let ghost stored = index_bytes(self.version as int, entry_views(self.entries@));
        assert(data@ =~= stored);
        let digest = sha1_of(data.as_slice());
        proof {
            let views = entry_views(self.entries@);
            if self.version == 2 && self.entries@.len() <= u32::MAX && (forall|i: int|
                0 <= i < self.entries@.len() ==> storable((#[trigger] self.entries@[i])@)) {
                assert forall|i: int| 0 <= i < views.len() implies storable(
                    #[trigger] views[i],
                ) by {
                    assert(views[i] == self.entries@[i]@);
                }
                theorem_index_round_trip(views, digest@);
            }
        }
        push_bytes(&mut data, digest.as_slice());
        data
    }

    /// Whether the index holds an entry with exactly the given path.
    pub fn contains_path(&self, path: &str) -> (r: bool)
        ensures
            r == has_path(self.entries@, path@),
    {
        let mut i: usize = 0;
        while i < self.entries.len()
            invariant
                i <= self.entries@.len(),
                forall|j: int| 0 <= j < i ==> (#[trigger] self.entries@[j]).object_name@ != path@,
            decreases self.entries@.len() - i,
        {
            if same_text(self.entries[i].object_name.as_str(), path) {
                return true;
            }
            i = i + 1;
        }
        false
    }

    /// Removes a path from the index; tells whether it was there.
    pub fn remove(&mut self, path: &str) -> (r: bool)
        ensures
            final(self).version == old(self).version,
            final(self).entries@ == without_path(old(self).entries@, path@),
            r == has_path(old(self).entries@, path@),
            !has_path(final(self).entries@, path@),
    {
        let ghost all = self.entries@;
        let ghost keep = other_path(path@);
        let ghost mut done: int = 0;
        let mut removed = false;
        let mut i: usize = 0;
        assert(all.take(0).filter(keep) =~= Seq::<IndexEntry>::empty()) by {
            reveal(Seq::filter);
        }
        assert(self.entries@ =~= all.take(0).filter(keep) + all.skip(0));
        while i < self.entries.len()
            invariant
                0 <= done <= all.len(),
                self.version == old(self).version,
                keep == other_path(path@),
                i == all.take(done).filter(keep).len(),
                self.entries@ == all.take(done).filter(keep) + all.skip(done),
                removed == has_path(all.take(done), path@),
            decreases self.entries@.len() - i,
        {
            proof {
                lemma_filter_step(all, done, keep);
                assert(self.entries@[i as int] == all[done]);
                assert(all.take(done + 1)[done] == all[done]);
                assert forall|j: int| 0 <= j < done implies #[trigger] all.take(done + 1)[j]
                    == all.take(done)[j] by {}
            }
            let ghost before = self.entries@;
            if same_text(self.entries[i].object_name.as_str(), path) {
                let gone = self.entries.remove(i);
                removed = true;
                assert(has_path(all.take(done + 1), path@));
                assert(self.entries@ =~= all.take(done + 1).filter(keep) + all.skip(done + 1));
            } else {
                i = i + 1;
                assert(self.entries@ =~= all.take(done + 1).filter(keep) + all.skip(done + 1));
                assert(removed == has_path(all.take(done + 1), path@)) by {
                    if removed {
                        let j = choose|j: int|
                            0 <= j < all.take(done).len() && (#[trigger] all.take(
                                done,
                            )[j]).object_name@ == path@;
                        assert(all.take(done + 1)[j].object_name@ == path@);
                    }
                }
            }
            proof {
                done = done + 1;
            }
        }
        proof {
            assert(done == all.len());
            assert(all.take(done) =~= all);
            assert(self.entries@ =~= all.filter(keep));
            assert forall|j: int| 0 <= j < self.entries@.len() implies (
            #[trigger] self.entries@[j]).object_name@ != path@ by {
                all.lemma_filter_pred(keep, j);
                assert(keep(self.entries@[j]));
            }
        }
        removed
    }

    /// Keeps the entries whose object IDs are listed and removes the others.
    pub fn remove_not_present(&mut self, object_ids: &[String])
        ensures
            final(self).version == old(self).version,
            final(self).entries@ == with_listed_ids(old(self).entries@, texts(object_ids@)),
    {
        let ghost all = self.entries@;
        let ghost ids = texts(object_ids@);
        let ghost keep = listed_id(ids);
        let ghost mut done: int = 0;
        let mut i: usize = 0;
        assert(all.take(0).filter(keep) =~= Seq::<IndexEntry>::empty()) by {
            reveal(Seq::filter);
        }
        assert(self.entries@ =~= all.take(0).filter(keep) + all.skip(0));
        while i < self.entries.len()
            invariant
                0 <= done <= all.len(),
                self.version == old(self).version,
                ids == texts(object_ids@),
                keep == listed_id(ids),
                i == all.take(done).filter(keep).len(),
                self.entries@ == all.take(done).filter(keep) + all.skip(done),
            decreases self.entries@.len() - i,
        {
            proof {
                lemma_filter_step(all, done, keep);
                assert(self.entries@[i as int] == all[done]);
            }
            if is_listed(object_ids, self.entries[i].object_id.as_str()) {
                i = i + 1;
            } else {
                let gone = self.entries.remove(i);
            }
            assert(self.entries@ =~= all.take(done + 1).filter(keep) + all.skip(done + 1));
            proof {
                done = done + 1;
            }
        }
        proof {
            assert(all.take(done) =~= all);
            assert(self.entries@ =~= all.filter(keep));
        }
    }

    /// Adds an entry to the index, which is sorted afterwards.
    pub fn add(&mut self, entry: IndexEntry)
        ensures
            final(self).version == old(self).version,
            final(self).entries@ == stable_sort(old(self).entries@.push(entry)),
    {
        self.entries.push(entry);
        sort_items(&mut self.entries);
    }

    /// Adds entries to the index, which is sorted afterwards.
    pub fn add_range(&mut self, entries: &mut Vec<IndexEntry>)
        ensures
            final(self).version == old(self).version,
            final(self).entries@ == stable_sort(old(self).entries@ + old(entries)@),
            final(entries)@ == Seq::<IndexEntry>::empty(),
    {
        self.entries.append(entries);
        sort_items(&mut self.entries);
    }
}

} // verus!
