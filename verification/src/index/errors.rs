//! Errors specific to index parsing.

use vstd::prelude::*;

use crate::numerals::{decimal, numeral, numeral_of, padded_numeral_of, zero_padded};
use crate::text::string_of;

verus! {

broadcast use vstd::string::group_string_axioms;

/// An index entry type flag had an invalid value.  The valid values are 0x08, 0x0a and 0x0e.
#[derive(Clone, Copy, Debug, PartialEq, Eq, Structural)]
pub struct InvalidIndexEntryType {
    /// The invalid flag value.
    pub value: u8,
}

impl InvalidIndexEntryType {
    /// An error about the given flag value.
    pub fn new(value: u8) -> (r: Self)
        ensures
            r.value == value,
    {
        InvalidIndexEntryType { value }
    }

    /// The error as a message.
    pub fn message(&self) -> (r: String)
        ensures
            r@ == "invalid index entry type "@ + numeral(self.value as nat, 16),
    {
        let digits = numeral_of(self.value as u64, 16);
        let mut out = "invalid index entry type ".to_string();
        out.append(string_of(&digits).as_str());
        out
    }
}

/// An index entry permissions field has an invalid value.  The valid values are 0o644, 0o755,
/// and 0o000.
#[derive(Clone, Copy, Debug, PartialEq, Eq, Structural)]
pub struct InvalidIndexEntryPermissions {
    /// The actual value of the field.
    pub value: u16,
}

impl InvalidIndexEntryPermissions {
    /// An error about the given field value.
    pub fn new(value: u16) -> (r: Self)
        ensures
            r.value == value,
    {
        InvalidIndexEntryPermissions { value }
    }

    /// The error as a message.
    pub fn message(&self) -> (r: String)
        ensures
            r@ == "invalid index entry permissions "@ + numeral(self.value as nat, 8),
    {
        let digits = numeral_of(self.value as u64, 8);
        let mut out = "invalid index entry permissions ".to_string();
        out.append(string_of(&digits).as_str());
        out
    }
}

/// The reasons that an index entry may be invalid.
#[derive(Clone, Copy, Debug, PartialEq, Eq, Structural)]
pub enum InvalidIndexEntryKind {
    /// The entry was too short to be properly parsed.
    TooShort,
    /// The file mode was not one of the valid file values for an index entry.
    UnexpectedMode(u16),
    /// The file permissions field was not one of the valid permissions value for an index entry.
    UnexpectedPermissions(u16),
    /// The parser ran out of data before finding a NUL value to terminate the entry name.
    NameNotNullTerminated,
    /// The index timestamp value could not be parsed to a valid timestamp.
    UnparseableTimestamp(u32, u32),
}

/// An error which occurs when the index parser cannot parse an individual index entry.
#[derive(Clone, Copy, Debug, PartialEq, Eq, Structural)]
pub struct InvalidIndexEntryError {
    /// The reason the index entry could not be parsed.
    pub error_kind: InvalidIndexEntryKind,
}

/// The text of a reason that an index entry is invalid.
pub open spec fn entry_error_text(kind: InvalidIndexEntryKind) -> Seq<char> {
    match kind {
        InvalidIndexEntryKind::TooShort => "not enough data"@,
        InvalidIndexEntryKind::UnexpectedMode(m) => "unexpected mode 0b"@ + zero_padded(
            numeral(m as nat, 2),
            2,
        ),
        InvalidIndexEntryKind::UnexpectedPermissions(p) => "unexpected permissions 0o"@
            + zero_padded(numeral(p as nat, 8), 2),
        InvalidIndexEntryKind::NameNotNullTerminated => "name not null-terminated"@,
        InvalidIndexEntryKind::UnparseableTimestamp(s, ns) => "unparseable timestamp "@ + numeral(
            s as nat,
            10,
        ) + "."@ + numeral(ns as nat, 10),
    }
}

impl InvalidIndexEntryError {
    /// The error as a message.
    pub fn message(&self) -> (r: String)
        ensures
            r@ == "invalid index entry: "@ + entry_error_text(self.error_kind),
    {
        let mut out = "invalid index entry: ".to_string();
        match self.error_kind {
            InvalidIndexEntryKind::TooShort => {
                out.append("not enough data");
            },
            InvalidIndexEntryKind::UnexpectedMode(m) => {
                let digits = padded_numeral_of(m as u64, 2, 2);
                out.append("unexpected mode 0b");
                out.append(string_of(&digits).as_str());
            },
            InvalidIndexEntryKind::UnexpectedPermissions(p) => {
                let digits = padded_numeral_of(p as u64, 8, 2);
                out.append("unexpected permissions 0o");
                out.append(string_of(&digits).as_str());
            },
            InvalidIndexEntryKind::NameNotNullTerminated => {
                out.append("name not null-terminated");
            },
            InvalidIndexEntryKind::UnparseableTimestamp(s, ns) => {
                out.append("unparseable timestamp ");
                out.append(decimal(s as u64).as_str());
                out.append(".");
                out.append(decimal(ns as u64).as_str());
            },
        }
        assert(out@ =~= "invalid index entry: "@ + entry_error_text(self.error_kind));
        out
    }
}

/// The reasons that an entire index may be invalid or unparseable.
#[derive(Clone, Copy, Debug, PartialEq, Eq, Structural)]
pub enum InvalidIndexKind {
    /// The index was too short to be properly parsed.
    TooShort,
    /// The header indicating that this file is an index was missing.
    MissingMagic,
    /// The index's version number is not supported.
    UnsupportedVersion(u32),
    /// One or more of the entries in the index could not be parsed.
    InvalidEntry(InvalidIndexEntryError),
}

/// An error occurred when parsing an index.  This may have occurred due to an issue with an
/// individual entry, or with the index as a whole.
#[derive(Clone, Copy, Debug, PartialEq, Eq, Structural)]
pub struct InvalidIndexError {
    /// The first condition detected that makes the index content unparseable.
    pub error_kind: InvalidIndexKind,
}

impl InvalidIndexError {
    /// The error as a message.
    pub fn message(&self) -> (r: String)
        ensures
            r@ == "invalid index: "@ + match self.error_kind {
                InvalidIndexKind::TooShort => "not enough data"@,
                InvalidIndexKind::MissingMagic => "missing magic number"@,
                InvalidIndexKind::UnsupportedVersion(v) => "unsupported index version "@ + numeral(
                    v as nat,
                    10,
                ),
                InvalidIndexKind::InvalidEntry(e) => "invalid index entry: "@ + entry_error_text(
                    e.error_kind,
                ),
            },
    {
        let mut out = "invalid index: ".to_string();
        match self.error_kind {
            InvalidIndexKind::TooShort => {
                out.append("not enough data");
            },
            InvalidIndexKind::MissingMagic => {
                out.append("missing magic number");
            },
            InvalidIndexKind::UnsupportedVersion(v) => {
                out.append("unsupported index version ");
                out.append(decimal(v as u64).as_str());
                assert(out@ =~= "invalid index: "@ + ("unsupported index version "@ + numeral(
                    v as nat,
                    10,
                )));
            },
            InvalidIndexKind::InvalidEntry(e) => {
                out.append(e.message().as_str());
            },
        }
        out
    }
}

} // verus!
