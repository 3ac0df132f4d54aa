//! Errors about objects.

use vstd::prelude::*;

use crate::text::{texts};

verus! {

broadcast use vstd::string::group_string_axioms;

/// An object was looked for by name, and not exactly one was found.
#[derive(Debug)]
pub struct FindObjectError {
    /// The IDs of the objects that were found; nothing where none was.
    pub candidates: Option<Vec<String>>,
}

impl FindObjectError {
    /// No object was found.
    pub fn none() -> (r: FindObjectError)
        ensures
            r.candidates is None,
    {
        FindObjectError { candidates: None }
    }

    /// Several objects were found.
    pub fn some(candidates: &[String]) -> (r: FindObjectError)
        ensures
            r.candidates matches Some(c) && texts(c@) == texts(candidates@),
    {
        let mut copy: Vec<String> = Vec::new();
        let mut i: usize = 0;
        while i < candidates.len()
            invariant
                i <= candidates@.len(),
                copy@.len() == i,
                forall|j: int| 0 <= j < i ==> copy@[j]@ == candidates@[j]@,
            decreases candidates@.len() - i,
        {
            copy.push(candidates[i].clone());
            i = i + 1;
        }
        assert(texts(copy@) =~= texts(candidates@));
        FindObjectError { candidates: Some(copy) }
    }

    /// The error as a message.
    pub fn message(&self) -> (r: String)
        ensures
            r@ == if self.candidates is Some {
                "multiple objects found"@
            } else {
                "no objects found"@
            },
    {
        match self.candidates {
            Some(_) => "multiple objects found".to_string(),
            None => "no objects found".to_string(),
        }
    }
}

/// An object is not valid.
#[derive(Clone, Copy, Debug, PartialEq, Eq, Structural)]
pub struct InvalidObjectError {}

impl InvalidObjectError {
    /// The error as a message.
    pub fn message(&self) -> (r: String)
        ensures
            r@ == "invalid object"@,
    {
        "invalid object".to_string()
    }
}

/// A field that should hold an object ID does not.
#[derive(Clone, Copy, Debug, PartialEq, Eq, Structural)]
pub struct InvalidObjectIdError {}

/// Why bytes are not a valid tree entry.
#[derive(Clone, Copy, Debug, PartialEq, Eq, Structural)]
pub enum TreeError {
    /// No space ends the mode.
    NoModeEnd,
    /// The mode is not five or six characters long.
    ModeLength,
    /// The mode is not valid UTF-8.
    ModeNotUtf8,
    /// The mode is not an octal number.
    ModeNotOctal,
    /// No NUL byte ends the path.
    NoPathEnd,
    /// There is no room for an object ID behind the path.
    TooShort,
    /// The path is not valid UTF-8.
    PathNotUtf8,
}

/// Why bytes are not a valid object.
#[derive(Clone, Copy, Debug, PartialEq, Eq, Structural)]
pub enum ObjectError {
    /// No space ends the type.
    NoTypeEnd,
    /// No NUL byte ends the length.
    NoLengthEnd,
    /// The type is none that is known.
    UnknownType,
    /// The length is not a number.
    BadLength,
    /// The length is not that of the data.
    LengthMismatch,
    /// The data are changes to another object.
    IsDelta,
    /// A text in the object is not valid UTF-8.
    NotUtf8,
    /// An entry of a tree is not valid.
    Tree(TreeError),
}

impl ObjectError {
    /// The error as a message.
    pub fn message(&self) -> (r: String)
        ensures
            r@ == object_error_text(*self),
    {
        match self {
            ObjectError::NoTypeEnd => "malformed object: end of object type code not found",
            ObjectError::NoLengthEnd => "malformed object: end of object length not found",
            ObjectError::UnknownType => "unrecognised object type",
            ObjectError::BadLength => "Could not parse object length!",
            ObjectError::LengthMismatch => "malformed object: unexpected length",
            ObjectError::IsDelta => "Delta objects cannot be parsed",
            ObjectError::NotUtf8 => "object is not valid UTF8",
            ObjectError::Tree(TreeError::NoModeEnd) =>
                "Mode terminator character not found in tree entry",
            ObjectError::Tree(TreeError::ModeLength) =>
                "Mode field of tree entry is incorrect length",
            ObjectError::Tree(TreeError::ModeNotUtf8) =>
                "Could not parse mode field of tree entry as valid UTF8",
            ObjectError::Tree(TreeError::ModeNotOctal) =>
                "Could not parse mode field of tree entry as valid octal integer",
            ObjectError::Tree(TreeError::NoPathEnd) =>
                "Path terminator character not found in tree entry",
            ObjectError::Tree(TreeError::TooShort) =>
                "Tree entry is too short to contain valid object name",
            ObjectError::Tree(TreeError::PathNotUtf8) =>
                "Could not parse path field of tree entry as valid UTF8",
        }.to_string()
    }
}

/// The text of an error.
pub open spec fn object_error_text(e: ObjectError) -> Seq<char> {
    match e {
        ObjectError::NoTypeEnd => "malformed object: end of object type code not found"@,
        ObjectError::NoLengthEnd => "malformed object: end of object length not found"@,
        ObjectError::UnknownType => "unrecognised object type"@,
        ObjectError::BadLength => "Could not parse object length!"@,
        ObjectError::LengthMismatch => "malformed object: unexpected length"@,
        ObjectError::IsDelta => "Delta objects cannot be parsed"@,
        ObjectError::NotUtf8 => "object is not valid UTF8"@,
        ObjectError::Tree(TreeError::NoModeEnd) =>
            "Mode terminator character not found in tree entry"@,
        ObjectError::Tree(TreeError::ModeLength) => "Mode field of tree entry is incorrect length"@,
        ObjectError::Tree(TreeError::ModeNotUtf8) =>
            "Could not parse mode field of tree entry as valid UTF8"@,
        ObjectError::Tree(TreeError::ModeNotOctal) =>
            "Could not parse mode field of tree entry as valid octal integer"@,
        ObjectError::Tree(TreeError::NoPathEnd) =>
            "Path terminator character not found in tree entry"@,
        ObjectError::Tree(TreeError::TooShort) =>
            "Tree entry is too short to contain valid object name"@,
        ObjectError::Tree(TreeError::PathNotUtf8) =>
            "Could not parse path field of tree entry as valid UTF8"@,
    }
}

} // verus!
