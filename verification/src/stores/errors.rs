//! Errors about references.

use vstd::prelude::*;

verus! {

broadcast use vstd::string::group_string_axioms;

/// A text is not the path of a reference.
#[derive(Debug, PartialEq)]
pub struct InvalidRefNameError {
    /// The text.
    pub name: String,
}

impl InvalidRefNameError {
    /// An error about the given text.
    pub fn new(name: &str) -> (r: Self)
        ensures
            r.name@ == name@,
    {
        InvalidRefNameError { name: name.to_string() }
    }
}

} // verus!
