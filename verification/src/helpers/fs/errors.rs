//! Errors about paths.

use vstd::prelude::*;

verus! {

broadcast use vstd::string::group_string_axioms;

/// What is wrong with a path.
#[derive(Clone, Copy, Debug, PartialEq, Eq, Structural)]
pub enum PathErrorKind {
    /// The path is not valid.
    InvalidPath,
    /// The path lies outside the repository.
    PathOutsideRepo,
}

/// An error about a path.
#[derive(Debug)]
pub struct PathError {
    /// The path.
    pub path: String,
    /// What is wrong with it.
    pub kind: PathErrorKind,
}

impl PathError {
    /// An error about the given path.
    pub fn new(path: &str, kind: PathErrorKind) -> (r: Self)
        ensures
            r.path@ == path@,
            r.kind == kind,
    {
        PathError { path: path.to_string(), kind }
    }

    /// The error as a message.
    pub fn message(&self) -> (r: String)
        ensures
            r@ == match self.kind {
                PathErrorKind::InvalidPath => "invalid path '"@ + self.path@ + "'"@,
                PathErrorKind::PathOutsideRepo => "path '"@ + self.path@ + "' is outside the repo"@,
            },
    {
        let mut out = String::new();
        match self.kind {
            PathErrorKind::InvalidPath => {
                out.append("invalid path '");
                out.append(self.path.as_str());
                out.append("'");
                assert(out@ =~= "invalid path '"@ + self.path@ + "'"@);
            },
            PathErrorKind::PathOutsideRepo => {
                out.append("path '");
                out.append(self.path.as_str());
                out.append("' is outside the repo");
                assert(out@ =~= "path '"@ + self.path@ + "' is outside the repo"@);
            },
        }
        out
    }
}

} // verus!
