//! A problem: where its text lies, and its name.

use vstd::prelude::*;

verus! {

/// The path type of the standard library, carried through as it is.
#[verifier::external_type_specification]
#[verifier::external_body]
pub struct ExPathBuf(std::path::PathBuf);

/// A problem to solve.
pub struct Problem {
    pub path: std::path::PathBuf,
    pub name: String,
}

impl Problem {
    /// The problem of a name whose text lies at a path.
    pub fn new(path: std::path::PathBuf, name: String) -> (r: Self)
        ensures
            r.path == path,
            r.name == name,
    {
        Self { path, name }
    }
}

} // verus!
