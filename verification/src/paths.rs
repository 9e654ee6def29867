//! The directories that indexing starts from, given the paths that the user
//! named, and the errors shown when they cannot be had.
use vstd::prelude::*;

verus! {

/// The parent of the path written `path`, as `std::path::Path::parent` gives
/// it, as text.
pub uninterp spec fn path_parent(path: Seq<char>) -> Option<Seq<char>>;

/// The parent of the path written `path` (`std::path::Path::parent`), as
/// text. Claimed: the result is the one that the path's text determines.
/// Which text that is, is not written out here.
#[verifier::external_body]
fn parent_of(path: &str) -> (r: Option<String>)
    ensures
        match r {
            Some(p) => path_parent(path@) == Some(p@),
            None => path_parent(path@) is None,
        },
{
    match std::path::Path::new(path).parent() {
        Some(p) => Some(p.to_string_lossy().into_owned()),
        None => None,
    }
}

/// Why a path that the user named could not be used.
#[derive(Debug)]
pub enum PathError {
    /// The path, a file, has no parent directory.
    NoParent(String),
    /// The path does not exist.
    Missing(String),
}

impl PathError {
    /// The message shown to the user.
    pub fn message(&self) -> (m: String)
        ensures
            match self {
                PathError::NoParent(p) => m@ == "Cannot determine parent of "@ + p@,
                PathError::Missing(p) => m@ == "path '"@ + p@ + "' does not exist"@,
            },
    {
        match self {
            PathError::NoParent(p) => {
                let mut m = "Cannot determine parent of ".to_owned();
                m.append(p.as_str());
                m
            },
            PathError::Missing(p) => {
                let mut m = "path '".to_owned();
                m.append(p.as_str());
                m.append("' does not exist");
                m
            },
        }
    }
}

/// The directory that file indexing starts from, for the canonical path
/// `canonical` of what the user named; `is_file` tells whether it is a file.
/// A directory is its own root; a file's root is its parent directory, and a
/// file without one is an error.
pub fn input_root(canonical: &str, is_file: bool) -> (r: Result<String, PathError>)
    ensures
        !is_file ==> (r matches Ok(s) && s@ == canonical@),
        is_file ==> match path_parent(canonical@) {
            Some(p) => (r matches Ok(s) && s@ == p),
            None => (r matches Err(PathError::NoParent(c)) && c@ == canonical@),
        },
{
    if is_file {
        match parent_of(canonical) {
            Some(p) => Ok(p),
            None => Err(PathError::NoParent(canonical.to_owned())),
        }
    } else {
        Ok(canonical.to_owned())
    }
}

} // verus!
