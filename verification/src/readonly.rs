//! Read-only handle on a project.
//!
//! Everything inside a scanned project folder is read through this type. It
//! holds the project folder and its `.als` file and exposes no way to write
//! to either; opening files is left to the caller, which reads only.

use vstd::prelude::*;
use crate::error::ScanError;
use crate::paths::{path_equal, path_starts_with, paths_equal, starts_with_path};
use crate::text::concat_str;

verus! {

/// A project folder and the `.als` file at its root.
#[derive(Debug)]
pub struct ReadOnlyProject {
    root: String,
    als: String,
}

impl ReadOnlyProject {
    /// The project folder.
    pub closed spec fn root_view(&self) -> Seq<char> {
        self.root@
    }

    /// The `.als` file.
    pub closed spec fn als_view(&self) -> Seq<char> {
        self.als@
    }

    /// `root` is the project folder, `als` the `.als` file at its root
    /// (sibling of `Samples/`, `Backup/`, ...).
    pub fn new(root: String, als: String) -> (r: Self)
        ensures
            r.root_view() == root@,
            r.als_view() == als@,
    {
        ReadOnlyProject { root, als }
    }

    /// The project folder.
    pub fn root(&self) -> (r: &String)
        ensures
            r@ == self.root_view(),
    {
        &self.root
    }

    /// The `.als` file.
    pub fn als_path(&self) -> (r: &String)
        ensures
            r@ == self.als_view(),
    {
        &self.als
    }

    /// The check made before opening `path` inside the project: `Ok` when
    /// `path` lies within the project folder, judged on the canonical forms
    /// given (each one the path itself where it could not be canonicalized),
    /// otherwise the error naming both paths.
    pub fn check_within(&self, path: &str, canonical_path: &str, canonical_root: &str) -> (r: Result<(), ScanError>)
        ensures
            r is Ok <==> within_spec(canonical_path@, canonical_root@),
            r matches Err(e) ==> (e matches ScanError::Other(m) && m@ == outside_root_message(path@, self.root_view())),
    {
        if path_is_within(canonical_path, canonical_root) {
            Ok(())
        } else {
            let a = concat_str("attempted to open a path outside the project root: ", path);
            let b = concat_str(a.as_str(), " (root: ");
            let c = concat_str(b.as_str(), self.root.as_str());
            let d = concat_str(c.as_str(), ")");
            proof {
                reveal_strlit("attempted to open a path outside the project root: ");
                reveal_strlit(" (root: ");
                reveal_strlit(")");
            }
            Err(ScanError::Other(d))
        }
    }
}

/// The message of the error for a path outside the project folder.
pub open spec fn outside_root_message(path: Seq<char>, root: Seq<char>) -> Seq<char> {
    "attempted to open a path outside the project root: "@ + path + " (root: "@ + root + ")"@
}

/// `path` equals `root` or lies below it, by components.
pub open spec fn within_spec(path: Seq<char>, root: Seq<char>) -> bool {
    path_equal(path, root) || path_starts_with(path, root)
}

/// Whether `path` equals `root` or is contained in it. Both are taken as
/// given: the caller passes their canonical forms where it can get them,
/// and the paths themselves otherwise.
pub fn path_is_within(path: &str, root: &str) -> (r: bool)
    ensures
        r == within_spec(path@, root@),
{
    paths_equal(path, root) || starts_with_path(path, root)
}

/// A folder is within itself: an output folder equal to a scanned folder
/// is caught by the same check as one inside it.
pub proof fn lemma_within_itself(p: Seq<char>)
    ensures
        within_spec(p, p),
{
}

} // verus!
