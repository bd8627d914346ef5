//! Predicates on repository paths.

use vstd::prelude::*;
use crate::repo_path::RepoPath;

verus! {

/// Decides for each path whether it is of interest.
pub trait Matcher {
    /// Whether the matcher accepts `path`.
    spec fn matches_spec(&self, path: Seq<Seq<u8>>) -> bool;

    /// Whether the matcher accepts `path`.
    fn matches(&self, path: &RepoPath) -> (r: bool)
        ensures
            r == self.matches_spec(path@),
    ;
}

/// The matcher that accepts every path.
#[derive(Debug, Clone, Copy)]
pub struct EverythingMatcher;

impl Matcher for EverythingMatcher {
    open spec fn matches_spec(&self, path: Seq<Seq<u8>>) -> bool {
        true
    }

    fn matches(&self, path: &RepoPath) -> (r: bool) {
        true
    }
}

/// The matcher that accepts the paths it was made with and no others.
#[derive(Debug)]
pub struct FilesMatcher {
    files: Vec<RepoPath>,
}

impl FilesMatcher {
    /// The paths that the matcher accepts.
    pub closed spec fn paths(&self) -> Seq<Seq<Seq<u8>>> {
        self.files@.map_values(|p: RepoPath| p@)
    }

    /// The matcher that accepts exactly the given paths.
    pub fn new(files: Vec<RepoPath>) -> (r: Self)
        ensures
            r.paths() == files@.map_values(|p: RepoPath| p@),
    {
        FilesMatcher { files }
    }
}

impl Matcher for FilesMatcher {
    open spec fn matches_spec(&self, path: Seq<Seq<u8>>) -> bool {
        self.paths().contains(path)
    }

    fn matches(&self, path: &RepoPath) -> (r: bool) {
        let mut i: usize = 0;
        while i < self.files.len()
            invariant
                i <= self.files.len(),
                forall|j: int| 0 <= j < i ==> self.paths()[j] != path@,
            decreases self.files.len() - i,
        {
            if self.files[i].equals(path) {
                assert(self.paths()[i as int] == path@);
                return true;
            }
            i = i + 1;
        }
        false
    }
}

} // verus!
