//! Where a repository keeps its link store.

use vstd::prelude::*;
use vstd::string::*;

verus! {

/// The path of the link store, relative to the root of the repository.
pub open spec fn store_suffix() -> Seq<char> {
    "/.gitmind/links"@
}

/// The directory that holds the link files of the repository at
/// `working_dir`.
pub open spec fn links_dir_of(working_dir: Seq<char>) -> Seq<char> {
    working_dir + store_suffix()
}

/// A repository, known by the path of its root.
#[derive(Debug, PartialEq, Eq)]
pub struct GitMindContext {
    pub working_dir: String,
}

impl GitMindContext {
    /// The context of the repository at `working_dir`.
    pub fn new(working_dir: &str) -> (r: Self)
        ensures
            r.working_dir@ == working_dir@,
    {
        GitMindContext { working_dir: String::from_str(working_dir) }
    }

    /// The directory that holds the link files.
    pub fn links_dir(&self) -> (dir: String)
        ensures
            dir@ == links_dir_of(self.working_dir@),
    {
        let mut dir = self.working_dir.clone();
        dir.append("/.gitmind/links");
        dir
    }
}

} // verus!
