//! The file system, as far as a removal reads it.

use crate::error::Error;
use vstd::prelude::*;

verus! {

/// Read access to a file system.
///
/// The caller supplies the implementation. Nothing is promised of what it
/// answers: the command that uses it is verified for every answer.
pub trait FileSystem {
    /// Whether anything exists at `path`.
    fn path_exists(&self, path: &str) -> bool;

    /// The paths of the entries directly inside the directory at `path`.
    fn read_dir(&self, path: &str) -> Result<Vec<String>, Error>;

    /// The whole content of the file at `path`, as text.
    fn read_to_string(&self, path: &str) -> Result<String, Error>;
}

} // verus!
