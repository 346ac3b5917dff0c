//! The versioned storage, as far as a removal writes to it.

use crate::error::Error;
use vstd::prelude::*;

verus! {

/// Write access to a versioned storage.
///
/// The caller supplies the implementation. Nothing is promised of what it
/// answers: the command that uses it is verified for every answer.
pub trait GitOperations {
    /// Stages the removal of the file at `path` in the repository at
    /// `working_dir`.
    fn remove(&self, working_dir: &str, path: &str) -> Result<(), Error>;

    /// Commits what is staged in the repository at `working_dir`, under
    /// `message`.
    fn commit(&self, working_dir: &str, message: &str) -> Result<(), Error>;
}

} // verus!
