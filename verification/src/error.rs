//! The errors of a removal.

use vstd::prelude::*;

verus! {

/// Why a removal failed.
///
/// The first kind arises in this crate, when a link file does not hold a link
/// in canonical form. The other two come from the capabilities and are handed
/// on to the caller as they came.
#[derive(Debug, PartialEq, Eq)]
pub enum Error {
    /// The text of a link file is not the canonical form of any link.
    MalformedLink,
    /// The file system could not list a directory or read a file.
    IoError(String),
    /// The versioned storage could not stage a removal or commit.
    StorageError(String),
}

impl Clone for Error {
    fn clone(&self) -> (r: Self)
        ensures
            r == *self,
    {
        match self {
            Error::MalformedLink => Error::MalformedLink,
            Error::IoError(detail) => Error::IoError(detail.clone()),
            Error::StorageError(detail) => Error::StorageError(detail.clone()),
        }
    }
}

} // verus!
