//! Removal of links from a link store.
//!
//! A link store is a directory in which every file with the reserved
//! extension holds one link: a relation from a source to a target, with a type
//! label. This crate selects links by source, target and type, stages the
//! removal of each selected file with a versioned storage, and records the
//! whole removal as one commit.
//!
//! The file system and the versioned storage are capabilities that the caller
//! supplies. Nothing is assumed of them: the command keeps a journal of each
//! call it made and of what came back, and its contracts say which calls a
//! transaction makes, in which order, and what it returns for every possible
//! series of answers.

pub mod commands;
pub mod context;
pub mod criteria;
pub mod error;
pub mod filesystem;
pub mod git;
pub mod journal;
pub mod laws;
pub mod link;
pub mod message;
pub mod text;

pub use commands::unlink::UnlinkCommand;
pub use context::GitMindContext;
pub use criteria::SelectionCriteria;
pub use error::Error;
pub use filesystem::FileSystem;
pub use git::GitOperations;
pub use link::Link;
pub use link::StoredLink;
