//! The commands of the link store.

pub mod unlink;

pub use unlink::UnlinkCommand;
