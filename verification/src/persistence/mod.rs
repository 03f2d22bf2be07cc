//! Save files: snapshots of the whole world, and journals of what changed
//! since.
pub mod bytes;
pub mod format;
pub mod journal;
pub mod snapshot;
