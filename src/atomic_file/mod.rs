//! A compare-and-swap file: each committed value is a new version file in
//! one directory, and a commit succeeds only over the latest version.
//!
//! The directory itself is read and written by the caller; this module
//! decides which version to read, where to commit, what to prune and when
//! to retry.
pub mod atomic;

pub use atomic::{AtomicFile, ReadOnlyFile};
