use vstd::prelude::*;

verus! {

/// The kinds of failure the library reports.
#[derive(Debug, Clone, PartialEq, Eq)]
pub enum ArklibError {
    /// A filesystem operation failed; the message describes it.
    Io(String),
    /// A path does not exist, is a directory, is empty, or is not indexed.
    Path(String),
    /// Malformed identifier text or snapshot record.
    Parse,
    /// The collision bookkeeping of the index is inconsistent.
    Collision(String),
    /// A newer version was committed first: reload and retry.
    AlreadyExists,
    /// Nothing has been committed yet, or the expected file is absent.
    NotFound,
    /// Retrying gave up after the configured number of attempts.
    Contention,
    Other(String),
}

} // verus!
