use vstd::prelude::*;

verus! {

/// Every way an operation of the store can fail.
#[derive(Debug, Clone, Copy, PartialEq, Eq, Structural)]
pub enum RvcsError {
    /// The repository root marker directory is absent.
    RepositoryMissing,
    /// The root marker exists but its objects directory does not.
    RepositoryCorrupted,
    /// The path handed to `add` does not exist.
    PathNotFound,
    /// The path handed to `add` names a directory.
    PathIsDirectory,
    /// No object is stored under the requested hash.
    ObjectNotFound,
    /// A read or write of the repository could not complete.
    IoFailure,
    /// `commit` was asked for while nothing is staged.
    EmptyCommit,
    /// The wall clock could not be read, or reads before the epoch.
    ClockFailure,
}

} // verus!
