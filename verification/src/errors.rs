//! The fatal failures of the core: everything else is absorbed by a
//! fallback (a singleton entity set, an empty dependency list).

use vstd::prelude::*;

verus! {

/// A failure that aborts the containing operation.
#[derive(Clone, Copy, Debug, PartialEq, Eq, Structural)]
pub enum Error {
    /// A revspec neither resolves to a commit nor names a file.
    NoSuchCommit,
    /// A commit-naming operation was attempted in disk-only mode.
    DisallowedInDiskOnly,
    /// A diff delta whose old and new paths differ: renames are not
    /// tolerated.
    RenameInDiff,
    /// A diff delta whose status is not Added, Deleted or Modified, or
    /// whose sides do not match its status.
    UnsupportedDiffStatus,
    /// No blob and no disk file holds the requested content id.
    ContentNotFound,
    /// Two files at one revision share a filename.
    DuplicateFilename,
}

impl Error {
    /// A short description of the failure.
    pub fn message(&self) -> (m: &'static str)
        ensures
            m@ == error_message(*self),
    {
        match self {
            Error::NoSuchCommit => "no such commit",
            Error::DisallowedInDiskOnly => "operation requires a repository",
            Error::RenameInDiff => "diff contains a rename or move",
            Error::UnsupportedDiffStatus => "unsupported diff status",
            Error::ContentNotFound => "content not found",
            Error::DuplicateFilename => "filenames must be unique",
        }
    }
}

/// The words of each failure.
pub open spec fn error_message(e: Error) -> Seq<char> {
    match e {
        Error::NoSuchCommit => "no such commit"@,
        Error::DisallowedInDiskOnly => "operation requires a repository"@,
        Error::RenameInDiff => "diff contains a rename or move"@,
        Error::UnsupportedDiffStatus => "unsupported diff status"@,
        Error::ContentNotFound => "content not found"@,
        Error::DuplicateFilename => "filenames must be unique"@,
    }
}

} // verus!
