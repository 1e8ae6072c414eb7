//! Error type shared by the two scan strategies.

use vstd::prelude::*;

verus! {

/// What went wrong while scanning one directory tree.
#[derive(Copy, Clone, Debug, Eq, PartialEq, Ord, PartialOrd, Hash, Structural)]
pub enum ErrorKind {
    /// A traversal I/O failure other than a benign permission-denied listing.
    Io,
    /// The external bulk-scan engine exited with a non-zero status.
    ToolExecution,
    /// An output list file of the external engine held a malformed record.
    CorruptOutput,
}

/// An error scanning one directory tree; other trees are unaffected.
#[derive(Clone, Debug, Eq, PartialEq, Hash)]
pub struct Error {
    pub message: String,
    pub kind: ErrorKind,
}

impl Error {
    pub fn new(message: &str, kind: ErrorKind) -> (r: Error)
        ensures
            r.message@ == message@,
            r.kind == kind,
    {
        Error { message: message.to_owned(), kind }
    }
}

} // verus!
