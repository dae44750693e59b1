//! The failures that the object database reports.
use vstd::prelude::*;

verus! {

/// Why an operation of the object database failed.
#[derive(Debug, Clone, Copy, PartialEq, Eq, Structural)]
pub enum Error {
    /// Input that the canonical encoding cannot hold: a path with a NUL byte.
    Encoding,
    /// A tree was asked to hold two entries under one path.
    DuplicatePath,
    /// An author or committer without a name or an email.
    MissingIdentity,
    /// A failure of storage: the filesystem or the compressor.
    Io,
    /// The head ref holds text that is not an identity.
    RefCorruption,
}

} // verus!
