//! The ways in which the store's operations fail.
use vstd::prelude::*;

verus! {

/// Why an operation on objects failed. Every failure is returned to the caller;
/// none of them ends the process.
#[derive(Clone, Copy, Debug, PartialEq, Eq, Structural)]
pub enum ObjectError {
    /// A file could not be read or written, or stored contents do not inflate.
    Io,
    /// No object is stored under the requested hash.
    ObjectNotFound,
    /// The stored header has no NUL terminator, or its tokens do not parse.
    MalformedHeader,
    /// A tree body does not parse as a sequence of entries.
    MalformedTree,
    /// The header names a kind other than `blob` or `tree`.
    UnknownObjectKind,
    /// A tree entry carries a mode number that is not one of the four known ones.
    InvalidFileMode,
    /// Content that must be text is not valid UTF-8.
    Decode,
    /// A tree entry's hash is not forty hex digits.
    InvalidHash,
    /// The kind given for an object does not match its body.
    KindMismatch,
}

} // verus!
