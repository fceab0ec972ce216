//! Structured decode errors: what went wrong and at which byte offset.

use vstd::prelude::*;

verus! {

/// What kind of malformation or violation stopped a decode.
#[derive(Clone, Copy, Debug, PartialEq, Eq, Structural)]
pub enum ErrorKind {
    /// The buffer ended before a construct was complete.
    UnexpectedEof,
    /// A variable-length integer was malformed or too large for its use.
    InvalidVarint,
    /// The leading magic bytes or the version field did not match.
    BadHeader,
    /// A section identifier that the format does not define, or sections out
    /// of canonical order.
    BadSection,
    /// A section's declared byte length did not match its content.
    SectionSizeMismatch,
    /// A value-type byte that the format does not define, or one that the
    /// configuration rejects.
    BadValType,
    /// An opcode that the format does not define.
    BadOpcode,
    /// An instruction consumed a value that no prior instruction produced.
    StackUnderflow,
    /// An index referenced an entity that was never declared.
    IndexOutOfRange,
    /// The declaration counts of two paired sections disagree.
    CountMismatch,
    /// A strict-validation rule was violated.
    StrictViolation,
}

/// A decode failure, carrying the byte offset at which it was detected.
#[derive(Clone, Copy, Debug, PartialEq, Eq, Structural)]
pub struct Error {
    pub kind: ErrorKind,
    pub offset: usize,
}

impl Error {
    /// Builds an error of the given kind at the given offset.
    pub fn at(kind: ErrorKind, offset: usize) -> (r: Error)
        ensures
            r.kind == kind,
            r.offset == offset,
    {
        Error { kind, offset }
    }
}

} // verus!
