//! Failures of input and output, as plain values.

use vstd::prelude::*;

verus! {

/// The kind of an input or output failure.
#[derive(Clone, Copy, Debug, PartialEq, Eq, Structural)]
pub enum IoErrorKind {
    NotFound,
    PermissionDenied,
    AlreadyExists,
    WouldBlock,
    ReadOnlyFilesystem,
    InvalidInput,
    InvalidData,
    UnexpectedEof,
    Other,
}

/// An input or output failure: its kind and the text that describes it.
#[derive(Debug)]
pub struct IoError {
    pub kind: IoErrorKind,
    pub message: String,
}

/// The text of a failure to read as many bytes as were asked for.
pub open spec fn eof_text() -> Seq<char> {
    "failed to fill whole buffer"@
}

impl IoError {
    /// Creates a failure from its kind and its text.
    pub fn new(kind: IoErrorKind, message: &str) -> (r: Self)
        ensures
            r.kind == kind,
            r.message@ == message@,
    {
        IoError { kind, message: message.to_owned() }
    }

    /// The failure to read as many bytes as were asked for.
    pub fn unexpected_eof() -> (r: Self)
        ensures
            r.kind == IoErrorKind::UnexpectedEof,
            r.message@ == eof_text(),
    {
        IoError::new(IoErrorKind::UnexpectedEof, "failed to fill whole buffer")
    }
}

} // verus!
