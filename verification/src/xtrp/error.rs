//! Errors of the head-described framing.

use vstd::prelude::*;

verus! {

/// What went wrong.
#[derive(Debug, Clone, Copy, PartialEq, Eq, Structural)]
pub enum ErrorKind {
    InvalidMagic,
    InvalidVersion,
    CrcMismatch,
    UnexpectedEof,
    InvalidPacket,
    WriteZero,
    Interrupted,
    Other,
}

/// An error with its kind.
#[derive(Debug, Clone, Copy, PartialEq, Eq, Structural)]
pub struct Error {
    kind: ErrorKind,
}

pub type Result<T> = core::result::Result<T, Error>;

/// The text that describes each kind of error.
pub open spec fn kind_text(kind: ErrorKind) -> Seq<char> {
    match kind {
        ErrorKind::InvalidMagic => "Invalid magic number"@,
        ErrorKind::InvalidVersion => "Invalid protocol version"@,
        ErrorKind::CrcMismatch => "CRC checksum mismatch"@,
        ErrorKind::UnexpectedEof => "Unexpected end of file"@,
        ErrorKind::InvalidPacket => "Invalid packet"@,
        ErrorKind::WriteZero => "Write zero bytes"@,
        ErrorKind::Interrupted => "Operation interrupted"@,
        ErrorKind::Other => "Other error"@,
    }
}

impl Error {
    /// The kind of this error, for contracts.
    pub closed spec fn spec_kind(&self) -> ErrorKind {
        self.kind
    }

    pub fn new(kind: ErrorKind) -> (e: Self)
        ensures
            e.spec_kind() == kind,
    {
        Error { kind }
    }

    #[verifier::when_used_as_spec(spec_kind)]
    pub fn kind(&self) -> (k: ErrorKind)
        ensures
            k == self.spec_kind(),
    {
        self.kind
    }

    /// The description of the error, as a reader would want it printed.
    pub fn message(&self) -> (text: &'static str)
        ensures
            text@ == kind_text(self.spec_kind()),
    {
        match self.kind {
            ErrorKind::InvalidMagic => "Invalid magic number",
            ErrorKind::InvalidVersion => "Invalid protocol version",
            ErrorKind::CrcMismatch => "CRC checksum mismatch",
            ErrorKind::UnexpectedEof => "Unexpected end of file",
            ErrorKind::InvalidPacket => "Invalid packet",
            ErrorKind::WriteZero => "Write zero bytes",
            ErrorKind::Interrupted => "Operation interrupted",
            ErrorKind::Other => "Other error",
        }
    }
}

/// Two errors are the same exactly when their kinds are.
pub proof fn lemma_error_is_its_kind(a: Error, b: Error)
    ensures
        a == b <==> a.spec_kind() == b.spec_kind(),
{
}

} // verus!
