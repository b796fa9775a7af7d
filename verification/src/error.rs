//! Errors reported by the reader and its buffer.

use vstd::prelude::*;

verus! {

#[verifier::external_type_specification]
#[verifier::external_body]
pub struct ExIoError(std::io::Error);

/// The category of a [`ReadError`], following the kinds of `std::io::ErrorKind` that the
/// reader produces or has to tell apart.
#[derive(Clone, Copy, Debug, PartialEq, Eq, Structural)]
pub enum ErrorKind {
    InvalidInput,
    InvalidData,
    UnexpectedEof,
    Interrupted,
    WouldBlock,
    Other,
}

/// An error of a reader operation.
#[derive(Debug)]
pub enum ReadError {
    /// A fill would grow the buffer beyond the reader's maximum capacity.
    ExceedsMaxCapacity,
    /// The source ended before the requested number of bytes could be read.
    UnexpectedEof,
    /// The source claimed to have read more bytes than the space it was handed.
    ReadCountOutOfRange,
    /// The bytes read for a string were not valid UTF-8.
    InvalidUtf8,
    /// The source's position lies before the unread buffered data, so the logical position
    /// cannot be computed.
    PositionBeforeBuffered,
    /// The source was interrupted and the read may be retried.
    Interrupted(std::io::Error),
    /// Any other error of the source.
    Io(std::io::Error),
}

impl ReadError {
    /// The kind that the error is reported as.
    pub open spec fn spec_kind_of(&self) -> Option<ErrorKind> {
        match self {
            ReadError::ExceedsMaxCapacity => Some(ErrorKind::InvalidInput),
            ReadError::UnexpectedEof => Some(ErrorKind::UnexpectedEof),
            ReadError::ReadCountOutOfRange => Some(ErrorKind::InvalidData),
            ReadError::InvalidUtf8 => Some(ErrorKind::InvalidData),
            ReadError::PositionBeforeBuffered => Some(ErrorKind::InvalidData),
            ReadError::Interrupted(_) => Some(ErrorKind::Interrupted),
            ReadError::Io(_) => None,
        }
    }

    /// Returns the kind of the error; for an error of the source, the kind it reported.
    pub fn kind(&self) -> (k: ErrorKind)
        ensures
            self.spec_kind_of() matches Some(kind) ==> k == kind,
    {
        match self {
            ReadError::ExceedsMaxCapacity => ErrorKind::InvalidInput,
            ReadError::UnexpectedEof => ErrorKind::UnexpectedEof,
            ReadError::ReadCountOutOfRange => ErrorKind::InvalidData,
            ReadError::InvalidUtf8 => ErrorKind::InvalidData,
            ReadError::PositionBeforeBuffered => ErrorKind::InvalidData,
            ReadError::Interrupted(_) => ErrorKind::Interrupted,
            ReadError::Io(e) => io_error_kind(e),
        }
    }

    /// The text of [`message`](Self::message) for each variant.
    pub open spec fn message_text(&self) -> Seq<char> {
        match self {
            ReadError::ExceedsMaxCapacity => "requested amount exceeds maximum buffer capacity"@,
            ReadError::UnexpectedEof => "failed to fill whole buffer"@,
            ReadError::ReadCountOutOfRange => "inner reader returned more bytes than requested"@,
            ReadError::InvalidUtf8 => "stream did not contain valid UTF-8"@,
            ReadError::PositionBeforeBuffered => "inner reader position is before unread buffered data"@,
            ReadError::Interrupted(_) => "operation interrupted"@,
            ReadError::Io(_) => "inner reader failed"@,
        }
    }

    /// A short description of the error.
    pub fn message(&self) -> (m: &'static str)
        ensures
            m@ == self.message_text(),
    {
        match self {
            ReadError::ExceedsMaxCapacity => "requested amount exceeds maximum buffer capacity",
            ReadError::UnexpectedEof => "failed to fill whole buffer",
            ReadError::ReadCountOutOfRange => "inner reader returned more bytes than requested",
            ReadError::InvalidUtf8 => "stream did not contain valid UTF-8",
            ReadError::PositionBeforeBuffered => "inner reader position is before unread buffered data",
            ReadError::Interrupted(_) => "operation interrupted",
            ReadError::Io(_) => "inner reader failed",
        }
    }
}

/// `std::io::Error::kind`, with the kinds this library tells apart mapped to [`ErrorKind`] and
/// every other kind mapped to `ErrorKind::Other`. Nothing is stated of the result: it depends
/// on the error value, which is opaque here.
#[verifier::external_body]
fn io_error_kind(e: &std::io::Error) -> ErrorKind {
    match e.kind() {
        std::io::ErrorKind::InvalidInput => ErrorKind::InvalidInput,
        std::io::ErrorKind::InvalidData => ErrorKind::InvalidData,
        std::io::ErrorKind::UnexpectedEof => ErrorKind::UnexpectedEof,
        std::io::ErrorKind::Interrupted => ErrorKind::Interrupted,
        std::io::ErrorKind::WouldBlock => ErrorKind::WouldBlock,
        _ => ErrorKind::Other,
    }
}

} // verus!
