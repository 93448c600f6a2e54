//! The failures of the plain file server.

use crate::http::HttpStatus;
use vstd::prelude::*;
use vstd::utf8::*;

verus! {

/// Possible error kinds.
#[derive(Debug, Clone, Copy, PartialEq, Eq, Hash, Structural)]
#[allow(missing_docs)]
pub enum ErrorKind {
    NotFound,
    InternalServerError,
}

impl ErrorKind {
    /// The status with which a failure of this kind is answered.
    pub open spec fn status(self) -> HttpStatus {
        match self {
            ErrorKind::NotFound => HttpStatus::NotFound,
            ErrorKind::InternalServerError => HttpStatus::InternalServerError,
        }
    }
}

/// A failure to serve a file: its kind, and a text that says what went
/// wrong.
#[derive(Debug, Clone)]
pub struct Error {
    kind: ErrorKind,
    message: String,
}

/// The mathematical value of an [`Error`]; the message is a byte string.
pub struct ErrorView {
    pub kind: ErrorKind,
    pub message: Seq<u8>,
}

impl View for Error {
    type V = ErrorView;

    closed spec fn view(&self) -> ErrorView {
        ErrorView { kind: self.kind, message: encode_utf8(self.message@) }
    }
}

impl Error {
    /// A failure of the given kind.
    pub fn new(kind: ErrorKind, message: String) -> (error: Error)
        ensures
            error@ == (ErrorView { kind, message: encode_utf8(message@) }),
    {
        Error { kind, message }
    }

    /// A failure to read a file: a file that is not there is not found;
    /// anything else is the server's own failure.
    pub fn from_read_failure(missing: bool, message: String) -> (error: Error)
        ensures
            error@ == (ErrorView {
                kind: if missing {
                    ErrorKind::NotFound
                } else {
                    ErrorKind::InternalServerError
                },
                message: encode_utf8(message@),
            }),
    {
        let kind = if missing {
            ErrorKind::NotFound
        } else {
            ErrorKind::InternalServerError
        };
        Error { kind, message }
    }

    /// The kind of the failure.
    pub fn kind(&self) -> (kind: ErrorKind)
        ensures
            kind == self@.kind,
    {
        self.kind
    }

    /// The text that says what went wrong.
    pub fn message(&self) -> (message: &str)
        ensures
            encode_utf8(message@) == self@.message,
    {
        self.message.as_str()
    }

    /// The status with which the failure is answered.
    pub fn to_http_status(&self) -> (status: HttpStatus)
        ensures
            status == self@.kind.status(),
    {
        match self.kind {
            ErrorKind::NotFound => HttpStatus::NotFound,
            ErrorKind::InternalServerError => HttpStatus::InternalServerError,
        }
    }
}

} // verus!
