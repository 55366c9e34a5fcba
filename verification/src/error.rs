//! Library error values.

use vstd::prelude::*;

verus! {

/// The category of a library error.
#[derive(Debug, Clone, Copy, PartialEq, Eq, Structural)]
pub enum ErrorCode {
    InvalidArgument,
    NotSupported,
    ResourceExhausted,
    Internal,
}

/// An error with its category and a human-readable message.
#[derive(Debug, Clone)]
pub struct Error {
    pub code: ErrorCode,
    pub message: String,
}

/// Result type used throughout the library.
pub type Result<T> = core::result::Result<T, Error>;

impl Error {
    /// An invalid-argument error.
    pub fn invalid_argument(message: &str) -> (e: Error)
        ensures
            e.code == ErrorCode::InvalidArgument,
            e.message@ == message@,
    {
        Error { code: ErrorCode::InvalidArgument, message: message.to_owned() }
    }

    /// A not-supported error.
    pub fn not_supported(message: &str) -> (e: Error)
        ensures
            e.code == ErrorCode::NotSupported,
            e.message@ == message@,
    {
        Error { code: ErrorCode::NotSupported, message: message.to_owned() }
    }

    /// A resource-exhausted error.
    pub fn resource_exhausted(message: &str) -> (e: Error)
        ensures
            e.code == ErrorCode::ResourceExhausted,
            e.message@ == message@,
    {
        Error { code: ErrorCode::ResourceExhausted, message: message.to_owned() }
    }

    /// An internal-consistency error.
    pub fn internal(message: &str) -> (e: Error)
        ensures
            e.code == ErrorCode::Internal,
            e.message@ == message@,
    {
        Error { code: ErrorCode::Internal, message: message.to_owned() }
    }

    /// An error of the given category carrying an owned message.
    pub fn new(code: ErrorCode, message: String) -> (e: Error)
        ensures
            e.code == code,
            e.message == message,
    {
        Error { code, message }
    }

    /// The error category.
    pub fn code(&self) -> (c: ErrorCode)
        ensures
            c == self.code,
    {
        self.code
    }
}

} // verus!
