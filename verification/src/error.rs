//! The error type shared by all tools.

use vstd::prelude::*;

verus! {

#[verifier::external_type_specification]
#[verifier::external_body]
pub struct ExIoError(std::io::Error);

/// What can go wrong while serving a tool call.
#[derive(Debug)]
pub enum LiteCodeError {
    /// The request itself is wrong; the text says why.
    InvalidInput(String),
    /// Something failed on the server's side; the text says what.
    Internal(String),
    /// An operating-system I/O failure.
    Io(std::io::Error),
}

/// Whether `e` reports invalid input with exactly the text `msg`.
pub open spec fn is_invalid_input(e: LiteCodeError, msg: Seq<char>) -> bool {
    e matches LiteCodeError::InvalidInput(m) && m@ == msg
}

/// Whether `e` reports an internal failure with exactly the text `msg`.
pub open spec fn is_internal(e: LiteCodeError, msg: Seq<char>) -> bool {
    e matches LiteCodeError::Internal(m) && m@ == msg
}

/// The text of an I/O error.
///
/// Trusted: calls `ToString::to_string` on the `std::io::Error`; nothing is
/// claimed of the text, which comes from the operating system.
#[verifier::external_body]
fn io_error_text(error: &std::io::Error) -> String {
    error.to_string()
}

impl LiteCodeError {
    /// An invalid-input error with the given text.
    pub fn invalid_input(message: String) -> (res: Self)
        ensures
            res == LiteCodeError::InvalidInput(message),
    {
        LiteCodeError::InvalidInput(message)
    }

    /// An internal error with the given text.
    pub fn internal(message: String) -> (res: Self)
        ensures
            res == LiteCodeError::Internal(message),
    {
        LiteCodeError::Internal(message)
    }

    /// The text shown to the client: the message itself for invalid input
    /// and internal errors, the system's description for I/O errors.
    pub fn message(&self) -> (res: String)
        ensures
            self matches LiteCodeError::InvalidInput(m) ==> res@ == m@,
            self matches LiteCodeError::Internal(m) ==> res@ == m@,
    {
        match self {
            LiteCodeError::InvalidInput(m) => m.clone(),
            LiteCodeError::Internal(m) => m.clone(),
            LiteCodeError::Io(e) => io_error_text(e),
        }
    }
}

} // verus!
