//! The outcome of an RPC as reported in its trailers.

use vstd::prelude::*;

verus! {

/// The gRPC status codes other than OK.
#[derive(Debug, Clone, Copy, PartialEq, Eq, Structural)]
pub enum StatusCodeError {
    Cancelled,
    Unknown,
    InvalidArgument,
    DeadlineExceeded,
    NotFound,
    AlreadyExists,
    PermissionDenied,
    ResourceExhausted,
    FailedPrecondition,
    Aborted,
    OutOfRange,
    Unimplemented,
    Internal,
    Unavailable,
    DataLoss,
    Unauthenticated,
}

/// A failed RPC outcome: a code and a human-readable message.
#[derive(Debug)]
pub struct StatusError {
    code: StatusCodeError,
    message: String,
}

impl Clone for StatusError {
    /// A copy with the same code and message.
    fn clone(&self) -> (r: Self)
        ensures
            r.code_of() == self.code_of(),
            r.message_of() == self.message_of(),
    {
        StatusError { code: self.code, message: self.message.clone() }
    }
}

impl StatusError {
    /// A status error with the given code and message.
    pub fn new(code: StatusCodeError, message: String) -> (r: Self)
        ensures
            r.code_of() == code,
            r.message_of() == message@,
    {
        StatusError { code, message }
    }

    pub closed spec fn code_of(&self) -> StatusCodeError {
        self.code
    }

    pub closed spec fn message_of(&self) -> Seq<char> {
        self.message@
    }

    /// The code of this status.
    pub fn code(&self) -> (r: StatusCodeError)
        ensures
            r == self.code_of(),
    {
        self.code
    }

    /// The message of this status.
    pub fn message(&self) -> (r: &str)
        ensures
            r@ == self.message_of(),
    {
        self.message.as_str()
    }
}

/// The outcome of an RPC: `Ok(())` or the error it ended with.
pub type Status = Result<(), StatusError>;

} // verus!
