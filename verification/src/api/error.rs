//! The answer to a request that failed.
use vstd::prelude::*;

verus! {

/// What a client is told when a request fails.
pub struct ErrorResponse {
    pub message: String,
}

impl ErrorResponse {
    /// An error with the given message.
    pub fn new(message: &str) -> (error: ErrorResponse)
        ensures
            error.message@ == message@,
    {
        ErrorResponse { message: message.to_owned() }
    }
}

} // verus!
