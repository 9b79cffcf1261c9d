use vstd::prelude::*;

verus! {

/// An error answered to the client: an HTTP status and a fixed message.
#[derive(Debug, PartialEq)]
pub struct APIError {
    pub code: u16,
    pub body: Option<&'static str>,
}

/// The status of a request body that is not a JSON object.
pub const BAD_REQUEST: u16 = 400;

/// The status of a failure inside the relay.
pub const INTERNAL_SERVER_ERROR: u16 = 500;

/// The status of an upstream that cannot be reached or answers garbage.
pub const BAD_GATEWAY: u16 = 502;

/// An error with a status and its fixed message.
pub open spec fn refusal(code: u16, message: &'static str) -> APIError {
    APIError { code, body: Some(message) }
}

/// Makes the error with a status and its fixed message.
pub fn refuse(code: u16, message: &'static str) -> (e: APIError)
    ensures
        e == refusal(code, message),
{
    APIError { code, body: Some(message) }
}

impl APIError {
    /// The body's message, or a generic one.
    pub fn message(&self) -> (r: &'static str)
        ensures
            self.body matches Some(m) ==> r == m,
            self.body is None ==> r == "Unknown error",
    {
        match self.body {
            Some(m) => m,
            None => "Unknown error",
        }
    }
}

} // verus!
