//! What the routes share.

use vstd::prelude::*;
use vstd::string::*;

verus! {

/// A series whose health is watched.
#[derive(Debug, PartialEq, Eq)]
pub struct HealthTarget {
    pub symbol: String,
    pub interval: String,
}

pub const BAD_REQUEST: u16 = 400;

pub const NOT_FOUND: u16 = 404;

pub const CONFLICT: u16 = 409;

pub const INTERNAL_SERVER_ERROR: u16 = 500;

/// An answer that refuses a request.
#[derive(Debug, PartialEq, Eq)]
pub struct HttpError {
    pub status: u16,
    pub message: String,
}

impl HttpError {
    /// The refusal with a status and a text.
    pub open spec fn says(self, status: u16, text: Seq<char>) -> bool {
        self.status == status && self.message@ == text
    }
}

pub(crate) fn bad_request(message: String) -> (r: HttpError)
    ensures
        r.says(BAD_REQUEST, message@),
{
    HttpError { status: BAD_REQUEST, message }
}

/// What is answered when the store fails.
pub fn internal_error(message: String) -> (r: HttpError)
    ensures
        r.says(INTERNAL_SERVER_ERROR, message@),
{
    HttpError { status: INTERNAL_SERVER_ERROR, message }
}

/// What is answered for an alert that is not there.
pub fn alert_not_found() -> (r: HttpError)
    ensures
        r.says(NOT_FOUND, "alert not found"@),
{
    HttpError { status: NOT_FOUND, message: "alert not found".to_owned() }
}

} // verus!
