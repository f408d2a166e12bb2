//! Errors answered by the HTTP API.
use vstd::prelude::*;

verus! {

/// An API failure.
pub enum ApiError {
    /// Server-side failure; the detail is logged but never exposed in the
    /// response (no filesystem paths or implementation details leak).
    Internal(String),
    NotFound(String),
    BadRequest(String),
}

/// The machine-readable code of an error.
pub open spec fn error_code(e: ApiError) -> Seq<char> {
    match e {
        ApiError::Internal(_) => "INTERNAL_ERROR"@,
        ApiError::NotFound(_) => "NOT_FOUND"@,
        ApiError::BadRequest(_) => "BAD_REQUEST"@,
    }
}

/// What a client is told: the reason of a `NotFound` or `BadRequest`, and a
/// generic line for an `Internal` error.
pub open spec fn client_message(e: ApiError) -> Seq<char> {
    match e {
        ApiError::Internal(_) => "internal server error"@,
        ApiError::NotFound(m) => m@,
        ApiError::BadRequest(m) => m@,
    }
}

impl ApiError {
    pub fn code(&self) -> (c: &'static str)
        ensures
            c@ == error_code(*self),
    {
        match self {
            ApiError::Internal(_) => "INTERNAL_ERROR",
            ApiError::NotFound(_) => "NOT_FOUND",
            ApiError::BadRequest(_) => "BAD_REQUEST",
        }
    }

    /// The HTTP status of an error.
    pub fn status(&self) -> (s: u16)
        ensures
            s == (match *self {
                ApiError::Internal(_) => 500u16,
                ApiError::NotFound(_) => 404u16,
                ApiError::BadRequest(_) => 400u16,
            }),
    {
        match self {
            ApiError::Internal(_) => 500,
            ApiError::NotFound(_) => 404,
            ApiError::BadRequest(_) => 400,
        }
    }

    /// Client-facing message: `NotFound`/`BadRequest` carry their (already
    /// sanitized) reason; `Internal` answers a generic line.
    pub fn public_message(&self) -> (m: String)
        ensures
            m@ == client_message(*self),
    {
        match self {
            ApiError::Internal(_) => "internal server error".to_owned(),
            ApiError::NotFound(m) => m.clone(),
            ApiError::BadRequest(m) => m.clone(),
        }
    }
}

} // verus!
