//! Error taxonomy of the core.
//!
//! Bus-facing operations distinguish a missing unit (`NotPresent`) from a
//! transport fault on a unit that answered its identity probe, and both from
//! a protocol violation rejected before any bus write. Persistence-facing
//! operations use `ApiError`, whose variants map one-to-one onto HTTP status
//! codes for the request layer.

use vstd::prelude::*;

verus! {

/// Error of a bus-facing operation.
#[derive(Clone, Copy, Debug, PartialEq, Eq, Structural)]
pub enum LightError {
    /// No controller answered the identity probe at the address.
    NotPresent,
    /// Bus I/O failed on a unit that was expected to answer.
    Transport,
    /// The input was rejected before any bus write was attempted.
    InvalidInput,
}

/// Error surfaced to the request layer.
#[derive(Clone, Copy, Debug, PartialEq, Eq, Structural)]
pub enum ApiError {
    BadRequest,
    Unauthorized,
    Forbidden,
    NotFound,
    Conflict,
    TooManyRequests,
    InternalErr,
    NotImplemented,
    Unavailable,
}

impl ApiError {
    /// The HTTP status code each variant stands for.
    pub fn status_code(&self) -> (code: u16)
        ensures
            code == match *self {
                ApiError::BadRequest => 400u16,
                ApiError::Unauthorized => 401u16,
                ApiError::Forbidden => 403u16,
                ApiError::NotFound => 404u16,
                ApiError::Conflict => 409u16,
                ApiError::TooManyRequests => 429u16,
                ApiError::InternalErr => 500u16,
                ApiError::NotImplemented => 501u16,
                ApiError::Unavailable => 503u16,
            },
    {
        match self {
            ApiError::BadRequest => 400,
            ApiError::Unauthorized => 401,
            ApiError::Forbidden => 403,
            ApiError::NotFound => 404,
            ApiError::Conflict => 409,
            ApiError::TooManyRequests => 429,
            ApiError::InternalErr => 500,
            ApiError::NotImplemented => 501,
            ApiError::Unavailable => 503,
        }
    }
}

} // verus!
