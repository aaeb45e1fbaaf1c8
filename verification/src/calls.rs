//! Plain request and response shapes exchanged with the request layer.
//!
//! The request layer serializes these at its edge; the core only carries
//! them as values.

use vstd::prelude::*;

verus! {

/// Setup progress answer.
pub struct StepGetRes {
    pub step: String,
}

/// First-run setup request: the initial user and the setup key.
pub struct SetupAuth {
    pub user: AuthReq,
    pub key: String,
}

/// Credentials presented on login.
#[derive(Clone)]
pub struct AuthReq {
    pub user_name: String,
    pub password: String,
}

/// Claims of an access token.
#[derive(Debug)]
pub struct AuthToken {
    pub uid: i32,
    pub exp: i64,
}

/// Claims of a refresh token.
#[derive(Debug)]
pub struct RefreshToken {
    pub uid: i32,
    pub created_at: i64,
}

/// A bare token, sent or received.
#[derive(Debug)]
pub struct Refresh {
    pub token: String,
}

/// Both tokens handed out on a successful login.
pub struct AuthRes {
    pub access_token: String,
    pub refresh_token: String,
}

/// Error shape sent to clients.
pub struct ErrMessage {
    pub code: Option<u8>,
    pub message: Option<String>,
}

} // verus!
