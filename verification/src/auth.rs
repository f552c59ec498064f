//! The bearer-token validator's decision.
//!
//! The HTTP layer looks the presented token up in `user_sessions` and
//! checks the connection registry; this function decides, from those two
//! plain facts, whether the request is admitted.

use vstd::prelude::*;

verus! {

/// Why a connection attempt was turned away.
#[derive(Debug)]
pub enum AuthError {
    /// No live token row matched the credentials.
    UnknownToken,
    /// The user behind the token already has a live client session.
    AlreadyConnected,
}

/// Admit or reject a connection: `token_user` is the user id the presented
/// token maps to (if any), `already_connected` whether that user already
/// has a live client.  Admitted exactly when the token is known and the
/// user is not yet connected.
pub fn validator(token_user: Option<String>, already_connected: bool) -> (r: Result<
    String,
    AuthError,
>)
    ensures
        match r {
            Ok(u) => token_user matches Some(t) && u == t && !already_connected,
            Err(e) => match e {
                AuthError::UnknownToken => token_user is None,
                AuthError::AlreadyConnected => token_user is Some && already_connected,
            },
        },
{
    match token_user {
        None => Err(AuthError::UnknownToken),
        Some(u) => {
            if already_connected {
                Err(AuthError::AlreadyConnected)
            } else {
                Ok(u)
            }
        }
    }
}

} // verus!
