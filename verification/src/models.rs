//! The persisted rows, as plain values: times in milliseconds, session ids
//! as the 128-bit value of their UUID.

use vstd::prelude::*;
use crate::content::{Content, Logs};
use crate::state::{GameConfig, PlayerInfo, SessionState};

verus! {

/// A registered game and its configuration.
pub struct Game {
    pub id: String,
    pub creator: String,
    pub config: GameConfig,
    pub created_at: u64,
    pub ended_at: Option<u64>,
    pub expiry: Option<u64>,
}

/// The fields a new game row is created from.
pub struct NewGame {
    pub id: String,
    pub creator: String,
    pub config: GameConfig,
    pub expiry: Option<u64>,
}

/// The local anchor of an on-chain stake pool.
pub struct PoolRef {
    pub id: String,
    pub result: Option<Content>,
    pub registered_at: u64,
    pub resolved_at: Option<u64>,
}

impl PoolRef {
    /// Record that the contract acknowledged the pool's settlement.
    pub fn resolve(&mut self, now: u64)
        ensures
            final(self).resolved_at == Some(now),
            final(self).id == old(self).id,
            final(self).result == old(self).result,
            final(self).registered_at == old(self).registered_at,
    {
        self.resolved_at = Some(now);
    }
}

/// The fields a new pool row is created from.
pub struct NewPoolRef {
    pub id: String,
}

/// A role grant.
pub struct Role {
    pub user_id: String,
    pub role: String,
    pub grant_date: u64,
}

/// The fields a new role row is created from.
pub struct NewRole {
    pub user_id: String,
    pub role: String,
}

/// A user account of the server itself.
pub struct User {
    pub id: String,
    pub password: String,
    pub email: String,
    pub created_at: u64,
    pub last_login: Option<u64>,
}

/// The fields a new user row is created from.
pub struct NewUser {
    pub id: String,
    pub password: String,
    pub email: String,
}

/// A whitelist entry gating a private session.
pub struct Whitelist {
    pub session_id: u128,
    pub user_id: String,
}

/// An external (on-chain) account attached to a user.
pub struct Account {
    pub account_id: String,
    pub user_id: String,
    pub last_active: Option<u64>,
    pub rewards: Logs,
}

/// A session row.
pub struct Session {
    pub id: u128,
    pub game_id: String,
    pub pool_id: Option<String>,
    pub creator: String,
    pub password: Option<String>,
    pub private: bool,
    pub created_at: u64,
    pub started_at: Option<u64>,
    pub ended_at: Option<u64>,
    pub last_update: Option<u64>,
    pub logs: Logs,
    pub state: SessionState,
}

/// The fields a new session row is created from.
pub struct NewSession {
    pub game_id: String,
    pub pool_id: Option<String>,
    pub creator: String,
    pub password: Option<String>,
    pub private: bool,
    pub state: SessionState,
}

/// A bearer-token row.
pub struct UserSession {
    pub auth_token: String,
    pub user_id: String,
    pub started_at: u64,
    pub ended_at: Option<u64>,
}

/// The per-player row of a session.
pub struct PlayerSession {
    pub session_id: u128,
    pub user_id: String,
    pub account_id: Option<String>,
    pub created_at: u64,
    pub ended_at: Option<u64>,
    pub resolved_at: Option<u64>,
    pub info: Option<PlayerInfo>,
}

/// The fields a new player-session row is created from.
pub struct NewPlayerSession {
    pub session_id: u128,
    pub user_id: String,
    pub info: PlayerInfo,
}

} // verus!
