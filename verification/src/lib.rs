//! Server-side coordination core for multi-player game sessions that settle
//! against an external staking contract.
//!
//! The crate is organised around plain data: times are milliseconds (`u64`),
//! entity ids are the 128-bit value of a v4 UUID (`u128`), user and account
//! ids are strings.  Every state transition of a session is an ordinary
//! function from the old state and an event to the new state and the actions
//! the caller has to carry out (messages to send, rows to write, contract
//! calls to make), so the whole lifecycle is checked by the verifier.

pub mod auth;
pub mod codec;
pub mod content;
pub mod entities;
pub mod kv;
pub mod lvl;
pub mod messages;
pub mod models;
pub mod resolver;
pub mod session;
pub mod state;
