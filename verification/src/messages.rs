//! The messages exchanged between clients, the session coordinator, and the
//! global resolver.

use vstd::prelude::*;
use crate::content::Content;
use crate::entities::{Entities, EntityId, Spawn};
use crate::state::{ClientStatus, PlayerStats};

verus! {

/// A state update submitted by a client, applied under manager authority.
pub enum Update {
    /// An interaction between entities; forwarded to the managers of the
    /// affected entities, never applied to the authoritative state.
    Affect { affector: EntityId, affectors: Vec<EntityId>, affected: Vec<EntityId> },
    /// The authoritative changes: full values for managed entities, managed
    /// entities to destroy, and newly proposed entities.
    Entities { active: Entities, kill_list: Vec<EntityId>, spawns: Entities },
    /// Host only: replace the spawn configuration.
    ChangeSpawn(Spawn),
    /// Replace the updater's statistics.
    Stats(PlayerStats),
    /// Report the updater's client status.
    Status(ClientStatus),
    /// Stop the clock: host may pause indefinitely (`None`), anyone may
    /// pause for a bounded number of milliseconds (`Some`).
    Pause(Option<u64>),
    /// Restart the clock; honoured for the host and for the pauser.
    Resume,
    /// Host only: end the session at once.
    End,
}

/// Every registry carried inside an update has distinct keys and
/// well-formed payloads.
pub open spec fn update_wf(u: Update) -> bool {
    match u {
        Update::Entities { active, kill_list, spawns } => active.wf() && spawns.wf(),
        _ => true,
    }
}

/// A settlement request for one player, sent to the global resolver when a
/// session ends.  `xp` carries the experience to grant; a player whose
/// character died is settled by a character kill instead (`None`).
pub struct PlayerSessionResolve {
    pub session_id: u128,
    pub account_id: String,
    pub xp: Option<u128>,
}

/// A settlement request for the session's stake pool: the ranked results
/// (latest end first) and the pool to settle against.
pub struct SessionResolve {
    pub session_id: u128,
    pub results: Vec<(String, u64)>,
    pub pool_id: String,
}

/// The errors the contract gateway surfaces.
pub enum ServerError {
    Transaction(String),
    Query(String),
}

} // verus!
