//! Client-submitted updates under manager authority.

use delt_core::content::{Content, Logs};
use delt_core::entities::{Entities, Entity, EntityId, Position, Spawn};
use delt_core::messages::Update;
use delt_core::models::Session;
use delt_core::session::SessionActor;
use delt_core::state::{GameConfig, PlayerInfo, PlayerStats, SessionState};

fn entity(manager: &str, x: i64) -> Entity {
    Entity {
        display: Content::new(),
        attributes: Content::new(),
        manager: manager.to_string(),
        position: Position { x, y: 0 },
        entity_type: "pawn".to_string(),
        extentions: Content::new(),
    }
}

fn actor_with_world() -> SessionActor {
    let session = Session {
        id: 9,
        game_id: "game-1".to_string(),
        pool_id: None,
        creator: "alice".to_string(),
        password: None,
        private: false,
        created_at: 1_000,
        started_at: None,
        ended_at: None,
        last_update: None,
        logs: Logs::new(),
        state: SessionState::default(),
    };
    let mut actor = SessionActor::new(session, "alice".to_string(), &GameConfig::default(), 1_000);
    actor.handle_join("alice".to_string(), &PlayerInfo::default(), None, 1_000);
    actor.handle_join("bob".to_string(), &PlayerInfo::default(), None, 1_100);
    actor.state.entities.insert(&EntityId(1), entity("alice", 0));
    actor.state.entities.insert(&EntityId(2), entity("bob", 0));
    actor
}

#[test]
fn active_updates_touch_only_what_the_updater_manages() {
    let mut actor = actor_with_world();
    let mut active = Entities::new();
    active.update(EntityId(1), entity("alice", 5));
    active.update(EntityId(2), entity("alice", 9)); // not hers: dropped
    actor.handle_update(
        &"alice".to_string(),
        Update::Entities { active, kill_list: Vec::new(), spawns: Entities::new() },
        2_000,
    );
    assert_eq!(actor.state.entities.get(&EntityId(1)).unwrap().position.x, 5);
    assert_eq!(actor.state.entities.get(&EntityId(2)).unwrap().position.x, 0);
    assert_eq!(actor.state.entities.get(&EntityId(2)).unwrap().manager, "bob");
}

#[test]
fn kills_move_managed_entities_to_the_destroyed_registry() {
    let mut actor = actor_with_world();
    actor.handle_update(
        &"bob".to_string(),
        Update::Entities {
            active: Entities::new(),
            kill_list: vec![EntityId(1), EntityId(2)],
            spawns: Entities::new(),
        },
        2_000,
    );
    // only bob's own entity dies
    assert!(actor.state.entities.get(&EntityId(1)).is_some());
    assert!(actor.state.entities.get(&EntityId(2)).is_none());
    assert!(actor.state.destroyed_entities.get(&EntityId(2)).is_some());
}

#[test]
fn a_spawn_on_a_destroyed_id_is_rewritten_and_recorded() {
    let mut actor = actor_with_world();
    actor.handle_update(
        &"bob".to_string(),
        Update::Entities {
            active: Entities::new(),
            kill_list: vec![EntityId(2)],
            spawns: Entities::new(),
        },
        2_000,
    );
    // bob respawns under the id his dead entity had
    let mut spawns = Entities::new();
    spawns.update(EntityId(2), entity("bob", 3));
    actor.handle_update(
        &"bob".to_string(),
        Update::Entities { active: Entities::new(), kill_list: Vec::new(), spawns },
        2_100,
    );
    let assigned = *actor.state.pending_spawns.get(2).expect("the rewrite is recorded");
    assert_ne!(assigned, EntityId(2));
    assert_eq!(actor.state.entities.get(&assigned).unwrap().manager, "bob");
    // the destroyed id never reenters the live registry
    assert!(actor.state.entities.get(&EntityId(2)).is_none());
}

#[test]
fn an_acknowledged_spawn_clears_its_pending_record() {
    let mut actor = actor_with_world();
    actor.handle_update(
        &"bob".to_string(),
        Update::Entities {
            active: Entities::new(),
            kill_list: vec![EntityId(2)],
            spawns: Entities::new(),
        },
        2_000,
    );
    let mut spawns = Entities::new();
    spawns.update(EntityId(2), entity("bob", 3));
    actor.handle_update(
        &"bob".to_string(),
        Update::Entities { active: Entities::new(), kill_list: Vec::new(), spawns },
        2_100,
    );
    let assigned = *actor.state.pending_spawns.get(2).unwrap();
    // bob adopts the assigned id in his next update
    let mut active = Entities::new();
    active.update(assigned, entity("bob", 4));
    actor.handle_update(
        &"bob".to_string(),
        Update::Entities { active, kill_list: Vec::new(), spawns: Entities::new() },
        2_200,
    );
    assert!(actor.state.pending_spawns.get(2).is_none());
    assert_eq!(actor.state.entities.get(&assigned).unwrap().position.x, 4);
}

#[test]
fn interactions_are_forwarded_per_manager_and_never_applied() {
    let mut actor = actor_with_world();
    let fx = actor.handle_update(
        &"alice".to_string(),
        Update::Affect {
            affector: EntityId(1),
            affectors: vec![EntityId(1)],
            affected: vec![EntityId(1), EntityId(2)],
        },
        2_000,
    );
    assert_eq!(fx.affect.len(), 1);
    assert_eq!(fx.affect[0].0, "bob");
    assert_eq!(fx.affect[0].1, vec![EntityId(2)]);
    // an interaction through an entity the updater does not manage is dropped
    let fx = actor.handle_update(
        &"alice".to_string(),
        Update::Affect {
            affector: EntityId(2),
            affectors: vec![EntityId(2)],
            affected: vec![EntityId(1)],
        },
        2_100,
    );
    assert!(fx.affect.is_empty());
}

#[test]
fn only_the_host_changes_the_spawn_configuration() {
    let mut actor = actor_with_world();
    let zone = (Position { x: 1, y: 1 }, Position { x: 9, y: 9 });
    actor.handle_update(
        &"bob".to_string(),
        Update::ChangeSpawn(Spawn { scene: "Cavern".to_string(), zone }),
        2_000,
    );
    assert_eq!(actor.state.spawn.scene, "BaseScene");
    actor.handle_update(
        &"alice".to_string(),
        Update::ChangeSpawn(Spawn { scene: "Cavern".to_string(), zone }),
        2_100,
    );
    assert_eq!(actor.state.spawn.scene, "Cavern");
}

#[test]
fn stats_updates_land_on_the_updater() {
    let mut actor = actor_with_world();
    actor.handle_update(
        &"bob".to_string(),
        Update::Stats(PlayerStats { kills: 4, xp_accrual: 77, death: None }),
        2_000,
    );
    let st = actor.state.stats.get(&"bob".to_string()).unwrap();
    assert_eq!(st.kills, 4);
    assert_eq!(st.xp_accrual, 77);
    assert!(actor.state.stats.get(&"alice".to_string()).is_none());
}

#[test]
fn updates_stamp_the_updater_activity() {
    let mut actor = actor_with_world();
    actor.handle_update(
        &"bob".to_string(),
        Update::Stats(PlayerStats { kills: 0, xp_accrual: 0, death: None }),
        5_500,
    );
    assert_eq!(actor.clients.get(&"bob".to_string()).unwrap().last_update, 5_500);
    assert_eq!(actor.clients.get(&"alice".to_string()).unwrap().last_update, 1_000);
}
