//! The entity registry and the spawn zone.

use delt_core::content::Content;
use delt_core::entities::{Entities, Entity, EntityId, Position, Spawn};

fn entity(manager: &str) -> Entity {
    Entity {
        display: Content::new(),
        attributes: Content::new(),
        manager: manager.to_string(),
        position: Position { x: 1, y: 2 },
        entity_type: "npc".to_string(),
        extentions: Content::new(),
    }
}

#[test]
fn insert_uses_a_vacant_proposed_id() {
    let mut es = Entities::new();
    let assigned = es.insert(&EntityId(5), entity("alice"));
    assert_eq!(assigned, EntityId(5));
    assert!(es.get(&EntityId(5)).is_some());
}

#[test]
fn insert_with_a_colliding_id_leaves_the_occupant_intact() {
    let mut es = Entities::new();
    es.insert(&EntityId(5), entity("alice"));
    let assigned = es.insert(&EntityId(5), entity("bob"));
    assert_ne!(assigned, EntityId(5));
    assert_eq!(es.get(&EntityId(5)).unwrap().manager, "alice");
    assert_eq!(es.get(&assigned).unwrap().manager, "bob");
}

#[test]
fn managed_lists_exactly_the_entities_of_a_manager() {
    let mut es = Entities::new();
    es.insert(&EntityId(1), entity("alice"));
    es.insert(&EntityId(2), entity("bob"));
    es.insert(&EntityId(3), entity("alice"));
    let alice = es.managed(&"alice".to_string());
    assert_eq!(alice.len(), 2);
    assert!(alice.contains(&EntityId(1)));
    assert!(alice.contains(&EntityId(3)));
    let carol = es.managed(&"carol".to_string());
    assert!(carol.is_empty());
}

#[test]
fn set_managed_reassigns_only_the_listed_ids() {
    let mut es = Entities::new();
    es.insert(&EntityId(1), entity("alice"));
    es.insert(&EntityId(2), entity("alice"));
    es.set_managed(&vec![EntityId(1)], &"bob".to_string());
    assert_eq!(es.get(&EntityId(1)).unwrap().manager, "bob");
    assert_eq!(es.get(&EntityId(2)).unwrap().manager, "alice");
}

#[test]
fn remove_hands_the_entity_back() {
    let mut es = Entities::new();
    es.insert(&EntityId(9), entity("alice"));
    let gone = es.remove(&EntityId(9)).unwrap();
    assert_eq!(gone.manager, "alice");
    assert!(es.get(&EntityId(9)).is_none());
    assert!(es.remove(&EntityId(9)).is_none());
}

#[test]
fn rand_spawn_stays_inside_the_zone() {
    let spawn = Spawn {
        scene: "BaseScene".to_string(),
        zone: (Position { x: -5, y: 0 }, Position { x: 5, y: 10 }),
    };
    for _ in 0..50 {
        let p = spawn.rand_spawn();
        assert!(p.x >= -5 && p.x < 5);
        assert!(p.y >= 0 && p.y < 10);
    }
}

#[test]
fn keys_cover_every_registered_id() {
    let mut es = Entities::new();
    es.insert(&EntityId(1), entity("a"));
    es.insert(&EntityId(2), entity("b"));
    let keys = es.keys();
    assert_eq!(keys.len(), 2);
    assert!(keys.contains(&EntityId(1)));
    assert!(keys.contains(&EntityId(2)));
}
