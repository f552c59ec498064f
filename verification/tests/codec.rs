//! The persistence codec: a state survives encode and decode.

use delt_core::codec::{decode_state, encode_state};
use delt_core::content::Content;
use delt_core::entities::{Entity, EntityId, Position};
use delt_core::state::{PlayerStats, SessionState};

fn sample_state() -> SessionState {
    let mut s = SessionState::default();
    let mut display = Content::new();
    display.insert("name".to_string(), "Grendel".to_string());
    s.entities.insert(
        &EntityId(42),
        Entity {
            display,
            attributes: Content::new(),
            manager: "alice".to_string(),
            position: Position { x: -3, y: 7 },
            entity_type: "monster".to_string(),
            extentions: Content::new(),
        },
    );
    s.stats.insert(
        "alice".to_string(),
        PlayerStats { kills: 3, xp_accrual: 1234, death: None },
    );
    s.pending_spawns.insert(7, EntityId(42));
    s.elapsed = 90_000;
    s.data.insert("mode".to_string(), "duel".to_string());
    s
}

#[test]
fn state_round_trips_through_bytes() {
    let s = sample_state();
    let bytes = encode_state(&s);
    let t = decode_state(&bytes).expect("an encoded state decodes");
    assert_eq!(t.spawn.scene, s.spawn.scene);
    assert_eq!(t.elapsed, 90_000);
    let e = t.entities.get(&EntityId(42)).expect("the entity survives");
    assert_eq!(e.manager, "alice");
    assert_eq!(e.position, Position { x: -3, y: 7 });
    assert_eq!(e.entity_type, "monster");
    assert_eq!(e.display.get(&"name".to_string()).unwrap(), "Grendel");
    assert_eq!(
        *t.stats.get(&"alice".to_string()).unwrap(),
        PlayerStats { kills: 3, xp_accrual: 1234, death: None }
    );
    assert_eq!(*t.pending_spawns.get(7).unwrap(), EntityId(42));
    assert_eq!(t.data.get(&"mode".to_string()).unwrap(), "duel");
}

#[test]
fn default_state_round_trips() {
    let s = SessionState::default();
    let bytes = encode_state(&s);
    let t = decode_state(&bytes).expect("decodes");
    assert_eq!(t.spawn.scene, "BaseScene");
    assert_eq!(t.elapsed, 0);
    assert!(t.entities.keys().is_empty());
}

#[test]
fn truncated_bytes_are_rejected() {
    let s = sample_state();
    let mut bytes = encode_state(&s);
    bytes.pop();
    assert!(decode_state(&bytes).is_none());
    let empty: Vec<u8> = Vec::new();
    assert!(decode_state(&empty).is_none());
}

#[test]
fn trailing_garbage_is_rejected() {
    let s = SessionState::default();
    let mut bytes = encode_state(&s);
    for _ in 0..8 {
        bytes.push(0);
    }
    assert!(decode_state(&bytes).is_none());
}

#[test]
fn content_serializes_on_its_own() {
    let mut c = Content::new();
    c.insert("k".to_string(), "v".to_string());
    let bytes = c.into_bytes();
    // count token + two strings of one character each
    assert_eq!(bytes.len(), 8 * (1 + 2 + 2));
}

#[test]
fn malformed_bytes_fall_back_to_a_fresh_state() {
    let junk: Vec<u8> = vec![9, 9, 9];
    let st = delt_core::codec::decode_state_or_default(&junk);
    assert_eq!(st.spawn.scene, "BaseScene");
    assert_eq!(st.elapsed, 0);
    assert!(st.entities.keys().is_empty());
    // a well-formed payload is not defaulted
    let s = sample_state();
    let bytes = encode_state(&s);
    let t = delt_core::codec::decode_state_or_default(&bytes);
    assert_eq!(t.elapsed, 90_000);
}

#[test]
fn content_round_trips_through_its_own_framing() {
    let mut c = Content::new();
    c.insert("k".to_string(), "v".to_string());
    c.insert("mode".to_string(), "duel".to_string());
    let bytes = c.into_bytes();
    let back = delt_core::codec::decode_content(&bytes).expect("decodes");
    assert_eq!(back.get(&"k".to_string()).unwrap(), "v");
    assert_eq!(back.get(&"mode".to_string()).unwrap(), "duel");
    let mut cut = bytes.clone();
    cut.pop();
    assert!(delt_core::codec::decode_content(&cut).is_none());
}
