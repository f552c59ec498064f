//! The global resolver: winner selection, settlement, recovery.

use delt_core::auth::{validator, AuthError};
use delt_core::content::Logs;
use delt_core::models::{PlayerSession, PoolRef, Session};
use delt_core::resolver::{
    decide_resolution, is_valid_account_id, needs_redrive, player_resolution_due,
    record_player_settlement, record_settlement, rehydrate, winner, GlobalActor, PoolView,
    Resolution,
};
use delt_core::session::SessionActor;
use delt_core::state::{GameConfig, PlayerStats, SessionState};

fn results(pairs: &[(&str, u64)]) -> Vec<(String, u64)> {
    pairs.iter().map(|(a, t)| (a.to_string(), *t)).collect()
}

fn stakes(entries: &[(&str, &[&str])]) -> Vec<(String, Vec<String>)> {
    entries
        .iter()
        .map(|(r, accts)| (r.to_string(), accts.iter().map(|a| a.to_string()).collect()))
        .collect()
}

#[test]
fn winner_is_the_first_ranked_result_key() {
    let r = results(&[("alice.near", 9_000), ("bob.near", 5_000)]);
    let s = stakes(&[("alice.near", &[]), ("bob.near", &[])]);
    assert_eq!(winner(&r, &s).as_deref(), Some("alice.near"));
}

#[test]
fn winner_may_be_found_among_the_stakers() {
    let r = results(&[("carol.near", 9_000)]);
    let s = stakes(&[("alice.near", &["carol.near"])]);
    assert_eq!(winner(&r, &s).as_deref(), Some("alice.near"));
}

#[test]
fn no_recognised_account_means_no_winner() {
    let r = results(&[("mallory.near", 9_000)]);
    let s = stakes(&[("alice.near", &["carol.near"])]);
    assert!(winner(&r, &s).is_none());
}

#[test]
fn resolution_cases() {
    let r = results(&[("alice.near", 9_000)]);
    assert!(matches!(decide_resolution(None, &r), Resolution::PoolRemoved));
    let closed = PoolView { has_result: true, required_stakes: stakes(&[("alice.near", &[])]) };
    assert!(matches!(decide_resolution(Some(&closed), &r), Resolution::AlreadyResolved));
    let open = PoolView { has_result: false, required_stakes: stakes(&[("alice.near", &[])]) };
    match decide_resolution(Some(&open), &r) {
        Resolution::Settle(Some(w)) => assert_eq!(w, "alice.near"),
        _ => panic!("an open pool settles"),
    }
}

#[test]
fn settlement_is_recorded_only_on_success() {
    let mut pool = PoolRef {
        id: "pool-9".to_string(),
        result: None,
        registered_at: 500,
        resolved_at: None,
    };
    record_settlement(&mut pool, false, 10_000);
    assert!(pool.resolved_at.is_none());
    record_settlement(&mut pool, true, 10_000);
    assert_eq!(pool.resolved_at, Some(10_000));
}

#[test]
fn account_id_validity_follows_the_chain_grammar() {
    assert!(is_valid_account_id(&"alice.near".to_string()));
    assert!(!is_valid_account_id(&"NOT VALID".to_string()));
}

fn session_row(id: u128, ended: Option<u64>) -> Session {
    Session {
        id,
        game_id: "game-1".to_string(),
        pool_id: Some("pool-9".to_string()),
        creator: "alice".to_string(),
        password: None,
        private: false,
        created_at: 1_000,
        started_at: Some(2_000),
        ended_at: ended,
        last_update: None,
        logs: Logs::new(),
        state: SessionState::default(),
    }
}

fn pool(resolved: Option<u64>) -> PoolRef {
    PoolRef { id: "pool-9".to_string(), result: None, registered_at: 500, resolved_at: resolved }
}

fn player_row(resolved: Option<u64>) -> PlayerSession {
    PlayerSession {
        session_id: 1,
        user_id: "alice".to_string(),
        account_id: Some("alice.near".to_string()),
        created_at: 1_000,
        ended_at: Some(9_000),
        resolved_at: resolved,
        info: None,
    }
}

#[test]
fn needs_redrive_matches_the_startup_filter() {
    assert!(needs_redrive(&Some(9_000), &None, &Some(1)));
    assert!(needs_redrive(&Some(9_000), &Some(1), &None));
    assert!(!needs_redrive(&Some(9_000), &Some(1), &Some(1)));
    assert!(!needs_redrive(&None, &None, &None));
}

#[test]
fn startup_redrives_an_ended_session_with_an_open_pool() {
    let rows = vec![
        (session_row(1, Some(9_000)), pool(None), player_row(None)),
        (session_row(1, Some(9_000)), pool(None), player_row(Some(10_000))),
        (session_row(2, Some(9_000)), pool(Some(10_000)), player_row(Some(10_000))),
        (session_row(3, None), pool(None), player_row(None)),
    ];
    let due = rehydrate(&rows);
    // session 1 once (despite two rows), session 2 settled, session 3 not over
    assert_eq!(due, vec![1]);
}

#[test]
fn validator_admits_known_unconnected_users() {
    assert_eq!(validator(Some("alice".to_string()), false).unwrap(), "alice");
    assert!(matches!(
        validator(Some("alice".to_string()), true),
        Err(AuthError::AlreadyConnected)
    ));
    assert!(matches!(validator(None, false), Err(AuthError::UnknownToken)));
}

#[test]
fn crash_recovery_redrives_and_settles() {
    // a persisted, ended session whose pool was never resolved
    let rows = vec![(session_row(1, Some(9_000)), pool(None), player_row(None))];
    let due = rehydrate(&rows);
    assert_eq!(due, vec![1]);
    // re-materialize it (it resumes as paused) and re-drive the end sequence
    let mut srow = session_row(1, Some(9_000));
    srow.state.stats.insert(
        "alice".to_string(),
        PlayerStats { kills: 0, xp_accrual: 100, death: None },
    );
    let mut actor = SessionActor::new(srow, "alice".to_string(), &GameConfig::default(), 20_000);
    let fx = actor.handle_session_end(21_000, &vec![player_row(None)], Some(&pool(None)));
    let sr = fx.session_resolve.expect("the open pool is settled again");
    assert_eq!(sr.pool_id, "pool-9");
    // the contract acknowledges; the pool is marked and the coordinator stops
    let mut p = pool(None);
    match decide_resolution(
        Some(&PoolView { has_result: false, required_stakes: stakes(&[("alice.near", &[])]) }),
        &sr.results,
    ) {
        Resolution::Settle(Some(w)) => assert_eq!(w, "alice.near"),
        _ => panic!("settles for the survivor"),
    }
    record_settlement(&mut p, true, 22_000);
    let fx2 = actor.handle_session_end(
        52_000,
        &vec![player_row(Some(22_000))],
        Some(&p),
    );
    assert!(fx2.stop);
}

#[test]
fn global_actor_only_samples_the_clock() {
    let mut g = GlobalActor::default();
    assert_eq!(g.tick, 0);
    g.tick(16);
    assert_eq!(g.tick, 16);
}

#[test]
fn player_settlement_is_gated_and_recorded() {
    let mut row = player_row(None);
    assert!(player_resolution_due(Some(&row)));
    assert!(!player_resolution_due(None));
    record_player_settlement(&mut row, false, 30_000);
    assert!(row.resolved_at.is_none());
    record_player_settlement(&mut row, true, 30_000);
    assert_eq!(row.resolved_at, Some(30_000));
    assert!(!player_resolution_due(Some(&row)));
}
