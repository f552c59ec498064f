//! The session coordinator's lifecycle.

use delt_core::content::Logs;
use delt_core::messages::Update;
use delt_core::models::{PlayerSession, PoolRef, Session};
use delt_core::session::{ClientInfo, SessionActor, SessionStatus};
use delt_core::state::{ClientStatus, GameConfig, PlayerInfo, PlayerStats, SessionState};

fn session_row() -> Session {
    Session {
        id: 77,
        game_id: "game-1".to_string(),
        pool_id: None,
        creator: "alice".to_string(),
        password: None,
        private: false,
        created_at: 1_000,
        started_at: None,
        ended_at: None,
        last_update: None,
        logs: Logs::new(),
        state: SessionState::default(),
    }
}

fn config(duration_ms: u64) -> GameConfig {
    let mut c = GameConfig::default();
    c.duration_ms = duration_ms;
    c
}

fn join(actor: &mut SessionActor, user: &str, now: u64) {
    actor.handle_join(user.to_string(), &PlayerInfo::default(), None, now);
}

fn ready(actor: &mut SessionActor, user: &str, now: u64) {
    actor.handle_update(
        &user.to_string(),
        Update::Status(ClientStatus::Ready),
        now,
    );
}

fn client_status(actor: &SessionActor, user: &str) -> ClientStatus {
    actor.clients.get(&user.to_string()).unwrap().status
}

#[test]
fn lobby_to_start() {
    let mut actor = SessionActor::new(session_row(), "alice".to_string(), &config(60_000), 1_000);
    join(&mut actor, "alice", 1_000);
    join(&mut actor, "bob", 1_100);
    ready(&mut actor, "alice", 1_200);
    ready(&mut actor, "bob", 1_300);
    let fx = actor.tick(2_000);
    assert!(fx.evict.is_empty() && !fx.dispatch_end);
    assert_eq!(actor.started_at, Some(17_000));
    assert!(matches!(actor.status, SessionStatus::Starting(Some(17_000))));
    assert!(matches!(client_status(&actor, "alice"), ClientStatus::InProgress(0)));
    assert!(matches!(client_status(&actor, "bob"), ClientStatus::InProgress(0)));
    // fifteen simulated seconds later the session is running
    actor.tick(17_001);
    assert!(matches!(actor.status, SessionStatus::InProgress(_)));
}

#[test]
fn loading_sixty_seconds_is_kept_sixty_one_is_evicted() {
    let mut actor = SessionActor::new(session_row(), "alice".to_string(), &config(60_000), 1_000);
    join(&mut actor, "alice", 1_000);
    // exactly 60 s of loading: kept
    let fx = actor.tick(61_000);
    assert!(fx.evict.is_empty());
    // one more millisecond and one more second: out
    let fx = actor.tick(62_000);
    assert_eq!(fx.evict, vec!["alice".to_string()]);
}

#[test]
fn host_pause_and_resume_preserve_elapsed() {
    let mut actor = SessionActor::new(session_row(), "alice".to_string(), &config(600_000), 1_000);
    join(&mut actor, "alice", 1_000);
    ready(&mut actor, "alice", 1_100);
    actor.tick(2_000);
    actor.tick(17_001); // InProgress, started_at == 17_000
    let before = actor.elapsed(19_000);
    assert_eq!(before, 2_000);
    actor.handle_update(&"alice".to_string(), Update::Pause(None), 19_000);
    assert!(matches!(actor.status, SessionStatus::Standby { .. }));
    // a non-host resume is ignored
    join(&mut actor, "bob", 19_100);
    actor.handle_update(&"bob".to_string(), Update::Resume, 19_500);
    assert!(matches!(actor.status, SessionStatus::Standby { .. }));
    // the host resumes three seconds later; no play time was lost
    actor.handle_update(&"alice".to_string(), Update::Resume, 22_000);
    assert!(matches!(actor.status, SessionStatus::InProgress(_)));
    assert_eq!(actor.elapsed(22_000), 2_000);
}

#[test]
fn bounded_pause_resumes_by_itself() {
    let mut actor = SessionActor::new(session_row(), "alice".to_string(), &config(600_000), 1_000);
    join(&mut actor, "alice", 1_000);
    join(&mut actor, "bob", 1_000);
    ready(&mut actor, "alice", 1_100);
    ready(&mut actor, "bob", 1_100);
    actor.tick(2_000);
    actor.tick(17_001);
    // any user may pause for a bounded while
    actor.handle_update(&"bob".to_string(), Update::Pause(Some(5_000)), 20_000);
    assert!(matches!(actor.status, SessionStatus::Standby { .. }));
    let fx = actor.tick(24_000);
    assert!(matches!(actor.status, SessionStatus::Standby { .. }) && !fx.dispatch_end);
    actor.tick(25_001);
    assert!(matches!(actor.status, SessionStatus::InProgress(_)));
    assert!(actor.paused_at.is_none());
}

#[test]
fn timer_expiry_reaches_post_session_and_dispatches_the_end() {
    let mut actor = SessionActor::new(session_row(), "alice".to_string(), &config(1_000), 1_000);
    join(&mut actor, "alice", 1_000);
    ready(&mut actor, "alice", 1_100);
    actor.tick(2_000); // schedules started_at = 17_000
    actor.tick(17_001); // InProgress
    let fx = actor.tick(18_001); // elapsed >= 1_000
    assert!(matches!(actor.status, SessionStatus::PostSession));
    assert!(!fx.dispatch_end);
    let fx = actor.tick(18_017);
    assert!(fx.dispatch_end);
}

#[test]
fn toggle_timer_twice_restores_the_clock() {
    let mut actor = SessionActor::new(session_row(), "alice".to_string(), &config(60_000), 1_000);
    let pause_before = actor.pause_time;
    assert!(actor.paused_at.is_none());
    actor.toggle_timer(5_000);
    actor.toggle_timer(5_000);
    assert_eq!(actor.pause_time, pause_before);
    assert!(actor.paused_at.is_none());
}

#[test]
fn leave_promotes_the_first_remaining_client() {
    let mut actor = SessionActor::new(session_row(), "alice".to_string(), &config(60_000), 1_000);
    join(&mut actor, "alice", 1_000);
    join(&mut actor, "bob", 1_100);
    // give the host an entity, then let the host leave
    let mut info = PlayerInfo::default();
    info.managed_entities = vec![delt_core::entities::EntityId(5)];
    actor.state.entities.insert(
        &delt_core::entities::EntityId(5),
        delt_core::entities::Entity {
            display: delt_core::content::Content::new(),
            attributes: delt_core::content::Content::new(),
            manager: "alice".to_string(),
            position: delt_core::entities::Position { x: 0, y: 0 },
            entity_type: "pawn".to_string(),
            extentions: delt_core::content::Content::new(),
        },
    );
    let fx = actor.handle_leave(&"alice".to_string(), 2_000);
    assert!(!fx.stop);
    assert_eq!(fx.managed_entities, vec![delt_core::entities::EntityId(5)]);
    assert_eq!(actor.host, "bob");
    assert_eq!(
        actor.state.entities.get(&delt_core::entities::EntityId(5)).unwrap().manager,
        "bob"
    );
    // the last client leaving stops the coordinator
    let fx = actor.handle_leave(&"bob".to_string(), 2_100);
    assert!(fx.stop);
}

#[test]
fn session_message_skips_the_excluded() {
    let mut actor = SessionActor::new(session_row(), "alice".to_string(), &config(60_000), 1_000);
    join(&mut actor, "alice", 1_000);
    join(&mut actor, "bob", 1_000);
    let r = actor.handle_session_message(
        2_000,
        "hello".to_string(),
        &vec!["alice".to_string()],
    );
    assert_eq!(r, vec!["bob".to_string()]);
    assert_eq!(actor.logger.0.len(), 3); // two join entries and this one
}

fn row(user: &str, account: Option<&str>, ended: Option<u64>, resolved: Option<u64>) -> PlayerSession {
    PlayerSession {
        session_id: 77,
        user_id: user.to_string(),
        account_id: account.map(|a| a.to_string()),
        created_at: 1_000,
        ended_at: ended,
        resolved_at: resolved,
        info: None,
    }
}

#[test]
fn session_end_ranks_results_and_settles_the_open_pool() {
    let mut srow = session_row();
    srow.pool_id = Some("pool-9".to_string());
    let mut actor = SessionActor::new(srow, "alice".to_string(), &config(60_000), 1_000);
    actor.state.stats.insert(
        "alice".to_string(),
        PlayerStats { kills: 1, xp_accrual: 500, death: None },
    );
    actor.state.stats.insert(
        "bob".to_string(),
        PlayerStats { kills: 0, xp_accrual: 200, death: None },
    );
    let rows = vec![
        row("bob", Some("bob.near"), Some(5_000), None),
        row("alice", Some("alice.near"), Some(9_000), None),
    ];
    let pool = PoolRef {
        id: "pool-9".to_string(),
        result: None,
        registered_at: 500,
        resolved_at: None,
    };
    let fx = actor.handle_session_end(30_000, &rows, Some(&pool));
    assert_eq!(fx.ended_at, 30_000);
    assert_eq!(actor.ended_at, Some(30_000));
    assert_eq!(actor.resolving, Some(30_000));
    // the later end comes first
    assert_eq!(
        fx.results,
        vec![("alice.near".to_string(), 9_000), ("bob.near".to_string(), 5_000)]
    );
    let sr = fx.session_resolve.expect("the open pool is settled");
    assert_eq!(sr.pool_id, "pool-9");
    assert_eq!(sr.session_id, 77);
    assert_eq!(sr.results, fx.results);
    assert_eq!(fx.player_resolves.len(), 2);
    assert!(!fx.stop);
    // an already-resolved pool never hears of the session again
    let resolved_pool = PoolRef { resolved_at: Some(31_000), ..pool };
    let rows_done = vec![
        row("bob", Some("bob.near"), Some(5_000), Some(31_000)),
        row("alice", Some("alice.near"), Some(9_000), Some(31_000)),
    ];
    let fx2 = actor.handle_session_end(40_000, &rows_done, Some(&resolved_pool));
    assert!(fx2.session_resolve.is_none());
    assert!(fx2.stop);
    // replaying never moves the end stamp
    assert_eq!(fx2.ended_at, 30_000);
    assert_eq!(actor.ended_at, Some(30_000));
}

#[test]
fn session_end_with_a_death_settles_by_character_kill() {
    let mut actor = SessionActor::new(session_row(), "alice".to_string(), &config(60_000), 1_000);
    actor.state.stats.insert(
        "alice".to_string(),
        PlayerStats { kills: 0, xp_accrual: 900, death: Some(8_000) },
    );
    let rows = vec![row("alice", Some("alice.near"), Some(9_000), None)];
    let fx = actor.handle_session_end(30_000, &rows, None);
    // a dead character earns no experience and no ranking entry
    assert!(fx.results.is_empty());
    assert_eq!(fx.player_resolves.len(), 1);
    assert_eq!(fx.player_resolves[0].account_id, "alice.near");
    assert!(fx.player_resolves[0].xp.is_none());
    assert!(!fx.stop);
}

#[test]
fn client_info_starts_loading() {
    let c = ClientInfo::new(4_000, Some("alice.near".to_string()));
    assert!(matches!(c.status, ClientStatus::Loading(4_000)));
    assert_eq!(c.started_at, 4_000);
    assert_eq!(c.account_id.as_deref(), Some("alice.near"));
}

#[test]
fn log_checkpoint_reports_each_client() {
    let mut actor = SessionActor::new(session_row(), "alice".to_string(), &config(60_000), 1_000);
    join(&mut actor, "alice", 1_000);
    let acts = actor.log();
    assert_eq!(acts.len(), 1);
    assert_eq!(acts[0].0, "alice");
    assert!(matches!(acts[0].1, delt_core::session::PlayerLogAction::Keep));
}

#[test]
fn host_end_jumps_to_post_session() {
    let mut actor = SessionActor::new(session_row(), "alice".to_string(), &config(600_000), 1_000);
    join(&mut actor, "alice", 1_000);
    join(&mut actor, "bob", 1_000);
    ready(&mut actor, "alice", 1_100);
    ready(&mut actor, "bob", 1_100);
    actor.tick(2_000);
    actor.tick(17_001);
    // a non-host end is ignored
    actor.handle_update(&"bob".to_string(), Update::End, 18_000);
    assert!(matches!(actor.status, SessionStatus::InProgress(_)));
    actor.handle_update(&"alice".to_string(), Update::End, 18_100);
    assert!(matches!(actor.status, SessionStatus::PostSession));
}

#[test]
fn pause_outside_the_game_is_ignored() {
    let mut actor = SessionActor::new(session_row(), "alice".to_string(), &config(600_000), 1_000);
    join(&mut actor, "alice", 1_000);
    actor.handle_update(&"alice".to_string(), Update::Pause(None), 1_500);
    assert!(matches!(actor.status, SessionStatus::Starting(None)));
    assert!(actor.paused_at.is_none());
}

#[test]
fn send_tick_snapshots_every_player() {
    let mut actor = SessionActor::new(session_row(), "alice".to_string(), &config(600_000), 1_000);
    join(&mut actor, "alice", 1_000);
    join(&mut actor, "bob", 1_100);
    actor.handle_update(
        &"bob".to_string(),
        Update::Stats(PlayerStats { kills: 2, xp_accrual: 40, death: None }),
        1_200,
    );
    let players = actor.send_tick(1_300);
    assert_eq!(actor.tick, 1_300);
    let bob = players.get(&"bob".to_string()).unwrap();
    assert_eq!(bob.stats.kills, 2);
    assert!(matches!(bob.status, ClientStatus::Loading(1_100)));
    let alice = players.get(&"alice".to_string()).unwrap();
    assert_eq!(alice.stats.kills, 0);
}

#[test]
fn recovery_during_the_countdown_clamps_the_start_stamp() {
    let mut srow = session_row();
    // the checkpoint caught a scheduled start still in the future
    srow.started_at = Some(10_000);
    let actor = SessionActor::new(srow, "alice".to_string(), &config(60_000), 4_000);
    assert_eq!(actor.started_at, Some(4_000));
    assert!(matches!(actor.status, SessionStatus::Standby { .. }));
}
