//! The session coordinator: one per live session.
//!
//! The coordinator owns the authoritative state and the client roster and
//! drives the status machine.  Every handler is a plain function of the old
//! state, the event, and the current wall-clock time `now` (milliseconds);
//! what has to happen outside (messages to send, rows to write, settlement
//! requests) comes back as an effects value for the caller to carry out.

use vstd::prelude::*;
use crate::content::{Content, Logs};
use crate::messages::{PlayerSessionResolve, SessionResolve, Update};
use crate::models::{PlayerSession, Session};
use crate::state::{ClientStatus, GameConfig, PlayerInfo, PlayerStats, SessionState};
use vstd::multiset::Multiset;

verus! {

/// Times are kept well below `u64::MAX` so that sums of two clock readings
/// never overflow; two to the sixty-second milliseconds is about 146
/// million years.
pub const TIME_LIMIT: u64 = 0x4000_0000_0000_0000;

/// The tick period of the coordinator's loop, in milliseconds (60 Hz).
pub const TICK_INTERVAL_MS: u64 = 16;

/// The persistence checkpoint period, in milliseconds (0.1 Hz).
pub const LOG_INTERVAL_MS: u64 = 10_000;

/// How long the start countdown runs, in milliseconds.
pub const START_COUNTDOWN_MS: u64 = 15_000;

/// How long a client may sit in `Loading` or `LostConnection` before it is
/// evicted, in milliseconds.
pub const EVICT_AFTER_MS: u64 = 60_000;

/// How long `PostSession` waits before the end sequence is retried, in
/// milliseconds.
pub const END_RETRY_MS: u64 = 30_000;

/// What the coordinator knows of one connected client.
pub struct ClientInfo {
    pub started_at: u64,
    pub last_update: u64,
    pub ms: Vec<u32>,
    pub account_id: Option<String>,
    pub status: ClientStatus,
}

impl ClientInfo {
    /// A client that connected at `now` starts out loading.
    pub fn new(now: u64, account_id: Option<String>) -> (r: Self)
        ensures
            r.started_at == now,
            r.last_update == now,
            r.ms@.len() == 0,
            r.account_id == account_id,
            r.status == ClientStatus::Loading(now),
    {
        ClientInfo {
            started_at: now,
            last_update: now,
            ms: Vec::new(),
            account_id,
            status: ClientStatus::Loading(now),
        }
    }
}

/// Where a session stands in its lifecycle.
pub enum SessionStatus {
    /// Lobby: `None` while clients are still getting ready, `Some(t)` once
    /// the start has been scheduled for wall-clock time `t`.
    Starting(Option<u64>),
    /// Running, with the elapsed play time at the last status change.
    InProgress(u64),
    /// Paused since `paused_at`, optionally for a bounded duration, by the
    /// recorded user.
    Standby { paused_at: u64, for_duration: Option<u64>, by: Option<String> },
    /// Ended, settling against the store and the contract.
    PostSession,
}

/// The per-session coordinator.
pub struct SessionActor {
    pub id: u128,
    pub game_id: String,
    pub host: String,
    pub creator: String,
    pub clients: crate::kv::StrMap<ClientInfo>,
    pub pool_id: Option<String>,
    pub resolving: Option<u64>,
    pub state: SessionState,
    pub status: SessionStatus,
    pub started_at: Option<u64>,
    pub duration: u64,
    pub pause_time: u64,
    pub paused_at: Option<u64>,
    pub ended_at: Option<u64>,
    pub logger: Logs,
    pub tick: u64,
}

/// What the pause bookkeeping turns into on one `toggle_timer` call: a
/// running clock is stopped at `now`; a stopped clock adds the standstill
/// to `pause_time` and runs again.
pub open spec fn spec_toggle(pause_time: u64, paused_at: Option<u64>, now: u64) -> (u64, Option<
    u64,
>) {
    match paused_at {
        Some(p) => ((pause_time + (now - p)) as u64, None),
        None => (pause_time, Some(now)),
    }
}

impl SessionActor {
    /// The wall-clock play time before pauses are discounted.
    pub open spec fn raw_elapsed(&self, now: u64) -> int {
        match self.started_at {
            Some(s) => if now >= s {
                now - s
            } else {
                0
            },
            None => 0,
        }
    }

    /// The play time: wall-clock time since the start, less the time spent
    /// paused.
    pub open spec fn spec_elapsed(&self, now: u64) -> int {
        self.raw_elapsed(now) - self.pause_time
    }

    /// How long the clock has been standing still, at `now`.
    pub open spec fn paused_span(&self, now: u64) -> int {
        match self.paused_at {
            Some(p) => now - p,
            None => 0,
        }
    }

    /// Just enough clock coherence for `elapsed` to be computed: the
    /// accumulated pause time fits into the wall-clock time played.
    pub open spec fn pause_ok(&self, now: u64) -> bool {
        &&& (self.started_at is None ==> self.pause_time == 0)
        &&& (match self.started_at {
            Some(s) => (s <= now ==> self.pause_time <= now - s) && (s > now ==> self.pause_time
                == 0),
            None => true,
        })
    }

    /// The clock bookkeeping is coherent at wall-clock time `now`: stamps
    /// lie in the past (the scheduled start at most one countdown ahead),
    /// the accumulated pause time fits into the time played so far, and the
    /// clock stands still exactly in `Standby`, before the start, and after
    /// the end.
    pub open spec fn time_inv(&self, now: u64) -> bool {
        &&& now <= TIME_LIMIT
        &&& (self.paused_at matches Some(p) ==> p <= now)
        &&& (self.started_at matches Some(s) ==> s <= now + START_COUNTDOWN_MS)
        &&& self.pause_time <= now
        &&& (self.started_at is None ==> self.pause_time == 0 && self.paused_at is None)
        &&& (self.started_at matches Some(s) && s > now ==> self.pause_time == 0
            && self.paused_at is None)
        &&& (match self.started_at {
            Some(s) => s <= now ==> self.pause_time + self.paused_span(now) <= now - s,
            None => true,
        })
        &&& (self.status matches SessionStatus::Starting(t) ==> self.pause_time == 0
            && self.paused_at is None)
        &&& (self.status is InProgress ==> self.paused_at is None && self.started_at is Some)
        &&& (self.status is Standby ==> self.paused_at is Some && self.started_at is Some)
        &&& (self.status matches SessionStatus::Starting(Some(t)) ==> self.started_at == Some(t))
        &&& (self.status matches SessionStatus::Standby { paused_at: p, for_duration: d, by: b }
            ==> p <= now && (d matches Some(dd) ==> dd <= TIME_LIMIT))
        &&& (self.resolving matches Some(t) ==> t <= now)
    }

    /// The structural invariant: every registry is well-formed.
    pub open spec fn wf(&self) -> bool {
        self.state.wf() && self.clients.wf()
    }

    /// The authority invariant: every live entity is managed by a current
    /// client of this coordinator.
    pub open spec fn managers_are_clients(&self) -> bool {
        forall|k: u128|
            self.state.entities@.contains_key(k) ==> self.clients@.contains_key(
                (#[trigger] self.state.entities@[k]).manager@,
            )
    }

    /// Build a coordinator from a persisted session row, the host, and the
    /// game's configuration.  A session that had already started is resumed
    /// as paused; a fresh one enters the lobby.  A start stamp persisted
    /// mid-countdown (so still in the future) is clamped to `now`: the
    /// recovered session resumes at once rather than waiting out a
    /// countdown whose clients are gone.
    pub fn new(session: Session, host: String, config: &GameConfig, now: u64) -> (r: Self)
        requires
            session.state.wf(),
            now <= TIME_LIMIT,
        ensures
            r.id == session.id,
            r.game_id == session.game_id,
            r.host == host,
            r.creator == session.creator,
            r.clients@ == Map::<Seq<char>, ClientInfo>::empty(),
            r.pool_id == session.pool_id,
            r.resolving is None,
            r.state == session.state,
            r.started_at == (match session.started_at {
                Some(t) => Some(if t <= now { t } else { now }),
                None => None,
            }),
            r.duration == config.duration_ms,
            r.pause_time == 0,
            r.ended_at is None,
            r.logger == session.logs,
            r.tick == now,
            session.started_at is Some ==> r.status == (SessionStatus::Standby {
                paused_at: now,
                for_duration: None,
                by: None,
            }) && r.paused_at == Some(now),
            session.started_at is None ==> r.status == SessionStatus::Starting(None)
                && r.paused_at is None,
            r.time_inv(now),
            r.wf(),
    {
        let started = match session.started_at {
            Some(t) => Some(if t <= now { t } else { now }),
            None => None,
        };
        let status = match started {
            Some(_) => SessionStatus::Standby { paused_at: now, for_duration: None, by: None },
            None => SessionStatus::Starting(None),
        };
        let paused_at = match started {
            Some(_) => Some(now),
            None => None,
        };
        SessionActor {
            id: session.id,
            game_id: session.game_id,
            host,
            creator: session.creator,
            clients: crate::kv::StrMap::new(),
            pool_id: session.pool_id,
            resolving: None,
            state: session.state,
            status,
            started_at: started,
            duration: config.duration_ms,
            pause_time: 0,
            paused_at,
            ended_at: None,
            logger: session.logs,
            tick: now,
        }
    }

    /// Stop a running clock, or restart a stopped one and account for the
    /// standstill.
    pub fn toggle_timer(&mut self, now: u64)
        requires
            old(self).paused_at matches Some(p) ==> p <= now,
            old(self).pause_time <= TIME_LIMIT,
            now <= TIME_LIMIT,
        ensures
            (final(self).pause_time, final(self).paused_at) == spec_toggle(
                old(self).pause_time,
                old(self).paused_at,
                now,
            ),
            *final(self) == (SessionActor {
                pause_time: final(self).pause_time,
                paused_at: final(self).paused_at,
                ..*old(self)
            }),
    {
        match self.paused_at {
            Some(p) => {
                self.pause_time = self.pause_time + (now - p);
                self.paused_at = None;
            }
            None => {
                self.paused_at = Some(now);
            }
        }
    }

    /// The play time at `now`: wall-clock time since the start, less the
    /// accumulated pauses.
    pub fn elapsed(&self, now: u64) -> (r: u64)
        requires
            self.pause_ok(now),
        ensures
            r as int == self.spec_elapsed(now),
    {
        match self.started_at {
            None => 0,
            Some(s) => {
                if now >= s {
                    (now - s) - self.pause_time
                } else {
                    0
                }
            }
        }
    }
}

/// Stopping and restarting the clock in the same instant changes nothing:
/// `toggle_timer` applied twice with no wall-clock advance restores the
/// original `pause_time` and leaves `paused_at` clear.
pub proof fn lemma_toggle_twice(pause_time: u64, now: u64)
    ensures
        ({
            let first = spec_toggle(pause_time, None, now);
            spec_toggle(first.0, first.1, now)
        }) == (pause_time, None::<u64>),
{
}

/// Within one span of play, the play time never decreases: the same
/// coordinator observed at a later wall-clock moment reports at least as
/// much elapsed time.
pub proof fn lemma_elapsed_monotonic(actor: SessionActor, n1: u64, n2: u64)
    requires
        n1 <= n2,
    ensures
        actor.spec_elapsed(n1) <= actor.spec_elapsed(n2),
{
}


/// A client due for eviction: loading or disconnected for longer than the
/// grace period.
pub open spec fn should_evict(c: ClientInfo, now: u64) -> bool {
    match c.status {
        ClientStatus::Loading(t) => now - t > EVICT_AFTER_MS,
        ClientStatus::LostConnection(t) => now - t > EVICT_AFTER_MS,
        _ => false,
    }
}

/// The users due for eviction, in roster order.
pub open spec fn evict_keys(s: Seq<(String, ClientInfo)>, now: u64) -> Seq<Seq<char>>
    decreases s.len(),
{
    if s.len() == 0 {
        Seq::empty()
    } else if should_evict(s.last().1, now) {
        evict_keys(s.drop_last(), now).push(s.last().0@)
    } else {
        evict_keys(s.drop_last(), now)
    }
}

/// `evict_keys` holds exactly the users whose client is due for eviction.
pub proof fn lemma_evict_keys(s: Seq<(String, ClientInfo)>, now: u64, u: Seq<char>)
    requires
        crate::kv::str_keys_distinct(s),
    ensures
        evict_keys(s, now).contains(u) <==> (crate::kv::str_entries_map(s).contains_key(u)
            && should_evict(crate::kv::str_entries_map(s)[u], now)),
    decreases s.len(),
{
    crate::kv::lemma_str_map_contains(s, u);
    if s.len() > 0 {
        let rest = s.drop_last();
        lemma_evict_keys(rest, now, u);
        crate::kv::lemma_str_map_contains(rest, u);
        if s.last().0@ == u {
            if should_evict(s.last().1, now) {
                assert(evict_keys(s, now).last() == u);
            } else {
                if evict_keys(s, now).contains(u) {
                    let i = choose|i: int|
                        0 <= i < evict_keys(rest, now).len() && evict_keys(rest, now)[i] == u;
                    assert(evict_keys(rest, now).contains(u));
                }
            }
        } else {
            if evict_keys(rest, now).contains(u) {
                let i = choose|i: int|
                    0 <= i < evict_keys(rest, now).len() && evict_keys(rest, now)[i] == u;
                if should_evict(s.last().1, now) {
                    assert(evict_keys(s, now)[i] == u);
                }
            }
            if evict_keys(s, now).contains(u) && should_evict(s.last().1, now) {
                let i = choose|i: int|
                    0 <= i < evict_keys(s, now).len() && evict_keys(s, now)[i] == u;
                if i < evict_keys(rest, now).len() {
                    assert(evict_keys(rest, now)[i] == u);
                }
            }
        }
    }
}

/// The eviction list holds exactly the users of `clients` whose client is
/// due for eviction at `now`.
pub open spec fn eviction_effect(
    evict: Vec<String>,
    clients: Map<Seq<char>, ClientInfo>,
    now: u64,
) -> bool {
    forall|u: Seq<char>|
        (exists|i: int| 0 <= i < evict@.len() && evict@[i]@ == u) <==> (clients.contains_key(u)
            && should_evict(clients[u], now))
}

/// What one tick of the status machine asks the caller to do.
pub struct TickEffects {
    /// Users to send a `Leave` to self for (eviction).
    pub evict: Vec<String>,
    /// Whether to dispatch the end sequence to self.
    pub dispatch_end: bool,
}

impl SessionActor {
    /// Every stamp carried in a client status lies in the past.
    pub open spec fn clients_time_ok(&self, now: u64) -> bool {
        forall|u: Seq<char>|
            self.clients@.contains_key(u) ==> (match (#[trigger] self.clients@[u]).status {
                ClientStatus::Loading(t) => t <= now,
                ClientStatus::LostConnection(t) => t <= now,
                _ => true,
            })
    }

    /// Every lobby client is done getting ready (or already done playing).
    pub open spec fn all_ready(&self) -> bool {
        forall|u: Seq<char>|
            self.clients@.contains_key(u) ==> ((#[trigger] self.clients@[u]).status is Ready
                || self.clients@[u].status is Ended)
    }

    /// Move every `Ready` client into the game.
    fn start_ready_clients(&mut self)
        requires
            old(self).clients.wf(),
        ensures
            final(self).clients.wf(),
            final(self).clients@.dom() == old(self).clients@.dom(),
            forall|u: Seq<char>|
                old(self).clients@.contains_key(u) ==> {
                    let c = #[trigger] final(self).clients@[u];
                    let o = old(self).clients@[u];
                    c.started_at == o.started_at && c.last_update == o.last_update && c.ms == o.ms
                        && c.account_id == o.account_id && c.status == (
                    if o.status is Ready {
                        ClientStatus::InProgress(0u64)
                    } else {
                        o.status
                    })
                },
            *final(self) == (SessionActor { clients: final(self).clients, ..*old(self) }),
    {
        let n = self.clients.entries.len();
        let mut i: usize = 0;
        while i < n
            invariant
                n == self.clients.entries@.len(),
                i <= n,
                old(self).clients.wf(),
                old(self).clients.entries@.len() == n,
                self.clients.wf(),
                self.clients@.dom() =~= old(self).clients@.dom(),
                *self == (SessionActor { clients: self.clients, ..*old(self) }),
                self.clients.entries@.len() == n,
                forall|j: int|
                    0 <= j < n ==> (#[trigger] self.clients.entries@[j]).0@ == old(self).clients.entries@[j].0@,
                forall|u: Seq<char>|
                    old(self).clients@.contains_key(u) ==> {
                        let c = #[trigger] self.clients@[u];
                        let o = old(self).clients@[u];
                        c.started_at == o.started_at && c.last_update == o.last_update && c.ms
                            == o.ms && c.account_id == o.account_id
                    },
                forall|j: int|
                    0 <= j < i ==> (#[trigger] self.clients@[old(self).clients.entries@[j].0@]).status
                        == (if old(self).clients@[old(self).clients.entries@[j].0@].status
                        is Ready {
                        ClientStatus::InProgress(0u64)
                    } else {
                        old(self).clients@[old(self).clients.entries@[j].0@].status
                    }),
                forall|j: int|
                    i <= j < n ==> (#[trigger] self.clients@[old(self).clients.entries@[j].0@]).status
                        == old(self).clients@[old(self).clients.entries@[j].0@].status,
            decreases n - i,
        {
            let ghost pre = self.clients@;
            let ghost pre_entries = self.clients.entries@;
            let ghost k = old(self).clients.entries@[i as int].0@;
            let hit = match self.clients.entries[i].1.status {
                ClientStatus::Ready => true,
                _ => false,
            };
            proof {
                crate::kv::lemma_str_map_index(self.clients.entries@, i as int);
                assert(self.clients.entries@[i as int].0@ == k);
                assert(pre[k] == pre_entries[i as int].1);
            }
            if hit {
                let c: &mut ClientInfo = &mut self.clients.entries[i].1;
                c.status = ClientStatus::InProgress(0);
                proof {
                    let v = self.clients.entries@[i as int].1;
                    assert(v.started_at == pre_entries[i as int].1.started_at);
                    assert(v.last_update == pre_entries[i as int].1.last_update);
                    assert(v.ms == pre_entries[i as int].1.ms);
                    assert(v.account_id == pre_entries[i as int].1.account_id);
                    assert(self.clients.entries@ =~= pre_entries.update(
                        i as int,
                        (pre_entries[i as int].0, v),
                    ));
                    crate::kv::lemma_str_map_update(
                        pre_entries,
                        i as int,
                        (pre_entries[i as int].0, v),
                    );
                    assert(self.clients@ == pre.insert(k, v));
                    assert(self.clients@.dom() =~= pre.dom());
                    assert forall|j: int| 0 <= j < n && j != i implies old(self).clients.entries@[j].0@
                        != k by {
                        crate::kv::lemma_str_distinct_pair(
                            old(self).clients.entries@,
                            j,
                            i as int,
                        );
                    }
                    assert forall|j: int| 0 <= j < n && j != i implies self.clients@[old(self).clients.entries@[j].0@]
                        == pre[old(self).clients.entries@[j].0@] by {
                        assert(old(self).clients.entries@[j].0@ != k);
                    }
                    assert forall|u: Seq<char>| old(self).clients@.contains_key(u) && u != k
                        implies self.clients@[u] == pre[u] by {}
                    assert(self.clients@[k] == v);
                }
            }
            i = i + 1;
        }
        proof {
            assert forall|u: Seq<char>| old(self).clients@.contains_key(u) implies (
            #[trigger] self.clients@[u]).status == (if old(self).clients@[u].status is Ready {
                ClientStatus::InProgress(0u64)
            } else {
                old(self).clients@[u].status
            }) by {
                crate::kv::lemma_str_map_contains(old(self).clients.entries@, u);
                let jj = choose|j: int|
                    0 <= j < old(self).clients.entries@.len() && old(self).clients.entries@[j].0@
                        == u;
                assert(self.clients@[old(self).clients.entries@[jj].0@] == self.clients@[u]);
            }
        }
    }

    /// Demote every client that claims to be playing back to `Ready`
    /// (desync protection while the session is still in the lobby).
    fn demote_in_progress_clients(&mut self)
        requires
            old(self).clients.wf(),
        ensures
            final(self).clients.wf(),
            final(self).clients@.dom() == old(self).clients@.dom(),
            forall|u: Seq<char>|
                old(self).clients@.contains_key(u) ==> {
                    let c = #[trigger] final(self).clients@[u];
                    let o = old(self).clients@[u];
                    c.started_at == o.started_at && c.last_update == o.last_update && c.ms == o.ms
                        && c.account_id == o.account_id && c.status == (
                    if o.status is InProgress {
                        ClientStatus::Ready
                    } else {
                        o.status
                    })
                },
            *final(self) == (SessionActor { clients: final(self).clients, ..*old(self) }),
    {
        let n = self.clients.entries.len();
        let mut i: usize = 0;
        while i < n
            invariant
                n == self.clients.entries@.len(),
                i <= n,
                old(self).clients.wf(),
                old(self).clients.entries@.len() == n,
                self.clients.wf(),
                self.clients@.dom() =~= old(self).clients@.dom(),
                *self == (SessionActor { clients: self.clients, ..*old(self) }),
                self.clients.entries@.len() == n,
                forall|j: int|
                    0 <= j < n ==> (#[trigger] self.clients.entries@[j]).0@ == old(self).clients.entries@[j].0@,
                forall|u: Seq<char>|
                    old(self).clients@.contains_key(u) ==> {
                        let c = #[trigger] self.clients@[u];
                        let o = old(self).clients@[u];
                        c.started_at == o.started_at && c.last_update == o.last_update && c.ms
                            == o.ms && c.account_id == o.account_id
                    },
                forall|j: int|
                    0 <= j < i ==> (#[trigger] self.clients@[old(self).clients.entries@[j].0@]).status
                        == (if old(self).clients@[old(self).clients.entries@[j].0@].status
                        is InProgress {
                        ClientStatus::Ready
                    } else {
                        old(self).clients@[old(self).clients.entries@[j].0@].status
                    }),
                forall|j: int|
                    i <= j < n ==> (#[trigger] self.clients@[old(self).clients.entries@[j].0@]).status
                        == old(self).clients@[old(self).clients.entries@[j].0@].status,
            decreases n - i,
        {
            let ghost pre = self.clients@;
            let ghost pre_entries = self.clients.entries@;
            let ghost k = old(self).clients.entries@[i as int].0@;
            let hit = match self.clients.entries[i].1.status {
                ClientStatus::InProgress(_) => true,
                _ => false,
            };
            proof {
                crate::kv::lemma_str_map_index(self.clients.entries@, i as int);
                assert(self.clients.entries@[i as int].0@ == k);
                assert(pre[k] == pre_entries[i as int].1);
            }
            if hit {
                let c: &mut ClientInfo = &mut self.clients.entries[i].1;
                c.status = ClientStatus::Ready;
                proof {
                    let v = self.clients.entries@[i as int].1;
                    assert(v.started_at == pre_entries[i as int].1.started_at);
                    assert(v.last_update == pre_entries[i as int].1.last_update);
                    assert(v.ms == pre_entries[i as int].1.ms);
                    assert(v.account_id == pre_entries[i as int].1.account_id);
                    assert(self.clients.entries@ =~= pre_entries.update(
                        i as int,
                        (pre_entries[i as int].0, v),
                    ));
                    crate::kv::lemma_str_map_update(
                        pre_entries,
                        i as int,
                        (pre_entries[i as int].0, v),
                    );
                    assert(self.clients@ == pre.insert(k, v));
                    assert(self.clients@.dom() =~= pre.dom());
                    assert forall|j: int| 0 <= j < n && j != i implies old(self).clients.entries@[j].0@
                        != k by {
                        crate::kv::lemma_str_distinct_pair(
                            old(self).clients.entries@,
                            j,
                            i as int,
                        );
                    }
                    assert forall|j: int| 0 <= j < n && j != i implies self.clients@[old(self).clients.entries@[j].0@]
                        == pre[old(self).clients.entries@[j].0@] by {
                        assert(old(self).clients.entries@[j].0@ != k);
                    }
                    assert forall|u: Seq<char>| old(self).clients@.contains_key(u) && u != k
                        implies self.clients@[u] == pre[u] by {}
                    assert(self.clients@[k] == v);
                }
            }
            i = i + 1;
        }
        proof {
            assert forall|u: Seq<char>| old(self).clients@.contains_key(u) implies (
            #[trigger] self.clients@[u]).status == (if old(self).clients@[u].status is InProgress {
                ClientStatus::Ready
            } else {
                old(self).clients@[u].status
            }) by {
                crate::kv::lemma_str_map_contains(old(self).clients.entries@, u);
                let jj = choose|j: int|
                    0 <= j < old(self).clients.entries@.len() && old(self).clients.entries@[j].0@
                        == u;
                assert(self.clients@[old(self).clients.entries@[jj].0@] == self.clients@[u]);
            }
        }
    }

    /// The users whose client has been loading or disconnected for longer
    /// than the grace period.
    fn collect_evictions(&self, now: u64) -> (r: Vec<String>)
        requires
            self.clients.wf(),
            self.clients_time_ok(now),
        ensures
            r@.len() == evict_keys(self.clients.entries@, now).len(),
            forall|i: int|
                0 <= i < r@.len() ==> r@[i]@ == evict_keys(self.clients.entries@, now)[i],
            eviction_effect(r, self.clients@, now),
    {
        let n = self.clients.entries.len();
        let mut r: Vec<String> = Vec::new();
        let mut i: usize = 0;
        while i < n
            invariant
                n == self.clients.entries@.len(),
                i <= n,
                self.clients_time_ok(now),
                self.clients.wf(),
                r@.len() == evict_keys(self.clients.entries@.take(i as int), now).len(),
                forall|j: int|
                    0 <= j < r@.len() ==> r@[j]@ == evict_keys(
                        self.clients.entries@.take(i as int),
                        now,
                    )[j],
            decreases n - i,
        {
            proof {
                assert(self.clients.entries@.take(i as int + 1).drop_last()
                    =~= self.clients.entries@.take(i as int));
                assert(self.clients.entries@.take(i as int + 1).last()
                    == self.clients.entries@[i as int]);
                crate::kv::lemma_str_map_index(self.clients.entries@, i as int);
            }
            let evict = match self.clients.entries[i].1.status {
                ClientStatus::Loading(t) => now - t > EVICT_AFTER_MS,
                ClientStatus::LostConnection(t) => now - t > EVICT_AFTER_MS,
                _ => false,
            };
            if evict {
                r.push(self.clients.entries[i].0.clone());
            }
            i = i + 1;
        }
        proof {
            assert(self.clients.entries@.take(n as int) =~= self.clients.entries@);
            assert forall|u: Seq<char>|
                (exists|i: int| 0 <= i < r@.len() && r@[i]@ == u) <==> (self.clients@.contains_key(
                    u,
                ) && should_evict(self.clients@[u], now)) by {
                lemma_evict_keys(self.clients.entries@, now, u);
                let ks = evict_keys(self.clients.entries@, now);
                if exists|i: int| 0 <= i < r@.len() && r@[i]@ == u {
                    let i = choose|i: int| 0 <= i < r@.len() && r@[i]@ == u;
                    assert(ks[i] == u);
                    assert(ks.contains(u));
                }
                if ks.contains(u) {
                    let i = choose|i: int| 0 <= i < ks.len() && ks[i] == u;
                    assert(r@[i]@ == u);
                }
            }
            assert(eviction_effect(r, self.clients@, now));
        }
        r
    }

    /// One tick of the status machine.  The caller carries out the returned
    /// effects: a `Leave` to self per evicted user, and the end sequence
    /// when `dispatch_end` is set.  The broadcast itself follows through
    /// `send_tick`.
    pub fn tick(&mut self, now: u64) -> (fx: TickEffects)
        requires
            old(self).wf(),
            old(self).time_inv(now),
            old(self).clients_time_ok(now),
        ensures
            final(self).wf(),
            final(self).time_inv(now),
            final(self).clients_time_ok(now),
            old(self).managers_are_clients() ==> final(self).managers_are_clients(),
    // Nothing here touches the session's identity, state, roster
    // membership, end stamp, or settlement stamp.

            final(self).state == old(self).state,
            final(self).ended_at == old(self).ended_at,
            final(self).resolving == old(self).resolving,
            final(self).host == old(self).host,
            final(self).logger == old(self).logger,
            final(self).duration == old(self).duration,
            final(self).clients@.dom() == old(self).clients@.dom(),
            // The pause clock moves only across a Standby-to-InProgress
            // transition (the timed auto-resume).
            final(self).pause_time != old(self).pause_time ==> old(self).status is Standby
                && final(self).status is InProgress,
            // Lobby, waiting for clients: either everyone is ready and the
            // start gets scheduled, or stragglers are demoted and the
            // overdue ones evicted.
            old(self).status == SessionStatus::Starting(None::<u64>) && old(self).all_ready()
                ==> final(self).started_at == Some((now + START_COUNTDOWN_MS) as u64) && final(self).status == SessionStatus::Starting(Some((now + START_COUNTDOWN_MS) as u64)) && (
            forall|u: Seq<char>|
                old(self).clients@.contains_key(u) ==> (#[trigger] final(self).clients@[u]).status
                    == (if old(self).clients@[u].status is Ready {
                    ClientStatus::InProgress(0u64)
                } else {
                    old(self).clients@[u].status
                })) && fx.evict@.len() == 0 && !fx.dispatch_end,
            old(self).status == SessionStatus::Starting(None::<u64>) && !old(self).all_ready()
                ==> final(self).started_at == old(self).started_at && final(self).status == old(self).status && (forall|u: Seq<char>|
                old(self).clients@.contains_key(u) ==> (#[trigger] final(self).clients@[u]).status
                    == (if old(self).clients@[u].status is InProgress {
                    ClientStatus::Ready
                } else {
                    old(self).clients@[u].status
                })) && eviction_effect(fx.evict, final(self).clients@, now) && !fx.dispatch_end,
            // Countdown: the session goes live once the scheduled start has
            // passed.
            (old(self).status matches SessionStatus::Starting(Some(sched)) ==> final(self).clients
                == old(self).clients && final(self).started_at == old(self).started_at
                && fx.evict@.len() == 0 && !fx.dispatch_end && final(self).status == (if now
                > sched {
                SessionStatus::InProgress(old(self).spec_elapsed(now) as u64)
            } else {
                old(self).status
            })),
            // Running: the timer can run out.
            (old(self).status matches SessionStatus::InProgress(e) ==> final(self).clients == old(self).clients && final(self).started_at == old(self).started_at && fx.evict@.len() == 0
                && !fx.dispatch_end && final(self).status == (if old(self).spec_elapsed(now)
                >= old(self).duration {
                SessionStatus::PostSession
            } else {
                SessionStatus::InProgress(old(self).spec_elapsed(now) as u64)
            })),
            // Ended: keep asking for the end sequence until settlement
            // finishes, at most once per retry period.
            old(self).status is PostSession ==> final(self).clients == old(self).clients && final(self).started_at == old(self).started_at && final(self).status == old(self).status
                && fx.evict@.len() == 0 && fx.dispatch_end == (match old(self).resolving {
                None => true,
                Some(t) => t <= now && now - t > END_RETRY_MS,
            }),
            // Paused: a bounded pause resumes by itself once it is over.
            (old(self).status matches SessionStatus::Standby {
                paused_at: p,
                for_duration: d,
                by: b,
            } ==> final(self).clients == old(self).clients && final(self).started_at == old(self).started_at && fx.evict@.len() == 0 && !fx.dispatch_end && (match d {
                Some(dur) => if p + dur < now {
                    final(self).status matches SessionStatus::InProgress(e2) && final(self).paused_at is None && final(self).pause_time == old(self).pause_time + (now
                        - old(self).paused_at->0) && e2 as int == final(self).spec_elapsed(now)
                } else {
                    final(self).status == old(self).status && final(self).pause_time == old(self).pause_time && final(self).paused_at == old(self).paused_at
                },
                None => final(self).status == old(self).status && final(self).pause_time == old(self).pause_time && final(self).paused_at == old(self).paused_at,
            })),
    {
        let mut evict: Vec<String> = Vec::new();
        let mut dispatch_end = false;
        let arm: u8 = match &self.status {
            SessionStatus::Starting(None) => 0,
            SessionStatus::Starting(Some(_)) => 1,
            SessionStatus::InProgress(_) => 2,
            SessionStatus::PostSession => 3,
            SessionStatus::Standby { .. } => 4,
        };
        let sched: u64 = match &self.status {
            SessionStatus::Starting(Some(s)) => *s,
            _ => 0,
        };
        let stand_p: u64 = match &self.status {
            SessionStatus::Standby { paused_at, .. } => *paused_at,
            _ => 0,
        };
        let stand_d: Option<u64> = match &self.status {
            SessionStatus::Standby { for_duration, .. } => *for_duration,
            _ => None,
        };
        if arm == 0 {
                let mut ready = true;
                let n = self.clients.entries.len();
                let mut i: usize = 0;
                while i < n
                    invariant
                        n == self.clients.entries@.len(),
                        i <= n,
                        self.clients.wf(),
                        ready == (forall|j: int|
                            0 <= j < i ==> ((#[trigger] self.clients.entries@[j]).1.status
                                is Ready || self.clients.entries@[j].1.status is Ended)),
                    decreases n - i,
                {
                    let ok = match self.clients.entries[i].1.status {
                        ClientStatus::Ready => true,
                        ClientStatus::Ended(_) => true,
                        _ => false,
                    };
                    ready = ready && ok;
                    i = i + 1;
                }
                proof {
                    if ready {
                        assert forall|u: Seq<char>| self.clients@.contains_key(u) implies ((
                        #[trigger] self.clients@[u]).status is Ready || self.clients@[u].status
                            is Ended) by {
                            crate::kv::lemma_str_map_contains(self.clients.entries@, u);
                            let j = choose|j: int|
                                0 <= j < self.clients.entries@.len()
                                    && self.clients.entries@[j].0@ == u;
                            crate::kv::lemma_str_map_index(self.clients.entries@, j);
                        }
                    } else {
                        let j = choose|j: int|
                            0 <= j < n && !((#[trigger] self.clients.entries@[j]).1.status
                                is Ready || self.clients.entries@[j].1.status is Ended);
                        crate::kv::lemma_str_map_index(self.clients.entries@, j);
                        assert(!self.all_ready());
                    }
                }
                if ready {
                    let sched = now + START_COUNTDOWN_MS;
                    self.started_at = Some(sched);
                    self.status = SessionStatus::Starting(Some(sched));
                    self.start_ready_clients();
                } else {
                    self.demote_in_progress_clients();
                    evict = self.collect_evictions(now);
                }
        } else if arm == 1 {
            if now > sched {
                let e = self.elapsed(now);
                self.status = SessionStatus::InProgress(e);
            }
        } else if arm == 2 {
            let e = self.elapsed(now);
            if e >= self.duration {
                self.status = SessionStatus::PostSession;
            } else {
                self.status = SessionStatus::InProgress(e);
            }
        } else if arm == 3 {
            match self.resolving {
                None => {
                    dispatch_end = true;
                }
                Some(t) => {
                    if now - t > END_RETRY_MS {
                        dispatch_end = true;
                    }
                }
            }
        } else {
            match stand_d {
                Some(dur) => {
                    if stand_p + dur < now {
                        self.toggle_timer(now);
                        proof {
                            assert(self.pause_ok(now));
                        }
                        let e = self.elapsed(now);
                        self.status = SessionStatus::InProgress(e);
                    }
                }
                None => {}
            }
        }
        TickEffects { evict, dispatch_end }
    }
}



/// What the periodic checkpoint writes on one player-session row.
pub enum PlayerLogAction {
    /// The client is playing: upsert its latest snapshot.
    UpsertInfo(PlayerInfo),
    /// The client is done: stamp the row's end time.
    SetEnded(u64),
    /// Nothing to write for this client.
    Keep,
}

impl SessionActor {
    /// The periodic checkpoint: for every client, what to write on its
    /// player-session row.  The caller also persists the session row itself
    /// (`logger`, `state`, `started_at`, and the moment of the write).
    pub fn log(&self) -> (r: Vec<(String, PlayerLogAction)>)
        requires
            self.wf(),
        ensures
            r@.len() == self.clients.entries@.len(),
            forall|i: int|
                0 <= i < r@.len() ==> (#[trigger] r@[i]).0@ == self.clients.entries@[i].0@
                    && (match self.clients.entries@[i].1.status {
                    ClientStatus::InProgress(t) => r@[i].1 matches PlayerLogAction::UpsertInfo(pi)
                        && pi.status == self.clients.entries@[i].1.status && pi.stats
                        == self.state.stats_or_default(self.clients.entries@[i].0@)
                        && crate::state::snapshot_managed_ok(
                        pi,
                        self.state.entities@,
                        self.clients.entries@[i].0@,
                    ),
                    ClientStatus::Ended(t) => r@[i].1 == PlayerLogAction::SetEnded(t),
                    _ => r@[i].1 is Keep,
                }),
    {
        let n = self.clients.entries.len();
        let mut r: Vec<(String, PlayerLogAction)> = Vec::new();
        let mut i: usize = 0;
        while i < n
            invariant
                self.wf(),
                n == self.clients.entries@.len(),
                i <= n,
                r@.len() == i,
                forall|j: int|
                    0 <= j < i ==> (#[trigger] r@[j]).0@ == self.clients.entries@[j].0@ && (
                    match self.clients.entries@[j].1.status {
                        ClientStatus::InProgress(t) => r@[j].1 matches PlayerLogAction::UpsertInfo(
                            pi,
                        ) && pi.status == self.clients.entries@[j].1.status && pi.stats
                            == self.state.stats_or_default(self.clients.entries@[j].0@)
                            && crate::state::snapshot_managed_ok(
                            pi,
                            self.state.entities@,
                            self.clients.entries@[j].0@,
                        ),
                        ClientStatus::Ended(t) => r@[j].1 == PlayerLogAction::SetEnded(t),
                        _ => r@[j].1 is Keep,
                    }),
            decreases n - i,
        {
            let user = self.clients.entries[i].0.clone();
            let action = match self.clients.entries[i].1.status {
                ClientStatus::InProgress(_) => {
                    let pi = self.state.player_info(&user, self.clients.entries[i].1.status);
                    PlayerLogAction::UpsertInfo(pi)
                }
                ClientStatus::Ended(t) => PlayerLogAction::SetEnded(t),
                _ => PlayerLogAction::Keep,
            };
            r.push((user, action));
            i = i + 1;
        }
        r
    }

    /// The per-player snapshots of everyone on the roster.
    fn players_snapshot(&self) -> (players: crate::kv::StrMap<PlayerInfo>)
        requires
            self.wf(),
        ensures
            players.wf(),
            forall|u: Seq<char>| players@.contains_key(u) == self.clients@.contains_key(u),
            forall|u: Seq<char>|
                self.clients@.contains_key(u) ==> (#[trigger] players@[u]).status
                    == self.clients@[u].status && players@[u].stats == self.state.stats_or_default(
                    u,
                ) && crate::state::snapshot_managed_ok(players@[u], self.state.entities@, u),
    {
        let n = self.clients.entries.len();
        let mut players: crate::kv::StrMap<PlayerInfo> = crate::kv::StrMap::new();
        let mut i: usize = 0;
        while i < n
            invariant
                self.wf(),
                n == self.clients.entries@.len(),
                i <= n,
                players.wf(),
                forall|u: Seq<char>|
                    players@.contains_key(u) <==> (exists|j: int|
                        0 <= j < i && (#[trigger] self.clients.entries@[j]).0@ == u),
                forall|j: int|
                    0 <= j < i ==> (#[trigger] players@[self.clients.entries@[j].0@]).status
                        == self.clients.entries@[j].1.status
                        && players@[self.clients.entries@[j].0@].stats
                        == self.state.stats_or_default(self.clients.entries@[j].0@)
                        && crate::state::snapshot_managed_ok(
                        players@[self.clients.entries@[j].0@],
                        self.state.entities@,
                        self.clients.entries@[j].0@,
                    ),
            decreases n - i,
        {
            let ghost pre = players@;
            let user = self.clients.entries[i].0.clone();
            let info = self.state.player_info(&user, self.clients.entries[i].1.status);
            players.insert(user, info);
            proof {
                assert forall|j: int| 0 <= j < i implies (#[trigger] players@[self.clients.entries@[j].0@]).status
                    == self.clients.entries@[j].1.status
                    && players@[self.clients.entries@[j].0@].stats == self.state.stats_or_default(
                    self.clients.entries@[j].0@,
                ) && crate::state::snapshot_managed_ok(
                    players@[self.clients.entries@[j].0@],
                    self.state.entities@,
                    self.clients.entries@[j].0@,
                ) by {
                    crate::kv::lemma_str_distinct_pair(self.clients.entries@, j, i as int);
                    assert(players@[self.clients.entries@[j].0@] == pre[self.clients.entries@[j].0@]);
                }
                assert forall|u: Seq<char>|
                    players@.contains_key(u) <==> (exists|j: int|
                        0 <= j < i + 1 && (#[trigger] self.clients.entries@[j]).0@ == u) by {
                    if u == self.clients.entries@[i as int].0@ {
                        assert(self.clients.entries@[i as int].0@ == u);
                    }
                }
            }
            i = i + 1;
        }
        proof {
            assert forall|u: Seq<char>|
                players@.contains_key(u) == self.clients@.contains_key(u) by {
                crate::kv::lemma_str_map_contains(self.clients.entries@, u);
            }
            assert forall|u: Seq<char>| self.clients@.contains_key(u) implies (
            #[trigger] players@[u]).status == self.clients@[u].status && players@[u].stats
                == self.state.stats_or_default(u) && crate::state::snapshot_managed_ok(
                players@[u],
                self.state.entities@,
                u,
            ) by {
                crate::kv::lemma_str_map_contains(self.clients.entries@, u);
                let j = choose|j: int|
                    0 <= j < self.clients.entries@.len() && self.clients.entries@[j].0@ == u;
                crate::kv::lemma_str_map_index(self.clients.entries@, j);
                assert(players@[self.clients.entries@[j].0@] == players@[u]);
            }
        }
        players
    }

    /// Assemble the broadcast for one tick: the per-player snapshots (the
    /// transport attaches the state snapshot and the status) and stamp the
    /// broadcast time.
    pub fn send_tick(&mut self, now: u64) -> (players: crate::kv::StrMap<PlayerInfo>)
        requires
            old(self).wf(),
        ensures
            *final(self) == (SessionActor { tick: now, ..*old(self) }),
            players.wf(),
            forall|u: Seq<char>| players@.contains_key(u) == old(self).clients@.contains_key(u),
            forall|u: Seq<char>|
                old(self).clients@.contains_key(u) ==> (#[trigger] players@[u]).status == old(self).clients@[u].status && players@[u].stats == old(self).state.stats_or_default(u)
                    && crate::state::snapshot_managed_ok(
                    players@[u],
                    old(self).state.entities@,
                    u,
                ),
    {
        let players = self.players_snapshot();
        self.tick = now;
        players
    }

    /// Stamp the updater's last activity, and replace its reported status
    /// where the update carried one.
    fn touch_client(&mut self, user: &String, now: u64, new_status: Option<ClientStatus>)
        requires
            old(self).clients.wf(),
            old(self).clients@.contains_key(user@),
        ensures
            final(self).clients.wf(),
            final(self).clients@.dom() == old(self).clients@.dom(),
            *final(self) == (SessionActor { clients: final(self).clients, ..*old(self) }),
            forall|u: Seq<char>|
                old(self).clients@.contains_key(u) && u != user@ ==> #[trigger] final(self).clients@[u] == old(self).clients@[u],
            ({
                let c = final(self).clients@[user@];
                let o = old(self).clients@[user@];
                c.started_at == o.started_at && c.ms == o.ms && c.account_id == o.account_id
                    && c.last_update == now && c.status == (match new_status {
                    Some(st) => st,
                    None => o.status,
                })
            }),
    {
        proof {
            crate::kv::lemma_str_map_contains(self.clients.entries@, user@);
        }
        match self.clients.find(user) {
            Some(i) => {
                let ghost pre = self.clients@;
                let ghost pre_entries = self.clients.entries@;
                proof {
                    crate::kv::lemma_str_map_index(self.clients.entries@, i as int);
                }
                let c: &mut ClientInfo = &mut self.clients.entries[i].1;
                c.last_update = now;
                match new_status {
                    Some(st) => {
                        c.status = st;
                    }
                    None => {}
                }
                proof {
                    let v = self.clients.entries@[i as int].1;
                    assert(self.clients.entries@ =~= pre_entries.update(
                        i as int,
                        (pre_entries[i as int].0, v),
                    ));
                    crate::kv::lemma_str_map_update(
                        pre_entries,
                        i as int,
                        (pre_entries[i as int].0, v),
                    );
                    assert(self.clients@ == pre.insert(user@, v));
                    assert(self.clients@.dom() =~= pre.dom());
                }
            }
            None => {
                proof {
                    assert(false);
                }
            }
        }
    }
}

/// What a join hands back: the notification to broadcast and the current
/// per-player snapshots (the caller also reads the state snapshot).
pub struct JoinEffects {
    pub notification: Content,
    pub players: crate::kv::StrMap<PlayerInfo>,
}

impl SessionActor {
    /// A client joins: it enters the roster as loading, everyone hears
    /// about it, and the entities it brought along become its own.
    pub fn handle_join(
        &mut self,
        user_id: String,
        info: &PlayerInfo,
        account_id: Option<String>,
        now: u64,
    ) -> (fx: JoinEffects)
        requires
            old(self).wf(),
        ensures
            final(self).wf(),
            old(self).managers_are_clients() ==> final(self).managers_are_clients(),
            // roster: the joiner is added as loading, nobody else moves
            final(self).clients@.dom() == old(self).clients@.dom().insert(user_id@),
            forall|u: Seq<char>|
                old(self).clients@.contains_key(u) && u != user_id@ ==> #[trigger] final(self).clients@[u] == old(self).clients@[u],
            final(self).clients@[user_id@].status == ClientStatus::Loading(now),
            final(self).clients@[user_id@].started_at == now,
            final(self).clients@[user_id@].last_update == now,
            final(self).clients@[user_id@].account_id == account_id,
            // entities: what the joiner brought becomes managed by it
            final(self).state.entities@.dom() == old(self).state.entities@.dom(),
            forall|k: u128|
                old(self).state.entities@.contains_key(k) ==> {
                    let e = #[trigger] final(self).state.entities@[k];
                    let o = old(self).state.entities@[k];
                    e.display == o.display && e.attributes == o.attributes && e.position
                        == o.position && e.entity_type == o.entity_type && e.extentions
                        == o.extentions && e.manager@ == (if (exists|j: int|
                        0 <= j < info.managed_entities@.len() && info.managed_entities@[j].0
                            == k) {
                        user_id@
                    } else {
                        o.manager@
                    })
                },
            // the rest of the state is untouched
            final(self).state.pending_spawns == old(self).state.pending_spawns,
            final(self).state.destroyed_entities == old(self).state.destroyed_entities,
            final(self).state.stats == old(self).state.stats,
            final(self).state.data == old(self).state.data,
            final(self).state.spawn == old(self).state.spawn,
            final(self).state.elapsed == old(self).state.elapsed,
            final(self).status == old(self).status,
            final(self).started_at == old(self).started_at,
            final(self).ended_at == old(self).ended_at,
            final(self).pause_time == old(self).pause_time,
            final(self).paused_at == old(self).paused_at,
            final(self).resolving == old(self).resolving,
            final(self).host == old(self).host,
            // the join is logged
            final(self).logger.0@.len() == old(self).logger.0@.len() + 1,
            final(self).logger.0@.last().0 == now,
            final(self).logger.0@.last().1@ == user_id@ + " joined."@,
            // the notification carries the message and the joiner's id
            fx.notification.wf(),
            crate::content::content_view(fx.notification) == Map::<Seq<char>, Seq<char>>::empty()
                .insert("message"@, user_id@ + " joined."@).insert("id"@, user_id@),
            // the snapshot covers the new roster
            fx.players.wf(),
            forall|u: Seq<char>|
                fx.players@.contains_key(u) == final(self).clients@.contains_key(u),
            forall|u: Seq<char>|
                final(self).clients@.contains_key(u) ==> (#[trigger] fx.players@[u]).status
                    == final(self).clients@[u].status && fx.players@[u].stats == final(self).state.stats_or_default(u) && crate::state::snapshot_managed_ok(
                    fx.players@[u],
                    final(self).state.entities@,
                    u,
                ),
    {
        self.clients.insert(user_id.clone(), ClientInfo::new(now, account_id));
        let msg = user_id.clone().concat(" joined.");
        self.logger.log(now, msg.clone());
        let mut notification = Content::new();
        notification.insert("message".to_owned(), msg);
        notification.insert("id".to_owned(), user_id.clone());
        self.state.entities.set_managed(&info.managed_entities, &user_id);
        proof {
            if old(self).managers_are_clients() {
                assert forall|k: u128| self.state.entities@.contains_key(k) implies self.clients@.contains_key(
                    (#[trigger] self.state.entities@[k]).manager@,
                ) by {
                    assert(old(self).state.entities@.contains_key(k));
                    if !(exists|j: int|
                        0 <= j < info.managed_entities@.len() && info.managed_entities@[j].0
                            == k) {
                        assert(self.state.entities@[k].manager@ == old(self).state.entities@[k].manager@);
                    }
                }
            }
        }
        let players = self.players_snapshot();
        JoinEffects { notification, players }
    }
}



/// A user was (or is) on the `exclude` list.
pub open spec fn excluded(exclude: Seq<String>, u: Seq<char>) -> bool {
    exists|i: int| 0 <= i < exclude.len() && exclude[i]@ == u
}

/// The recipient list holds exactly the roster members not excluded.
pub open spec fn recipients_effect(
    r: Vec<String>,
    clients: Map<Seq<char>, ClientInfo>,
    exclude: Seq<String>,
) -> bool {
    forall|u: Seq<char>|
        (exists|i: int| 0 <= i < r@.len() && r@[i]@ == u) <==> (clients.contains_key(u)
            && !excluded(exclude, u))
}

/// The id list holds exactly the entities of `entities` managed by `m`.
pub open spec fn managed_set(
    ids: Vec<crate::entities::EntityId>,
    entities: Map<u128, crate::entities::Entity>,
    m: Seq<char>,
) -> bool {
    forall|k: u128|
        (exists|i: int| 0 <= i < ids@.len() && ids@[i].0 == k) <==> (entities.contains_key(k)
            && entities[k].manager@ == m)
}

/// What a leave hands back: the entities the leaver managed (for the
/// `Left` broadcast), the leaver's final snapshot, and whether the
/// coordinator should stop because nobody is left.
pub struct LeaveEffects {
    pub managed_entities: Vec<crate::entities::EntityId>,
    pub player_info: Option<PlayerInfo>,
    pub stop: bool,
}

impl SessionActor {
    /// A client leaves: everyone else hears which entities it managed;
    /// those entities pass to the first remaining client (which inherits
    /// the host role if the host left), and the coordinator stops when
    /// nobody remains.
    #[verifier::spinoff_prover]
    #[verifier::rlimit(60)]
    pub fn handle_leave(&mut self, user_id: &String, now: u64) -> (fx: LeaveEffects)
        requires
            old(self).wf(),
        ensures
            final(self).wf(),
            // an unknown user changes nothing
            !old(self).clients@.contains_key(user_id@) ==> *final(self) == *old(self)
                && fx.player_info is None && !fx.stop,
            old(self).clients@.contains_key(user_id@) ==> final(self).clients@ == old(self).clients@.remove(user_id@) && fx.stop == (old(self).clients.entries@.len() == 1) && final(self).state.entities@.dom() == old(self).state.entities@.dom(),
            // the leaver's final snapshot, taken after reassignment: its
            // status, its statistics, and whatever it still manages
            old(self).clients@.contains_key(user_id@) ==> (fx.player_info matches Some(pi)
                && pi.status == old(self).clients@[user_id@].status && pi.stats == final(self).state.stats_or_default(user_id@) && crate::state::snapshot_managed_ok(
                pi,
                final(self).state.entities@,
                user_id@,
            )),
            old(self).clients@.contains_key(user_id@) ==> managed_set(
                fx.managed_entities,
                old(self).state.entities@,
                user_id@,
            ),
            old(self).clients@.contains_key(user_id@) && fx.stop ==> final(self).state == old(self).state && final(self).host == old(self).host,
            old(self).clients@.contains_key(user_id@) && !fx.stop ==> final(self).clients.entries@.len() > 0 && (forall|k: u128|
                old(self).state.entities@.contains_key(k) ==> {
                    let e = #[trigger] final(self).state.entities@[k];
                    let o = old(self).state.entities@[k];
                    let heir = final(self).clients.entries@[0].0@;
                    e.display == o.display && e.attributes == o.attributes && e.position
                        == o.position && e.entity_type == o.entity_type && e.extentions
                        == o.extentions && e.manager@ == (if o.manager@ == user_id@ {
                        heir
                    } else {
                        o.manager@
                    })
                }) && final(self).host@ == (if user_id@ == old(self).host@ {
                final(self).clients.entries@[0].0@
            } else {
                old(self).host@
            }),
            old(self).managers_are_clients() && old(self).clients@.contains_key(user_id@)
                && !fx.stop ==> final(self).managers_are_clients(),
            // frame
            final(self).state.pending_spawns == old(self).state.pending_spawns,
            final(self).state.destroyed_entities == old(self).state.destroyed_entities,
            final(self).state.stats == old(self).state.stats,
            final(self).state.data == old(self).state.data,
            final(self).state.spawn == old(self).state.spawn,
            final(self).state.elapsed == old(self).state.elapsed,
            final(self).status == old(self).status,
            final(self).started_at == old(self).started_at,
            final(self).ended_at == old(self).ended_at,
            final(self).pause_time == old(self).pause_time,
            final(self).paused_at == old(self).paused_at,
            final(self).resolving == old(self).resolving,
            final(self).logger == old(self).logger,
    {
        let removed = self.clients.remove(user_id);
        match removed {
            Some(client_info) => {
                let managed = self.state.entities.managed(user_id);
                let ghost g = managed@;
                let remaining = self.clients.entries.len();
                let mut stop = false;
                if remaining > 0 {
                    let heir = self.clients.entries[0].0.clone();
                    self.state.entities.set_managed(&managed, &heir);
                    let is_host = user_id.eq(&self.host);
                    if is_host {
                        self.host = heir;
                    }
                    proof {
                        assert forall|k: u128| old(self).state.entities@.contains_key(k) implies {
                            let e = #[trigger] self.state.entities@[k];
                            let o = old(self).state.entities@[k];
                            e.manager@ == (if o.manager@ == user_id@ {
                                self.clients.entries@[0].0@
                            } else {
                                o.manager@
                            })
                        } by {
                            if old(self).state.entities@[k].manager@ == user_id@ {
                                assert(exists|i: int|
                                    0 <= i < managed@.len() && managed@[i].0 == k);
                            } else {
                                if exists|i: int| 0 <= i < managed@.len() && managed@[i].0 == k {
                                    assert(old(self).state.entities@[k].manager@ == user_id@);
                                }
                            }
                        }
                        if old(self).managers_are_clients() {
                            assert forall|k: u128| self.state.entities@.contains_key(k) implies self.clients@.contains_key(
                                (#[trigger] self.state.entities@[k]).manager@,
                            ) by {
                                crate::kv::lemma_str_map_index(self.clients.entries@, 0);
                                let o = old(self).state.entities@[k];
                                if o.manager@ != user_id@ {
                                    assert(old(self).clients@.contains_key(o.manager@));
                                }
                            }
                        }
                    }
                } else {
                    stop = true;
                }
                let pi = self.state.player_info(user_id, client_info.status);
                let fx = LeaveEffects { managed_entities: managed, player_info: Some(pi), stop };
                proof {
                    assert forall|k: u128|
                        #![all_triggers]
                        (exists|i: int|
                            0 <= i < fx.managed_entities@.len() && fx.managed_entities@[i].0 == k)
                            <==> (old(self).state.entities@.contains_key(k) && old(self).state.entities@[k].manager@ == user_id@) by {
                        assert(fx.managed_entities@ == g);
                        if exists|i: int|
                            0 <= i < fx.managed_entities@.len() && fx.managed_entities@[i].0
                                == k {
                            let i = choose|i: int|
                                0 <= i < fx.managed_entities@.len() && fx.managed_entities@[i].0
                                    == k;
                            assert(g[i].0 == k);
                        }
                        if old(self).state.entities@.contains_key(k) && old(self).state.entities@[k].manager@ == user_id@ {
                            let i = choose|i: int| 0 <= i < g.len() && g[i].0 == k;
                            assert(fx.managed_entities@[i].0 == k);
                        }
                    }
                    assert(managed_set(fx.managed_entities, old(self).state.entities@, user_id@));
                }
                fx
            }
            None => {
                LeaveEffects { managed_entities: Vec::new(), player_info: None, stop: false }
            }
        }
    }

    /// Forward a message to everyone not excluded, and log it.  The entry
    /// is the serialized form of the message, rendered by the caller.
    pub fn handle_session_message(
        &mut self,
        now: u64,
        entry: String,
        exclude: &Vec<String>,
    ) -> (r: Vec<String>)
        requires
            old(self).wf(),
        ensures
            final(self).wf(),
            *final(self) == (SessionActor { logger: final(self).logger, ..*old(self) }),
            final(self).logger.0@.len() == old(self).logger.0@.len() + 1,
            final(self).logger.0@.last().0 == now,
            final(self).logger.0@.last().1 == entry,
            recipients_effect(r, old(self).clients@, exclude@),
    {
        let n = self.clients.entries.len();
        let mut r: Vec<String> = Vec::new();
        let mut i: usize = 0;
        while i < n
            invariant
                self.clients.wf(),
                n == self.clients.entries@.len(),
                i <= n,
                forall|j: int|
                    0 <= j < r@.len() ==> (exists|t: int|
                        0 <= t < i && (#[trigger] r@[j])@ == self.clients.entries@[t].0@
                            && !excluded(exclude@, r@[j]@)),
                forall|t: int|
                    0 <= t < i && !excluded(exclude@, (#[trigger] self.clients.entries@[t]).0@)
                        ==> (exists|j: int|
                        0 <= j < r@.len() && r@[j]@ == self.clients.entries@[t].0@),
            decreases n - i,
        {
            let user = &self.clients.entries[i].0;
            let m = exclude.len();
            let mut is_excluded = false;
            let mut j: usize = 0;
            while j < m
                invariant
                    m == exclude@.len(),
                    j <= m,
                    i < n,
                    n == self.clients.entries@.len(),
                    user@ == self.clients.entries@[i as int].0@,
                    is_excluded == (exists|t: int| 0 <= t < j && exclude@[t]@ == user@),
                decreases m - j,
            {
                if exclude[j].eq(user) {
                    proof {
                        assert(exclude@[j as int]@ == user@);
                    }
                    is_excluded = true;
                }
                j = j + 1;
            }
            let ghost r0 = r@;
            if !is_excluded {
                r.push(user.clone());
            }
            proof {
                assert forall|j: int| 0 <= j < r@.len() implies (exists|t: int|
                    0 <= t < i + 1 && (#[trigger] r@[j])@ == self.clients.entries@[t].0@
                        && !excluded(exclude@, r@[j]@)) by {
                    if j < r0.len() {
                        assert(r@[j] == r0[j]);
                        let t = choose|t: int|
                            0 <= t < i && r0[j]@ == self.clients.entries@[t].0@ && !excluded(
                                exclude@,
                                r0[j]@,
                            );
                        assert(r@[j]@ == self.clients.entries@[t].0@);
                    } else {
                        assert(r@[j]@ == self.clients.entries@[i as int].0@);
                        assert(!excluded(exclude@, r@[j]@));
                    }
                }
                assert forall|t: int|
                    0 <= t < i + 1 && !excluded(
                        exclude@,
                        (#[trigger] self.clients.entries@[t]).0@,
                    ) implies (exists|j: int|
                    0 <= j < r@.len() && r@[j]@ == self.clients.entries@[t].0@) by {
                    if t < i {
                        let j = choose|j: int|
                            0 <= j < r0.len() && r0[j]@ == self.clients.entries@[t].0@;
                        assert(r@[j]@ == self.clients.entries@[t].0@);
                    } else {
                        assert(!is_excluded);
                        assert(r@[r@.len() - 1]@ == self.clients.entries@[i as int].0@);
                    }
                }
            }
            i = i + 1;
        }
        self.logger.log(now, entry);
        proof {
            assert forall|u: Seq<char>|
                (exists|i: int| 0 <= i < r@.len() && r@[i]@ == u) <==> (old(self).clients@.contains_key(u) && !excluded(exclude@, u)) by {
                crate::kv::lemma_str_map_contains(self.clients.entries@, u);
                if exists|i: int| 0 <= i < r@.len() && r@[i]@ == u {
                    let j = choose|j: int| 0 <= j < r@.len() && r@[j]@ == u;
                    let t = choose|t: int|
                        0 <= t < n && r@[j]@ == self.clients.entries@[t].0@ && !excluded(
                            exclude@,
                            r@[j]@,
                        );
                    assert(self.clients.entries@[t].0@ == u);
                }
                if old(self).clients@.contains_key(u) && !excluded(exclude@, u) {
                    let t = choose|t: int|
                        0 <= t < self.clients.entries@.len() && self.clients.entries@[t].0@ == u;
                    assert(!excluded(exclude@, self.clients.entries@[t].0@));
                }
            }
        }
        r
    }
}



/// The ids among `aff` whose entity is live in `m` and managed by `u`, in
/// submission order.
pub open spec fn affected_for(
    aff: Seq<crate::entities::EntityId>,
    m: Map<u128, crate::entities::Entity>,
    u: Seq<char>,
) -> Seq<crate::entities::EntityId>
    decreases aff.len(),
{
    if aff.len() == 0 {
        Seq::empty()
    } else if m.contains_key(aff.last().0) && m[aff.last().0].manager@ == u {
        affected_for(aff.drop_last(), m, u).push(aff.last())
    } else {
        affected_for(aff.drop_last(), m, u)
    }
}

/// `affected_for` holds exactly the submitted ids managed by `u`.
pub proof fn lemma_affected_for(
    aff: Seq<crate::entities::EntityId>,
    m: Map<u128, crate::entities::Entity>,
    u: Seq<char>,
    k: u128,
)
    ensures
        (exists|i: int|
            0 <= i < affected_for(aff, m, u).len() && affected_for(aff, m, u)[i].0 == k) <==> ((
        exists|t: int| 0 <= t < aff.len() && aff[t].0 == k) && m.contains_key(k) && m[k].manager@
            == u),
    decreases aff.len(),
{
    let r = affected_for(aff, m, u);
    if aff.len() > 0 {
        let rest = aff.drop_last();
        lemma_affected_for(rest, m, u, k);
        let rr = affected_for(rest, m, u);
        assert(forall|t: int| 0 <= t < rest.len() ==> rest[t] == aff[t]);
        if aff.last().0 == k {
            if m.contains_key(k) && m[k].manager@ == u {
                assert(r[r.len() - 1].0 == k);
                assert(aff[aff.len() - 1].0 == k);
            } else {
                if exists|i: int| 0 <= i < r.len() && r[i].0 == k {
                    let i = choose|i: int| 0 <= i < r.len() && r[i].0 == k;
                    assert(rr[i].0 == k);
                }
            }
        } else {
            if exists|i: int| 0 <= i < r.len() && r[i].0 == k {
                let i = choose|i: int| 0 <= i < r.len() && r[i].0 == k;
                if i < rr.len() {
                    assert(rr[i].0 == k);
                } else {
                    assert(r[i] == aff.last());
                }
            }
            if exists|i: int| 0 <= i < rr.len() && rr[i].0 == k {
                let i = choose|i: int| 0 <= i < rr.len() && rr[i].0 == k;
                if m.contains_key(aff.last().0) && m[aff.last().0].manager@ == u {
                    assert(r[i].0 == k);
                } else {
                    assert(r[i].0 == k);
                }
            }
            if exists|t: int| 0 <= t < aff.len() && aff[t].0 == k {
                let t = choose|t: int| 0 <= t < aff.len() && aff[t].0 == k;
                assert(t < rest.len());
                assert(rest[t].0 == k);
            }
        }
    }
}

/// The forwarded interaction: one message per other client, carrying the
/// affected ids that client manages.
pub open spec fn affect_effect(
    out: Vec<(String, Vec<crate::entities::EntityId>)>,
    clients: Map<Seq<char>, ClientInfo>,
    entities: Map<u128, crate::entities::Entity>,
    updater: Seq<char>,
    affected: Seq<crate::entities::EntityId>,
) -> bool {
    &&& (forall|j: int|
        0 <= j < out@.len() ==> clients.contains_key((#[trigger] out@[j]).0@) && out@[j].0@
            != updater)
    &&& (forall|u: Seq<char>|
        clients.contains_key(u) && u != updater ==> (exists|j: int|
            0 <= j < out@.len() && out@[j].0@ == u))
    &&& (forall|j: int|
        0 <= j < out@.len() ==> (#[trigger] out@[j]).1@ == affected_for(
            affected,
            entities,
            out@[j].0@,
        ))
}

/// What an update hands back: the per-client interaction messages to
/// forward (empty unless the update was an authorized interaction).
pub struct UpdateEffects {
    pub affect: Vec<(String, Vec<crate::entities::EntityId>)>,
}

impl SessionActor {
    /// Apply a client-submitted update under manager authority.
    ///
    /// Interactions are forwarded, never applied.  World changes touch only
    /// what the updater manages, and a submitted entity whose manager is
    /// not a current client is dropped, so the authority invariant is kept.
    /// Pause, resume and end drive the status machine under host (or
    /// pauser) authority.  Whatever the variant, the updater's activity
    /// stamp is refreshed.
    #[verifier::rlimit(60)]
    pub fn handle_update(&mut self, updater: &String, update: Update, now: u64) -> (fx:
        UpdateEffects)
        requires
            old(self).wf(),
            old(self).clients@.contains_key(updater@),
            crate::messages::update_wf(update),
            old(self).time_inv(now),
        ensures
            final(self).wf(),
            old(self).managers_are_clients() ==> final(self).managers_are_clients(),
            // identity, clocks being read, and the log are untouched
            final(self).id == old(self).id,
            final(self).host == old(self).host,
            final(self).started_at == old(self).started_at,
            final(self).ended_at == old(self).ended_at,
            final(self).resolving == old(self).resolving,
            final(self).logger == old(self).logger,
            final(self).duration == old(self).duration,
            // roster: only the updater's entry moves
            final(self).clients@.dom() == old(self).clients@.dom(),
            forall|u: Seq<char>|
                old(self).clients@.contains_key(u) && u != updater@ ==> #[trigger] final(self).clients@[u] == old(self).clients@[u],
            final(self).clients@[updater@].last_update == now,
            final(self).clients@[updater@].status == (match update {
                Update::Status(st) => st,
                _ => old(self).clients@[updater@].status,
            }),
            // the pause clock moves only on an honoured resume
            final(self).pause_time != old(self).pause_time ==> update is Resume && old(self).status is Standby && final(self).status is InProgress,
            // status transitions
            (update is Affect || update is Entities || update is ChangeSpawn || update is Stats
                || update is Status) ==> final(self).status == old(self).status && final(self).pause_time == old(self).pause_time && final(self).paused_at == old(self).paused_at,
            (update matches Update::Pause(d) ==> (if (match d {
                None => updater@ == old(self).host@,
                Some(dd) => true,
            }) && old(self).status is InProgress {
                &&& (final(self).status matches SessionStatus::Standby {
                    paused_at: p,
                    for_duration: fd,
                    by: b,
                } && p == now && fd == d && (b matches Some(bu) && bu@ == updater@))
                &&& final(self).paused_at == Some(now)
                &&& final(self).pause_time == old(self).pause_time
            } else {
                final(self).status == old(self).status && final(self).pause_time == old(self).pause_time && final(self).paused_at == old(self).paused_at
            })),
            (update is Resume ==> (if (old(self).status matches SessionStatus::Standby {
                paused_at: p,
                for_duration: fd,
                by: b,
            } && (updater@ == old(self).host@ || (b matches Some(bu) && bu@ == updater@))) {
                &&& (final(self).status matches SessionStatus::InProgress(e) && e as int == final(self).spec_elapsed(now))
                &&& final(self).paused_at is None
                &&& final(self).pause_time == old(self).pause_time + (now - old(self).paused_at->0)
            } else {
                final(self).status == old(self).status && final(self).pause_time == old(self).pause_time && final(self).paused_at == old(self).paused_at
            })),
            (update is End ==> (if updater@ == old(self).host@ && old(self).status is InProgress {
                final(self).status is PostSession
            } else {
                final(self).status == old(self).status
            }) && final(self).pause_time == old(self).pause_time && final(self).paused_at == old(self).paused_at),
            // state changes per variant
            (update is Affect || update is Resume || update is End || update is Status) ==> final(self).state == old(self).state,
            update is Pause ==> final(self).state == old(self).state,
            (update matches Update::ChangeSpawn(sp) ==> final(self).state == (SessionState {
                spawn: if updater@ == old(self).host@ {
                    sp
                } else {
                    old(self).state.spawn
                },
                ..old(self).state
            })),
            (update matches Update::Stats(st) ==> final(self).state.stats@ == old(self).state.stats@.insert(updater@, st) && final(self).state == (SessionState {
                stats: final(self).state.stats,
                ..old(self).state
            })),
            // the world is edited only under authority
            update is Entities ==> final(self).state.stats == old(self).state.stats && final(self).state.data == old(self).state.data && final(self).state.spawn == old(self).state.spawn && final(self).state.elapsed == old(self).state.elapsed,
            update is Entities ==> (forall|k: u128|
                old(self).state.entities@.contains_key(k) && (#[trigger] old(self).state.entities@[k]).manager@ != updater@ ==> final(self).state.entities@.contains_key(k) && final(self).state.entities@[k] == old(self).state.entities@[k]),
            update is Entities ==> (forall|k: u128|
                #![trigger old(self).state.destroyed_entities@.contains_key(k)]
                old(self).state.destroyed_entities@.contains_key(k) ==> final(self).state.destroyed_entities@.contains_key(k) && final(self).state.destroyed_entities@[k] == old(self).state.destroyed_entities@[k]),
            // the forwarded interaction
            (update matches Update::Affect { affector, affectors, affected } ==> (if (old(self).state.entities@.contains_key(affector.0) && old(self).state.entities@[affector.0].manager@ == updater@) {
                affect_effect(
                    fx.affect,
                    old(self).clients@,
                    old(self).state.entities@,
                    updater@,
                    affected@,
                )
            } else {
                fx.affect@.len() == 0
            })),
            !(update is Affect) ==> fx.affect@.len() == 0,
    {
        let new_status: Option<ClientStatus> = match &update {
            Update::Status(st) => Some(*st),
            _ => None,
        };
        let mut affect_out: Vec<(String, Vec<crate::entities::EntityId>)> = Vec::new();
        match update {
            Update::Affect { affector, affectors, affected } => {
                let authorized = match self.state.entities.get(&affector) {
                    Some(e) => e.manager.eq(updater),
                    None => false,
                };
                if authorized {
                    let n = self.clients.entries.len();
                    let mut i: usize = 0;
                    while i < n
                        invariant
                            self.wf(),
                            *self == *old(self),
                            n == self.clients.entries@.len(),
                            i <= n,
                            forall|j: int|
                                0 <= j < affect_out@.len() ==> self.clients@.contains_key(
                                    (#[trigger] affect_out@[j]).0@,
                                ) && affect_out@[j].0@ != updater@,
                            forall|j: int|
                                0 <= j < affect_out@.len() ==> (#[trigger] affect_out@[j]).1@
                                    == affected_for(
                                    affected@,
                                    self.state.entities@,
                                    affect_out@[j].0@,
                                ),
                            forall|t: int|
                                0 <= t < i && (#[trigger] self.clients.entries@[t]).0@ != updater@
                                    ==> (exists|j: int|
                                    0 <= j < affect_out@.len() && affect_out@[j].0@
                                        == self.clients.entries@[t].0@),
                        decreases n - i,
                    {
                        let ghost out0 = affect_out@;
                        let user = &self.clients.entries[i].0;
                        proof {
                            crate::kv::lemma_str_map_index(self.clients.entries@, i as int);
                        }
                        if !user.eq(updater) {
                            let m = affected.len();
                            let mut lst: Vec<crate::entities::EntityId> = Vec::new();
                            let mut t: usize = 0;
                            while t < m
                                invariant
                                    self.wf(),
                                    m == affected@.len(),
                                    t <= m,
                                    i < n,
                                    n == self.clients.entries@.len(),
                                    user@ == self.clients.entries@[i as int].0@,
                                    lst@ == affected_for(
                                        affected@.take(t as int),
                                        self.state.entities@,
                                        user@,
                                    ),
                                decreases m - t,
                            {
                                proof {
                                    assert(affected@.take(t as int + 1).drop_last()
                                        =~= affected@.take(t as int));
                                    assert(affected@.take(t as int + 1).last()
                                        == affected@[t as int]);
                                }
                                let id = affected[t];
                                let keep = match self.state.entities.get(&id) {
                                    Some(e) => e.manager.eq(user),
                                    None => false,
                                };
                                if keep {
                                    lst.push(id);
                                }
                                t = t + 1;
                            }
                            proof {
                                assert(affected@.take(m as int) =~= affected@);
                            }
                            affect_out.push((user.clone(), lst));
                            proof {
                                assert forall|j: int|
                                    0 <= j < affect_out@.len() implies (
                                #[trigger] affect_out@[j]).1@ == affected_for(
                                    affected@,
                                    self.state.entities@,
                                    affect_out@[j].0@,
                                ) by {
                                    if j < out0.len() {
                                        assert(affect_out@[j] == out0[j]);
                                    }
                                }
                            }
                        }
                        proof {
                            assert forall|t: int|
                                0 <= t < i + 1 && (#[trigger] self.clients.entries@[t]).0@
                                    != updater@ implies (exists|j: int|
                                0 <= j < affect_out@.len() && affect_out@[j].0@
                                    == self.clients.entries@[t].0@) by {
                                if t < i {
                                    let j = choose|j: int|
                                        0 <= j < out0.len() && out0[j].0@
                                            == self.clients.entries@[t].0@;
                                    assert(affect_out@[j].0@ == self.clients.entries@[t].0@);
                                } else {
                                    assert(affect_out@[affect_out@.len() - 1].0@
                                        == self.clients.entries@[i as int].0@);
                                }
                            }
                        }
                        i = i + 1;
                    }
                    proof {
                        assert forall|u: Seq<char>|
                            self.clients@.contains_key(u) && u != updater@ implies (exists|j: int|
                            0 <= j < affect_out@.len() && affect_out@[j].0@ == u) by {
                            crate::kv::lemma_str_map_contains(self.clients.entries@, u);
                            let t = choose|t: int|
                                0 <= t < self.clients.entries@.len()
                                    && self.clients.entries@[t].0@ == u;
                            assert(self.clients.entries@[t].0@ != updater@);
                        }
                        assert(affect_effect(
                            affect_out,
                            self.clients@,
                            self.state.entities@,
                            updater@,
                            affected@,
                        ));
                    }
                }
            }
            Update::Entities { active, kill_list, spawns } => {
                let n = active.0.entries.len();
                let mut i: usize = 0;
                while i < n
                    invariant
                        old(self).wf(),
                        self.wf(),
                        active.wf(),
                        n == active.0.entries@.len(),
                        i <= n,
                        *self == (SessionActor { state: self.state, ..*old(self) }),
                        self.state.stats == old(self).state.stats,
                        self.state.data == old(self).state.data,
                        self.state.spawn == old(self).state.spawn,
                        self.state.elapsed == old(self).state.elapsed,
                        self.state.destroyed_entities == old(self).state.destroyed_entities,
                        forall|k: u128|
                            old(self).state.entities@.contains_key(k) && (#[trigger] old(self).state.entities@[k]).manager@ != updater@
                                ==> self.state.entities@.contains_key(k)
                                && self.state.entities@[k] == old(self).state.entities@[k],
                        old(self).managers_are_clients() ==> self.managers_are_clients(),
                    decreases n - i,
                {
                    let id = active.0.entries[i].0;
                    let ent = &active.0.entries[i].1;
                    proof {
                        crate::kv::lemma_id_map_index(active.0.entries@, i as int);
                    }
                    let authorized = match self.state.entities.get(&crate::entities::EntityId(id)) {
                        Some(cur) => cur.manager.eq(updater),
                        None => false,
                    };
                    if authorized && self.clients.contains_key(&ent.manager) {
                        let ghost pre = self.state;
                        proof {
                            assert(active@[id].wf());
                            assert(ent.wf());
                        }
                        self.state.apply_active(&crate::entities::EntityId(id), ent.duplicate());
                        proof {
                            assert forall|k: u128|
                                old(self).state.entities@.contains_key(k) && (#[trigger] old(self).state.entities@[k]).manager@ != updater@ implies self.state.entities@.contains_key(
                                k,
                            ) && self.state.entities@[k] == old(self).state.entities@[k] by {
                                assert(pre.entities@.contains_key(k) && pre.entities@[k] == old(
                                    self,
                                ).state.entities@[k]);
                                assert(k != id);
                            }
                            if old(self).managers_are_clients() {
                                assert forall|k: u128| self.state.entities@.contains_key(
                                    k,
                                ) implies self.clients@.contains_key(
                                    (#[trigger] self.state.entities@[k]).manager@,
                                ) by {
                                    if k != id {
                                        assert(self.state.entities@[k] == pre.entities@[k]);
                                    }
                                }
                            }
                        }
                    }
                    i = i + 1;
                }
                let kn = kill_list.len();
                let mut i2: usize = 0;
                while i2 < kn
                    invariant
                        old(self).wf(),
                        self.wf(),
                        kn == kill_list@.len(),
                        i2 <= kn,
                        *self == (SessionActor { state: self.state, ..*old(self) }),
                        self.state.stats == old(self).state.stats,
                        self.state.data == old(self).state.data,
                        self.state.spawn == old(self).state.spawn,
                        self.state.elapsed == old(self).state.elapsed,
                        forall|k: u128|
                            #![trigger old(self).state.destroyed_entities@.contains_key(k)]
                            old(self).state.destroyed_entities@.contains_key(k)
                                ==> self.state.destroyed_entities@.contains_key(k)
                                && self.state.destroyed_entities@[k]
                                == old(self).state.destroyed_entities@[k],
                        forall|k: u128|
                            old(self).state.entities@.contains_key(k) && (#[trigger] old(self).state.entities@[k]).manager@ != updater@
                                ==> self.state.entities@.contains_key(k)
                                && self.state.entities@[k] == old(self).state.entities@[k],
                        old(self).managers_are_clients() ==> self.managers_are_clients(),
                    decreases kn - i2,
                {
                    let id = kill_list[i2];
                    let authorized = match self.state.entities.get(&id) {
                        Some(cur) => cur.manager.eq(updater),
                        None => false,
                    };
                    if authorized {
                        let ghost pre = self.state;
                        self.state.kill_entity(&id);
                        proof {
                            assert forall|k: u128|
                                old(self).state.destroyed_entities@.contains_key(
                                    k,
                                ) implies self.state.destroyed_entities@.contains_key(k)
                                && #[trigger] self.state.destroyed_entities@[k] == old(self).state.destroyed_entities@[k] by {
                                assert(pre.destroyed_entities@.contains_key(k)
                                    && pre.destroyed_entities@[k] == old(self).state.destroyed_entities@[k]);
                                assert(!pre.entities@.contains_key(k));
                                assert(k != id.0);
                            }
                            assert forall|k: u128|
                                old(self).state.entities@.contains_key(k) && (#[trigger] old(self).state.entities@[k]).manager@ != updater@ implies self.state.entities@.contains_key(
                                k,
                            ) && self.state.entities@[k] == old(self).state.entities@[k] by {
                                assert(pre.entities@.contains_key(k) && pre.entities@[k] == old(
                                    self,
                                ).state.entities@[k]);
                                if k == id.0 {
                                    assert(pre.entities@[k].manager@ == updater@);
                                }
                            }
                            if old(self).managers_are_clients() {
                                assert forall|k: u128| self.state.entities@.contains_key(
                                    k,
                                ) implies self.clients@.contains_key(
                                    (#[trigger] self.state.entities@[k]).manager@,
                                ) by {
                                    assert(self.state.entities@[k] == pre.entities@[k]);
                                }
                            }
                        }
                    }
                    i2 = i2 + 1;
                }
                let sn = spawns.0.entries.len();
                let mut i3: usize = 0;
                while i3 < sn
                    invariant
                        old(self).wf(),
                        self.wf(),
                        spawns.wf(),
                        sn == spawns.0.entries@.len(),
                        i3 <= sn,
                        *self == (SessionActor { state: self.state, ..*old(self) }),
                        self.state.stats == old(self).state.stats,
                        self.state.data == old(self).state.data,
                        self.state.spawn == old(self).state.spawn,
                        self.state.elapsed == old(self).state.elapsed,
                        forall|k: u128|
                            #![trigger old(self).state.destroyed_entities@.contains_key(k)]
                            old(self).state.destroyed_entities@.contains_key(k)
                                ==> self.state.destroyed_entities@.contains_key(k)
                                && self.state.destroyed_entities@[k]
                                == old(self).state.destroyed_entities@[k],
                        forall|k: u128|
                            old(self).state.entities@.contains_key(k) && (#[trigger] old(self).state.entities@[k]).manager@ != updater@
                                ==> self.state.entities@.contains_key(k)
                                && self.state.entities@[k] == old(self).state.entities@[k],
                        old(self).managers_are_clients() ==> self.managers_are_clients(),
                    decreases sn - i3,
                {
                    let pid = spawns.0.entries[i3].0;
                    let ent = &spawns.0.entries[i3].1;
                    proof {
                        crate::kv::lemma_id_map_index(spawns.0.entries@, i3 as int);
                    }
                    if !self.state.pending_spawns.contains_key(pid) && self.clients.contains_key(
                        &ent.manager,
                    ) {
                        let ghost pre = self.state;
                        proof {
                            assert(spawns@[pid].wf());
                            assert(ent.wf());
                        }
                        let assigned = self.state.spawn_entity(
                            &crate::entities::EntityId(pid),
                            ent.duplicate(),
                        );
                        proof {
                            assert forall|k: u128|
                                old(self).state.entities@.contains_key(k) && (#[trigger] old(self).state.entities@[k]).manager@ != updater@ implies self.state.entities@.contains_key(
                                k,
                            ) && self.state.entities@[k] == old(self).state.entities@[k] by {
                                assert(pre.entities@.contains_key(k) && pre.entities@[k] == old(
                                    self,
                                ).state.entities@[k]);
                                assert(k != assigned.0);
                            }
                            if old(self).managers_are_clients() {
                                assert forall|k: u128| self.state.entities@.contains_key(
                                    k,
                                ) implies self.clients@.contains_key(
                                    (#[trigger] self.state.entities@[k]).manager@,
                                ) by {
                                    if k != assigned.0 {
                                        assert(self.state.entities@[k] == pre.entities@[k]);
                                    }
                                }
                            }
                        }
                    }
                    i3 = i3 + 1;
                }
            }
            Update::ChangeSpawn(sp) => {
                let is_host = updater.eq(&self.host);
                if is_host {
                    self.state.spawn = sp;
                }
            }
            Update::Stats(st) => {
                self.state.stats.insert(updater.clone(), st);
            }
            Update::Status(_) => {}
            Update::Pause(d) => {
                let allowed = match d {
                    None => updater.eq(&self.host),
                    Some(_) => true,
                };
                let in_progress = match &self.status {
                    SessionStatus::InProgress(_) => true,
                    _ => false,
                };
                if allowed && in_progress {
                    self.toggle_timer(now);
                    self.status = SessionStatus::Standby {
                        paused_at: now,
                        for_duration: d,
                        by: Some(updater.clone()),
                    };
                }
            }
            Update::Resume => {
                let allowed = match &self.status {
                    SessionStatus::Standby { by, .. } => updater.eq(&self.host) || (match by {
                        Some(b) => b.eq(updater),
                        None => false,
                    }),
                    _ => false,
                };
                if allowed {
                    self.toggle_timer(now);
                    proof {
                        assert(self.pause_ok(now));
                    }
                    let e = self.elapsed(now);
                    self.status = SessionStatus::InProgress(e);
                }
            }
            Update::End => {
                let is_host = updater.eq(&self.host);
                let in_progress = match &self.status {
                    SessionStatus::InProgress(_) => true,
                    _ => false,
                };
                if is_host && in_progress {
                    self.status = SessionStatus::PostSession;
                }
            }
        }
        self.touch_client(updater, now, new_status);
        UpdateEffects { affect: affect_out }
    }
}



/// Ranked results: later end times come first.
pub open spec fn sorted_desc(s: Seq<(String, u64)>) -> bool {
    forall|a: int, b: int| 0 <= a < b < s.len() ==> s[a].1 >= s[b].1
}

/// Sort the results so that the latest end time comes first.  The output
/// is a permutation of the input.
pub fn sort_results_desc(v: Vec<(String, u64)>) -> (r: Vec<(String, u64)>)
    ensures
        r@.to_multiset() == v@.to_multiset(),
        sorted_desc(r@),
        r@.len() == v@.len(),
{
    let mut rest = v;
    let mut out: Vec<(String, u64)> = Vec::new();
    proof {
        out@.to_multiset_ensures();
        rest@.to_multiset_ensures();
        assert(out@.to_multiset().add(rest@.to_multiset()) =~= v@.to_multiset());
    }
    while rest.len() > 0
        invariant
            out@.to_multiset().add(rest@.to_multiset()) == v@.to_multiset(),
            sorted_desc(out@),
            out@.len() + rest@.len() == v@.len(),
            forall|a: int, b: int|
                0 <= a < out@.len() && 0 <= b < rest@.len() ==> out@[a].1 >= rest@[b].1,
        decreases rest@.len(),
    {
        let n = rest.len();
        let mut mi: usize = 0;
        let mut t: usize = 1;
        while t < n
            invariant
                n == rest@.len(),
                mi < n,
                t <= n,
                forall|x: int| 0 <= x < t ==> rest@[mi as int].1 >= rest@[x].1,
            decreases n - t,
        {
            if rest[t].1 > rest[mi].1 {
                mi = t;
            }
            t = t + 1;
        }
        let ghost pre_rest = rest@;
        let ghost pre_out = out@;
        let x = rest.remove(mi);
        out.push(x);
        proof {
            pre_rest.to_multiset_ensures();
            pre_out.to_multiset_ensures();
            assert(rest@.to_multiset() =~= pre_rest.to_multiset().remove(x));
            assert(out@.to_multiset() =~= pre_out.to_multiset().insert(x));
            assert(pre_rest.to_multiset().count(x) > 0) by {
                assert(pre_rest[mi as int] == x);
                assert(pre_rest.contains(x));
            }
            assert(out@.to_multiset().add(rest@.to_multiset()) =~= v@.to_multiset());
            assert forall|a: int, b: int|
                0 <= a < out@.len() && 0 <= b < rest@.len() implies out@[a].1 >= rest@[b].1 by {
                if b < mi {
                    assert(rest@[b] == pre_rest[b]);
                } else {
                    assert(rest@[b] == pre_rest[b + 1]);
                }
                if a < pre_out.len() {
                    assert(out@[a] == pre_out[a]);
                } else {
                    assert(out@[a] == x);
                }
            }
            assert forall|a: int, b: int| 0 <= a < b < out@.len() implies out@[a].1
                >= out@[b].1 by {
                if b < pre_out.len() {
                } else {
                    assert(out@[b] == x);
                    assert(pre_rest[mi as int] == x);
                    assert(out@[a] == pre_out[a]);
                }
            }
        }
    }
    proof {
        rest@.to_multiset_ensures();
        assert forall|e: (String, u64)| rest@.to_multiset().count(e) == 0 by {
            assert(!rest@.contains(e));
        }
        assert(rest@.to_multiset() =~= Multiset::<(String, u64)>::empty());
        assert(out@.to_multiset() =~= v@.to_multiset());
    }
    out
}

/// The accounts to settle and their session end times: scanning the rows
/// in order, each finished row whose (valid) account survived contributes
/// its end time, later rows replacing earlier ones for the same account.
pub open spec fn results_map_of(
    rows: Seq<PlayerSession>,
    stats: Map<Seq<char>, PlayerStats>,
) -> Map<Seq<char>, u64>
    decreases rows.len(),
{
    if rows.len() == 0 {
        Map::empty()
    } else {
        let m = results_map_of(rows.drop_last(), stats);
        let row = rows.last();
        if row.ended_at matches Some(e) && row.account_id matches Some(a)
            && crate::resolver::account_id_ok(a@) && stats.contains_key(row.user_id@)
            && stats[row.user_id@].death is None {
            m.insert(row.account_id->0@, row.ended_at->0)
        } else {
            m
        }
    }
}

/// A finished row that still has to be settled against the contract.
pub open spec fn row_needs_resolve(row: PlayerSession) -> bool {
    row.ended_at is Some && row.resolved_at is None && (row.account_id matches Some(a)
        && crate::resolver::account_id_ok(a@))
}

/// The settlement request `pr` is the one owed for `row`.
pub open spec fn resolve_matches(
    pr: PlayerSessionResolve,
    row: PlayerSession,
    stats: Map<Seq<char>, PlayerStats>,
    sid: u128,
) -> bool {
    &&& row_needs_resolve(row)
    &&& pr.session_id == sid
    &&& pr.account_id@ == row.account_id->0@
    &&& pr.xp == (if stats.contains_key(row.user_id@) && stats[row.user_id@].death is None {
        Some(stats[row.user_id@].xp_accrual)
    } else {
        None::<u128>
    })
}

/// The emitted settlement requests are exactly those owed for the rows
/// that still need settling.
pub open spec fn player_resolves_effect(
    prs: Vec<PlayerSessionResolve>,
    rows: Seq<PlayerSession>,
    stats: Map<Seq<char>, PlayerStats>,
    sid: u128,
) -> bool {
    &&& (forall|j: int|
        0 <= j < prs@.len() ==> (exists|i: int|
            0 <= i < rows.len() && resolve_matches(#[trigger] prs@[j], rows[i], stats, sid)))
    &&& (forall|i: int|
        0 <= i < rows.len() && row_needs_resolve(#[trigger] rows[i]) ==> (exists|j: int|
            0 <= j < prs@.len() && resolve_matches(prs@[j], rows[i], stats, sid)))
}

/// What the termination sequence asks the caller to do.
pub struct EndEffects {
    /// The session's (idempotent) end stamp, to write on the session row.
    pub ended_at: u64,
    /// One settlement request per finished, unsettled player session.
    pub player_resolves: Vec<PlayerSessionResolve>,
    /// The ranked results (latest end first).
    pub results: Vec<(String, u64)>,
    /// The pool settlement request, when a pool is attached and still open.
    pub session_resolve: Option<SessionResolve>,
    /// A pool was attached but its row is gone: log and wait.
    pub pool_missing: bool,
    /// Settlement is complete: the coordinator stops.
    pub stop: bool,
}

impl SessionActor {
    /// Mark every client that is not yet done as ended at `end`.
    fn mark_clients_ended(&mut self, end: u64)
        requires
            old(self).clients.wf(),
        ensures
            final(self).clients.wf(),
            final(self).clients@.dom() == old(self).clients@.dom(),
            forall|u: Seq<char>|
                old(self).clients@.contains_key(u) ==> {
                    let c = #[trigger] final(self).clients@[u];
                    let o = old(self).clients@[u];
                    c.started_at == o.started_at && c.last_update == o.last_update && c.ms == o.ms
                        && c.account_id == o.account_id && c.status == (match o.status {
                        ClientStatus::Ended(t) => ClientStatus::Ended(t),
                        _ => ClientStatus::Ended(end),
                    })
                },
            *final(self) == (SessionActor { clients: final(self).clients, ..*old(self) }),
    {
        let n = self.clients.entries.len();
        let mut i: usize = 0;
        while i < n
            invariant
                n == self.clients.entries@.len(),
                i <= n,
                old(self).clients.wf(),
                old(self).clients.entries@.len() == n,
                self.clients.wf(),
                self.clients@.dom() =~= old(self).clients@.dom(),
                *self == (SessionActor { clients: self.clients, ..*old(self) }),
                self.clients.entries@.len() == n,
                forall|j: int|
                    0 <= j < n ==> (#[trigger] self.clients.entries@[j]).0@ == old(self).clients.entries@[j].0@,
                forall|u: Seq<char>|
                    old(self).clients@.contains_key(u) ==> {
                        let c = #[trigger] self.clients@[u];
                        let o = old(self).clients@[u];
                        c.started_at == o.started_at && c.last_update == o.last_update && c.ms
                            == o.ms && c.account_id == o.account_id
                    },
                forall|j: int|
                    0 <= j < i ==> (#[trigger] self.clients@[old(self).clients.entries@[j].0@]).status
                        == (match old(self).clients@[old(self).clients.entries@[j].0@].status {
                        ClientStatus::Ended(t) => ClientStatus::Ended(t),
                        _ => ClientStatus::Ended(end),
                    }),
                forall|j: int|
                    i <= j < n ==> (#[trigger] self.clients@[old(self).clients.entries@[j].0@]).status
                        == old(self).clients@[old(self).clients.entries@[j].0@].status,
            decreases n - i,
        {
            let ghost pre = self.clients@;
            let ghost pre_entries = self.clients.entries@;
            let ghost k = old(self).clients.entries@[i as int].0@;
            let hit = match self.clients.entries[i].1.status {
                ClientStatus::Ended(_) => false,
                _ => true,
            };
            proof {
                crate::kv::lemma_str_map_index(self.clients.entries@, i as int);
                assert(self.clients.entries@[i as int].0@ == k);
                assert(pre[k] == pre_entries[i as int].1);
            }
            if hit {
                let c: &mut ClientInfo = &mut self.clients.entries[i].1;
                c.status = ClientStatus::Ended(end);
                proof {
                    let v = self.clients.entries@[i as int].1;
                    assert(v.started_at == pre_entries[i as int].1.started_at);
                    assert(v.last_update == pre_entries[i as int].1.last_update);
                    assert(v.ms == pre_entries[i as int].1.ms);
                    assert(v.account_id == pre_entries[i as int].1.account_id);
                    assert(self.clients.entries@ =~= pre_entries.update(
                        i as int,
                        (pre_entries[i as int].0, v),
                    ));
                    crate::kv::lemma_str_map_update(
                        pre_entries,
                        i as int,
                        (pre_entries[i as int].0, v),
                    );
                    assert(self.clients@ == pre.insert(k, v));
                    assert(self.clients@.dom() =~= pre.dom());
                    assert forall|j: int| 0 <= j < n && j != i implies old(self).clients.entries@[j].0@
                        != k by {
                        crate::kv::lemma_str_distinct_pair(
                            old(self).clients.entries@,
                            j,
                            i as int,
                        );
                    }
                    assert forall|j: int| 0 <= j < n && j != i implies self.clients@[old(self).clients.entries@[j].0@]
                        == pre[old(self).clients.entries@[j].0@] by {
                        assert(old(self).clients.entries@[j].0@ != k);
                    }
                    assert forall|u: Seq<char>| old(self).clients@.contains_key(u) && u != k
                        implies self.clients@[u] == pre[u] by {}
                    assert(self.clients@[k] == v);
                }
            }
            i = i + 1;
        }
        proof {
            assert forall|u: Seq<char>| old(self).clients@.contains_key(u) implies (
            #[trigger] self.clients@[u]).status == (match old(self).clients@[u].status {
                ClientStatus::Ended(t) => ClientStatus::Ended(t),
                _ => ClientStatus::Ended(end),
            }) by {
                crate::kv::lemma_str_map_contains(old(self).clients.entries@, u);
                let jj = choose|j: int|
                    0 <= j < old(self).clients.entries@.len() && old(self).clients.entries@[j].0@
                        == u;
                assert(self.clients@[old(self).clients.entries@[jj].0@] == self.clients@[u]);
            }
        }
    }

    /// The termination sequence.
    ///
    /// The end stamp is set once and reused on replays; every client is
    /// marked ended; the settlement phase begins (`resolving`).  From the
    /// player-session rows the caller loaded, one settlement request is
    /// owed per finished, unsettled row with a valid account; the survivors
    /// among them form the ranked results.  A pool that is attached and
    /// still open receives a `SessionResolve`; a pool already resolved
    /// never does.  The coordinator stops once everything is settled.
    #[verifier::rlimit(100)]
    #[verifier::spinoff_prover]
    pub fn handle_session_end(
        &mut self,
        now: u64,
        rows: &Vec<PlayerSession>,
        pool: Option<&crate::models::PoolRef>,
    ) -> (fx: EndEffects)
        requires
            old(self).wf(),
            old(self).time_inv(now),
            forall|i: int|
                0 <= i < rows@.len() && (#[trigger] rows@[i]).ended_at is Some ==> old(
                    self,
                ).state.stats@.contains_key(rows@[i].user_id@),
        ensures
            final(self).wf(),
            old(self).managers_are_clients() ==> final(self).managers_are_clients(),
            // the end stamp is written once and never changes
            old(self).ended_at matches Some(e) ==> final(self).ended_at == Some(e) && fx.ended_at
                == e && final(self).pause_time == old(self).pause_time && final(self).paused_at
                == old(self).paused_at,
            old(self).ended_at is None ==> final(self).ended_at == Some(now) && fx.ended_at == now
                && (final(self).pause_time, final(self).paused_at) == spec_toggle(
                old(self).pause_time,
                old(self).paused_at,
                now,
            ),
            // every client ends, each keeping an earlier end stamp
            final(self).clients@.dom() == old(self).clients@.dom(),
            forall|u: Seq<char>|
                old(self).clients@.contains_key(u) ==> (#[trigger] final(self).clients@[u]).status
                    == (match old(self).clients@[u].status {
                    ClientStatus::Ended(t) => ClientStatus::Ended(t),
                    _ => ClientStatus::Ended(fx.ended_at),
                }),
            // the settlement phase is (re)opened
            final(self).resolving == Some(now),
            // nothing else moves
            final(self).state == old(self).state,
            final(self).status == old(self).status,
            final(self).started_at == old(self).started_at,
            final(self).host == old(self).host,
            final(self).logger == old(self).logger,
            final(self).pool_id == old(self).pool_id,
            final(self).id == old(self).id,
            // the owed per-player settlements
            player_resolves_effect(
                fx.player_resolves,
                rows@,
                old(self).state.stats@,
                old(self).id,
            ),
            // the ranked results: the surviving finished accounts, latest
            // end first
            sorted_desc(fx.results@),
            fx.results@.len() == results_map_of(rows@, old(self).state.stats@).dom().len(),
            forall|j: int|
                0 <= j < fx.results@.len() ==> results_map_of(
                    rows@,
                    old(self).state.stats@,
                ).contains_key((#[trigger] fx.results@[j]).0@) && results_map_of(
                    rows@,
                    old(self).state.stats@,
                )[fx.results@[j].0@] == fx.results@[j].1,
            forall|a: Seq<char>|
                results_map_of(rows@, old(self).state.stats@).contains_key(a) ==> (exists|j: int|
                    0 <= j < fx.results@.len() && fx.results@[j].0@ == a),
            // a pool is settled only while it is still open
            fx.session_resolve is Some <==> (old(self).pool_id is Some && (pool matches Some(p)
                && p.resolved_at is None)),
            fx.session_resolve matches Some(sr) ==> sr.session_id == old(self).id && sr.pool_id@
                == old(self).pool_id->0@ && sr.results@ == fx.results@,
            fx.pool_missing == (old(self).pool_id is Some && pool is None),
            // the coordinator stops once everything is settled
            fx.stop == ((forall|i: int|
                0 <= i < rows@.len() ==> (#[trigger] rows@[i]).resolved_at is Some) && ((old(
                self,
            ).pool_id is None) || (pool matches Some(p) && p.resolved_at is Some))),
    {
        let end = match self.ended_at {
            Some(e) => e,
            None => {
                self.toggle_timer(now);
                self.ended_at = Some(now);
                now
            }
        };
        self.mark_clients_ended(end);
        self.resolving = Some(now);
        let ghost stats_map = self.state.stats@;
        let mut acc: crate::kv::StrMap<u64> = crate::kv::StrMap::new();
        let mut prs: Vec<PlayerSessionResolve> = Vec::new();
        let n = rows.len();
        let mut i: usize = 0;
        proof {
            assert(rows@.take(0) =~= Seq::<PlayerSession>::empty());
        }
        while i < n
            invariant
                self.wf(),
                n == rows@.len(),
                i <= n,
                acc.wf(),
                stats_map == self.state.stats@,
                self.id == old(self).id,
                self.state == old(self).state,
                forall|t: int|
                    0 <= t < n && (#[trigger] rows@[t]).ended_at is Some
                        ==> stats_map.contains_key(rows@[t].user_id@),
                acc@ == results_map_of(rows@.take(i as int), stats_map),
                forall|j: int|
                    0 <= j < prs@.len() ==> (exists|t: int|
                        0 <= t < i && resolve_matches(
                            #[trigger] prs@[j],
                            rows@[t],
                            stats_map,
                            self.id,
                        )),
                forall|t: int|
                    0 <= t < i && row_needs_resolve(#[trigger] rows@[t]) ==> (exists|j: int|
                        0 <= j < prs@.len() && resolve_matches(prs@[j], rows@[t], stats_map, self.id)),
            decreases n - i,
        {
            proof {
                assert(rows@.take(i as int + 1).drop_last() =~= rows@.take(i as int));
                assert(rows@.take(i as int + 1).last() == rows@[i as int]);
            }
            let ghost prs0 = prs@;
            let row = &rows[i];
            match &row.ended_at {
                Some(e) => {
                    let stats = match self.state.stats.get(&row.user_id) {
                        Some(s) => *s,
                        None => {
                            proof {
                                assert(false);
                            }
                            PlayerStats::default()
                        }
                    };
                    match &row.account_id {
                        Some(aid) => {
                            if crate::resolver::is_valid_account_id(aid) {
                                let xp: Option<u128> = match stats.death {
                                    Some(_) => None,
                                    None => {
                                        acc.insert(aid.clone(), *e);
                                        Some(stats.xp_accrual)
                                    }
                                };
                                let unresolved = match &row.resolved_at {
                                    None => true,
                                    Some(_) => false,
                                };
                                if unresolved {
                                    prs.push(
                                        PlayerSessionResolve {
                                            session_id: self.id,
                                            account_id: aid.clone(),
                                            xp,
                                        },
                                    );
                                }
                            }
                        }
                        None => {}
                    }
                }
                None => {}
            }
            proof {
                assert forall|j: int| 0 <= j < prs@.len() implies (exists|t: int|
                    0 <= t < i + 1 && resolve_matches(
                        #[trigger] prs@[j],
                        rows@[t],
                        stats_map,
                        self.id,
                    )) by {
                    if j < prs0.len() {
                        assert(prs@[j] == prs0[j]);
                        let t = choose|t: int|
                            0 <= t < i && resolve_matches(prs0[j], rows@[t], stats_map, self.id);
                        assert(resolve_matches(prs@[j], rows@[t], stats_map, self.id));
                    } else {
                        assert(resolve_matches(prs@[j], rows@[i as int], stats_map, self.id));
                    }
                }
                assert forall|t: int|
                    0 <= t < i + 1 && row_needs_resolve(#[trigger] rows@[t]) implies (exists|
                    j: int|
                    0 <= j < prs@.len() && resolve_matches(prs@[j], rows@[t], stats_map, self.id)) by {
                    if t < i {
                        let j = choose|j: int|
                            0 <= j < prs0.len() && resolve_matches(
                                prs0[j],
                                rows@[t],
                                stats_map,
                                self.id,
                            );
                        assert(prs@[j] == prs0[j]);
                    } else {
                        assert(resolve_matches(
                            prs@[prs@.len() - 1],
                            rows@[i as int],
                            stats_map,
                            self.id,
                        ));
                    }
                }
            }
            i = i + 1;
        }
        proof {
            assert(rows@.take(n as int) =~= rows@);
        }
        let ent_vec = acc_entries(acc);
        let ghost eseq = ent_vec@;
        let results = sort_results_desc(ent_vec);
        proof {
            assert(player_resolves_effect(prs, rows@, stats_map, self.id));
            eseq.to_multiset_ensures();
            results@.to_multiset_ensures();
            let m = results_map_of(rows@, stats_map);
            assert(rows@.take(n as int) == rows@);
            assert(acc@ == m);
            assert forall|j: int| 0 <= j < results@.len() implies m.contains_key(
                (#[trigger] results@[j]).0@,
            ) && m[results@[j].0@] == results@[j].1 by {
                assert(results@.contains(results@[j]));
                assert(results@.to_multiset().count(results@[j]) > 0);
                assert(eseq.to_multiset().count(results@[j]) > 0);
                assert(eseq.contains(results@[j]));
                let t = choose|t: int| 0 <= t < eseq.len() && eseq[t] == results@[j];
                assert(acc@.contains_key(eseq[t].0@) && acc@[eseq[t].0@] == eseq[t].1);
            }
            assert forall|a: Seq<char>|
                #![all_triggers]
                m.contains_key(a) implies (exists|j: int|
                0 <= j < results@.len() && results@[j].0@ == a) by {
                let t = choose|t: int| 0 <= t < eseq.len() && eseq[t].0@ == a;
                assert(eseq.contains(eseq[t]));
                assert(eseq.to_multiset().count(eseq[t]) > 0);
                assert(results@.to_multiset().count(eseq[t]) > 0);
                assert(results@.contains(eseq[t]));
                let j = choose|j: int| 0 <= j < results@.len() && results@[j] == eseq[t];
                assert(results@[j].0@ == a);
            }
        }
        let mut all_resolved = true;
        let mut i2: usize = 0;
        while i2 < n
            invariant
                n == rows@.len(),
                i2 <= n,
                all_resolved == (forall|t: int|
                    0 <= t < i2 ==> (#[trigger] rows@[t]).resolved_at is Some),
            decreases n - i2,
        {
            let r_ok = match &rows[i2].resolved_at {
                Some(_) => true,
                None => false,
            };
            all_resolved = all_resolved && r_ok;
            i2 = i2 + 1;
        }
        let mut session_resolve: Option<SessionResolve> = None;
        let mut pool_missing = false;
        let mut stop = false;
        match &self.pool_id {
            Some(pid) => {
                match pool {
                    Some(p) => {
                        let resolved = match &p.resolved_at {
                            Some(_) => true,
                            None => false,
                        };
                        if resolved {
                            if all_resolved {
                                stop = true;
                            }
                        } else {
                            let mut rcopy: Vec<(String, u64)> = Vec::new();
                            let rn = results.len();
                            let mut t: usize = 0;
                            while t < rn
                                invariant
                                    rn == results@.len(),
                                    t <= rn,
                                    rcopy@.len() == t,
                                    forall|j: int| 0 <= j < t ==> rcopy@[j] == results@[j],
                                decreases rn - t,
                            {
                                let pair = &results[t];
                                rcopy.push((pair.0.clone(), pair.1));
                                proof {
                                    assert(rcopy@[t as int] == results@[t as int]);
                                }
                                t = t + 1;
                            }
                            proof {
                                assert(rcopy@ =~= results@);
                            }
                            session_resolve = Some(
                                SessionResolve {
                                    session_id: self.id,
                                    results: rcopy,
                                    pool_id: pid.clone(),
                                },
                            );
                        }
                    }
                    None => {
                        pool_missing = true;
                    }
                }
            }
            None => {
                if all_resolved {
                    stop = true;
                }
            }
        }
        let fx = EndEffects {
            ended_at: end,
            player_resolves: prs,
            results,
            session_resolve,
            pool_missing,
            stop,
        };
        proof {
            let m = results_map_of(rows@, stats_map);
            assert forall|a: Seq<char>| m.contains_key(a) implies (exists|j: int|
                0 <= j < fx.results@.len() && fx.results@[j].0@ == a) by {
                let j = choose|j: int| 0 <= j < fx.results@.len() && fx.results@[j].0@ == a;
            }
        }
        fx
    }
}

/// The accumulated results as a vector of entries.
fn acc_entries(acc: crate::kv::StrMap<u64>) -> (r: Vec<(String, u64)>)
    requires
        acc.wf(),
    ensures
        r@ == acc.entries@,
        crate::kv::str_keys_distinct(r@),
        forall|j: int|
            0 <= j < r@.len() ==> acc@.contains_key((#[trigger] r@[j]).0@) && acc@[r@[j].0@]
                == r@[j].1,
        forall|a: Seq<char>|
            acc@.contains_key(a) ==> (exists|j: int| 0 <= j < r@.len() && r@[j].0@ == a),
        r@.len() == acc@.dom().len(),
{
    proof {
        crate::kv::lemma_str_map_len(acc.entries@);
        assert forall|j: int| 0 <= j < acc.entries@.len() implies acc@.contains_key(
            (#[trigger] acc.entries@[j]).0@,
        ) && acc@[acc.entries@[j].0@] == acc.entries@[j].1 by {
            crate::kv::lemma_str_map_index(acc.entries@, j);
        }
        assert forall|a: Seq<char>| acc@.contains_key(a) implies (exists|j: int|
            0 <= j < acc.entries@.len() && acc.entries@[j].0@ == a) by {
            crate::kv::lemma_str_map_contains(acc.entries@, a);
        }
    }
    acc.entries
}



/// Relies on `chrono::Local::now` (via `DateTime::timestamp_millis`):
/// milliseconds since the Unix epoch, negative before 1970.  Nothing more
/// can be promised of a clock reading.
#[verifier::external_body]
fn wall_clock_ms() -> (r: i64) {
    chrono::Local::now().timestamp_millis()
}

/// The wall clock as the coordinator's time: clamped into `0..=TIME_LIMIT`
/// so that every handler's clock arithmetic stays in bounds.
pub fn now_ms() -> (r: u64)
    ensures
        r <= TIME_LIMIT,
{
    let t = wall_clock_ms();
    if t < 0 {
        0
    } else {
        let u = t as u64;
        if u > TIME_LIMIT {
            TIME_LIMIT
        } else {
            u
        }
    }
}


} // verus!
