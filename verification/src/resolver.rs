//! The global resolver: the singleton that reconciles pool results with the
//! staking contract and replays unfinished settlements found at startup.
//!
//! The contract calls themselves (`get_pools`, `assert_pool_result`,
//! `distribute_stakes`, `give_xp`, `kill_character`) suspend and live with
//! the caller; this module decides, from plain values, which call to make
//! and what to record afterwards.

use vstd::prelude::*;
use crate::models::{PlayerSession, PoolRef, Session};

verus! {

/// Whether a string is a syntactically valid external account id.  The
/// exact format is the account-id grammar of the chain's SDK; the session
/// logic only ever branches on validity.
pub uninterp spec fn account_id_ok(s: Seq<char>) -> bool;

/// Relies on `near_primitives::types::AccountId::from_str` (through the
/// account-id crate's `validate`): acceptance depends on the characters of
/// the string alone.
#[verifier::external_body]
pub fn is_valid_account_id(s: &String) -> (r: bool)
    ensures
        r == account_id_ok(s@),
{
    <near_primitives::types::AccountId as core::str::FromStr>::from_str(s.as_str()).is_ok()
}

/// What the resolver reads of one on-chain pool: whether a result has
/// already been asserted, and for each declared result key the accounts
/// that staked on it, in declaration order.
pub struct PoolView {
    pub has_result: bool,
    pub required_stakes: Vec<(String, Vec<String>)>,
}

/// The first declared result that `aid` settles: either `aid` is itself a
/// result key, or `aid` staked on it.
pub open spec fn result_for_account(stakes: Seq<(String, Vec<String>)>, aid: Seq<char>) -> Option<
    Seq<char>,
>
    decreases stakes.len(),
{
    if stakes.len() == 0 {
        None
    } else if stakes[0].0@ == aid || (exists|j: int|
        0 <= j < stakes[0].1@.len() && stakes[0].1@[j]@ == aid) {
        Some(stakes[0].0@)
    } else {
        result_for_account(stakes.drop_first(), aid)
    }
}

/// The winning result key: scan the ranked results in order; the first
/// account that appears among the declared results (as a key, or among the
/// accounts that staked on a key) wins.
pub open spec fn spec_winner(results: Seq<(String, u64)>, stakes: Seq<(String, Vec<String>)>)
    -> Option<Seq<char>>
    decreases results.len(),
{
    if results.len() == 0 {
        None
    } else {
        match result_for_account(stakes, results[0].0@) {
            Some(r) => Some(r),
            None => spec_winner(results.drop_first(), stakes),
        }
    }
}

/// Search the declared stakes for the first result that `aid` settles.
fn find_result_for_account(stakes: &Vec<(String, Vec<String>)>, aid: &String) -> (r: Option<
    String,
>)
    ensures
        match r {
            Some(s) => result_for_account(stakes@, aid@) == Some(s@),
            None => result_for_account(stakes@, aid@) is None,
        },
{
    let n = stakes.len();
    let mut i: usize = 0;
    proof {
        assert(stakes@.skip(0) =~= stakes@);
    }
    while i < n
        invariant
            n == stakes@.len(),
            i <= n,
            result_for_account(stakes@, aid@) == result_for_account(
                stakes@.skip(i as int),
                aid@,
            ),
        decreases n - i,
    {
        proof {
            assert(stakes@.skip(i as int)[0] == stakes@[i as int]);
            assert(stakes@.skip(i as int).drop_first() =~= stakes@.skip(i as int + 1));
        }
        let entry = &stakes[i];
        if entry.0.eq(aid) {
            return Some(entry.0.clone());
        }
        let m = entry.1.len();
        let mut j: usize = 0;
        let mut staked = false;
        while j < m
            invariant
                i < n,
                n == stakes@.len(),
                m == entry.1@.len(),
                j <= m,
                entry.1@ == stakes@[i as int].1@,
                staked == (exists|t: int| 0 <= t < j && entry.1@[t]@ == aid@),
            decreases m - j,
        {
            if entry.1[j].eq(aid) {
                proof {
                    assert(entry.1@[j as int]@ == aid@);
                }
                staked = true;
            }
            j = j + 1;
        }
        if staked {
            return Some(entry.0.clone());
        }
        i = i + 1;
    }
    proof {
        assert(stakes@.skip(n as int) =~= Seq::<(String, Vec<String>)>::empty());
    }
    None
}

/// The winning account's declared result, scanning the ranked results in
/// order (first match wins).
pub fn winner(results: &Vec<(String, u64)>, stakes: &Vec<(String, Vec<String>)>) -> (r: Option<
    String,
>)
    ensures
        match r {
            Some(s) => spec_winner(results@, stakes@) == Some(s@),
            None => spec_winner(results@, stakes@) is None,
        },
{
    let n = results.len();
    let mut i: usize = 0;
    proof {
        assert(results@.skip(0) =~= results@);
    }
    while i < n
        invariant
            n == results@.len(),
            i <= n,
            spec_winner(results@, stakes@) == spec_winner(results@.skip(i as int), stakes@),
        decreases n - i,
    {
        proof {
            assert(results@.skip(i as int)[0] == results@[i as int]);
            assert(results@.skip(i as int).drop_first() =~= results@.skip(i as int + 1));
        }
        match find_result_for_account(stakes, &results[i].0) {
            Some(s) => {
                return Some(s);
            }
            None => {}
        }
        i = i + 1;
    }
    proof {
        assert(results@.skip(n as int) =~= Seq::<(String, u64)>::empty());
    }
    None
}

/// What the resolver decides to do with a `SessionResolve` request.
pub enum Resolution {
    /// The pool is no longer known to the contract: log and drop.
    PoolRemoved,
    /// The contract already holds a result for this pool: log and drop;
    /// nothing further is ever sent for it.
    AlreadyResolved,
    /// Assert the winner (if any) against the contract, then distribute the
    /// stakes.
    Settle(Option<String>),
}

/// Decide how to settle a pool, from the contract's view of it.
///
/// A pool that the contract no longer lists is dropped, one whose result is
/// already asserted is never settled again, and an open pool is settled for
/// the first ranked account that the declared stakes recognise.
pub fn decide_resolution(pool: Option<&PoolView>, results: &Vec<(String, u64)>) -> (r: Resolution)
    ensures
        pool is None <==> r is PoolRemoved,
        (match pool {
            Some(p) => p.has_result ==> r is AlreadyResolved,
            None => true,
        }),
        (match pool {
            Some(p) => !p.has_result ==> (match spec_winner(results@, p.required_stakes@) {
                Some(w) => (r matches Resolution::Settle(Some(s)) && s@ == w),
                None => r == Resolution::Settle(None::<String>),
            }),
            None => true,
        }),
{
    match pool {
        None => Resolution::PoolRemoved,
        Some(p) => {
            if p.has_result {
                Resolution::AlreadyResolved
            } else {
                Resolution::Settle(winner(results, &p.required_stakes))
            }
        }
    }
}

/// After the contract acknowledged `assert_pool_result` and
/// `distribute_stakes`, the local pool row is stamped resolved; a failed
/// call leaves it untouched, and the end sequence will retry.
pub fn record_settlement(pool: &mut PoolRef, succeeded: bool, now: u64)
    ensures
        succeeded ==> final(pool).resolved_at == Some(now),
        !succeeded ==> *final(pool) == *old(pool),
        final(pool).id == old(pool).id,
        final(pool).result == old(pool).result,
        final(pool).registered_at == old(pool).registered_at,
{
    if succeeded {
        pool.resolve(now);
    }
}

/// Whether a settlement request is acted on at all: the player-session row
/// it names must exist and must not have been settled already; anything
/// else is dropped.
pub fn player_resolution_due(row: Option<&PlayerSession>) -> (r: bool)
    ensures
        r == (row matches Some(p) && p.resolved_at is None),
{
    match row {
        Some(p) => match &p.resolved_at {
            None => true,
            Some(_) => false,
        },
        None => false,
    }
}

/// After the contract acknowledged `give_xp` (or `kill_character`), the
/// player-session row is stamped resolved; a failed call leaves it
/// untouched, and the end sequence will retry.
pub fn record_player_settlement(row: &mut PlayerSession, succeeded: bool, now: u64)
    ensures
        succeeded ==> final(row).resolved_at == Some(now),
        !succeeded ==> *final(row) == *old(row),
        final(row).session_id == old(row).session_id,
        final(row).user_id == old(row).user_id,
        final(row).account_id == old(row).account_id,
        final(row).created_at == old(row).created_at,
        final(row).ended_at == old(row).ended_at,
        final(row).info == old(row).info,
{
    if succeeded {
        row.resolved_at = Some(now);
    }
}

/// Whether a joined (session, pool, player-session) row still needs its end
/// sequence re-driven at startup: the session is over, but either its pool
/// or one of its player sessions has not been settled.
pub fn needs_redrive(
    session_ended: &Option<u64>,
    pool_resolved: &Option<u64>,
    player_resolved: &Option<u64>,
) -> (r: bool)
    ensures
        r == (session_ended is Some && (pool_resolved is None || player_resolved is None)),
{
    match session_ended {
        Some(_) => {
            match pool_resolved {
                None => true,
                Some(_) => match player_resolved {
                    None => true,
                    Some(_) => false,
                },
            }
        }
        None => false,
    }
}

/// The sessions to re-materialize at startup: those of the joined rows that
/// still need their end sequence, each at most once, in row order.
pub fn rehydrate(rows: &Vec<(Session, PoolRef, PlayerSession)>) -> (r: Vec<u128>)
    ensures
        forall|j: int, t: int| 0 <= j < t < r@.len() ==> r@[j] != r@[t],
        forall|s: u128|
            r@.contains(s) <==> (exists|i: int|
                0 <= i < rows@.len() && (#[trigger] rows@[i]).0.id == s && rows@[i].0.ended_at
                    is Some && (rows@[i].1.resolved_at is None || rows@[i].2.resolved_at
                    is None)),
{
    let n = rows.len();
    let mut r: Vec<u128> = Vec::new();
    let mut i: usize = 0;
    while i < n
        invariant
            n == rows@.len(),
            i <= n,
            forall|j: int, t: int| 0 <= j < t < r@.len() ==> r@[j] != r@[t],
            forall|s: u128|
                r@.contains(s) <==> (exists|t: int|
                    0 <= t < i && (#[trigger] rows@[t]).0.id == s && rows@[t].0.ended_at is Some
                        && (rows@[t].1.resolved_at is None || rows@[t].2.resolved_at is None)),
        decreases n - i,
    {
        let row = &rows[i];
        let ghost r0 = r@;
        let due = needs_redrive(&row.0.ended_at, &row.1.resolved_at, &row.2.resolved_at);
        let mut seen = false;
        if due {
            let rn = r.len();
            let mut j: usize = 0;
            while j < rn
                invariant
                    rn == r@.len(),
                    r@ == r0,
                    j <= rn,
                    seen == (exists|t: int| 0 <= t < j && r@[t] == rows@[i as int].0.id),
                    i < n,
                    n == rows@.len(),
                    row.0.id == rows@[i as int].0.id,
                decreases rn - j,
            {
                if r[j] == row.0.id {
                    proof {
                        assert(r@[j as int] == rows@[i as int].0.id);
                    }
                    seen = true;
                }
                j = j + 1;
            }
            if !seen {
                r.push(row.0.id);
            }
        }
        proof {
            let rowi = rows@[i as int];
            if due && !seen {
                assert(r@ == r0.push(rowi.0.id));
            } else {
                assert(r@ == r0);
            }
            if seen {
                let w = choose|t: int| 0 <= t < r0.len() && r0[t] == rowi.0.id;
                assert(r0.contains(rowi.0.id));
            }
            assert forall|s: u128|
                r@.contains(s) <==> (exists|t: int|
                    0 <= t < i + 1 && (#[trigger] rows@[t]).0.id == s && rows@[t].0.ended_at
                        is Some && (rows@[t].1.resolved_at is None || rows@[t].2.resolved_at
                        is None)) by {
                if r@.contains(s) {
                    let w = choose|w: int| 0 <= w < r@.len() && r@[w] == s;
                    if w < r0.len() {
                        assert(r0[w] == s);
                        assert(r0.contains(s));
                        let t = choose|t: int|
                            0 <= t < i && (#[trigger] rows@[t]).0.id == s && rows@[t].0.ended_at
                                is Some && (rows@[t].1.resolved_at is None
                                || rows@[t].2.resolved_at is None);
                        assert(rows@[t].0.id == s);
                    } else {
                        assert(due && !seen);
                        assert(s == rowi.0.id);
                        assert(rows@[i as int].0.id == s);
                    }
                }
                if exists|t: int|
                    0 <= t < i + 1 && (#[trigger] rows@[t]).0.id == s && rows@[t].0.ended_at
                        is Some && (rows@[t].1.resolved_at is None || rows@[t].2.resolved_at
                        is None) {
                    let t = choose|t: int|
                        0 <= t < i + 1 && (#[trigger] rows@[t]).0.id == s && rows@[t].0.ended_at
                            is Some && (rows@[t].1.resolved_at is None || rows@[t].2.resolved_at
                            is None);
                    if t == i {
                        assert(s == rowi.0.id);
                        assert(due);
                        if seen {
                            assert(r0.contains(s));
                            let w = choose|w: int| 0 <= w < r0.len() && r0[w] == s;
                            assert(r@[w] == s);
                        } else {
                            assert(r@[r@.len() - 1] == s);
                        }
                    } else {
                        assert(r0.contains(s));
                        let w = choose|w: int| 0 <= w < r0.len() && r0[w] == s;
                        assert(r@[w] == s);
                    }
                }
            }
            assert forall|j: int, t: int| 0 <= j < t < r@.len() implies r@[j] != r@[t] by {
                if t < r0.len() {
                } else {
                    assert(due && !seen);
                    assert(r@[t] == rowi.0.id);
                    assert(r0[j] == r@[j]);
                    if r@[j] == rowi.0.id {
                        assert(r0.contains(rowi.0.id));
                        assert(seen);
                    }
                }
            }
        }
        i = i + 1;
    }
    r
}


/// The resolver singleton's own state: nothing but the moment of its last
/// liveness tick.  Its actual work — replaying unfinished settlements at
/// startup and deciding settlements — is in the functions of this module,
/// which the surrounding runtime calls with the rows and pool views it
/// loaded.
pub struct GlobalActor {
    pub tick: u64,
}

impl Default for GlobalActor {
    fn default() -> (r: Self)
        ensures
            r.tick == 0,
    {
        GlobalActor { tick: 0 }
    }
}

impl GlobalActor {
    /// The liveness tick: nothing happens beyond sampling the clock.
    pub fn tick(&mut self, now: u64)
        ensures
            final(self).tick == now,
    {
        self.tick = now;
    }
}


} // verus!
