//! The authoritative, persistable inner state of a session.

use vstd::prelude::*;
use crate::content::{content_view, Content};
use crate::entities::{entity_view, Entities, Entity, EntityId, EntityView, Spawn};
use crate::kv::{id_entries_map, id_keys_distinct, lemma_id_map_contains, lemma_id_map_index,
    lemma_id_map_len, pairs_map, IdMap, StrMap};
use crate::lvl::Lvl;

verus! {

/// Per-player statistics accumulated during a session.
#[derive(Clone, Copy, Debug, PartialEq, Eq)]
pub struct PlayerStats {
    pub kills: i32,
    pub xp_accrual: u128,
    pub death: Option<u64>,
}

impl Default for PlayerStats {
    fn default() -> (r: Self)
        ensures
            r.kills == 0 && r.xp_accrual == 0 && r.death is None,
    {
        PlayerStats { kills: 0, xp_accrual: 0, death: None }
    }
}

/// The per-game configuration a session is created against.  The duration
/// is kept in milliseconds.
#[derive(Clone, Debug)]
pub struct GameConfig {
    pub player_limit: i32,
    pub teams: i32,
    pub lvl_required: Lvl,
    pub session_attempts: Option<i64>,
    pub player_attempts: Option<i64>,
    pub duration_ms: u64,
}

impl Default for GameConfig {
    /// One player, one team, level 1 required, a thirty-minute session.
    fn default() -> (r: Self)
        ensures
            r.player_limit == 1 && r.teams == 1 && r.lvl_required.0 == 1,
            r.session_attempts is None && r.player_attempts is None,
            r.duration_ms == 1_800_000,
    {
        GameConfig {
            player_limit: 1,
            teams: 1,
            lvl_required: Lvl(1),
            session_attempts: None,
            player_attempts: None,
            duration_ms: 1_800_000,
        }
    }
}

/// The authoritative session state: world objects, spawn configuration,
/// per-player statistics, and the opaque data slot.
pub struct SessionState {
    pub spawn: Spawn,
    pub entities: Entities,
    pub pending_spawns: IdMap<EntityId>,
    pub destroyed_entities: Entities,
    pub stats: StrMap<PlayerStats>,
    pub elapsed: u64,
    pub data: Content,
}

/// What a session state means, with every string taken as its character
/// sequence and every registry as a map.
pub struct StateView {
    pub scene: Seq<char>,
    pub zone: (crate::entities::Position, crate::entities::Position),
    pub entities: Map<u128, EntityView>,
    pub pending_spawns: Map<u128, u128>,
    pub destroyed_entities: Map<u128, EntityView>,
    pub stats: Map<Seq<char>, PlayerStats>,
    pub elapsed: u64,
    pub data: Map<Seq<char>, Seq<char>>,
}

/// Deep contents of an entity registry.
pub open spec fn entities_deep(es: Entities) -> Map<u128, EntityView> {
    pairs_map(es.0.entries@.map_values(|p: (u128, Entity)| (p.0, entity_view(p.1))))
}

/// Deep contents of the pending-spawn registry.
pub open spec fn pending_deep(m: IdMap<EntityId>) -> Map<u128, u128> {
    pairs_map(m.entries@.map_values(|p: (u128, EntityId)| (p.0, p.1.0)))
}

/// Deep contents of the statistics registry.
pub open spec fn stats_deep(m: StrMap<PlayerStats>) -> Map<Seq<char>, PlayerStats> {
    pairs_map(m.entries@.map_values(|p: (String, PlayerStats)| (p.0@, p.1)))
}

pub open spec fn state_view(s: SessionState) -> StateView {
    StateView {
        scene: s.spawn.scene@,
        zone: s.spawn.zone,
        entities: entities_deep(s.entities),
        pending_spawns: pending_deep(s.pending_spawns),
        destroyed_entities: entities_deep(s.destroyed_entities),
        stats: stats_deep(s.stats),
        elapsed: s.elapsed,
        data: content_view(s.data),
    }
}

impl SessionState {
    /// Well-formed: every registry has distinct keys, every entity payload
    /// is well-formed, the ids awaiting acknowledgement and the destroyed
    /// ids are disjoint from the live ids.
    pub open spec fn wf(&self) -> bool {
        &&& self.entities.wf()
        &&& self.destroyed_entities.wf()
        &&& self.pending_spawns.wf()
        &&& self.stats.wf()
        &&& self.data.wf()
        &&& (forall|k: u128|
            self.pending_spawns@.contains_key(k) ==> !self.entities@.contains_key(k))
        &&& (forall|k: u128|
            self.destroyed_entities@.contains_key(k) ==> !self.entities@.contains_key(k))
    }

    /// A fresh id: not a live entity, not a destroyed one, and not a
    /// proposed id still awaiting acknowledgement.
    fn vacant_id(&self) -> (r: EntityId)
        requires
            self.wf(),
        ensures
            !self.entities@.contains_key(r.0),
            !self.destroyed_entities@.contains_key(r.0),
            !self.pending_spawns@.contains_key(r.0),
    {
        let fresh = EntityId::new();
        if !self.entities.0.contains_key(fresh.0) && !self.destroyed_entities.0.contains_key(
            fresh.0,
        ) && !self.pending_spawns.contains_key(fresh.0) {
            return fresh;
        }
        let n1 = self.entities.0.len();
        let n2 = self.destroyed_entities.0.len();
        let n3 = self.pending_spawns.len();
        let ghost bound = n1 as int + n2 as int + n3 as int;
        let mut t: u128 = 0;
        while self.entities.0.contains_key(t) || self.destroyed_entities.0.contains_key(t)
            || self.pending_spawns.contains_key(t)
            invariant
                self.wf(),
                n1 == self.entities.0.entries@.len(),
                n2 == self.destroyed_entities.0.entries@.len(),
                n3 == self.pending_spawns.entries@.len(),
                bound == n1 as int + n2 as int + n3 as int,
                t as int <= bound,
                forall|u: u128|
                    u < t ==> (self.entities@.contains_key(u)
                        || self.destroyed_entities@.contains_key(u)
                        || self.pending_spawns@.contains_key(u)),
            decreases bound - t as int,
        {
            proof {
                if t as int == bound {
                    lemma_id_map_len(self.entities.0.entries@);
                    lemma_id_map_len(self.destroyed_entities.0.entries@);
                    lemma_id_map_len(self.pending_spawns.entries@);
                    let u3 = self.entities@.dom().union(self.destroyed_entities@.dom()).union(
                        self.pending_spawns@.dom(),
                    );
                    crate::entities::lemma_ids_below_len(bound + 1);
                    assert(crate::entities::ids_below(bound + 1).subset_of(u3)) by {
                        assert forall|u: u128|
                            crate::entities::ids_below(bound + 1).contains(u) implies u3.contains(
                            u,
                        ) by {
                            if u < t {
                            } else {
                                assert(u == t);
                            }
                        }
                    }
                    vstd::set_lib::lemma_len_union::<u128>(
                        self.entities@.dom(),
                        self.destroyed_entities@.dom(),
                    );
                    vstd::set_lib::lemma_len_union::<u128>(
                        self.entities@.dom().union(self.destroyed_entities@.dom()),
                        self.pending_spawns@.dom(),
                    );
                    vstd::set_lib::lemma_len_subset(crate::entities::ids_below(bound + 1), u3);
                    assert(false);
                }
            }
            t = t + 1;
        }
        EntityId(t)
    }

    /// Register a client-proposed spawn without displacing anything.
    ///
    /// A proposed id that is entirely unused is taken as it stands.  One
    /// that names a destroyed entity (or is itself still awaiting an
    /// acknowledgement under another spawn) is rewritten to a fresh id, and
    /// the rewrite is recorded under the proposed id for the client to pick
    /// up.  One that names a live entity is a client-side duplicate: the
    /// spawn is registered under a fresh id and nothing is recorded, so the
    /// recorded proposed ids stay disjoint from the live ids.
    pub fn spawn_entity(&mut self, proposed: &EntityId, entity: Entity) -> (r: EntityId)
        requires
            old(self).wf(),
            entity.wf(),
        ensures
            final(self).wf(),
            !old(self).entities@.contains_key(r.0),
            !old(self).destroyed_entities@.contains_key(r.0),
            final(self).entities@ == old(self).entities@.insert(r.0, entity),
            final(self).destroyed_entities == old(self).destroyed_entities,
            final(self).stats == old(self).stats,
            final(self).data == old(self).data,
            final(self).spawn == old(self).spawn,
            final(self).elapsed == old(self).elapsed,
            (!old(self).entities@.contains_key(proposed.0) && !old(self).destroyed_entities@.contains_key(proposed.0) && !old(self).pending_spawns@.contains_key(proposed.0)) ==> (r == *proposed && final(self).pending_spawns == old(self).pending_spawns),
            (old(self).destroyed_entities@.contains_key(proposed.0) || old(self).pending_spawns@.contains_key(proposed.0)) ==> (r.0 != proposed.0 && final(self).pending_spawns@ == old(self).pending_spawns@.insert(proposed.0, r)),
            old(self).entities@.contains_key(proposed.0) ==> (r.0 != proposed.0 && final(self).pending_spawns == old(self).pending_spawns && final(self).entities@[proposed.0]
                == old(self).entities@[proposed.0]),
    {
        let live = self.entities.0.contains_key(proposed.0);
        let gone = self.destroyed_entities.0.contains_key(proposed.0);
        let pending = self.pending_spawns.contains_key(proposed.0);
        if !live && !gone && !pending {
            self.entities.0.insert(proposed.0, entity);
            proof {
                assert forall|k: u128| self.pending_spawns@.contains_key(k) implies !self.entities@.contains_key(
                    k,
                ) by {
                    assert(k != proposed.0);
                }
                assert forall|k: u128| self.destroyed_entities@.contains_key(k) implies !self.entities@.contains_key(
                    k,
                ) by {
                    assert(k != proposed.0);
                }
                assert forall|k: u128| self.entities@.contains_key(k) implies (#[trigger] self.entities@[k]).wf() by {
                    if k != proposed.0 {
                        assert(old(self).entities@[k].wf());
                    }
                }
            }
            return *proposed;
        }
        let fresh = self.vacant_id();
        self.entities.0.insert(fresh.0, entity);
        if !live {
            self.pending_spawns.insert(proposed.0, fresh);
        }
        proof {
            assert forall|k: u128| self.pending_spawns@.contains_key(k) implies !self.entities@.contains_key(
                k,
            ) by {
                assert(k != fresh.0);
                if k != proposed.0 {
                    assert(old(self).pending_spawns@.contains_key(k));
                }
            }
            assert forall|k: u128| self.destroyed_entities@.contains_key(k) implies !self.entities@.contains_key(
                k,
            ) by {
                assert(k != fresh.0);
            }
            assert forall|k: u128| self.entities@.contains_key(k) implies (#[trigger] self.entities@[k]).wf() by {
                if k != fresh.0 {
                    assert(old(self).entities@[k].wf());
                }
            }
        }
        fresh
    }

    /// Move a live entity to the destroyed registry.  Nothing happens for
    /// an id that is not live.
    pub fn kill_entity(&mut self, id: &EntityId) -> (killed: bool)
        requires
            old(self).wf(),
        ensures
            final(self).wf(),
            killed == old(self).entities@.contains_key(id.0),
            final(self).pending_spawns == old(self).pending_spawns,
            final(self).stats == old(self).stats,
            final(self).data == old(self).data,
            final(self).spawn == old(self).spawn,
            final(self).elapsed == old(self).elapsed,
            killed ==> final(self).entities@ == old(self).entities@.remove(id.0) && final(self).destroyed_entities@ == old(self).destroyed_entities@.insert(
                id.0,
                old(self).entities@[id.0],
            ),
            !killed ==> final(self).entities == old(self).entities && final(self).destroyed_entities == old(self).destroyed_entities,
    {
        match self.entities.remove(id) {
            Some(entity) => {
                proof {
                    assert(self.entities@.contains_key(id.0) == false);
                }
                self.destroyed_entities.0.insert(id.0, entity);
                true
            }
            None => false,
        }
    }

    /// Overwrite a live entity with the update a client sent, and drop any
    /// pending-spawn record that resolved to this id.
    pub fn apply_active(&mut self, id: &EntityId, entity: Entity)
        requires
            old(self).wf(),
            entity.wf(),
            old(self).entities@.contains_key(id.0),
        ensures
            final(self).wf(),
            final(self).entities@ == old(self).entities@.insert(id.0, entity),
            final(self).destroyed_entities == old(self).destroyed_entities,
            final(self).stats == old(self).stats,
            final(self).data == old(self).data,
            final(self).spawn == old(self).spawn,
            final(self).elapsed == old(self).elapsed,
            forall|k: u128|
                final(self).pending_spawns@.contains_key(k) <==> (old(self).pending_spawns@.contains_key(k) && old(self).pending_spawns@[k].0 != id.0),
            forall|k: u128|
                final(self).pending_spawns@.contains_key(k) ==> final(self).pending_spawns@[k]
                    == old(self).pending_spawns@[k],
    {
        self.entities.update(*id, entity);
        let ghost s = self.pending_spawns.entries@;
        let n = self.pending_spawns.entries.len();
        let mut out: Vec<(u128, EntityId)> = Vec::new();
        let mut i: usize = 0;
        while i < n
            invariant
                n == s.len(),
                s == self.pending_spawns.entries@,
                i <= n,
                out@ == pending_without(s.take(i as int), id.0),
            decreases n - i,
        {
            proof {
                assert(s.take(i as int + 1).drop_last() =~= s.take(i as int));
                assert(s.take(i as int + 1).last() == s[i as int]);
            }
            let pair = self.pending_spawns.entries[i];
            if pair.1.0 != id.0 {
                out.push(pair);
            }
            i = i + 1;
        }
        proof {
            assert(s.take(n as int) =~= s);
            lemma_pending_without(s, id.0);
        }
        self.pending_spawns = IdMap { entries: out };
    }
}

/// The pending-spawn entries that did not resolve to `id`.
pub open spec fn pending_without(s: Seq<(u128, EntityId)>, id: u128) -> Seq<(u128, EntityId)>
    decreases s.len(),
{
    if s.len() == 0 {
        Seq::empty()
    } else if s.last().1.0 == id {
        pending_without(s.drop_last(), id)
    } else {
        pending_without(s.drop_last(), id).push(s.last())
    }
}

/// Filtering the entries that resolved to `id` filters the map likewise.
pub proof fn lemma_pending_without(s: Seq<(u128, EntityId)>, id: u128)
    requires
        id_keys_distinct(s),
    ensures
        id_keys_distinct(pending_without(s, id)),
        forall|k: u128|
            id_entries_map(pending_without(s, id)).contains_key(k) <==> (id_entries_map(
                s,
            ).contains_key(k) && id_entries_map(s)[k].0 != id),
        forall|k: u128|
            id_entries_map(pending_without(s, id)).contains_key(k)
                ==> id_entries_map(pending_without(s, id))[k] == id_entries_map(s)[k],
    decreases s.len(),
{
    let t = pending_without(s, id);
    if s.len() > 0 {
        let rest = s.drop_last();
        lemma_pending_without(rest, id);
        let tr = pending_without(rest, id);
        assert forall|j: int| 0 <= j < tr.len() implies id_entries_map(rest).contains_key(
            tr[j].0,
        ) by {
            crate::kv::lemma_id_map_contains(rest, tr[j].0);
            assert(id_entries_map(tr).contains_key(tr[j].0)) by {
                crate::kv::lemma_id_map_contains(tr, tr[j].0);
            }
        }
        if s.last().1.0 == id {
            assert forall|k: u128|
                id_entries_map(t).contains_key(k) <==> (id_entries_map(s).contains_key(k)
                    && id_entries_map(s)[k].0 != id) by {
                lemma_id_map_contains(rest, k);
                lemma_id_map_contains(s, k);
                if k == s.last().0 {
                    assert(id_entries_map(s)[k] == s.last().1);
                    if id_entries_map(t).contains_key(k) {
                        lemma_id_map_contains(t, k);
                        let j = choose|j: int| 0 <= j < t.len() && t[j].0 == k;
                        assert(id_entries_map(rest).contains_key(k));
                        let x = choose|x: int| 0 <= x < rest.len() && rest[x].0 == k;
                        assert(s[x] == rest[x]);
                        assert(false);
                    }
                } else {
                    assert(id_entries_map(s).contains_key(k) ==> id_entries_map(s)[k]
                        == id_entries_map(rest)[k]);
                }
            }
            assert forall|k: u128| id_entries_map(t).contains_key(k) implies id_entries_map(t)[k]
                == id_entries_map(s)[k] by {
                assert(id_entries_map(s).contains_key(k) && id_entries_map(s)[k].0 != id);
                if k == s.last().0 {
                    assert(false);
                } else {
                    assert(id_entries_map(s)[k] == id_entries_map(rest)[k]);
                }
            }
        } else {
            assert(t == tr.push(s.last()));
            assert(t.drop_last() =~= tr);
            assert forall|j: int| 0 <= j < tr.len() implies tr[j].0 != s.last().0 by {
                lemma_id_map_contains(rest, tr[j].0);
            }
            assert(id_keys_distinct(t));
            assert(id_entries_map(t) == id_entries_map(tr).insert(s.last().0, s.last().1));
            assert forall|k: u128|
                id_entries_map(t).contains_key(k) <==> (id_entries_map(s).contains_key(k)
                    && id_entries_map(s)[k].0 != id) by {
                lemma_id_map_contains(rest, k);
                lemma_id_map_contains(s, k);
                if k == s.last().0 {
                    assert(id_entries_map(s)[k] == s.last().1);
                } else {
                    assert(id_entries_map(s).contains_key(k) ==> id_entries_map(s)[k]
                        == id_entries_map(rest)[k]);
                }
            }
            assert forall|k: u128| id_entries_map(t).contains_key(k) implies id_entries_map(t)[k]
                == id_entries_map(s)[k] by {
                if k == s.last().0 {
                    assert(id_entries_map(t)[k] == s.last().1);
                    assert(id_entries_map(s)[k] == s.last().1);
                } else {
                    assert(id_entries_map(t)[k] == id_entries_map(tr)[k]);
                    assert(id_entries_map(s)[k] == id_entries_map(rest)[k]);
                }
            }
        }
    }
}

impl Default for SessionState {
    fn default() -> (r: Self)
        ensures
            r.wf(),
            r.entities@ == Map::<u128, Entity>::empty(),
            r.destroyed_entities@ == Map::<u128, Entity>::empty(),
            r.pending_spawns@ == Map::<u128, EntityId>::empty(),
            r.stats@ == Map::<Seq<char>, PlayerStats>::empty(),
            r.elapsed == 0,
            content_view(r.data) == Map::<Seq<char>, Seq<char>>::empty(),
            r.spawn.scene@ == "BaseScene"@,
            r.entities.0.entries@.len() == 0,
            r.destroyed_entities.0.entries@.len() == 0,
            r.pending_spawns.entries@.len() == 0,
            r.stats.entries@.len() == 0,
            r.data.0.entries@.len() == 0,
            r.spawn.zone.0.x == 0 && r.spawn.zone.0.y == 0 && r.spawn.zone.1.x == 0
                && r.spawn.zone.1.y == 0,
    {
        SessionState {
            spawn: Spawn::default(),
            entities: Entities::new(),
            pending_spawns: IdMap::new(),
            destroyed_entities: Entities::new(),
            stats: StrMap::new(),
            elapsed: 0,
            data: Content::new(),
        }
    }
}


/// What a connected client is currently doing, stamped with the moment the
/// phase began (milliseconds) or, while in progress, the client's own
/// elapsed time.
#[derive(Clone, Copy, Debug, PartialEq, Eq, Structural)]
pub enum ClientStatus {
    Loading(u64),
    LostConnection(u64),
    InProgress(u64),
    Ready,
    Ended(u64),
}

/// The per-player snapshot handed to clients and persisted on the player
/// session row.
pub struct PlayerInfo {
    pub managed_entities: Vec<EntityId>,
    pub stats: PlayerStats,
    pub status: ClientStatus,
}

impl Default for PlayerInfo {
    fn default() -> (r: Self)
        ensures
            r.managed_entities@.len() == 0,
            r.stats.kills == 0 && r.stats.xp_accrual == 0 && r.stats.death is None,
            r.status == ClientStatus::Loading(0u64),
    {
        PlayerInfo {
            managed_entities: Vec::new(),
            stats: PlayerStats::default(),
            status: ClientStatus::Loading(0),
        }
    }
}

/// The snapshot's managed-entity list holds exactly the live entities that
/// `u` manages in `entities`.
pub open spec fn snapshot_managed_ok(
    pi: PlayerInfo,
    entities: Map<u128, Entity>,
    u: Seq<char>,
) -> bool {
    forall|k: u128|
        (exists|i: int| 0 <= i < pi.managed_entities@.len() && pi.managed_entities@[i].0 == k)
            <==> (entities.contains_key(k) && entities[k].manager@ == u)
}

impl SessionState {
    /// The statistics recorded for `id`, or fresh ones.
    pub open spec fn stats_or_default(&self, id: Seq<char>) -> PlayerStats {
        if self.stats@.contains_key(id) {
            self.stats@[id]
        } else {
            PlayerStats { kills: 0, xp_accrual: 0, death: None }
        }
    }

    /// The snapshot of player `id` whose client currently reports `status`:
    /// the entities the player manages, the player's statistics (fresh ones
    /// when none were recorded), and the client status.
    pub fn player_info(&self, id: &String, status: ClientStatus) -> (r: PlayerInfo)
        requires
            self.wf(),
        ensures
            r.stats == self.stats_or_default(id@),
            r.status == status,
            snapshot_managed_ok(r, self.entities@, id@),
    {
        let managed = self.entities.managed(id);
        let ghost g = managed@;
        let stats = match self.stats.get(id) {
            Some(s) => *s,
            None => PlayerStats::default(),
        };
        let r = PlayerInfo { managed_entities: managed, stats, status };
        proof {
            assert forall|k: u128|
                #![all_triggers]
                (exists|i: int| 0 <= i < r.managed_entities@.len() && r.managed_entities@[i].0 == k)
                    <==> (self.entities@.contains_key(k) && self.entities@[k].manager@ == id@) by {
                assert(r.managed_entities@ == g);
                if exists|i: int|
                    0 <= i < r.managed_entities@.len() && r.managed_entities@[i].0 == k {
                    let i = choose|i: int|
                        0 <= i < r.managed_entities@.len() && r.managed_entities@[i].0 == k;
                    assert(g[i].0 == k);
                }
                if self.entities@.contains_key(k) && self.entities@[k].manager@ == id@ {
                    let i = choose|i: int| 0 <= i < g.len() && g[i].0 == k;
                    assert(r.managed_entities@[i].0 == k);
                }
            }
            assert(snapshot_managed_ok(r, self.entities@, id@));
        }
        r
    }
}


} // verus!
