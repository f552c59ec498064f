//! The entity registry: authoritative world objects and their managers.
//!
//! Each entity is owned by exactly one manager (a user id).  Insertion is
//! collision-free: a proposed id that is already taken is replaced by a fresh
//! one, and the caller learns which id was actually assigned.

use vstd::prelude::*;
use crate::content::{content_view, Content};
use crate::kv::{lemma_id_map_contains, lemma_id_map_index, lemma_id_map_len, lemma_id_map_update,
    IdMap};

verus! {

/// A 128-bit entity id (the value of a v4 UUID).
#[derive(Clone, Copy, Debug, PartialEq, Eq, Structural, Hash)]
pub struct EntityId(pub u128);

impl EntityId {
    /// A freshly drawn random id.  Nothing is promised of the value; every
    /// caller treats it as arbitrary.
    ///
    /// Relies on `uuid::Uuid::new_v4` for the randomness and on
    /// `uuid::Uuid::as_u128` to hand the value out as a plain integer.
    /// The generator aborts if the operating system's randomness source
    /// fails — an environmental failure, like running out of memory.
    #[verifier::external_body]
    pub fn new() -> (r: Self) {
        EntityId(uuid::Uuid::new_v4().as_u128())
    }
}

/// A point of the plane, in fixed world units.
#[derive(Clone, Copy, Debug, PartialEq, Eq, Structural, Hash)]
pub struct Position {
    pub x: i64,
    pub y: i64,
}

impl Default for Position {
    fn default() -> (r: Self)
        ensures
            r.x == 0 && r.y == 0,
    {
        Position { x: 0, y: 0 }
    }
}

/// A world object: display payload, opaque attributes, its manager, where it
/// stands, and open extension fields.
pub struct Entity {
    pub display: Content,
    pub attributes: Content,
    pub manager: String,
    pub position: Position,
    pub entity_type: String,
    pub extentions: Content,
}

/// What an entity means, with every string taken as its character sequence.
pub struct EntityView {
    pub display: Map<Seq<char>, Seq<char>>,
    pub attributes: Map<Seq<char>, Seq<char>>,
    pub manager: Seq<char>,
    pub position: Position,
    pub entity_type: Seq<char>,
    pub extentions: Map<Seq<char>, Seq<char>>,
}

pub open spec fn entity_view(e: Entity) -> EntityView {
    EntityView {
        display: content_view(e.display),
        attributes: content_view(e.attributes),
        manager: e.manager@,
        position: e.position,
        entity_type: e.entity_type@,
        extentions: content_view(e.extentions),
    }
}

impl Entity {
    pub open spec fn wf(&self) -> bool {
        self.display.wf() && self.attributes.wf() && self.extentions.wf()
    }

    /// A deep copy: the copy means the same as the original.
    pub fn duplicate(&self) -> (r: Self)
        ensures
            self.wf() ==> r.wf(),
            entity_view(r) == entity_view(*self),
    {
        Entity {
            display: self.display.duplicate(),
            attributes: self.attributes.duplicate(),
            manager: self.manager.clone(),
            position: self.position,
            entity_type: self.entity_type.clone(),
            extentions: self.extentions.duplicate(),
        }
    }
}

/// The rectangular zone (south-west and north-east corner) of a scene in
/// which new players appear.
pub struct Spawn {
    pub scene: String,
    pub zone: (Position, Position),
}

impl Spawn {
    /// A point drawn uniformly from the spawn zone.  The zone must be a
    /// proper rectangle: an empty range cannot be sampled.
    pub fn rand_spawn(&self) -> (p: Position)
        requires
            self.zone.0.x < self.zone.1.x,
            self.zone.0.y < self.zone.1.y,
        ensures
            self.zone.0.x <= p.x < self.zone.1.x,
            self.zone.0.y <= p.y < self.zone.1.y,
    {
        Position { x: sample_range(self.zone.0.x, self.zone.1.x), y: sample_range(
            self.zone.0.y,
            self.zone.1.y,
        ) }
    }

    /// A deep copy: same scene, same zone.
    pub fn duplicate(&self) -> (r: Self)
        ensures
            r.scene@ == self.scene@,
            r.zone == self.zone,
    {
        Spawn { scene: self.scene.clone(), zone: self.zone }
    }
}

impl Default for Spawn {
    fn default() -> (r: Self)
        ensures
            r.scene@ == "BaseScene"@,
            r.zone.0.x == 0 && r.zone.0.y == 0 && r.zone.1.x == 0 && r.zone.1.y == 0,
    {
        Spawn {
            scene: "BaseScene".to_owned(),
            zone: (Position { x: 0, y: 0 }, Position { x: 0, y: 0 }),
        }
    }
}

/// Relies on `rand::Rng::gen_range`: a uniform sample from `lo..hi`, which
/// panics only when the range is empty.
#[verifier::external_body]
fn sample_range(lo: i64, hi: i64) -> (r: i64)
    requires
        lo < hi,
    ensures
        lo <= r < hi,
{
    <rand::rngs::ThreadRng as rand::Rng>::gen_range(&mut rand::thread_rng(), lo..hi)
}

/// The ids below `n`.
pub open spec fn ids_below(n: int) -> Set<u128> {
    Set::new(|u: u128| (u as int) < n)
}

/// There are exactly `n` ids below `n`.
pub proof fn lemma_ids_below_len(n: int)
    requires
        0 <= n <= u128::MAX as int + 1,
    ensures
        ids_below(n).finite(),
        ids_below(n).len() == n,
    decreases n,
{
    if n == 0 {
        assert(ids_below(0) =~= Set::empty());
    } else {
        lemma_ids_below_len(n - 1);
        assert(ids_below(n) =~= ids_below(n - 1).insert((n - 1) as u128));
        assert(!ids_below(n - 1).contains((n - 1) as u128));
    }
}

/// The registry of live entities.
pub struct Entities(pub IdMap<Entity>);

impl View for Entities {
    type V = Map<u128, Entity>;

    open spec fn view(&self) -> Map<u128, Entity> {
        self.0@
    }
}

/// The ids of the entities managed by `m`, in registry order.
pub open spec fn managed_ids(s: Seq<(u128, Entity)>, m: Seq<char>) -> Seq<u128>
    decreases s.len(),
{
    if s.len() == 0 {
        Seq::empty()
    } else if s.last().1.manager@ == m {
        managed_ids(s.drop_last(), m).push(s.last().0)
    } else {
        managed_ids(s.drop_last(), m)
    }
}

/// `managed_ids` holds exactly the keys whose entity is managed by `m`.
pub proof fn lemma_managed_ids(s: Seq<(u128, Entity)>, m: Seq<char>, k: u128)
    requires
        crate::kv::id_keys_distinct(s),
    ensures
        managed_ids(s, m).contains(k) <==> (crate::kv::id_entries_map(s).contains_key(k)
            && crate::kv::id_entries_map(s)[k].manager@ == m),
    decreases s.len(),
{
    lemma_id_map_contains(s, k);
    if s.len() > 0 {
        let rest = s.drop_last();
        lemma_managed_ids(rest, m, k);
        lemma_id_map_contains(rest, k);
        if s.last().0 == k {
            if s.last().1.manager@ == m {
                assert(managed_ids(s, m).last() == k);
            } else {
                if managed_ids(s, m).contains(k) {
                    let i = choose|i: int|
                        0 <= i < managed_ids(rest, m).len() && managed_ids(rest, m)[i] == k;
                    assert(managed_ids(rest, m).contains(k));
                }
            }
        } else {
            if managed_ids(rest, m).contains(k) {
                let i = choose|i: int|
                    0 <= i < managed_ids(rest, m).len() && managed_ids(rest, m)[i] == k;
                if s.last().1.manager@ == m {
                    assert(managed_ids(s, m)[i] == k);
                }
            }
            if managed_ids(s, m).contains(k) && s.last().1.manager@ == m {
                let i = choose|i: int|
                    0 <= i < managed_ids(s, m).len() && managed_ids(s, m)[i] == k;
                if i < managed_ids(rest, m).len() {
                    assert(managed_ids(rest, m)[i] == k);
                }
            }
        }
    }
}

impl Entities {
    pub open spec fn wf(&self) -> bool {
        self.0.wf() && (forall|k: u128| self@.contains_key(k) ==> (#[trigger] self@[k]).wf())
    }

    pub fn new() -> (r: Self)
        ensures
            r.wf(),
            r@ == Map::<u128, Entity>::empty(),
            r.0.entries@.len() == 0,
    {
        Entities(IdMap::new())
    }

    /// The entity registered under `id`, if any.
    pub fn get(&self, id: &EntityId) -> (r: Option<&Entity>)
        requires
            self.0.wf(),
        ensures
            match r {
                Some(e) => self@.contains_key(id.0) && *e == self@[id.0],
                None => !self@.contains_key(id.0),
            },
    {
        self.0.get(id.0)
    }

    /// Every registered id.
    pub fn keys(&self) -> (r: Vec<EntityId>)
        ensures
            r@.len() == self.0.entries@.len(),
            forall|i: int| 0 <= i < r@.len() ==> r@[i].0 == self.0.entries@[i].0,
            forall|k: u128| self@.contains_key(k) <==> (exists|i: int|
                0 <= i < r@.len() && r@[i].0 == k),
    {
        let n = self.0.entries.len();
        let mut r: Vec<EntityId> = Vec::new();
        let mut i: usize = 0;
        while i < n
            invariant
                n == self.0.entries@.len(),
                i <= n,
                r@.len() == i,
                forall|j: int| 0 <= j < i ==> r@[j].0 == self.0.entries@[j].0,
            decreases n - i,
        {
            r.push(EntityId(self.0.entries[i].0));
            i = i + 1;
        }
        proof {
            assert forall|k: u128|
                self@.contains_key(k) <==> (exists|i: int| 0 <= i < r@.len() && r@[i].0 == k) by {
                lemma_id_map_contains(self.0.entries@, k);
                if self@.contains_key(k) {
                    let i = choose|i: int|
                        0 <= i < self.0.entries@.len() && self.0.entries@[i].0 == k;
                    assert(r@[i].0 == k);
                }
                if exists|i: int| 0 <= i < r@.len() && r@[i].0 == k {
                    let i = choose|i: int| 0 <= i < r@.len() && r@[i].0 == k;
                    assert(self.0.entries@[i].0 == k);
                }
            }
        }
        r
    }

    /// The ids of every entity whose manager is `manager`, in registry order.
    pub fn managed(&self, manager: &String) -> (r: Vec<EntityId>)
        requires
            self.0.wf(),
        ensures
            r@.len() == managed_ids(self.0.entries@, manager@).len(),
            forall|i: int|
                0 <= i < r@.len() ==> r@[i].0 == managed_ids(self.0.entries@, manager@)[i],
            forall|k: u128|
                (exists|i: int| 0 <= i < r@.len() && r@[i].0 == k) <==> (self@.contains_key(k)
                    && self@[k].manager@ == manager@),
    {
        let n = self.0.entries.len();
        let mut r: Vec<EntityId> = Vec::new();
        let mut i: usize = 0;
        while i < n
            invariant
                n == self.0.entries@.len(),
                i <= n,
                r@.len() == managed_ids(self.0.entries@.take(i as int), manager@).len(),
                forall|j: int|
                    0 <= j < r@.len() ==> r@[j].0 == managed_ids(
                        self.0.entries@.take(i as int),
                        manager@,
                    )[j],
            decreases n - i,
        {
            proof {
                assert(self.0.entries@.take(i as int + 1).drop_last() =~= self.0.entries@.take(
                    i as int,
                ));
                assert(self.0.entries@.take(i as int + 1).last() == self.0.entries@[i as int]);
            }
            if self.0.entries[i].1.manager == *manager {
                r.push(EntityId(self.0.entries[i].0));
            }
            i = i + 1;
        }
        proof {
            assert(self.0.entries@.take(n as int) =~= self.0.entries@);
            assert forall|k: u128|
                (exists|i: int| 0 <= i < r@.len() && r@[i].0 == k) <==> (self@.contains_key(k)
                    && self@[k].manager@ == manager@) by {
                lemma_managed_ids(self.0.entries@, manager@, k);
                let ids = managed_ids(self.0.entries@, manager@);
                if exists|i: int| 0 <= i < r@.len() && r@[i].0 == k {
                    let i = choose|i: int| 0 <= i < r@.len() && r@[i].0 == k;
                    assert(ids[i] == k);
                    assert(ids.contains(k));
                }
                if ids.contains(k) {
                    let i = choose|i: int| 0 <= i < ids.len() && ids[i] == k;
                    assert(r@[i].0 == k);
                }
            }
        }
        r
    }

    /// Hand every listed entity (those actually registered) to `new_manager`.
    pub fn set_managed(&mut self, entity_ids: &Vec<EntityId>, new_manager: &String)
        requires
            old(self).wf(),
        ensures
            final(self).wf(),
            final(self)@.dom() == old(self)@.dom(),
            forall|k: u128|
                old(self)@.contains_key(k) ==> {
                    let e = #[trigger] final(self)@[k];
                    let o = old(self)@[k];
                    e.display == o.display && e.attributes == o.attributes && e.position
                        == o.position && e.entity_type == o.entity_type && e.extentions
                        == o.extentions && e.manager@ == (if (exists|j: int|
                        0 <= j < entity_ids@.len() && entity_ids@[j].0 == k) {
                        new_manager@
                    } else {
                        o.manager@
                    })
                },
    {
        let n = entity_ids.len();
        let mut j: usize = 0;
        while j < n
            invariant
                n == entity_ids@.len(),
                j <= n,
                self.wf(),
                self@.dom() =~= old(self)@.dom(),
                forall|k: u128|
                    old(self)@.contains_key(k) ==> {
                        let e = #[trigger] self@[k];
                        let o = old(self)@[k];
                        e.display == o.display && e.attributes == o.attributes && e.position
                            == o.position && e.entity_type == o.entity_type && e.extentions
                            == o.extentions && e.manager@ == (if (exists|t: int|
                            0 <= t < j && entity_ids@[t].0 == k) {
                            new_manager@
                        } else {
                            o.manager@
                        })
                    },
            decreases n - j,
        {
            let id = entity_ids[j].0;
            let ghost pre = self@;
            let ghost pre_entries = self.0.entries@;
            match self.0.find(id) {
                Some(i) => {
                    proof {
                        lemma_id_map_index(self.0.entries@, i as int);
                    }
                    let e: &mut Entity = &mut self.0.entries[i].1;
                    e.manager = new_manager.clone();
                    proof {
                        assert(self.0.entries@ =~= pre_entries.update(
                            i as int,
                            (pre_entries[i as int].0, self.0.entries@[i as int].1),
                        ));
                        lemma_id_map_update(
                            pre_entries,
                            i as int,
                            self.0.entries@[i as int].1,
                        );
                        assert(self@ == pre.insert(id, self.0.entries@[i as int].1));
                        assert(self@.dom() =~= pre.dom());
                    }
                }
                None => {
                    proof {
                        lemma_id_map_contains(self.0.entries@, id);
                    }
                }
            }
            j = j + 1;
            proof {
                assert forall|k: u128| old(self)@.contains_key(k) implies {
                    let e = #[trigger] self@[k];
                    let o = old(self)@[k];
                    e.display == o.display && e.attributes == o.attributes && e.position
                        == o.position && e.entity_type == o.entity_type && e.extentions
                        == o.extentions && e.manager@ == (if (exists|t: int|
                        0 <= t < j && entity_ids@[t].0 == k) {
                        new_manager@
                    } else {
                        o.manager@
                    })
                } by {
                    if k != id {
                        assert(self@[k] == pre[k]);
                        if exists|t: int| 0 <= t < j && entity_ids@[t].0 == k {
                            let t = choose|t: int| 0 <= t < j && entity_ids@[t].0 == k;
                            assert(t < j - 1 + 1);
                            assert(entity_ids@[t].0 == k && t < j - 1 || t == j - 1);
                            assert(exists|t: int| 0 <= t < j - 1 && entity_ids@[t].0 == k);
                        }
                    }
                }
            }
        }
    }

    /// Register (or overwrite) `entity` under `id`; any earlier occupant of
    /// the id comes back.
    pub fn update(&mut self, id: EntityId, entity: Entity) -> (r: Option<Entity>)
        requires
            old(self).0.wf(),
        ensures
            final(self).0.wf(),
            final(self)@ == old(self)@.insert(id.0, entity),
            match r {
                Some(e) => old(self)@.contains_key(id.0) && e == old(self)@[id.0],
                None => !old(self)@.contains_key(id.0),
            },
    {
        self.0.insert(id.0, entity)
    }

    /// Drop the entity registered under `id`, if any.
    pub fn remove(&mut self, id: &EntityId) -> (r: Option<Entity>)
        requires
            old(self).0.wf(),
        ensures
            final(self).0.wf(),
            final(self)@ == old(self)@.remove(id.0),
            match r {
                Some(e) => old(self)@.contains_key(id.0) && e == old(self)@[id.0],
                None => !old(self)@.contains_key(id.0) && *final(self) == *old(self),
            },
    {
        self.0.remove(id.0)
    }

    /// Register `entity` without ever displacing an occupant: the proposed
    /// id is used when vacant; otherwise a fresh id is drawn, and failing
    /// that, the smallest unused id is assigned.  The assigned id comes back.
    pub fn insert(&mut self, id: &EntityId, entity: Entity) -> (r: EntityId)
        requires
            old(self).0.wf(),
        ensures
            final(self).0.wf(),
            !old(self)@.contains_key(r.0),
            final(self)@ == old(self)@.insert(r.0, entity),
            !old(self)@.contains_key(id.0) ==> r == *id,
            old(self)@.contains_key(id.0) ==> r.0 != id.0 && final(self)@[id.0] == old(
                self,
            )@[id.0],
    {
        if !self.0.contains_key(id.0) {
            self.0.insert(id.0, entity);
            return *id;
        }
        let fresh = EntityId::new();
        if !self.0.contains_key(fresh.0) {
            self.0.insert(fresh.0, entity);
            return fresh;
        }
        let n = self.0.len();
        let mut t: u128 = 0;
        while self.0.contains_key(t)
            invariant
                self.0.wf(),
                *self == *old(self),
                n == self.0.entries@.len(),
                t <= n as u128,
                forall|u: u128| u < t ==> self@.contains_key(u),
            decreases n as int - t as int,
        {
            proof {
                if t == n as u128 {
                    lemma_id_map_len(self.0.entries@);
                    lemma_ids_below_len(n as int + 1);
                    assert(ids_below(n as int + 1).subset_of(self@.dom())) by {
                        assert forall|u: u128| ids_below(n as int + 1).contains(u) implies self@.dom().contains(
                            u,
                        ) by {
                            if u < t {
                            } else {
                                assert(u == t);
                            }
                        }
                    }
                    vstd::set_lib::lemma_len_subset(ids_below(n as int + 1), self@.dom());
                    assert(false);
                }
            }
            t = t + 1;
        }
        self.0.insert(t, entity);
        EntityId(t)
    }
}

impl Default for Entities {
    fn default() -> (r: Self)
        ensures
            r.wf(),
            r@ == Map::<u128, Entity>::empty(),
            r.0.entries@.len() == 0,
    {
        Entities(IdMap::new())
    }
}

} // verus!
