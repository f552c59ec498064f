//! The persistence codec for the authoritative session state.
//!
//! A state is framed as a flat sequence of 64-bit tokens (counts, ids,
//! characters, fixed-point coordinates), which is then laid out as
//! little-endian bytes.  Decoding mirrors encoding exactly, and the
//! round-trip law (`lemma_state_round_trip`) shows that whatever was
//! encoded is read back unchanged.

use vstd::prelude::*;
use vstd::string::StrSliceExecFns;
use crate::content::Content;
use crate::entities::{Entities, Entity, EntityId, Position, Spawn};
use crate::kv::{IdMap, StrMap};
use crate::state::{PlayerStats, SessionState};

verus! {

/// What one entity means on the wire: its entry lists in order, every
/// string as its character sequence.
pub struct EntityModel {
    pub display: Seq<(Seq<char>, Seq<char>)>,
    pub attributes: Seq<(Seq<char>, Seq<char>)>,
    pub manager: Seq<char>,
    pub position: Position,
    pub entity_type: Seq<char>,
    pub extentions: Seq<(Seq<char>, Seq<char>)>,
}

pub open spec fn content_model(c: Content) -> Seq<(Seq<char>, Seq<char>)> {
    crate::content::content_entries(c.0.entries@)
}

pub open spec fn entity_model(e: Entity) -> EntityModel {
    EntityModel {
        display: content_model(e.display),
        attributes: content_model(e.attributes),
        manager: e.manager@,
        position: e.position,
        entity_type: e.entity_type@,
        extentions: content_model(e.extentions),
    }
}

/// What a whole session state means on the wire.
pub struct StateModel {
    pub scene: Seq<char>,
    pub zone: (Position, Position),
    pub entities: Seq<(u128, EntityModel)>,
    pub pending_spawns: Seq<(u128, u128)>,
    pub destroyed_entities: Seq<(u128, EntityModel)>,
    pub stats: Seq<(Seq<char>, PlayerStats)>,
    pub elapsed: u64,
    pub data: Seq<(Seq<char>, Seq<char>)>,
}

pub open spec fn entities_model(es: Entities) -> Seq<(u128, EntityModel)> {
    es.0.entries@.map_values(|p: (u128, Entity)| (p.0, entity_model(p.1)))
}

pub open spec fn state_model(s: SessionState) -> StateModel {
    StateModel {
        scene: s.spawn.scene@,
        zone: s.spawn.zone,
        entities: entities_model(s.entities),
        pending_spawns: s.pending_spawns.entries@.map_values(
            |p: (u128, EntityId)| (p.0, p.1.0),
        ),
        destroyed_entities: entities_model(s.destroyed_entities),
        stats: s.stats.entries@.map_values(|p: (String, PlayerStats)| (p.0@, p.1)),
        elapsed: s.elapsed,
        data: content_model(s.data),
    }
}

// ------------------------------------------------------------------
// token encoders
// ------------------------------------------------------------------

pub open spec fn enc_chars(s: Seq<char>) -> Seq<u64> {
    s.map_values(|c: char| c as u64)
}

pub open spec fn enc_str(s: Seq<char>) -> Seq<u64> {
    seq![s.len() as u64] + enc_chars(s)
}

pub open spec fn enc_u128(x: u128) -> Seq<u64> {
    seq![x as u64, (x >> 64) as u64]
}

pub open spec fn enc_opt_u64(o: Option<u64>) -> Seq<u64> {
    match o {
        None => seq![0u64],
        Some(v) => seq![1u64, v],
    }
}

pub open spec fn enc_position(p: Position) -> Seq<u64> {
    seq![p.x as u64, p.y as u64]
}

pub open spec fn enc_stats(st: PlayerStats) -> Seq<u64> {
    seq![st.kills as u64] + enc_u128(st.xp_accrual) + enc_opt_u64(st.death)
}

pub open spec fn enc_content_entries(cs: Seq<(Seq<char>, Seq<char>)>) -> Seq<u64>
    decreases cs.len(),
{
    if cs.len() == 0 {
        Seq::empty()
    } else {
        enc_content_entries(cs.drop_last()) + enc_str(cs.last().0) + enc_str(cs.last().1)
    }
}

pub open spec fn enc_content(cs: Seq<(Seq<char>, Seq<char>)>) -> Seq<u64> {
    seq![cs.len() as u64] + enc_content_entries(cs)
}

pub open spec fn enc_entity(em: EntityModel) -> Seq<u64> {
    enc_content(em.display) + enc_content(em.attributes) + enc_str(em.manager) + enc_position(
        em.position,
    ) + enc_str(em.entity_type) + enc_content(em.extentions)
}

pub open spec fn enc_entity_entries(es: Seq<(u128, EntityModel)>) -> Seq<u64>
    decreases es.len(),
{
    if es.len() == 0 {
        Seq::empty()
    } else {
        enc_entity_entries(es.drop_last()) + enc_u128(es.last().0) + enc_entity(es.last().1)
    }
}

pub open spec fn enc_entities(es: Seq<(u128, EntityModel)>) -> Seq<u64> {
    seq![es.len() as u64] + enc_entity_entries(es)
}

pub open spec fn enc_pending_entries(ps: Seq<(u128, u128)>) -> Seq<u64>
    decreases ps.len(),
{
    if ps.len() == 0 {
        Seq::empty()
    } else {
        enc_pending_entries(ps.drop_last()) + enc_u128(ps.last().0) + enc_u128(ps.last().1)
    }
}

pub open spec fn enc_pending(ps: Seq<(u128, u128)>) -> Seq<u64> {
    seq![ps.len() as u64] + enc_pending_entries(ps)
}

pub open spec fn enc_stats_entries(ss: Seq<(Seq<char>, PlayerStats)>) -> Seq<u64>
    decreases ss.len(),
{
    if ss.len() == 0 {
        Seq::empty()
    } else {
        enc_stats_entries(ss.drop_last()) + enc_str(ss.last().0) + enc_stats(ss.last().1)
    }
}

pub open spec fn enc_stats_table(ss: Seq<(Seq<char>, PlayerStats)>) -> Seq<u64> {
    seq![ss.len() as u64] + enc_stats_entries(ss)
}

pub open spec fn enc_state(m: StateModel) -> Seq<u64> {
    enc_str(m.scene) + enc_position(m.zone.0) + enc_position(m.zone.1) + enc_entities(m.entities)
        + enc_pending(m.pending_spawns) + enc_entities(m.destroyed_entities) + enc_stats_table(
        m.stats,
    ) + seq![m.elapsed] + enc_content(m.data)
}

// ------------------------------------------------------------------
// token decoders
// ------------------------------------------------------------------

pub open spec fn sdec_u64(t: Seq<u64>, pos: int) -> Option<(u64, int)> {
    if 0 <= pos < t.len() {
        Some((t[pos], pos + 1))
    } else {
        None
    }
}

pub open spec fn sdec_char(t: Seq<u64>, pos: int) -> Option<(char, int)> {
    match sdec_u64(t, pos) {
        Some((v, p)) => if v <= u32::MAX && vstd::utf8::is_scalar(v as u32) {
            Some(((v as u32) as char, p))
        } else {
            None
        },
        None => None,
    }
}

pub open spec fn sdec_chars(t: Seq<u64>, pos: int, cnt: nat) -> Option<(Seq<char>, int)>
    decreases cnt,
{
    if cnt == 0 {
        Some((Seq::empty(), pos))
    } else {
        match sdec_char(t, pos) {
            Some((c, p)) => match sdec_chars(t, p, (cnt - 1) as nat) {
                Some((s, p2)) => Some((seq![c] + s, p2)),
                None => None,
            },
            None => None,
        }
    }
}

pub open spec fn sdec_str(t: Seq<u64>, pos: int) -> Option<(Seq<char>, int)> {
    match sdec_u64(t, pos) {
        Some((n, p)) => sdec_chars(t, p, n as nat),
        None => None,
    }
}

pub open spec fn sdec_u128(t: Seq<u64>, pos: int) -> Option<(u128, int)> {
    match sdec_u64(t, pos) {
        Some((lo, p)) => match sdec_u64(t, p) {
            Some((hi, p2)) => Some((((hi as u128) << 64) | (lo as u128), p2)),
            None => None,
        },
        None => None,
    }
}

pub open spec fn sdec_opt_u64(t: Seq<u64>, pos: int) -> Option<(Option<u64>, int)> {
    match sdec_u64(t, pos) {
        Some((tag, p)) => if tag == 0 {
            Some((None, p))
        } else if tag == 1 {
            match sdec_u64(t, p) {
                Some((v, p2)) => Some((Some(v), p2)),
                None => None,
            }
        } else {
            None
        },
        None => None,
    }
}

pub open spec fn sdec_position(t: Seq<u64>, pos: int) -> Option<(Position, int)> {
    match sdec_u64(t, pos) {
        Some((x, p)) => match sdec_u64(t, p) {
            Some((y, p2)) => Some((Position { x: x as i64, y: y as i64 }, p2)),
            None => None,
        },
        None => None,
    }
}

pub open spec fn sdec_stats(t: Seq<u64>, pos: int) -> Option<(PlayerStats, int)> {
    match sdec_u64(t, pos) {
        Some((k, p)) => match sdec_u128(t, p) {
            Some((xp, p2)) => match sdec_opt_u64(t, p2) {
                Some((d, p3)) => Some(
                    (PlayerStats { kills: k as i32, xp_accrual: xp, death: d }, p3),
                ),
                None => None,
            },
            None => None,
        },
        None => None,
    }
}

pub open spec fn sdec_content_entries(t: Seq<u64>, pos: int, cnt: nat) -> Option<
    (Seq<(Seq<char>, Seq<char>)>, int),
>
    decreases cnt,
{
    if cnt == 0 {
        Some((Seq::empty(), pos))
    } else {
        match sdec_str(t, pos) {
            Some((k, p)) => match sdec_str(t, p) {
                Some((v, p2)) => match sdec_content_entries(t, p2, (cnt - 1) as nat) {
                    Some((rest, p3)) => Some((seq![(k, v)] + rest, p3)),
                    None => None,
                },
                None => None,
            },
            None => None,
        }
    }
}

pub open spec fn sdec_content(t: Seq<u64>, pos: int) -> Option<(Seq<(Seq<char>, Seq<char>)>, int)> {
    match sdec_u64(t, pos) {
        Some((n, p)) => sdec_content_entries(t, p, n as nat),
        None => None,
    }
}

pub open spec fn sdec_entity(t: Seq<u64>, pos: int) -> Option<(EntityModel, int)> {
    match sdec_content(t, pos) {
        Some((display, p1)) => match sdec_content(t, p1) {
            Some((attributes, p2)) => match sdec_str(t, p2) {
                Some((manager, p3)) => match sdec_position(t, p3) {
                    Some((position, p4)) => match sdec_str(t, p4) {
                        Some((entity_type, p5)) => match sdec_content(t, p5) {
                            Some((extentions, p6)) => Some(
                                (
                                    EntityModel {
                                        display,
                                        attributes,
                                        manager,
                                        position,
                                        entity_type,
                                        extentions,
                                    },
                                    p6,
                                ),
                            ),
                            None => None,
                        },
                        None => None,
                    },
                    None => None,
                },
                None => None,
            },
            None => None,
        },
        None => None,
    }
}

pub open spec fn sdec_entity_entries(t: Seq<u64>, pos: int, cnt: nat) -> Option<
    (Seq<(u128, EntityModel)>, int),
>
    decreases cnt,
{
    if cnt == 0 {
        Some((Seq::empty(), pos))
    } else {
        match sdec_u128(t, pos) {
            Some((k, p)) => match sdec_entity(t, p) {
                Some((em, p2)) => match sdec_entity_entries(t, p2, (cnt - 1) as nat) {
                    Some((rest, p3)) => Some((seq![(k, em)] + rest, p3)),
                    None => None,
                },
                None => None,
            },
            None => None,
        }
    }
}

pub open spec fn sdec_entities(t: Seq<u64>, pos: int) -> Option<(Seq<(u128, EntityModel)>, int)> {
    match sdec_u64(t, pos) {
        Some((n, p)) => sdec_entity_entries(t, p, n as nat),
        None => None,
    }
}

pub open spec fn sdec_pending_entries(t: Seq<u64>, pos: int, cnt: nat) -> Option<
    (Seq<(u128, u128)>, int),
>
    decreases cnt,
{
    if cnt == 0 {
        Some((Seq::empty(), pos))
    } else {
        match sdec_u128(t, pos) {
            Some((k, p)) => match sdec_u128(t, p) {
                Some((v, p2)) => match sdec_pending_entries(t, p2, (cnt - 1) as nat) {
                    Some((rest, p3)) => Some((seq![(k, v)] + rest, p3)),
                    None => None,
                },
                None => None,
            },
            None => None,
        }
    }
}

pub open spec fn sdec_pending(t: Seq<u64>, pos: int) -> Option<(Seq<(u128, u128)>, int)> {
    match sdec_u64(t, pos) {
        Some((n, p)) => sdec_pending_entries(t, p, n as nat),
        None => None,
    }
}

pub open spec fn sdec_stats_entries(t: Seq<u64>, pos: int, cnt: nat) -> Option<
    (Seq<(Seq<char>, PlayerStats)>, int),
>
    decreases cnt,
{
    if cnt == 0 {
        Some((Seq::empty(), pos))
    } else {
        match sdec_str(t, pos) {
            Some((k, p)) => match sdec_stats(t, p) {
                Some((st, p2)) => match sdec_stats_entries(t, p2, (cnt - 1) as nat) {
                    Some((rest, p3)) => Some((seq![(k, st)] + rest, p3)),
                    None => None,
                },
                None => None,
            },
            None => None,
        }
    }
}

pub open spec fn sdec_stats_table(t: Seq<u64>, pos: int) -> Option<
    (Seq<(Seq<char>, PlayerStats)>, int),
> {
    match sdec_u64(t, pos) {
        Some((n, p)) => sdec_stats_entries(t, p, n as nat),
        None => None,
    }
}

pub open spec fn sdec_state(t: Seq<u64>, pos: int) -> Option<(StateModel, int)> {
    match sdec_str(t, pos) {
        Some((scene, p1)) => match sdec_position(t, p1) {
            Some((z0, p2)) => match sdec_position(t, p2) {
                Some((z1, p3)) => match sdec_entities(t, p3) {
                    Some((entities, p4)) => match sdec_pending(t, p4) {
                        Some((pending_spawns, p5)) => match sdec_entities(t, p5) {
                            Some((destroyed_entities, p6)) => match sdec_stats_table(t, p6) {
                                Some((stats, p7)) => match sdec_u64(t, p7) {
                                    Some((elapsed, p8)) => match sdec_content(t, p8) {
                                        Some((data, p9)) => Some(
                                            (
                                                StateModel {
                                                    scene,
                                                    zone: (z0, z1),
                                                    entities,
                                                    pending_spawns,
                                                    destroyed_entities,
                                                    stats,
                                                    elapsed,
                                                    data,
                                                },
                                                p9,
                                            ),
                                        ),
                                        None => None,
                                    },
                                    None => None,
                                },
                                None => None,
                            },
                            None => None,
                        },
                        None => None,
                    },
                    None => None,
                },
                None => None,
            },
            None => None,
        },
        None => None,
    }
}


/// Every list written with a 64-bit count must fit one.
pub open spec fn content_sizes_ok(cs: Seq<(Seq<char>, Seq<char>)>) -> bool {
    &&& cs.len() < 0x10000000000000000
    &&& (forall|i: int|
        0 <= i < cs.len() ==> (#[trigger] cs[i]).0.len() < 0x10000000000000000 && cs[i].1.len()
            < 0x10000000000000000)
}

pub open spec fn entity_sizes_ok(em: EntityModel) -> bool {
    &&& content_sizes_ok(em.display)
    &&& content_sizes_ok(em.attributes)
    &&& content_sizes_ok(em.extentions)
    &&& em.manager.len() < 0x10000000000000000
    &&& em.entity_type.len() < 0x10000000000000000
}

pub open spec fn entities_sizes_ok(es: Seq<(u128, EntityModel)>) -> bool {
    &&& es.len() < 0x10000000000000000
    &&& (forall|i: int| 0 <= i < es.len() ==> entity_sizes_ok((#[trigger] es[i]).1))
}

pub open spec fn model_sizes_ok(m: StateModel) -> bool {
    &&& m.scene.len() < 0x10000000000000000
    &&& entities_sizes_ok(m.entities)
    &&& m.pending_spawns.len() < 0x10000000000000000
    &&& entities_sizes_ok(m.destroyed_entities)
    &&& m.stats.len() < 0x10000000000000000
    &&& (forall|i: int|
        0 <= i < m.stats.len() ==> (#[trigger] m.stats[i]).0.len() < 0x10000000000000000)
    &&& content_sizes_ok(m.data)
}

// ------------------------------------------------------------------
// the round-trip law: decoding reads back exactly what was encoded
// ------------------------------------------------------------------

proof fn lemma_rt_u64(pre: Seq<u64>, x: u64, suf: Seq<u64>)
    ensures
        sdec_u64(pre + seq![x] + suf, pre.len() as int) == Some((x, pre.len() as int + 1)),
{
    let t = pre + seq![x] + suf;
    assert(t[pre.len() as int] == x);
}

proof fn lemma_rt_char(pre: Seq<u64>, c: char, suf: Seq<u64>)
    ensures
        sdec_char(pre + seq![c as u64] + suf, pre.len() as int) == Some((c, pre.len() as int + 1)),
{
    lemma_rt_u64(pre, c as u64, suf);
    vstd::utf8::char_is_scalar(c);
    assert((c as u64) as u32 == c as u32);
    vstd::utf8::char_u32_cast(c, c as u32);
    assert(((c as u64) as u32) as char == c);
}

proof fn lemma_rt_chars(pre: Seq<u64>, s: Seq<char>, suf: Seq<u64>)
    ensures
        sdec_chars(pre + enc_chars(s) + suf, pre.len() as int, s.len()) == Some(
            (s, pre.len() as int + enc_chars(s).len()),
        ),
    decreases s.len(),
{
    let t = pre + enc_chars(s) + suf;
    if s.len() == 0 {
        assert(enc_chars(s).len() == 0);
    } else {
        let c = s[0];
        let rest = s.drop_first();
        assert(enc_chars(s) =~= seq![c as u64] + enc_chars(rest));
        assert(t =~= pre + seq![c as u64] + (enc_chars(rest) + suf));
        lemma_rt_char(pre, c, enc_chars(rest) + suf);
        assert(t =~= (pre + seq![c as u64]) + enc_chars(rest) + suf);
        lemma_rt_chars(pre + seq![c as u64], rest, suf);
        assert(seq![c] + rest =~= s);
    }
}

proof fn lemma_rt_str(pre: Seq<u64>, s: Seq<char>, suf: Seq<u64>)
    requires
        s.len() < 0x10000000000000000,
    ensures
        sdec_str(pre + enc_str(s) + suf, pre.len() as int) == Some(
            (s, pre.len() as int + enc_str(s).len()),
        ),
{
    let t = pre + enc_str(s) + suf;
    assert(t =~= pre + seq![s.len() as u64] + (enc_chars(s) + suf));
    lemma_rt_u64(pre, s.len() as u64, suf + enc_chars(s));
    assert(sdec_u64(t, pre.len() as int) == Some((s.len() as u64, pre.len() as int + 1))) by {
        assert(t[pre.len() as int] == s.len() as u64);
    }
    assert(t =~= (pre + seq![s.len() as u64]) + enc_chars(s) + suf);
    lemma_rt_chars(pre + seq![s.len() as u64], s, suf);
    assert((s.len() as u64) as nat == s.len());
}

proof fn lemma_rt_u128(pre: Seq<u64>, x: u128, suf: Seq<u64>)
    ensures
        sdec_u128(pre + enc_u128(x) + suf, pre.len() as int) == Some((x, pre.len() as int + 2)),
{
    let t = pre + enc_u128(x) + suf;
    assert(t[pre.len() as int] == x as u64);
    assert(t[pre.len() as int + 1] == (x >> 64) as u64);
    assert((((x >> 64) as u64 as u128) << 64) | (x as u64 as u128) == x) by (bit_vector);
}

proof fn lemma_rt_opt_u64(pre: Seq<u64>, o: Option<u64>, suf: Seq<u64>)
    ensures
        sdec_opt_u64(pre + enc_opt_u64(o) + suf, pre.len() as int) == Some(
            (o, pre.len() as int + enc_opt_u64(o).len()),
        ),
{
    let t = pre + enc_opt_u64(o) + suf;
    match o {
        None => {
            assert(t[pre.len() as int] == 0u64);
        }
        Some(v) => {
            assert(t[pre.len() as int] == 1u64);
            assert(t[pre.len() as int + 1] == v);
        }
    }
}

proof fn lemma_rt_position(pre: Seq<u64>, p: Position, suf: Seq<u64>)
    ensures
        sdec_position(pre + enc_position(p) + suf, pre.len() as int) == Some((p, pre.len() as int + 2)),
{
    let t = pre + enc_position(p) + suf;
    assert(t[pre.len() as int] == p.x as u64);
    assert(t[pre.len() as int + 1] == p.y as u64);
    let x = p.x;
    let y = p.y;
    assert((x as u64) as i64 == x) by (bit_vector);
    assert((y as u64) as i64 == y) by (bit_vector);
}

proof fn lemma_rt_stats(pre: Seq<u64>, st: PlayerStats, suf: Seq<u64>)
    ensures
        sdec_stats(pre + enc_stats(st) + suf, pre.len() as int) == Some(
            (st, pre.len() as int + enc_stats(st).len()),
        ),
{
    let t = pre + enc_stats(st) + suf;
    assert(t[pre.len() as int] == st.kills as u64);
    let k = st.kills;
    assert((k as u64) as i32 == k) by (bit_vector);
    assert(t =~= (pre + seq![st.kills as u64]) + enc_u128(st.xp_accrual) + (enc_opt_u64(st.death)
        + suf));
    lemma_rt_u128(pre + seq![st.kills as u64], st.xp_accrual, enc_opt_u64(st.death) + suf);
    assert(t =~= (pre + seq![st.kills as u64] + enc_u128(st.xp_accrual)) + enc_opt_u64(st.death)
        + suf);
    lemma_rt_opt_u64(pre + seq![st.kills as u64] + enc_u128(st.xp_accrual), st.death, suf);
}

proof fn lemma_enc_content_entries_cons(cs: Seq<(Seq<char>, Seq<char>)>)
    requires
        cs.len() > 0,
    ensures
        enc_content_entries(cs) == enc_str(cs[0].0) + enc_str(cs[0].1) + enc_content_entries(
            cs.drop_first(),
        ),
    decreases cs.len(),
{
    if cs.len() == 1 {
        assert(cs.drop_last() =~= Seq::<(Seq<char>, Seq<char>)>::empty());
        assert(cs.drop_first() =~= Seq::<(Seq<char>, Seq<char>)>::empty());
        assert(enc_content_entries(cs) =~= enc_str(cs[0].0) + enc_str(cs[0].1)
            + enc_content_entries(cs.drop_first()));
    } else {
        let dl = cs.drop_last();
        lemma_enc_content_entries_cons(dl);
        assert(cs.drop_first().drop_last() =~= dl.drop_first());
        assert(cs.drop_first().last() == cs.last());
        assert(dl[0] == cs[0]);
        assert(enc_content_entries(cs.drop_first()) == enc_content_entries(
            dl.drop_first(),
        ) + enc_str(cs.last().0) + enc_str(cs.last().1));
        assert(enc_content_entries(cs) =~= enc_str(cs[0].0) + enc_str(cs[0].1)
            + enc_content_entries(cs.drop_first()));
    }
}

proof fn lemma_rt_content_entries(pre: Seq<u64>, cs: Seq<(Seq<char>, Seq<char>)>, suf: Seq<u64>)
    requires
        content_sizes_ok(cs),
    ensures
        sdec_content_entries(pre + enc_content_entries(cs) + suf, pre.len() as int, cs.len())
            == Some((cs, pre.len() as int + enc_content_entries(cs).len())),
    decreases cs.len(),
{
    let t = pre + enc_content_entries(cs) + suf;
    if cs.len() == 0 {
        assert(enc_content_entries(cs).len() == 0);
        assert(cs =~= Seq::<(Seq<char>, Seq<char>)>::empty());
    } else {
        lemma_enc_content_entries_cons(cs);
        let e0 = cs[0];
        let rest = cs.drop_first();
        assert(t =~= pre + enc_str(e0.0) + (enc_str(e0.1) + enc_content_entries(rest) + suf));
        lemma_rt_str(pre, e0.0, enc_str(e0.1) + enc_content_entries(rest) + suf);
        let p1 = pre + enc_str(e0.0);
        assert(t =~= p1 + enc_str(e0.1) + (enc_content_entries(rest) + suf));
        lemma_rt_str(p1, e0.1, enc_content_entries(rest) + suf);
        let p2 = p1 + enc_str(e0.1);
        assert(t =~= p2 + enc_content_entries(rest) + suf);
        lemma_rt_content_entries(p2, rest, suf);
        assert(seq![(e0.0, e0.1)] + rest =~= cs);
        assert((e0.0, e0.1) == e0);
    }
}

proof fn lemma_rt_content(pre: Seq<u64>, cs: Seq<(Seq<char>, Seq<char>)>, suf: Seq<u64>)
    requires
        content_sizes_ok(cs),
    ensures
        sdec_content(pre + enc_content(cs) + suf, pre.len() as int) == Some(
            (cs, pre.len() as int + enc_content(cs).len()),
        ),
{
    let t = pre + enc_content(cs) + suf;
    assert(t[pre.len() as int] == cs.len() as u64);
    assert(t =~= (pre + seq![cs.len() as u64]) + enc_content_entries(cs) + suf);
    lemma_rt_content_entries(pre + seq![cs.len() as u64], cs, suf);
    assert((cs.len() as u64) as nat == cs.len());
}

#[verifier::rlimit(100)]
#[verifier::spinoff_prover]
proof fn lemma_rt_entity(pre: Seq<u64>, em: EntityModel, suf: Seq<u64>)
    requires
        entity_sizes_ok(em),
    ensures
        sdec_entity(pre + enc_entity(em) + suf, pre.len() as int) == Some(
            (em, pre.len() as int + enc_entity(em).len()),
        ),
{
    let t = pre + enc_entity(em) + suf;
    assert(t =~= pre + enc_content(em.display) + (enc_content(em.attributes) + enc_str(em.manager)
        + enc_position(em.position) + enc_str(em.entity_type) + enc_content(em.extentions) + suf));
    lemma_rt_content(
        pre,
        em.display,
        enc_content(em.attributes) + enc_str(em.manager) + enc_position(em.position) + enc_str(
            em.entity_type,
        ) + enc_content(em.extentions) + suf,
    );
    let p1 = pre + enc_content(em.display);
    assert(t =~= p1 + enc_content(em.attributes) + (enc_str(em.manager) + enc_position(em.position)
        + enc_str(em.entity_type) + enc_content(em.extentions) + suf));
    lemma_rt_content(
        p1,
        em.attributes,
        enc_str(em.manager) + enc_position(em.position) + enc_str(em.entity_type) + enc_content(
            em.extentions,
        ) + suf,
    );
    let p2 = p1 + enc_content(em.attributes);
    assert(t =~= p2 + enc_str(em.manager) + (enc_position(em.position) + enc_str(em.entity_type)
        + enc_content(em.extentions) + suf));
    lemma_rt_str(
        p2,
        em.manager,
        enc_position(em.position) + enc_str(em.entity_type) + enc_content(em.extentions) + suf,
    );
    let p3 = p2 + enc_str(em.manager);
    assert(t =~= p3 + enc_position(em.position) + (enc_str(em.entity_type) + enc_content(
        em.extentions,
    ) + suf));
    lemma_rt_position(p3, em.position, enc_str(em.entity_type) + enc_content(em.extentions) + suf);
    let p4 = p3 + enc_position(em.position);
    assert(t =~= p4 + enc_str(em.entity_type) + (enc_content(em.extentions) + suf));
    lemma_rt_str(p4, em.entity_type, enc_content(em.extentions) + suf);
    let p5 = p4 + enc_str(em.entity_type);
    assert(t =~= p5 + enc_content(em.extentions) + suf);
    lemma_rt_content(p5, em.extentions, suf);
    assert(sdec_entity(t, pre.len() as int) matches Some((em2, p)) && em2 == em && p == pre.len() as int + enc_entity(em).len());
}

proof fn lemma_enc_entity_entries_cons(es: Seq<(u128, EntityModel)>)
    requires
        es.len() > 0,
    ensures
        enc_entity_entries(es) == enc_u128(es[0].0) + enc_entity(es[0].1) + enc_entity_entries(
            es.drop_first(),
        ),
    decreases es.len(),
{
    if es.len() == 1 {
        assert(es.drop_last() =~= Seq::<(u128, EntityModel)>::empty());
        assert(es.drop_first() =~= Seq::<(u128, EntityModel)>::empty());
        assert(enc_entity_entries(es) =~= enc_u128(es[0].0) + enc_entity(es[0].1)
            + enc_entity_entries(es.drop_first()));
    } else {
        let dl = es.drop_last();
        lemma_enc_entity_entries_cons(dl);
        assert(es.drop_first().drop_last() =~= dl.drop_first());
        assert(es.drop_first().last() == es.last());
        assert(dl[0] == es[0]);
        assert(enc_entity_entries(es.drop_first()) == enc_entity_entries(dl.drop_first())
            + enc_u128(es.last().0) + enc_entity(es.last().1));
        assert(enc_entity_entries(es) =~= enc_u128(es[0].0) + enc_entity(es[0].1)
            + enc_entity_entries(es.drop_first()));
    }
}

#[verifier::rlimit(100)]
#[verifier::spinoff_prover]
proof fn lemma_rt_entity_entries(pre: Seq<u64>, es: Seq<(u128, EntityModel)>, suf: Seq<u64>)
    requires
        entities_sizes_ok(es),
    ensures
        sdec_entity_entries(pre + enc_entity_entries(es) + suf, pre.len() as int, es.len()) == Some(
            (es, pre.len() as int + enc_entity_entries(es).len()),
        ),
    decreases es.len(),
{
    let t = pre + enc_entity_entries(es) + suf;
    if es.len() == 0 {
        assert(enc_entity_entries(es).len() == 0);
        assert(es =~= Seq::<(u128, EntityModel)>::empty());
    } else {
        lemma_enc_entity_entries_cons(es);
        let e0 = es[0];
        let rest = es.drop_first();
        assert(t =~= pre + enc_u128(e0.0) + (enc_entity(e0.1) + enc_entity_entries(rest) + suf));
        lemma_rt_u128(pre, e0.0, enc_entity(e0.1) + enc_entity_entries(rest) + suf);
        let p1 = pre + enc_u128(e0.0);
        assert(t =~= p1 + enc_entity(e0.1) + (enc_entity_entries(rest) + suf));
        lemma_rt_entity(p1, e0.1, enc_entity_entries(rest) + suf);
        let p2 = p1 + enc_entity(e0.1);
        assert(t =~= p2 + enc_entity_entries(rest) + suf);
        lemma_rt_entity_entries(p2, rest, suf);
        assert(seq![(e0.0, e0.1)] + rest =~= es);
        assert((e0.0, e0.1) == e0);
    }
}

proof fn lemma_rt_entities(pre: Seq<u64>, es: Seq<(u128, EntityModel)>, suf: Seq<u64>)
    requires
        entities_sizes_ok(es),
    ensures
        sdec_entities(pre + enc_entities(es) + suf, pre.len() as int) == Some(
            (es, pre.len() as int + enc_entities(es).len()),
        ),
{
    let t = pre + enc_entities(es) + suf;
    assert(t[pre.len() as int] == es.len() as u64);
    assert(t =~= (pre + seq![es.len() as u64]) + enc_entity_entries(es) + suf);
    lemma_rt_entity_entries(pre + seq![es.len() as u64], es, suf);
    assert((es.len() as u64) as nat == es.len());
}

proof fn lemma_enc_pending_entries_cons(ps: Seq<(u128, u128)>)
    requires
        ps.len() > 0,
    ensures
        enc_pending_entries(ps) == enc_u128(ps[0].0) + enc_u128(ps[0].1) + enc_pending_entries(
            ps.drop_first(),
        ),
    decreases ps.len(),
{
    if ps.len() == 1 {
        assert(ps.drop_last() =~= Seq::<(u128, u128)>::empty());
        assert(ps.drop_first() =~= Seq::<(u128, u128)>::empty());
        assert(enc_pending_entries(ps) =~= enc_u128(ps[0].0) + enc_u128(ps[0].1)
            + enc_pending_entries(ps.drop_first()));
    } else {
        let dl = ps.drop_last();
        lemma_enc_pending_entries_cons(dl);
        assert(ps.drop_first().drop_last() =~= dl.drop_first());
        assert(ps.drop_first().last() == ps.last());
        assert(dl[0] == ps[0]);
        assert(enc_pending_entries(ps.drop_first()) == enc_pending_entries(dl.drop_first())
            + enc_u128(ps.last().0) + enc_u128(ps.last().1));
        assert(enc_pending_entries(ps) =~= enc_u128(ps[0].0) + enc_u128(ps[0].1)
            + enc_pending_entries(ps.drop_first()));
    }
}

proof fn lemma_rt_pending_entries(pre: Seq<u64>, ps: Seq<(u128, u128)>, suf: Seq<u64>)
    requires
        ps.len() < 0x10000000000000000,
    ensures
        sdec_pending_entries(pre + enc_pending_entries(ps) + suf, pre.len() as int, ps.len())
            == Some((ps, pre.len() as int + enc_pending_entries(ps).len())),
    decreases ps.len(),
{
    let t = pre + enc_pending_entries(ps) + suf;
    if ps.len() == 0 {
        assert(enc_pending_entries(ps).len() == 0);
        assert(ps =~= Seq::<(u128, u128)>::empty());
    } else {
        lemma_enc_pending_entries_cons(ps);
        let e0 = ps[0];
        let rest = ps.drop_first();
        assert(t =~= pre + enc_u128(e0.0) + (enc_u128(e0.1) + enc_pending_entries(rest) + suf));
        lemma_rt_u128(pre, e0.0, enc_u128(e0.1) + enc_pending_entries(rest) + suf);
        let p1 = pre + enc_u128(e0.0);
        assert(t =~= p1 + enc_u128(e0.1) + (enc_pending_entries(rest) + suf));
        lemma_rt_u128(p1, e0.1, enc_pending_entries(rest) + suf);
        let p2 = p1 + enc_u128(e0.1);
        assert(t =~= p2 + enc_pending_entries(rest) + suf);
        lemma_rt_pending_entries(p2, rest, suf);
        assert(seq![(e0.0, e0.1)] + rest =~= ps);
        assert((e0.0, e0.1) == e0);
    }
}

proof fn lemma_rt_pending(pre: Seq<u64>, ps: Seq<(u128, u128)>, suf: Seq<u64>)
    requires
        ps.len() < 0x10000000000000000,
    ensures
        sdec_pending(pre + enc_pending(ps) + suf, pre.len() as int) == Some(
            (ps, pre.len() as int + enc_pending(ps).len()),
        ),
{
    let t = pre + enc_pending(ps) + suf;
    assert(t[pre.len() as int] == ps.len() as u64);
    assert(t =~= (pre + seq![ps.len() as u64]) + enc_pending_entries(ps) + suf);
    lemma_rt_pending_entries(pre + seq![ps.len() as u64], ps, suf);
    assert((ps.len() as u64) as nat == ps.len());
}

proof fn lemma_enc_stats_entries_cons(ss: Seq<(Seq<char>, PlayerStats)>)
    requires
        ss.len() > 0,
    ensures
        enc_stats_entries(ss) == enc_str(ss[0].0) + enc_stats(ss[0].1) + enc_stats_entries(
            ss.drop_first(),
        ),
    decreases ss.len(),
{
    if ss.len() == 1 {
        assert(ss.drop_last() =~= Seq::<(Seq<char>, PlayerStats)>::empty());
        assert(ss.drop_first() =~= Seq::<(Seq<char>, PlayerStats)>::empty());
        assert(enc_stats_entries(ss) =~= enc_str(ss[0].0) + enc_stats(ss[0].1) + enc_stats_entries(
            ss.drop_first(),
        ));
    } else {
        let dl = ss.drop_last();
        lemma_enc_stats_entries_cons(dl);
        assert(ss.drop_first().drop_last() =~= dl.drop_first());
        assert(ss.drop_first().last() == ss.last());
        assert(dl[0] == ss[0]);
        assert(enc_stats_entries(ss.drop_first()) == enc_stats_entries(dl.drop_first()) + enc_str(
            ss.last().0,
        ) + enc_stats(ss.last().1));
        assert(enc_stats_entries(ss) =~= enc_str(ss[0].0) + enc_stats(ss[0].1) + enc_stats_entries(
            ss.drop_first(),
        ));
    }
}

#[verifier::rlimit(100)]
#[verifier::spinoff_prover]
proof fn lemma_rt_stats_entries(pre: Seq<u64>, ss: Seq<(Seq<char>, PlayerStats)>, suf: Seq<u64>)
    requires
        ss.len() < 0x10000000000000000 && (forall|i: int| 0 <= i < ss.len() ==> (#[trigger] ss[i]).0.len() < 0x10000000000000000),
    ensures
        sdec_stats_entries(pre + enc_stats_entries(ss) + suf, pre.len() as int, ss.len()) == Some(
            (ss, pre.len() as int + enc_stats_entries(ss).len()),
        ),
    decreases ss.len(),
{
    let t = pre + enc_stats_entries(ss) + suf;
    if ss.len() == 0 {
        assert(enc_stats_entries(ss).len() == 0);
        assert(ss =~= Seq::<(Seq<char>, PlayerStats)>::empty());
    } else {
        lemma_enc_stats_entries_cons(ss);
        let e0 = ss[0];
        let rest = ss.drop_first();
        assert(t =~= pre + enc_str(e0.0) + (enc_stats(e0.1) + enc_stats_entries(rest) + suf));
        lemma_rt_str(pre, e0.0, enc_stats(e0.1) + enc_stats_entries(rest) + suf);
        let p1 = pre + enc_str(e0.0);
        assert(t =~= p1 + enc_stats(e0.1) + (enc_stats_entries(rest) + suf));
        lemma_rt_stats(p1, e0.1, enc_stats_entries(rest) + suf);
        let p2 = p1 + enc_stats(e0.1);
        assert(t =~= p2 + enc_stats_entries(rest) + suf);
        lemma_rt_stats_entries(p2, rest, suf);
        assert(seq![(e0.0, e0.1)] + rest =~= ss);
        assert((e0.0, e0.1) == e0);
    }
}

proof fn lemma_rt_stats_table(pre: Seq<u64>, ss: Seq<(Seq<char>, PlayerStats)>, suf: Seq<u64>)
    requires
        ss.len() < 0x10000000000000000 && (forall|i: int| 0 <= i < ss.len() ==> (#[trigger] ss[i]).0.len() < 0x10000000000000000),
    ensures
        sdec_stats_table(pre + enc_stats_table(ss) + suf, pre.len() as int) == Some(
            (ss, pre.len() as int + enc_stats_table(ss).len()),
        ),
{
    let t = pre + enc_stats_table(ss) + suf;
    assert(t[pre.len() as int] == ss.len() as u64);
    assert(t =~= (pre + seq![ss.len() as u64]) + enc_stats_entries(ss) + suf);
    lemma_rt_stats_entries(pre + seq![ss.len() as u64], ss, suf);
    assert((ss.len() as u64) as nat == ss.len());
}

/// The back half of the state layout decodes to its components.
#[verifier::rlimit(100)]
#[verifier::spinoff_prover]
proof fn lemma_rt_state_back(pre: Seq<u64>, m: StateModel)
    requires
        model_sizes_ok(m),
    ensures
        ({
            let t = pre + enc_pending(m.pending_spawns) + enc_entities(m.destroyed_entities)
                + enc_stats_table(m.stats) + seq![m.elapsed] + enc_content(m.data);
            let p4 = pre.len() as int;
            &&& sdec_pending(t, p4) == Some(
                (m.pending_spawns, p4 + enc_pending(m.pending_spawns).len()),
            )
            &&& (sdec_entities(t, p4 + enc_pending(m.pending_spawns).len()) == Some(
                (
                    m.destroyed_entities,
                    p4 + enc_pending(m.pending_spawns).len() + enc_entities(
                        m.destroyed_entities,
                    ).len(),
                ),
            ))
            &&& (sdec_stats_table(
                t,
                p4 + enc_pending(m.pending_spawns).len() + enc_entities(
                    m.destroyed_entities,
                ).len(),
            ) == Some(
                (
                    m.stats,
                    p4 + enc_pending(m.pending_spawns).len() + enc_entities(
                        m.destroyed_entities,
                    ).len() + enc_stats_table(m.stats).len(),
                ),
            ))
            &&& (sdec_u64(
                t,
                p4 + enc_pending(m.pending_spawns).len() + enc_entities(
                    m.destroyed_entities,
                ).len() + enc_stats_table(m.stats).len(),
            ) == Some(
                (
                    m.elapsed,
                    p4 + enc_pending(m.pending_spawns).len() + enc_entities(
                        m.destroyed_entities,
                    ).len() + enc_stats_table(m.stats).len() + 1,
                ),
            ))
            &&& (sdec_content(
                t,
                p4 + enc_pending(m.pending_spawns).len() + enc_entities(
                    m.destroyed_entities,
                ).len() + enc_stats_table(m.stats).len() + 1,
            ) == Some((m.data, t.len() as int)))
        }),
{
    let t = pre + enc_pending(m.pending_spawns) + enc_entities(m.destroyed_entities)
        + enc_stats_table(m.stats) + seq![m.elapsed] + enc_content(m.data);
    assert(t =~= pre + enc_pending(m.pending_spawns) + (enc_entities(m.destroyed_entities)
        + enc_stats_table(m.stats) + seq![m.elapsed] + enc_content(m.data)));
    lemma_rt_pending(
        pre,
        m.pending_spawns,
        enc_entities(m.destroyed_entities) + enc_stats_table(m.stats) + seq![m.elapsed]
            + enc_content(m.data),
    );
    let p5 = pre + enc_pending(m.pending_spawns);
    assert(t =~= p5 + enc_entities(m.destroyed_entities) + (enc_stats_table(m.stats)
        + seq![m.elapsed] + enc_content(m.data)));
    lemma_rt_entities(
        p5,
        m.destroyed_entities,
        enc_stats_table(m.stats) + seq![m.elapsed] + enc_content(m.data),
    );
    let p6 = p5 + enc_entities(m.destroyed_entities);
    assert(t =~= p6 + enc_stats_table(m.stats) + (seq![m.elapsed] + enc_content(m.data)));
    lemma_rt_stats_table(p6, m.stats, seq![m.elapsed] + enc_content(m.data));
    let p7 = p6 + enc_stats_table(m.stats);
    assert(t =~= p7 + seq![m.elapsed] + enc_content(m.data));
    lemma_rt_u64(p7, m.elapsed, enc_content(m.data));
    let p8 = p7 + seq![m.elapsed];
    assert(t =~= p8 + enc_content(m.data) + Seq::<u64>::empty());
    lemma_rt_content(p8, m.data, Seq::<u64>::empty());
}

/// The front half of the state layout decodes to its components.
#[verifier::rlimit(100)]
#[verifier::spinoff_prover]
proof fn lemma_rt_state_front(m: StateModel, suf: Seq<u64>)
    requires
        model_sizes_ok(m),
    ensures
        ({
            let front = enc_str(m.scene) + enc_position(m.zone.0) + enc_position(m.zone.1)
                + enc_entities(m.entities);
            let t = front + suf;
            &&& sdec_str(t, 0) == Some((m.scene, enc_str(m.scene).len() as int))
            &&& sdec_position(t, enc_str(m.scene).len() as int) == Some(
                (m.zone.0, enc_str(m.scene).len() as int + 2),
            )
            &&& sdec_position(t, enc_str(m.scene).len() as int + 2) == Some(
                (m.zone.1, enc_str(m.scene).len() as int + 4),
            )
            &&& sdec_entities(t, enc_str(m.scene).len() as int + 4) == Some(
                (m.entities, front.len() as int),
            )
        }),
{
    let front = enc_str(m.scene) + enc_position(m.zone.0) + enc_position(m.zone.1) + enc_entities(
        m.entities,
    );
    let t = front + suf;
    let pre0 = Seq::<u64>::empty();
    assert(t =~= pre0 + enc_str(m.scene) + (enc_position(m.zone.0) + enc_position(m.zone.1)
        + enc_entities(m.entities) + suf));
    lemma_rt_str(
        pre0,
        m.scene,
        enc_position(m.zone.0) + enc_position(m.zone.1) + enc_entities(m.entities) + suf,
    );
    let p1 = pre0 + enc_str(m.scene);
    assert(t =~= p1 + enc_position(m.zone.0) + (enc_position(m.zone.1) + enc_entities(m.entities)
        + suf));
    lemma_rt_position(p1, m.zone.0, enc_position(m.zone.1) + enc_entities(m.entities) + suf);
    let p2 = p1 + enc_position(m.zone.0);
    assert(t =~= p2 + enc_position(m.zone.1) + (enc_entities(m.entities) + suf));
    lemma_rt_position(p2, m.zone.1, enc_entities(m.entities) + suf);
    let p3 = p2 + enc_position(m.zone.1);
    assert(t =~= p3 + enc_entities(m.entities) + suf);
    lemma_rt_entities(p3, m.entities, suf);
    assert(p3.len() == enc_str(m.scene).len() + 4);
    assert(front.len() == p3.len() + enc_entities(m.entities).len());
}

/// Whatever state model was encoded is decoded back unchanged.
#[verifier::rlimit(100)]
#[verifier::spinoff_prover]
pub proof fn lemma_state_round_trip(m: StateModel)
    requires
        model_sizes_ok(m),
    ensures
        sdec_state(enc_state(m), 0) == Some((m, enc_state(m).len() as int)),
{
    let t = enc_state(m);
    let front = enc_str(m.scene) + enc_position(m.zone.0) + enc_position(m.zone.1) + enc_entities(
        m.entities,
    );
    let back = enc_pending(m.pending_spawns) + enc_entities(m.destroyed_entities)
        + enc_stats_table(m.stats) + seq![m.elapsed] + enc_content(m.data);
    assert(t =~= front + back);
    lemma_rt_state_front(m, back);
    assert(t =~= front + enc_pending(m.pending_spawns) + enc_entities(m.destroyed_entities)
        + enc_stats_table(m.stats) + seq![m.elapsed] + enc_content(m.data));
    lemma_rt_state_back(front, m);
    assert(t.len() == front.len() + back.len());
}


// ------------------------------------------------------------------
// the byte layer: tokens as little-endian bytes
// ------------------------------------------------------------------

pub open spec fn bytes_of(t: Seq<u64>) -> Seq<u8>
    decreases t.len(),
{
    if t.len() == 0 {
        Seq::empty()
    } else {
        bytes_of(t.drop_last()) + vstd::bytes::spec_u64_to_le_bytes(t.last())
    }
}

pub open spec fn tokens_of(b: Seq<u8>) -> Seq<u64>
    decreases b.len(),
{
    if b.len() < 8 {
        Seq::empty()
    } else {
        tokens_of(b.take(b.len() - 8)) + seq![
            vstd::bytes::spec_u64_from_le_bytes(b.skip(b.len() - 8)),
        ]
    }
}

proof fn lemma_bytes_of_len(t: Seq<u64>)
    ensures
        bytes_of(t).len() == 8 * t.len(),
    decreases t.len(),
{
    if t.len() > 0 {
        lemma_bytes_of_len(t.drop_last());
        vstd::bytes::lemma_auto_spec_u64_to_from_le_bytes();
    }
}

/// Laying tokens out as bytes and reading them back changes nothing.
pub proof fn lemma_tokens_round_trip(t: Seq<u64>)
    ensures
        tokens_of(bytes_of(t)) == t,
        bytes_of(t).len() == 8 * t.len(),
    decreases t.len(),
{
    lemma_bytes_of_len(t);
    vstd::bytes::lemma_auto_spec_u64_to_from_le_bytes();
    if t.len() > 0 {
        lemma_tokens_round_trip(t.drop_last());
        let b = bytes_of(t);
        lemma_bytes_of_len(t.drop_last());
        assert(b.take(b.len() - 8) =~= bytes_of(t.drop_last()));
        assert(b.skip(b.len() - 8) =~= vstd::bytes::spec_u64_to_le_bytes(t.last()));
        assert(tokens_of(b) =~= t);
    } else {
        assert(tokens_of(bytes_of(t)) =~= t);
    }
}

/// What a byte payload means as a session state, if anything: a whole
/// number of tokens that decode to exactly one state.
pub open spec fn dec_bytes_state(b: Seq<u8>) -> Option<StateModel> {
    if b.len() % 8 == 0 {
        match sdec_state(tokens_of(b), 0) {
            Some((m, p)) => if p == tokens_of(b).len() {
                Some(m)
            } else {
                None
            },
            None => None,
        }
    } else {
        None
    }
}

/// An encoded state reads back unchanged, bytes and all.
#[verifier::rlimit(100)]
#[verifier::spinoff_prover]
pub proof fn lemma_bytes_state_round_trip(m: StateModel)
    requires
        model_sizes_ok(m),
    ensures
        dec_bytes_state(bytes_of(enc_state(m))) == Some(m),
{
    lemma_tokens_round_trip(enc_state(m));
    lemma_state_round_trip(m);
}

// ------------------------------------------------------------------
// trusted items of the codec
// ------------------------------------------------------------------

/// Relies on `char::from_u32`: `Some` exactly for Unicode scalar values,
/// and the returned character carries the given code point.
pub assume_specification[ char::from_u32 ](i: u32) -> (r: Option<char>)
    ensures
        r is Some <==> vstd::utf8::is_scalar(i),
        r matches Some(c) ==> c as u32 == i,
;

/// Relies on `String::push`: appends exactly the given character.
pub assume_specification[ String::push ](s: &mut String, c: char)
    ensures
        final(s)@ == old(s)@.push(c),
;

// ------------------------------------------------------------------
// executable encoding
// ------------------------------------------------------------------

fn push_str_tokens(out: &mut Vec<u64>, s: &String)
    ensures
        final(out)@ == old(out)@ + enc_str(s@),
        s@.len() < 0x10000000000000000,
{
    let n = s.as_str().unicode_len();
    out.push(n as u64);
    let mut i: usize = 0;
    while i < n
        invariant
            n == s@.len(),
            i <= n,
            out@ == old(out)@ + seq![s@.len() as u64] + enc_chars(s@.take(i as int)),
        decreases n - i,
    {
        let c = s.as_str().get_char(i);
        out.push(c as u64);
        proof {
            assert(enc_chars(s@.take(i as int + 1)) =~= enc_chars(s@.take(i as int)).push(
                s@[i as int] as u64,
            ));
        }
        i = i + 1;
    }
    proof {
        assert(s@.take(n as int) =~= s@);
        assert(out@ =~= old(out)@ + enc_str(s@));
    }
}

fn push_u128_tokens(out: &mut Vec<u64>, x: u128)
    ensures
        final(out)@ == old(out)@ + enc_u128(x),
{
    out.push(x as u64);
    out.push((x >> 64) as u64);
    proof {
        assert(out@ =~= old(out)@ + enc_u128(x));
    }
}

fn push_opt_tokens(out: &mut Vec<u64>, o: &Option<u64>)
    ensures
        final(out)@ == old(out)@ + enc_opt_u64(*o),
{
    match o {
        None => {
            out.push(0);
        }
        Some(v) => {
            out.push(1);
            out.push(*v);
        }
    }
    proof {
        assert(out@ =~= old(out)@ + enc_opt_u64(*o));
    }
}

fn push_position_tokens(out: &mut Vec<u64>, p: &Position)
    ensures
        final(out)@ == old(out)@ + enc_position(*p),
{
    out.push(p.x as u64);
    out.push(p.y as u64);
    proof {
        assert(out@ =~= old(out)@ + enc_position(*p));
    }
}

fn push_stats_tokens(out: &mut Vec<u64>, st: &PlayerStats)
    ensures
        final(out)@ == old(out)@ + enc_stats(*st),
{
    out.push(st.kills as u64);
    push_u128_tokens(out, st.xp_accrual);
    push_opt_tokens(out, &st.death);
    proof {
        assert(out@ =~= old(out)@ + enc_stats(*st));
    }
}

#[verifier::rlimit(100)]
#[verifier::spinoff_prover]
fn push_content_tokens(out: &mut Vec<u64>, c: &Content)
    ensures
        final(out)@ == old(out)@ + enc_content(content_model(*c)),
        content_sizes_ok(content_model(*c)),
{
    let n = c.0.entries.len();
    out.push(n as u64);
    let ghost cs = content_model(*c);
    proof {
        assert(cs.len() == n);
    }
    let mut i: usize = 0;
    while i < n
        invariant
            n == c.0.entries@.len(),
            cs == content_model(*c),
            cs.len() == n,
            i <= n,
            out@ == old(out)@ + seq![cs.len() as u64] + enc_content_entries(cs.take(i as int)),
            forall|j: int|
                0 <= j < i ==> (#[trigger] cs[j]).0.len() < 0x10000000000000000 && cs[j].1.len()
                    < 0x10000000000000000,
        decreases n - i,
    {
        let pair = &c.0.entries[i];
        push_str_tokens(out, &pair.0);
        push_str_tokens(out, &pair.1);
        proof {
            assert(cs.take(i as int + 1).drop_last() =~= cs.take(i as int));
            assert(cs.take(i as int + 1).last() == cs[i as int]);
            assert(cs[i as int].0 == pair.0@ && cs[i as int].1 == pair.1@);
            assert(out@ =~= old(out)@ + seq![cs.len() as u64] + enc_content_entries(
                cs.take(i as int + 1),
            ));
        }
        i = i + 1;
    }
    proof {
        assert(cs.take(n as int) =~= cs);
        assert(out@ =~= old(out)@ + enc_content(cs));
    }
}

fn push_entity_tokens(out: &mut Vec<u64>, e: &Entity)
    ensures
        final(out)@ == old(out)@ + enc_entity(entity_model(*e)),
        entity_sizes_ok(entity_model(*e)),
{
    push_content_tokens(out, &e.display);
    push_content_tokens(out, &e.attributes);
    push_str_tokens(out, &e.manager);
    push_position_tokens(out, &e.position);
    push_str_tokens(out, &e.entity_type);
    push_content_tokens(out, &e.extentions);
    proof {
        assert(out@ =~= old(out)@ + enc_entity(entity_model(*e)));
    }
}

fn push_entities_tokens(out: &mut Vec<u64>, es: &Entities)
    ensures
        final(out)@ == old(out)@ + enc_entities(entities_model(*es)),
        entities_sizes_ok(entities_model(*es)),
{
    let n = es.0.entries.len();
    out.push(n as u64);
    let ghost ms = entities_model(*es);
    proof {
        assert(ms.len() == n);
    }
    let mut i: usize = 0;
    while i < n
        invariant
            n == es.0.entries@.len(),
            ms == entities_model(*es),
            ms.len() == n,
            i <= n,
            out@ == old(out)@ + seq![ms.len() as u64] + enc_entity_entries(ms.take(i as int)),
            forall|j: int| 0 <= j < i ==> entity_sizes_ok((#[trigger] ms[j]).1),
        decreases n - i,
    {
        let id = es.0.entries[i].0;
        push_u128_tokens(out, id);
        push_entity_tokens(out, &es.0.entries[i].1);
        proof {
            assert(ms.take(i as int + 1).drop_last() =~= ms.take(i as int));
            assert(ms.take(i as int + 1).last() == ms[i as int]);
            assert(ms[i as int] == (id, entity_model(es.0.entries@[i as int].1)));
            assert(out@ =~= old(out)@ + seq![ms.len() as u64] + enc_entity_entries(
                ms.take(i as int + 1),
            ));
        }
        i = i + 1;
    }
    proof {
        assert(ms.take(n as int) =~= ms);
        assert(out@ =~= old(out)@ + enc_entities(ms));
    }
}

fn push_pending_tokens(out: &mut Vec<u64>, ps: &IdMap<EntityId>)
    ensures
        final(out)@ == old(out)@ + enc_pending(
            ps.entries@.map_values(|p: (u128, EntityId)| (p.0, p.1.0)),
        ),
        ps.entries@.len() < 0x10000000000000000,
{
    let n = ps.entries.len();
    out.push(n as u64);
    let ghost ms = ps.entries@.map_values(|p: (u128, EntityId)| (p.0, p.1.0));
    proof {
        assert(ms.len() == n);
    }
    let mut i: usize = 0;
    while i < n
        invariant
            n == ps.entries@.len(),
            ms == ps.entries@.map_values(|p: (u128, EntityId)| (p.0, p.1.0)),
            ms.len() == n,
            i <= n,
            out@ == old(out)@ + seq![ms.len() as u64] + enc_pending_entries(ms.take(i as int)),
        decreases n - i,
    {
        push_u128_tokens(out, ps.entries[i].0);
        push_u128_tokens(out, ps.entries[i].1.0);
        proof {
            assert(ms.take(i as int + 1).drop_last() =~= ms.take(i as int));
            assert(ms.take(i as int + 1).last() == ms[i as int]);
            assert(out@ =~= old(out)@ + seq![ms.len() as u64] + enc_pending_entries(
                ms.take(i as int + 1),
            ));
        }
        i = i + 1;
    }
    proof {
        assert(ms.take(n as int) =~= ms);
        assert(out@ =~= old(out)@ + enc_pending(ms));
    }
}

fn push_stats_table_tokens(out: &mut Vec<u64>, ss: &StrMap<PlayerStats>)
    ensures
        final(out)@ == old(out)@ + enc_stats_table(
            ss.entries@.map_values(|p: (String, PlayerStats)| (p.0@, p.1)),
        ),
        ss.entries@.len() < 0x10000000000000000,
        forall|j: int|
            0 <= j < ss.entries@.len() ==> (#[trigger] ss.entries@[j]).0@.len()
                < 0x10000000000000000,
{
    let n = ss.entries.len();
    out.push(n as u64);
    let ghost ms = ss.entries@.map_values(|p: (String, PlayerStats)| (p.0@, p.1));
    proof {
        assert(ms.len() == n);
    }
    let mut i: usize = 0;
    while i < n
        invariant
            n == ss.entries@.len(),
            ms == ss.entries@.map_values(|p: (String, PlayerStats)| (p.0@, p.1)),
            ms.len() == n,
            i <= n,
            out@ == old(out)@ + seq![ms.len() as u64] + enc_stats_entries(ms.take(i as int)),
            forall|j: int|
                0 <= j < i ==> (#[trigger] ss.entries@[j]).0@.len() < 0x10000000000000000,
        decreases n - i,
    {
        push_str_tokens(out, &ss.entries[i].0);
        push_stats_tokens(out, &ss.entries[i].1);
        proof {
            assert(ms.take(i as int + 1).drop_last() =~= ms.take(i as int));
            assert(ms.take(i as int + 1).last() == ms[i as int]);
            assert(out@ =~= old(out)@ + seq![ms.len() as u64] + enc_stats_entries(
                ms.take(i as int + 1),
            ));
        }
        i = i + 1;
    }
    proof {
        assert(ms.take(n as int) =~= ms);
        assert(out@ =~= old(out)@ + enc_stats_table(ms));
    }
}

/// The token stream of a whole state.
fn encode_state_tokens(s: &SessionState) -> (r: Vec<u64>)
    ensures
        r@ == enc_state(state_model(*s)),
        model_sizes_ok(state_model(*s)),
{
    let mut out: Vec<u64> = Vec::new();
    push_str_tokens(&mut out, &s.spawn.scene);
    push_position_tokens(&mut out, &s.spawn.zone.0);
    push_position_tokens(&mut out, &s.spawn.zone.1);
    push_entities_tokens(&mut out, &s.entities);
    push_pending_tokens(&mut out, &s.pending_spawns);
    push_entities_tokens(&mut out, &s.destroyed_entities);
    push_stats_table_tokens(&mut out, &s.stats);
    out.push(s.elapsed);
    push_content_tokens(&mut out, &s.data);
    proof {
        assert(out@ =~= enc_state(state_model(*s)));
        let m = state_model(*s);
        assert(m.pending_spawns.len() == s.pending_spawns.entries@.len());
        assert(m.stats.len() == s.stats.entries@.len());
        assert forall|j: int| 0 <= j < m.stats.len() implies (#[trigger] m.stats[j]).0.len()
            < 0x10000000000000000 by {
            assert(m.stats[j].0 == s.stats.entries@[j].0@);
        }
        assert(model_sizes_ok(m));
    }
    out
}

/// Lay a token stream out as little-endian bytes.
fn tokens_to_bytes(t: &Vec<u64>) -> (r: Vec<u8>)
    ensures
        r@ == bytes_of(t@),
{
    let n = t.len();
    let mut out: Vec<u8> = Vec::new();
    let mut i: usize = 0;
    while i < n
        invariant
            n == t@.len(),
            i <= n,
            out@ == bytes_of(t@.take(i as int)),
        decreases n - i,
    {
        let mut b = vstd::bytes::u64_to_le_bytes(t[i]);
        out.append(&mut b);
        proof {
            assert(t@.take(i as int + 1).drop_last() =~= t@.take(i as int));
            assert(t@.take(i as int + 1).last() == t@[i as int]);
        }
        i = i + 1;
    }
    proof {
        assert(t@.take(n as int) =~= t@);
    }
    out
}

/// Read a byte payload back as tokens; `None` unless it is a whole number
/// of eight-byte words.
fn bytes_to_tokens(b: &Vec<u8>) -> (r: Option<Vec<u64>>)
    ensures
        match r {
            Some(t) => b@.len() % 8 == 0 && t@ == tokens_of(b@),
            None => b@.len() % 8 != 0,
        },
{
    let n = b.len();
    if n % 8 != 0 {
        return None;
    }
    let cnt = n / 8;
    let mut out: Vec<u64> = Vec::new();
    let mut i: usize = 0;
    proof {
        assert(b@.take(0) =~= Seq::<u8>::empty());
    }
    while i < cnt
        invariant
            n == b@.len(),
            n % 8 == 0,
            cnt == n / 8,
            i <= cnt,
            out@ == tokens_of(b@.take(8 * i as int)),
        decreases cnt - i,
    {
        let chunk = vstd::slice::slice_subrange(b.as_slice(), 8 * i, 8 * i + 8);
        let v = vstd::bytes::u64_from_le_bytes(chunk);
        out.push(v);
        proof {
            let pref = b@.take(8 * (i as int + 1));
            assert(pref.take(pref.len() - 8) =~= b@.take(8 * i as int));
            assert(pref.skip(pref.len() - 8) =~= b@.subrange(8 * i as int, 8 * i as int + 8));
            assert(chunk@ == b@.subrange(8 * i as int, 8 * i as int + 8));
        }
        i = i + 1;
    }
    proof {
        assert(b@.take(8 * cnt as int) =~= b@);
    }
    Some(out)
}

/// Serialize a state for persistence.
pub fn encode_state(s: &SessionState) -> (r: Vec<u8>)
    ensures
        r@ == bytes_of(enc_state(state_model(*s))),
        dec_bytes_state(r@) == Some(state_model(*s)),
{
    let toks = encode_state_tokens(s);
    proof {
        lemma_bytes_state_round_trip(state_model(*s));
    }
    tokens_to_bytes(&toks)
}

impl Content {
    /// The payload serialized on its own, in the same framing the state
    /// uses.
    pub fn into_bytes(&self) -> (r: Vec<u8>)
        ensures
            r@ == bytes_of(enc_content(content_model(*self))),
    {
        let mut out: Vec<u64> = Vec::new();
        push_content_tokens(&mut out, self);
        tokens_to_bytes(&out)
    }
}



// ------------------------------------------------------------------
// executable decoding
// ------------------------------------------------------------------

proof fn lemma_sdec_chars_bounds(t: Seq<u64>, pos: int, cnt: nat)
    ensures
        sdec_chars(t, pos, cnt) matches Some((s, p)) ==> p == pos + cnt && s.len() == cnt && (cnt
            > 0 ==> pos >= 0 && pos + cnt <= t.len()),
    decreases cnt,
{
    if cnt > 0 {
        match sdec_char(t, pos) {
            Some((c, p)) => {
                lemma_sdec_chars_bounds(t, p, (cnt - 1) as nat);
            }
            None => {}
        }
    }
}

proof fn lemma_sdec_str_bounds(t: Seq<u64>, pos: int)
    ensures
        sdec_str(t, pos) matches Some((s, p)) ==> pos >= 0 && pos < p <= t.len(),
{
    match sdec_u64(t, pos) {
        Some((n, p)) => {
            lemma_sdec_chars_bounds(t, p, n as nat);
        }
        None => {}
    }
}

proof fn lemma_sdec_content_entries_bounds(t: Seq<u64>, pos: int, cnt: nat)
    ensures
        sdec_content_entries(t, pos, cnt) matches Some((s, p)) ==> s.len() == cnt && pos <= p && (
        cnt > 0 ==> pos >= 0 && pos + cnt <= p <= t.len()),
    decreases cnt,
{
    if cnt > 0 {
        lemma_sdec_str_bounds(t, pos);
        match sdec_str(t, pos) {
            Some((k, p)) => {
                lemma_sdec_str_bounds(t, p);
                match sdec_str(t, p) {
                    Some((v, p2)) => {
                        lemma_sdec_content_entries_bounds(t, p2, (cnt - 1) as nat);
                    }
                    None => {}
                }
            }
            None => {}
        }
    }
}

proof fn lemma_sdec_content_bounds(t: Seq<u64>, pos: int)
    ensures
        sdec_content(t, pos) matches Some((s, p)) ==> pos >= 0 && pos < p <= t.len(),
{
    match sdec_u64(t, pos) {
        Some((n, p)) => {
            lemma_sdec_content_entries_bounds(t, p, n as nat);
        }
        None => {}
    }
}

proof fn lemma_sdec_entity_bounds(t: Seq<u64>, pos: int)
    ensures
        sdec_entity(t, pos) matches Some((em, p)) ==> pos >= 0 && pos < p <= t.len(),
{
    lemma_sdec_content_bounds(t, pos);
    match sdec_content(t, pos) {
        Some((d, p1)) => {
            lemma_sdec_content_bounds(t, p1);
            match sdec_content(t, p1) {
                Some((a, p2)) => {
                    lemma_sdec_str_bounds(t, p2);
                    match sdec_str(t, p2) {
                        Some((mg, p3)) => {
                            match sdec_position(t, p3) {
                                Some((ps, p4)) => {
                                    lemma_sdec_str_bounds(t, p4);
                                    match sdec_str(t, p4) {
                                        Some((et, p5)) => {
                                            lemma_sdec_content_bounds(t, p5);
                                        }
                                        None => {}
                                    }
                                }
                                None => {}
                            }
                        }
                        None => {}
                    }
                }
                None => {}
            }
        }
        None => {}
    }
}

proof fn lemma_sdec_entity_entries_bounds(t: Seq<u64>, pos: int, cnt: nat)
    ensures
        sdec_entity_entries(t, pos, cnt) matches Some((s, p)) ==> s.len() == cnt && pos <= p && (
        cnt > 0 ==> pos >= 0 && pos + cnt <= p <= t.len()),
    decreases cnt,
{
    if cnt > 0 {
        match sdec_u128(t, pos) {
            Some((k, p)) => {
                lemma_sdec_entity_bounds(t, p);
                match sdec_entity(t, p) {
                    Some((em, p2)) => {
                        lemma_sdec_entity_entries_bounds(t, p2, (cnt - 1) as nat);
                    }
                    None => {}
                }
            }
            None => {}
        }
    }
}

proof fn lemma_sdec_pending_entries_bounds(t: Seq<u64>, pos: int, cnt: nat)
    ensures
        sdec_pending_entries(t, pos, cnt) matches Some((s, p)) ==> s.len() == cnt && pos <= p && (
        cnt > 0 ==> pos >= 0 && pos + cnt <= p <= t.len()),
    decreases cnt,
{
    if cnt > 0 {
        match sdec_u128(t, pos) {
            Some((k, p)) => {
                match sdec_u128(t, p) {
                    Some((v, p2)) => {
                        lemma_sdec_pending_entries_bounds(t, p2, (cnt - 1) as nat);
                    }
                    None => {}
                }
            }
            None => {}
        }
    }
}

proof fn lemma_sdec_stats_entries_bounds(t: Seq<u64>, pos: int, cnt: nat)
    ensures
        sdec_stats_entries(t, pos, cnt) matches Some((s, p)) ==> s.len() == cnt && pos <= p && (
        cnt > 0 ==> pos >= 0 && pos + cnt <= p <= t.len()),
    decreases cnt,
{
    if cnt > 0 {
        lemma_sdec_str_bounds(t, pos);
        match sdec_str(t, pos) {
            Some((k, p)) => {
                match sdec_stats(t, p) {
                    Some((st, p2)) => {
                        lemma_sdec_stats_entries_bounds(t, p2, (cnt - 1) as nat);
                    }
                    None => {}
                }
            }
            None => {}
        }
    }
}

fn dec_tok(toks: &Vec<u64>, pos: usize) -> (r: Option<(u64, usize)>)
    ensures
        match r {
            Some((v, p)) => sdec_u64(toks@, pos as int) == Some((v, p as int)) && p <= toks@.len(),
            None => sdec_u64(toks@, pos as int) is None,
        },
{
    if pos < toks.len() {
        Some((toks[pos], pos + 1))
    } else {
        None
    }
}

fn dec_char(toks: &Vec<u64>, pos: usize) -> (r: Option<(char, usize)>)
    ensures
        match r {
            Some((c, p)) => sdec_char(toks@, pos as int) == Some((c, p as int)) && p <= toks@.len(),
            None => sdec_char(toks@, pos as int) is None,
        },
{
    match dec_tok(toks, pos) {
        Some((v, p)) => {
            if v <= u32::MAX as u64 {
                match char::from_u32(v as u32) {
                    Some(c) => {
                        proof {
                            vstd::utf8::char_u32_cast(c, v as u32);
                        }
                        Some((c, p))
                    }
                    None => None,
                }
            } else {
                None
            }
        }
        None => None,
    }
}

fn dec_string(toks: &Vec<u64>, pos: usize) -> (r: Option<(String, usize)>)
    ensures
        match r {
            Some((s, p)) => sdec_str(toks@, pos as int) == Some((s@, p as int)) && p <= toks@.len(),
            None => sdec_str(toks@, pos as int) is None,
        },
{
    match dec_tok(toks, pos) {
        Some((n, p0)) => {
            proof {
                lemma_sdec_chars_bounds(toks@, p0 as int, n as nat);
            }
            if n > (toks.len() - p0) as u64 {
                return None;
            }
            let cnt = n as usize;
            let mut s = String::new();
            let mut cur = p0;
            let mut i: usize = 0;
            proof {
                assert(cnt as nat == n as nat);
                match sdec_chars(toks@, p0 as int, cnt as nat) {
                    Some((rest, q)) => {
                        assert(Seq::<char>::empty() + rest =~= rest);
                    }
                    None => {}
                }
            }
            while i < cnt
                invariant
                    cnt <= toks@.len() - p0,
                    i <= cnt,
                    cur <= toks@.len(),
                    sdec_str(toks@, pos as int) == (match sdec_chars(
                        toks@,
                        cur as int,
                        (cnt - i) as nat,
                    ) {
                        Some((rest, q)) => Some((s@ + rest, q)),
                        None => None,
                    }),
                decreases cnt - i,
            {
                match dec_char(toks, cur) {
                    Some((c, p2)) => {
                        proof {
                            let rest_before = sdec_chars(toks@, cur as int, (cnt - i) as nat);
                            let rest_after = sdec_chars(toks@, p2 as int, (cnt - i - 1) as nat);
                            match rest_after {
                                Some((rs, q)) => {
                                    assert(rest_before == Some((seq![c] + rs, q)));
                                    assert(s@.push(c) + rs =~= s@ + (seq![c] + rs));
                                }
                                None => {}
                            }
                        }
                        s.push(c);
                        cur = p2;
                    }
                    None => {
                        return None;
                    }
                }
                i = i + 1;
            }
            proof {
                assert(sdec_chars(toks@, cur as int, 0) == Some(
                    (Seq::<char>::empty(), cur as int),
                ));
                assert(s@ + Seq::<char>::empty() =~= s@);
            }
            Some((s, cur))
        }
        None => None,
    }
}

fn dec_u128(toks: &Vec<u64>, pos: usize) -> (r: Option<(u128, usize)>)
    ensures
        match r {
            Some((v, p)) => sdec_u128(toks@, pos as int) == Some((v, p as int)) && p
                <= toks@.len(),
            None => sdec_u128(toks@, pos as int) is None,
        },
{
    match dec_tok(toks, pos) {
        Some((lo, p)) => match dec_tok(toks, p) {
            Some((hi, p2)) => Some((((hi as u128) << 64) | (lo as u128), p2)),
            None => None,
        },
        None => None,
    }
}

fn dec_opt(toks: &Vec<u64>, pos: usize) -> (r: Option<(Option<u64>, usize)>)
    ensures
        match r {
            Some((v, p)) => sdec_opt_u64(toks@, pos as int) == Some((v, p as int)) && p
                <= toks@.len(),
            None => sdec_opt_u64(toks@, pos as int) is None,
        },
{
    match dec_tok(toks, pos) {
        Some((tag, p)) => {
            if tag == 0 {
                Some((None, p))
            } else if tag == 1 {
                match dec_tok(toks, p) {
                    Some((v, p2)) => Some((Some(v), p2)),
                    None => None,
                }
            } else {
                None
            }
        }
        None => None,
    }
}

fn dec_position(toks: &Vec<u64>, pos: usize) -> (r: Option<(Position, usize)>)
    ensures
        match r {
            Some((v, p)) => sdec_position(toks@, pos as int) == Some((v, p as int)) && p
                <= toks@.len(),
            None => sdec_position(toks@, pos as int) is None,
        },
{
    match dec_tok(toks, pos) {
        Some((x, p)) => match dec_tok(toks, p) {
            Some((y, p2)) => Some((Position { x: x as i64, y: y as i64 }, p2)),
            None => None,
        },
        None => None,
    }
}

fn dec_stats(toks: &Vec<u64>, pos: usize) -> (r: Option<(PlayerStats, usize)>)
    ensures
        match r {
            Some((v, p)) => sdec_stats(toks@, pos as int) == Some((v, p as int)) && p
                <= toks@.len(),
            None => sdec_stats(toks@, pos as int) is None,
        },
{
    match dec_tok(toks, pos) {
        Some((k, p)) => match dec_u128(toks, p) {
            Some((xp, p2)) => match dec_opt(toks, p2) {
                Some((d, p3)) => Some(
                    (PlayerStats { kills: k as i32, xp_accrual: xp, death: d }, p3),
                ),
                None => None,
            },
            None => None,
        },
        None => None,
    }
}

fn dec_content(toks: &Vec<u64>, pos: usize) -> (r: Option<(Content, usize)>)
    ensures
        match r {
            Some((c, p)) => sdec_content(toks@, pos as int) == Some((content_model(c), p as int))
                && p <= toks@.len(),
            None => sdec_content(toks@, pos as int) is None,
        },
{
    match dec_tok(toks, pos) {
        Some((n, p0)) => {
            proof {
                lemma_sdec_content_entries_bounds(toks@, p0 as int, n as nat);
            }
            if n > (toks.len() - p0) as u64 {
                return None;
            }
            let cnt = n as usize;
            let mut entries: Vec<(String, String)> = Vec::new();
            let mut cur = p0;
            let mut i: usize = 0;
            proof {
                assert(cnt as nat == n as nat);
                assert(crate::content::content_entries(entries@) =~= Seq::<
                    (Seq<char>, Seq<char>),
                >::empty());
                match sdec_content_entries(toks@, p0 as int, cnt as nat) {
                    Some((rest, q)) => {
                        assert(crate::content::content_entries(entries@) + rest =~= rest);
                    }
                    None => {}
                }
            }
            while i < cnt
                invariant
                    cnt <= toks@.len() - p0,
                    i <= cnt,
                    cur <= toks@.len(),
                    sdec_content(toks@, pos as int) == (match
                        sdec_content_entries(toks@, cur as int, (cnt - i) as nat) {
                        Some((rest, q)) => Some(
                            (crate::content::content_entries(entries@) + rest, q),
                        ),
                        None => None,
                    }),
                decreases cnt - i,
            {
                let ghost e0 = entries@;
                match dec_string(toks, cur) {
                    Some((k, p1)) => {
                        match dec_string(toks, p1) {
                            Some((v, p2)) => {
                                proof {
                                    let rest_before = sdec_content_entries(
                                        toks@,
                                        cur as int,
                                        (cnt - i) as nat,
                                    );
                                    let rest_after = sdec_content_entries(
                                        toks@,
                                        p2 as int,
                                        (cnt - i - 1) as nat,
                                    );
                                    match rest_after {
                                        Some((rs, q)) => {
                                            assert(rest_before == Some(
                                                (seq![(k@, v@)] + rs, q),
                                            ));
                                        }
                                        None => {}
                                    }
                                }
                                entries.push((k, v));
                                proof {
                                    assert(crate::content::content_entries(entries@)
                                        =~= crate::content::content_entries(e0).push(
                                        (entries@.last().0@, entries@.last().1@),
                                    ));
                                    let rest_after = sdec_content_entries(
                                        toks@,
                                        p2 as int,
                                        (cnt - i - 1) as nat,
                                    );
                                    match rest_after {
                                        Some((rs, q)) => {
                                            assert(crate::content::content_entries(entries@) + rs
                                                =~= crate::content::content_entries(e0) + (seq![
                                                (entries@.last().0@, entries@.last().1@),
                                            ] + rs));
                                        }
                                        None => {}
                                    }
                                }
                                cur = p2;
                            }
                            None => {
                                return None;
                            }
                        }
                    }
                    None => {
                        return None;
                    }
                }
                i = i + 1;
            }
            proof {
                assert(crate::content::content_entries(entries@) + Seq::<
                    (Seq<char>, Seq<char>),
                >::empty() =~= crate::content::content_entries(entries@));
            }
            Some((Content(StrMap { entries }), cur))
        }
        None => None,
    }
}

fn dec_entity(toks: &Vec<u64>, pos: usize) -> (r: Option<(Entity, usize)>)
    ensures
        match r {
            Some((e, p)) => sdec_entity(toks@, pos as int) == Some((entity_model(e), p as int))
                && p <= toks@.len(),
            None => sdec_entity(toks@, pos as int) is None,
        },
{
    match dec_content(toks, pos) {
        Some((display, p1)) => match dec_content(toks, p1) {
            Some((attributes, p2)) => match dec_string(toks, p2) {
                Some((manager, p3)) => match dec_position(toks, p3) {
                    Some((position, p4)) => match dec_string(toks, p4) {
                        Some((entity_type, p5)) => match dec_content(toks, p5) {
                            Some((extentions, p6)) => Some(
                                (
                                    Entity {
                                        display,
                                        attributes,
                                        manager,
                                        position,
                                        entity_type,
                                        extentions,
                                    },
                                    p6,
                                ),
                            ),
                            None => None,
                        },
                        None => None,
                    },
                    None => None,
                },
                None => None,
            },
            None => None,
        },
        None => None,
    }
}

fn dec_entities(toks: &Vec<u64>, pos: usize) -> (r: Option<(Entities, usize)>)
    ensures
        match r {
            Some((es, p)) => sdec_entities(toks@, pos as int) == Some(
                (entities_model(es), p as int),
            ) && p <= toks@.len(),
            None => sdec_entities(toks@, pos as int) is None,
        },
{
    match dec_tok(toks, pos) {
        Some((n, p0)) => {
            proof {
                lemma_sdec_entity_entries_bounds(toks@, p0 as int, n as nat);
            }
            if n > (toks.len() - p0) as u64 {
                return None;
            }
            let cnt = n as usize;
            let mut entries: Vec<(u128, Entity)> = Vec::new();
            let mut cur = p0;
            let mut i: usize = 0;
            proof {
                assert(cnt as nat == n as nat);
                let f = |p: (u128, Entity)| (p.0, entity_model(p.1));
                assert(entries@.map_values(f) =~= Seq::<(u128, EntityModel)>::empty());
                match sdec_entity_entries(toks@, p0 as int, cnt as nat) {
                    Some((rest, q)) => {
                        assert(entries@.map_values(f) + rest =~= rest);
                    }
                    None => {}
                }
            }
            while i < cnt
                invariant
                    cnt <= toks@.len() - p0,
                    i <= cnt,
                    cur <= toks@.len(),
                    sdec_entities(toks@, pos as int) == (match sdec_entity_entries(
                        toks@,
                        cur as int,
                        (cnt - i) as nat,
                    ) {
                        Some((rest, q)) => Some(
                            (
                                entries@.map_values(|p: (u128, Entity)| (p.0, entity_model(p.1)))
                                    + rest,
                                q,
                            ),
                        ),
                        None => None,
                    }),
                decreases cnt - i,
            {
                let ghost e0 = entries@;
                match dec_u128(toks, cur) {
                    Some((k, p1)) => {
                        match dec_entity(toks, p1) {
                            Some((ent, p2)) => {
                                proof {
                                    let rest_before = sdec_entity_entries(
                                        toks@,
                                        cur as int,
                                        (cnt - i) as nat,
                                    );
                                    let rest_after = sdec_entity_entries(
                                        toks@,
                                        p2 as int,
                                        (cnt - i - 1) as nat,
                                    );
                                    match rest_after {
                                        Some((rs, q)) => {
                                            assert(rest_before == Some(
                                                (seq![(k, entity_model(ent))] + rs, q),
                                            ));
                                        }
                                        None => {}
                                    }
                                }
                                entries.push((k, ent));
                                proof {
                                    let f = |p: (u128, Entity)| (p.0, entity_model(p.1));
                                    assert(entries@.map_values(f) =~= e0.map_values(f).push(
                                        f(entries@.last()),
                                    ));
                                    let rest_after = sdec_entity_entries(
                                        toks@,
                                        p2 as int,
                                        (cnt - i - 1) as nat,
                                    );
                                    match rest_after {
                                        Some((rs, q)) => {
                                            assert(entries@.map_values(f) + rs =~= e0.map_values(
                                                f,
                                            ) + (seq![f(entries@.last())] + rs));
                                        }
                                        None => {}
                                    }
                                }
                                cur = p2;
                            }
                            None => {
                                return None;
                            }
                        }
                    }
                    None => {
                        return None;
                    }
                }
                i = i + 1;
            }
            proof {
                let f = |p: (u128, Entity)| (p.0, entity_model(p.1));
                assert(entries@.map_values(f) + Seq::<(u128, EntityModel)>::empty()
                    =~= entries@.map_values(f));
            }
            Some((Entities(IdMap { entries }), cur))
        }
        None => None,
    }
}

fn dec_pending(toks: &Vec<u64>, pos: usize) -> (r: Option<(IdMap<EntityId>, usize)>)
    ensures
        match r {
            Some((ps, p)) => sdec_pending(toks@, pos as int) == Some(
                (ps.entries@.map_values(|q: (u128, EntityId)| (q.0, q.1.0)), p as int),
            ) && p <= toks@.len(),
            None => sdec_pending(toks@, pos as int) is None,
        },
{
    match dec_tok(toks, pos) {
        Some((n, p0)) => {
            proof {
                lemma_sdec_pending_entries_bounds(toks@, p0 as int, n as nat);
            }
            if n > (toks.len() - p0) as u64 {
                return None;
            }
            let cnt = n as usize;
            let mut entries: Vec<(u128, EntityId)> = Vec::new();
            let mut cur = p0;
            let mut i: usize = 0;
            proof {
                assert(cnt as nat == n as nat);
                let f = |q2: (u128, EntityId)| (q2.0, q2.1.0);
                assert(entries@.map_values(f) =~= Seq::<(u128, u128)>::empty());
                match sdec_pending_entries(toks@, p0 as int, cnt as nat) {
                    Some((rest, q)) => {
                        assert(entries@.map_values(f) + rest =~= rest);
                    }
                    None => {}
                }
            }
            while i < cnt
                invariant
                    cnt <= toks@.len() - p0,
                    i <= cnt,
                    cur <= toks@.len(),
                    sdec_pending(toks@, pos as int) == (match
                        sdec_pending_entries(toks@, cur as int, (cnt - i) as nat) {
                        Some((rest, q)) => Some(
                            (
                                entries@.map_values(|q2: (u128, EntityId)| (q2.0, q2.1.0)) + rest,
                                q,
                            ),
                        ),
                        None => None,
                    }),
                decreases cnt - i,
            {
                let ghost e0 = entries@;
                match dec_u128(toks, cur) {
                    Some((k, p1)) => {
                        match dec_u128(toks, p1) {
                            Some((v, p2)) => {
                                proof {
                                    let rest_before = sdec_pending_entries(
                                        toks@,
                                        cur as int,
                                        (cnt - i) as nat,
                                    );
                                    let rest_after = sdec_pending_entries(
                                        toks@,
                                        p2 as int,
                                        (cnt - i - 1) as nat,
                                    );
                                    match rest_after {
                                        Some((rs, q)) => {
                                            assert(rest_before == Some((seq![(k, v)] + rs, q)));
                                        }
                                        None => {}
                                    }
                                }
                                entries.push((k, EntityId(v)));
                                proof {
                                    let f = |q2: (u128, EntityId)| (q2.0, q2.1.0);
                                    assert(entries@.map_values(f) =~= e0.map_values(f).push(
                                        (k, v),
                                    ));
                                    let rest_after = sdec_pending_entries(
                                        toks@,
                                        p2 as int,
                                        (cnt - i - 1) as nat,
                                    );
                                    match rest_after {
                                        Some((rs, q)) => {
                                            assert(entries@.map_values(f) + rs =~= e0.map_values(
                                                f,
                                            ) + (seq![(k, v)] + rs));
                                        }
                                        None => {}
                                    }
                                }
                                cur = p2;
                            }
                            None => {
                                return None;
                            }
                        }
                    }
                    None => {
                        return None;
                    }
                }
                i = i + 1;
            }
            proof {
                let f = |q2: (u128, EntityId)| (q2.0, q2.1.0);
                assert(entries@.map_values(f) + Seq::<(u128, u128)>::empty() =~= entries@.map_values(
                    f,
                ));
            }
            Some((IdMap { entries }, cur))
        }
        None => None,
    }
}

fn dec_stats_table(toks: &Vec<u64>, pos: usize) -> (r: Option<(StrMap<PlayerStats>, usize)>)
    ensures
        match r {
            Some((ss, p)) => sdec_stats_table(toks@, pos as int) == Some(
                (ss.entries@.map_values(|q: (String, PlayerStats)| (q.0@, q.1)), p as int),
            ) && p <= toks@.len(),
            None => sdec_stats_table(toks@, pos as int) is None,
        },
{
    match dec_tok(toks, pos) {
        Some((n, p0)) => {
            proof {
                lemma_sdec_stats_entries_bounds(toks@, p0 as int, n as nat);
            }
            if n > (toks.len() - p0) as u64 {
                return None;
            }
            let cnt = n as usize;
            let mut entries: Vec<(String, PlayerStats)> = Vec::new();
            let mut cur = p0;
            let mut i: usize = 0;
            proof {
                assert(cnt as nat == n as nat);
                let f = |q2: (String, PlayerStats)| (q2.0@, q2.1);
                assert(entries@.map_values(f) =~= Seq::<(Seq<char>, PlayerStats)>::empty());
                match sdec_stats_entries(toks@, p0 as int, cnt as nat) {
                    Some((rest, q)) => {
                        assert(entries@.map_values(f) + rest =~= rest);
                    }
                    None => {}
                }
            }
            while i < cnt
                invariant
                    cnt <= toks@.len() - p0,
                    i <= cnt,
                    cur <= toks@.len(),
                    sdec_stats_table(toks@, pos as int) == (match sdec_stats_entries(
                        toks@,
                        cur as int,
                        (cnt - i) as nat,
                    ) {
                        Some((rest, q)) => Some(
                            (
                                entries@.map_values(|q2: (String, PlayerStats)| (q2.0@, q2.1))
                                    + rest,
                                q,
                            ),
                        ),
                        None => None,
                    }),
                decreases cnt - i,
            {
                let ghost e0 = entries@;
                match dec_string(toks, cur) {
                    Some((k, p1)) => {
                        match dec_stats(toks, p1) {
                            Some((st, p2)) => {
                                proof {
                                    let rest_before = sdec_stats_entries(
                                        toks@,
                                        cur as int,
                                        (cnt - i) as nat,
                                    );
                                    let rest_after = sdec_stats_entries(
                                        toks@,
                                        p2 as int,
                                        (cnt - i - 1) as nat,
                                    );
                                    match rest_after {
                                        Some((rs, q)) => {
                                            assert(rest_before == Some((seq![(k@, st)] + rs, q)));
                                        }
                                        None => {}
                                    }
                                }
                                entries.push((k, st));
                                proof {
                                    let f = |q2: (String, PlayerStats)| (q2.0@, q2.1);
                                    assert(entries@.map_values(f) =~= e0.map_values(f).push(
                                        f(entries@.last()),
                                    ));
                                    let rest_after = sdec_stats_entries(
                                        toks@,
                                        p2 as int,
                                        (cnt - i - 1) as nat,
                                    );
                                    match rest_after {
                                        Some((rs, q)) => {
                                            assert(entries@.map_values(f) + rs =~= e0.map_values(
                                                f,
                                            ) + (seq![f(entries@.last())] + rs));
                                        }
                                        None => {}
                                    }
                                }
                                cur = p2;
                            }
                            None => {
                                return None;
                            }
                        }
                    }
                    None => {
                        return None;
                    }
                }
                i = i + 1;
            }
            proof {
                let f = |q2: (String, PlayerStats)| (q2.0@, q2.1);
                assert(entries@.map_values(f) + Seq::<(Seq<char>, PlayerStats)>::empty()
                    =~= entries@.map_values(f));
            }
            Some((StrMap { entries }, cur))
        }
        None => None,
    }
}

/// Read a session state back from its byte payload.  `None` exactly when
/// the bytes are not the encoding of a state.
pub fn decode_state(b: &Vec<u8>) -> (r: Option<SessionState>)
    ensures
        match r {
            Some(st) => dec_bytes_state(b@) == Some(state_model(st)),
            None => dec_bytes_state(b@) is None,
        },
{
    let toks = match bytes_to_tokens(b) {
        Some(t) => t,
        None => {
            return None;
        }
    };
    let (scene, p1) = match dec_string(&toks, 0) {
        Some(x) => x,
        None => {
            return None;
        }
    };
    let (z0, p2) = match dec_position(&toks, p1) {
        Some(x) => x,
        None => {
            return None;
        }
    };
    let (z1, p3) = match dec_position(&toks, p2) {
        Some(x) => x,
        None => {
            return None;
        }
    };
    let (entities, p4) = match dec_entities(&toks, p3) {
        Some(x) => x,
        None => {
            return None;
        }
    };
    let (pending_spawns, p5) = match dec_pending(&toks, p4) {
        Some(x) => x,
        None => {
            return None;
        }
    };
    let (destroyed_entities, p6) = match dec_entities(&toks, p5) {
        Some(x) => x,
        None => {
            return None;
        }
    };
    let (stats, p7) = match dec_stats_table(&toks, p6) {
        Some(x) => x,
        None => {
            return None;
        }
    };
    let (elapsed, p8) = match dec_tok(&toks, p7) {
        Some(x) => x,
        None => {
            return None;
        }
    };
    let (data, p9) = match dec_content(&toks, p8) {
        Some(x) => x,
        None => {
            return None;
        }
    };
    if p9 != toks.len() {
        return None;
    }
    let st = SessionState {
        spawn: Spawn { scene, zone: (z0, z1) },
        entities,
        pending_spawns,
        destroyed_entities,
        stats,
        elapsed,
        data,
    };
    Some(st)
}



/// What a freshly created state means on the wire: the base scene, a zero
/// zone, and every registry empty.
pub open spec fn default_state_model() -> StateModel {
    StateModel {
        scene: "BaseScene"@,
        zone: (Position { x: 0, y: 0 }, Position { x: 0, y: 0 }),
        entities: Seq::empty(),
        pending_spawns: Seq::empty(),
        destroyed_entities: Seq::empty(),
        stats: Seq::empty(),
        elapsed: 0,
        data: Seq::empty(),
    }
}

/// Read a persisted state back, falling back to a fresh default when the
/// payload is malformed, so that the session can continue.
pub fn decode_state_or_default(b: &Vec<u8>) -> (r: SessionState)
    ensures
        dec_bytes_state(b@) matches Some(m) ==> state_model(r) == m,
        dec_bytes_state(b@) is None ==> r.wf() && state_model(r) == default_state_model(),
{
    match decode_state(b) {
        Some(st) => st,
        None => {
            let st = SessionState::default();
            proof {
                assert(entities_model(st.entities) =~= Seq::<(u128, EntityModel)>::empty());
                assert(entities_model(st.destroyed_entities) =~= Seq::<
                    (u128, EntityModel),
                >::empty());
                assert(st.pending_spawns.entries@.map_values(
                    |p: (u128, EntityId)| (p.0, p.1.0),
                ) =~= Seq::<(u128, u128)>::empty());
                assert(st.stats.entries@.map_values(|p: (String, PlayerStats)| (p.0@, p.1))
                    =~= Seq::<(Seq<char>, PlayerStats)>::empty());
                assert(content_model(st.data) =~= Seq::<(Seq<char>, Seq<char>)>::empty());
            }
            st
        }
    }
}

/// What a byte payload means as a content object, if anything.
pub open spec fn dec_bytes_content(b: Seq<u8>) -> Option<Seq<(Seq<char>, Seq<char>)>> {
    if b.len() % 8 == 0 {
        match sdec_content(tokens_of(b), 0) {
            Some((cs, p)) => if p == tokens_of(b).len() {
                Some(cs)
            } else {
                None
            },
            None => None,
        }
    } else {
        None
    }
}

/// Read a content payload back from the framing `into_bytes` produces.
/// `None` exactly when the bytes are not the encoding of one content
/// object.
pub fn decode_content(b: &Vec<u8>) -> (r: Option<Content>)
    ensures
        match r {
            Some(c) => dec_bytes_content(b@) == Some(content_model(c)),
            None => dec_bytes_content(b@) is None,
        },
{
    let toks = match bytes_to_tokens(b) {
        Some(t) => t,
        None => {
            return None;
        }
    };
    match dec_content(&toks, 0) {
        Some((c, p)) => {
            if p == toks.len() {
                Some(c)
            } else {
                None
            }
        }
        None => None,
    }
}


} // verus!
