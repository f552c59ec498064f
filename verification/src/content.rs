//! Opaque JSON-like payloads and the event log.
//!
//! A `Content` is an object with string keys and string values; what a value
//! holds (most often a serialized JSON fragment) is of no concern to the
//! session logic, which only stores and forwards it.

use vstd::prelude::*;
use crate::kv::{pairs_map, str_entries_map, StrMap};

verus! {

/// An opaque key/value payload carried through the session (notifications,
/// entity display data, the session's free-form `data` slot).
pub struct Content(pub StrMap<String>);

/// The entries of a content payload as plain character sequences.
pub open spec fn content_entries(s: Seq<(String, String)>) -> Seq<(Seq<char>, Seq<char>)> {
    s.map_values(|p: (String, String)| (p.0@, p.1@))
}

/// What a content payload means: its keys and values as character sequences.
pub open spec fn content_view(c: Content) -> Map<Seq<char>, Seq<char>> {
    pairs_map(content_entries(c.0.entries@))
}

/// The deep map of an entry list agrees with its shallow map: same keys, and
/// each value is the character sequence of the stored string.
pub proof fn lemma_content_bridge(s: Seq<(String, String)>)
    ensures
        forall|k: Seq<char>|
            pairs_map(content_entries(s)).contains_key(k) == str_entries_map(s).contains_key(k),
        forall|k: Seq<char>|
            str_entries_map(s).contains_key(k) ==> #[trigger] pairs_map(content_entries(s))[k]
                == str_entries_map(s)[k]@,
    decreases s.len(),
{
    if s.len() == 0 {
        assert(content_entries(s).len() == 0);
    } else {
        let rest = s.drop_last();
        lemma_content_bridge(rest);
        assert(content_entries(s).drop_last() =~= content_entries(rest));
        assert(pairs_map(content_entries(s)) == pairs_map(content_entries(rest)).insert(
            s.last().0@,
            s.last().1@,
        ));
        assert(str_entries_map(s) == str_entries_map(rest).insert(s.last().0@, s.last().1));
        assert forall|k: Seq<char>|
            pairs_map(content_entries(s)).contains_key(k) == str_entries_map(s).contains_key(
                k,
            ) by {
            assert(pairs_map(content_entries(rest)).contains_key(k) == str_entries_map(
                rest,
            ).contains_key(k));
        }
        assert forall|k: Seq<char>| str_entries_map(s).contains_key(k) implies #[trigger] pairs_map(
            content_entries(s),
        )[k] == str_entries_map(s)[k]@ by {
            if k != s.last().0@ {
                assert(str_entries_map(rest).contains_key(k));
                assert(pairs_map(content_entries(rest))[k] == str_entries_map(rest)[k]@);
            }
        }
    }
}

impl Content {
    pub open spec fn wf(&self) -> bool {
        self.0.wf()
    }

    pub fn new() -> (r: Self)
        ensures
            r.wf(),
            content_view(r) == Map::<Seq<char>, Seq<char>>::empty(),
            r.0.entries@.len() == 0,
    {
        let r = Content(StrMap::new());
        proof {
            assert(content_entries(r.0.entries@).len() == 0);
        }
        r
    }

    /// Store `v` under `k`, replacing any earlier value.
    pub fn insert(&mut self, k: String, v: String)
        requires
            old(self).wf(),
        ensures
            final(self).wf(),
            content_view(*final(self)) == content_view(*old(self)).insert(k@, v@),
    {
        let ghost old_entries = self.0.entries@;
        self.0.insert(k, v);
        proof {
            lemma_content_bridge(old_entries);
            lemma_content_bridge(self.0.entries@);
            let d_new = content_view(*self);
            let d_old = content_view(*old(self));
            assert forall|q: Seq<char>|
                d_new.contains_key(q) == d_old.insert(k@, v@).contains_key(q) by {
                assert(d_new.contains_key(q) == str_entries_map(self.0.entries@).contains_key(q));
                assert(d_old.contains_key(q) == str_entries_map(old_entries).contains_key(q));
            }
            assert forall|q: Seq<char>| d_new.contains_key(q) implies d_new[q] == d_old.insert(
                k@,
                v@,
            )[q] by {
                assert(d_new[q] == str_entries_map(self.0.entries@)[q]@);
                if q != k@ {
                    assert(str_entries_map(self.0.entries@)[q] == str_entries_map(old_entries)[q]);
                    assert(d_old[q] == str_entries_map(old_entries)[q]@);
                }
            }
            assert(d_new =~= d_old.insert(k@, v@));
        }
    }

    /// The value stored under `k`, if any.
    pub fn get(&self, k: &String) -> (r: Option<&String>)
        requires
            self.wf(),
        ensures
            match r {
                Some(v) => content_view(*self).contains_key(k@) && v@ == content_view(*self)[k@],
                None => !content_view(*self).contains_key(k@),
            },
    {
        proof {
            lemma_content_bridge(self.0.entries@);
        }
        self.0.get(k)
    }

    /// A deep copy.
    pub fn duplicate(&self) -> (r: Self)
        ensures
            r.0.entries@.len() == self.0.entries@.len(),
            forall|i: int|
                0 <= i < r.0.entries@.len() ==> r.0.entries@[i].0@ == self.0.entries@[i].0@
                    && r.0.entries@[i].1@ == self.0.entries@[i].1@,
            self.wf() ==> r.wf(),
            content_view(r) == content_view(*self),
    {
        let n = self.0.entries.len();
        let mut out: Vec<(String, String)> = Vec::new();
        let mut i: usize = 0;
        while i < n
            invariant
                n == self.0.entries@.len(),
                i <= n,
                out@.len() == i,
                forall|j: int|
                    0 <= j < i ==> out@[j].0@ == self.0.entries@[j].0@ && out@[j].1@
                        == self.0.entries@[j].1@,
            decreases n - i,
        {
            let pair = &self.0.entries[i];
            out.push((pair.0.clone(), pair.1.clone()));
            i = i + 1;
        }
        let r = Content(StrMap { entries: out });
        proof {
            assert(content_entries(r.0.entries@) =~= content_entries(self.0.entries@));
        }
        r
    }
}

/// The timestamped event log of a session.  Each entry keeps the moment it
/// was recorded (milliseconds) and a serialized event.
pub struct Logs(pub Vec<(u64, String)>);

impl Logs {
    pub fn new() -> (r: Self)
        ensures
            r.0@.len() == 0,
    {
        Logs(Vec::new())
    }

    /// Record an event at time `now`.
    pub fn log(&mut self, now: u64, entry: String)
        ensures
            final(self).0@ == old(self).0@.push((now, entry)),
    {
        self.0.push((now, entry));
    }
}

} // verus!
