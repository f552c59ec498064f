//! Small association-list maps.
//!
//! The registries of the coordinator are keyed either by an entity id
//! (`u128`) or by a user id (`String`).  Both are kept as vectors of pairs
//! with pairwise-distinct keys, viewed as a `Map` in specifications, so that
//! insertion order stays observable (the roster hands out "the first
//! remaining client" on reassignment).

use vstd::prelude::*;

verus! {

/// The mathematical contents of any entry list, ghost or executable keys
/// alike.  The deep views of the compound session types are formed with it.
pub open spec fn pairs_map<K, V>(s: Seq<(K, V)>) -> Map<K, V>
    decreases s.len(),
{
    if s.len() == 0 {
        Map::empty()
    } else {
        pairs_map(s.drop_last()).insert(s.last().0, s.last().1)
    }
}

/// The mathematical contents of an id-keyed entry list.
pub open spec fn id_entries_map<V>(s: Seq<(u128, V)>) -> Map<u128, V>
    decreases s.len(),
{
    if s.len() == 0 {
        Map::empty()
    } else {
        id_entries_map(s.drop_last()).insert(s.last().0, s.last().1)
    }
}

/// Pairwise-distinct keys.
pub open spec fn id_keys_distinct<V>(s: Seq<(u128, V)>) -> bool {
    forall|i: int, j: int| 0 <= i < j < s.len() ==> s[i].0 != s[j].0
}

/// A key is in the map exactly when some entry carries it.
pub proof fn lemma_id_map_contains<V>(s: Seq<(u128, V)>, k: u128)
    ensures
        id_entries_map(s).contains_key(k) <==> (exists|i: int|
            0 <= i < s.len() && s[i].0 == k),
    decreases s.len(),
{
    if s.len() > 0 {
        let rest = s.drop_last();
        lemma_id_map_contains(rest, k);
        if s.last().0 == k {
            assert(s[s.len() - 1].0 == k);
        } else {
            if id_entries_map(s).contains_key(k) {
                let i = choose|i: int| 0 <= i < rest.len() && rest[i].0 == k;
                assert(s[i].0 == k);
            }
            if exists|i: int| 0 <= i < s.len() && s[i].0 == k {
                let i = choose|i: int| 0 <= i < s.len() && s[i].0 == k;
                assert(rest[i] == s[i]);
            }
        }
    }
}

/// With distinct keys, the entry at `i` is what the map holds for its key.
pub proof fn lemma_id_map_index<V>(s: Seq<(u128, V)>, i: int)
    requires
        id_keys_distinct(s),
        0 <= i < s.len(),
    ensures
        id_entries_map(s).contains_key(s[i].0),
        id_entries_map(s)[s[i].0] == s[i].1,
    decreases s.len(),
{
    if i < s.len() - 1 {
        let rest = s.drop_last();
        assert(rest[i] == s[i]);
        lemma_id_map_index(rest, i);
    }
}

/// Replacing the value of the entry at `i` is a map insertion at its key.
pub proof fn lemma_id_map_update<V>(s: Seq<(u128, V)>, i: int, v: V)
    requires
        id_keys_distinct(s),
        0 <= i < s.len(),
    ensures
        id_entries_map(s.update(i, (s[i].0, v))) == id_entries_map(s).insert(s[i].0, v),
    decreases s.len(),
{
    let t = s.update(i, (s[i].0, v));
    if i == s.len() - 1 {
        assert(t.drop_last() =~= s.drop_last());
        assert(id_entries_map(t) =~= id_entries_map(s).insert(s[i].0, v));
    } else {
        let rest = s.drop_last();
        assert(rest[i] == s[i]);
        lemma_id_map_update(rest, i, v);
        assert(t.drop_last() =~= rest.update(i, (s[i].0, v)));
        assert(t.last() == s.last());
        assert(s[i].0 != s.last().0);
        assert(id_entries_map(t) =~= id_entries_map(s).insert(s[i].0, v));
    }
}

/// Removing the entry at `i` is a map removal of its key.
pub proof fn lemma_id_map_remove<V>(s: Seq<(u128, V)>, i: int)
    requires
        id_keys_distinct(s),
        0 <= i < s.len(),
    ensures
        id_entries_map(s.remove(i)) == id_entries_map(s).remove(s[i].0),
    decreases s.len(),
{
    if i == s.len() - 1 {
        assert(s.remove(i) =~= s.drop_last());
        lemma_id_map_contains(s.drop_last(), s[i].0);
        assert(!id_entries_map(s.drop_last()).contains_key(s[i].0));
        assert(id_entries_map(s).remove(s[i].0) =~= id_entries_map(s.drop_last()));
    } else {
        let rest = s.drop_last();
        assert(rest[i] == s[i]);
        lemma_id_map_remove(rest, i);
        assert(s.remove(i).drop_last() =~= rest.remove(i));
        assert(s.remove(i).last() == s.last());
        assert(s[i].0 != s.last().0);
        assert(id_entries_map(s.remove(i)) =~= id_entries_map(s).remove(s[i].0));
    }
}

/// With distinct keys the map is exactly as large as the entry list.
pub proof fn lemma_id_map_len<V>(s: Seq<(u128, V)>)
    requires
        id_keys_distinct(s),
    ensures
        id_entries_map(s).dom().finite(),
        id_entries_map(s).dom().len() == s.len(),
    decreases s.len(),
{
    if s.len() > 0 {
        let rest = s.drop_last();
        lemma_id_map_len(rest);
        lemma_id_map_contains(rest, s.last().0);
        assert(!id_entries_map(rest).contains_key(s.last().0));
    }
}

/// A map from entity ids to `V`, as a vector of entries with distinct keys.
pub struct IdMap<V> {
    pub entries: Vec<(u128, V)>,
}

impl<V> View for IdMap<V> {
    type V = Map<u128, V>;

    open spec fn view(&self) -> Map<u128, V> {
        id_entries_map(self.entries@)
    }
}

impl<V> IdMap<V> {
    /// Well-formed: no key occurs twice.
    pub open spec fn wf(&self) -> bool {
        id_keys_distinct(self.entries@)
    }

    pub fn new() -> (r: Self)
        ensures
            r.wf(),
            r@ == Map::<u128, V>::empty(),
            r.entries@.len() == 0,
    {
        IdMap { entries: Vec::new() }
    }

    /// How many entries the map holds.
    pub fn len(&self) -> (r: usize)
        requires
            self.wf(),
        ensures
            r == self.entries@.len(),
            r == self@.dom().len(),
            self@.dom().finite(),
    {
        proof {
            lemma_id_map_len(self.entries@);
        }
        self.entries.len()
    }

    /// The position of the entry carrying `k`, if any.
    pub(crate) fn find(&self, k: u128) -> (r: Option<usize>)
        ensures
            match r {
                Some(i) => i < self.entries@.len() && self.entries@[i as int].0 == k,
                None => forall|i: int| 0 <= i < self.entries@.len() ==> self.entries@[i].0 != k,
            },
    {
        let n = self.entries.len();
        let mut i: usize = 0;
        while i < n
            invariant
                n == self.entries@.len(),
                i <= n,
                forall|j: int| 0 <= j < i ==> self.entries@[j].0 != k,
            decreases n - i,
        {
            if self.entries[i].0 == k {
                return Some(i);
            }
            i = i + 1;
        }
        None
    }

    pub fn contains_key(&self, k: u128) -> (r: bool)
        ensures
            r == self@.contains_key(k),
    {
        proof {
            lemma_id_map_contains(self.entries@, k);
        }
        match self.find(k) {
            Some(_) => true,
            None => false,
        }
    }

    pub fn get(&self, k: u128) -> (r: Option<&V>)
        requires
            self.wf(),
        ensures
            match r {
                Some(v) => self@.contains_key(k) && *v == self@[k],
                None => !self@.contains_key(k),
            },
    {
        proof {
            lemma_id_map_contains(self.entries@, k);
        }
        match self.find(k) {
            Some(i) => {
                proof {
                    lemma_id_map_index(self.entries@, i as int);
                }
                Some(&self.entries[i].1)
            }
            None => None,
        }
    }

    /// Insert or replace; the previous value comes back.
    pub fn insert(&mut self, k: u128, v: V) -> (r: Option<V>)
        requires
            old(self).wf(),
        ensures
            final(self).wf(),
            final(self)@ == old(self)@.insert(k, v),
            match r {
                Some(w) => old(self)@.contains_key(k) && w == old(self)@[k],
                None => !old(self)@.contains_key(k),
            },
            final(self).entries@.len() == old(self).entries@.len() + (if old(
                self,
            )@.contains_key(k) {
                0int
            } else {
                1int
            }),
            !old(self)@.contains_key(k) ==> final(self).entries@ == old(self).entries@.push(
                (k, v),
            ),
            old(self)@.contains_key(k) ==> (exists|i: int|
                0 <= i < old(self).entries@.len() && old(self).entries@[i].0 == k && final(self).entries@ == old(self).entries@.update(i, (k, v))),
    {
        proof {
            lemma_id_map_contains(self.entries@, k);
        }
        match self.find(k) {
            Some(i) => {
                proof {
                    lemma_id_map_index(self.entries@, i as int);
                    lemma_id_map_update(self.entries@, i as int, v);
                }
                let ghost s = self.entries@;
                let old_pair = self.entries.remove(i);
                self.entries.insert(i, (k, v));
                proof {
                    assert(self.entries@ =~= s.update(i as int, (k, v)));
                }
                Some(old_pair.1)
            }
            None => {
                self.entries.push((k, v));
                proof {
                    assert(self.entries@.drop_last() =~= old(self).entries@);
                }
                None
            }
        }
    }

    /// Remove the entry carrying `k`; its value comes back.
    pub fn remove(&mut self, k: u128) -> (r: Option<V>)
        requires
            old(self).wf(),
        ensures
            final(self).wf(),
            final(self)@ == old(self)@.remove(k),
            match r {
                Some(w) => old(self)@.contains_key(k) && w == old(self)@[k],
                None => !old(self)@.contains_key(k) && *final(self) == *old(self),
            },
    {
        proof {
            lemma_id_map_contains(self.entries@, k);
        }
        match self.find(k) {
            Some(i) => {
                proof {
                    lemma_id_map_index(self.entries@, i as int);
                    lemma_id_map_remove(self.entries@, i as int);
                }
                let pair = self.entries.remove(i);
                Some(pair.1)
            }
            None => {
                proof {
                    assert(self@ =~= old(self)@.remove(k));
                }
                None
            }
        }
    }

    /// Every key, in entry order.
    pub fn keys(&self) -> (r: Vec<u128>)
        ensures
            r@.len() == self.entries@.len(),
            forall|i: int| 0 <= i < r@.len() ==> r@[i] == self.entries@[i].0,
            forall|k: u128| self@.contains_key(k) <==> r@.contains(k),
    {
        let n = self.entries.len();
        let mut r: Vec<u128> = Vec::new();
        let mut i: usize = 0;
        while i < n
            invariant
                n == self.entries@.len(),
                i <= n,
                r@.len() == i,
                forall|j: int| 0 <= j < i ==> r@[j] == self.entries@[j].0,
            decreases n - i,
        {
            r.push(self.entries[i].0);
            i = i + 1;
        }
        proof {
            assert forall|k: u128| self@.contains_key(k) <==> r@.contains(k) by {
                lemma_id_map_contains(self.entries@, k);
                if self@.contains_key(k) {
                    let i = choose|i: int| 0 <= i < self.entries@.len() && self.entries@[i].0 == k;
                    assert(r@[i] == k);
                }
                if r@.contains(k) {
                    let i = choose|i: int| 0 <= i < r@.len() && r@[i] == k;
                    assert(self.entries@[i].0 == k);
                }
            }
        }
        r
    }
}


/// The mathematical contents of a string-keyed entry list, keyed by the
/// character sequence of each key.
pub open spec fn str_entries_map<V>(s: Seq<(String, V)>) -> Map<Seq<char>, V>
    decreases s.len(),
{
    if s.len() == 0 {
        Map::empty()
    } else {
        str_entries_map(s.drop_last()).insert(s.last().0@, s.last().1)
    }
}

/// Pairwise-distinct keys.
pub open spec fn str_keys_distinct<V>(s: Seq<(String, V)>) -> bool {
    forall|i: int, j: int| 0 <= i < j < s.len() ==> s[i].0@ != s[j].0@
}

/// A key is in the map exactly when some entry carries it.
pub proof fn lemma_str_map_contains<V>(s: Seq<(String, V)>, k: Seq<char>)
    ensures
        str_entries_map(s).contains_key(k) <==> (exists|i: int|
            0 <= i < s.len() && s[i].0@ == k),
    decreases s.len(),
{
    if s.len() > 0 {
        let rest = s.drop_last();
        lemma_str_map_contains(rest, k);
        if s.last().0@ == k {
            assert(s[s.len() - 1].0@ == k);
        } else {
            if str_entries_map(s).contains_key(k) {
                let i = choose|i: int| 0 <= i < rest.len() && rest[i].0@ == k;
                assert(s[i].0@ == k);
            }
            if exists|i: int| 0 <= i < s.len() && s[i].0@ == k {
                let i = choose|i: int| 0 <= i < s.len() && s[i].0@ == k;
                assert(rest[i] == s[i]);
            }
        }
    }
}

/// With distinct keys, the entry at `i` is what the map holds for its key.
pub proof fn lemma_str_map_index<V>(s: Seq<(String, V)>, i: int)
    requires
        str_keys_distinct(s),
        0 <= i < s.len(),
    ensures
        str_entries_map(s).contains_key(s[i].0@),
        str_entries_map(s)[s[i].0@] == s[i].1,
    decreases s.len(),
{
    if i < s.len() - 1 {
        let rest = s.drop_last();
        assert(rest[i] == s[i]);
        lemma_str_map_index(rest, i);
    }
}

/// Replacing the value of the entry at `i` is a map insertion at its key.
pub proof fn lemma_str_map_update<V>(s: Seq<(String, V)>, i: int, p: (String, V))
    requires
        str_keys_distinct(s),
        0 <= i < s.len(),
        p.0@ == s[i].0@,
    ensures
        str_entries_map(s.update(i, p)) == str_entries_map(s).insert(s[i].0@, p.1),
    decreases s.len(),
{
    let t = s.update(i, p);
    if i == s.len() - 1 {
        assert(t.drop_last() =~= s.drop_last());
        assert(str_entries_map(t) =~= str_entries_map(s).insert(s[i].0@, p.1));
    } else {
        let rest = s.drop_last();
        assert(rest[i] == s[i]);
        lemma_str_map_update(rest, i, p);
        assert(t.drop_last() =~= rest.update(i, p));
        assert(t.last() == s.last());
        assert(s[i].0@ != s.last().0@);
        assert(str_entries_map(t) =~= str_entries_map(s).insert(s[i].0@, p.1));
    }
}

/// Removing the entry at `i` is a map removal of its key.
pub proof fn lemma_str_map_remove<V>(s: Seq<(String, V)>, i: int)
    requires
        str_keys_distinct(s),
        0 <= i < s.len(),
    ensures
        str_entries_map(s.remove(i)) == str_entries_map(s).remove(s[i].0@),
    decreases s.len(),
{
    if i == s.len() - 1 {
        assert(s.remove(i) =~= s.drop_last());
        lemma_str_map_contains(s.drop_last(), s[i].0@);
        assert(!str_entries_map(s.drop_last()).contains_key(s[i].0@));
        assert(str_entries_map(s).remove(s[i].0@) =~= str_entries_map(s.drop_last()));
    } else {
        let rest = s.drop_last();
        assert(rest[i] == s[i]);
        lemma_str_map_remove(rest, i);
        assert(s.remove(i).drop_last() =~= rest.remove(i));
        assert(s.remove(i).last() == s.last());
        assert(s[i].0@ != s.last().0@);
        assert(str_entries_map(s.remove(i)) =~= str_entries_map(s).remove(s[i].0@));
    }
}

/// With distinct keys the map is exactly as large as the entry list.
pub proof fn lemma_str_map_len<V>(s: Seq<(String, V)>)
    requires
        str_keys_distinct(s),
    ensures
        str_entries_map(s).dom().finite(),
        str_entries_map(s).dom().len() == s.len(),
    decreases s.len(),
{
    if s.len() > 0 {
        let rest = s.drop_last();
        lemma_str_map_len(rest);
        lemma_str_map_contains(rest, s.last().0@);
        assert(!str_entries_map(rest).contains_key(s.last().0@));
    }
}

/// Two distinct entry positions carry different keys.
pub proof fn lemma_str_distinct_pair<V>(s: Seq<(String, V)>, i: int, j: int)
    requires
        str_keys_distinct(s),
        0 <= i < s.len(),
        0 <= j < s.len(),
        i != j,
    ensures
        s[i].0@ != s[j].0@,
{
    if i < j {
        assert(s[i].0@ != s[j].0@);
    } else {
        assert(s[j].0@ != s[i].0@);
    }
}

/// A map from user ids to `V`, as a vector of entries with distinct keys.
pub struct StrMap<V> {
    pub entries: Vec<(String, V)>,
}

impl<V> View for StrMap<V> {
    type V = Map<Seq<char>, V>;

    open spec fn view(&self) -> Map<Seq<char>, V> {
        str_entries_map(self.entries@)
    }
}

impl<V> StrMap<V> {
    /// Well-formed: no key occurs twice.
    pub open spec fn wf(&self) -> bool {
        str_keys_distinct(self.entries@)
    }

    pub fn new() -> (r: Self)
        ensures
            r.wf(),
            r@ == Map::<Seq<char>, V>::empty(),
            r.entries@.len() == 0,
    {
        StrMap { entries: Vec::new() }
    }

    /// How many entries the map holds.
    pub fn len(&self) -> (r: usize)
        requires
            self.wf(),
        ensures
            r == self.entries@.len(),
            r == self@.dom().len(),
            self@.dom().finite(),
    {
        proof {
            lemma_str_map_len(self.entries@);
        }
        self.entries.len()
    }

    /// The position of the entry carrying `k`, if any.
    pub(crate) fn find(&self, k: &String) -> (r: Option<usize>)
        ensures
            match r {
                Some(i) => i < self.entries@.len() && self.entries@[i as int].0@ == k@,
                None => forall|i: int| 0 <= i < self.entries@.len() ==> self.entries@[i].0@ != k@,
            },
    {
        let n = self.entries.len();
        let mut i: usize = 0;
        while i < n
            invariant
                n == self.entries@.len(),
                i <= n,
                forall|j: int| 0 <= j < i ==> self.entries@[j].0@ != k@,
            decreases n - i,
        {
            if self.entries[i].0 == *k {
                return Some(i);
            }
            i = i + 1;
        }
        None
    }

    pub fn contains_key(&self, k: &String) -> (r: bool)
        ensures
            r == self@.contains_key(k@),
    {
        proof {
            lemma_str_map_contains(self.entries@, k@);
        }
        match self.find(k) {
            Some(_) => true,
            None => false,
        }
    }

    pub fn get(&self, k: &String) -> (r: Option<&V>)
        requires
            self.wf(),
        ensures
            match r {
                Some(v) => self@.contains_key(k@) && *v == self@[k@],
                None => !self@.contains_key(k@),
            },
    {
        proof {
            lemma_str_map_contains(self.entries@, k@);
        }
        match self.find(k) {
            Some(i) => {
                proof {
                    lemma_str_map_index(self.entries@, i as int);
                }
                Some(&self.entries[i].1)
            }
            None => None,
        }
    }

    /// Insert or replace; the previous value comes back.
    pub fn insert(&mut self, k: String, v: V) -> (r: Option<V>)
        requires
            old(self).wf(),
        ensures
            final(self).wf(),
            final(self)@ == old(self)@.insert(k@, v),
            match r {
                Some(w) => old(self)@.contains_key(k@) && w == old(self)@[k@],
                None => !old(self)@.contains_key(k@),
            },
            final(self).entries@.len() == old(self).entries@.len() + (if old(
                self,
            )@.contains_key(k@) {
                0int
            } else {
                1int
            }),
            !old(self)@.contains_key(k@) ==> final(self).entries@ == old(self).entries@.push(
                (k, v),
            ),
            old(self)@.contains_key(k@) ==> (exists|i: int|
                0 <= i < old(self).entries@.len() && old(self).entries@[i].0@ == k@ && final(self).entries@ == old(self).entries@.update(i, (k, v))),
    {
        proof {
            lemma_str_map_contains(self.entries@, k@);
        }
        match self.find(&k) {
            Some(i) => {
                proof {
                    lemma_str_map_index(self.entries@, i as int);
                    lemma_str_map_update(self.entries@, i as int, (k, v));
                }
                let ghost s = self.entries@;
                let old_pair = self.entries.remove(i);
                self.entries.insert(i, (k, v));
                proof {
                    assert(self.entries@ =~= s.update(i as int, (k, v)));
                }
                Some(old_pair.1)
            }
            None => {
                self.entries.push((k, v));
                proof {
                    assert(self.entries@.drop_last() =~= old(self).entries@);
                }
                None
            }
        }
    }

    /// Remove the entry carrying `k`; its value comes back.
    pub fn remove(&mut self, k: &String) -> (r: Option<V>)
        requires
            old(self).wf(),
        ensures
            final(self).wf(),
            final(self)@ == old(self)@.remove(k@),
            match r {
                Some(w) => old(self)@.contains_key(k@) && w == old(self)@[k@] && final(self).entries@.len() == old(self).entries@.len() - 1,
                None => !old(self)@.contains_key(k@) && *final(self) == *old(self),
            },
    {
        proof {
            lemma_str_map_contains(self.entries@, k@);
        }
        match self.find(k) {
            Some(i) => {
                proof {
                    lemma_str_map_index(self.entries@, i as int);
                    lemma_str_map_remove(self.entries@, i as int);
                }
                let pair = self.entries.remove(i);
                Some(pair.1)
            }
            None => {
                proof {
                    assert(self@ =~= old(self)@.remove(k@));
                }
                None
            }
        }
    }

    /// Every key, in entry order.
    pub fn keys(&self) -> (r: Vec<String>)
        ensures
            r@.len() == self.entries@.len(),
            forall|i: int| 0 <= i < r@.len() ==> r@[i]@ == self.entries@[i].0@,
            forall|k: Seq<char>| self@.contains_key(k) <==> (exists|i: int|
                0 <= i < r@.len() && r@[i]@ == k),
    {
        let n = self.entries.len();
        let mut r: Vec<String> = Vec::new();
        let mut i: usize = 0;
        while i < n
            invariant
                n == self.entries@.len(),
                i <= n,
                r@.len() == i,
                forall|j: int| 0 <= j < i ==> r@[j]@ == self.entries@[j].0@,
            decreases n - i,
        {
            r.push(self.entries[i].0.clone());
            i = i + 1;
        }
        proof {
            assert forall|k: Seq<char>|
                self@.contains_key(k) <==> (exists|i: int|
                    0 <= i < r@.len() && r@[i]@ == k) by {
                lemma_str_map_contains(self.entries@, k);
                if self@.contains_key(k) {
                    let i = choose|i: int| 0 <= i < self.entries@.len() && self.entries@[i].0@ == k;
                    assert(r@[i]@ == k);
                }
                if exists|i: int| 0 <= i < r@.len() && r@[i]@ == k {
                    let i = choose|i: int| 0 <= i < r@.len() && r@[i]@ == k;
                    assert(self.entries@[i].0@ == k);
                }
            }
        }
        r
    }
}

} // verus!
