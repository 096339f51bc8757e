//! A string-keyed map that remembers the order in which keys first came.

use vstd::prelude::*;

verus! {

/// The map that results from inserting the pairs of `s` in order, a later
/// pair replacing the value of an earlier one with the same key.
pub open spec fn map_of_pairs<W>(s: Seq<(Seq<char>, W)>) -> Map<Seq<char>, W>
    decreases s.len(),
{
    if s.len() == 0 {
        Map::empty()
    } else {
        map_of_pairs(s.drop_last()).insert(s.last().0, s.last().1)
    }
}

/// No key occurs twice in `s`.
pub open spec fn keys_distinct<W>(s: Seq<(Seq<char>, W)>) -> bool {
    forall|i: int, j: int| 0 <= i < s.len() && 0 <= j < s.len() && i != j ==> s[i].0 != s[j].0
}

/// Inserting one more pair extends the map by it.
pub proof fn lemma_map_of_pairs_push<W>(s: Seq<(Seq<char>, W)>, k: Seq<char>, w: W)
    ensures
        map_of_pairs(s.push((k, w))) == map_of_pairs(s).insert(k, w),
{
    assert(s.push((k, w)).drop_last() =~= s);
}

/// The keys of the map are the keys of the pairs; with distinct keys, each
/// pair's value is the value of its key.
pub proof fn lemma_map_of_pairs_contents<W>(s: Seq<(Seq<char>, W)>)
    ensures
        forall|k: Seq<char>|
            #[trigger] map_of_pairs(s).dom().contains(k) <==> exists|i: int|
                0 <= i < s.len() && s[i].0 == k,
        map_of_pairs(s).dom().finite(),
        keys_distinct(s) ==> map_of_pairs(s).dom().len() == s.len(),
        keys_distinct(s) ==> forall|i: int|
            0 <= i < s.len() ==> map_of_pairs(s)[#[trigger] s[i].0] == s[i].1,
    decreases s.len(),
{
    if s.len() > 0 {
        let t = s.drop_last();
        lemma_map_of_pairs_contents(t);
        assert forall|k: Seq<char>| #[trigger]
            map_of_pairs(s).dom().contains(k) <==> exists|i: int|
                0 <= i < s.len() && s[i].0 == k by {
            if map_of_pairs(s).dom().contains(k) && k != s.last().0 {
                let i = choose|i: int| 0 <= i < t.len() && t[i].0 == k;
                assert(s[i].0 == k);
            }
            if exists|i: int| 0 <= i < s.len() && s[i].0 == k {
                let i = choose|i: int| 0 <= i < s.len() && s[i].0 == k;
                if i < t.len() {
                    assert(t[i].0 == k);
                }
            }
        }
        if keys_distinct(s) {
            assert(keys_distinct(t)) by {
                assert forall|i: int, j: int|
                    0 <= i < t.len() && 0 <= j < t.len() && i != j implies t[i].0 != t[j].0 by {
                    assert(s[i] == t[i] && s[j] == t[j]);
                }
            }
            assert(!map_of_pairs(t).dom().contains(s.last().0)) by {
                if map_of_pairs(t).dom().contains(s.last().0) {
                    let i = choose|i: int| 0 <= i < t.len() && t[i].0 == s.last().0;
                    assert(s[i].0 == s[s.len() - 1].0);
                }
            }
            assert forall|i: int| 0 <= i < s.len() implies map_of_pairs(s)[#[trigger] s[i].0]
                == s[i].1 by {
                if i < t.len() {
                    assert(t[i] == s[i]);
                    assert(s[i].0 != s[s.len() - 1].0);
                }
            }
        }
    }
}

/// Replacing the value of the pair at `i` is inserting its key anew.
pub proof fn lemma_map_of_pairs_update<W>(s: Seq<(Seq<char>, W)>, i: int, w: W)
    requires
        keys_distinct(s),
        0 <= i < s.len(),
    ensures
        map_of_pairs(s.update(i, (s[i].0, w))) == map_of_pairs(s).insert(s[i].0, w),
    decreases s.len(),
{
    let k = s[i].0;
    let u = s.update(i, (k, w));
    if i == s.len() - 1 {
        assert(u.drop_last() =~= s.drop_last());
        assert(map_of_pairs(u) =~= map_of_pairs(s).insert(k, w));
    } else {
        let t = s.drop_last();
        assert(keys_distinct(t)) by {
            assert forall|a: int, b: int|
                0 <= a < t.len() && 0 <= b < t.len() && a != b implies t[a].0 != t[b].0 by {
                assert(s[a] == t[a] && s[b] == t[b]);
            }
        }
        lemma_map_of_pairs_update(t, i, w);
        assert(u.drop_last() =~= t.update(i, (k, w)));
        assert(s.last().0 != k);
        assert(map_of_pairs(u) =~= map_of_pairs(s).insert(k, w));
    }
}

/// A map from strings to values of `V`, keyed by the characters of the
/// key and iterated in the order in which keys were first inserted.
pub struct StrMap<V: View> {
    entries: Vec<(String, V)>,
}

impl<V: View> View for StrMap<V> {
    type V = Map<Seq<char>, V::V>;

    open spec fn view(&self) -> Map<Seq<char>, V::V> {
        self.as_map()
    }
}

impl<V: View> StrMap<V> {
    /// The entries as plain values, in order.
    pub closed spec fn pairs(&self) -> Seq<(Seq<char>, V::V)> {
        self.entries@.map_values(|e: (String, V)| (e.0@, e.1@))
    }

    /// No key occurs twice among the entries.
    #[verifier::type_invariant]
    pub open spec fn wf(&self) -> bool {
        keys_distinct(self.pairs())
    }

    /// The map the entries stand for: the view of the map.
    pub open spec fn as_map(&self) -> Map<Seq<char>, V::V> {
        map_of_pairs(self.pairs())
    }

    /// The entries are those of the map, each key once.
    proof fn lemma_pairs(&self)
        requires
            keys_distinct(self.pairs()),
        ensures
            keys_distinct(self.pairs()),
            self.as_map() == map_of_pairs(self.pairs()),
            self.as_map().dom().finite(),
            self.as_map().dom().len() == self.pairs().len(),
            forall|i: int|
                0 <= i < self.pairs().len() ==> #[trigger] self.as_map().dom().contains(
                    self.pairs()[i].0,
                ) && self.as_map()[self.pairs()[i].0] == self.pairs()[i].1,
            forall|k: Seq<char>| #[trigger]
                self.as_map().dom().contains(k) ==> exists|i: int|
                    0 <= i < self.pairs().len() && self.pairs()[i].0 == k,
    {
        lemma_map_of_pairs_contents(self.pairs());
        assert forall|i: int| 0 <= i < self.pairs().len() implies #[trigger] self.as_map().dom().contains(
            self.pairs()[i].0,
        ) && self.as_map()[self.pairs()[i].0] == self.pairs()[i].1 by {
            assert(exists|j: int| 0 <= j < self.pairs().len() && self.pairs()[j].0 == self.pairs()[i].0);
        }
    }

    /// An empty map.
    pub fn new() -> (res: Self)
        ensures
            res.as_map() == Map::<Seq<char>, V::V>::empty(),
            res.pairs().len() == 0,
    {
        let res = StrMap { entries: Vec::new() };
        assert(res.pairs() =~= Seq::<(Seq<char>, V::V)>::empty());
        res
    }

    /// The number of keys.
    pub fn len(&self) -> (res: usize)
        ensures
            res == self.as_map().dom().len(),
            res == self.pairs().len(),
    {
        proof {
            use_type_invariant(self);
            self.lemma_pairs();
        }
        self.entries.len()
    }

    /// Whether the map has no key.
    pub fn is_empty(&self) -> (res: bool)
        ensures
            res == (self.as_map().dom().len() == 0),
    {
        self.len() == 0
    }

    /// The position of `key` among the entries.
    fn position(&self, key: &str) -> (res: Option<usize>)
        ensures
            res matches Some(i) ==> i < self.pairs().len() && self.pairs()[i as int].0 == key@,
            res is None ==> forall|i: int| 0 <= i < self.pairs().len() ==> self.pairs()[i].0 != key@,
    {
        let k = key.to_owned();
        let mut i: usize = 0;
        while i < self.entries.len()
            invariant
                i <= self.entries@.len(),
                k@ == key@,
                forall|j: int| 0 <= j < i ==> self.pairs()[j].0 != key@,
            decreases self.entries.len() - i,
        {
            if self.entries[i].0 == k {
                return Some(i);
            }
            i = i + 1;
        }
        None
    }

    /// The value of `key`, if it has one.
    pub fn get(&self, key: &str) -> (res: Option<&V>)
        ensures
            self.as_map().dom().contains(key@) ==> (res matches Some(v) && v@ == self.as_map()[key@]),
            !self.as_map().dom().contains(key@) ==> res is None,
    {
        proof {
            use_type_invariant(self);
            self.lemma_pairs();
        }
        match self.position(key) {
            Some(i) => Some(&self.entries[i].1),
            None => None,
        }
    }

    /// Whether `key` has a value.
    pub fn contains_key(&self, key: &str) -> (res: bool)
        ensures
            res == self.as_map().dom().contains(key@),
    {
        self.get(key).is_some()
    }

    /// Sets the value of `key`, replacing any earlier one; a new key goes
    /// after the others.
    pub fn insert(&mut self, key: String, value: V)
        ensures
            final(self).as_map() == old(self).as_map().insert(key@, value@),
            old(self).as_map().dom().contains(key@) ==> exists|i: int|
                0 <= i < old(self).pairs().len() && old(self).pairs()[i].0 == key@
                    && final(self).pairs() == old(self).pairs().update(i, (key@, value@)),
            !old(self).as_map().dom().contains(key@) ==> final(self).pairs() == old(
                self,
            ).pairs().push((key@, value@)),
    {
        proof {
            use_type_invariant(&*self);
            self.lemma_pairs();
        }
        let ghost before = self.pairs();
        match self.position(key.as_str()) {
            Some(i) => {
                let mut entries: Vec<(String, V)> = Vec::new();
                std::mem::swap(&mut entries, &mut self.entries);
                proof {
                    lemma_map_of_pairs_update(before, i as int, value@);
                }
                entries.set(i, (key, value));
                assert(entries@.map_values(|e: (String, V)| (e.0@, e.1@)) =~= before.update(
                    i as int,
                    (before[i as int].0, value@),
                ));
                self.entries = entries;
                assert(self.pairs() == before.update(i as int, (key@, value@)));
            },
            None => {
                let mut entries: Vec<(String, V)> = Vec::new();
                std::mem::swap(&mut entries, &mut self.entries);
                proof {
                    lemma_map_of_pairs_push(before, key@, value@);
                }
                entries.push((key, value));
                assert(entries@.map_values(|e: (String, V)| (e.0@, e.1@)) =~= before.push(
                    (key@, value@),
                ));
                self.entries = entries;
            },
        }
    }

    /// The entry at position `i`, in insertion order.
    pub fn entry(&self, i: usize) -> (res: (&String, &V))
        requires
            i < self.pairs().len(),
        ensures
            res.0@ == self.pairs()[i as int].0,
            res.1@ == self.pairs()[i as int].1,
            self.as_map().dom().contains(res.0@),
            self.as_map()[res.0@] == res.1@,
    {
        proof {
            use_type_invariant(self);
            self.lemma_pairs();
        }
        let e = &self.entries[i];
        assert(self.pairs()[i as int] == (e.0@, e.1@));
        assert(self.as_map().dom().contains(self.pairs()[i as int].0));
        (&e.0, &e.1)
    }
}

} // verus!
