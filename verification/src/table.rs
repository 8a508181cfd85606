//! A map keyed by strings, kept as a vector of entries whose keys are unique.
use vstd::prelude::*;

verus! {

/// A finite map from strings to values. Its model is a `Map` from the keys'
/// character sequences to the values' views.
pub struct StrMap<V: View> {
    entries: Vec<(String, V)>,
    model: Ghost<Map<Seq<char>, V::V>>,
}

impl<V: View> View for StrMap<V> {
    type V = Map<Seq<char>, V::V>;

    closed spec fn view(&self) -> Map<Seq<char>, V::V> {
        self.model@
    }
}

impl<V: View> StrMap<V> {
    /// The key stored at position `i`.
    pub closed spec fn key_at(&self, i: int) -> Seq<char> {
        self.entries@[i].0@
    }

    /// The number of entries.
    pub closed spec fn size(&self) -> nat {
        self.entries@.len()
    }

    /// Keys are unique, every entry is in the model, and every key of the
    /// model has an entry.
    pub closed spec fn wf(&self) -> bool {
        &&& forall|i: int, j: int|
            0 <= i < j < self.entries@.len() ==> #[trigger] self.key_at(i) != #[trigger] self.key_at(j)
        &&& forall|i: int|
            0 <= i < self.entries@.len() ==> {
                &&& self.model@.contains_key(#[trigger] self.key_at(i))
                &&& self.model@[self.key_at(i)] == self.entries@[i].1@
            }
        &&& forall|k: Seq<char>|
            #[trigger] self.model@.contains_key(k) ==> exists|i: int|
                0 <= i < self.entries@.len() && #[trigger] self.key_at(i) == k
    }

    /// Every position holds a key of the map, with the map's value for it.
    pub proof fn lemma_entry(&self, i: int)
        requires
            self.wf(),
            0 <= i < self.size(),
        ensures
            self@.contains_key(self.key_at(i)),
    {
    }

    /// Every key of the map sits at some position.
    pub proof fn lemma_key_position(&self, k: Seq<char>) -> (i: int)
        requires
            self.wf(),
            self@.contains_key(k),
        ensures
            0 <= i < self.size(),
            self.key_at(i) == k,
    {
        choose|i: int| 0 <= i < self.entries@.len() && #[trigger] self.key_at(i) == k
    }

    /// Positions hold distinct keys.
    pub proof fn lemma_distinct(&self, i: int, j: int)
        requires
            self.wf(),
            0 <= i < self.size(),
            0 <= j < self.size(),
            i != j,
        ensures
            self.key_at(i) != self.key_at(j),
    {
        if i < j {
            assert(self.key_at(i) != self.key_at(j));
        } else {
            assert(self.key_at(j) != self.key_at(i));
        }
    }

    pub fn new() -> (m: Self)
        ensures
            m.wf(),
            m@ == Map::<Seq<char>, V::V>::empty(),
            m.size() == 0,
    {
        StrMap { entries: Vec::new(), model: Ghost(Map::empty()) }
    }

    pub fn len(&self) -> (n: usize)
        ensures
            n == self.size(),
    {
        self.entries.len()
    }

    /// The position of `key`, if it is present.
    fn position(&self, key: &String) -> (r: Option<usize>)
        requires
            self.wf(),
        ensures
            match r {
                Some(i) => i < self.size() && self.key_at(i as int) == key@,
                None => !self@.contains_key(key@),
            },
    {
        let mut i: usize = 0;
        while i < self.entries.len()
            invariant
                self.wf(),
                i <= self.entries@.len(),
                forall|j: int| 0 <= j < i ==> self.key_at(j) != key@,
            decreases self.entries@.len() - i,
        {
            if self.entries[i].0 == *key {
                return Some(i);
            }
            i = i + 1;
        }
        proof {
            if self@.contains_key(key@) {
                let j = self.lemma_key_position(key@);
                assert(self.key_at(j) != key@);
            }
        }
        None
    }

    pub fn contains_key(&self, key: &String) -> (b: bool)
        requires
            self.wf(),
        ensures
            b == self@.contains_key(key@),
    {
        match self.position(key) {
            Some(i) => {
                proof { self.lemma_entry(i as int); }
                true
            },
            None => false,
        }
    }

    pub fn get(&self, key: &String) -> (r: Option<&V>)
        requires
            self.wf(),
        ensures
            match r {
                Some(v) => self@.contains_key(key@) && v@ == self@[key@],
                None => !self@.contains_key(key@),
            },
    {
        match self.position(key) {
            Some(i) => {
                proof { self.lemma_entry(i as int); }
                Some(&self.entries[i].1)
            },
            None => None,
        }
    }

    /// The key at position `i`.
    pub fn key(&self, i: usize) -> (k: &String)
        requires
            i < self.size(),
        ensures
            k@ == self.key_at(i as int),
    {
        &self.entries[i].0
    }

    /// The value at position `i`.
    pub fn value(&self, i: usize) -> (v: &V)
        requires
            self.wf(),
            i < self.size(),
        ensures
            v@ == self@[self.key_at(i as int)],
    {
        &self.entries[i].1
    }

    /// Puts `value` at position `i` and hands back the value that was there.
    pub fn replace(&mut self, i: usize, value: V) -> (r: V)
        requires
            old(self).wf(),
            i < old(self).size(),
        ensures
            final(self).wf(),
            final(self).size() == old(self).size(),
            forall|j: int| 0 <= j < old(self).size() ==> #[trigger] final(self).key_at(j) == old(self).key_at(j),
            r@ == old(self)@[old(self).key_at(i as int)],
            final(self)@ == old(self)@.insert(old(self).key_at(i as int), value@),
    {
        let ghost k = self.key_at(i as int);
        let ghost old_self = *self;
        let ghost new_map = old_self.model@.insert(k, value@);
        let key = self.entries[i].0.clone();
        let entry = (key, value);
        let mut taken = entry;
        std::mem::swap(&mut self.entries[i], &mut taken);
        self.model = Ghost(new_map);
        proof {
            assert forall|j: int| 0 <= j < self.entries@.len() implies #[trigger] self.key_at(j) == old_self.key_at(j) by {
            }
            assert forall|a: int, b: int|
                0 <= a < b < self.entries@.len() implies #[trigger] self.key_at(a) != #[trigger] self.key_at(b) by {
                old_self.lemma_distinct(a, b);
            }
            assert forall|j: int| 0 <= j < self.entries@.len() implies {
                &&& self.model@.contains_key(#[trigger] self.key_at(j))
                &&& self.model@[self.key_at(j)] == self.entries@[j].1@
            } by {
                old_self.lemma_entry(j);
                if j != i {
                    old_self.lemma_distinct(j, i as int);
                }
            }
            assert forall|kk: Seq<char>| #[trigger] self.model@.contains_key(kk) implies exists|j: int|
                0 <= j < self.entries@.len() && #[trigger] self.key_at(j) == kk by {
                if kk == k {
                    assert(self.key_at(i as int) == kk);
                } else {
                    let j = old_self.lemma_key_position(kk);
                    assert(self.key_at(j) == kk);
                }
            }
        }
        taken.1
    }

    /// Maps `key` to `value`, replacing the value it had.
    pub fn insert(&mut self, key: String, value: V)
        requires
            old(self).wf(),
        ensures
            final(self).wf(),
            final(self)@ == old(self)@.insert(key@, value@),
    {
        match self.position(&key) {
            Some(i) => {
                let _ = self.replace(i, value);
            },
            None => {
                let ghost old_self = *self;
                let ghost old_len = self.entries@.len();
                let ghost kv = key@;
                self.entries.push((key, value));
                self.model = Ghost(old_self.model@.insert(kv, value@));
                proof {
                    assert forall|j: int| 0 <= j < old_len implies #[trigger] self.key_at(j) == old_self.key_at(j) by {
                    }
                    assert(self.key_at(old_len as int) == kv);
                    assert forall|a: int, b: int|
                        0 <= a < b < self.entries@.len() implies #[trigger] self.key_at(a) != #[trigger] self.key_at(b) by {
                        if b == old_len {
                            old_self.lemma_entry(a);
                        } else {
                            old_self.lemma_distinct(a, b);
                        }
                    }
                    assert forall|j: int| 0 <= j < self.entries@.len() implies {
                        &&& self.model@.contains_key(#[trigger] self.key_at(j))
                        &&& self.model@[self.key_at(j)] == self.entries@[j].1@
                    } by {
                        if j < old_len {
                            old_self.lemma_entry(j);
                        }
                    }
                    assert forall|kk: Seq<char>| #[trigger] self.model@.contains_key(kk) implies exists|j: int|
                        0 <= j < self.entries@.len() && #[trigger] self.key_at(j) == kk by {
                        if kk == kv {
                            assert(self.key_at(old_len as int) == kk);
                        } else {
                            let j = old_self.lemma_key_position(kk);
                            assert(self.key_at(j) == kk);
                        }
                    }
                }
            },
        }
    }

    /// Removes `key` and hands back its value, if it was present.
    pub fn remove(&mut self, key: &String) -> (r: Option<V>)
        requires
            old(self).wf(),
        ensures
            final(self).wf(),
            final(self)@ == old(self)@.remove(key@),
            match r {
                Some(v) => old(self)@.contains_key(key@) && v@ == old(self)@[key@],
                None => !old(self)@.contains_key(key@),
            },
    {
        match self.position(key) {
            None => {
                proof {
                    assert(self.model@.remove(key@) =~= self.model@);
                }
                None
            },
            Some(i) => {
                let ghost old_map = self.model@;
                let ghost old_entries = self.entries@;
                let ghost old_self = *self;
                proof { self.lemma_entry(i as int); }
                let entry = self.entries.remove(i);
                self.model = Ghost(old_map.remove(key@));
                proof {
                    assert forall|a: int| 0 <= a < self.entries@.len() implies #[trigger] self.key_at(a)
                        == (if a < i { old_self.key_at(a) } else { old_self.key_at(a + 1) }) by {
                    }
                    assert forall|a: int, b: int|
                        0 <= a < b < self.entries@.len() implies #[trigger] self.key_at(a) != #[trigger] self.key_at(b) by {
                        let a2 = if a < i { a } else { a + 1 };
                        let b2 = if b < i { b } else { b + 1 };
                        old_self.lemma_distinct(a2, b2);
                    }
                    assert forall|j: int| 0 <= j < self.entries@.len() implies {
                        &&& self.model@.contains_key(#[trigger] self.key_at(j))
                        &&& self.model@[self.key_at(j)] == self.entries@[j].1@
                    } by {
                        let j2 = if j < i { j } else { j + 1 };
                        old_self.lemma_distinct(j2, i as int);
                        old_self.lemma_entry(j2);
                    }
                    assert forall|kk: Seq<char>| #[trigger] self.model@.contains_key(kk) implies exists|j: int|
                        0 <= j < self.entries@.len() && #[trigger] self.key_at(j) == kk by {
                        let j2 = old_self.lemma_key_position(kk);
                        assert(j2 != i);
                        let j = if j2 < i { j2 } else { j2 - 1 };
                        assert(self.key_at(j) == kk);
                    }
                }
                Some(entry.1)
            },
        }
    }
}

} // verus!
