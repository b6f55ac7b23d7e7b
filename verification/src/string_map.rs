//! A small map keyed by strings that remembers the order in which keys arrived.
//!
//! It stands where a hash map would: of std's hash map the verifier knows
//! nothing while the keys are strings.

use vstd::prelude::*;

verus! {

/// A map from strings to `V`. Keys are kept in the order of their first insertion;
/// no key occurs twice. Its view is the mathematical map from each key to the
/// view of its value.
#[derive(Debug)]
pub struct StringMap<V> {
    entries: Vec<(String, V)>,
}

impl<V: View> View for StringMap<V> {
    type V = Map<Seq<char>, V::V>;

    closed spec fn view(&self) -> Map<Seq<char>, V::V> {
        Map::new(
            |k: Seq<char>| self.keys().contains(k),
            |k: Seq<char>| self.entries[self.keys().index_of(k)].1@,
        )
    }
}

impl<V> StringMap<V> {
    /// The keys, in the order of their first insertion.
    pub closed spec fn keys(&self) -> Seq<Seq<char>> {
        Seq::new(self.entries.len() as nat, |i: int| self.entries[i].0@)
    }

    #[verifier::type_invariant]
    closed spec fn distinct_keys(&self) -> bool {
        self.keys().no_duplicates()
    }
}

impl<V: Clone> Clone for StringMap<V> {
    fn clone(&self) -> (m: Self)
        ensures
            m.keys() == self.keys(),
    {
        proof {
            use_type_invariant(self);
        }
        let mut entries: Vec<(String, V)> = Vec::new();
        let mut i: usize = 0;
        while i < self.entries.len()
            invariant
                i <= self.entries.len(),
                entries.len() == i,
                forall|j: int| 0 <= j < i ==> entries[j].0@ == self.entries[j].0@,
            decreases self.entries.len() - i,
        {
            entries.push((self.entries[i].0.clone(), self.entries[i].1.clone()));
            i += 1;
        }
        proof {
            let copy = StringMap { entries };
            assert(copy.keys() =~= self.keys());
        }
        StringMap { entries }
    }
}

impl<V: View> StringMap<V> {
    proof fn lemma_entry(&self, i: int)
        requires
            self.distinct_keys(),
            0 <= i < self.entries.len(),
        ensures
            self@.contains_key(self.entries[i].0@),
            self@[self.entries[i].0@] == self.entries[i].1@,
            self.keys().index_of(self.entries[i].0@) == i,
    {
        let k = self.entries[i].0@;
        assert(self.keys()[i] == k);
        let j = self.keys().index_of(k);
        assert(self.keys()[j] == k);
    }

    /// The keys of the view are the keys in `keys()`.
    pub proof fn lemma_keys(&self)
        ensures
            forall|k: Seq<char>| self@.contains_key(k) <==> self.keys().contains(k),
    {
    }

    /// A map without keys.
    pub fn new() -> (m: Self)
        ensures
            m@ == Map::<Seq<char>, V::V>::empty(),
            m.keys() == Seq::<Seq<char>>::empty(),
    {
        let m = StringMap { entries: Vec::new() };
        assert(m.keys() =~= Seq::<Seq<char>>::empty());
        assert(m@ =~= Map::<Seq<char>, V::V>::empty());
        m
    }

    /// The number of keys.
    pub fn len(&self) -> (n: usize)
        ensures
            n == self.keys().len(),
            n == self@.dom().len(),
            self@.dom().finite(),
    {
        proof {
            use_type_invariant(self);
            self.keys().unique_seq_to_set();
            assert(self@.dom() =~= self.keys().to_set());
        }
        self.entries.len()
    }

    /// The position of `key`, when the map holds it.
    pub fn position(&self, key: &str) -> (r: Option<usize>)
        ensures
            match r {
                Some(i) => 0 <= i < self.keys().len() && self.keys()[i as int] == key@,
                None => !self.keys().contains(key@),
            },
            r is Some <==> self@.contains_key(key@),
    {
        let wanted = key.to_owned();
        let mut i: usize = 0;
        while i < self.entries.len()
            invariant
                i <= self.entries.len(),
                wanted@ == key@,
                forall|j: int| 0 <= j < i ==> self.entries[j].0@ != key@,
            decreases self.entries.len() - i,
        {
            if self.entries[i].0 == wanted {
                assert(self.keys()[i as int] == key@);
                return Some(i);
            }
            i += 1;
        }
        None
    }

    /// The key at position `i`.
    pub fn key_at(&self, i: usize) -> (k: &String)
        requires
            i < self.keys().len(),
        ensures
            k@ == self.keys()[i as int],
            self@.contains_key(k@),
    {
        proof {
            use_type_invariant(self);
            self.lemma_entry(i as int);
        }
        &self.entries[i].0
    }

    /// The value at position `i`, which is the value of the key at that position.
    pub fn value_at(&self, i: usize) -> (v: &V)
        requires
            i < self.keys().len(),
        ensures
            v@ == self@[self.keys()[i as int]],
    {
        proof {
            use_type_invariant(self);
            self.lemma_entry(i as int);
        }
        &self.entries[i].1
    }

    /// The value of `key`, when the map holds it.
    pub fn get(&self, key: &str) -> (r: Option<&V>)
        ensures
            match r {
                Some(v) => self@.contains_key(key@) && self@[key@] == v@,
                None => !self@.contains_key(key@),
            },
    {
        match self.position(key) {
            Some(i) => {
                proof {
                    use_type_invariant(self);
                    self.lemma_entry(i as int);
                }
                Some(&self.entries[i].1)
            },
            None => None,
        }
    }

    /// Whether the map holds `key`.
    pub fn contains_key(&self, key: &str) -> (r: bool)
        ensures
            r == self@.contains_key(key@),
    {
        self.position(key).is_some()
    }

    /// Gives `key` the value `value`. A key that is already there keeps its
    /// position; a new key goes to the end.
    pub fn insert(&mut self, key: String, value: V)
        ensures
            final(self)@ == old(self)@.insert(key@, value@),
            final(self).keys() == if old(self)@.contains_key(key@) {
                old(self).keys()
            } else {
                old(self).keys().push(key@)
            },
    {
        proof {
            use_type_invariant(&*self);
        }
        let ghost before = *self;
        let found = self.position(key.as_str());
        let mut entries: Vec<(String, V)> = Vec::new();
        core::mem::swap(&mut self.entries, &mut entries);
        match found {
            Some(i) => {
                entries.set(i, (key, value));
            },
            None => {
                entries.push((key, value));
            },
        }
        proof {
            let after = StringMap { entries };
            if found is Some {
                assert(after.keys() =~= before.keys());
            } else {
                assert(after.keys() =~= before.keys().push(key@));
            }
            assert forall|k: Seq<char>| after@.contains_key(k) implies #[trigger] after@[k]
                == before@.insert(key@, value@)[k] by {
                let j = after.keys().index_of(k);
                assert(after.keys()[j] == k);
                after.lemma_entry(j);
                if j < before.entries.len() {
                    before.lemma_entry(j);
                }
            }
            assert forall|k: Seq<char>| before@.insert(key@, value@).contains_key(
                k,
            ) implies after@.contains_key(k) by {
                if k != key@ {
                    let j = before.keys().index_of(k);
                    assert(before.keys()[j] == k);
                    assert(after.keys()[j] == k);
                } else if found is None {
                    assert(after.keys()[before.entries.len() as int] == k);
                }
            }
            assert(after@ =~= before@.insert(key@, value@));
        }
        core::mem::swap(&mut self.entries, &mut entries);
    }
}

} // verus!
