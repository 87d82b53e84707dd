use vstd::prelude::*;

use crate::text::str_eq;

verus! {

/// A map keyed by strings, in insertion order, each key at most once.
pub struct StringMap<V> {
    entries: Vec<(String, V)>,
}

impl<V> StringMap<V> {
    #[verifier::type_invariant]
    spec fn keys_distinct(self) -> bool {
        forall|i: int, j: int|
            0 <= i < self.entries@.len() && 0 <= j < self.entries@.len() && i != j
                ==> self.entries@[i].0@ != self.entries@[j].0@
    }

    /// Some entry has key `k`.
    spec fn has(self, k: Seq<char>) -> bool {
        exists|i: int| 0 <= i < self.entries@.len() && #[trigger] self.entries@[i].0@ == k
    }

    /// The position of the entry with key `k`.
    spec fn index_of(self, k: Seq<char>) -> int {
        choose|i: int| 0 <= i < self.entries@.len() && #[trigger] self.entries@[i].0@ == k
    }

    /// The keys, in the order they were first inserted.
    pub closed spec fn key_order(self) -> Seq<Seq<char>> {
        self.entries@.map_values(|e: (String, V)| e.0@)
    }

    /// The entry with key `k` is at position `i`.
    proof fn lemma_index(self, i: int)
        requires
            self.keys_distinct(),
            0 <= i < self.entries@.len(),
        ensures
            self.has(self.entries@[i].0@),
            self.index_of(self.entries@[i].0@) == i,
    {
        let k = self.entries@[i].0@;
        assert(self.entries@[i].0@ == k);
        let j = self.index_of(k);
        assert(self.entries@[j].0@ == k);
    }

    /// An empty map.
    pub fn new() -> (m: Self)
        ensures
            m@ == Map::<Seq<char>, V>::empty(),
            m.key_order() == Seq::<Seq<char>>::empty(),
    {
        let m = StringMap { entries: Vec::new() };
        assert(m@ =~= Map::<Seq<char>, V>::empty());
        assert(m.key_order() =~= Seq::<Seq<char>>::empty());
        m
    }

    fn find(&self, key: &str) -> (r: Option<usize>)
        ensures
            match r {
                Some(i) => i < self.entries@.len() && self.entries@[i as int].0@ == key@,
                None => !self.has(key@),
            },
    {
        let mut i: usize = 0;
        while i < self.entries.len()
            invariant
                i <= self.entries@.len(),
                forall|k: int| 0 <= k < i ==> self.entries@[k].0@ != key@,
            decreases self.entries@.len() - i,
        {
            if str_eq(self.entries[i].0.as_str(), key) {
                return Some(i);
            }
            i = i + 1;
        }
        None
    }

    /// The value for `key`, if there is one.
    pub fn get(&self, key: &str) -> (r: Option<&V>)
        ensures
            match r {
                Some(v) => self@.contains_key(key@) && *v == self@[key@],
                None => !self@.contains_key(key@),
            },
    {
        proof {
            use_type_invariant(self);
        }
        match self.find(key) {
            Some(i) => {
                proof {
                    self.lemma_index(i as int);
                }
                Some(&self.entries[i].1)
            },
            None => None,
        }
    }

    /// Whether there is a value for `key`.
    pub fn contains_key(&self, key: &str) -> (r: bool)
        ensures
            r == self@.contains_key(key@),
    {
        self.find(key).is_some()
    }

    /// The number of keys.
    pub fn len(&self) -> (n: usize)
        ensures
            n == self@.dom().len(),
            n == self.key_order().len(),
            self@.dom() == self.key_order().to_set(),
            self.key_order().no_duplicates(),
    {
        proof {
            use_type_invariant(self);
            self.lemma_dom_is_keys();
        }
        self.entries.len()
    }

    /// The keys are those of `key_order`, each once.
    proof fn lemma_dom_is_keys(self)
        requires
            self.keys_distinct(),
        ensures
            self@.dom() == self.key_order().to_set(),
            self.key_order().no_duplicates(),
            self@.dom().len() == self.key_order().len(),
    {
        assert(self@.dom() =~= self.key_order().to_set()) by {
            assert forall|k: Seq<char>| self@.dom().contains(k) implies self.key_order().contains(k) by {
                let i = self.index_of(k);
                assert(self.key_order()[i] == k);
            }
            assert forall|k: Seq<char>| self.key_order().contains(k) implies self@.dom().contains(k) by {
                let i = choose|i: int| 0 <= i < self.key_order().len() && self.key_order()[i] == k;
                assert(self.entries@[i].0@ == k);
            }
        }
        self.key_order().unique_seq_to_set();
    }

    /// The key at position `i` of the insertion order.
    pub fn key_at(&self, i: usize) -> (k: &String)
        requires
            i < self.key_order().len(),
        ensures
            k@ == self.key_order()[i as int],
    {
        &self.entries[i].0
    }

    /// Set the value for `key`: a new key goes last in the insertion order,
    /// an existing key keeps its place.
    pub fn insert(&mut self, key: &str, value: V)
        ensures
            final(self)@ == old(self)@.insert(key@, value),
            old(self)@.contains_key(key@) ==> final(self).key_order() == old(self).key_order(),
            !old(self)@.contains_key(key@) ==> final(self).key_order() == old(self).key_order().push(
                key@,
            ),
    {
        proof {
            use_type_invariant(&*self);
        }
        let ghost before = *self;
        let found = self.find(key);
        let mut entries: Vec<(String, V)> = Vec::new();
        std::mem::swap(&mut entries, &mut self.entries);
        assert(entries@ == before.entries@);
        match found {
            Some(i) => {
                let (k, _old_value) = entries.remove(i);
                entries.insert(i, (k, value));
            },
            None => {
                entries.push((key.to_string(), value));
            },
        }
        assert forall|i: int, j: int|
            0 <= i < entries@.len() && 0 <= j < entries@.len() && i != j implies entries@[i].0@
            != entries@[j].0@ by {
            match found {
                Some(f) => {
                    assert(before.entries@[i].0@ == entries@[i].0@ || i == f);
                    if i == f {
                        assert(entries@[i].0@ == before.entries@[i].0@);
                    }
                    if j == f {
                        assert(entries@[j].0@ == before.entries@[j].0@);
                    }
                },
                None => {
                    if i < before.entries@.len() && j < before.entries@.len() {
                    } else if i == before.entries@.len() {
                        assert(before.entries@[j].0@ != key@);
                    } else {
                        assert(before.entries@[i].0@ != key@);
                    }
                },
            }
        }
        self.entries = entries;
        proof {
            assert(self@ =~= before@.insert(key@, value)) by {
                assert forall|k: Seq<char>| self.has(k) == (before.has(k) || k == key@) by {
                    if self.has(k) {
                        let i = choose|i: int|
                            0 <= i < self.entries@.len() && #[trigger] self.entries@[i].0@ == k;
                        if k != key@ {
                            assert(before.entries@[i].0@ == k);
                        }
                    }
                    if before.has(k) {
                        let i = choose|i: int|
                            0 <= i < before.entries@.len() && #[trigger] before.entries@[i].0@ == k;
                        assert(self.entries@[i].0@ == k);
                    }
                    if k == key@ {
                        match found {
                            Some(f) => {
                                assert(self.entries@[f as int].0@ == k);
                            },
                            None => {
                                assert(self.entries@[before.entries@.len() as int].0@ == k);
                            },
                        }
                    }
                }
                let pos: int = match found {
                    Some(f) => f as int,
                    None => before.entries@.len() as int,
                };
                assert(self.entries@[pos].0@ == key@ && self.entries@[pos].1 == value);
                assert(self.keys_distinct());
                assert forall|k: Seq<char>| #[trigger] self.has(k) implies self.entries@[self.index_of(
                    k,
                )].1 == before@.insert(key@, value)[k] by {
                    let i = self.index_of(k);
                    self.lemma_index(i);
                    if k == key@ {
                        self.lemma_index(pos);
                    } else {
                        assert(before.entries@[i].0@ == k);
                        before.lemma_index(i);
                    }
                }
                assert(self@.dom() =~= before@.insert(key@, value).dom());
            }
            assert(self.key_order() =~= match found {
                Some(f) => before.key_order(),
                None => before.key_order().push(key@),
            });
        }
    }

    /// Remove the entry for `key`, returning its value if there was one.
    pub fn remove(&mut self, key: &str) -> (r: Option<V>)
        ensures
            final(self)@ == old(self)@.remove(key@),
            match r {
                Some(v) => old(self)@.contains_key(key@) && v == old(self)@[key@],
                None => !old(self)@.contains_key(key@),
            },
    {
        proof {
            use_type_invariant(&*self);
        }
        let ghost before = *self;
        let found = self.find(key);
        match found {
            Some(i) => {
                let mut entries: Vec<(String, V)> = Vec::new();
                std::mem::swap(&mut entries, &mut self.entries);
                let (_k, v) = entries.remove(i);
                assert forall|a: int, b: int|
                    0 <= a < entries@.len() && 0 <= b < entries@.len() && a != b implies entries@[a].0@
                    != entries@[b].0@ by {
                    let a0 = if a < i { a } else { a + 1 };
                    let b0 = if b < i { b } else { b + 1 };
                    assert(entries@[a] == before.entries@[a0]);
                    assert(entries@[b] == before.entries@[b0]);
                }
                self.entries = entries;
                proof {
                    before.lemma_index(i as int);
                    assert(self@ =~= before@.remove(key@)) by {
                        assert forall|k: Seq<char>| self.has(k) == (before.has(k) && k != key@) by {
                            if self.has(k) {
                                let a = choose|a: int|
                                    0 <= a < self.entries@.len() && #[trigger] self.entries@[a].0@ == k;
                                let a0 = if a < i { a } else { a + 1 };
                                assert(self.entries@[a] == before.entries@[a0]);
                                assert(before.entries@[a0].0@ == k);
                                assert(a0 != i);
                            }
                            if before.has(k) && k != key@ {
                                let a0 = choose|a: int|
                                    0 <= a < before.entries@.len() && #[trigger] before.entries@[a].0@
                                        == k;
                                assert(a0 != i);
                                let a = if a0 < i { a0 } else { a0 - 1 };
                                assert(self.entries@[a] == before.entries@[a0]);
                            }
                        }
                        assert forall|k: Seq<char>| #[trigger] self.has(k) implies self.entries@[
                            self.index_of(k)].1 == before@[k] by {
                            let a = self.index_of(k);
                            self.lemma_index(a);
                            let a0 = if a < i { a } else { a + 1 };
                            assert(self.entries@[a] == before.entries@[a0]);
                            before.lemma_index(a0);
                        }
                    }
                }
                Some(v)
            },
            None => {
                assert(self@ =~= before@.remove(key@));
                None
            },
        }
    }
}

impl<V> View for StringMap<V> {
    type V = Map<Seq<char>, V>;

    /// The value of each key.
    closed spec fn view(&self) -> Map<Seq<char>, V> {
        Map::new(|k: Seq<char>| self.has(k), |k: Seq<char>| self.entries@[self.index_of(k)].1)
    }
}

} // verus!
