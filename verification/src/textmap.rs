//! A map from texts to values that remembers the order in which its keys came.

use crate::text::texts;
use vstd::hash_map::StringHashMap;
use vstd::prelude::*;

verus! {

/// Values by text key. Positions `0..len()` number the keys in the order of their first
/// insertion.
pub struct TextMap<V> {
    names: Vec<String>,
    items: Vec<V>,
    index: StringHashMap<usize>,
}

impl<V> TextMap<V> {
    /// The keys, in the order of their first insertion.
    pub closed spec fn keys(&self) -> Seq<Seq<char>> {
        texts(self.names@)
    }

    /// The value of each key, at the key's position.
    pub closed spec fn values(&self) -> Seq<V> {
        self.items@
    }

    /// Keys do not repeat, and the index knows the position of each.
    pub closed spec fn wf(&self) -> bool {
        &&& self.names@.len() == self.items@.len()
        &&& self.keys().no_duplicates()
        &&& forall|i: int|
            0 <= i < self.names@.len() ==> self.index@.contains_key(#[trigger] self.keys()[i])
                && self.index@[self.keys()[i]] == i
        &&& forall|k: Seq<char>| #[trigger]
            self.index@.contains_key(k) ==> self.index@[k] < self.names@.len()
                && self.keys()[self.index@[k] as int] == k
    }

    /// The value stored under each key.
    pub open spec fn map(&self) -> Map<Seq<char>, V> {
        Map::new(
            |k: Seq<char>| self.keys().contains(k),
            |k: Seq<char>| self.values()[self.keys().index_of(k)],
        )
    }

    /// What well-formedness says of keys, values and positions.
    pub proof fn lemma_wf(&self)
        requires
            self.wf(),
        ensures
            self.keys().len() == self.values().len(),
            self.keys().no_duplicates(),
            forall|i: int|
                0 <= i < self.keys().len() ==> self.map().contains_key(#[trigger] self.keys()[i])
                    && self.map()[self.keys()[i]] == self.values()[i],
            forall|k: Seq<char>| #[trigger]
                self.map().contains_key(k) ==> 0 <= self.keys().index_of(k) < self.keys().len()
                    && self.keys()[self.keys().index_of(k)] == k,
    {
        assert forall|i: int| 0 <= i < self.keys().len() implies self.map().contains_key(
            #[trigger] self.keys()[i],
        ) && self.map()[self.keys()[i]] == self.values()[i] by {
            let k = self.keys()[i];
            assert(self.keys().contains(k));
            let j = self.keys().index_of(k);
            assert(0 <= j < self.keys().len() && self.keys()[j] == k);
            assert(i == j);
        }
    }

    /// An empty map.
    pub fn new() -> (r: Self)
        ensures
            r.wf(),
            r.keys() == Seq::<Seq<char>>::empty(),
            r.values() == Seq::<V>::empty(),
            r.map() == Map::<Seq<char>, V>::empty(),
    {
        let r = TextMap { names: Vec::new(), items: Vec::new(), index: StringHashMap::new() };
        proof {
            assert(r.keys() =~= Seq::<Seq<char>>::empty());
            assert(r.map() =~= Map::<Seq<char>, V>::empty());
        }
        r
    }

    /// The number of keys.
    pub fn len(&self) -> (r: usize)
        requires
            self.wf(),
        ensures
            r == self.keys().len(),
            r == self.values().len(),
    {
        self.names.len()
    }

    /// The key at a position.
    pub fn key_at(&self, i: usize) -> (r: &String)
        requires
            self.wf(),
            i < self.keys().len(),
        ensures
            r@ == self.keys()[i as int],
    {
        &self.names[i]
    }

    /// The value at a position.
    pub fn value_at(&self, i: usize) -> (r: &V)
        requires
            self.wf(),
            i < self.keys().len(),
        ensures
            *r == self.values()[i as int],
    {
        &self.items[i]
    }

    /// The position of a key.
    pub fn find(&self, k: &str) -> (r: Option<usize>)
        requires
            self.wf(),
        ensures
            match r {
                Some(i) => i < self.keys().len() && self.keys()[i as int] == k@,
                None => !self.keys().contains(k@),
            },
            r is Some <==> self.map().contains_key(k@),
    {
        match self.index.get(k) {
            Some(i) => {
                assert(self.keys()[*i as int] == k@);
                Some(*i)
            },
            None => {
                proof {
                    if self.keys().contains(k@) {
                        let i = choose|i: int|
                            0 <= i < self.keys().len() && self.keys()[i] == k@;
                        assert(self.index@.contains_key(self.keys()[i]));
                    }
                }
                None
            },
        }
    }

    /// The value of a key.
    pub fn get(&self, k: &str) -> (r: Option<&V>)
        requires
            self.wf(),
        ensures
            match r {
                Some(v) => self.map().contains_key(k@) && *v == self.map()[k@],
                None => !self.map().contains_key(k@),
            },
    {
        match self.find(k) {
            Some(i) => {
                proof {
                    self.lemma_wf();
                }
                Some(&self.items[i])
            },
            None => None,
        }
    }

    /// Puts another value at a position; gives the value that stood there.
    pub fn set_at(&mut self, i: usize, v: V) -> (r: V)
        requires
            old(self).wf(),
            i < old(self).keys().len(),
        ensures
            final(self).wf(),
            final(self).keys() == old(self).keys(),
            final(self).values() == old(self).values().update(i as int, v),
            final(self).map() == old(self).map().insert(old(self).keys()[i as int], v),
            r == old(self).values()[i as int],
    {
        let ghost before = *self;
        let mut slot = v;
        std::mem::swap(&mut self.items[i], &mut slot);
        proof {
            assert(self.keys() == before.keys());
            assert(self.wf());
            self.lemma_wf();
            before.lemma_wf();
            assert(self.map() =~= before.map().insert(before.keys()[i as int], v)) by {
                assert forall|k: Seq<char>| #[trigger]
                    self.map().contains_key(k) implies self.map()[k] == before.map().insert(
                    before.keys()[i as int],
                    v,
                )[k] by {
                    let j = self.keys().index_of(k);
                    assert(self.keys()[j] == k);
                }
            }
        }
        slot
    }

    /// Stores `v` under `k`, in place of what stood there.
    pub fn insert(&mut self, k: String, v: V)
        requires
            old(self).wf(),
        ensures
            final(self).wf(),
            final(self).map() == old(self).map().insert(k@, v),
            old(self).map().contains_key(k@) ==> final(self).keys() == old(self).keys()
                && final(self).values() == old(self).values().update(
                old(self).keys().index_of(k@),
                v,
            ),
            !old(self).map().contains_key(k@) ==> final(self).keys() == old(self).keys().push(k@)
                && final(self).values() == old(self).values().push(v),
    {
        let ghost before = *self;
        match self.find(k.as_str()) {
            Some(i) => {
                proof {
                    before.lemma_wf();
                    assert(before.keys().index_of(k@) == i);
                }
                self.set_at(i, v);
            },
            None => {
                let n: usize = self.names.len();
                self.index.insert(k.clone(), n);
                self.names.push(k);
                self.items.push(v);
                proof {
                    assert(self.keys() =~= before.keys().push(k@));
                    before.lemma_wf();
                    assert(self.wf()) by {
                        assert forall|i: int|
                            0 <= i < self.names@.len() implies self.index@.contains_key(
                            #[trigger] self.keys()[i],
                        ) && self.index@[self.keys()[i]] == i by {
                            if i < n {
                                assert(self.keys()[i] == before.keys()[i]);
                                assert(before.keys().contains(before.keys()[i]));
                            }
                        }
                        assert forall|kk: Seq<char>| #[trigger]
                            self.index@.contains_key(kk) implies self.index@[kk]
                            < self.names@.len() && self.keys()[self.index@[kk] as int] == kk by {
                            if kk != k@ {
                                assert(before.index@.contains_key(kk));
                            }
                        }
                    }
                    self.lemma_wf();
                    assert(self.map() =~= before.map().insert(k@, v)) by {
                        assert forall|kk: Seq<char>|
                            self.map().contains_key(kk) <==> before.map().insert(
                                k@,
                                v,
                            ).contains_key(kk) by {
                            if before.keys().contains(kk) {
                                let j = choose|j: int|
                                    0 <= j < before.keys().len() && before.keys()[j] == kk;
                                assert(self.keys()[j] == kk);
                            }
                            if kk == k@ {
                                assert(self.keys()[n as int] == kk);
                            }
                        }
                        assert forall|kk: Seq<char>| #[trigger]
                            self.map().contains_key(kk) implies self.map()[kk]
                            == before.map().insert(k@, v)[kk] by {
                            let j = self.keys().index_of(kk);
                            assert(self.keys()[j] == kk);
                            if j < n {
                                assert(before.keys()[j] == kk);
                            }
                        }
                    }
                }
            },
        }
    }
}

} // verus!
