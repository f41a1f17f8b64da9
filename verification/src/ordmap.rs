//! Maps keyed by states.
//!
//! An [`OrdMap`] keeps its keys in an [`OrdSet`] and the value of each key at
//! the position of the key, so that the entries can be walked in ascending
//! order of the keys.
use vstd::prelude::*;
use crate::finite::Finite;
use crate::ordset::OrdSet;
use crate::sorted::{lemma_insert_sorted, lemma_sorted_no_duplicates};

verus! {

/// A map from states to values, with its keys in ascending order.
#[derive(Debug, Clone)]
pub struct OrdMap<K: Finite, V> {
    pub keys: OrdSet<K>,
    pub vals: Vec<V>,
}

impl<K: Finite, V> OrdMap<K, V> {
    /// The keys are a well-formed set, and each has its value.
    pub open spec fn wf(&self) -> bool {
        self.keys.wf() && self.vals@.len() == self.keys@.len()
    }

    /// The keys, as a set of models.
    pub open spec fn dom(&self) -> Set<K::Model> {
        self.keys.elems()
    }

    /// The position of the key `k`.
    pub open spec fn index_of(&self, k: K::Model) -> int {
        choose|i: int| 0 <= i < self.keys@.len() && self.keys@[i] == k
    }

    /// The map from the models of the keys to the values.
    pub open spec fn as_map(&self) -> Map<K::Model, V> {
        Map::new(|k: K::Model| self.dom().contains(k), |k: K::Model| self.vals@[self.index_of(k)])
    }

    /// In a well-formed map each key stands at one position only.
    pub proof fn lemma_index_of(&self, i: int)
        requires
            self.wf(),
            0 <= i < self.keys@.len(),
        ensures
            self.index_of(self.keys@[i]) == i,
            self.dom().contains(self.keys@[i]),
            self.as_map()[self.keys@[i]] == self.vals@[i],
    {
        lemma_sorted_no_duplicates::<K>(self.keys@);
        assert(self.keys@.contains(self.keys@[i]));
    }

    /// The empty map.
    pub fn new() -> (m: Self)
        ensures
            m.wf(),
            m.keys@.len() == 0,
            m.dom() == Set::<K::Model>::empty(),
            m.as_map() == Map::<K::Model, V>::empty(),
    {
        let m = OrdMap { keys: OrdSet::new(), vals: Vec::new() };
        proof {
            assert(m.as_map() =~= Map::<K::Model, V>::empty());
        }
        m
    }

    /// The number of keys.
    pub fn len(&self) -> (n: usize)
        requires
            self.wf(),
        ensures
            n == self.keys@.len(),
            n == self.dom().len(),
    {
        proof {
            lemma_sorted_no_duplicates::<K>(self.keys@);
            self.keys@.unique_seq_to_set();
        }
        self.keys.len()
    }

    /// Whether the map has no keys.
    pub fn is_empty(&self) -> (b: bool)
        requires
            self.wf(),
        ensures
            b == (self.keys@.len() == 0),
            b == (self.dom() == Set::<K::Model>::empty()),
    {
        self.keys.is_empty()
    }

    /// The key at position `i` in ascending order.
    pub fn key(&self, i: usize) -> (k: &K)
        requires
            self.wf(),
            i < self.keys@.len(),
        ensures
            k.wf(),
            k.model() == self.keys@[i as int],
            self.dom().contains(k.model()),
    {
        self.keys.get(i)
    }

    /// The value of the key at position `i`.
    pub fn value(&self, i: usize) -> (v: &V)
        requires
            self.wf(),
            i < self.keys@.len(),
        ensures
            *v == self.vals@[i as int],
            *v == self.as_map()[self.keys@[i as int]],
    {
        proof {
            self.lemma_index_of(i as int);
        }
        &self.vals[i]
    }

    /// Whether `k` is a key of the map.
    pub fn contains_key(&self, k: &K) -> (b: bool)
        requires
            self.wf(),
            k.wf(),
        ensures
            b == self.dom().contains(k.model()),
    {
        self.keys.contains(k)
    }

    /// The value that `k` is bound to, if it is a key.
    pub fn get(&self, k: &K) -> (r: Option<&V>)
        requires
            self.wf(),
            k.wf(),
        ensures
            match r {
                Some(v) => self.dom().contains(k.model()) && *v == self.as_map()[k.model()],
                None => !self.dom().contains(k.model()),
            },
    {
        let (found, pos) = self.keys.locate(k);
        if found {
            proof {
                self.lemma_index_of(pos as int);
            }
            Some(&self.vals[pos])
        } else {
            None
        }
    }

    /// Binds `k` to `v`, in place of what `k` was bound to, if anything.
    pub fn insert(&mut self, k: K, v: V)
        requires
            old(self).wf(),
            k.wf(),
        ensures
            final(self).wf(),
            final(self).as_map() == old(self).as_map().insert(k.model(), v),
            final(self).dom() == old(self).dom().insert(k.model()),
            !old(self).dom().contains(k.model()) ==> final(self).keys@.len() == old(self).keys@.len()
                + 1,
    {
        let ghost before = *self;
        let ghost km = k.model();
        let (found, pos) = self.keys.locate(&k);
        if found {
            self.vals.set(pos, v);
            proof {
                assert(self.dom().insert(km) =~= self.dom());
                assert forall|x: K::Model| self.dom().contains(x) implies #[trigger] self.as_map()[x]
                    == before.as_map().insert(km, v)[x] by {
                    let i = self.index_of(x);
                    before.lemma_index_of(i);
                    before.lemma_index_of(pos as int);
                }
                assert(self.as_map() =~= before.as_map().insert(km, v));
            }
        } else {
            proof {
                lemma_insert_sorted::<K>(self.keys@, pos as int, km);
            }
            self.keys.items.insert(pos, k);
            self.vals.insert(pos, v);
            proof {
                assert(self.keys@ =~= before.keys@.insert(pos as int, km));
                assert forall|i: int| 0 <= i < self.keys.items@.len() implies (
                #[trigger] self.keys.items@[i]).wf() by {
                    if i < pos {
                        assert(before.keys.items@[i].wf());
                    } else if i > pos {
                        assert(before.keys.items@[i - 1].wf());
                    }
                }
                assert(self.wf());
                assert forall|x: K::Model| self.dom().contains(x) implies #[trigger] self.as_map()[x]
                    == before.as_map().insert(km, v)[x] by {
                    let i = self.index_of(x);
                    self.lemma_index_of(i);
                    if i < pos {
                        before.lemma_index_of(i);
                    } else if i > pos {
                        before.lemma_index_of(i - 1);
                    }
                }
                assert(self.as_map() =~= before.as_map().insert(km, v));
            }
        }
    }
}

} // verus!
