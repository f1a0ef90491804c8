//! Maps from numbers.
use std::collections::BTreeMap;
use vstd::prelude::*;
use vstd::std_specs::iter::IteratorSpec;

use crate::map::{lemma_maps_agree, Record};

verus! {

broadcast use vstd::std_specs::btree::group_btree_axioms;

/// A map from numbers to values, in order of the numbers.
#[derive(Debug)]
pub struct NumberMap<V: View> {
    entries: BTreeMap<usize, V>,
}

impl<V: View> View for NumberMap<V> {
    type V = Map<usize, V::V>;

    closed spec fn view(&self) -> Map<usize, V::V> {
        self.entries@.map_values(|v: V| v@)
    }
}

impl<V: View> NumberMap<V> {
    /// The map with no entries.
    pub fn new() -> (r: Self)
        ensures
            r@ == Map::<usize, V::V>::empty(),
    {
        let r = NumberMap { entries: BTreeMap::new() };
        assert(r@ =~= Map::<usize, V::V>::empty());
        r
    }

    /// There are finitely many keys.
    pub proof fn lemma_finite(&self)
        ensures
            self@.dom().finite(),
    {
        assert(self@.dom() =~= self.entries@.dom());
    }

    /// Whether the map has no entries.
    pub fn is_empty(&self) -> (r: bool)
        ensures
            r == (self@ == Map::<usize, V::V>::empty()),
    {
        let r = self.entries.is_empty();
        proof {
            if r {
                assert(self@ =~= Map::<usize, V::V>::empty());
            } else if self@ == Map::<usize, V::V>::empty() {
                assert(self.entries@.dom() =~= self@.dom());
            }
        }
        r
    }

    /// The keys, each of them once.
    pub fn keys(&self) -> (r: Vec<usize>)
        ensures
            forall|k: usize| #[trigger] r@.contains(k) <==> self@.contains_key(k),
            r@.no_duplicates(),
    {
        let mut r: Vec<usize> = Vec::new();
        let ghost all = self.entries.keys().remaining();
        proof {
            assert forall|k: usize| #[trigger] all.unref().contains(k) <==> self@.contains_key(k) by {
                assert(all.unref().to_set().contains(k) == self.entries@.dom().contains(k));
            }
        }
        for key in it: self.entries.keys()
            invariant
                it.seq() == all,
                r@ == all.unref().take(it.index()),
                r@.len() == it.index(),
        {
            r.push(*key);
        }
        assert(r@ =~= all.unref());
        r
    }

    /// The value at a key.
    pub fn get(&self, key: usize) -> (r: Option<&V>)
        ensures
            match r {
                Some(v) => self@.contains_key(key) && v@ == self@[key],
                None => !self@.contains_key(key),
            },
    {
        self.entries.get(&key)
    }

    /// Whether there is a value at a key.
    pub fn contains_key(&self, key: usize) -> (r: bool)
        ensures
            r == self@.contains_key(key),
    {
        self.entries.contains_key(&key)
    }

    /// Puts a value at a key, in place of the one that was there.
    pub fn insert(&mut self, key: usize, value: V)
        ensures
            final(self)@ == old(self)@.insert(key, value@),
    {
        let ghost v = value@;
        self.entries.insert(key, value);
        assert(self@ =~= old(self)@.insert(key, v));
    }

    /// Takes the value at a key out of the map.
    pub fn remove(&mut self, key: usize) -> (r: Option<V>)
        ensures
            final(self)@ == old(self)@.remove(key),
            match r {
                Some(v) => old(self)@.contains_key(key) && v@ == old(self)@[key],
                None => !old(self)@.contains_key(key),
            },
    {
        let r = self.entries.remove(&key);
        assert(self@ =~= old(self)@.remove(key));
        r
    }
}

impl<V: Record> NumberMap<V> {
    /// Whether a value stands at any key.
    pub fn holds(&self, value: &V) -> (r: bool)
        ensures
            r == exists|k: usize| #[trigger] self@.contains_key(k) && self@[k] == value@,
    {
        let keys = self.keys();
        let mut i: usize = 0;
        while i < keys.len()
            invariant
                i <= keys.len(),
                forall|k: usize| #[trigger] keys@.contains(k) <==> self@.contains_key(k),
                forall|j: int| 0 <= j < i ==> self@[#[trigger] keys@[j]] != value@,
            decreases keys.len() - i,
        {
            assert(keys@.contains(keys@[i as int]));
            if let Some(v) = self.get(keys[i]) {
                if v.agrees(value) {
                    return true;
                }
            }
            i = i + 1;
        }
        assert forall|k: usize| #[trigger] self@.contains_key(k) implies self@[k] != value@ by {
            assert(keys@.contains(k));
            let j = keys@.index_of(k);
            assert(keys@[j] == k);
        }
        false
    }

    fn within(&self, other: &Self) -> (r: bool)
        ensures
            r == (forall|k: usize| #[trigger]
                self@.contains_key(k) ==> other@.contains_key(k) && other@[k] == self@[k]),
    {
        let keys = self.keys();
        let mut i: usize = 0;
        while i < keys.len()
            invariant
                i <= keys.len(),
                forall|k: usize| #[trigger] keys@.contains(k) <==> self@.contains_key(k),
                forall|j: int|
                    0 <= j < i ==> other@.contains_key(#[trigger] keys@[j]) && other@[keys@[j]]
                        == self@[keys@[j]],
            decreases keys.len() - i,
        {
            let key: usize = keys[i];
            assert(keys@.contains(key));
            match (self.get(key), other.get(key)) {
                (Some(own), Some(theirs)) => {
                    if !own.agrees(theirs) {
                        return false;
                    }
                },
                _ => {
                    return false;
                },
            }
            i = i + 1;
        }
        assert forall|k: usize| #[trigger] self@.contains_key(k) implies other@.contains_key(k)
            && other@[k] == self@[k] by {
            assert(keys@.contains(k));
            let j = keys@.index_of(k);
            assert(keys@[j] == k);
        }
        true
    }
}

impl<V: Record> Record for NumberMap<V> {
    fn duplicate(&self) -> (r: Self) {
        let keys = self.keys();
        let mut r: NumberMap<V> = NumberMap::new();
        let mut i: usize = 0;
        while i < keys.len()
            invariant
                i <= keys.len(),
                forall|k: usize| #[trigger] keys@.contains(k) <==> self@.contains_key(k),
                forall|k: usize| #[trigger]
                    r@.contains_key(k) ==> self@.contains_key(k) && self@[k] == r@[k],
                forall|j: int| 0 <= j < i ==> r@.contains_key(#[trigger] keys@[j]),
            decreases keys.len() - i,
        {
            let key: usize = keys[i];
            assert(keys@.contains(key));
            if let Some(v) = self.get(key) {
                r.insert(key, v.duplicate());
            }
            i = i + 1;
        }
        proof {
            assert forall|k: usize| #[trigger] self@.contains_key(k) implies r@.contains_key(k)
                && r@[k] == self@[k] by {
                assert(keys@.contains(k));
                let j = keys@.index_of(k);
                assert(keys@[j] == k);
            }
            lemma_maps_agree(self@, r@);
        }
        r
    }

    fn agrees(&self, other: &Self) -> (r: bool) {
        let r = self.within(other) && other.within(self);
        proof {
            if r {
                lemma_maps_agree(self@, other@);
            }
        }
        r
    }
}

impl<V: Record> PartialEq for NumberMap<V> {
    fn eq(&self, other: &Self) -> (r: bool) {
        self.agrees(other)
    }
}

impl<V: Record> vstd::std_specs::cmp::PartialEqSpecImpl for NumberMap<V> {
    open spec fn obeys_eq_spec() -> bool {
        true
    }

    open spec fn eq_spec(&self, other: &Self) -> bool {
        self@ == other@
    }
}

} // verus!
