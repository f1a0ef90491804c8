//! Maps from text.
use vstd::prelude::*;

use crate::text::same_text;

verus! {

/// A value that can be copied and compared by what it stands for.
pub trait Record: View + Sized {
    /// Another value that stands for the same.
    fn duplicate(&self) -> (r: Self)
        ensures
            r@ == self@,
    ;

    /// Whether two values stand for the same.
    fn agrees(&self, other: &Self) -> (r: bool)
        ensures
            r == (self@ == other@),
    ;
}

impl Record for usize {
    fn duplicate(&self) -> (r: Self) {
        *self
    }

    fn agrees(&self, other: &Self) -> (r: bool) {
        *self == *other
    }
}

impl Record for String {
    fn duplicate(&self) -> (r: Self) {
        self.clone()
    }

    fn agrees(&self, other: &Self) -> (r: bool) {
        same_text(self.as_str(), other.as_str())
    }
}

/// No two pairs have the same key.
pub open spec fn distinct_keys<K, T>(p: Seq<(K, T)>) -> bool {
    forall|i: int, j: int| 0 <= i < j < p.len() ==> (#[trigger] p[i]).0 != (#[trigger] p[j]).0
}

/// The map that results from inserting the pairs in order.
pub open spec fn map_of<K, T>(p: Seq<(K, T)>) -> Map<K, T>
    decreases p.len(),
{
    if p.len() == 0 {
        Map::empty()
    } else {
        map_of(p.drop_last()).insert(p.last().0, p.last().1)
    }
}

/// The keys of [`map_of`] are the keys of the pairs.
pub proof fn lemma_map_of_keys<K, T>(p: Seq<(K, T)>, k: K)
    ensures
        map_of(p).contains_key(k) <==> exists|i: int| 0 <= i < p.len() && (#[trigger] p[i]).0 == k,
    decreases p.len(),
{
    if p.len() > 0 {
        lemma_map_of_keys(p.drop_last(), k);
        if map_of(p).contains_key(k) {
            if p.last().0 == k {
                assert(p[p.len() - 1].0 == k);
            } else {
                let i = choose|i: int|
                    0 <= i < p.drop_last().len() && (#[trigger] p.drop_last()[i]).0 == k;
                assert(p[i].0 == k);
            }
        }
        if exists|i: int| 0 <= i < p.len() && (#[trigger] p[i]).0 == k {
            let i = choose|i: int| 0 <= i < p.len() && (#[trigger] p[i]).0 == k;
            if i < p.len() - 1 {
                assert(p.drop_last()[i].0 == k);
            }
        }
    }
}

/// With distinct keys every pair is in the map.
pub proof fn lemma_map_of_value<K, T>(p: Seq<(K, T)>, i: int)
    requires
        distinct_keys(p),
        0 <= i < p.len(),
    ensures
        map_of(p).contains_key(p[i].0),
        map_of(p)[p[i].0] == p[i].1,
    decreases p.len(),
{
    lemma_map_of_keys(p, p[i].0);
    if i < p.len() - 1 {
        assert(distinct_keys(p.drop_last())) by {
            assert forall|a: int, b: int| 0 <= a < b < p.drop_last().len() implies (
            #[trigger] p.drop_last()[a]).0 != (#[trigger] p.drop_last()[b]).0 by {
                assert(p[a].0 != p[b].0);
            }
        }
        lemma_map_of_value(p.drop_last(), i);
        assert(p.drop_last()[i] == p[i]);
        assert(p[i].0 != p[p.len() - 1].0);
    }
}

/// Pairs with a value put at a key: in place of the pair that was found, or behind them all.
pub open spec fn pairs_put<K, T>(p: Seq<(K, T)>, found: Option<usize>, k: K, v: T) -> Seq<(K, T)> {
    match found {
        Some(i) => p.update(i as int, (k, v)),
        None => p.push((k, v)),
    }
}

/// What putting a value at a key does to the map.
pub proof fn lemma_pairs_put<K, T>(before: Seq<(K, T)>, found: Option<usize>, k: K, v: T)
    requires
        distinct_keys(before),
        match found {
            Some(i) => i < before.len() && before[i as int].0 == k,
            None => !map_of(before).contains_key(k),
        },
    ensures
        distinct_keys(pairs_put(before, found, k, v)),
        map_of(pairs_put(before, found, k, v)) == map_of(before).insert(k, v),
{
    let after = pairs_put(before, found, k, v);
    assert forall|a: int, b: int| 0 <= a < b < after.len() implies (#[trigger] after[a]).0 != (
    #[trigger] after[b]).0 by {
        if found is None {
            lemma_map_of_keys(before, k);
        }
        if b < before.len() {
            assert(before[a].0 != before[b].0);
        } else {
            assert(before[a].0 != k);
        }
    }
    assert forall|q: K| #[trigger] map_of(after).contains_key(q) == map_of(before).insert(
        k,
        v,
    ).contains_key(q) by {
        lemma_map_of_keys(after, q);
        lemma_map_of_keys(before, q);
        if map_of(before).contains_key(q) {
            let i = choose|i: int| 0 <= i < before.len() && (#[trigger] before[i]).0 == q;
            assert(after[i].0 == q);
        }
        if q == k {
            if let Some(i) = found {
                assert(after[i as int].0 == q);
            } else {
                assert(after[before.len() as int].0 == q);
            }
        }
        if map_of(after).contains_key(q) && q != k {
            let i = choose|i: int| 0 <= i < after.len() && (#[trigger] after[i]).0 == q;
            assert(before[i].0 == q);
        }
    }
    assert forall|q: K| #[trigger] map_of(after).contains_key(q) implies map_of(after)[q] == map_of(
        before,
    ).insert(k, v)[q] by {
        lemma_map_of_keys(after, q);
        let i = choose|i: int| 0 <= i < after.len() && (#[trigger] after[i]).0 == q;
        lemma_map_of_value(after, i);
        if q != k {
            lemma_map_of_value(before, i);
        } else if let Some(j) = found {
            lemma_map_of_value(after, j as int);
        } else {
            lemma_map_of_value(after, before.len() as int);
        }
    }
    assert(map_of(after) =~= map_of(before).insert(k, v));
}

/// What taking out a pair does to the map.
pub proof fn lemma_pairs_taken<K, T>(before: Seq<(K, T)>, k: int)
    requires
        distinct_keys(before),
        0 <= k < before.len(),
    ensures
        distinct_keys(before.remove(k)),
        map_of(before.remove(k)) == map_of(before).remove(before[k].0),
{
    let after = before.remove(k);
    let key = before[k].0;
    assert forall|a: int, b: int| 0 <= a < b < after.len() implies (#[trigger] after[a]).0 != (
    #[trigger] after[b]).0 by {
        let x = if a < k {
            a
        } else {
            a + 1
        };
        let y = if b < k {
            b
        } else {
            b + 1
        };
        assert(before[x].0 != before[y].0);
    }
    assert forall|q: K| #[trigger] map_of(after).contains_key(q) == map_of(before).remove(
        key,
    ).contains_key(q) by {
        lemma_map_of_keys(after, q);
        lemma_map_of_keys(before, q);
        if map_of(before).contains_key(q) && q != key {
            let i = choose|i: int| 0 <= i < before.len() && (#[trigger] before[i]).0 == q;
            let j = if i < k {
                i
            } else {
                i - 1
            };
            assert(after[j].0 == q);
        }
        if map_of(after).contains_key(q) {
            let j = choose|j: int| 0 <= j < after.len() && (#[trigger] after[j]).0 == q;
            let i = if j < k {
                j
            } else {
                j + 1
            };
            assert(before[i].0 == q);
            assert(before[i].0 != before[k].0);
        }
    }
    assert forall|q: K| #[trigger] map_of(after).contains_key(q) implies map_of(after)[q] == map_of(
        before,
    ).remove(key)[q] by {
        lemma_map_of_keys(after, q);
        let j = choose|j: int| 0 <= j < after.len() && (#[trigger] after[j]).0 == q;
        lemma_map_of_value(after, j);
        let i = if j < k {
            j
        } else {
            j + 1
        };
        lemma_map_of_value(before, i);
    }
    assert(map_of(after) =~= map_of(before).remove(key));
}

/// Two maps with the same values at the keys of each are equal.
pub proof fn lemma_maps_agree<K, T>(a: Map<K, T>, b: Map<K, T>)
    requires
        forall|k: K| #[trigger] a.contains_key(k) ==> b.contains_key(k) && b[k] == a[k],
        forall|k: K| #[trigger] b.contains_key(k) ==> a.contains_key(k) && a[k] == b[k],
    ensures
        a == b,
{
    assert(a =~= b);
}

/// A map from text to values, in order of insertion.
#[derive(Debug)]
pub struct TextMap<V: View> {
    entries: Vec<(String, V)>,
}

impl<V: View> View for TextMap<V> {
    type V = Map<Seq<char>, V::V>;

    closed spec fn view(&self) -> Map<Seq<char>, V::V> {
        map_of(self.listing())
    }
}

impl<V: View> TextMap<V> {
    /// The entries, in order.
    pub closed spec fn listing(&self) -> Seq<(Seq<char>, V::V)> {
        self.entries@.map_values(|e: (String, V)| (e.0@, e.1@))
    }

    #[verifier::type_invariant]
    spec fn well_formed(&self) -> bool {
        distinct_keys(self.listing())
    }

    /// The map with no entries.
    pub fn new() -> (r: Self)
        ensures
            r@ == Map::<Seq<char>, V::V>::empty(),
            r.listing() == Seq::<(Seq<char>, V::V)>::empty(),
    {
        let r = TextMap { entries: Vec::new() };
        assert(r.listing() =~= Seq::<(Seq<char>, V::V)>::empty());
        r
    }

    /// The number of entries, whose keys are distinct.
    pub fn len(&self) -> (n: usize)
        ensures
            n == self.listing().len(),
            distinct_keys(self.listing()),
            self@ == map_of(self.listing()),
    {
        proof {
            use_type_invariant(self);
        }
        self.entries.len()
    }

    /// Whether the map has no entries.
    pub fn is_empty(&self) -> (r: bool)
        ensures
            r == (self@ == Map::<Seq<char>, V::V>::empty()),
    {
        proof {
            if self.entries@.len() > 0 {
                let k = self.listing()[0].0;
                lemma_map_of_keys(self.listing(), k);
                assert(self@.contains_key(k));
            } else {
                assert(self.listing() =~= Seq::<(Seq<char>, V::V)>::empty());
            }
        }
        self.entries.len() == 0
    }

    /// The key of the entry at a place.
    pub fn key_at(&self, i: usize) -> (k: &String)
        requires
            i < self.listing().len(),
        ensures
            k@ == self.listing()[i as int].0,
    {
        &self.entries[i].0
    }

    /// The value of the entry at a place.
    pub fn value_at(&self, i: usize) -> (v: &V)
        requires
            i < self.listing().len(),
        ensures
            v@ == self.listing()[i as int].1,
    {
        &self.entries[i].1
    }

    fn position(&self, key: &str) -> (r: Option<usize>)
        ensures
            match r {
                Some(i) => i < self.listing().len() && self.listing()[i as int].0 == key@
                    && self@.contains_key(key@) && self@[key@] == self.listing()[i as int].1,
                None => !self@.contains_key(key@),
            },
    {
        proof {
            use_type_invariant(self);
        }
        let mut i: usize = 0;
        while i < self.entries.len()
            invariant
                i <= self.entries.len(),
                distinct_keys(self.listing()),
                forall|j: int| 0 <= j < i ==> (#[trigger] self.listing()[j]).0 != key@,
            decreases self.entries.len() - i,
        {
            if same_text(self.entries[i].0.as_str(), key) {
                proof {
                    lemma_map_of_value(self.listing(), i as int);
                }
                return Some(i);
            }
            i = i + 1;
        }
        proof {
            lemma_map_of_keys(self.listing(), key@);
        }
        None
    }

    /// The value at a key.
    pub fn get(&self, key: &str) -> (r: Option<&V>)
        ensures
            match r {
                Some(v) => self@.contains_key(key@) && v@ == self@[key@],
                None => !self@.contains_key(key@),
            },
    {
        match self.position(key) {
            Some(i) => Some(&self.entries[i].1),
            None => None,
        }
    }

    /// Whether there is a value at a key.
    pub fn contains_key(&self, key: &str) -> (r: bool)
        ensures
            r == self@.contains_key(key@),
    {
        self.position(key).is_some()
    }

    /// Puts a value at a key, in place of the one that was there.
    pub fn insert(&mut self, key: String, value: V)
        ensures
            final(self)@ == old(self)@.insert(key@, value@),
    {
        let ghost before = self.listing();
        let ghost k = key@;
        let ghost v = value@;
        let found = self.position(key.as_str());
        proof {
            use_type_invariant(&*self);
        }
        let mut entries: Vec<(String, V)> = Vec::new();
        std::mem::swap(&mut self.entries, &mut entries);
        match found {
            Some(i) => {
                entries[i] = (key, value);
            },
            None => {
                entries.push((key, value));
            },
        }
        proof {
            lemma_pairs_put(before, found, k, v);
            assert(entries@.map_values(|e: (String, V)| (e.0@, e.1@)) =~= pairs_put(
                before,
                found,
                k,
                v,
            ));
        }
        self.entries = entries;
    }

    /// Takes the value at a key out of the map.
    pub fn remove(&mut self, key: &str) -> (r: Option<V>)
        ensures
            final(self)@ == old(self)@.remove(key@),
            match r {
                Some(v) => old(self)@.contains_key(key@) && v@ == old(self)@[key@],
                None => !old(self)@.contains_key(key@),
            },
    {
        let ghost before = self.listing();
        let k = match self.position(key) {
            Some(k) => k,
            None => {
                assert(self@ =~= self@.remove(key@));
                return None;
            },
        };
        proof {
            use_type_invariant(&*self);
        }
        let mut entries: Vec<(String, V)> = Vec::new();
        std::mem::swap(&mut self.entries, &mut entries);
        let (_, value) = entries.remove(k);
        proof {
            lemma_pairs_taken(before, k as int);
            assert(entries@.map_values(|e: (String, V)| (e.0@, e.1@)) =~= before.remove(k as int));
        }
        self.entries = entries;
        Some(value)
    }
}

impl<V: Record> TextMap<V> {
    fn within(&self, other: &Self) -> (r: bool)
        ensures
            r == (forall|k: Seq<char>| #[trigger]
                self@.contains_key(k) ==> other@.contains_key(k) && other@[k] == self@[k]),
    {
        proof {
            use_type_invariant(self);
        }
        let mut i: usize = 0;
        while i < self.entries.len()
            invariant
                i <= self.entries.len(),
                distinct_keys(self.listing()),
                forall|j: int|
                    0 <= j < i ==> other@.contains_key((#[trigger] self.listing()[j]).0)
                        && other@[self.listing()[j].0] == self.listing()[j].1,
            decreases self.entries.len() - i,
        {
            proof {
                lemma_map_of_value(self.listing(), i as int);
            }
            let ghost k = self.listing()[i as int].0;
            assert(self@.contains_key(k));
            match other.get(self.entries[i].0.as_str()) {
                None => {
                    return false;
                },
                Some(v) => {
                    if !self.entries[i].1.agrees(v) {
                        return false;
                    }
                },
            }
            i = i + 1;
        }
        proof {
            assert forall|k: Seq<char>| #[trigger] self@.contains_key(k) implies other@.contains_key(
                k,
            ) && other@[k] == self@[k] by {
                lemma_map_of_keys(self.listing(), k);
                let j = choose|j: int|
                    0 <= j < self.listing().len() && (#[trigger] self.listing()[j]).0 == k;
                lemma_map_of_value(self.listing(), j);
            }
        }
        true
    }
}

impl<V: Record> Record for TextMap<V> {
    fn duplicate(&self) -> (r: Self) {
        proof {
            use_type_invariant(self);
        }
        let mut entries: Vec<(String, V)> = Vec::new();
        let mut i: usize = 0;
        while i < self.entries.len()
            invariant
                i <= self.entries.len(),
                entries@.len() == i,
                forall|j: int|
                    0 <= j < i ==> (#[trigger] entries@[j]).0@ == self.entries@[j].0@
                        && entries@[j].1@ == self.entries@[j].1@,
            decreases self.entries.len() - i,
        {
            entries.push((self.entries[i].0.clone(), self.entries[i].1.duplicate()));
            i = i + 1;
        }
        assert(entries@.map_values(|e: (String, V)| (e.0@, e.1@)) =~= self.listing());
        TextMap { entries }
    }

    fn agrees(&self, other: &Self) -> (r: bool) {
        let r = self.within(other) && other.within(self);
        proof {
            if r {
                lemma_maps_agree(self@, other@);
            }
        }
        r
    }
}

impl<V: Record> PartialEq for TextMap<V> {
    fn eq(&self, other: &Self) -> (r: bool) {
        self.agrees(other)
    }
}

impl<V: Record> vstd::std_specs::cmp::PartialEqSpecImpl for TextMap<V> {
    open spec fn obeys_eq_spec() -> bool {
        true
    }

    open spec fn eq_spec(&self, other: &Self) -> bool {
        self@ == other@
    }
}

} // verus!
