//! Finite maps held as lists of entries.
//!
//! A table holds each key once. Its view is the map from the models of its
//! keys to the models of its values; the order of the entries is the order
//! in which the keys were first inserted.

use vstd::prelude::*;

verus! {

/// A value that a table can hold: it has a model, a validity condition and
/// can be copied.
pub trait Item: View + Sized {
    /// The value's own invariant.
    spec fn wf(&self) -> bool;

    /// What holds of the model of every valid value.
    spec fn is_model(m: Self::V) -> bool;

    /// The model of a valid value is as `is_model` says.
    proof fn lemma_model(&self)
        requires
            self.wf(),
        ensures
            Self::is_model(self@),
    ;

    /// A copy with the same model.
    fn duplicate(&self) -> (r: Self)
        requires
            self.wf(),
        ensures
            r.wf(),
            r@ == self@,
    ;
}

/// A value that can serve as a key: two keys can be tested for having the
/// same model.
pub trait Key: Item {
    /// Whether the two keys have the same model.
    fn matches(&self, other: &Self) -> (r: bool)
        requires
            self.wf(),
            other.wf(),
        ensures
            r == (self@ == other@),
    ;
}

/// A finite map from keys to values.
pub struct Table<K, V> {
    entries: Vec<(K, V)>,
}

impl<K: Key, V: Item> View for Table<K, V> {
    type V = Map<K::V, V::V>;

    open spec fn view(&self) -> Map<K::V, V::V> {
        Map::new(
            |k: K::V| self.keys().contains(k),
            |k: K::V| self.values()[self.keys().index_of(k)],
        )
    }
}

impl<K: Key, V: Item> Table<K, V> {
    /// The models of the keys, in the order of the entries.
    pub closed spec fn keys(&self) -> Seq<K::V> {
        Seq::new(self.entries@.len(), |i: int| self.entries@[i].0@)
    }

    /// The models of the values, in the order of the entries.
    pub closed spec fn values(&self) -> Seq<V::V> {
        Seq::new(self.entries@.len(), |i: int| self.entries@[i].1@)
    }

    /// Every key and value is valid.
    pub closed spec fn entries_wf(&self) -> bool {
        forall|i: int|
            0 <= i < self.entries@.len() ==> (#[trigger] self.entries@[i]).0.wf()
                && self.entries@[i].1.wf()
    }

    /// No key occurs twice, and every key and value is valid.
    pub open spec fn table_wf(&self) -> bool {
        &&& self.keys().no_duplicates()
        &&& self.keys().len() == self.values().len()
        &&& self.entries_wf()
    }

    /// What the view holds at each entry.
    pub proof fn lemma_view(&self)
        requires
            self.table_wf(),
        ensures
            self@.dom() == self.keys().to_set(),
            self@.dom().finite(),
            self@.dom().len() == self.keys().len(),
            forall|i: int|
                0 <= i < self.keys().len() ==> self@.contains_key(#[trigger] self.keys()[i])
                    && self@[self.keys()[i]] == self.values()[i],
            forall|k: K::V|
                self@.contains_key(k) ==> 0 <= self.keys().index_of(k) < self.keys().len()
                    && self.keys()[self.keys().index_of(k)] == k,
            forall|k: K::V|
                #[trigger] self@.contains_key(k) ==> K::is_model(k) && V::is_model(self@[k]),
    {
        assert forall|k: K::V| #[trigger] self@.contains_key(k) implies K::is_model(k)
            && V::is_model(self@[k]) by {
            let j = self.keys().index_of(k);
            assert(self.entries@[j].0.wf());
            self.entries@[j].0.lemma_model();
            self.entries@[j].1.lemma_model();
        }
        assert(self@.dom() =~= self.keys().to_set());
        vstd::seq_lib::seq_to_set_is_finite(self.keys());
        self.keys().unique_seq_to_set();
        assert forall|i: int| 0 <= i < self.keys().len() implies self@.contains_key(
            #[trigger] self.keys()[i],
        ) && self@[self.keys()[i]] == self.values()[i] by {
            let k = self.keys()[i];
            assert(self.keys().contains(k));
            let j = self.keys().index_of(k);
            assert(j == i);
        }
    }

    /// The empty table.
    pub fn new() -> (r: Self)
        ensures
            r.table_wf(),
            r@ == Map::<K::V, V::V>::empty(),
            r.keys() == Seq::<K::V>::empty(),
    {
        let r = Table { entries: Vec::new() };
        proof {
            assert(r.keys() =~= Seq::<K::V>::empty());
            assert(r.values() =~= Seq::<V::V>::empty());
            assert(r@ =~= Map::<K::V, V::V>::empty());
        }
        r
    }

    /// The number of entries.
    pub fn len(&self) -> (n: usize)
        ensures
            n == self.keys().len(),
    {
        self.entries.len()
    }

    /// The key of entry `i`.
    pub fn key_at(&self, i: usize) -> (r: &K)
        requires
            self.table_wf(),
            i < self.keys().len(),
        ensures
            r.wf(),
            r@ == self.keys()[i as int],
    {
        &self.entries[i].0
    }

    /// The value of entry `i`.
    pub fn value_at(&self, i: usize) -> (r: &V)
        requires
            self.table_wf(),
            i < self.keys().len(),
        ensures
            r.wf(),
            r@ == self.values()[i as int],
    {
        &self.entries[i].1
    }

    /// The entry that holds `key`, if there is one.
    pub fn position(&self, key: &K) -> (r: Option<usize>)
        requires
            self.table_wf(),
            key.wf(),
        ensures
            match r {
                Some(i) => i < self.keys().len() && self.keys()[i as int] == key@,
                None => !self@.contains_key(key@),
            },
    {
        let n: usize = self.entries.len();
        let mut i: usize = 0;
        while i < n
            invariant
                i <= n,
                n == self.entries.len(),
                self.table_wf(),
                key.wf(),
                forall|k: int| 0 <= k < i ==> self.keys()[k] != key@,
            decreases n - i,
        {
            if self.entries[i].0.matches(key) {
                return Some(i);
            }
            i += 1;
        }
        None
    }

    /// The value stored under `key`, if there is one.
    pub fn get(&self, key: &K) -> (r: Option<&V>)
        requires
            self.table_wf(),
            key.wf(),
        ensures
            match r {
                Some(v) => self@.contains_key(key@) && v@ == self@[key@] && v.wf(),
                None => !self@.contains_key(key@),
            },
    {
        match self.position(key) {
            Some(i) => {
                proof {
                    self.lemma_view();
                }
                Some(&self.entries[i].1)
            },
            None => None,
        }
    }

    /// Stores `value` under `key`, in place of what was stored there before.
    pub fn insert(&mut self, key: K, value: V)
        requires
            old(self).table_wf(),
            key.wf(),
            value.wf(),
        ensures
            final(self).table_wf(),
            final(self)@ == old(self)@.insert(key@, value@),
            final(self).keys() == if old(self)@.contains_key(key@) {
                old(self).keys()
            } else {
                old(self).keys().push(key@)
            },
            final(self).values() == if old(self)@.contains_key(key@) {
                old(self).values().update(old(self).keys().index_of(key@), value@)
            } else {
                old(self).values().push(value@)
            },
    {
        let ghost before = *self;
        proof {
            before.lemma_view();
        }
        match self.position(&key) {
            Some(i) => {
                self.entries.set(i, (key, value));
                proof {
                    assert(self.keys() =~= before.keys());
                    assert(before.keys().index_of(key@) == i);
                    assert(self.values() =~= before.values().update(i as int, value@));
                    self.lemma_view();
                    assert(self@ =~= before@.insert(key@, value@)) by {
                        assert forall|k: K::V| self@.contains_key(k) implies #[trigger] self@[k]
                            == before@.insert(key@, value@)[k] by {
                            let j = self.keys().index_of(k);
                            assert(self@[self.keys()[j]] == self.values()[j]);
                            assert(before@[before.keys()[j]] == before.values()[j]);
                        }
                    }
                }
            },
            None => {
                self.entries.push((key, value));
                proof {
                    assert(self.keys() =~= before.keys().push(key@));
                    assert(self.values() =~= before.values().push(value@));
                    assert(!before.keys().contains(key@));
                    assert(self.keys().no_duplicates());
                    self.lemma_view();
                    assert(self@ =~= before@.insert(key@, value@)) by {
                        assert forall|k: K::V| self@.contains_key(k) implies #[trigger] self@[k]
                            == before@.insert(key@, value@)[k] by {
                            let j = self.keys().index_of(k);
                            assert(self@[self.keys()[j]] == self.values()[j]);
                            if j < before.keys().len() {
                                assert(before@[before.keys()[j]] == before.values()[j]);
                            }
                        }
                        assert forall|k: K::V|
                            before@.insert(key@, value@).contains_key(k) implies self@.contains_key(
                            k,
                        ) by {
                            if k != key@ {
                                let j = before.keys().index_of(k);
                                assert(self.keys()[j] == k);
                            } else {
                                assert(self.keys()[before.keys().len() as int] == k);
                            }
                        }
                    }
                }
            },
        }
    }
}

impl<K: Key, V: Item> Item for Table<K, V> {
    open spec fn wf(&self) -> bool {
        self.table_wf()
    }

    open spec fn is_model(m: Map<K::V, V::V>) -> bool {
        &&& m.dom().finite()
        &&& forall|k: K::V| #[trigger] m.contains_key(k) ==> K::is_model(k) && V::is_model(m[k])
    }

    proof fn lemma_model(&self) {
        self.lemma_view();
    }

    fn duplicate(&self) -> (r: Self) {
        let mut entries: Vec<(K, V)> = Vec::new();
        let n: usize = self.entries.len();
        let mut i: usize = 0;
        while i < n
            invariant
                i <= n,
                n == self.entries.len(),
                self.table_wf(),
                entries.len() == i,
                forall|k: int|
                    0 <= k < i ==> (#[trigger] entries@[k]).0.wf() && entries@[k].1.wf()
                        && entries@[k].0@ == self.entries@[k].0@ && entries@[k].1@
                        == self.entries@[k].1@,
            decreases n - i,
        {
            let k = self.entries[i].0.duplicate();
            let v = self.entries[i].1.duplicate();
            entries.push((k, v));
            i += 1;
        }
        let r = Table { entries };
        proof {
            assert(r.keys() =~= self.keys());
            assert(r.values() =~= self.values());
            assert(r@ =~= self@);
        }
        r
    }
}

/// A finite set of keys, each held once, in the order of insertion.
pub struct KeySet<K> {
    entries: Vec<K>,
}

impl<K: Key> View for KeySet<K> {
    type V = Set<K::V>;

    open spec fn view(&self) -> Set<K::V> {
        self.items().to_set()
    }
}

impl<K: Key> KeySet<K> {
    /// The models of the members, in the order in which they are held.
    pub closed spec fn items(&self) -> Seq<K::V> {
        Seq::new(self.entries@.len(), |i: int| self.entries@[i]@)
    }

    /// Every member is valid.
    pub closed spec fn members_wf(&self) -> bool {
        forall|i: int| 0 <= i < self.entries@.len() ==> (#[trigger] self.entries@[i]).wf()
    }

    /// No member occurs twice, and every member is valid.
    pub open spec fn set_wf(&self) -> bool {
        &&& self.items().no_duplicates()
        &&& self.members_wf()
    }

    /// The view is finite and has one element for each member held.
    pub proof fn lemma_view(&self)
        requires
            self.set_wf(),
        ensures
            self@.finite(),
            self@.len() == self.items().len(),
            forall|k: K::V| #[trigger] self@.contains(k) ==> K::is_model(k),
    {
        vstd::seq_lib::seq_to_set_is_finite(self.items());
        self.items().unique_seq_to_set();
        assert forall|k: K::V| #[trigger] self@.contains(k) implies K::is_model(k) by {
            let j = self.items().index_of(k);
            assert(self.entries@[j].wf());
            self.entries@[j].lemma_model();
        }
    }

    /// The empty set.
    pub fn new() -> (r: Self)
        ensures
            r.set_wf(),
            r@ == Set::<K::V>::empty(),
    {
        let r = KeySet { entries: Vec::new() };
        proof {
            assert(r.items() =~= Seq::<K::V>::empty());
            assert(r@ =~= Set::<K::V>::empty());
        }
        r
    }

    /// The number of members.
    pub fn len(&self) -> (n: usize)
        ensures
            n == self.items().len(),
    {
        self.entries.len()
    }

    /// The member at position `i`.
    pub fn get(&self, i: usize) -> (r: &K)
        requires
            self.set_wf(),
            i < self.items().len(),
        ensures
            r.wf(),
            r@ == self.items()[i as int],
    {
        &self.entries[i]
    }

    /// Whether `key` is a member.
    pub fn contains(&self, key: &K) -> (r: bool)
        requires
            self.set_wf(),
            key.wf(),
        ensures
            r == self@.contains(key@),
    {
        let n: usize = self.entries.len();
        let mut i: usize = 0;
        while i < n
            invariant
                i <= n,
                n == self.entries.len(),
                self.set_wf(),
                key.wf(),
                forall|k: int| 0 <= k < i ==> self.items()[k] != key@,
            decreases n - i,
        {
            if self.entries[i].matches(key) {
                proof {
                    assert(self.items()[i as int] == key@);
                }
                return true;
            }
            i += 1;
        }
        false
    }

    /// Adds `key` to the set. Returns whether it was new.
    pub fn insert(&mut self, key: K) -> (added: bool)
        requires
            old(self).set_wf(),
            key.wf(),
        ensures
            final(self).set_wf(),
            final(self)@ == old(self)@.insert(key@),
            added == !old(self)@.contains(key@),
            final(self).items() == if added {
                old(self).items().push(key@)
            } else {
                old(self).items()
            },
    {
        if self.contains(&key) {
            proof {
                assert(self@ =~= self@.insert(key@));
            }
            false
        } else {
            let ghost before = self.items();
            self.entries.push(key);
            proof {
                assert(self.items() =~= before.push(key@));
                before.lemma_push_to_set_commute(key@);
            }
            true
        }
    }
}

impl<K: Key> Item for KeySet<K> {
    open spec fn wf(&self) -> bool {
        self.set_wf()
    }

    open spec fn is_model(m: Set<K::V>) -> bool {
        m.finite()
    }

    proof fn lemma_model(&self) {
        self.lemma_view();
    }

    fn duplicate(&self) -> (r: Self) {
        let mut entries: Vec<K> = Vec::new();
        let n: usize = self.entries.len();
        let mut i: usize = 0;
        while i < n
            invariant
                i <= n,
                n == self.entries.len(),
                self.set_wf(),
                entries.len() == i,
                forall|k: int|
                    0 <= k < i ==> (#[trigger] entries@[k]).wf() && entries@[k]@
                        == self.entries@[k]@,
            decreases n - i,
        {
            let k = self.entries[i].duplicate();
            entries.push(k);
            i += 1;
        }
        let r = KeySet { entries };
        proof {
            assert(r.items() =~= self.items());
        }
        r
    }
}

impl Item for char {
    open spec fn wf(&self) -> bool {
        true
    }

    open spec fn is_model(m: char) -> bool {
        true
    }

    proof fn lemma_model(&self) {
    }

    fn duplicate(&self) -> (r: Self) {
        *self
    }
}

impl Key for char {
    fn matches(&self, other: &Self) -> (r: bool) {
        *self == *other
    }
}

impl Item for String {
    open spec fn wf(&self) -> bool {
        true
    }

    open spec fn is_model(m: Seq<char>) -> bool {
        true
    }

    proof fn lemma_model(&self) {
    }

    fn duplicate(&self) -> (r: Self) {
        self.clone()
    }
}

impl Key for String {
    fn matches(&self, other: &Self) -> (r: bool) {
        *self == *other
    }
}

} // verus!
