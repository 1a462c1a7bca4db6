//! `SBTreeSet`: a sorted set held as the keys of an `SBTreeMap` to `()`.
use vstd::prelude::*;
use crate::btree_map::iter::SBTreeMapIter;
use crate::btree_map::SBTreeMap;
use crate::key::StableKey;

verus! {

/// A sorted set: the keys of an `SBTreeMap<T, ()>`.
pub struct SBTreeSet<T> {
    map: SBTreeMap<T, ()>,
}

impl<T: StableKey> View for SBTreeSet<T> {
    type V = Set<T>;

    closed spec fn view(&self) -> Set<T> {
        self.map@.dom()
    }
}

impl<T: StableKey> SBTreeSet<T> {
    pub closed spec fn wf(&self) -> bool {
        self.map.wf()
    }

    /// The elements in increasing order.
    pub closed spec fn elements(&self) -> Seq<T> {
        self.map.entries().map_values(|e: (T, ())| e.0)
    }

    /// The elements of a well-formed set are finitely many, and `elements` lists each of
    /// them once, in strictly increasing key order.
    pub proof fn lemma_elements(&self)
        requires
            self.wf(),
        ensures
            self@.finite(),
            self@.len() == self.elements().len(),
            forall|i: int, j: int| 0 <= i < j < self.elements().len() ==> (#[trigger] self.elements()[i]).key_int()
                < (#[trigger] self.elements()[j]).key_int(),
            forall|x: T| #[trigger] self@.contains(x) <==> self.elements().contains(x),
    {
        self.map.lemma_wf();
        let e = self.map.entries();
        let el = self.elements();
        assert forall|x: T| #[trigger] self@.contains(x) <==> el.contains(x) by {
            if self@.contains(x) {
                let t = choose|t: int| 0 <= t < e.len() && e[t].0 == x;
                assert(el[t] == x);
            }
            if el.contains(x) {
                let t = choose|t: int| 0 <= t < el.len() && el[t] == x;
                assert(e[t].0 == x);
            }
        }
    }

    /// An empty set.
    pub fn new() -> (r: Self)
        ensures
            r.wf(),
            r@ == Set::<T>::empty(),
    {
        let map = SBTreeMap::new();
        assert(map@.dom() =~= Set::<T>::empty());
        SBTreeSet { map }
    }

    /// The number of elements.
    pub fn len(&self) -> (r: u64)
        requires
            self.wf(),
        ensures
            r == self@.len(),
    {
        self.map.len()
    }

    pub fn is_empty(&self) -> (r: bool)
        requires
            self.wf(),
        ensures
            r == (self@.len() == 0),
    {
        self.map.is_empty()
    }

    /// Adds `value`; true when it was already there.
    pub fn insert(&mut self, value: T) -> (r: Result<bool, T>)
        requires
            old(self).wf(),
            old(self)@.len() < u64::MAX,
        ensures
            final(self).wf(),
            final(self)@ == old(self)@.insert(value),
            r == Ok::<bool, T>(old(self)@.contains(value)),
            final(self)@.len() == (if old(self)@.contains(value) { old(self)@.len() } else { old(self)@.len() + 1 }),
    {
        proof {
            self.lemma_elements();
        }
        let prev = self.map.insert(value, ());
        assert(self.map@.dom() =~= old(self).map@.dom().insert(value));
        Ok(prev.is_some())
    }

    /// Removes `value`; true when it was there.
    pub fn remove(&mut self, value: &T) -> (r: bool)
        requires
            old(self).wf(),
        ensures
            final(self).wf(),
            final(self)@ == old(self)@.remove(*value),
            r == old(self)@.contains(*value),
            final(self)@.len() == (if old(self)@.contains(*value) { old(self)@.len() - 1 } else { old(self)@.len() as int }),
    {
        proof {
            self.lemma_elements();
        }
        let prev = self.map.remove(value);
        assert(self.map@.dom() =~= old(self).map@.dom().remove(*value));
        prev.is_some()
    }

    /// Whether `value` is in the set.
    pub fn contains(&self, value: &T) -> (r: bool)
        requires
            self.wf(),
        ensures
            r == self@.contains(*value),
    {
        self.map.contains_key(value)
    }

    /// Removes every element.
    pub fn clear(&mut self)
        ensures
            final(self).wf(),
            final(self)@ == Set::<T>::empty(),
    {
        self.map.clear();
        assert(self.map@.dom() =~= Set::<T>::empty());
    }

    /// Releases the set.
    pub fn drop(self) {
    }

    /// A cursor over the elements, in increasing order.
    pub fn iter(&self) -> (r: SBTreeSetIter<T>)
        requires
            self.wf(),
        ensures
            r.wf(),
            r.items() == self.elements(),
            r.cursor() is None,
    {
        SBTreeSetIter::new(self)
    }
}

/// A cursor over a copy of a set's elements in increasing order, with the stepping of
/// `SBTreeMapIter`.
pub struct SBTreeSetIter<T> {
    iter: SBTreeMapIter<T, ()>,
}

impl<T: StableKey> SBTreeSetIter<T> {
    pub closed spec fn items(&self) -> Seq<T> {
        self.iter.items().map_values(|e: (T, ())| e.0)
    }

    pub closed spec fn cursor(&self) -> Option<nat> {
        self.iter.cursor()
    }

    pub closed spec fn wf(&self) -> bool {
        self.iter.wf()
    }

    /// A cursor over the elements of `set`.
    pub fn new(set: &SBTreeSet<T>) -> (r: Self)
        requires
            set.wf(),
        ensures
            r.wf(),
            r.items() == set.elements(),
            r.cursor() is None,
    {
        SBTreeSetIter { iter: SBTreeMapIter::new(&set.map) }
    }

    /// The element at the position, moving it forward; `None` at the last element.
    pub fn next(&mut self) -> (r: Option<T>)
        requires
            old(self).wf(),
        ensures
            final(self).wf(),
            final(self).items() == old(self).items(),
            ({
                let s = old(self).items();
                let i = match old(self).cursor() {
                    Some(i) => i,
                    None => 0,
                };
                if s.len() == 0 {
                    r is None && final(self).cursor() == old(self).cursor()
                } else if i + 1 == s.len() {
                    r is None && final(self).cursor() == Some(i)
                } else {
                    r == Some(s[i as int]) && final(self).cursor() == Some(i + 1)
                }
            }),
    {
        proof {
            self.iter.lemma_cursor();
        }
        match self.iter.next() {
            Some(e) => Some(e.0),
            None => None,
        }
    }

    /// The element at the position, moving it backward; `None` at the first element.
    pub fn next_back(&mut self) -> (r: Option<T>)
        requires
            old(self).wf(),
        ensures
            final(self).wf(),
            final(self).items() == old(self).items(),
            ({
                let s = old(self).items();
                let i = match old(self).cursor() {
                    Some(i) => i as int,
                    None => s.len() - 1,
                };
                if s.len() == 0 {
                    r is None && final(self).cursor() == old(self).cursor()
                } else if i == 0 {
                    r is None && final(self).cursor() == Some(0nat)
                } else {
                    r == Some(s[i]) && final(self).cursor() == Some((i - 1) as nat)
                }
            }),
    {
        proof {
            self.iter.lemma_cursor();
        }
        match self.iter.next_back() {
            Some(e) => Some(e.0),
            None => None,
        }
    }
}

impl<T: StableKey> Default for SBTreeSet<T> {
    fn default() -> (r: Self)
        ensures
            r.wf(),
            r@ == Set::<T>::empty(),
    {
        Self::new()
    }
}

} // verus!
