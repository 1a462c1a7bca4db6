//! `SHashSet`: a set of keys held as the keys of an `SHashMap` to `()`.
use vstd::prelude::*;
use crate::hash_map::{map_max_capacity, full_len, grown_capacity, grows_within, SHashMap, SHashMapIter, DEFAULT_CAPACITY};
use crate::key::{AsFixedSizeBytes, StableKey};
use crate::OutOfMemory;

verus! {

/// A hash set: the keys of an `SHashMap<T, ()>`.
pub struct SHashSet<T> {
    map: SHashMap<T, ()>,
}

impl<T: StableKey> View for SHashSet<T> {
    type V = Set<T>;

    closed spec fn view(&self) -> Set<T> {
        self.map@.dom()
    }
}

impl<T: StableKey> SHashSet<T> {
    pub closed spec fn wf(&self) -> bool {
        self.map.wf()
    }

    /// The number of slots of the underlying map.
    pub closed spec fn spec_capacity(&self) -> nat {
        self.map.spec_capacity()
    }

    /// Creates an empty set of the default capacity.
    pub fn new() -> (r: Self)
        ensures
            r.wf(),
            r@ == Set::<T>::empty(),
            r.spec_capacity() == DEFAULT_CAPACITY,
    {
        let map = SHashMap::new();
        assert(map@.dom() =~= Set::<T>::empty());
        SHashSet { map }
    }

    /// Creates an empty set with `capacity` slots.
    pub fn new_with_capacity(capacity: usize) -> (r: Result<Self, OutOfMemory>)
        requires
            2 <= capacity <= map_max_capacity::<T, ()>(),
        ensures
            r matches Ok(s) && s.wf() && s@ == Set::<T>::empty() && s.spec_capacity() == capacity,
    {
        match SHashMap::new_with_capacity(capacity) {
            Ok(map) => {
                assert(map@.dom() =~= Set::<T>::empty());
                Ok(SHashSet { map })
            },
            Err(e) => Err(e),
        }
    }

    /// Adds `value`; true when it was already there.
    pub fn insert(&mut self, value: T) -> (r: Result<bool, T>)
        requires
            old(self).wf(),
            old(self)@.contains(value) || grows_within(old(self).spec_capacity(), old(self)@.len(), map_max_capacity::<T, ()>()),
        ensures
            final(self).wf(),
            final(self)@ == old(self)@.insert(value),
            r == Ok::<bool, T>(old(self)@.contains(value)),
            final(self)@.len() == (if old(self)@.contains(value) { old(self)@.len() } else { old(self)@.len() + 1 }),
            old(self)@.contains(value) ==> final(self).spec_capacity() == old(self).spec_capacity(),
            !old(self)@.contains(value) ==> exists|n: nat|
                final(self).spec_capacity() == grown_capacity(old(self).spec_capacity(), n)
                && old(self)@.len() < full_len(final(self).spec_capacity())
                && forall|m: nat| m < n ==> old(self)@.len() == full_len(#[trigger] grown_capacity(old(self).spec_capacity(), m)),
            !old(self)@.contains(value) ==> final(self).spec_capacity() == if old(self)@.len() == full_len(
                old(self).spec_capacity(),
            ) {
                (2 * old(self).spec_capacity() - 1) as nat
            } else {
                old(self).spec_capacity()
            },
    {
        proof {
            self.map.lemma_view_finite();
        }
        match self.map.insert(value, ()) {
            Ok(prev) => {
                proof {
                    if !old(self)@.contains(value) {
                        let c0 = old(self).map.spec_capacity();
                        let n = choose|n: nat|
                            self.map.spec_capacity() == grown_capacity(c0, n)
                            && old(self).map@.len() < full_len(self.map.spec_capacity())
                            && forall|m: nat| m < n ==> old(self).map@.len() == full_len(#[trigger] grown_capacity(c0, m));
                        assert(self.spec_capacity() == grown_capacity(old(self).spec_capacity(), n));
                    }
                }
                Ok(prev.is_some())
            },
            Err((k, _)) => Err(k),
        }
    }

    /// Removes `value`; true when it was there.
    pub fn remove(&mut self, value: &T) -> (r: bool)
        requires
            old(self).wf(),
        ensures
            final(self).wf(),
            final(self)@ == old(self)@.remove(*value),
            r == old(self)@.contains(*value),
            final(self).spec_capacity() == old(self).spec_capacity(),
            final(self)@.len() == (if old(self)@.contains(*value) { old(self)@.len() - 1 } else { old(self)@.len() as int }),
    {
        proof {
            self.map.lemma_view_finite();
        }
        self.map.remove(value).is_some()
    }

    pub fn contains(&self, value: &T) -> (r: bool)
        requires
            self.wf(),
        ensures
            r == self@.contains(*value),
    {
        self.map.contains_key(value)
    }

    pub fn len(&self) -> (r: usize)
        requires
            self.wf(),
        ensures
            r == self@.len(),
    {
        self.map.len()
    }

    pub fn capacity(&self) -> (r: usize)
        ensures
            r == self.spec_capacity(),
    {
        self.map.capacity()
    }

    pub fn is_empty(&self) -> (r: bool)
        requires
            self.wf(),
        ensures
            r == (self@.len() == 0),
    {
        self.map.is_empty()
    }

    /// True when the next insertion of a new value grows the table.
    pub fn is_full(&self) -> (r: bool)
        requires
            self.wf(),
        ensures
            r == (self@.len() == full_len(self.spec_capacity())),
    {
        self.map.is_full()
    }

    /// The slots of the underlying map.
    pub closed spec fn slots(&self) -> Seq<Option<(T, ())>> {
        self.map.slots()
    }

    /// The value in an occupied slot is in the set, and every value of the set stands in
    /// some slot.
    pub proof fn lemma_slots(&self)
        requires
            self.wf(),
        ensures
            forall|x: int| 0 <= x < self.slots().len() && #[trigger] self.slots()[x] is Some ==> self@.contains(
                self.slots()[x].unwrap().0,
            ),
            forall|k: T| #[trigger] self@.contains(k) ==> exists|x: int|
                0 <= x < self.slots().len() && self.slots()[x] is Some && self.slots()[x].unwrap().0 == k,
            forall|x: int, y: int| 0 <= x < self.slots().len() && 0 <= y < self.slots().len() && x != y
                && #[trigger] self.slots()[x] is Some && #[trigger] self.slots()[y] is Some
                ==> self.slots()[x].unwrap().0 != self.slots()[y].unwrap().0,
    {
        self.map.lemma_slots();
    }

    /// A cursor over the values, in slot order.
    pub fn iter(&self) -> (r: SHashSetIter<'_, T>)
        ensures
            r.wf(),
            r.slots() == self.slots(),
            r.pos() == 0,
    {
        SHashSetIter::new(self)
    }

    /// Removes every value.
    pub fn clear(&mut self)
        requires
            old(self).wf(),
        ensures
            final(self).wf(),
            final(self)@ == Set::<T>::empty(),
            final(self).spec_capacity() == old(self).spec_capacity(),
    {
        self.map.clear();
        assert(self.map@.dom() =~= Set::<T>::empty());
    }

    /// Releases the set.
    pub fn drop(self) {
    }
}

impl<T: StableKey> Default for SHashSet<T> {
    fn default() -> (r: Self)
        ensures
            r.wf(),
            r@ == Set::<T>::empty(),
    {
        Self::new()
    }
}

/// A cursor over the values of a hash set, in slot order.
pub struct SHashSetIter<'a, T> {
    iter: SHashMapIter<'a, T, ()>,
}

impl<'a, T: StableKey> SHashSetIter<'a, T> {
    pub closed spec fn slots(&self) -> Seq<Option<(T, ())>> {
        self.iter.slots()
    }

    pub closed spec fn pos(&self) -> nat {
        self.iter.pos()
    }

    pub closed spec fn wf(&self) -> bool {
        self.iter.wf()
    }

    /// A cursor at the first slot of `set`.
    pub fn new(set: &'a SHashSet<T>) -> (r: Self)
        ensures
            r.wf(),
            r.slots() == set.slots(),
            r.pos() == 0,
    {
        SHashSetIter { iter: SHashMapIter::new(&set.map) }
    }

    /// The value in the next occupied slot, if any.
    pub fn next(&mut self) -> (r: Option<&'a T>)
        requires
            old(self).wf(),
        ensures
            final(self).wf(),
            final(self).slots() == old(self).slots(),
            r is None ==> final(self).pos() == old(self).slots().len() && forall|j: int|
                old(self).pos() <= j < old(self).slots().len() ==> #[trigger] old(self).slots()[j] is None,
            r matches Some(e) ==> (old(self).pos() < final(self).pos() <= old(self).slots().len()
                && old(self).slots()[final(self).pos() - 1] is Some
                && old(self).slots()[final(self).pos() - 1].unwrap().0 == *e
                && forall|j: int| old(self).pos() <= j < final(self).pos() - 1 ==> #[trigger] old(self).slots()[j] is None),
    {
        match self.iter.next() {
            Some(e) => Some(e.0),
            None => None,
        }
    }
}

} // verus!
