//! `SVec`: a growable vector of fixed-size elements.
use vstd::prelude::*;
use crate::key::{AsFixedSizeBytes, StableKey};
use std::cmp::Ordering;
use crate::OutOfMemory;

verus! {

/// The capacity a vector takes when it grows from `cap`.
pub open spec fn next_capacity(cap: nat) -> nat {
    cap * 2
}

/// A vector of `len` elements and capacity `cap` can take one more: it has room, or it
/// can double within `max` (a full vector of capacity 0 cannot grow).
pub open spec fn has_room_for_one(len: nat, cap: nat, max: nat) -> bool {
    len < cap || (0 < cap && next_capacity(cap) <= max)
}

/// The largest number of elements of `T` that fit in one allocation of `u32::MAX` bytes.
pub open spec fn spec_max_capacity<T: AsFixedSizeBytes>() -> nat {
    (u32::MAX as nat) / T::spec_size()
}

/// A sequence is sorted by key, each key strictly less than the next.
pub open spec fn sorted_by_key<T: StableKey>(s: Seq<T>) -> bool {
    forall|i: int, j: int| 0 <= i < j < s.len() ==> s[i].key_int() < s[j].key_int()
}

/// The capacity of a vector made by `new`.
pub const DEFAULT_CAPACITY: usize = 4;

/// A growable vector: elements are kept in order, the capacity doubles when full
/// (a vector of no capacity takes 4 on its first push).
pub struct SVec<T> {
    data: Vec<T>,
    cap: usize,
}

impl<T> View for SVec<T> {
    type V = Seq<T>;

    closed spec fn view(&self) -> Seq<T> {
        self.data@
    }
}

impl<T> SVec<T> {
    /// The length never passes the capacity.
    pub closed spec fn wf(&self) -> bool {
        self.data@.len() <= self.cap
    }

    /// The capacity, as a number.
    pub closed spec fn spec_capacity(&self) -> nat {
        self.cap as nat
    }

    /// Creates an empty vector of capacity `DEFAULT_CAPACITY`.
    pub fn new() -> (r: Self)
        ensures
            r@ == Seq::<T>::empty(),
            r.spec_capacity() == DEFAULT_CAPACITY,
            r.wf(),
    {
        SVec { data: Vec::new(), cap: DEFAULT_CAPACITY }
    }

    pub fn capacity(&self) -> (r: usize)
        ensures
            r == self.spec_capacity(),
    {
        self.cap
    }

    pub fn len(&self) -> (r: usize)
        ensures
            r == self@.len(),
            self.wf() ==> r <= self.spec_capacity(),
    {
        self.data.len()
    }

    pub fn is_empty(&self) -> (r: bool)
        ensures
            r == (self@.len() == 0),
    {
        self.data.len() == 0
    }

    /// True when the next push makes the vector grow.
    pub fn is_about_to_grow(&self) -> (r: bool)
        ensures
            r == (self@.len() == self.spec_capacity()),
    {
        self.data.len() == self.cap
    }

    /// Returns the element at `idx`, if there is one.
    pub fn get(&self, idx: usize) -> (r: Option<&T>)
        ensures
            idx < self@.len() ==> r == Some(&self@[idx as int]),
            idx >= self@.len() ==> r is None,
    {
        if idx < self.data.len() {
            Some(&self.data[idx])
        } else {
            None
        }
    }

    /// A cursor over the elements, from the first.
    pub fn iter(&self) -> (r: SVecIter<'_, T>)
        ensures
            r.items() == self@,
            r.pos() == 0,
    {
        SVecIter::new(self)
    }

    /// The element at `idx`, to change in place, if there is one.
    pub fn get_mut(&mut self, idx: usize) -> (r: Option<&mut T>)
        requires
            old(self).wf(),
        ensures
            idx >= old(self)@.len() ==> r is None && final(self)@ == old(self)@,
            idx < old(self)@.len() ==> r is Some,
            r matches Some(e) ==> (*e == old(self)@[idx as int] && final(self)@ == old(self)@.update(idx as int, *final(e))),
            final(self).wf(),
            final(self).spec_capacity() == old(self).spec_capacity(),
    {
        if idx < self.data.len() {
            Some(&mut self.data[idx])
        } else {
            None
        }
    }

    /// Removes and returns the last element.
    pub fn pop(&mut self) -> (r: Option<T>)
        requires
            old(self).wf(),
        ensures
            final(self).wf(),
            old(self)@.len() == 0 ==> r is None && final(self)@ == old(self)@,
            old(self)@.len() > 0 ==> r == Some(old(self)@.last()) && final(self)@
                == old(self)@.drop_last(),
            final(self).spec_capacity() == old(self).spec_capacity(),
    {
        self.data.pop()
    }

    /// Puts `element` at `idx` and returns the element that stood there.
    pub fn replace(&mut self, idx: usize, element: T) -> (r: T)
        requires
            old(self).wf(),
            idx < old(self)@.len(),
        ensures
            final(self).wf(),
            r == old(self)@[idx as int],
            final(self)@ == old(self)@.update(idx as int, element),
            final(self).spec_capacity() == old(self).spec_capacity(),
    {
        let mut e = element;
        self.data.set_and_swap(idx, &mut e);
        e
    }

    /// Removes and returns the element at `idx`, shifting the later ones left.
    pub fn remove(&mut self, idx: usize) -> (r: T)
        requires
            old(self).wf(),
            idx < old(self)@.len(),
        ensures
            final(self).wf(),
            r == old(self)@[idx as int],
            final(self)@ == old(self)@.remove(idx as int),
            final(self).spec_capacity() == old(self).spec_capacity(),
    {
        self.data.remove(idx)
    }

    /// Exchanges the elements at two distinct positions.
    pub fn swap(&mut self, idx1: usize, idx2: usize)
        requires
            old(self).wf(),
            idx1 < old(self)@.len(),
            idx2 < old(self)@.len(),
            idx1 != idx2,
        ensures
            final(self).wf(),
            final(self)@ == old(self)@.update(idx1 as int, old(self)@[idx2 as int]).update(
                idx2 as int,
                old(self)@[idx1 as int],
            ),
            final(self).spec_capacity() == old(self).spec_capacity(),
    {
        let (lo, hi) = if idx1 < idx2 {
            (idx1, idx2)
        } else {
            (idx2, idx1)
        };
        let b = self.data.remove(hi);
        let a = self.data.remove(lo);
        self.data.insert(lo, b);
        self.data.insert(hi, a);
        assert(self.data@ =~= old(self)@.update(idx1 as int, old(self)@[idx2 as int]).update(
            idx2 as int,
            old(self)@[idx1 as int],
        ));
    }

    /// Removes every element; the capacity stays.
    pub fn clear(&mut self)
        requires
            old(self).wf(),
        ensures
            final(self).wf(),
            final(self)@ == Seq::<T>::empty(),
            final(self).spec_capacity() == old(self).spec_capacity(),
    {
        while self.data.len() > 0
            invariant
                self.data@.len() <= self.cap,
                self.cap == old(self).cap,
            decreases self.data@.len(),
        {
            self.data.pop();
        }
        assert(self.data@ =~= Seq::<T>::empty());
    }

    /// Releases the vector and everything in it.
    pub fn drop(self) {
    }
}

impl<T: AsFixedSizeBytes> SVec<T> {
    /// The largest capacity a vector of `T` may have.
    pub fn max_capacity() -> (r: usize)
        requires
            T::spec_size() > 0,
        ensures
            r == spec_max_capacity::<T>(),
    {
        let size = T::fixed_size();
        (u32::MAX as usize) / size
    }

    /// Creates an empty vector that can hold `capacity` elements before it grows.
    pub fn new_with_capacity(capacity: usize) -> (r: Result<Self, OutOfMemory>)
        requires
            T::spec_size() > 0,
            capacity <= spec_max_capacity::<T>(),
        ensures
            r matches Ok(v) && v@ == Seq::<T>::empty() && v.spec_capacity() == capacity && v.wf(),
    {
        let _ = Self::max_capacity();
        Ok(SVec { data: Vec::new(), cap: capacity })
    }

    fn maybe_reallocate(&mut self)
        requires
            old(self).wf(),
            T::spec_size() > 0,
            has_room_for_one(old(self)@.len(), old(self).spec_capacity(), spec_max_capacity::<T>()),
        ensures
            final(self).wf(),
            final(self)@ == old(self)@,
            final(self)@.len() < final(self).spec_capacity(),
            old(self)@.len() < old(self).spec_capacity() ==> final(self).spec_capacity()
                == old(self).spec_capacity(),
            old(self)@.len() == old(self).spec_capacity() ==> final(self).spec_capacity()
                == next_capacity(old(self).spec_capacity()),
    {
        if self.data.len() == self.cap {
            let max = Self::max_capacity();
            self.cap = self.cap * 2;
            assert(self.cap <= max);
        }
    }

    /// Appends `element` at the end, growing the capacity when the vector is full.
    pub fn push(&mut self, element: T) -> (r: Result<(), T>)
        requires
            old(self).wf(),
            T::spec_size() > 0,
            has_room_for_one(old(self)@.len(), old(self).spec_capacity(), spec_max_capacity::<T>()),
        ensures
            final(self).wf(),
            r is Ok,
            final(self)@ == old(self)@.push(element),
            old(self)@.len() < old(self).spec_capacity() ==> final(self).spec_capacity()
                == old(self).spec_capacity(),
            old(self)@.len() == old(self).spec_capacity() ==> final(self).spec_capacity()
                == next_capacity(old(self).spec_capacity()),
    {
        self.maybe_reallocate();
        self.data.push(element);
        Ok(())
    }

    /// Puts `element` at `idx`, shifting the later elements right.
    pub fn insert(&mut self, idx: usize, element: T) -> (r: Result<(), T>)
        requires
            old(self).wf(),
            T::spec_size() > 0,
            idx <= old(self)@.len(),
            has_room_for_one(old(self)@.len(), old(self).spec_capacity(), spec_max_capacity::<T>()),
        ensures
            final(self).wf(),
            r is Ok,
            final(self)@ == old(self)@.insert(idx as int, element),
            old(self)@.len() < old(self).spec_capacity() ==> final(self).spec_capacity()
                == old(self).spec_capacity(),
            old(self)@.len() == old(self).spec_capacity() ==> final(self).spec_capacity()
                == next_capacity(old(self).spec_capacity()),
    {
        if idx == self.data.len() {
            let r = self.push(element);
            assert(old(self)@.push(element) =~= old(self)@.insert(idx as int, element));
            return r;
        }
        self.maybe_reallocate();
        self.data.insert(idx, element);
        Ok(())
    }
}

impl<T: Copy> SVec<T> {
    /// A copy of the element at `idx`, if there is one.
    pub fn get_copy(&self, idx: usize) -> (r: Option<T>)
        ensures
            idx < self@.len() ==> r == Some(self@[idx as int]),
            idx >= self@.len() ==> r is None,
    {
        if idx < self.data.len() {
            Some(self.data[idx])
        } else {
            None
        }
    }
}

/// Element `i` of `s`.
pub open spec fn seq_at<T>(s: Seq<T>, i: usize) -> T {
    s[i as int]
}

/// Every answer `f` may give about `x` is `o`.
pub open spec fn answers<T, F: Fn(&T) -> Ordering>(f: F, x: T, o: Ordering) -> bool {
    forall|o2: Ordering| #[trigger] call_ensures(f, (&x,), o2) ==> o2 == o
}

/// `f` answers `Less` on the elements of `s` before `p`, `Equal` on those from `p` up to
/// `q`, and `Greater` on the rest.
pub open spec fn parted_at<T, F: Fn(&T) -> Ordering>(s: Seq<T>, f: F, p: int, q: int) -> bool {
    &&& 0 <= p <= q <= s.len()
    &&& forall|j: int| 0 <= j < p ==> #[trigger] answers(f, s[j], Ordering::Less)
    &&& forall|j: int| p <= j < q ==> #[trigger] answers(f, s[j], Ordering::Equal)
    &&& forall|j: int| q <= j < s.len() ==> #[trigger] answers(f, s[j], Ordering::Greater)
}

/// `f` parts `s` into a run answered `Less`, then one answered `Equal`, then one
/// answered `Greater`.
pub open spec fn parted_by<T, F: Fn(&T) -> Ordering>(s: Seq<T>, f: F) -> bool {
    exists|p: int, q: int| #[trigger] parted_at(s, f, p, q)
}

impl<T> SVec<T> {
    /// Binary search with the comparator `f`, which tells whether an element comes
    /// before (`Less`), at (`Equal`) or after (`Greater`) the place searched for.
    /// `Ok` holds a position where `f` answered `Equal`; `Err` a position at most the
    /// length. Where `f` parts the vector into a `Less`, an `Equal` and a `Greater`
    /// run, `Err` is the position between the `Less` and the `Greater` run.
    pub fn binary_search_by<F: Fn(&T) -> Ordering>(&self, f: F) -> (r: Result<usize, usize>)
        requires
            forall|j: int| 0 <= j < self@.len() ==> #[trigger] call_requires(f, (&self@[j],)),
        ensures
            self@.len() == 0 ==> r == Err::<usize, usize>(0),
            r matches Ok(i) ==> i < self@.len() && call_ensures(f, (&seq_at(self@, i),), Ordering::Equal),
            r matches Err(i) ==> i <= self@.len(),
            parted_by(self@, f) ==> (r matches Err(i) ==> (forall|j: int|
                0 <= j < i ==> #[trigger] answers(f, self@[j], Ordering::Less)) && (forall|j: int|
                i <= j < self@.len() ==> #[trigger] answers(f, self@[j], Ordering::Greater))),
    {
        let len = self.data.len();
        if len == 0 {
            return Err(0);
        }
        let mut min: usize = 0;
        let mut max: usize = len;
        let mut mid: usize = (max - min) / 2;
        loop
            invariant
                len == self.data@.len(),
                min <= mid < max <= len,
                mid == (max - min) / 2 + min,
                forall|j: int| 0 <= j < self@.len() ==> #[trigger] call_requires(f, (&self@[j],)),
                self@ == self.data@,
                parted_by(self.data@, f) ==> forall|j: int| 0 <= j < min ==> #[trigger] answers(f, self.data@[j], Ordering::Less),
                parted_by(self.data@, f) ==> forall|j: int|
                    max <= j < len ==> #[trigger] answers(f, self.data@[j], Ordering::Greater),
            decreases max - min,
        {
            let elem = &self.data[mid];
            let res = f(elem);
            match res {
                Ordering::Equal => {
                    return Ok(mid);
                },
                Ordering::Greater => {
                    proof {
                        if parted_by(self.data@, f) {
                            let (p, q) = choose|p: int, q: int| parted_at(self.data@, f, p, q);
                            if mid < p {
                                assert(answers(f, seq_at(self.data@, mid), Ordering::Less));
                            } else if mid < q {
                                assert(answers(f, seq_at(self.data@, mid), Ordering::Equal));
                            }
                            assert forall|j: int| mid <= j < len implies #[trigger] answers(f, self.data@[j], Ordering::Greater) by {
                                assert(q <= j);
                            }
                        }
                    }
                    max = mid;
                    let new_mid = (max - min) / 2 + min;
                    if new_mid == mid {
                        return Err(mid);
                    }
                    mid = new_mid;
                },
                Ordering::Less => {
                    proof {
                        if parted_by(self.data@, f) {
                            let (p, q) = choose|p: int, q: int| parted_at(self.data@, f, p, q);
                            if mid >= q {
                                assert(answers(f, seq_at(self.data@, mid), Ordering::Greater));
                            } else if mid >= p {
                                assert(answers(f, seq_at(self.data@, mid), Ordering::Equal));
                            }
                            assert forall|j: int| 0 <= j <= mid implies #[trigger] answers(f, self.data@[j], Ordering::Less) by {
                                assert(j < p);
                            }
                        }
                    }
                    min = mid;
                    let new_mid = (max - min) / 2 + min;
                    if new_mid == mid {
                        return Err(mid + 1);
                    }
                    mid = new_mid;
                },
            }
        }
    }
}

impl<T> Default for SVec<T> {
    fn default() -> (r: Self)
        ensures
            r.wf(),
            r@ == Seq::<T>::empty(),
            r.spec_capacity() == DEFAULT_CAPACITY,
    {
        Self::new()
    }
}

/// A cursor over the elements of a vector, from the first to the last.
pub struct SVecIter<'a, T> {
    vec: &'a SVec<T>,
    idx: usize,
}

impl<'a, T> SVecIter<'a, T> {
    /// The elements walked over.
    pub closed spec fn items(&self) -> Seq<T> {
        self.vec@
    }

    /// How many elements were handed out.
    pub closed spec fn pos(&self) -> nat {
        self.idx as nat
    }

    /// A cursor at the first element of `vec`.
    pub fn new(vec: &'a SVec<T>) -> (r: Self)
        ensures
            r.items() == vec@,
            r.pos() == 0,
    {
        SVecIter { vec, idx: 0 }
    }

    /// The next element, if any.
    pub fn next(&mut self) -> (r: Option<&'a T>)
        ensures
            final(self).items() == old(self).items(),
            old(self).pos() < old(self).items().len() ==> r == Some(&old(self).items()[old(self).pos() as int])
                && final(self).pos() == old(self).pos() + 1,
            old(self).pos() >= old(self).items().len() ==> r is None && final(self).pos() == old(self).pos(),
    {
        if self.idx < self.vec.data.len() {
            let e = &self.vec.data[self.idx];
            self.idx = self.idx + 1;
            Some(e)
        } else {
            None
        }
    }
}

} // verus!
