//! `SBinaryHeap`: a binary heap kept in an `SVec`, either a min-heap or a max-heap.
use vstd::prelude::*;
use crate::key::{AsFixedSizeBytes, KeyOrder, StableKey};
use crate::vec::{has_room_for_one, next_capacity, spec_max_capacity, SVec, SVecIter, DEFAULT_CAPACITY};

verus! {

/// Which element a heap keeps on top.
#[derive(PartialEq, Eq, Structural, Clone, Copy, Debug)]
pub enum SHeapType {
    Min,
    Max,
}

/// `a` should rise above `b` in a heap of kind `ty`.
pub open spec fn outranks<T: StableKey>(ty: SHeapType, a: T, b: T) -> bool {
    match ty {
        SHeapType::Min => a.key_int() < b.key_int(),
        SHeapType::Max => a.key_int() > b.key_int(),
    }
}

/// Exchanging two elements keeps the multiset of a sequence.
pub proof fn lemma_swap_multiset<T>(s: Seq<T>, i: int, j: int)
    requires
        0 <= i < s.len(),
        0 <= j < s.len(),
    ensures
        s.update(i, s[j]).update(j, s[i]).to_multiset() == s.to_multiset(),
{
    broadcast use vstd::seq_lib::group_to_multiset_ensures;
    broadcast use vstd::multiset::group_multiset_axioms;

    let s1 = s.update(i, s[j]);
    assert(s1[j] == if i == j { s[j] } else { s[j] });
    assert(s1.to_multiset() == s.to_multiset().insert(s[j]).remove(s[i]));
    assert(s1.update(j, s[i]).to_multiset() == s1.to_multiset().insert(s[i]).remove(s1[j]));
    assert(s1.update(j, s[i]).to_multiset() =~= s.to_multiset());
}

/// `s` with the elements in slots `i` and `j` exchanged.
pub open spec fn swapped<T>(s: Seq<T>, i: int, j: int) -> Seq<T> {
    s.update(i, s[j]).update(j, s[i])
}

/// Where the element in slot `idx` ends up rising to: while it outranks the element
/// in its parent slot `(idx - 1) / 2`, the two change places.
pub open spec fn sift_up<T: StableKey>(s: Seq<T>, idx: nat, ty: SHeapType) -> Seq<T>
    decreases idx,
{
    if idx == 0 || idx >= s.len() {
        s
    } else {
        let p = (idx - 1) / 2;
        if outranks(ty, s[idx as int], s[p as int]) {
            sift_up(swapped(s, idx as int, p as int), p as nat, ty)
        } else {
            s
        }
    }
}

/// Where the element in slot `idx` sinks to among slots `0..=last`: it changes places
/// with the child that outranks it, the left one where neither child outranks the
/// other, until no child outranks it.
pub open spec fn sift_down<T: StableKey>(s: Seq<T>, idx: nat, last: nat, ty: SHeapType) -> Seq<T>
    decreases last - idx,
{
    if idx > last / 2 || last >= s.len() {
        s
    } else {
        let l = 2 * idx + 1;
        let r = l + 1;
        if l > last {
            s
        } else if r > last {
            if outranks(ty, s[l as int], s[idx as int]) {
                swapped(s, idx as int, l as int)
            } else {
                s
            }
        } else if !outranks(ty, s[r as int], s[l as int]) && outranks(ty, s[l as int], s[idx as int]) {
            sift_down(swapped(s, idx as int, l as int), l, last, ty)
        } else if !outranks(ty, s[l as int], s[r as int]) && outranks(ty, s[r as int], s[idx as int]) {
            sift_down(swapped(s, idx as int, r as int), r, last, ty)
        } else {
            s
        }
    }
}

/// No element of `s` but the first outranks the one in its parent slot `(i - 1) / 2`.
pub open spec fn heap_ordered<T: StableKey>(s: Seq<T>, ty: SHeapType) -> bool {
    forall|i: int| 0 < i < s.len() ==> !outranks(ty, #[trigger] s[i], s[(i - 1) / 2])
}

/// Heap order holds at every slot but `h`, and the parent of `h` is not outranked by
/// the children of `h`: the state while an element rises from `h`.
spec fn heap_order_but_up<T: StableKey>(s: Seq<T>, ty: SHeapType, h: int) -> bool {
    &&& forall|i: int| 0 < i < s.len() && i != h ==> !outranks(ty, #[trigger] s[i], s[(i - 1) / 2])
    &&& h > 0 ==> forall|c: int|
        0 < c < s.len() && (c - 1) / 2 == h ==> !outranks(ty, #[trigger] s[c], s[(h - 1) / 2])
}

/// Heap order holds at every slot whose parent is not `h`, and the parent of `h` is not
/// outranked by the children of `h`: the state while an element sinks from `h`.
spec fn heap_order_but_down<T: StableKey>(s: Seq<T>, ty: SHeapType, h: int) -> bool {
    &&& forall|i: int|
        0 < i < s.len() && (i - 1) / 2 != h ==> !outranks(ty, #[trigger] s[i], s[(i - 1) / 2])
    &&& h > 0 ==> forall|c: int|
        0 < c < s.len() && (c - 1) / 2 == h ==> !outranks(ty, #[trigger] s[c], s[(h - 1) / 2])
}

/// Letting the element in slot `idx` rise restores heap order.
proof fn lemma_sift_up_ordered<T: StableKey>(s: Seq<T>, idx: nat, ty: SHeapType)
    requires
        idx < s.len(),
        heap_order_but_up(s, ty, idx as int),
    ensures
        heap_ordered(sift_up(s, idx, ty), ty),
    decreases idx,
{
    if idx == 0 {
        return;
    }
    let i0 = idx as int;
    let p = (i0 - 1) / 2;
    if outranks(ty, s[i0], s[p]) {
        let s2 = swapped(s, i0, p);
        assert forall|i: int| 0 < i < s2.len() && i != p implies !outranks(
            ty,
            #[trigger] s2[i],
            s2[(i - 1) / 2],
        ) by {
            if i == i0 {
            } else if (i - 1) / 2 == i0 {
                assert(!outranks(ty, s[i], s[p]));
            } else if (i - 1) / 2 == p {
                assert(!outranks(ty, s[i], s[p]));
            } else {
                assert(!outranks(ty, s[i], s[(i - 1) / 2]));
            }
        }
        if p > 0 {
            let pp = (p - 1) / 2;
            assert(!outranks(ty, s[p], s[pp]));
            assert forall|c: int| 0 < c < s2.len() && (c - 1) / 2 == p implies !outranks(
                ty,
                #[trigger] s2[c],
                s2[(p - 1) / 2],
            ) by {
                if c != i0 {
                    assert(!outranks(ty, s[c], s[p]));
                }
            }
        }
        lemma_sift_up_ordered(s2, p as nat, ty);
    } else {
        assert forall|i: int| 0 < i < s.len() implies !outranks(ty, #[trigger] s[i], s[(i - 1) / 2]) by {
            if i != i0 {
            }
        }
    }
}

/// Letting the element in slot `idx` sink among slots `0..=last` restores heap order.
proof fn lemma_sift_down_ordered<T: StableKey>(s: Seq<T>, idx: nat, last: nat, ty: SHeapType)
    requires
        last + 1 == s.len(),
        idx <= last,
        heap_order_but_down(s, ty, idx as int),
    ensures
        heap_ordered(sift_down(s, idx, last, ty), ty),
    decreases last - idx,
{
    let i0 = idx as int;
    let l = 2 * i0 + 1;
    let r = l + 1;
    if idx > last / 2 || l > last {
        assert forall|i: int| 0 < i < s.len() implies !outranks(ty, #[trigger] s[i], s[(i - 1) / 2]) by {
            assert((i - 1) / 2 != i0);
        }
    } else if r > last {
        if outranks(ty, s[l], s[i0]) {
            let s2 = swapped(s, i0, l);
            assert forall|i: int| 0 < i < s2.len() implies !outranks(
                ty,
                #[trigger] s2[i],
                s2[(i - 1) / 2],
            ) by {
                if i == l {
                } else if i == i0 {
                    assert(!outranks(ty, s[l], s[(i0 - 1) / 2]));
                } else {
                    assert((i - 1) / 2 != i0 && (i - 1) / 2 != l);
                    assert(!outranks(ty, s[i], s[(i - 1) / 2]));
                }
            }
        } else {
            assert forall|i: int| 0 < i < s.len() implies !outranks(ty, #[trigger] s[i], s[(i - 1) / 2]) by {
                if (i - 1) / 2 == i0 {
                    assert(i == l);
                }
            }
        }
    } else if !outranks(ty, s[r], s[l]) && outranks(ty, s[l], s[i0]) {
        lemma_sift_down_step(s, i0, l, r, ty);
        lemma_sift_down_ordered(swapped(s, i0, l), l as nat, last, ty);
    } else if !outranks(ty, s[l], s[r]) && outranks(ty, s[r], s[i0]) {
        lemma_sift_down_step(s, i0, r, l, ty);
        lemma_sift_down_ordered(swapped(s, i0, r), r as nat, last, ty);
    } else {
        assert(!outranks(ty, s[l], s[i0]) && !outranks(ty, s[r], s[i0]));
        assert forall|i: int| 0 < i < s.len() implies !outranks(ty, #[trigger] s[i], s[(i - 1) / 2]) by {
            if (i - 1) / 2 == i0 {
                assert(i == l || i == r);
            }
        }
    }
}

/// Moving the child `m` of `h` that is not outranked by its sibling `o`, and that
/// outranks the element in `h`, into slot `h` moves the disorder down to `m`.
proof fn lemma_sift_down_step<T: StableKey>(s: Seq<T>, h: int, m: int, o: int, ty: SHeapType)
    requires
        0 <= h,
        m < s.len(),
        o < s.len(),
        (m - 1) / 2 == h,
        (o - 1) / 2 == h,
        m != o,
        0 < m,
        0 < o,
        !outranks(ty, s[o], s[m]),
        outranks(ty, s[m], s[h]),
        heap_order_but_down(s, ty, h),
    ensures
        heap_order_but_down(swapped(s, h, m), ty, m),
{
    let s2 = swapped(s, h, m);
    assert forall|i: int| 0 < i < s2.len() && (i - 1) / 2 != m implies !outranks(
        ty,
        #[trigger] s2[i],
        s2[(i - 1) / 2],
    ) by {
        if i == m {
        } else if i == o {
        } else if i == h {
            assert(!outranks(ty, s[m], s[(h - 1) / 2]));
        } else {
            assert((i - 1) / 2 != h);
            assert(!outranks(ty, s[i], s[(i - 1) / 2]));
        }
    }
    assert forall|c: int| 0 < c < s2.len() && (c - 1) / 2 == m implies !outranks(
        ty,
        #[trigger] s2[c],
        s2[(m - 1) / 2],
    ) by {
        assert(!outranks(ty, s[c], s[m]));
    }
}

/// In a heap-ordered array no element outranks the one in slot 0.
pub proof fn lemma_heap_top<T: StableKey>(s: Seq<T>, ty: SHeapType, i: int)
    requires
        heap_ordered(s, ty),
        0 <= i < s.len(),
    ensures
        !outranks(ty, s[i], s[0]),
    decreases i,
{
    if i > 0 {
        let p = (i - 1) / 2;
        assert(!outranks(ty, s[i], s[p]));
        lemma_heap_top(s, ty, p);
    }
}

/// A binary heap in an array: the children of slot `i` are `2i + 1` and `2i + 2`, and
/// no element outranks the one in its parent slot.
pub struct SBinaryHeap<T> {
    ty: SHeapType,
    arr: SVec<T>,
}

impl<T: StableKey> View for SBinaryHeap<T> {
    type V = Seq<T>;

    closed spec fn view(&self) -> Seq<T> {
        self.arr@
    }
}

impl<T: StableKey> SBinaryHeap<T> {
    pub closed spec fn wf(&self) -> bool {
        self.arr.wf() && heap_ordered(self.arr@, self.ty)
    }

    /// A well-formed heap is heap-ordered.
    pub proof fn lemma_wf(&self)
        requires
            self.wf(),
        ensures
            heap_ordered(self@, self.heap_type()),
    {
    }

    /// The kind of the heap.
    pub closed spec fn heap_type(&self) -> SHeapType {
        self.ty
    }

    /// The capacity of the underlying vector.
    pub closed spec fn spec_capacity(&self) -> nat {
        self.arr.spec_capacity()
    }

    /// Creates an empty heap of kind `ty`.
    pub fn new(ty: SHeapType) -> (r: Self)
        ensures
            r.wf(),
            r@ == Seq::<T>::empty(),
            r.heap_type() == ty,
            r.spec_capacity() == DEFAULT_CAPACITY,
    {
        SBinaryHeap { ty, arr: SVec::new() }
    }

    /// Creates an empty heap of kind `ty` that holds `capacity` elements before it grows.
    pub fn new_with_capacity(ty: SHeapType, capacity: usize) -> (r: Self)
        requires
            T::spec_size() > 0,
            capacity <= spec_max_capacity::<T>(),
        ensures
            r.wf(),
            r@ == Seq::<T>::empty(),
            r.heap_type() == ty,
            r.spec_capacity() == capacity,
    {
        let arr = match SVec::new_with_capacity(capacity) {
            Ok(v) => v,
            Err(_) => SVec::new(),
        };
        SBinaryHeap { ty, arr }
    }

    pub fn len(&self) -> (r: usize)
        ensures
            r == self@.len(),
    {
        self.arr.len()
    }

    pub fn is_empty(&self) -> (r: bool)
        ensures
            r == (self@.len() == 0),
    {
        self.arr.is_empty()
    }

    /// The element on top of the heap.
    pub fn peek(&self) -> (r: Option<T>)
        ensures
            self@.len() > 0 ==> r == Some(self@[0]),
            self@.len() == 0 ==> r is None,
    {
        self.arr.get_copy(0)
    }

    /// The element in slot `idx`.
    pub fn get(&self, idx: usize) -> (r: Option<T>)
        ensures
            idx < self@.len() ==> r == Some(self@[idx as int]),
            idx >= self@.len() ==> r is None,
    {
        self.arr.get_copy(idx)
    }

    fn should_rise(&self, a: &T, b: &T) -> (r: bool)
        ensures
            r == outranks(self.ty, *a, *b),
    {
        match self.ty {
            SHeapType::Min => a.compare_key(b) == KeyOrder::Less,
            SHeapType::Max => a.compare_key(b) == KeyOrder::Greater,
        }
    }

    /// Adds `elem`, then lets it rise.
    pub fn insert(&mut self, elem: T) -> (r: Result<(), T>)
        requires
            old(self).wf(),
            T::spec_size() > 0,
            has_room_for_one(old(self)@.len(), old(self).spec_capacity(), spec_max_capacity::<T>()),
        ensures
            r is Ok,
            final(self).wf(),
            final(self)@.len() == old(self)@.len() + 1,
            final(self)@.to_multiset() == old(self)@.to_multiset().insert(elem),
            final(self)@ == sift_up(old(self)@.push(elem), old(self)@.len(), old(self).heap_type()),
            final(self).heap_type() == old(self).heap_type(),
            old(self)@.len() < old(self).spec_capacity() ==> final(self).spec_capacity()
                == old(self).spec_capacity(),
            old(self)@.len() == old(self).spec_capacity() ==> final(self).spec_capacity()
                == next_capacity(old(self).spec_capacity()),
            forall|i: int|
                0 <= i < final(self)@.len() ==> !outranks(
                    final(self).heap_type(),
                    #[trigger] final(self)@[i],
                    final(self)@[0],
                ),
    {
        broadcast use vstd::seq_lib::group_to_multiset_ensures;

        let _ = self.arr.push(elem);
        let len = self.arr.len();
        proof {
            let s = old(self)@.push(elem);
            let n = old(self)@.len() as int;
            assert forall|i: int| 0 < i < s.len() && i != n implies !outranks(
                self.ty,
                #[trigger] s[i],
                s[(i - 1) / 2],
            ) by {
                assert(s[i] == old(self)@[i] && s[(i - 1) / 2] == old(self)@[(i - 1) / 2]);
            }
            lemma_sift_up_ordered(s, n as nat, self.ty);
            let t = sift_up(s, n as nat, self.ty);
            assert forall|i: int| 0 <= i < t.len() implies !outranks(self.ty, #[trigger] t[i], t[0]) by {
                lemma_heap_top(t, self.ty, i);
            }
        }
        if len == 1 {
            return Ok(());
        }
        let mut idx = len - 1;
        let ghost m = self.arr@.to_multiset();
        let ghost c = self.arr.spec_capacity();
        let ghost target = sift_up(old(self)@.push(elem), old(self)@.len(), old(self).ty);
        loop
            invariant_except_break
                0 < idx < len,
            invariant
                self.arr.wf(),
                self.arr.spec_capacity() == c,
                self.arr@.len() == len,
                self.arr@.to_multiset() == m,
                self.ty == old(self).ty,
                idx < len,
                self.arr@[idx as int] == elem,
                sift_up(self.arr@, idx as nat, self.ty) == target,
            ensures
                self.arr.wf(),
                self.arr.spec_capacity() == c,
                self.arr@.len() == len,
                self.arr@.to_multiset() == m,
                self.ty == old(self).ty,
                self.arr@ == target,
            decreases idx,
        {
            let parent_idx = (idx - 1) / 2;
            let parent = self.arr.get_copy(parent_idx).unwrap();
            if self.should_rise(&elem, &parent) {
                proof {
                    lemma_swap_multiset(self.arr@, idx as int, parent_idx as int);
                }
                self.arr.swap(idx, parent_idx);
                idx = parent_idx;
                if idx > 0 {
                    continue;
                }
            }
            proof {
                assert(sift_up(self.arr@, idx as nat, self.ty) == self.arr@);
            }
            break;
        }
        Ok(())
    }

    /// Same as `insert`, for a max-heap user.
    pub fn push(&mut self, elem: T) -> (r: Result<(), T>)
        requires
            old(self).wf(),
            T::spec_size() > 0,
            has_room_for_one(old(self)@.len(), old(self).spec_capacity(), spec_max_capacity::<T>()),
        ensures
            r is Ok,
            final(self).wf(),
            final(self)@.len() == old(self)@.len() + 1,
            final(self)@.to_multiset() == old(self)@.to_multiset().insert(elem),
            final(self)@ == sift_up(old(self)@.push(elem), old(self)@.len(), old(self).heap_type()),
            final(self).heap_type() == old(self).heap_type(),
            old(self)@.len() < old(self).spec_capacity() ==> final(self).spec_capacity()
                == old(self).spec_capacity(),
            old(self)@.len() == old(self).spec_capacity() ==> final(self).spec_capacity()
                == next_capacity(old(self).spec_capacity()),
            forall|i: int|
                0 <= i < final(self)@.len() ==> !outranks(
                    final(self).heap_type(),
                    #[trigger] final(self)@[i],
                    final(self)@[0],
                ),
    {
        self.insert(elem)
    }

    /// Removes and returns the element on top, then lets the element moved there sink.
    pub fn pop(&mut self) -> (r: Option<T>)
        requires
            old(self).wf(),
        ensures
            final(self).wf(),
            old(self)@.len() == 0 ==> r is None && final(self)@ == old(self)@,
            old(self)@.len() > 0 ==> r == Some(old(self)@[0]) && final(self)@.len() == old(
                self,
            )@.len() - 1 && final(self)@.to_multiset() == old(self)@.to_multiset().remove(
                old(self)@[0],
            ),
            old(self)@.len() > 1 ==> final(self)@ == sift_down(
                swapped(old(self)@, 0, old(self)@.len() - 1).drop_last(),
                0,
                (old(self)@.len() - 2) as nat,
                old(self).heap_type(),
            ),
            final(self).heap_type() == old(self).heap_type(),
            final(self).spec_capacity() == old(self).spec_capacity(),
            old(self)@.len() > 0 ==> forall|i: int|
                0 <= i < old(self)@.len() ==> !outranks(
                    old(self).heap_type(),
                    #[trigger] old(self)@[i],
                    old(self)@[0],
                ),
    {
        broadcast use vstd::seq_lib::group_to_multiset_ensures;

        proof {
            assert forall|i: int| 0 <= i < old(self)@.len() implies !outranks(
                self.ty,
                #[trigger] old(self)@[i],
                old(self)@[0],
            ) by {
                lemma_heap_top(old(self)@, self.ty, i);
            }
        }
        let len = self.arr.len();
        if len <= 1 {
            let r = self.arr.pop();
            proof {
                if len == 1 {
                    assert(old(self)@.drop_last() =~= old(self)@.remove(0));
                }
            }
            return r;
        }
        proof {
            lemma_swap_multiset(self.arr@, 0, len - 1);
        }
        self.arr.swap(0, len - 1);
        let elem = self.arr.pop().unwrap();
        let ghost m = self.arr@.to_multiset();
        proof {
            let sw = old(self)@.update(0, old(self)@[len - 1]).update(len - 1, old(self)@[0]);
            assert(sw.drop_last() =~= sw.remove(len - 1));
            assert(sw[len - 1] == old(self)@[0]);
        }
        let last_idx = len - 2;
        let mut idx: usize = 0;
        let ghost target = sift_down(
            swapped(old(self)@, 0, old(self)@.len() - 1).drop_last(),
            0,
            (old(self)@.len() - 2) as nat,
            old(self).ty,
        );
        proof {
            let s = swapped(old(self)@, 0, old(self)@.len() - 1).drop_last();
            assert(self.arr@ =~= s);
            assert forall|i: int| 0 < i < s.len() && (i - 1) / 2 != 0 implies !outranks(
                self.ty,
                #[trigger] s[i],
                s[(i - 1) / 2],
            ) by {
                assert(s[i] == old(self)@[i] && s[(i - 1) / 2] == old(self)@[(i - 1) / 2]);
            }
            lemma_sift_down_ordered(s, 0, (len - 2) as nat, self.ty);
        }
        loop
            invariant
                heap_ordered(target, old(self).ty),
                forall|i: int|
                    0 <= i < old(self)@.len() ==> !outranks(
                        old(self).ty,
                        #[trigger] old(self)@[i],
                        old(self)@[0],
                    ),
                sift_down(self.arr@, idx as nat, last_idx as nat, self.ty) == target,
                target == sift_down(
                    swapped(old(self)@, 0, old(self)@.len() - 1).drop_last(),
                    0,
                    (old(self)@.len() - 2) as nat,
                    old(self).ty,
                ),
                self.arr.wf(),
                self.arr.spec_capacity() == old(self).spec_capacity(),
                self.arr@.len() == len - 1,
                last_idx == len - 2,
                self.arr@.to_multiset() == m,
                m == old(self)@.to_multiset().remove(old(self)@[0]),
                elem == old(self)@[0],
                len == old(self)@.len(),
                0 <= idx <= last_idx,
                self.ty == old(self).ty,
            decreases last_idx - idx,
        {
            let ghost s0 = self.arr@;
            if idx > last_idx / 2 {
                proof {
                    assert(sift_down(s0, idx as nat, last_idx as nat, self.ty) == s0);
                }
                return Some(elem);
            }
            let left_child_idx = idx * 2 + 1;
            if left_child_idx > last_idx {
                proof {
                    assert(sift_down(s0, idx as nat, last_idx as nat, self.ty) == s0);
                }
                return Some(elem);
            }
            let right_child_idx = left_child_idx + 1;
            let parent = self.arr.get_copy(idx).unwrap();
            let left_child = self.arr.get_copy(left_child_idx).unwrap();
            if right_child_idx > last_idx {
                if self.should_rise(&left_child, &parent) {
                    proof {
                        lemma_swap_multiset(self.arr@, idx as int, left_child_idx as int);
                    }
                    self.arr.swap(idx, left_child_idx);
                    proof {
                        assert(self.arr@ == swapped(s0, idx as int, left_child_idx as int));
                    }
                }
                return Some(elem);
            }
            let right_child = self.arr.get_copy(right_child_idx).unwrap();
            if !self.should_rise(&right_child, &left_child) && self.should_rise(&left_child, &parent) {
                proof {
                    lemma_swap_multiset(self.arr@, idx as int, left_child_idx as int);
                }
                self.arr.swap(idx, left_child_idx);
                idx = left_child_idx;
                continue;
            }
            if !self.should_rise(&left_child, &right_child) && self.should_rise(&right_child, &parent) {
                proof {
                    lemma_swap_multiset(self.arr@, idx as int, right_child_idx as int);
                }
                self.arr.swap(idx, right_child_idx);
                idx = right_child_idx;
                continue;
            }
            return Some(elem);
        }
    }

    /// Removes every element.
    pub fn clear(&mut self)
        requires
            old(self).wf(),
        ensures
            final(self).wf(),
            final(self)@ == Seq::<T>::empty(),
            final(self).heap_type() == old(self).heap_type(),
            final(self).spec_capacity() == old(self).spec_capacity(),
    {
        self.arr.clear();
    }

    /// A cursor over the elements, in slot order.
    pub fn iter(&self) -> (r: SBinaryHeapIter<'_, T>)
        ensures
            r.items() == self@,
            r.pos() == 0,
    {
        SBinaryHeapIter::new(self)
    }

    /// Releases the heap.
    pub fn drop(self) {
    }
}

impl<T: StableKey> Default for SBinaryHeap<T> {
    fn default() -> (r: Self)
        ensures
            r.wf(),
            r@ == Seq::<T>::empty(),
            r.heap_type() == SHeapType::Max,
            r.spec_capacity() == DEFAULT_CAPACITY,
    {
        Self::new(SHeapType::Max)
    }
}

/// A cursor over the elements of a heap, in slot order.
pub struct SBinaryHeapIter<'a, T> {
    iter: SVecIter<'a, T>,
}

impl<'a, T: StableKey> SBinaryHeapIter<'a, T> {
    pub closed spec fn items(&self) -> Seq<T> {
        self.iter.items()
    }

    pub closed spec fn pos(&self) -> nat {
        self.iter.pos()
    }

    /// A cursor at the first slot of `heap`.
    pub fn new(heap: &'a SBinaryHeap<T>) -> (r: Self)
        ensures
            r.items() == heap@,
            r.pos() == 0,
    {
        SBinaryHeapIter { iter: SVecIter::new(&heap.arr) }
    }

    /// The element in the next slot, if any.
    pub fn next(&mut self) -> (r: Option<&'a T>)
        ensures
            final(self).items() == old(self).items(),
            old(self).pos() < old(self).items().len() ==> r == Some(&old(self).items()[old(self).pos() as int])
                && final(self).pos() == old(self).pos() + 1,
            old(self).pos() >= old(self).items().len() ==> r is None && final(self).pos() == old(self).pos(),
    {
        self.iter.next()
    }
}

} // verus!
