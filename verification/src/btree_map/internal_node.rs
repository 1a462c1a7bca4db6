//! Internal nodes of the B+ tree: separator keys and one more child than keys.
use vstd::prelude::*;
use crate::key::{KeyOrder, StableKey};
use crate::vec::sorted_by_key;
use super::{B, CAPACITY, CHILDREN_CAPACITY, MIN_LEN_AFTER_SPLIT};

verus! {

/// An internal node: separator keys and children (stable pointers by default).
/// Child `i` holds the keys less than key `i`; child `i + 1` those greater or equal.
pub struct InternalBTreeNode<K, C = u64> {
    keys: Vec<K>,
    children: Vec<C>,
    len: usize,
}

impl<K: StableKey, C> InternalBTreeNode<K, C> {
    pub closed spec fn keys_view(&self) -> Seq<K> {
        self.keys@
    }

    pub closed spec fn children_view(&self) -> Seq<C> {
        self.children@
    }

    /// The length recorded in the node.
    pub closed spec fn recorded_len(&self) -> nat {
        self.len as nat
    }

    /// Creates a node with no keys and no children.
    pub fn create_empty() -> (r: Self)
        ensures
            r.keys_view() == Seq::<K>::empty(),
            r.children_view() == Seq::<C>::empty(),
            r.recorded_len() == 0,
    {
        InternalBTreeNode { keys: Vec::new(), children: Vec::new(), len: 0 }
    }

    /// Creates a node with one key and two children.
    pub fn create(key: K, lcp: C, rcp: C) -> (r: Self)
        ensures
            r.keys_view() == seq![key],
            r.children_view() == seq![lcp, rcp],
            r.recorded_len() == 1,
    {
        let mut keys = Vec::new();
        keys.push(key);
        let mut children = Vec::new();
        children.push(lcp);
        children.push(rcp);
        assert(keys@ =~= seq![key]);
        assert(children@ =~= seq![lcp, rcp]);
        InternalBTreeNode { keys, children, len: 1 }
    }

    /// Releases the node.
    pub fn destroy(self) {
    }

    pub fn read_len(&self) -> (r: usize)
        ensures
            r == self.recorded_len(),
    {
        self.len
    }

    pub fn write_len(&mut self, len: usize)
        ensures
            final(self).recorded_len() == len,
            final(self).keys_view() == old(self).keys_view(),
            final(self).children_view() == old(self).children_view(),
    {
        self.len = len;
    }

    /// Binary search for `k` among the first `len` keys, which are sorted.
    pub fn binary_search(&self, k: &K, len: usize) -> (r: Result<usize, usize>)
        requires
            len <= self.keys_view().len(),
            sorted_by_key(self.keys_view().subrange(0, len as int)),
        ensures
            r matches Ok(i) ==> i < len && self.keys_view()[i as int] == *k,
            r matches Err(i) ==> i <= len && (forall|j: int|
                0 <= j < i ==> #[trigger] self.keys_view()[j].key_int() < k.key_int()) && (forall|j: int|
                i <= j < len ==> #[trigger] self.keys_view()[j].key_int() > k.key_int()),
    {
        if len == 0 {
            return Err(0);
        }
        proof {
            assert forall|a: int, b: int| 0 <= a < b < len implies #[trigger] self.keys@[a].key_int() < #[trigger] self.keys@[b].key_int() by {
                assert(self.keys_view().subrange(0, len as int)[a] == self.keys@[a]);
                assert(self.keys_view().subrange(0, len as int)[b] == self.keys@[b]);
            }
        }
        let mut min: usize = 0;
        let mut max: usize = len;
        let mut mid: usize = (max - min) / 2;
        loop
            invariant
                len <= self.keys@.len(),
                forall|a: int, b: int| 0 <= a < b < len ==> #[trigger] self.keys@[a].key_int() < #[trigger] self.keys@[b].key_int(),
                min <= mid < max <= len,
                mid == (max - min) / 2 + min,
                forall|j: int| 0 <= j < min ==> #[trigger] self.keys@[j].key_int() < k.key_int(),
                forall|j: int| max <= j < len ==> #[trigger] self.keys@[j].key_int() > k.key_int(),
            decreases max - min,
        {
            let key = self.keys[mid];
            match key.compare_key(k) {
                KeyOrder::Equal => {
                    proof {
                        K::lemma_key_int_injective(key, *k);
                    }
                    return Ok(mid);
                },
                KeyOrder::Greater => {
                    max = mid;
                    let new_mid = (max - min) / 2 + min;
                    if new_mid == mid {
                        return Err(mid);
                    }
                    mid = new_mid;
                },
                KeyOrder::Less => {
                    min = mid;
                    let new_mid = (max - min) / 2 + min;
                    if new_mid == mid {
                        return Err(mid + 1);
                    }
                    mid = new_mid;
                },
            }
        }
    }

    pub fn read_key(&self, idx: usize) -> (r: K)
        requires
            idx < self.keys_view().len(),
        ensures
            r == self.keys_view()[idx as int],
    {
        self.keys[idx]
    }

    pub fn write_key(&mut self, idx: usize, key: K)
        requires
            idx < old(self).keys_view().len(),
        ensures
            final(self).keys_view() == old(self).keys_view().update(idx as int, key),
            final(self).children_view() == old(self).children_view(),
            final(self).recorded_len() == old(self).recorded_len(),
    {
        self.keys.set(idx, key);
    }

    pub fn push_key(&mut self, key: K, len: usize)
        requires
            len == old(self).keys_view().len(),
        ensures
            final(self).keys_view() == old(self).keys_view().push(key),
            final(self).children_view() == old(self).children_view(),
            final(self).recorded_len() == old(self).recorded_len(),
    {
        self.keys.push(key);
    }

    pub fn insert_key(&mut self, idx: usize, key: K, len: usize)
        requires
            len == old(self).keys_view().len(),
            idx <= len,
        ensures
            final(self).keys_view() == old(self).keys_view().insert(idx as int, key),
            final(self).children_view() == old(self).children_view(),
            final(self).recorded_len() == old(self).recorded_len(),
    {
        self.keys.insert(idx, key);
    }

    pub fn pop_key(&mut self, len: usize) -> (r: K)
        requires
            len == old(self).keys_view().len(),
            len > 0,
        ensures
            r == old(self).keys_view().last(),
            final(self).keys_view() == old(self).keys_view().drop_last(),
            final(self).children_view() == old(self).children_view(),
            final(self).recorded_len() == old(self).recorded_len(),
    {
        self.keys.pop().unwrap()
    }

    pub fn remove_key(&mut self, idx: usize, len: usize) -> (r: K)
        requires
            len == old(self).keys_view().len(),
            idx < len,
        ensures
            r == old(self).keys_view()[idx as int],
            final(self).keys_view() == old(self).keys_view().remove(idx as int),
            final(self).children_view() == old(self).children_view(),
            final(self).recorded_len() == old(self).recorded_len(),
    {
        self.keys.remove(idx)
    }

    pub fn read_child_ptr(&self, idx: usize) -> (r: &C)
        requires
            idx < self.children_view().len(),
        ensures
            *r == self.children_view()[idx as int],
    {
        &self.children[idx]
    }

    /// The child in slot `idx`, to change in place.
    pub fn child_mut(&mut self, idx: usize) -> (r: &mut C)
        requires
            idx < old(self).children_view().len(),
        ensures
            *r == old(self).children_view()[idx as int],
            final(self).children_view() == old(self).children_view().update(idx as int, *final(r)),
            final(self).keys_view() == old(self).keys_view(),
            final(self).recorded_len() == old(self).recorded_len(),
    {
        &mut self.children[idx]
    }

    /// Puts `child` in child slot `idx` and returns the child that was there.
    pub fn write_child_ptr(&mut self, idx: usize, child: C) -> (r: C)
        requires
            idx < old(self).children_view().len(),
        ensures
            r == old(self).children_view()[idx as int],
            final(self).children_view() == old(self).children_view().update(idx as int, child),
            final(self).keys_view() == old(self).keys_view(),
            final(self).recorded_len() == old(self).recorded_len(),
    {
        let mut c = child;
        self.children.set_and_swap(idx, &mut c);
        c
    }

    pub fn push_child_ptr(&mut self, child: C, children_len: usize)
        requires
            children_len == old(self).children_view().len(),
        ensures
            final(self).children_view() == old(self).children_view().push(child),
            final(self).keys_view() == old(self).keys_view(),
            final(self).recorded_len() == old(self).recorded_len(),
    {
        self.children.push(child);
    }

    pub fn insert_child_ptr(&mut self, idx: usize, child: C, children_len: usize)
        requires
            children_len == old(self).children_view().len(),
            idx <= children_len,
        ensures
            final(self).children_view() == old(self).children_view().insert(idx as int, child),
            final(self).keys_view() == old(self).keys_view(),
            final(self).recorded_len() == old(self).recorded_len(),
    {
        self.children.insert(idx, child);
    }

    pub fn pop_child_ptr(&mut self, children_len: usize) -> (r: C)
        requires
            children_len == old(self).children_view().len(),
            children_len > 0,
        ensures
            r == old(self).children_view().last(),
            final(self).children_view() == old(self).children_view().drop_last(),
            final(self).keys_view() == old(self).keys_view(),
            final(self).recorded_len() == old(self).recorded_len(),
    {
        self.children.pop().unwrap()
    }

    pub fn remove_child_ptr(&mut self, idx: usize, children_len: usize) -> (r: C)
        requires
            children_len == old(self).children_view().len(),
            idx < children_len,
        ensures
            r == old(self).children_view()[idx as int],
            final(self).children_view() == old(self).children_view().remove(idx as int),
            final(self).keys_view() == old(self).keys_view(),
            final(self).recorded_len() == old(self).recorded_len(),
    {
        self.children.remove(idx)
    }

    /// Splits a full node: the new right node takes keys `B..` and children `B..`;
    /// key `B - 1` is handed back to go up to the parent.
    pub fn split_max_len(&mut self) -> (r: (Self, K))
        requires
            old(self).keys_view().len() == CAPACITY,
            old(self).children_view().len() == CHILDREN_CAPACITY,
        ensures
            final(self).keys_view() == old(self).keys_view().subrange(0, MIN_LEN_AFTER_SPLIT as int),
            final(self).children_view() == old(self).children_view().subrange(0, B as int),
            r.0.keys_view() == old(self).keys_view().subrange(B as int, CAPACITY as int),
            r.0.children_view() == old(self).children_view().subrange(
                B as int,
                CHILDREN_CAPACITY as int,
            ),
            r.1 == old(self).keys_view()[MIN_LEN_AFTER_SPLIT as int],
            final(self).recorded_len() == old(self).recorded_len(),
            r.0.recorded_len() == 0,
    {
        self.split_at(MIN_LEN_AFTER_SPLIT)
    }

    /// Splits around key `m`: this node keeps keys `..m` and children `..=m`, the new
    /// right node takes keys `m + 1..` and children `m + 1..`, and key `m` is handed back.
    pub(crate) fn split_at(&mut self, m: usize) -> (r: (Self, K))
        requires
            m < old(self).keys_view().len(),
            old(self).children_view().len() == old(self).keys_view().len() + 1,
        ensures
            final(self).keys_view() == old(self).keys_view().subrange(0, m as int),
            final(self).children_view() == old(self).children_view().subrange(0, m + 1),
            r.0.keys_view() == old(self).keys_view().subrange(
                m + 1,
                old(self).keys_view().len() as int,
            ),
            r.0.children_view() == old(self).children_view().subrange(
                m + 1,
                old(self).children_view().len() as int,
            ),
            r.1 == old(self).keys_view()[m as int],
            final(self).recorded_len() == old(self).recorded_len(),
            r.0.recorded_len() == 0,
    {
        let n = self.keys.len();
        assert(m < n);
        let right_keys = self.keys.split_off(m + 1);
        let right_children = self.children.split_off(m + 1);
        let mid = self.keys.pop().unwrap();
        (InternalBTreeNode { keys: right_keys, children: right_children, len: 0 }, mid)
    }

    /// Appends `mid`, then the keys and children of `right`.
    pub fn merge_min_len(&mut self, mid: K, right: Self)
        ensures
            final(self).keys_view() == old(self).keys_view().push(mid) + right.keys_view(),
            final(self).children_view() == old(self).children_view() + right.children_view(),
            final(self).recorded_len() == old(self).recorded_len(),
    {
        self.keys.push(mid);
        let mut rk = right.keys;
        let mut rc = right.children;
        self.keys.append(&mut rk);
        self.children.append(&mut rc);
    }

    /// Rotates through the parent: the separator comes down in front of this node's keys,
    /// the last key of `left_sibling` goes up, and its last child moves over.
    pub fn steal_from_left(&mut self, left_sibling: &mut Self, parent_key: &mut K)
        requires
            old(left_sibling).keys_view().len() > 0,
            old(left_sibling).children_view().len() > 0,
        ensures
            final(self).keys_view() == seq![*old(parent_key)] + old(self).keys_view(),
            final(self).children_view() == seq![old(left_sibling).children_view().last()] + old(
                self,
            ).children_view(),
            final(left_sibling).keys_view() == old(left_sibling).keys_view().drop_last(),
            final(left_sibling).children_view() == old(left_sibling).children_view().drop_last(),
            *final(parent_key) == old(left_sibling).keys_view().last(),
            final(self).recorded_len() == old(self).recorded_len(),
            final(left_sibling).recorded_len() == old(left_sibling).recorded_len(),
    {
        let pk = *parent_key;
        let lk = left_sibling.keys.pop().unwrap();
        let lc = left_sibling.children.pop().unwrap();
        *parent_key = lk;
        self.keys.insert(0, pk);
        self.children.insert(0, lc);
        assert(self.keys@ =~= seq![pk] + old(self).keys@);
        assert(self.children@ =~= seq![lc] + old(self).children@);
    }

    /// Rotates through the parent: the separator comes down after this node's keys,
    /// the first key of `right_sibling` goes up, and its first child moves over.
    pub fn steal_from_right(&mut self, right_sibling: &mut Self, parent_key: &mut K)
        requires
            old(right_sibling).keys_view().len() > 0,
            old(right_sibling).children_view().len() > 0,
        ensures
            final(self).keys_view() == old(self).keys_view().push(*old(parent_key)),
            final(self).children_view() == old(self).children_view().push(
                old(right_sibling).children_view()[0],
            ),
            final(right_sibling).keys_view() == old(right_sibling).keys_view().remove(0),
            final(right_sibling).children_view() == old(right_sibling).children_view().remove(0),
            *final(parent_key) == old(right_sibling).keys_view()[0],
            final(self).recorded_len() == old(self).recorded_len(),
            final(right_sibling).recorded_len() == old(right_sibling).recorded_len(),
    {
        let pk = *parent_key;
        let rk = right_sibling.keys.remove(0);
        let rc = right_sibling.children.remove(0);
        *parent_key = rk;
        self.keys.push(pk);
        self.children.push(rc);
    }
}

} // verus!
