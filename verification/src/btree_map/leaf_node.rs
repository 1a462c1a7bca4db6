//! Leaf nodes of the B+ tree: sorted keys with their values.
use vstd::prelude::*;
use crate::key::{KeyOrder, StableKey};
use crate::vec::sorted_by_key;
use super::{B, MIN_LEN_AFTER_SPLIT};

verus! {

/// A leaf: keys and values in slots; `len` is the length recorded in the node.
pub struct LeafBTreeNode<K, V> {
    keys: Vec<K>,
    values: Vec<V>,
    len: usize,
}

impl<K: StableKey, V> LeafBTreeNode<K, V> {
    pub closed spec fn keys_view(&self) -> Seq<K> {
        self.keys@
    }

    pub closed spec fn values_view(&self) -> Seq<V> {
        self.values@
    }

    /// The length recorded in the node.
    pub closed spec fn recorded_len(&self) -> nat {
        self.len as nat
    }

    /// Creates an empty leaf.
    pub fn create() -> (r: Self)
        ensures
            r.keys_view() == Seq::<K>::empty(),
            r.values_view() == Seq::<V>::empty(),
            r.recorded_len() == 0,
    {
        LeafBTreeNode { keys: Vec::new(), values: Vec::new(), len: 0 }
    }

    /// Releases the leaf.
    pub fn destroy(self) {
    }

    pub fn read_len(&self) -> (r: usize)
        ensures
            r == self.recorded_len(),
    {
        self.len
    }

    pub fn write_len(&mut self, len: usize)
        ensures
            final(self).recorded_len() == len,
            final(self).keys_view() == old(self).keys_view(),
            final(self).values_view() == old(self).values_view(),
    {
        self.len = len;
    }

    /// Binary search for `k` among the first `len` keys, which are sorted.
    pub fn binary_search(&self, k: &K, len: usize) -> (r: Result<usize, usize>)
        requires
            len <= self.keys_view().len(),
            sorted_by_key(self.keys_view().subrange(0, len as int)),
        ensures
            r matches Ok(i) ==> i < len && self.keys_view()[i as int] == *k,
            r matches Err(i) ==> i <= len && (forall|j: int|
                0 <= j < i ==> #[trigger] self.keys_view()[j].key_int() < k.key_int()) && (forall|j: int|
                i <= j < len ==> #[trigger] self.keys_view()[j].key_int() > k.key_int()),
    {
        if len == 0 {
            return Err(0);
        }
        proof {
            assert forall|a: int, b: int| 0 <= a < b < len implies #[trigger] self.keys@[a].key_int() < #[trigger] self.keys@[b].key_int() by {
                assert(self.keys_view().subrange(0, len as int)[a] == self.keys@[a]);
                assert(self.keys_view().subrange(0, len as int)[b] == self.keys@[b]);
            }
        }
        let mut min: usize = 0;
        let mut max: usize = len;
        let mut mid: usize = (max - min) / 2;
        loop
            invariant
                len <= self.keys@.len(),
                forall|a: int, b: int| 0 <= a < b < len ==> #[trigger] self.keys@[a].key_int() < #[trigger] self.keys@[b].key_int(),
                min <= mid < max <= len,
                mid == (max - min) / 2 + min,
                forall|j: int| 0 <= j < min ==> #[trigger] self.keys@[j].key_int() < k.key_int(),
                forall|j: int| max <= j < len ==> #[trigger] self.keys@[j].key_int() > k.key_int(),
            decreases max - min,
        {
            let key = self.keys[mid];
            match key.compare_key(k) {
                KeyOrder::Equal => {
                    proof {
                        K::lemma_key_int_injective(key, *k);
                    }
                    return Ok(mid);
                },
                KeyOrder::Greater => {
                    max = mid;
                    let new_mid = (max - min) / 2 + min;
                    if new_mid == mid {
                        return Err(mid);
                    }
                    mid = new_mid;
                },
                KeyOrder::Less => {
                    min = mid;
                    let new_mid = (max - min) / 2 + min;
                    if new_mid == mid {
                        return Err(mid + 1);
                    }
                    mid = new_mid;
                },
            }
        }
    }

    pub fn read_key(&self, idx: usize) -> (r: K)
        requires
            idx < self.keys_view().len(),
        ensures
            r == self.keys_view()[idx as int],
    {
        self.keys[idx]
    }

    pub fn write_key(&mut self, idx: usize, key: K)
        requires
            idx < old(self).keys_view().len(),
        ensures
            final(self).keys_view() == old(self).keys_view().update(idx as int, key),
            final(self).values_view() == old(self).values_view(),
            final(self).recorded_len() == old(self).recorded_len(),
    {
        self.keys.set(idx, key);
    }

    /// Puts `key` in slot `len`, after the `len` keys in use.
    pub fn push_key(&mut self, key: K, len: usize)
        requires
            len == old(self).keys_view().len(),
        ensures
            final(self).keys_view() == old(self).keys_view().push(key),
            final(self).values_view() == old(self).values_view(),
            final(self).recorded_len() == old(self).recorded_len(),
    {
        self.keys.push(key);
    }

    /// Puts `key` in slot `idx`, shifting the keys from `idx` to `len` right.
    pub fn insert_key(&mut self, idx: usize, key: K, len: usize)
        requires
            len == old(self).keys_view().len(),
            idx <= len,
        ensures
            final(self).keys_view() == old(self).keys_view().insert(idx as int, key),
            final(self).values_view() == old(self).values_view(),
            final(self).recorded_len() == old(self).recorded_len(),
    {
        self.keys.insert(idx, key);
    }

    /// Takes the key in slot `len - 1`.
    pub fn pop_key(&mut self, len: usize) -> (r: K)
        requires
            len == old(self).keys_view().len(),
            len > 0,
        ensures
            r == old(self).keys_view().last(),
            final(self).keys_view() == old(self).keys_view().drop_last(),
            final(self).values_view() == old(self).values_view(),
            final(self).recorded_len() == old(self).recorded_len(),
    {
        self.keys.pop().unwrap()
    }

    /// Takes the key in slot `idx`, shifting the later keys left.
    pub fn remove_key(&mut self, idx: usize, len: usize) -> (r: K)
        requires
            len == old(self).keys_view().len(),
            idx < len,
        ensures
            r == old(self).keys_view()[idx as int],
            final(self).keys_view() == old(self).keys_view().remove(idx as int),
            final(self).values_view() == old(self).values_view(),
            final(self).recorded_len() == old(self).recorded_len(),
    {
        self.keys.remove(idx)
    }

    pub fn read_value(&self, idx: usize) -> (r: &V)
        requires
            idx < self.values_view().len(),
        ensures
            *r == self.values_view()[idx as int],
    {
        &self.values[idx]
    }

    /// The value in slot `idx`, to change in place.
    pub fn value_mut(&mut self, idx: usize) -> (r: &mut V)
        requires
            idx < old(self).values_view().len(),
        ensures
            *r == old(self).values_view()[idx as int],
            final(self).values_view() == old(self).values_view().update(idx as int, *final(r)),
            final(self).keys_view() == old(self).keys_view(),
            final(self).recorded_len() == old(self).recorded_len(),
    {
        &mut self.values[idx]
    }

    /// Puts `value` in slot `idx` and returns the value that was there.
    pub fn write_value(&mut self, idx: usize, value: V) -> (r: V)
        requires
            idx < old(self).values_view().len(),
        ensures
            r == old(self).values_view()[idx as int],
            final(self).values_view() == old(self).values_view().update(idx as int, value),
            final(self).keys_view() == old(self).keys_view(),
            final(self).recorded_len() == old(self).recorded_len(),
    {
        let mut v = value;
        self.values.set_and_swap(idx, &mut v);
        v
    }

    pub fn push_value(&mut self, value: V, len: usize)
        requires
            len == old(self).values_view().len(),
        ensures
            final(self).values_view() == old(self).values_view().push(value),
            final(self).keys_view() == old(self).keys_view(),
            final(self).recorded_len() == old(self).recorded_len(),
    {
        self.values.push(value);
    }

    pub fn insert_value(&mut self, idx: usize, value: V, len: usize)
        requires
            len == old(self).values_view().len(),
            idx <= len,
        ensures
            final(self).values_view() == old(self).values_view().insert(idx as int, value),
            final(self).keys_view() == old(self).keys_view(),
            final(self).recorded_len() == old(self).recorded_len(),
    {
        self.values.insert(idx, value);
    }

    pub fn pop_value(&mut self, len: usize) -> (r: V)
        requires
            len == old(self).values_view().len(),
            len > 0,
        ensures
            r == old(self).values_view().last(),
            final(self).values_view() == old(self).values_view().drop_last(),
            final(self).keys_view() == old(self).keys_view(),
            final(self).recorded_len() == old(self).recorded_len(),
    {
        self.values.pop().unwrap()
    }

    pub fn remove_value(&mut self, idx: usize, len: usize) -> (r: V)
        requires
            len == old(self).values_view().len(),
            idx < len,
        ensures
            r == old(self).values_view()[idx as int],
            final(self).values_view() == old(self).values_view().remove(idx as int),
            final(self).keys_view() == old(self).keys_view(),
            final(self).recorded_len() == old(self).recorded_len(),
    {
        self.values.remove(idx)
    }

    /// Removes the entry in slot `idx` and returns its value.
    pub fn remove_and_disown_by_idx(&mut self, idx: usize, len: usize) -> (r: V)
        requires
            len == old(self).keys_view().len(),
            len == old(self).values_view().len(),
            idx < len,
        ensures
            r == old(self).values_view()[idx as int],
            final(self).keys_view() == old(self).keys_view().remove(idx as int),
            final(self).values_view() == old(self).values_view().remove(idx as int),
            final(self).recorded_len() == old(self).recorded_len(),
    {
        self.remove_key(idx, len);
        self.remove_value(idx, len)
    }

    /// Splits a leaf: the new right leaf takes the entries from slot
    /// `MIN_LEN_AFTER_SPLIT` (right-biased) or `B` on.
    pub fn split_max_len(&mut self, right_biased: bool) -> (r: Self)
        requires
            old(self).keys_view().len() == old(self).values_view().len(),
            old(self).keys_view().len() >= B,
        ensures
            ({
                let m = if right_biased {
                    MIN_LEN_AFTER_SPLIT as int
                } else {
                    B as int
                };
                let n = old(self).keys_view().len() as int;
                &&& final(self).keys_view() == old(self).keys_view().subrange(0, m)
                &&& final(self).values_view() == old(self).values_view().subrange(0, m)
                &&& r.keys_view() == old(self).keys_view().subrange(m, n)
                &&& r.values_view() == old(self).values_view().subrange(m, n)
            }),
            final(self).recorded_len() == old(self).recorded_len(),
            r.recorded_len() == 0,
    {
        let min_idx = if right_biased {
            MIN_LEN_AFTER_SPLIT
        } else {
            B
        };
        let right_keys = self.keys.split_off(min_idx);
        let right_values = self.values.split_off(min_idx);
        LeafBTreeNode { keys: right_keys, values: right_values, len: 0 }
    }

    /// Appends every entry of `right` after the entries of this leaf.
    pub fn merge_min_len(&mut self, right: Self)
        ensures
            final(self).keys_view() == old(self).keys_view() + right.keys_view(),
            final(self).values_view() == old(self).values_view() + right.values_view(),
            final(self).recorded_len() == old(self).recorded_len(),
    {
        let mut rk = right.keys;
        let mut rv = right.values;
        self.keys.append(&mut rk);
        self.values.append(&mut rv);
    }

    /// Moves the last entry of `left_sibling` to the front of this leaf; the separator
    /// in the parent becomes its key.
    pub fn steal_from_left(&mut self, left_sibling: &mut Self, parent_key: &mut K)
        requires
            old(left_sibling).keys_view().len() > 0,
            old(left_sibling).keys_view().len() == old(left_sibling).values_view().len(),
            old(self).keys_view().len() == old(self).values_view().len(),
        ensures
            final(self).keys_view() == seq![old(left_sibling).keys_view().last()] + old(
                self,
            ).keys_view(),
            final(self).values_view() == seq![old(left_sibling).values_view().last()] + old(
                self,
            ).values_view(),
            final(left_sibling).keys_view() == old(left_sibling).keys_view().drop_last(),
            final(left_sibling).values_view() == old(left_sibling).values_view().drop_last(),
            *final(parent_key) == old(left_sibling).keys_view().last(),
            final(self).recorded_len() == old(self).recorded_len(),
            final(left_sibling).recorded_len() == old(left_sibling).recorded_len(),
    {
        let k = left_sibling.keys.pop().unwrap();
        let v = left_sibling.values.pop().unwrap();
        *parent_key = k;
        self.keys.insert(0, k);
        self.values.insert(0, v);
        assert(self.keys@ =~= seq![k] + old(self).keys@);
        assert(self.values@ =~= seq![v] + old(self).values@);
    }

    /// Moves the first entry of `right_sibling` to the end of this leaf; the separator
    /// in the parent becomes the new first key of `right_sibling`.
    pub fn steal_from_right(&mut self, right_sibling: &mut Self, parent_key: &mut K)
        requires
            old(right_sibling).keys_view().len() > 1,
            old(right_sibling).keys_view().len() == old(right_sibling).values_view().len(),
            old(self).keys_view().len() == old(self).values_view().len(),
        ensures
            final(self).keys_view() == old(self).keys_view().push(old(right_sibling).keys_view()[0]),
            final(self).values_view() == old(self).values_view().push(
                old(right_sibling).values_view()[0],
            ),
            final(right_sibling).keys_view() == old(right_sibling).keys_view().remove(0),
            final(right_sibling).values_view() == old(right_sibling).values_view().remove(0),
            *final(parent_key) == old(right_sibling).keys_view()[1],
            final(self).recorded_len() == old(self).recorded_len(),
            final(right_sibling).recorded_len() == old(right_sibling).recorded_len(),
    {
        let k = right_sibling.keys.remove(0);
        let v = right_sibling.values.remove(0);
        *parent_key = right_sibling.keys[0];
        self.keys.push(k);
        self.values.push(v);
    }
}

} // verus!
