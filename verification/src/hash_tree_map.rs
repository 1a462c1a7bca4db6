//! `SHashTreeMap`: a binary tree of small fixed-size hash tables. A key that finds
//! the table of a node full goes down to the left or the right subtree by one bit of
//! its hash, a different bit at each level; a node with a subtree keeps its table full.
use vstd::prelude::*;
use crate::key::StableKey;
use crate::hash_map::{node_full_len, SHashTreeNode, DEFAULT_CAPACITY};

verus! {

/// A node of the tree: its table and its two subtrees.
pub struct HashTreeBranch<K, V> {
    node: SHashTreeNode<K, V>,
    left: Option<Box<HashTreeBranch<K, V>>>,
    right: Option<Box<HashTreeBranch<K, V>>>,
}

/// The hash bit that the level after the one that reads bit `bit` reads.
pub open spec fn next_bit(bit: u64) -> u64 {
    if bit >= 63 {
        0
    } else {
        (bit + 1) as u64
    }
}

/// Whether `k` belongs under the left subtree of a node whose level reads hash bit `bit`.
pub open spec fn goes_left<K: StableKey>(k: K, bit: u64) -> bool {
    (k.key_hash_spec() >> bit) & 1u64 == 1u64
}

/// The entries held under a subtree.
spec fn tree_view<K: StableKey, V>(t: Option<Box<HashTreeBranch<K, V>>>) -> Map<K, V>
    decreases t,
{
    match t {
        None => Map::empty(),
        Some(b) => branch_view(*b),
    }
}

/// The entries held by a node and its subtrees.
spec fn branch_view<K: StableKey, V>(b: HashTreeBranch<K, V>) -> Map<K, V>
    decreases b,
{
    tree_view(b.left).union_prefer_right(tree_view(b.right)).union_prefer_right(b.node@)
}

/// A well-formed subtree at the level that reads hash bit `bit`.
spec fn wf_tree<K: StableKey, V>(t: Option<Box<HashTreeBranch<K, V>>>, bit: u64) -> bool
    decreases t,
{
    match t {
        None => true,
        Some(b) => wf_branch(*b, bit),
    }
}

/// A well-formed node: its table is well formed, of the default capacity and not
/// empty, and full if the node has a subtree; every key of the left subtree has bit
/// `bit` of its hash set and every key of the right one has it clear; no key of the
/// table stands in a subtree.
spec fn wf_branch<K: StableKey, V>(b: HashTreeBranch<K, V>, bit: u64) -> bool
    decreases b,
{
    &&& b.node.wf()
    &&& b.node.spec_capacity() == DEFAULT_CAPACITY
    &&& b.node@.len() > 0
    &&& (b.left is Some || b.right is Some) ==> b.node@.len() == node_full_len(DEFAULT_CAPACITY as nat)
    &&& wf_tree(b.left, next_bit(bit))
    &&& wf_tree(b.right, next_bit(bit))
    &&& forall|k: K| #[trigger] tree_view(b.left).contains_key(k) ==> goes_left(k, bit)
    &&& forall|k: K| #[trigger] tree_view(b.right).contains_key(k) ==> !goes_left(k, bit)
    &&& forall|k: K| #[trigger] b.node@.contains_key(k) ==> !tree_view(b.left).contains_key(k)
        && !tree_view(b.right).contains_key(k)
}

/// The entries under a well-formed subtree are finitely many.
proof fn lemma_tree_finite<K: StableKey, V>(t: Option<Box<HashTreeBranch<K, V>>>, bit: u64)
    requires
        wf_tree(t, bit),
    ensures
        tree_view(t).dom().finite(),
    decreases t,
{
    match t {
        None => {
            assert(tree_view(t).dom() =~= Set::<K>::empty());
        },
        Some(b) => {
            lemma_tree_finite(b.left, next_bit(bit));
            lemma_tree_finite(b.right, next_bit(bit));
            b.node.lemma_len();
            let l = tree_view(b.left);
            let r = tree_view(b.right);
            assert(l.union_prefer_right(r).dom() =~= l.dom().union(r.dom()));
            assert(branch_view(*b).dom() =~= l.dom().union(r.dom()).union(b.node@.dom()));
        },
    }
}

/// Where a key of a well-formed node sits: in the table, or else under the subtree
/// that its hash bit picks.
proof fn lemma_branch_parts<K: StableKey, V>(b: HashTreeBranch<K, V>, bit: u64, k: K)
    requires
        wf_branch(b, bit),
    ensures
        branch_view(b).contains_key(k) <==> b.node@.contains_key(k) || tree_view(b.left).contains_key(k)
            || tree_view(b.right).contains_key(k),
        b.node@.contains_key(k) ==> branch_view(b)[k] == b.node@[k],
        !b.node@.contains_key(k) && goes_left(k, bit) ==> (branch_view(b).contains_key(k) <==> tree_view(
            b.left,
        ).contains_key(k)) && (tree_view(b.left).contains_key(k) ==> branch_view(b)[k] == tree_view(b.left)[k]),
        !b.node@.contains_key(k) && !goes_left(k, bit) ==> (branch_view(b).contains_key(k) <==> tree_view(
            b.right,
        ).contains_key(k)) && (tree_view(b.right).contains_key(k) ==> branch_view(b)[k] == tree_view(b.right)[k]),
        tree_view(b.left).contains_key(k) ==> branch_view(b)[k] == tree_view(b.left)[k],
        tree_view(b.right).contains_key(k) ==> branch_view(b)[k] == tree_view(b.right)[k],
{
    if tree_view(b.left).contains_key(k) {
        assert(goes_left(k, bit));
        assert(!tree_view(b.right).contains_key(k));
    }
}

/// A node whose table stays and whose subtrees each lose entries, or gain the one key
/// `k` on the side its hash bit picks while the table lacks it, stays well formed, as
/// long as it keeps its table full when it keeps a subtree.
proof fn lemma_branch_children<K: StableKey, V>(b0: HashTreeBranch<K, V>, b: HashTreeBranch<K, V>, bit: u64, k: K)
    requires
        wf_branch(b0, bit),
        b.node.wf(),
        b.node@ == b0.node@,
        b.node.spec_capacity() == b0.node.spec_capacity(),
        wf_tree(b.left, next_bit(bit)),
        wf_tree(b.right, next_bit(bit)),
        forall|k2: K| #[trigger] tree_view(b.left).contains_key(k2) ==> tree_view(b0.left).contains_key(k2) || (k2 == k
            && goes_left(k, bit) && !b0.node@.contains_key(k)),
        forall|k2: K| #[trigger] tree_view(b.right).contains_key(k2) ==> tree_view(b0.right).contains_key(k2) || (k2 == k
            && !goes_left(k, bit) && !b0.node@.contains_key(k)),
        (b.left is Some || b.right is Some) ==> b0.node@.len() == node_full_len(DEFAULT_CAPACITY as nat),
    ensures
        wf_branch(b, bit),
{
    assert forall|k2: K| #[trigger] b.node@.contains_key(k2) implies !tree_view(b.left).contains_key(k2)
        && !tree_view(b.right).contains_key(k2) by {
        assert(!tree_view(b0.left).contains_key(k2));
        assert(!tree_view(b0.right).contains_key(k2));
    }
}

/// Whether `key_hash` sends its key to the left subtree at the level that reads bit `bit`.
pub fn should_go_left(key_hash: u64, bit: u64) -> (r: bool)
    requires
        bit < 64,
    ensures
        r == ((key_hash >> bit) & 1u64 == 1u64),
{
    (key_hash >> bit) & 1 == 1
}

/// The hash bit the next level reads.
fn next_level(bit: u64) -> (r: u64)
    requires
        bit < 64,
    ensures
        r == next_bit(bit),
        r < 64,
{
    if bit >= 63 {
        0
    } else {
        bit + 1
    }
}

/// Whether `key` has an entry under `t`.
fn contains_rec<K: StableKey, V>(t: &Option<Box<HashTreeBranch<K, V>>>, key: &K, bit: u64) -> (r: bool)
    requires
        wf_tree(*t, bit),
        bit < 64,
    ensures
        r == tree_view(*t).contains_key(*key),
    decreases t,
{
    match t {
        None => false,
        Some(b) => {
            proof {
                lemma_branch_parts(**b, bit, *key);
            }
            let cap = b.node.read_capacity();
            match b.node.find_inner_idx(key, cap) {
                Some(_) => true,
                None => {
                    let nb = next_level(bit);
                    if should_go_left(key.key_hash(), bit) {
                        contains_rec(&b.left, key, nb)
                    } else {
                        contains_rec(&b.right, key, nb)
                    }
                },
            }
        },
    }
}

/// A copy of the value of `key` under `t`, if any.
fn get_copy_rec<K: StableKey, V: Copy>(t: &Option<Box<HashTreeBranch<K, V>>>, key: &K, bit: u64) -> (r: Option<V>)
    requires
        wf_tree(*t, bit),
        bit < 64,
    ensures
        r == (if tree_view(*t).contains_key(*key) { Some(tree_view(*t)[*key]) } else { None }),
    decreases t,
{
    match t {
        None => None,
        Some(b) => {
            proof {
                lemma_branch_parts(**b, bit, *key);
            }
            let cap = b.node.read_capacity();
            match b.node.find_inner_idx(key, cap) {
                Some((i, _)) => Some(b.node.read_val_at(i, cap)),
                None => {
                    let nb = next_level(bit);
                    if should_go_left(key.key_hash(), bit) {
                        get_copy_rec(&b.left, key, nb)
                    } else {
                        get_copy_rec(&b.right, key, nb)
                    }
                },
            }
        },
    }
}

/// Inserts `value` by `key` under `t`; returns the value `key` had there, if any.
fn insert_rec<K: StableKey, V>(t: &mut Option<Box<HashTreeBranch<K, V>>>, key: K, value: V, bit: u64) -> (r: Option<V>)
    requires
        wf_tree(*old(t), bit),
        bit < 64,
    ensures
        wf_tree(*final(t), bit),
        tree_view(*final(t)) == tree_view(*old(t)).insert(key, value),
        r == (if tree_view(*old(t)).contains_key(key) { Some(tree_view(*old(t))[key]) } else { None }),
        final(t).is_some(),
    decreases *old(t),
{
    match t.take() {
        None => {
            let mut node = SHashTreeNode::<K, V>::default();
            let cap = node.read_capacity();
            let _ = node.insert(key, value, cap);
            let b = HashTreeBranch { node, left: None, right: None };
            proof {
                assert(b.node@ =~= Map::<K, V>::empty().insert(key, value));
                assert(b.node@.dom() =~= Set::<K>::empty().insert(key));
                assert(b.node@.len() == 1);
                assert(wf_branch(b, bit));
                assert(tree_view(b.left) =~= Map::<K, V>::empty());
                assert(tree_view(b.right) =~= Map::<K, V>::empty());
                assert(branch_view(b) =~= Map::<K, V>::empty().insert(key, value));
            }
            *t = Some(Box::new(b));
            None
        },
        Some(mut b) => {
            let ghost b0 = *b;
            proof {
                lemma_branch_parts(b0, bit, key);
                b0.node.lemma_len();
            }
            let cap = b.node.read_capacity();
            match b.node.insert(key, value, cap) {
                Ok((prev, _, _)) => {
                    proof {
                        assert(!tree_view(b.left).contains_key(key));
                        assert(!tree_view(b.right).contains_key(key));
                        assert(branch_view(*b) =~= branch_view(b0).insert(key, value));
                        b.node.lemma_len();
                        if b0.node@.contains_key(key) {
                            assert(b.node@.dom() =~= b0.node@.dom());
                        } else {
                            assert(b.node@.dom() =~= b0.node@.dom().insert(key));
                        }
                        assert(wf_branch(*b, bit));
                    }
                    *t = Some(b);
                    prev
                },
                Err((k, v)) => {
                    let nb = next_level(bit);
                    let go_left = should_go_left(k.key_hash(), bit);
                    let r = if go_left {
                        insert_rec(&mut b.left, k, v, nb)
                    } else {
                        insert_rec(&mut b.right, k, v, nb)
                    };
                    proof {
                        lemma_branch_children(b0, *b, bit, key);
                        assert(branch_view(*b) =~= branch_view(b0).insert(key, value));
                    }
                    *t = Some(b);
                    r
                },
            }
        },
    }
}

/// Removes an entry from the deepest node down the path that the hash bits of `key`
/// pick (the other subtree where the picked one is missing) and returns it.
fn take_any<K: StableKey, V>(t: &mut Option<Box<HashTreeBranch<K, V>>>, key: &K, bit: u64) -> (r: (K, V))
    requires
        wf_tree(*old(t), bit),
        old(t).is_some(),
        bit < 64,
    ensures
        wf_tree(*final(t), bit),
        tree_view(*old(t)).contains_key(r.0),
        tree_view(*old(t))[r.0] == r.1,
        tree_view(*final(t)) == tree_view(*old(t)).remove(r.0),
    decreases *old(t),
{
    let mut b = t.take().unwrap();
    let ghost b0 = *b;
    if b.left.is_some() || b.right.is_some() {
        let go_left = should_go_left(key.key_hash(), bit);
        let nb = next_level(bit);
        let r = if (go_left && b.left.is_some()) || b.right.is_none() {
            take_any(&mut b.left, key, nb)
        } else {
            take_any(&mut b.right, key, nb)
        };
        proof {
            lemma_branch_parts(b0, bit, r.0);
            lemma_branch_children(b0, *b, bit, r.0);
            assert(branch_view(*b) =~= branch_view(b0).remove(r.0));
        }
        *t = Some(b);
        r
    } else {
        let cap = b.node.read_capacity();
        proof {
            b.node.lemma_slots();
            b.node.lemma_len();
            assert(exists|k: K| b.node@.contains_key(k)) by {
                if !(exists|k: K| b.node@.contains_key(k)) {
                    assert(b.node@.dom() =~= Set::<K>::empty());
                }
            }
            let k0 = choose|k: K| b.node@.contains_key(k);
            let x0 = choose|x: int| 0 <= x < b.node.slots().len() && b.node.slots()[x] is Some && b.node.slots()[x].unwrap().0 == k0;
            assert(b.node.slots()[x0] is Some);
        }
        let mut i: usize = 0;
        while b.node.read_key_at(i).is_none()
            invariant
                i < cap,
                cap == b.node.spec_capacity(),
                b.node.slots().len() == cap,
                exists|x: int| i <= x < cap && #[trigger] b.node.slots()[x] is Some,
            decreases cap - i,
        {
            i = i + 1;
        }
        proof {
            b.node.lemma_slots();
        }
        let k = match b.node.read_key_at(i) {
            Some(k) => k,
            None => *key,
        };
        let v = b.node.remove_by_idx(i, cap);
        proof {
            lemma_branch_parts(b0, bit, k);
            assert(tree_view(b.left) =~= Map::<K, V>::empty());
            assert(tree_view(b.right) =~= Map::<K, V>::empty());
            assert(branch_view(*b) =~= branch_view(b0).remove(k));
        }
        if b.node.len() > 0 {
            proof {
                assert(wf_branch(*b, bit));
            }
            *t = Some(b);
        } else {
            proof {
                assert(tree_view(*t) =~= branch_view(b0).remove(k));
            }
        }
        (k, v)
    }
}

/// Removes `key` from under `t`; returns the value it had there, if any.
fn remove_rec<K: StableKey, V>(t: &mut Option<Box<HashTreeBranch<K, V>>>, key: &K, bit: u64) -> (r: Option<V>)
    requires
        wf_tree(*old(t), bit),
        bit < 64,
    ensures
        wf_tree(*final(t), bit),
        tree_view(*final(t)) == tree_view(*old(t)).remove(*key),
        r == (if tree_view(*old(t)).contains_key(*key) { Some(tree_view(*old(t))[*key]) } else { None }),
        final(t).is_some() ==> old(t).is_some(),
    decreases *old(t),
{
    match t.take() {
        None => {
            proof {
                assert(tree_view(*t) =~= tree_view(*t).remove(*key));
            }
            None
        },
        Some(mut b) => {
            let ghost b0 = *b;
            proof {
                lemma_branch_parts(b0, bit, *key);
                b0.node.lemma_len();
            }
            let cap = b.node.read_capacity();
            match b.node.find_inner_idx(key, cap) {
                Some((i, _)) => {
                    let v = b.node.remove_by_idx(i, cap);
                    if b.left.is_some() || b.right.is_some() {
                        let go_left = should_go_left(key.key_hash(), bit);
                        let nb = next_level(bit);
                        let ghost b1 = *b;
                        let (rk, rv) = if (go_left && b.left.is_some()) || b.right.is_none() {
                            take_any(&mut b.left, key, nb)
                        } else {
                            take_any(&mut b.right, key, nb)
                        };
                        proof {
                            b1.node.lemma_len();
                            lemma_branch_parts(b0, bit, rk);
                        }
                        let _ = b.node.insert(rk, rv, cap);
                        proof {
                            b.node.lemma_len();
                            assert(branch_view(*b) =~= branch_view(b0).remove(*key));
                            assert(wf_branch(*b, bit));
                        }
                        *t = Some(b);
                    } else {
                        proof {
                            assert(tree_view(b.left) =~= Map::<K, V>::empty());
                            assert(tree_view(b.right) =~= Map::<K, V>::empty());
                            assert(branch_view(*b) =~= branch_view(b0).remove(*key));
                        }
                        if b.node.len() > 0 {
                            proof {
                                assert(wf_branch(*b, bit));
                            }
                            *t = Some(b);
                        } else {
                            proof {
                                assert(tree_view(*t) =~= branch_view(b0).remove(*key));
                            }
                        }
                    }
                    Some(v)
                },
                None => {
                    let nb = next_level(bit);
                    let r = if should_go_left(key.key_hash(), bit) {
                        remove_rec(&mut b.left, key, nb)
                    } else {
                        remove_rec(&mut b.right, key, nb)
                    };
                    proof {
                        lemma_branch_children(b0, *b, bit, *key);
                        assert(branch_view(*b) =~= branch_view(b0).remove(*key));
                    }
                    *t = Some(b);
                    r
                },
            }
        },
    }
}

/// A hash map kept as a binary tree of small hash tables (see the module's doc).
pub struct SHashTreeMap<K, V> {
    root: Option<Box<HashTreeBranch<K, V>>>,
    len: u64,
}

impl<K: StableKey, V> View for SHashTreeMap<K, V> {
    type V = Map<K, V>;

    closed spec fn view(&self) -> Map<K, V> {
        tree_view(self.root)
    }
}

impl<K: StableKey, V> SHashTreeMap<K, V> {
    pub closed spec fn wf(&self) -> bool {
        &&& wf_tree(self.root, 0)
        &&& self.len == tree_view(self.root).len()
    }

    /// The entries of a well-formed map are finitely many.
    pub proof fn lemma_finite(&self)
        requires
            self.wf(),
        ensures
            self@.dom().finite(),
    {
        lemma_tree_finite(self.root, 0);
    }

    /// An empty map.
    pub fn new() -> (r: Self)
        ensures
            r.wf(),
            r@ == Map::<K, V>::empty(),
    {
        let r = SHashTreeMap { root: None, len: 0 };
        proof {
            assert(r@ =~= Map::<K, V>::empty());
        }
        r
    }

    /// The number of entries.
    pub fn len(&self) -> (r: u64)
        requires
            self.wf(),
        ensures
            r == self@.len(),
    {
        self.len
    }

    /// Whether the map has no entries.
    pub fn is_empty(&self) -> (r: bool)
        requires
            self.wf(),
        ensures
            r == (self@.len() == 0),
    {
        self.len == 0
    }

    /// Inserts `value` by `key`; returns the value `key` had before, if any.
    pub fn insert(&mut self, key: K, value: V) -> (r: Option<V>)
        requires
            old(self).wf(),
            old(self)@.len() < u64::MAX,
        ensures
            final(self).wf(),
            final(self)@ == old(self)@.insert(key, value),
            r == (if old(self)@.contains_key(key) { Some(old(self)@[key]) } else { None }),
    {
        proof {
            lemma_tree_finite(self.root, 0);
        }
        let r = insert_rec(&mut self.root, key, value, 0);
        if r.is_none() {
            self.len = self.len + 1;
        }
        r
    }

    /// Removes `key`; returns the value it had, if any.
    pub fn remove(&mut self, key: &K) -> (r: Option<V>)
        requires
            old(self).wf(),
        ensures
            final(self).wf(),
            final(self)@ == old(self)@.remove(*key),
            r == (if old(self)@.contains_key(*key) { Some(old(self)@[*key]) } else { None }),
    {
        proof {
            lemma_tree_finite(self.root, 0);
        }
        if self.len == 0 {
            proof {
                assert(self@.dom() =~= Set::<K>::empty());
                assert(self@.remove(*key) =~= self@);
            }
            return None;
        }
        let r = remove_rec(&mut self.root, key, 0);
        if r.is_some() {
            self.len = self.len - 1;
        }
        r
    }

    /// Whether `key` has an entry.
    pub fn contains_key(&self, key: &K) -> (r: bool)
        requires
            self.wf(),
        ensures
            r == self@.contains_key(*key),
    {
        if self.len == 0 {
            proof {
                lemma_tree_finite(self.root, 0);
                assert(self@.dom() =~= Set::<K>::empty());
            }
            return false;
        }
        contains_rec(&self.root, key, 0)
    }
}

impl<K: StableKey, V: Copy> SHashTreeMap<K, V> {
    /// A copy of the value of `key`, if any.
    pub fn get_copy(&self, key: &K) -> (r: Option<V>)
        requires
            self.wf(),
        ensures
            r == (if self@.contains_key(*key) { Some(self@[*key]) } else { None }),
    {
        if self.len == 0 {
            proof {
                lemma_tree_finite(self.root, 0);
                assert(self@.dom() =~= Set::<K>::empty());
            }
            return None;
        }
        get_copy_rec(&self.root, key, 0)
    }
}

impl<K: StableKey, V> Default for SHashTreeMap<K, V> {
    fn default() -> (r: Self)
        ensures
            r.wf(),
            r@ == Map::<K, V>::empty(),
    {
        Self::new()
    }
}

} // verus!
