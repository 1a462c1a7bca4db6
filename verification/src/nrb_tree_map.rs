//! `NRBTreeMap`: a search tree of `NRBTreeNode`s. A node keeps up to `CAPACITY` sorted
//! entries; an entry that does not fit is handed back with the side of the tree it
//! belongs to, and goes on down that side.
use vstd::prelude::*;
use crate::key::{KeyOrder, StableKey};
use crate::vec::sorted_by_key;

verus! {

/// How many entries a node holds.
pub const CAPACITY: usize = 11;

/// `CAPACITY / 2`: a new entry that lands before this slot of a full node pushes out the
/// first entry, one that lands at or after it pushes out the last.
pub const MID_ELEM_IDX: usize = 5;

/// How many keys of `s` are below `k`: the slot where `k` goes in a sorted `s`.
pub open spec fn rank<K: StableKey>(s: Seq<K>, k: K) -> nat
    decreases s.len(),
{
    if s.len() == 0 {
        0
    } else {
        rank(s.drop_last(), k) + if s.last().key_int() < k.key_int() { 1nat } else { 0nat }
    }
}

/// In a sequence split at `i` into keys below `k` and keys above it, `k` ranks `i`.
pub proof fn lemma_rank<K: StableKey>(s: Seq<K>, k: K, i: int)
    requires
        0 <= i <= s.len(),
        forall|j: int| 0 <= j < i ==> #[trigger] s[j].key_int() < k.key_int(),
        forall|j: int| i <= j < s.len() ==> #[trigger] s[j].key_int() > k.key_int(),
    ensures
        rank(s, k) == i,
    decreases s.len(),
{
    if s.len() > 0 {
        let p = s.drop_last();
        if i == s.len() {
            assert(s.last().key_int() < k.key_int());
            lemma_rank(p, k, i - 1);
        } else {
            assert(s.last().key_int() > k.key_int());
            lemma_rank(p, k, i);
        }
    }
}

/// The slot of `k` in `s`, where `s` holds it.
pub open spec fn key_pos<K>(s: Seq<K>, k: K) -> int {
    choose|i: int| 0 <= i < s.len() && s[i] == k
}

/// The answer for a key that is not in a node with keys `s`: `Err(true)` below all
/// keys, `Err(false)` above all keys of a non-empty node, `Ok(None)` between them.
pub open spec fn miss<K: StableKey, V>(s: Seq<K>, k: K) -> Result<Option<V>, bool> {
    if rank(s, k) == 0 {
        Err(true)
    } else if rank(s, k) == s.len() {
        Err(false)
    } else {
        Ok(None)
    }
}

/// A lookup of `k` in a node with keys `s` and values `vs`.
pub open spec fn node_get<K: StableKey, V>(s: Seq<K>, vs: Seq<V>, k: K) -> Result<Option<V>, bool> {
    if s.contains(k) {
        Ok(Some(vs[key_pos(s, k)]))
    } else {
        miss(s, k)
    }
}

/// The keys, values and answer after `v` is put under `k` in a node with keys `s` and
/// values `vs`: see `NRBTreeNode::insert`.
pub open spec fn node_insert<K: StableKey, V>(s: Seq<K>, vs: Seq<V>, k: K, v: V) -> (
    Seq<K>,
    Seq<V>,
    Result<Option<V>, (K, V, bool)>,
) {
    let n = s.len() as int;
    let p = rank(s, k) as int;
    if s.contains(k) {
        (s, vs.update(key_pos(s, k), v), Ok(Some(vs[key_pos(s, k)])))
    } else if n < CAPACITY {
        (s.insert(p, k), vs.insert(p, v), Ok(None))
    } else if p == 0 {
        (s, vs, Err((k, v, true)))
    } else if p == n {
        (s, vs, Err((k, v, false)))
    } else if p < MID_ELEM_IDX {
        (s.insert(p, k).subrange(1, n + 1), vs.insert(p, v).subrange(1, n + 1), Err((s[0], vs[0], true)))
    } else {
        (s.insert(p, k).subrange(0, n), vs.insert(p, v).subrange(0, n), Err((s[n - 1], vs[n - 1], false)))
    }
}

/// The keys, values and answer after `k` is taken out of a node with keys `s` and
/// values `vs`: see `NRBTreeNode::remove`.
pub open spec fn node_remove<K: StableKey, V>(s: Seq<K>, vs: Seq<V>, k: K) -> (
    Seq<K>,
    Seq<V>,
    Result<Option<V>, bool>,
) {
    if s.contains(k) {
        (s.remove(key_pos(s, k)), vs.remove(key_pos(s, k)), Ok(Some(vs[key_pos(s, k)])))
    } else {
        (s, vs, miss(s, k))
    }
}

/// `k` put into its slot `p` of a sorted `s` keeps it sorted.
proof fn lemma_insert_sorted<K: StableKey>(s: Seq<K>, k: K, p: int)
    requires
        sorted_by_key(s),
        0 <= p <= s.len(),
        forall|j: int| 0 <= j < p ==> #[trigger] s[j].key_int() < k.key_int(),
        forall|j: int| p <= j < s.len() ==> #[trigger] s[j].key_int() > k.key_int(),
    ensures
        sorted_by_key(s.insert(p, k)),
{
    let t = s.insert(p, k);
    assert forall|i: int, j: int| 0 <= i < j < t.len() implies t[i].key_int() < t[j].key_int() by {
        if j < p {
        } else if j == p {
            assert(t[i] == s[i]);
        } else if i < p {
            assert(t[j] == s[j - 1]);
            assert(s[i].key_int() < k.key_int());
        } else if i == p {
            assert(t[j] == s[j - 1]);
        } else {
            assert(t[i] == s[i - 1] && t[j] == s[j - 1]);
        }
    }
}

/// A slice of a sorted sequence is sorted.
proof fn lemma_sub_sorted<K: StableKey>(s: Seq<K>, a: int, b: int)
    requires
        sorted_by_key(s),
        0 <= a <= b <= s.len(),
    ensures
        sorted_by_key(s.subrange(a, b)),
{
    let t = s.subrange(a, b);
    assert forall|i: int, j: int| 0 <= i < j < t.len() implies t[i].key_int() < t[j].key_int() by {
        assert(t[i] == s[a + i] && t[j] == s[a + j]);
    }
}

/// A node: sorted keys with their values, the links to its parent and children, and
/// its colour.
pub struct NRBTreeNode<K, V> {
    keys: Vec<K>,
    values: Vec<V>,
    parent: u64,
    left: u64,
    right: u64,
    is_black: bool,
    is_left_child: bool,
}

impl<K: StableKey, V: Copy> NRBTreeNode<K, V> {
    pub closed spec fn keys_view(&self) -> Seq<K> {
        self.keys@
    }

    pub closed spec fn values_view(&self) -> Seq<V> {
        self.values@
    }

    /// As many values as keys, at most `CAPACITY`, keys strictly increasing.
    pub closed spec fn wf(&self) -> bool {
        &&& self.keys@.len() == self.values@.len()
        &&& self.keys@.len() <= CAPACITY
        &&& sorted_by_key(self.keys@)
    }

    /// What `wf` says, in terms of the views.
    pub proof fn lemma_node_wf(&self)
        requires
            self.wf(),
        ensures
            self.keys_view().len() == self.values_view().len(),
            self.keys_view().len() <= CAPACITY,
            sorted_by_key(self.keys_view()),
    {
    }

    pub closed spec fn spec_parent(&self) -> u64 {
        self.parent
    }

    pub closed spec fn spec_left(&self) -> u64 {
        self.left
    }

    pub closed spec fn spec_right(&self) -> u64 {
        self.right
    }

    pub closed spec fn spec_is_black(&self) -> bool {
        self.is_black
    }

    pub closed spec fn spec_is_left_child(&self) -> bool {
        self.is_left_child
    }

    /// An empty red node with no links.
    pub fn new() -> (r: Self)
        ensures
            r.wf(),
            r.keys_view() == Seq::<K>::empty(),
            r.values_view() == Seq::<V>::empty(),
            r.spec_parent() == 0 && r.spec_left() == 0 && r.spec_right() == 0,
            !r.spec_is_black() && !r.spec_is_left_child(),
    {
        NRBTreeNode {
            keys: Vec::new(),
            values: Vec::new(),
            parent: 0,
            left: 0,
            right: 0,
            is_black: false,
            is_left_child: false,
        }
    }

    pub fn set_parent(&mut self, it: u64)
        ensures
            final(self).spec_parent() == it,
            final(self).spec_left() == old(self).spec_left(),
            final(self).spec_right() == old(self).spec_right(),
            final(self).spec_is_black() == old(self).spec_is_black(),
            final(self).spec_is_left_child() == old(self).spec_is_left_child(),
            final(self).keys_view() == old(self).keys_view(),
            final(self).values_view() == old(self).values_view(),
            final(self).wf() == old(self).wf(),
    {
        self.parent = it;
    }

    pub fn get_parent(&self) -> (r: u64)
        ensures
            r == self.spec_parent(),
    {
        self.parent
    }

    pub fn set_left(&mut self, it: u64)
        ensures
            final(self).spec_left() == it,
            final(self).spec_parent() == old(self).spec_parent(),
            final(self).spec_right() == old(self).spec_right(),
            final(self).spec_is_black() == old(self).spec_is_black(),
            final(self).spec_is_left_child() == old(self).spec_is_left_child(),
            final(self).keys_view() == old(self).keys_view(),
            final(self).values_view() == old(self).values_view(),
            final(self).wf() == old(self).wf(),
    {
        self.left = it;
    }

    pub fn get_left(&self) -> (r: u64)
        ensures
            r == self.spec_left(),
    {
        self.left
    }

    pub fn set_right(&mut self, it: u64)
        ensures
            final(self).spec_right() == it,
            final(self).spec_parent() == old(self).spec_parent(),
            final(self).spec_left() == old(self).spec_left(),
            final(self).spec_is_black() == old(self).spec_is_black(),
            final(self).spec_is_left_child() == old(self).spec_is_left_child(),
            final(self).keys_view() == old(self).keys_view(),
            final(self).values_view() == old(self).values_view(),
            final(self).wf() == old(self).wf(),
    {
        self.right = it;
    }

    pub fn get_right(&self) -> (r: u64)
        ensures
            r == self.spec_right(),
    {
        self.right
    }

    pub fn is_black(&self) -> (r: bool)
        ensures
            r == self.spec_is_black(),
    {
        self.is_black
    }

    pub fn set_is_black(&mut self, it: bool)
        ensures
            final(self).spec_is_black() == it,
            final(self).spec_parent() == old(self).spec_parent(),
            final(self).spec_left() == old(self).spec_left(),
            final(self).spec_right() == old(self).spec_right(),
            final(self).spec_is_left_child() == old(self).spec_is_left_child(),
            final(self).keys_view() == old(self).keys_view(),
            final(self).values_view() == old(self).values_view(),
            final(self).wf() == old(self).wf(),
    {
        self.is_black = it;
    }

    pub fn is_left_child(&self) -> (r: bool)
        ensures
            r == self.spec_is_left_child(),
    {
        self.is_left_child
    }

    pub fn set_is_left_child(&mut self, it: bool)
        ensures
            final(self).spec_is_left_child() == it,
            final(self).spec_parent() == old(self).spec_parent(),
            final(self).spec_left() == old(self).spec_left(),
            final(self).spec_right() == old(self).spec_right(),
            final(self).spec_is_black() == old(self).spec_is_black(),
            final(self).keys_view() == old(self).keys_view(),
            final(self).values_view() == old(self).values_view(),
            final(self).wf() == old(self).wf(),
    {
        self.is_left_child = it;
    }

    /// The number of entries.
    pub fn len(&self) -> (r: usize)
        ensures
            r == self.keys_view().len(),
    {
        self.keys.len()
    }

    /// Puts `v` under `k`. A key already there gets the new value and its old value comes
    /// back. A new key goes into its slot while the node has room. In a full node, a key
    /// below or above all keys comes back with the side it belongs to (`true` for the
    /// left); otherwise it goes in and the first entry (when its slot is before
    /// `MID_ELEM_IDX`) or the last entry comes out, with its side.
    pub fn insert(&mut self, k: K, v: V) -> (r: Result<Option<V>, (K, V, bool)>)
        requires
            old(self).wf(),
        ensures
            final(self).wf(),
            final(self).spec_parent() == old(self).spec_parent(),
            final(self).spec_left() == old(self).spec_left(),
            final(self).spec_right() == old(self).spec_right(),
            final(self).spec_is_black() == old(self).spec_is_black(),
            final(self).spec_is_left_child() == old(self).spec_is_left_child(),
            (final(self).keys_view(), final(self).values_view(), r) == node_insert(
                old(self).keys_view(),
                old(self).values_view(),
                k,
                v,
            ),
    {
        let len = self.keys.len();
        let ghost s = self.keys@;
        let ghost vs = self.values@;
        match self.find_idx(&k, len) {
            Ok(idx) => {
                proof {
                    assert forall|i: int| 0 <= i < len && s[i] == k implies i == idx by {
                        if i < idx {
                            assert(s[i].key_int() < s[idx as int].key_int());
                        } else if i > idx {
                            assert(s[idx as int].key_int() < s[i].key_int());
                        }
                    }
                }
                let old_v = self.values[idx];
                self.values.set(idx, v);
                Ok(Some(old_v))
            },
            Err(idx) => {
                proof {
                    lemma_insert_sorted(s, k, idx as int);
                }
                if len < CAPACITY {
                    self.keys.insert(idx, k);
                    self.values.insert(idx, v);
                    return Ok(None);
                }
                if idx == 0 {
                    return Err((k, v, true));
                }
                if idx == len {
                    return Err((k, v, false));
                }
                if idx < MID_ELEM_IDX {
                    let old_k = self.keys.remove(0);
                    let old_v = self.values.remove(0);
                    self.keys.insert(idx - 1, k);
                    self.values.insert(idx - 1, v);
                    proof {
                        assert(self.keys@ =~= s.insert(idx as int, k).subrange(1, len + 1));
                        assert(self.values@ =~= vs.insert(idx as int, v).subrange(1, len + 1));
                        lemma_sub_sorted(s.insert(idx as int, k), 1, len + 1);
                    }
                    return Err((old_k, old_v, true));
                }
                let old_k = self.keys.pop().unwrap();
                let old_v = self.values.pop().unwrap();
                self.keys.insert(idx, k);
                self.values.insert(idx, v);
                proof {
                    assert(self.keys@ =~= s.insert(idx as int, k).subrange(0, len as int));
                    assert(self.values@ =~= vs.insert(idx as int, v).subrange(0, len as int));
                    lemma_sub_sorted(s.insert(idx as int, k), 0, len as int);
                }
                Err((old_k, old_v, false))
            },
        }
    }

    /// Takes out the entry under `k` and gives back its value. Where `k` is not there, a
    /// key below all keys gives `Err(true)`, one above all keys `Err(false)`, and one
    /// between them `Ok(None)`.
    pub fn remove(&mut self, k: &K) -> (r: Result<Option<V>, bool>)
        requires
            old(self).wf(),
        ensures
            final(self).wf(),
            final(self).spec_parent() == old(self).spec_parent(),
            final(self).spec_left() == old(self).spec_left(),
            final(self).spec_right() == old(self).spec_right(),
            final(self).spec_is_black() == old(self).spec_is_black(),
            final(self).spec_is_left_child() == old(self).spec_is_left_child(),
            (final(self).keys_view(), final(self).values_view(), r) == node_remove(
                old(self).keys_view(),
                old(self).values_view(),
                *k,
            ),
    {
        let len = self.keys.len();
        let ghost s = self.keys@;
        match self.find_idx(k, len) {
            Ok(idx) => {
                proof {
                    assert forall|i: int| 0 <= i < len && s[i] == *k implies i == idx by {
                        if i < idx {
                            assert(s[i].key_int() < s[idx as int].key_int());
                        } else if i > idx {
                            assert(s[idx as int].key_int() < s[i].key_int());
                        }
                    }
                    assert forall|i: int, j: int| 0 <= i < j < s.remove(idx as int).len() implies #[trigger] s.remove(idx as int)[i].key_int()
                        < #[trigger] s.remove(idx as int)[j].key_int() by {
                        let t = s.remove(idx as int);
                        if j < idx {
                        } else if i < idx {
                            assert(t[j] == s[j + 1]);
                        } else {
                            assert(t[i] == s[i + 1] && t[j] == s[j + 1]);
                        }
                    }
                }
                self.keys.remove(idx);
                let v = self.values.remove(idx);
                Ok(Some(v))
            },
            Err(idx) => {
                if idx == 0 {
                    return Err(true);
                }
                if idx == len {
                    return Err(false);
                }
                Ok(None)
            },
        }
    }

    /// Whether `k` is there, or, where it is not, its side as for `remove`.
    pub fn contains_key(&self, k: &K) -> (r: Result<bool, bool>)
        requires
            self.wf(),
        ensures
            self.keys_view().contains(*k) ==> r == Ok::<bool, bool>(true),
            !self.keys_view().contains(*k) ==> r == (match miss::<K, V>(self.keys_view(), *k) {
                Ok(_) => Ok::<bool, bool>(false),
                Err(b) => Err::<bool, bool>(b),
            }),
    {
        let len = self.keys.len();
        match self.find_idx(k, len) {
            Ok(_) => Ok(true),
            Err(idx) => {
                if idx == 0 {
                    return Err(true);
                }
                if idx == len {
                    return Err(false);
                }
                Ok(false)
            },
        }
    }

    /// The value under `k`, or, where it is not there, its side as for `remove`.
    pub fn get(&self, k: &K) -> (r: Result<Option<V>, bool>)
        requires
            self.wf(),
        ensures
            r == node_get(self.keys_view(), self.values_view(), *k),
    {
        let len = self.keys.len();
        let ghost s = self.keys@;
        match self.find_idx(k, len) {
            Ok(idx) => {
                proof {
                    assert forall|i: int| 0 <= i < len && s[i] == *k implies i == idx by {
                        if i < idx {
                            assert(s[i].key_int() < s[idx as int].key_int());
                        } else if i > idx {
                            assert(s[idx as int].key_int() < s[i].key_int());
                        }
                    }
                }
                Ok(Some(self.values[idx]))
            },
            Err(idx) => {
                if idx == 0 {
                    return Err(true);
                }
                if idx == len {
                    return Err(false);
                }
                Ok(None)
            },
        }
    }

    /// Binary search for `k` among the first `len` keys.
    fn find_idx(&self, k: &K, len: usize) -> (r: Result<usize, usize>)
        requires
            self.wf(),
            len == self.keys_view().len(),
        ensures
            r matches Ok(i) ==> i < len && self.keys_view()[i as int] == *k,
            r matches Err(i) ==> i == rank(self.keys_view(), *k) && !self.keys_view().contains(*k)
                && i <= len && (forall|j: int|
                0 <= j < i ==> #[trigger] self.keys_view()[j].key_int() < k.key_int()) && (forall|j: int|
                i <= j < len ==> #[trigger] self.keys_view()[j].key_int() > k.key_int()),
    {
        if len == 0 {
            proof {
                lemma_rank(self.keys@, *k, 0);
            }
            return Err(0);
        }
        let mut min: usize = 0;
        let mut max: usize = len;
        let mut mid: usize = (max - min) / 2;
        loop
            invariant
                len == self.keys@.len(),
                sorted_by_key(self.keys@),
                min <= mid < max <= len,
                mid == (max - min) / 2 + min,
                forall|j: int| 0 <= j < min ==> #[trigger] self.keys@[j].key_int() < k.key_int(),
                forall|j: int| max <= j < len ==> #[trigger] self.keys@[j].key_int() > k.key_int(),
            decreases max - min,
        {
            let key = self.keys[mid];
            match key.compare_key(k) {
                KeyOrder::Equal => {
                    proof {
                        K::lemma_key_int_injective(key, *k);
                    }
                    return Ok(mid);
                },
                KeyOrder::Greater => {
                    max = mid;
                    let new_mid = (max - min) / 2 + min;
                    if new_mid == mid {
                        proof {
                            lemma_rank(self.keys@, *k, mid as int);
                            assert forall|j: int| 0 <= j < len implies self.keys@[j] != *k by {
                                if j < mid {
                                } else {
                                    assert(self.keys@[j].key_int() > k.key_int());
                                }
                            }
                        }
                        return Err(mid);
                    }
                    mid = new_mid;
                },
                KeyOrder::Less => {
                    min = mid;
                    let new_mid = (max - min) / 2 + min;
                    if new_mid == mid {
                        proof {
                            assert(max == mid + 1);
                            lemma_rank(self.keys@, *k, mid + 1);
                            assert forall|j: int| 0 <= j < len implies self.keys@[j] != *k by {
                                if j <= mid {
                                    assert(self.keys@[j].key_int() < k.key_int());
                                } else {
                                    assert(self.keys@[j].key_int() > k.key_int());
                                }
                            }
                        }
                        return Err(mid + 1);
                    }
                    mid = new_mid;
                },
            }
        }
    }
}

/// What a tree of nodes holds: each node's keys and values, and its two subtrees.
pub enum NRBTreeView<K, V> {
    Empty,
    Node(Seq<K>, Seq<V>, Box<NRBTreeView<K, V>>, Box<NRBTreeView<K, V>>),
}

/// Every node has as many values as keys, at most `CAPACITY`, keys strictly increasing.
pub open spec fn view_wf<K: StableKey, V>(t: NRBTreeView<K, V>) -> bool
    decreases t,
{
    match t {
        NRBTreeView::Empty => true,
        NRBTreeView::Node(s, vs, l, r) => s.len() == vs.len() && s.len() <= CAPACITY && sorted_by_key(s)
            && view_wf(*l) && view_wf(*r),
    }
}

/// The value that a search for `k` finds: at each node, the key's value if the node
/// holds it; otherwise the search goes to the side that the node gives, and ends with
/// nothing between the node's keys or at a missing subtree.
pub open spec fn lookup<K: StableKey, V>(t: NRBTreeView<K, V>, k: K) -> Option<V>
    decreases t,
{
    match t {
        NRBTreeView::Empty => None,
        NRBTreeView::Node(s, vs, l, r) => match node_get(s, vs, k) {
            Ok(o) => o,
            Err(to_left) => if to_left {
                lookup(*l, k)
            } else {
                lookup(*r, k)
            },
        },
    }
}

/// The tree after `v` is put under `k`, and the value that was replaced: the entry goes
/// into the first node on its path that takes it, and an entry that a node hands back
/// goes on down the side it names; past the last node a new node takes it.
pub open spec fn insert_view<K: StableKey, V>(t: NRBTreeView<K, V>, k: K, v: V) -> (NRBTreeView<K, V>, Option<V>)
    decreases t,
{
    match t {
        NRBTreeView::Empty => {
            let (s2, vs2, _) = node_insert(Seq::<K>::empty(), Seq::<V>::empty(), k, v);
            (NRBTreeView::Node(s2, vs2, Box::new(NRBTreeView::Empty), Box::new(NRBTreeView::Empty)), None)
        },
        NRBTreeView::Node(s, vs, l, r) => {
            let (s2, vs2, res) = node_insert(s, vs, k, v);
            match res {
                Ok(o) => (NRBTreeView::Node(s2, vs2, l, r), o),
                Err((k2, v2, to_left)) => if to_left {
                    let (l2, o) = insert_view(*l, k2, v2);
                    (NRBTreeView::Node(s2, vs2, Box::new(l2), r), o)
                } else {
                    let (r2, o) = insert_view(*r, k2, v2);
                    (NRBTreeView::Node(s2, vs2, l, Box::new(r2)), o)
                },
            }
        },
    }
}

/// The tree after `k` is taken out along its search path, and the value it had there.
pub open spec fn remove_view<K: StableKey, V>(t: NRBTreeView<K, V>, k: K) -> (NRBTreeView<K, V>, Option<V>)
    decreases t,
{
    match t {
        NRBTreeView::Empty => (NRBTreeView::Empty, None),
        NRBTreeView::Node(s, vs, l, r) => {
            let (s2, vs2, res) = node_remove(s, vs, k);
            match res {
                Ok(o) => (NRBTreeView::Node(s2, vs2, l, r), o),
                Err(to_left) => if to_left {
                    let (l2, o) = remove_view(*l, k);
                    (NRBTreeView::Node(s, vs, Box::new(l2), r), o)
                } else {
                    let (r2, o) = remove_view(*r, k);
                    (NRBTreeView::Node(s, vs, l, Box::new(r2)), o)
                },
            }
        },
    }
}

/// In a sorted `s` without `k`, the keys before slot `rank(s, k)` are below `k` and
/// the others above it.
pub proof fn lemma_rank_split<K: StableKey>(s: Seq<K>, k: K)
    requires
        sorted_by_key(s),
        !s.contains(k),
    ensures
        rank(s, k) <= s.len(),
        forall|j: int| 0 <= j < rank(s, k) ==> #[trigger] s[j].key_int() < k.key_int(),
        forall|j: int| rank(s, k) <= j < s.len() ==> #[trigger] s[j].key_int() > k.key_int(),
    decreases s.len(),
{
    if s.len() > 0 {
        let p = s.drop_last();
        let n = s.len() - 1;
        assert(sorted_by_key(p)) by {
            assert forall|i: int, j: int| 0 <= i < j < p.len() implies p[i].key_int() < p[j].key_int() by {
                assert(p[i] == s[i] && p[j] == s[j]);
            }
        }
        assert(!p.contains(k)) by {
            if p.contains(k) {
                let j = choose|j: int| 0 <= j < p.len() && p[j] == k;
                assert(s[j] == k);
            }
        }
        lemma_rank_split(p, k);
        K::lemma_key_int_injective(s[n], k);
        assert(s[n] != k) by {
            if s[n] == k {
                assert(s.contains(k));
            }
        }
        if s[n].key_int() < k.key_int() {
            assert forall|j: int| 0 <= j < n implies #[trigger] s[j].key_int() < k.key_int() by {
                assert(s[j].key_int() < s[n].key_int());
            }
            if rank(p, k) < n {
                assert(p[rank(p, k) as int] == s[rank(p, k) as int]);
            }
            assert(rank(s, k) == n + 1);
        } else {
            assert(rank(s, k) == rank(p, k));
            assert forall|j: int| 0 <= j < rank(s, k) implies #[trigger] s[j].key_int() < k.key_int() by {
                assert(p[j] == s[j]);
            }
            assert forall|j: int| rank(s, k) <= j < s.len() implies #[trigger] s[j].key_int() > k.key_int() by {
                if j < n {
                    assert(p[j] == s[j]);
                }
            }
        }
    }
}

/// In a sorted `s`, the slot of a key it holds is the one `key_pos` names.
pub proof fn lemma_key_pos<K: StableKey>(s: Seq<K>, k: K, j: int)
    requires
        sorted_by_key(s),
        0 <= j < s.len(),
        s[j] == k,
    ensures
        s.contains(k),
        key_pos(s, k) == j,
{
    assert(s.contains(k));
    let i = key_pos(s, k);
    if i < j {
        assert(s[i].key_int() < s[j].key_int());
    } else if i > j {
        assert(s[j].key_int() < s[i].key_int());
    }
}

/// A search for `k` right after `v` was put under `k` finds `v`.
pub proof fn lemma_insert_then_lookup<K: StableKey, V>(t: NRBTreeView<K, V>, k: K, v: V)
    requires
        view_wf(t),
    ensures
        lookup(insert_view(t, k, v).0, k) == Some(v),
    decreases t,
{
    match t {
        NRBTreeView::Empty => {
            let s2 = Seq::<K>::empty().insert(0, k);
            lemma_rank::<K>(Seq::<K>::empty(), k, 0);
            assert(!Seq::<K>::empty().contains(k));
            lemma_key_pos(s2, k, 0);
        },
        NRBTreeView::Node(s, vs, l, r) => {
            let n = s.len() as int;
            if s.contains(k) {
                let i = choose|i: int| 0 <= i < s.len() && s[i] == k;
                lemma_key_pos(s, k, i);
            } else {
                lemma_rank_split(s, k);
                let p = rank(s, k) as int;
                lemma_insert_sorted(s, k, p);
                let t2 = s.insert(p, k);
                if n < CAPACITY {
                    lemma_key_pos(t2, k, p);
                } else if p == 0 {
                    lemma_insert_then_lookup(*l, k, v);
                } else if p == n {
                    lemma_insert_then_lookup(*r, k, v);
                } else if p < MID_ELEM_IDX {
                    lemma_sub_sorted(t2, 1, n + 1);
                    let t3 = t2.subrange(1, n + 1);
                    assert(t3[p - 1] == k);
                    lemma_key_pos(t3, k, p - 1);
                } else {
                    lemma_sub_sorted(t2, 0, n);
                    let t3 = t2.subrange(0, n);
                    assert(t3[p] == k);
                    lemma_key_pos(t3, k, p);
                }
            }
        },
    }
}

/// Taking `k` out gives back what a search for `k` finds: both follow the same path.
pub proof fn lemma_remove_gives_lookup<K: StableKey, V>(t: NRBTreeView<K, V>, k: K)
    ensures
        remove_view(t, k).1 == lookup(t, k),
    decreases t,
{
    match t {
        NRBTreeView::Empty => {},
        NRBTreeView::Node(s, vs, l, r) => {
            lemma_remove_gives_lookup(*l, k);
            lemma_remove_gives_lookup(*r, k);
        },
    }
}

/// A node of the map with its subtrees.
struct NRBBranch<K, V> {
    node: NRBTreeNode<K, V>,
    left: Option<Box<NRBBranch<K, V>>>,
    right: Option<Box<NRBBranch<K, V>>>,
}

/// A map kept in a search tree of nodes of up to `CAPACITY` sorted entries.
pub struct NRBTreeMap<K, V> {
    root: Option<Box<NRBBranch<K, V>>>,
}

spec fn branch_view<K: StableKey, V: Copy>(t: Option<Box<NRBBranch<K, V>>>) -> NRBTreeView<K, V>
    decreases t,
{
    match t {
        None => NRBTreeView::Empty,
        Some(b) => NRBTreeView::Node(
            b.node.keys_view(),
            b.node.values_view(),
            Box::new(branch_view(b.left)),
            Box::new(branch_view(b.right)),
        ),
    }
}

spec fn branch_wf<K: StableKey, V: Copy>(t: Option<Box<NRBBranch<K, V>>>) -> bool
    decreases t,
{
    match t {
        None => true,
        Some(b) => b.node.wf() && branch_wf(b.left) && branch_wf(b.right),
    }
}

impl<K: StableKey, V: Copy> View for NRBTreeMap<K, V> {
    type V = NRBTreeView<K, V>;

    closed spec fn view(&self) -> NRBTreeView<K, V> {
        branch_view(self.root)
    }
}

impl<K: StableKey, V: Copy> NRBTreeMap<K, V> {
    pub closed spec fn wf(&self) -> bool {
        branch_wf(self.root)
    }

    /// A well-formed map's nodes are well-formed.
    pub proof fn lemma_wf(&self)
        requires
            self.wf(),
        ensures
            view_wf(self@),
    {
        Self::lemma_branch_wf(self.root);
    }

    proof fn lemma_branch_wf(t: Option<Box<NRBBranch<K, V>>>)
        requires
            branch_wf(t),
        ensures
            view_wf(branch_view(t)),
        decreases t,
    {
        if let Some(b) = t {
            b.node.lemma_node_wf();
            Self::lemma_branch_wf(b.left);
            Self::lemma_branch_wf(b.right);
        }
    }

    /// An empty map.
    pub fn new() -> (r: Self)
        ensures
            r.wf(),
            r@ == NRBTreeView::<K, V>::Empty,
    {
        NRBTreeMap { root: None }
    }

    fn get_rec(t: &Option<Box<NRBBranch<K, V>>>, k: &K) -> (r: Option<V>)
        requires
            branch_wf(*t),
        ensures
            r == lookup(branch_view(*t), *k),
        decreases *t,
    {
        match t {
            None => None,
            Some(b) => match b.node.get(k) {
                Ok(o) => o,
                Err(to_left) => if to_left {
                    Self::get_rec(&b.left, k)
                } else {
                    Self::get_rec(&b.right, k)
                },
            },
        }
    }

    /// The value that a search for `k` finds.
    pub fn get_copy(&self, k: &K) -> (r: Option<V>)
        requires
            self.wf(),
        ensures
            r == lookup(self@, *k),
    {
        Self::get_rec(&self.root, k)
    }

    /// Whether a search for `k` finds it.
    pub fn contains_key(&self, k: &K) -> (r: bool)
        requires
            self.wf(),
        ensures
            r == lookup(self@, *k) is Some,
    {
        Self::get_rec(&self.root, k).is_some()
    }

    fn insert_rec(t: &mut Option<Box<NRBBranch<K, V>>>, k: K, v: V) -> (r: Option<V>)
        requires
            branch_wf(*old(t)),
        ensures
            branch_wf(*final(t)),
            (branch_view(*final(t)), r) == insert_view(branch_view(*old(t)), k, v),
        decreases *old(t),
    {
        match t.take() {
            None => {
                let mut node = NRBTreeNode::new();
                let _ = node.insert(k, v);
                *t = Some(Box::new(NRBBranch { node, left: None, right: None }));
                None
            },
            Some(b) => {
                let mut b = *b;
                let out = match b.node.insert(k, v) {
                    Ok(o) => o,
                    Err((k2, v2, to_left)) => if to_left {
                        Self::insert_rec(&mut b.left, k2, v2)
                    } else {
                        Self::insert_rec(&mut b.right, k2, v2)
                    },
                };
                *t = Some(Box::new(b));
                out
            },
        }
    }

    /// Puts `v` under `k` along its search path and gives back the value it replaced.
    pub fn insert(&mut self, k: K, v: V) -> (r: Option<V>)
        requires
            old(self).wf(),
        ensures
            final(self).wf(),
            (final(self)@, r) == insert_view(old(self)@, k, v),
    {
        Self::insert_rec(&mut self.root, k, v)
    }

    fn remove_rec(t: &mut Option<Box<NRBBranch<K, V>>>, k: &K) -> (r: Option<V>)
        requires
            branch_wf(*old(t)),
        ensures
            branch_wf(*final(t)),
            (branch_view(*final(t)), r) == remove_view(branch_view(*old(t)), *k),
        decreases *old(t),
    {
        match t.take() {
            None => None,
            Some(b) => {
                let mut b = *b;
                let out = match b.node.remove(k) {
                    Ok(o) => o,
                    Err(to_left) => if to_left {
                        Self::remove_rec(&mut b.left, k)
                    } else {
                        Self::remove_rec(&mut b.right, k)
                    },
                };
                *t = Some(Box::new(b));
                out
            },
        }
    }

    /// Takes `k` out along its search path and gives back its value.
    pub fn remove(&mut self, k: &K) -> (r: Option<V>)
        requires
            old(self).wf(),
        ensures
            final(self).wf(),
            (final(self)@, r) == remove_view(old(self)@, *k),
    {
        Self::remove_rec(&mut self.root, k)
    }
}

impl<K: StableKey, V: Copy> Default for NRBTreeMap<K, V> {
    fn default() -> (r: Self)
        ensures
            r.wf(),
            r@ == NRBTreeView::<K, V>::Empty,
    {
        Self::new()
    }
}

} // verus!
