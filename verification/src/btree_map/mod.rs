//! `SBTreeMap`: a B+ tree map. Leaves hold the entries in key order; internal nodes hold
//! separator keys, each equal to the smallest key of the subtree to its right.
use vstd::prelude::*;
use crate::key::StableKey;
use crate::vec::sorted_by_key;
use internal_node::InternalBTreeNode;
use leaf_node::LeafBTreeNode;
use iter::SBTreeMapIter;

pub mod internal_node;
pub mod iter;
pub mod leaf_node;

verus! {

/// The branching parameter.
pub const B: usize = 8;

/// The most keys a node holds.
pub const CAPACITY: usize = 15;

/// The keys a node keeps after a split, and the fewest a node other than the root holds.
pub const MIN_LEN_AFTER_SPLIT: usize = 7;

/// The most children an internal node holds.
pub const CHILDREN_CAPACITY: usize = 16;

/// The children a node keeps after a split.
pub const CHILDREN_MIN_LEN_AFTER_SPLIT: usize = 8;

/// A node of the tree: internal nodes own their children.
pub enum BTreeNode<K, V> {
    Internal(InternalBTreeNode<K, BTreeNode<K, V>>),
    Leaf(LeafBTreeNode<K, V>),
}

/// The entries of a leaf, in slot order.
pub open spec fn leaf_entries<K: StableKey, V>(l: LeafBTreeNode<K, V>) -> Seq<(K, V)> {
    Seq::new(l.keys_view().len(), |i: int| (l.keys_view()[i], l.values_view()[i]))
}

/// The entries under a node of height `h`, in key order.
pub open spec fn entries<K: StableKey, V>(n: BTreeNode<K, V>, h: nat) -> Seq<(K, V)>
    decreases h, 0nat,
{
    match n {
        BTreeNode::Leaf(l) => leaf_entries(l),
        BTreeNode::Internal(i) => if h == 0 {
            Seq::empty()
        } else {
            children_entries(i.children_view(), (h - 1) as nat)
        },
    }
}

/// The entries under a sequence of sibling nodes of height `h`, one after the other.
pub open spec fn children_entries<K: StableKey, V>(cs: Seq<BTreeNode<K, V>>, h: nat) -> Seq<(K, V)>
    decreases h, cs.len(),
{
    if cs.len() == 0 {
        Seq::empty()
    } else {
        children_entries(cs.drop_last(), h) + entries(cs.last(), h)
    }
}

/// The keys of a sequence of entries strictly increase.
pub open spec fn sorted_entries<K: StableKey, V>(s: Seq<(K, V)>) -> bool {
    forall|i: int, j: int| 0 <= i < j < s.len() ==> s[i].0.key_int() < s[j].0.key_int()
}

/// The number of keys a node holds.
pub open spec fn node_len<K: StableKey, V>(n: BTreeNode<K, V>) -> nat {
    match n {
        BTreeNode::Leaf(l) => l.keys_view().len(),
        BTreeNode::Internal(i) => i.keys_view().len(),
    }
}

/// A node of height `h` holding between `lo` and `hi` keys, whose children all hold
/// between `MIN_LEN_AFTER_SPLIT` and `CAPACITY` keys, with sorted entries and exact
/// separators.
pub open spec fn wf_node<K: StableKey, V>(n: BTreeNode<K, V>, h: nat, lo: nat, hi: nat) -> bool
    decreases h,
{
    match n {
        BTreeNode::Leaf(l) => {
            &&& h == 0
            &&& l.keys_view().len() == l.values_view().len()
            &&& sorted_by_key(l.keys_view())
            &&& l.recorded_len() == l.keys_view().len()
            &&& lo <= l.keys_view().len() <= hi
        },
        BTreeNode::Internal(i) => {
            let ks = i.keys_view();
            let cs = i.children_view();
            &&& h > 0
            &&& cs.len() == ks.len() + 1
            &&& i.recorded_len() == ks.len()
            &&& lo <= ks.len() <= hi
            &&& forall|j: int|
                0 <= j < cs.len() ==> wf_node(
                    #[trigger] cs[j],
                    (h - 1) as nat,
                    MIN_LEN_AFTER_SPLIT as nat,
                    CAPACITY as nat,
                )
            &&& sorted_entries(children_entries(cs, (h - 1) as nat))
            &&& forall|j: int|
                1 <= j < cs.len() ==> entries(#[trigger] cs[j], (h - 1) as nat).len() > 0
                    && entries(cs[j], (h - 1) as nat)[0].0 == ks[j - 1]
        },
    }
}

/// The map that a sorted sequence of entries holds.
pub open spec fn entries_map<K, V>(s: Seq<(K, V)>) -> Map<K, V> {
    Map::new(
        |k: K| exists|i: int| 0 <= i < s.len() && s[i].0 == k,
        |k: K| s[choose|i: int| 0 <= i < s.len() && s[i].0 == k].1,
    )
}

/// Pairs up keys and values.
pub open spec fn zip<K, V>(ks: Seq<K>, vs: Seq<V>) -> Seq<(K, V)> {
    Seq::new(ks.len(), |i: int| (ks[i], vs[i]))
}

pub proof fn lemma_zip_insert<K, V>(ks: Seq<K>, vs: Seq<V>, i: int, k: K, v: V)
    requires
        ks.len() == vs.len(),
        0 <= i <= ks.len(),
    ensures
        zip(ks.insert(i, k), vs.insert(i, v)) == zip(ks, vs).insert(i, (k, v)),
{
    assert(zip(ks.insert(i, k), vs.insert(i, v)) =~= zip(ks, vs).insert(i, (k, v)));
}

pub proof fn lemma_zip_update<K, V>(ks: Seq<K>, vs: Seq<V>, i: int, v: V)
    requires
        ks.len() == vs.len(),
        0 <= i < ks.len(),
    ensures
        zip(ks, vs.update(i, v)) == zip(ks, vs).update(i, (ks[i], v)),
{
    assert(zip(ks, vs.update(i, v)) =~= zip(ks, vs).update(i, (ks[i], v)));
}

pub proof fn lemma_zip_remove<K, V>(ks: Seq<K>, vs: Seq<V>, i: int)
    requires
        ks.len() == vs.len(),
        0 <= i < ks.len(),
    ensures
        zip(ks.remove(i), vs.remove(i)) == zip(ks, vs).remove(i),
{
    assert(zip(ks.remove(i), vs.remove(i)) =~= zip(ks, vs).remove(i));
}

pub proof fn lemma_zip_concat<K, V>(ks: Seq<K>, vs: Seq<V>, ks2: Seq<K>, vs2: Seq<V>)
    requires
        ks.len() == vs.len(),
        ks2.len() == vs2.len(),
    ensures
        zip(ks + ks2, vs + vs2) == zip(ks, vs) + zip(ks2, vs2),
{
    assert(zip(ks + ks2, vs + vs2) =~= zip(ks, vs) + zip(ks2, vs2));
}

pub proof fn lemma_zip_subrange<K, V>(ks: Seq<K>, vs: Seq<V>, a: int, b: int)
    requires
        ks.len() == vs.len(),
        0 <= a <= b <= ks.len(),
    ensures
        zip(ks.subrange(a, b), vs.subrange(a, b)) == zip(ks, vs).subrange(a, b),
{
    assert(zip(ks.subrange(a, b), vs.subrange(a, b)) =~= zip(ks, vs).subrange(a, b));
}

/// Widening the bounds on a node's own length keeps it well formed.
pub proof fn lemma_wf_bounds<K: StableKey, V>(n: BTreeNode<K, V>, h: nat, lo: nat, hi: nat, lo2: nat, hi2: nat)
    requires
        wf_node(n, h, lo, hi),
        lo2 <= node_len(n) <= hi2,
    ensures
        wf_node(n, h, lo2, hi2),
{
}

/// An internal node, or a node with a key, has entries; the first comes from its first child.
pub proof fn lemma_nonempty<K: StableKey, V>(n: BTreeNode<K, V>, h: nat, lo: nat, hi: nat)
    requires
        wf_node(n, h, lo, hi),
        n is Internal || node_len(n) >= 1,
    ensures
        entries(n, h).len() >= 1,
        n is Leaf ==> entries(n, h).len() == node_len(n),
    decreases h,
{
    match n {
        BTreeNode::Leaf(l) => {
        },
        BTreeNode::Internal(i) => {
            let cs = i.children_view();
            assert(wf_node(cs[0], (h - 1) as nat, MIN_LEN_AFTER_SPLIT as nat, CAPACITY as nat));
            lemma_nonempty(cs[0], (h - 1) as nat, MIN_LEN_AFTER_SPLIT as nat, CAPACITY as nat);
            lemma_children_entries_split(cs, (h - 1) as nat, 0);
        },
    }
}

/// Where the entries of child `j` sit among the entries of its siblings.
pub open spec fn child_offset<K: StableKey, V>(cs: Seq<BTreeNode<K, V>>, h: nat, j: int) -> nat {
    children_entries(cs.subrange(0, j), h).len()
}

pub proof fn lemma_child_position<K: StableKey, V>(cs: Seq<BTreeNode<K, V>>, h: nat, j: int, t: int)
    requires
        0 <= j < cs.len(),
        0 <= t < entries(cs[j], h).len(),
    ensures
        child_offset(cs, h, j) + t < children_entries(cs, h).len(),
        children_entries(cs, h)[child_offset(cs, h, j) + t] == entries(cs[j], h)[t],
        child_offset(cs, h, j + 1) == child_offset(cs, h, j) + entries(cs[j], h).len(),
{
    lemma_children_entries_split(cs, h, j);
    let a = cs.subrange(0, j);
    lemma_children_entries_concat(a, seq![cs[j]], h);
    lemma_children_entries_one(cs[j], h);
    assert(cs.subrange(0, j + 1) =~= a + seq![cs[j]]);
}

/// The separators of a well-formed internal node increase.
pub proof fn lemma_internal_keys_sorted<K: StableKey, V>(i: InternalBTreeNode<K, BTreeNode<K, V>>, h: nat, lo: nat, hi: nat)
    requires
        wf_node(BTreeNode::Internal(i), h, lo, hi),
    ensures
        sorted_by_key(i.keys_view()),
{
    let ks = i.keys_view();
    let cs = i.children_view();
    let hc = (h - 1) as nat;
    assert forall|a: int, b: int| 0 <= a < b < ks.len() implies ks[a].key_int() < ks[b].key_int() by {
        assert(entries(cs[a + 1], hc).len() > 0);
        assert(entries(cs[b + 1], hc).len() > 0);
        lemma_child_position(cs, hc, a + 1, 0);
        lemma_child_position(cs, hc, b + 1, 0);
        lemma_child_offset_mono(cs, hc, a + 2, b + 1);
    }
}

pub proof fn lemma_child_offset_mono<K: StableKey, V>(cs: Seq<BTreeNode<K, V>>, h: nat, a: int, b: int)
    requires
        0 <= a <= b <= cs.len(),
    ensures
        child_offset(cs, h, a) <= child_offset(cs, h, b),
    decreases b - a,
{
    if a < b {
        lemma_child_offset_mono(cs, h, a, b - 1);
        lemma_child_position_len(cs, h, b - 1);
    }
}

pub proof fn lemma_child_position_len<K: StableKey, V>(cs: Seq<BTreeNode<K, V>>, h: nat, j: int)
    requires
        0 <= j < cs.len(),
    ensures
        child_offset(cs, h, j + 1) == child_offset(cs, h, j) + entries(cs[j], h).len(),
{
    let a = cs.subrange(0, j);
    lemma_children_entries_concat(a, seq![cs[j]], h);
    lemma_children_entries_one(cs[j], h);
    assert(cs.subrange(0, j + 1) =~= a + seq![cs[j]]);
}

pub proof fn lemma_sorted_subrange<K: StableKey, V>(s: Seq<(K, V)>, a: int, b: int)
    requires
        sorted_entries(s),
        0 <= a <= b <= s.len(),
    ensures
        sorted_entries(s.subrange(a, b)),
{
    assert forall|i: int, j: int| 0 <= i < j < b - a implies s.subrange(a, b)[i].0.key_int()
        < s.subrange(a, b)[j].0.key_int() by {
        assert(s.subrange(a, b)[i] == s[a + i] && s.subrange(a, b)[j] == s[a + j]);
    }
}

/// A well-formed internal node: its entries are those of its children, and its first
/// entry is that of its first child.
pub proof fn lemma_internal_first<K: StableKey, V>(i: InternalBTreeNode<K, BTreeNode<K, V>>, h: nat, lo: nat, hi: nat)
    requires
        wf_node(BTreeNode::Internal(i), h, lo, hi),
    ensures
        entries(BTreeNode::Internal(i), h) == children_entries(i.children_view(), (h - 1) as nat),
        entries(i.children_view()[0], (h - 1) as nat).len() >= 1,
        entries(BTreeNode::Internal(i), h).len() >= 1,
        entries(BTreeNode::Internal(i), h)[0] == entries(i.children_view()[0], (h - 1) as nat)[0],
{
    let cs = i.children_view();
    assert(wf_node(cs[0], (h - 1) as nat, MIN_LEN_AFTER_SPLIT as nat, CAPACITY as nat));
    lemma_nonempty(cs[0], (h - 1) as nat, MIN_LEN_AFTER_SPLIT as nat, CAPACITY as nat);
    lemma_child_position(cs, (h - 1) as nat, 0, 0);
    assert(cs.subrange(0, 0) =~= Seq::<BTreeNode<K, V>>::empty());
}

/// The key `k` belongs under child `c` of a well-formed internal node: all entries
/// under earlier children have smaller keys and all under later children larger ones.
pub proof fn lemma_child_range<K: StableKey, V>(i: InternalBTreeNode<K, BTreeNode<K, V>>, h: nat, lo: nat, hi: nat, c: int, k: K)
    requires
        wf_node(BTreeNode::Internal(i), h, lo, hi),
        0 <= c < i.children_view().len(),
        c > 0 ==> i.keys_view()[c - 1].key_int() <= k.key_int(),
        c < i.keys_view().len() ==> k.key_int() < i.keys_view()[c].key_int(),
    ensures
        ({
            let cs = i.children_view();
            let hc = (h - 1) as nat;
            let p = children_entries(cs.subrange(0, c), hc);
            let x = entries(cs[c], hc);
            let q = children_entries(cs.subrange(c + 1, cs.len() as int), hc);
            &&& entries(BTreeNode::Internal(i), h) == p + x + q
            &&& forall|t: int| 0 <= t < p.len() ==> #[trigger] p[t].0.key_int() < k.key_int()
            &&& forall|t: int| 0 <= t < q.len() ==> #[trigger] q[t].0.key_int() > k.key_int()
            &&& c > 0 ==> x.len() > 0 && x[0].0 == i.keys_view()[c - 1]
        }),
{
    let cs = i.children_view();
    let ks = i.keys_view();
    let hc = (h - 1) as nat;
    let e = children_entries(cs, hc);
    let p = children_entries(cs.subrange(0, c), hc);
    let x = entries(cs[c], hc);
    let q = children_entries(cs.subrange(c + 1, cs.len() as int), hc);
    lemma_children_entries_split(cs, hc, c);
    assert(e == p + x + q);
    assert forall|t: int| 0 <= t < p.len() implies #[trigger] p[t].0.key_int() < k.key_int() by {
        assert(c > 0);
        assert(entries(cs[c], hc).len() > 0);
        lemma_child_position(cs, hc, c, 0);
        assert(e[t] == p[t]);
        assert(e[p.len() as int] == x[0]);
    }
    assert forall|t: int| 0 <= t < q.len() implies #[trigger] q[t].0.key_int() > k.key_int() by {
        assert(c < ks.len());
        assert(entries(cs[c + 1], hc).len() > 0);
        lemma_child_position(cs, hc, c + 1, 0);
        lemma_child_position_len(cs, hc, c);
        assert(e[p.len() + x.len() + t] == q[t]);
        if t > 0 {
            assert(e[(p.len() + x.len()) as int] == q[0]);
        }
    }
}

pub proof fn lemma_map_at<K: StableKey, V>(s: Seq<(K, V)>, i: int)
    requires
        sorted_entries(s),
        0 <= i < s.len(),
    ensures
        entries_map(s).contains_key(s[i].0),
        entries_map(s)[s[i].0] == s[i].1,
{
    let k = s[i].0;
    let j = choose|j: int| 0 <= j < s.len() && s[j].0 == k;
    if j < i {
        assert(s[j].0.key_int() < s[i].0.key_int());
    } else if j > i {
        assert(s[i].0.key_int() < s[j].0.key_int());
    }
}

pub proof fn lemma_map_absent<K: StableKey, V>(s: Seq<(K, V)>, k: K)
    requires
        forall|i: int| 0 <= i < s.len() ==> s[i].0 != k,
    ensures
        !entries_map(s).contains_key(k),
{
}

/// Inserting an entry at its sorted place adds it to the map.
pub proof fn lemma_map_insert<K: StableKey, V>(s: Seq<(K, V)>, pos: int, k: K, v: V)
    requires
        sorted_entries(s),
        0 <= pos <= s.len(),
        forall|i: int| 0 <= i < pos ==> #[trigger] s[i].0.key_int() < k.key_int(),
        forall|i: int| pos <= i < s.len() ==> #[trigger] s[i].0.key_int() > k.key_int(),
    ensures
        sorted_entries(s.insert(pos, (k, v))),
        !entries_map(s).contains_key(k),
        entries_map(s.insert(pos, (k, v))) == entries_map(s).insert(k, v),
{
    let t = s.insert(pos, (k, v));
    assert forall|a: int, b: int| 0 <= a < b < t.len() implies t[a].0.key_int() < t[b].0.key_int() by {
        if a < pos && b < pos {
        } else if a < pos && b == pos {
        } else if a < pos {
            assert(t[b] == s[b - 1]);
        } else if a == pos {
            assert(t[b] == s[b - 1]);
        } else {
            assert(t[a] == s[a - 1] && t[b] == s[b - 1]);
        }
    }
    assert forall|i: int| 0 <= i < s.len() implies s[i].0 != k by {
        if i < pos {
            assert(s[i].0.key_int() < k.key_int());
        } else {
            assert(s[i].0.key_int() > k.key_int());
        }
    }
    assert(t[pos] == (k, v));
    lemma_map_at(t, pos);
    assert forall|kk: K| #[trigger] entries_map(t).contains_key(kk) == entries_map(s).insert(k, v).contains_key(kk) by {
        if exists|i: int| 0 <= i < t.len() && t[i].0 == kk {
            let i = choose|i: int| 0 <= i < t.len() && t[i].0 == kk;
            if i < pos {
                assert(s[i].0 == kk);
            } else if i > pos {
                assert(s[i - 1].0 == kk);
            }
        }
        if exists|i: int| 0 <= i < s.len() && s[i].0 == kk {
            let i = choose|i: int| 0 <= i < s.len() && s[i].0 == kk;
            if i < pos {
                assert(t[i].0 == kk);
            } else {
                assert(t[i + 1].0 == kk);
            }
        }
    }
    assert forall|kk: K| #[trigger] entries_map(t).contains_key(kk) implies entries_map(t)[kk]
        == entries_map(s).insert(k, v)[kk] by {
        let i = choose|i: int| 0 <= i < t.len() && t[i].0 == kk;
        lemma_map_at(t, i);
        if i < pos {
            assert(t[i] == s[i]);
            lemma_map_at(s, i);
        } else if i > pos {
            assert(t[i] == s[i - 1]);
            lemma_map_at(s, i - 1);
        }
    }
    assert(entries_map(t) =~= entries_map(s).insert(k, v));
}

/// Writing a new value next to a key keeps the order and updates the map.
pub proof fn lemma_map_update<K: StableKey, V>(s: Seq<(K, V)>, pos: int, v: V)
    requires
        sorted_entries(s),
        0 <= pos < s.len(),
    ensures
        sorted_entries(s.update(pos, (s[pos].0, v))),
        entries_map(s.update(pos, (s[pos].0, v))) == entries_map(s).insert(s[pos].0, v),
{
    let k = s[pos].0;
    let t = s.update(pos, (k, v));
    assert forall|a: int, b: int| 0 <= a < b < t.len() implies t[a].0.key_int() < t[b].0.key_int() by {
        assert(t[a].0 == s[a].0 && t[b].0 == s[b].0);
    }
    lemma_map_at(t, pos);
    assert forall|kk: K| #[trigger] entries_map(t).contains_key(kk) == entries_map(s).insert(k, v).contains_key(kk) by {
        if exists|i: int| 0 <= i < t.len() && t[i].0 == kk {
            let i = choose|i: int| 0 <= i < t.len() && t[i].0 == kk;
            assert(s[i].0 == kk);
        }
        if exists|i: int| 0 <= i < s.len() && s[i].0 == kk {
            let i = choose|i: int| 0 <= i < s.len() && s[i].0 == kk;
            assert(t[i].0 == kk);
        }
    }
    assert forall|kk: K| #[trigger] entries_map(t).contains_key(kk) implies entries_map(t)[kk]
        == entries_map(s).insert(k, v)[kk] by {
        let i = choose|i: int| 0 <= i < t.len() && t[i].0 == kk;
        lemma_map_at(t, i);
        if i != pos {
            assert(t[i] == s[i]);
            lemma_map_at(s, i);
        }
    }
    assert(entries_map(t) =~= entries_map(s).insert(k, v));
}

/// Removing an entry keeps the order and removes its key from the map.
pub proof fn lemma_map_remove<K: StableKey, V>(s: Seq<(K, V)>, pos: int)
    requires
        sorted_entries(s),
        0 <= pos < s.len(),
    ensures
        sorted_entries(s.remove(pos)),
        entries_map(s.remove(pos)) == entries_map(s).remove(s[pos].0),
{
    let k = s[pos].0;
    let t = s.remove(pos);
    assert forall|a: int, b: int| 0 <= a < b < t.len() implies t[a].0.key_int() < t[b].0.key_int() by {
        if b < pos {
        } else if a < pos {
            assert(t[b] == s[b + 1]);
        } else {
            assert(t[a] == s[a + 1] && t[b] == s[b + 1]);
        }
    }
    assert forall|kk: K| #[trigger] entries_map(t).contains_key(kk) == entries_map(s).remove(k).contains_key(kk) by {
        if exists|i: int| 0 <= i < t.len() && t[i].0 == kk {
            let i = choose|i: int| 0 <= i < t.len() && t[i].0 == kk;
            if i < pos {
                assert(s[i].0 == kk);
                assert(s[i].0.key_int() < s[pos].0.key_int());
            } else {
                assert(s[i + 1].0 == kk);
                assert(s[pos].0.key_int() < s[i + 1].0.key_int());
            }
        }
        if kk != k && exists|i: int| 0 <= i < s.len() && s[i].0 == kk {
            let i = choose|i: int| 0 <= i < s.len() && s[i].0 == kk;
            if i < pos {
                assert(t[i].0 == kk);
            } else {
                assert(i != pos);
                assert(t[i - 1].0 == kk);
            }
        }
    }
    assert forall|kk: K| #[trigger] entries_map(t).contains_key(kk) implies entries_map(t)[kk]
        == entries_map(s).remove(k)[kk] by {
        let i = choose|i: int| 0 <= i < t.len() && t[i].0 == kk;
        lemma_map_at(t, i);
        if i < pos {
            assert(t[i] == s[i]);
            lemma_map_at(s, i);
        } else {
            assert(t[i] == s[i + 1]);
            lemma_map_at(s, i + 1);
        }
    }
    assert(entries_map(t) =~= entries_map(s).remove(k));
}

pub proof fn lemma_map_len<K: StableKey, V>(s: Seq<(K, V)>)
    requires
        sorted_entries(s),
    ensures
        entries_map(s).dom().finite(),
        entries_map(s).len() == s.len(),
    decreases s.len(),
{
    if s.len() == 0 {
        assert(entries_map(s) =~= Map::<K, V>::empty());
    } else {
        let p = s.drop_last();
        assert forall|a: int, b: int| 0 <= a < b < p.len() implies p[a].0.key_int() < p[b].0.key_int() by {
            assert(p[a] == s[a] && p[b] == s[b]);
        }
        lemma_map_len(p);
        assert forall|i: int| 0 <= i < p.len() implies #[trigger] p[i].0.key_int() < s.last().0.key_int() by {
            assert(p[i] == s[i]);
        }
        lemma_map_insert(p, p.len() as int, s.last().0, s.last().1);
        assert(p.insert(p.len() as int, (s.last().0, s.last().1)) =~= s);
    }
}

pub proof fn lemma_children_entries_concat<K: StableKey, V>(
    a: Seq<BTreeNode<K, V>>,
    b: Seq<BTreeNode<K, V>>,
    h: nat,
)
    ensures
        children_entries(a + b, h) == children_entries(a, h) + children_entries(b, h),
    decreases b.len(),
{
    if b.len() == 0 {
        assert(a + b =~= a);
        assert(children_entries(b, h) =~= Seq::<(K, V)>::empty());
        assert(children_entries(a, h) + children_entries(b, h) =~= children_entries(a, h));
    } else {
        lemma_children_entries_concat(a, b.drop_last(), h);
        assert((a + b).drop_last() =~= a + b.drop_last());
        assert((a + b).last() == b.last());
        assert(children_entries(a, h) + children_entries(b.drop_last(), h) + entries(b.last(), h)
            =~= children_entries(a, h) + (children_entries(b.drop_last(), h) + entries(b.last(), h)));
    }
}

pub proof fn lemma_children_entries_one<K: StableKey, V>(x: BTreeNode<K, V>, h: nat)
    ensures
        children_entries(seq![x], h) == entries(x, h),
{
    assert(seq![x].drop_last() =~= Seq::<BTreeNode<K, V>>::empty());
    assert(children_entries(Seq::<BTreeNode<K, V>>::empty(), h) + entries(x, h) =~= entries(x, h));
}

/// The entries of siblings split around child `c`.
pub proof fn lemma_children_entries_split<K: StableKey, V>(cs: Seq<BTreeNode<K, V>>, h: nat, c: int)
    requires
        0 <= c < cs.len(),
    ensures
        children_entries(cs, h) == children_entries(cs.subrange(0, c), h) + entries(cs[c], h)
            + children_entries(cs.subrange(c + 1, cs.len() as int), h),
{
    let a = cs.subrange(0, c);
    let b = cs.subrange(c + 1, cs.len() as int);
    assert(cs =~= a + seq![cs[c]] + b);
    lemma_children_entries_concat(a + seq![cs[c]], b, h);
    lemma_children_entries_concat(a, seq![cs[c]], h);
    lemma_children_entries_one(cs[c], h);
}

pub proof fn lemma_sorted_keys_of_zip<K: StableKey, V>(ks: Seq<K>, vs: Seq<V>)
    requires
        ks.len() == vs.len(),
    ensures
        sorted_entries(zip(ks, vs)) == sorted_by_key(ks),
{
    if sorted_entries(zip(ks, vs)) {
        assert forall|i: int, j: int| 0 <= i < j < ks.len() implies ks[i].key_int() < ks[j].key_int() by {
            assert(zip(ks, vs)[i].0 == ks[i] && zip(ks, vs)[j].0 == ks[j]);
        }
    }
    if sorted_by_key(ks) {
        assert forall|i: int, j: int| 0 <= i < j < zip(ks, vs).len() implies zip(ks, vs)[i].0.key_int() < zip(ks, vs)[j].0.key_int() by {
            assert(zip(ks, vs)[i].0 == ks[i] && zip(ks, vs)[j].0 == ks[j]);
        }
    }
}

pub proof fn lemma_sorted_concat_parts<K: StableKey, V>(a: Seq<(K, V)>, b: Seq<(K, V)>)
    requires
        sorted_entries(a + b),
    ensures
        sorted_entries(a),
        sorted_entries(b),
        forall|i: int, j: int| 0 <= i < a.len() && 0 <= j < b.len() ==> #[trigger] a[i].0.key_int() < #[trigger] b[j].0.key_int(),
{
    lemma_sorted_subrange(a + b, 0, a.len() as int);
    lemma_sorted_subrange(a + b, a.len() as int, (a + b).len() as int);
    assert((a + b).subrange(0, a.len() as int) =~= a);
    assert((a + b).subrange(a.len() as int, (a + b).len() as int) =~= b);
    assert forall|i: int, j: int| 0 <= i < a.len() && 0 <= j < b.len() implies #[trigger] a[i].0.key_int() < #[trigger] b[j].0.key_int() by {
        assert((a + b)[i] == a[i] && (a + b)[a.len() + j] == b[j]);
    }
}

/// The children of a well-formed internal node are well formed, and its entries are sorted.
pub proof fn lemma_internal_parts<K: StableKey, V>(i: InternalBTreeNode<K, BTreeNode<K, V>>, h: nat, lo: nat, hi: nat)
    requires
        wf_node(BTreeNode::Internal(i), h, lo, hi),
    ensures
        h > 0,
        i.children_view().len() == i.keys_view().len() + 1,
        sorted_entries(entries(BTreeNode::Internal(i), h)),
        forall|j: int| 0 <= j < i.children_view().len() ==> wf_node(#[trigger] i.children_view()[j], (h - 1) as nat, MIN_LEN_AFTER_SPLIT as nat, CAPACITY as nat),
{
}

/// The left node takes the first element of the right node: an entry between leaves,
/// a child (with the separator coming down) between internal nodes.
fn take_first_of_right<K: StableKey, V>(left: BTreeNode<K, V>, right: BTreeNode<K, V>, sep: K, Ghost(h): Ghost<nat>) -> (r: (BTreeNode<K, V>, BTreeNode<K, V>, K, Ghost<int>))
    requires
        wf_node(left, h, 0, CAPACITY as nat),
        wf_node(right, h, 2, CAPACITY as nat + 1),
        left is Internal || node_len(left) >= 1,
        entries(right, h).len() > 0,
        entries(right, h)[0].0 == sep,
        sorted_entries(entries(left, h) + entries(right, h)),
    ensures
        0 < r.3@ < entries(right, h).len(),
        entries(r.0, h) == entries(left, h) + entries(right, h).subrange(0, r.3@),
        entries(r.1, h) == entries(right, h).subrange(r.3@, entries(right, h).len() as int),
        node_len(r.0) == node_len(left) + 1,
        node_len(r.1) + 1 == node_len(right),
        wf_node(r.0, h, node_len(r.0), node_len(r.0)),
        wf_node(r.1, h, node_len(r.1), node_len(r.1)),
        entries(r.1, h)[0].0 == r.2,
{
    match (left, right) {
        (BTreeNode::Leaf(mut l), BTreeNode::Leaf(mut rt)) => {
            let ll = l.read_len();
            let rl = rt.read_len();
            let mut s = sep;
            let ghost l0 = l;
            let ghost r0 = rt;
            l.steal_from_right(&mut rt, &mut s);
            l.write_len(ll + 1);
            rt.write_len(rl - 1);
            proof {
                let e = entries(BTreeNode::Leaf(l0), h) + entries(BTreeNode::Leaf(r0), h);
                lemma_zip_remove(r0.keys_view(), r0.values_view(), 0);
                assert(l.keys_view() =~= l0.keys_view().push(r0.keys_view()[0]));
                assert(zip(l.keys_view(), l.values_view()) =~= zip(l0.keys_view(), l0.values_view()) + zip(r0.keys_view(), r0.values_view()).subrange(0, 1));
                assert(zip(rt.keys_view(), rt.values_view()) =~= zip(r0.keys_view(), r0.values_view()).subrange(1, r0.keys_view().len() as int));
                lemma_sorted_concat_parts(entries(BTreeNode::Leaf(l0), h), entries(BTreeNode::Leaf(r0), h));
                lemma_sorted_subrange(entries(BTreeNode::Leaf(r0), h), 1, r0.keys_view().len() as int);
                assert(entries(BTreeNode::Leaf(l), h) =~= e.subrange(0, (l0.keys_view().len() + 1) as int));
                lemma_sorted_subrange(e, 0, (l0.keys_view().len() + 1) as int);
                lemma_sorted_keys_of_zip(l.keys_view(), l.values_view());
                lemma_sorted_keys_of_zip(rt.keys_view(), rt.values_view());
            }
            (BTreeNode::Leaf(l), BTreeNode::Leaf(rt), s, Ghost(1int))
        },
        (BTreeNode::Internal(mut l), BTreeNode::Internal(mut rt)) => {
            let ll = l.read_len();
            let rl = rt.read_len();
            let mut s = sep;
            let ghost l0 = l;
            let ghost r0 = rt;
            let ghost hc = (h - 1) as nat;
            proof {
                lemma_internal_parts(l0, h, 0, CAPACITY as nat);
                lemma_internal_parts(r0, h, 2, CAPACITY as nat + 1);
                lemma_internal_first(r0, h, 2, CAPACITY as nat + 1);
            }
            l.steal_from_right(&mut rt, &mut s);
            l.write_len(ll + 1);
            rt.write_len(rl - 1);
            let ghost d = entries(r0.children_view()[0], hc).len() as int;
            proof {
                let lc0 = l0.children_view();
                let rc0 = r0.children_view();
                let lc = l.children_view();
                let rc = rt.children_view();
                // entries of the new left node
                assert(lc =~= lc0 + seq![rc0[0]]);
                lemma_children_entries_concat(lc0, seq![rc0[0]], hc);
                lemma_children_entries_one(rc0[0], hc);
                // entries of the new right node
                lemma_children_entries_split(rc0, hc, 0);
                assert(rc0.subrange(0, 0) =~= Seq::<BTreeNode<K, V>>::empty());
                assert(rc =~= rc0.subrange(1, rc0.len() as int));
                let er0 = entries(BTreeNode::Internal(r0), h);
                assert(entries(BTreeNode::Internal(r0), h) =~= entries(rc0[0], hc) + children_entries(rc, hc));
                assert(entries(BTreeNode::Internal(rt), h) =~= er0.subrange(d, er0.len() as int));
                assert(entries(BTreeNode::Internal(l), h) =~= entries(BTreeNode::Internal(l0), h) + er0.subrange(0, d));
                // sortedness
                let e = entries(BTreeNode::Internal(l0), h) + er0;
                lemma_sorted_concat_parts(entries(BTreeNode::Internal(l0), h), er0);
                assert(entries(BTreeNode::Internal(l), h) =~= e.subrange(0, entries(BTreeNode::Internal(l0), h).len() + d));
                lemma_sorted_subrange(e, 0, entries(BTreeNode::Internal(l0), h).len() + d);
                lemma_sorted_subrange(er0, d, er0.len() as int);
                // children stay well formed
                assert forall|j: int| 0 <= j < lc.len() implies wf_node(#[trigger] lc[j], hc, MIN_LEN_AFTER_SPLIT as nat, CAPACITY as nat) by {
                    if j < lc0.len() {
                        assert(lc[j] == lc0[j]);
                    } else {
                        assert(lc[j] == rc0[0]);
                    }
                }
                assert forall|j: int| 0 <= j < rc.len() implies wf_node(#[trigger] rc[j], hc, MIN_LEN_AFTER_SPLIT as nat, CAPACITY as nat) by {
                    assert(rc[j] == rc0[j + 1]);
                }
                // separators
                assert forall|j: int| 1 <= j < lc.len() implies entries(#[trigger] lc[j], hc).len() > 0 && entries(lc[j], hc)[0].0 == l.keys_view()[j - 1] by {
                    if j < lc0.len() {
                        assert(lc[j] == lc0[j]);
                    } else {
                        assert(lc[j] == rc0[0]);
                    }
                }
                assert forall|j: int| 1 <= j < rc.len() implies entries(#[trigger] rc[j], hc).len() > 0 && entries(rc[j], hc)[0].0 == rt.keys_view()[j - 1] by {
                    assert(rc[j] == rc0[j + 1]);
                }
                assert(rc0[1] == rc[0]);
                lemma_internal_first(rt, h, 1, CAPACITY as nat);
            }
            (BTreeNode::Internal(l), BTreeNode::Internal(rt), s, Ghost(d))
        },
        (l, rt) => {
            proof {
                assert(false);
            }
            (l, rt, sep, Ghost(0int))
        },
    }
}

/// The right node takes the last element of the left node: an entry between leaves,
/// a child (with the separator coming down) between internal nodes.
fn take_last_of_left<K: StableKey, V>(left: BTreeNode<K, V>, right: BTreeNode<K, V>, sep: K, Ghost(h): Ghost<nat>) -> (r: (BTreeNode<K, V>, BTreeNode<K, V>, K, Ghost<int>))
    requires
        wf_node(left, h, 2, CAPACITY as nat + 1),
        wf_node(right, h, 0, CAPACITY as nat),
        entries(right, h).len() > 0,
        entries(right, h)[0].0 == sep,
        sorted_entries(entries(left, h) + entries(right, h)),
    ensures
        0 < r.3@ < entries(left, h).len(),
        entries(r.0, h) == entries(left, h).subrange(0, r.3@),
        entries(r.1, h) == entries(left, h).subrange(r.3@, entries(left, h).len() as int) + entries(right, h),
        node_len(r.0) + 1 == node_len(left),
        node_len(r.1) == node_len(right) + 1,
        wf_node(r.0, h, node_len(r.0), node_len(r.0)),
        wf_node(r.1, h, node_len(r.1), node_len(r.1)),
        entries(r.1, h)[0].0 == r.2,
{
    match (left, right) {
        (BTreeNode::Leaf(mut l), BTreeNode::Leaf(mut rt)) => {
            let ll = l.read_len();
            let rl = rt.read_len();
            let mut s = sep;
            let ghost l0 = l;
            let ghost r0 = rt;
            rt.steal_from_left(&mut l, &mut s);
            l.write_len(ll - 1);
            rt.write_len(rl + 1);
            let ghost d = (ll - 1) as int;
            proof {
                let el = entries(BTreeNode::Leaf(l0), h);
                let er = entries(BTreeNode::Leaf(r0), h);
                let e = el + er;
                assert(zip(l.keys_view(), l.values_view()) =~= el.subrange(0, d));
                assert(zip(rt.keys_view(), rt.values_view()) =~= el.subrange(d, el.len() as int) + er);
                lemma_sorted_concat_parts(el, er);
                lemma_sorted_subrange(el, 0, d);
                assert(el.subrange(d, el.len() as int) + er =~= e.subrange(d, e.len() as int));
                lemma_sorted_subrange(e, d, e.len() as int);
                lemma_sorted_keys_of_zip(l.keys_view(), l.values_view());
                lemma_sorted_keys_of_zip(rt.keys_view(), rt.values_view());
            }
            (BTreeNode::Leaf(l), BTreeNode::Leaf(rt), s, Ghost(d))
        },
        (BTreeNode::Internal(mut l), BTreeNode::Internal(mut rt)) => {
            let ll = l.read_len();
            let rl = rt.read_len();
            let mut s = sep;
            let ghost l0 = l;
            let ghost r0 = rt;
            let ghost hc = (h - 1) as nat;
            proof {
                lemma_internal_parts(l0, h, 2, CAPACITY as nat + 1);
                lemma_internal_parts(r0, h, 0, CAPACITY as nat);
                lemma_internal_first(r0, h, 0, CAPACITY as nat);
            }
            rt.steal_from_left(&mut l, &mut s);
            l.write_len(ll - 1);
            rt.write_len(rl + 1);
            let ghost lc0 = l0.children_view();
            let ghost last = lc0.len() - 1;
            let ghost d = children_entries(lc0.subrange(0, last), hc).len() as int;
            proof {
                let rc0 = r0.children_view();
                let lc = l.children_view();
                let rc = rt.children_view();
                let el = entries(BTreeNode::Internal(l0), h);
                let er = entries(BTreeNode::Internal(r0), h);
                assert(lc0 =~= lc0.subrange(0, last) + seq![lc0[last]]);
                lemma_children_entries_concat(lc0.subrange(0, last), seq![lc0[last]], hc);
                lemma_children_entries_one(lc0[last], hc);
                assert(lc =~= lc0.subrange(0, last));
                assert(rc =~= seq![lc0[last]] + rc0);
                lemma_children_entries_concat(seq![lc0[last]], rc0, hc);
                assert(wf_node(lc0[last], hc, MIN_LEN_AFTER_SPLIT as nat, CAPACITY as nat));
                lemma_nonempty(lc0[last], hc, MIN_LEN_AFTER_SPLIT as nat, CAPACITY as nat);
                assert(entries(BTreeNode::Internal(l), h) =~= el.subrange(0, d));
                assert(entries(BTreeNode::Internal(rt), h) =~= el.subrange(d, el.len() as int) + er);
                let e = el + er;
                lemma_sorted_concat_parts(el, er);
                lemma_sorted_subrange(el, 0, d);
                assert(el.subrange(d, el.len() as int) + er =~= e.subrange(d, e.len() as int));
                lemma_sorted_subrange(e, d, e.len() as int);
                assert forall|j: int| 0 <= j < lc.len() implies wf_node(#[trigger] lc[j], hc, MIN_LEN_AFTER_SPLIT as nat, CAPACITY as nat) by {
                    assert(lc[j] == lc0[j]);
                }
                assert forall|j: int| 0 <= j < rc.len() implies wf_node(#[trigger] rc[j], hc, MIN_LEN_AFTER_SPLIT as nat, CAPACITY as nat) by {
                    if j == 0 {
                        assert(rc[j] == lc0[last]);
                    } else {
                        assert(rc[j] == rc0[j - 1]);
                    }
                }
                assert forall|j: int| 1 <= j < lc.len() implies entries(#[trigger] lc[j], hc).len() > 0 && entries(lc[j], hc)[0].0 == l.keys_view()[j - 1] by {
                    assert(lc[j] == lc0[j]);
                }
                assert forall|j: int| 1 <= j < rc.len() implies entries(#[trigger] rc[j], hc).len() > 0 && entries(rc[j], hc)[0].0 == rt.keys_view()[j - 1] by {
                    assert(rc[j] == rc0[j - 1]);
                    if j == 1 {
                        assert(entries(rc0[0], hc)[0] == er[0]);
                    }
                }
                assert(entries(lc0[last], hc)[0].0 == l0.keys_view()[last - 1]);
                assert(entries(BTreeNode::Internal(rt), h)[0] == entries(lc0[last], hc)[0]);
            }
            (BTreeNode::Internal(l), BTreeNode::Internal(rt), s, Ghost(d))
        },
        (l, rt) => {
            proof {
                assert(false);
            }
            (l, rt, sep, Ghost(0int))
        },
    }
}

/// Joins two sibling nodes; between internal nodes the separator comes down between them.
fn merge_nodes<K: StableKey, V>(left: BTreeNode<K, V>, right: BTreeNode<K, V>, sep: K, Ghost(h): Ghost<nat>) -> (r: BTreeNode<K, V>)
    requires
        wf_node(left, h, 0, CAPACITY as nat),
        wf_node(right, h, 0, CAPACITY as nat),
        node_len(left) + node_len(right) + 1 <= CAPACITY,
        entries(right, h).len() > 0,
        entries(right, h)[0].0 == sep,
        sorted_entries(entries(left, h) + entries(right, h)),
    ensures
        entries(r, h) == entries(left, h) + entries(right, h),
        node_len(r) == node_len(left) + node_len(right) + (if h > 0 { 1nat } else { 0nat }),
        wf_node(r, h, node_len(r), node_len(r)),
{
    match (left, right) {
        (BTreeNode::Leaf(mut l), BTreeNode::Leaf(rt)) => {
            let ll = l.read_len();
            let rl = rt.read_len();
            let ghost l0 = l;
            let ghost r0 = rt;
            l.merge_min_len(rt);
            l.write_len(ll + rl);
            proof {
                lemma_zip_concat(l0.keys_view(), l0.values_view(), r0.keys_view(), r0.values_view());
                lemma_sorted_keys_of_zip(l.keys_view(), l.values_view());
            }
            BTreeNode::Leaf(l)
        },
        (BTreeNode::Internal(mut l), BTreeNode::Internal(rt)) => {
            let ll = l.read_len();
            let rl = rt.read_len();
            let ghost l0 = l;
            let ghost r0 = rt;
            let ghost hc = (h - 1) as nat;
            proof {
                lemma_internal_parts(l0, h, 0, CAPACITY as nat);
                lemma_internal_parts(r0, h, 0, CAPACITY as nat);
                lemma_internal_first(r0, h, 0, CAPACITY as nat);
            }
            l.merge_min_len(sep, rt);
            l.write_len(ll + rl + 1);
            proof {
                let lc0 = l0.children_view();
                let rc0 = r0.children_view();
                let lc = l.children_view();
                lemma_children_entries_concat(lc0, rc0, hc);
                assert forall|j: int| 0 <= j < lc.len() implies wf_node(#[trigger] lc[j], hc, MIN_LEN_AFTER_SPLIT as nat, CAPACITY as nat) by {
                    if j < lc0.len() {
                        assert(lc[j] == lc0[j]);
                    } else {
                        assert(lc[j] == rc0[j - lc0.len()]);
                    }
                }
                assert forall|j: int| 1 <= j < lc.len() implies entries(#[trigger] lc[j], hc).len() > 0 && entries(lc[j], hc)[0].0 == l.keys_view()[j - 1] by {
                    if j < lc0.len() {
                        assert(lc[j] == lc0[j]);
                    } else {
                        assert(lc[j] == rc0[j - lc0.len()]);
                        if j > lc0.len() {
                            assert(l.keys_view()[j - 1] == r0.keys_view()[j - lc0.len() - 1]);
                        }
                    }
                }
            }
            BTreeNode::Internal(l)
        },
        (l, rt) => {
            proof {
                assert(false);
            }
            l
        },
    }
}

/// Splits an overfull node in two; `idx` is where its last insertion landed, which for
/// internal nodes decides which half keeps the extra key.
fn split_node<K: StableKey, V>(n: BTreeNode<K, V>, idx: usize, Ghost(h): Ghost<nat>) -> (r: (BTreeNode<K, V>, K, BTreeNode<K, V>))
    requires
        wf_node(n, h, CAPACITY as nat + 1, CAPACITY as nat + 1),
    ensures
        entries(r.0, h) + entries(r.2, h) == entries(n, h),
        entries(r.0, h).len() > 0,
        entries(r.2, h).len() > 0,
        entries(r.2, h)[0].0 == r.1,
        wf_node(r.0, h, MIN_LEN_AFTER_SPLIT as nat, CAPACITY as nat),
        wf_node(r.2, h, MIN_LEN_AFTER_SPLIT as nat, CAPACITY as nat),
{
    match n {
        BTreeNode::Leaf(mut l) => {
            let ghost l0 = l;
            let mut right = l.split_max_len(false);
            l.write_len(B);
            right.write_len(B);
            let sep = right.read_key(0);
            proof {
                let e = zip(l0.keys_view(), l0.values_view());
                lemma_zip_subrange(l0.keys_view(), l0.values_view(), 0, B as int);
                lemma_zip_subrange(l0.keys_view(), l0.values_view(), B as int, 16);
                assert(e.subrange(0, B as int) + e.subrange(B as int, 16) =~= e);
                lemma_sorted_keys_of_zip(l0.keys_view(), l0.values_view());
                lemma_sorted_subrange(e, 0, B as int);
                lemma_sorted_subrange(e, B as int, 16);
                lemma_sorted_keys_of_zip(l.keys_view(), l.values_view());
                lemma_sorted_keys_of_zip(right.keys_view(), right.values_view());
            }
            (BTreeNode::Leaf(l), sep, BTreeNode::Leaf(right))
        },
        BTreeNode::Internal(mut i) => {
            let ghost i0 = i;
            let ghost hc = (h - 1) as nat;
            proof {
                lemma_internal_parts(i0, h, CAPACITY as nat + 1, CAPACITY as nat + 1);
            }
            let m = if idx <= MIN_LEN_AFTER_SPLIT {
                B
            } else {
                MIN_LEN_AFTER_SPLIT
            };
            let (mut right, mid) = i.split_at(m);
            i.write_len(m);
            right.write_len(15 - m);
            proof {
                let cs0 = i0.children_view();
                let cs = i.children_view();
                let rc = right.children_view();
                let e = children_entries(cs0, hc);
                assert(cs0 =~= cs + rc);
                lemma_children_entries_concat(cs, rc, hc);
                lemma_sorted_subrange(e, 0, children_entries(cs, hc).len() as int);
                lemma_sorted_subrange(e, children_entries(cs, hc).len() as int, e.len() as int);
                assert(children_entries(cs, hc) =~= e.subrange(0, children_entries(cs, hc).len() as int));
                assert(children_entries(rc, hc) =~= e.subrange(children_entries(cs, hc).len() as int, e.len() as int));
                assert forall|j: int| 0 <= j < cs.len() implies wf_node(#[trigger] cs[j], hc, MIN_LEN_AFTER_SPLIT as nat, CAPACITY as nat) by {
                    assert(cs[j] == cs0[j]);
                }
                assert forall|j: int| 0 <= j < rc.len() implies wf_node(#[trigger] rc[j], hc, MIN_LEN_AFTER_SPLIT as nat, CAPACITY as nat) by {
                    assert(rc[j] == cs0[j + m + 1]);
                }
                assert forall|j: int| 1 <= j < cs.len() implies entries(#[trigger] cs[j], hc).len() > 0 && entries(cs[j], hc)[0].0 == i.keys_view()[j - 1] by {
                    assert(cs[j] == cs0[j]);
                }
                assert forall|j: int| 1 <= j < rc.len() implies entries(#[trigger] rc[j], hc).len() > 0 && entries(rc[j], hc)[0].0 == right.keys_view()[j - 1] by {
                    assert(rc[j] == cs0[j + m + 1]);
                }
                assert(rc[0] == cs0[m + 1]);
                lemma_internal_first(i, h, MIN_LEN_AFTER_SPLIT as nat, CAPACITY as nat);
                lemma_internal_first(right, h, MIN_LEN_AFTER_SPLIT as nat, CAPACITY as nat);
            }
            (BTreeNode::Internal(i), mid, BTreeNode::Internal(right))
        },
    }
}

/// An internal node that is well formed, except that child `c` may hold between `clo`
/// and `chi` keys.
pub open spec fn wf_internal_except<K: StableKey, V>(i: InternalBTreeNode<K, BTreeNode<K, V>>, h: nat, lo: nat, hi: nat, c: int, clo: nat, chi: nat) -> bool {
    let ks = i.keys_view();
    let cs = i.children_view();
    let hc = (h - 1) as nat;
    &&& h > 0
    &&& cs.len() == ks.len() + 1
    &&& i.recorded_len() == ks.len()
    &&& lo <= ks.len() <= hi
    &&& 0 <= c < cs.len()
    &&& forall|j: int| 0 <= j < cs.len() && j != c ==> wf_node(#[trigger] cs[j], hc, MIN_LEN_AFTER_SPLIT as nat, CAPACITY as nat)
    &&& wf_node(cs[c], hc, clo, chi)
    &&& sorted_entries(children_entries(cs, hc))
    &&& forall|j: int| 1 <= j < cs.len() ==> entries(#[trigger] cs[j], hc).len() > 0 && entries(cs[j], hc)[0].0 == ks[j - 1]
}

pub proof fn lemma_except_to_wf<K: StableKey, V>(i: InternalBTreeNode<K, BTreeNode<K, V>>, h: nat, lo: nat, hi: nat, c: int, clo: nat, chi: nat)
    requires
        wf_internal_except(i, h, lo, hi, c, clo, chi),
        MIN_LEN_AFTER_SPLIT <= clo,
        chi <= CAPACITY,
    ensures
        wf_node(BTreeNode::Internal(i), h, lo, hi),
{
    let cs = i.children_view();
    assert forall|j: int| 0 <= j < cs.len() implies wf_node(#[trigger] cs[j], (h - 1) as nat, MIN_LEN_AFTER_SPLIT as nat, CAPACITY as nat) by {
        if j == c {
            lemma_wf_bounds(cs[c], (h - 1) as nat, clo, chi, MIN_LEN_AFTER_SPLIT as nat, CAPACITY as nat);
        }
    }
}

pub proof fn lemma_children_entries_pair<K: StableKey, V>(cs: Seq<BTreeNode<K, V>>, h: nat, j: int)
    requires
        0 <= j,
        j + 1 < cs.len(),
    ensures
        children_entries(cs, h) == children_entries(cs.subrange(0, j), h) + entries(cs[j], h) + entries(cs[j + 1], h)
            + children_entries(cs.subrange(j + 2, cs.len() as int), h),
{
    let a = cs.subrange(0, j);
    let b = cs.subrange(j + 2, cs.len() as int);
    assert(cs =~= a + seq![cs[j]] + seq![cs[j + 1]] + b);
    lemma_children_entries_concat(a + seq![cs[j]] + seq![cs[j + 1]], b, h);
    lemma_children_entries_concat(a + seq![cs[j]], seq![cs[j + 1]], h);
    lemma_children_entries_concat(a, seq![cs[j]], h);
    lemma_children_entries_one(cs[j], h);
    lemma_children_entries_one(cs[j + 1], h);
}

/// Replacing two adjacent children by two others holding the same entries, with the
/// separator between them set to the first key of the second, keeps the node's entries
/// and exact separators.
pub proof fn lemma_replace_pair<K: StableKey, V>(cs: Seq<BTreeNode<K, V>>, ks: Seq<K>, h: nat, j: int, a: BTreeNode<K, V>, b: BTreeNode<K, V>, sep: K)
    requires
        cs.len() == ks.len() + 1,
        0 <= j,
        j + 1 < cs.len(),
        forall|t: int| 1 <= t < cs.len() ==> entries(#[trigger] cs[t], h).len() > 0 && entries(cs[t], h)[0].0 == ks[t - 1],
        entries(a, h) + entries(b, h) == entries(cs[j], h) + entries(cs[j + 1], h),
        entries(a, h).len() > 0,
        j > 0 ==> entries(a, h)[0] == entries(cs[j], h)[0],
        entries(b, h).len() > 0,
        entries(b, h)[0].0 == sep,
    ensures
        children_entries(cs.update(j, a).update(j + 1, b), h) == children_entries(cs, h),
        forall|t: int| 1 <= t < cs.len() ==> entries(#[trigger] cs.update(j, a).update(j + 1, b)[t], h).len() > 0
            && entries(cs.update(j, a).update(j + 1, b)[t], h)[0].0 == ks.update(j, sep)[t - 1],
{
    let cs2 = cs.update(j, a).update(j + 1, b);
    lemma_children_entries_pair(cs, h, j);
    lemma_children_entries_pair(cs2, h, j);
    assert(cs2.subrange(0, j) =~= cs.subrange(0, j));
    assert(cs2.subrange(j + 2, cs.len() as int) =~= cs.subrange(j + 2, cs.len() as int));
    assert(children_entries(cs.subrange(0, j), h) + entries(a, h) + entries(b, h) =~= children_entries(cs.subrange(0, j), h) + (entries(a, h) + entries(b, h)));
    assert(children_entries(cs.subrange(0, j), h) + entries(cs[j], h) + entries(cs[j + 1], h) =~= children_entries(cs.subrange(0, j), h) + (entries(cs[j], h) + entries(cs[j + 1], h)));
    assert forall|t: int| 1 <= t < cs.len() implies entries(#[trigger] cs2[t], h).len() > 0 && entries(cs2[t], h)[0].0 == ks.update(j, sep)[t - 1] by {
        if t != j && t != j + 1 {
            assert(cs2[t] == cs[t]);
        }
    }
}

/// Replacing a child by two holding its entries, with the first key of the second as
/// a new separator between them.
pub proof fn lemma_replace_split<K: StableKey, V>(cs: Seq<BTreeNode<K, V>>, ks: Seq<K>, h: nat, j: int, a: BTreeNode<K, V>, b: BTreeNode<K, V>, sep: K)
    requires
        cs.len() == ks.len() + 1,
        0 <= j < cs.len(),
        forall|t: int| 1 <= t < cs.len() ==> entries(#[trigger] cs[t], h).len() > 0 && entries(cs[t], h)[0].0 == ks[t - 1],
        entries(a, h) + entries(b, h) == entries(cs[j], h),
        entries(a, h).len() > 0,
        j > 0 ==> entries(a, h)[0] == entries(cs[j], h)[0],
        entries(b, h).len() > 0,
        entries(b, h)[0].0 == sep,
    ensures
        children_entries(cs.update(j, a).insert(j + 1, b), h) == children_entries(cs, h),
        forall|t: int| 1 <= t < cs.len() + 1 ==> entries(#[trigger] cs.update(j, a).insert(j + 1, b)[t], h).len() > 0
            && entries(cs.update(j, a).insert(j + 1, b)[t], h)[0].0 == ks.insert(j, sep)[t - 1],
{
    let cs2 = cs.update(j, a).insert(j + 1, b);
    lemma_children_entries_split(cs, h, j);
    lemma_children_entries_pair(cs2, h, j);
    assert(cs2.subrange(0, j) =~= cs.subrange(0, j));
    assert(cs2.subrange(j + 2, cs2.len() as int) =~= cs.subrange(j + 1, cs.len() as int));
    assert(children_entries(cs.subrange(0, j), h) + entries(a, h) + entries(b, h) =~= children_entries(cs.subrange(0, j), h) + (entries(a, h) + entries(b, h)));
    assert forall|t: int| 1 <= t < cs.len() + 1 implies entries(#[trigger] cs2[t], h).len() > 0 && entries(cs2[t], h)[0].0 == ks.insert(j, sep)[t - 1] by {
        if t < j {
            assert(cs2[t] == cs[t]);
        } else if t == j {
        } else if t > j + 1 {
            assert(cs2[t] == cs[t - 1]);
        }
    }
}

/// Replacing two adjacent children by one holding both their entries, and dropping the
/// separator between them.
pub proof fn lemma_replace_merge<K: StableKey, V>(cs: Seq<BTreeNode<K, V>>, ks: Seq<K>, h: nat, j: int, a: BTreeNode<K, V>)
    requires
        cs.len() == ks.len() + 1,
        0 <= j,
        j + 1 < cs.len(),
        forall|t: int| 1 <= t < cs.len() ==> entries(#[trigger] cs[t], h).len() > 0 && entries(cs[t], h)[0].0 == ks[t - 1],
        entries(a, h) == entries(cs[j], h) + entries(cs[j + 1], h),
        entries(cs[j], h).len() > 0,
    ensures
        children_entries(cs.update(j, a).remove(j + 1), h) == children_entries(cs, h),
        forall|t: int| 1 <= t < cs.len() - 1 ==> entries(#[trigger] cs.update(j, a).remove(j + 1)[t], h).len() > 0
            && entries(cs.update(j, a).remove(j + 1)[t], h)[0].0 == ks.remove(j)[t - 1],
{
    let cs2 = cs.update(j, a).remove(j + 1);
    lemma_children_entries_pair(cs, h, j);
    lemma_children_entries_split(cs2, h, j);
    assert(cs2.subrange(0, j) =~= cs.subrange(0, j));
    assert(cs2.subrange(j + 1, cs2.len() as int) =~= cs.subrange(j + 2, cs.len() as int));
    assert(children_entries(cs.subrange(0, j), h) + entries(cs[j], h) + entries(cs[j + 1], h) =~= children_entries(cs.subrange(0, j), h) + (entries(cs[j], h) + entries(cs[j + 1], h)));
    assert forall|t: int| 1 <= t < cs.len() - 1 implies entries(#[trigger] cs2[t], h).len() > 0 && entries(cs2[t], h)[0].0 == ks.remove(j)[t - 1] by {
        if t < j {
            assert(cs2[t] == cs[t]);
        } else if t == j {
            assert(cs2[t] == a);
            assert(entries(a, h)[0] == entries(cs[j], h)[0]);
        } else {
            assert(cs2[t] == cs[t + 1]);
        }
    }
}

fn node_len_exec<K: StableKey, V>(n: &BTreeNode<K, V>, Ghost(h): Ghost<nat>, Ghost(lo): Ghost<nat>, Ghost(hi): Ghost<nat>) -> (r: usize)
    requires
        wf_node(*n, h, lo, hi),
    ensures
        r == node_len(*n),
{
    match n {
        BTreeNode::Leaf(l) => l.read_len(),
        BTreeNode::Internal(i) => i.read_len(),
    }
}


/// The place of `k` among sorted entries: after every smaller key, before every larger one.
pub open spec fn insert_position<K: StableKey, V>(s: Seq<(K, V)>, pos: int, k: K) -> bool {
    &&& 0 <= pos <= s.len()
    &&& forall|i: int| 0 <= i < pos ==> #[trigger] s[i].0.key_int() < k.key_int()
    &&& forall|i: int| pos <= i < s.len() ==> #[trigger] s[i].0.key_int() > k.key_int()
}

/// Two adjacent siblings hold sorted entries when all the siblings do.
pub proof fn lemma_pair_sorted<K: StableKey, V>(cs: Seq<BTreeNode<K, V>>, h: nat, j: int)
    requires
        0 <= j,
        j + 1 < cs.len(),
        sorted_entries(children_entries(cs, h)),
    ensures
        sorted_entries(entries(cs[j], h) + entries(cs[j + 1], h)),
{
    lemma_children_entries_pair(cs, h, j);
    let a = children_entries(cs.subrange(0, j), h);
    let s = entries(cs[j], h) + entries(cs[j + 1], h);
    let e = children_entries(cs, h);
    assert(e.subrange(a.len() as int, (a.len() + s.len()) as int) =~= s);
    lemma_sorted_subrange(e, a.len() as int, (a.len() + s.len()) as int);
}

/// Inserting an entry into child `c`, at its place there, inserts it into the node's
/// entries at the child's offset; the order and the separators stay.
pub proof fn lemma_child_insert<K: StableKey, V>(
    i: InternalBTreeNode<K, BTreeNode<K, V>>,
    h: nat,
    lo: nat,
    hi: nat,
    c: int,
    n2: BTreeNode<K, V>,
    pos: int,
    k: K,
    v: V,
)
    requires
        wf_node(BTreeNode::Internal(i), h, lo, hi),
        0 <= c < i.children_view().len(),
        c > 0 ==> i.keys_view()[c - 1].key_int() <= k.key_int(),
        c < i.keys_view().len() ==> k.key_int() < i.keys_view()[c].key_int(),
        insert_position(entries(i.children_view()[c], (h - 1) as nat), pos, k),
        entries(n2, (h - 1) as nat) == entries(i.children_view()[c], (h - 1) as nat).insert(pos, (k, v)),
    ensures
        ({
            let cs = i.children_view();
            let hc = (h - 1) as nat;
            let e = entries(BTreeNode::Internal(i), h);
            let off = child_offset(cs, hc, c);
            &&& insert_position(e, off + pos, k)
            &&& children_entries(cs.update(c, n2), hc) == e.insert(off + pos, (k, v))
            &&& sorted_entries(e.insert(off + pos, (k, v)))
            &&& forall|t: int|
                1 <= t < cs.len() ==> entries(#[trigger] cs.update(c, n2)[t], hc).len() > 0
                    && entries(cs.update(c, n2)[t], hc)[0].0 == i.keys_view()[t - 1]
        }),
{
    let cs = i.children_view();
    let ks = i.keys_view();
    let hc = (h - 1) as nat;
    let e = entries(BTreeNode::Internal(i), h);
    lemma_child_range(i, h, lo, hi, c, k);
    let p = children_entries(cs.subrange(0, c), hc);
    let x = entries(cs[c], hc);
    let q = children_entries(cs.subrange(c + 1, cs.len() as int), hc);
    let cs2 = cs.update(c, n2);
    lemma_children_entries_split(cs2, hc, c);
    assert(cs2.subrange(0, c) =~= cs.subrange(0, c));
    assert(cs2.subrange(c + 1, cs.len() as int) =~= cs.subrange(c + 1, cs.len() as int));
    assert(p + x.insert(pos, (k, v)) + q =~= (p + x + q).insert(p.len() + pos, (k, v)));
    assert forall|t: int| 0 <= t < p.len() + pos implies #[trigger] e[t].0.key_int() < k.key_int() by {
        if t < p.len() {
            assert(e[t] == p[t]);
        } else {
            assert(e[t] == x[t - p.len()]);
        }
    }
    assert forall|t: int| p.len() + pos <= t < e.len() implies #[trigger] e[t].0.key_int() > k.key_int() by {
        if t < p.len() + x.len() {
            assert(e[t] == x[t - p.len()]);
        } else {
            assert(e[t] == q[t - p.len() - x.len()]);
        }
    }
    lemma_internal_parts(i, h, lo, hi);
    lemma_map_insert(e, p.len() + pos, k, v);
    if c > 0 {
        assert(pos > 0) by {
            if pos == 0 {
                assert(x[0].0.key_int() > k.key_int());
            }
        }
    }
    assert forall|t: int| 1 <= t < cs.len() implies entries(#[trigger] cs2[t], hc).len() > 0
        && entries(cs2[t], hc)[0].0 == ks[t - 1] by {
        if t != c {
            assert(cs2[t] == cs[t]);
        } else {
            assert(entries(n2, hc)[0] == x[0]);
        }
    }
}

/// Writing a new value next to a key of child `c` writes it next to that key among the
/// node's entries; the order and the separators stay.
pub proof fn lemma_child_update<K: StableKey, V>(
    i: InternalBTreeNode<K, BTreeNode<K, V>>,
    h: nat,
    lo: nat,
    hi: nat,
    c: int,
    n2: BTreeNode<K, V>,
    pos: int,
    v: V,
)
    requires
        wf_node(BTreeNode::Internal(i), h, lo, hi),
        0 <= c < i.children_view().len(),
        0 <= pos < entries(i.children_view()[c], (h - 1) as nat).len(),
        entries(n2, (h - 1) as nat) == entries(i.children_view()[c], (h - 1) as nat).update(
            pos,
            (entries(i.children_view()[c], (h - 1) as nat)[pos].0, v),
        ),
    ensures
        ({
            let cs = i.children_view();
            let hc = (h - 1) as nat;
            let e = entries(BTreeNode::Internal(i), h);
            let off = child_offset(cs, hc, c);
            &&& 0 <= off + pos < e.len()
            &&& e[off + pos] == entries(cs[c], hc)[pos]
            &&& children_entries(cs.update(c, n2), hc) == e.update(off + pos, (e[off + pos].0, v))
            &&& sorted_entries(e.update(off + pos, (e[off + pos].0, v)))
            &&& forall|t: int|
                1 <= t < cs.len() ==> entries(#[trigger] cs.update(c, n2)[t], hc).len() > 0
                    && entries(cs.update(c, n2)[t], hc)[0].0 == i.keys_view()[t - 1]
        }),
{
    let cs = i.children_view();
    let ks = i.keys_view();
    let hc = (h - 1) as nat;
    let e = entries(BTreeNode::Internal(i), h);
    lemma_children_entries_split(cs, hc, c);
    let p = children_entries(cs.subrange(0, c), hc);
    let x = entries(cs[c], hc);
    let q = children_entries(cs.subrange(c + 1, cs.len() as int), hc);
    let cs2 = cs.update(c, n2);
    lemma_children_entries_split(cs2, hc, c);
    assert(cs2.subrange(0, c) =~= cs.subrange(0, c));
    assert(cs2.subrange(c + 1, cs.len() as int) =~= cs.subrange(c + 1, cs.len() as int));
    assert(e[p.len() + pos] == x[pos]);
    assert(p + x.update(pos, (x[pos].0, v)) + q =~= (p + x + q).update(p.len() + pos, (x[pos].0, v)));
    lemma_internal_parts(i, h, lo, hi);
    lemma_map_update(e, p.len() + pos, v);
    assert forall|t: int| 1 <= t < cs.len() implies entries(#[trigger] cs2[t], hc).len() > 0
        && entries(cs2[t], hc)[0].0 == ks[t - 1] by {
        if t != c {
            assert(cs2[t] == cs[t]);
        } else {
            assert(entries(n2, hc)[0].0 == x[0].0);
        }
    }
}


/// An empty leaf, left in a child slot while the child it held is worked on.
fn placeholder<K: StableKey, V>() -> (r: BTreeNode<K, V>)
    ensures
        r is Leaf,
        r matches BTreeNode::Leaf(l) && l.keys_view() == Seq::<K>::empty() && l.values_view() == Seq::<V>::empty()
            && l.recorded_len() == 0,
        entries(r, 0) == Seq::<(K, V)>::empty(),
{
    BTreeNode::Leaf(LeafBTreeNode::create())
}

/// An internal node that is well formed, except that children `j` and `j + 1` hold
/// between `llo` and `lhi`, and between `rlo` and `rhi`, keys.
pub open spec fn wf_internal_except_pair<K: StableKey, V>(
    i: InternalBTreeNode<K, BTreeNode<K, V>>,
    h: nat,
    lo: nat,
    hi: nat,
    j: int,
    llo: nat,
    lhi: nat,
    rlo: nat,
    rhi: nat,
) -> bool {
    let ks = i.keys_view();
    let cs = i.children_view();
    let hc = (h - 1) as nat;
    &&& h > 0
    &&& cs.len() == ks.len() + 1
    &&& i.recorded_len() == ks.len()
    &&& lo <= ks.len() <= hi
    &&& 0 <= j && j + 1 < cs.len()
    &&& forall|t: int| 0 <= t < cs.len() && t != j && t != j + 1 ==> wf_node(#[trigger] cs[t], hc, MIN_LEN_AFTER_SPLIT as nat, CAPACITY as nat)
    &&& wf_node(cs[j], hc, llo, lhi)
    &&& wf_node(cs[j + 1], hc, rlo, rhi)
    &&& sorted_entries(children_entries(cs, hc))
    &&& forall|t: int| 1 <= t < cs.len() ==> entries(#[trigger] cs[t], hc).len() > 0 && entries(cs[t], hc)[0].0 == ks[t - 1]
}

/// Child `j + 1` passes its first element to child `j`.
fn pass_to_left<K: StableKey, V>(
    node: InternalBTreeNode<K, BTreeNode<K, V>>,
    j: usize,
    Ghost(h): Ghost<nat>,
    Ghost(lo): Ghost<nat>,
) -> (r: InternalBTreeNode<K, BTreeNode<K, V>>)
    requires
        wf_internal_except_pair(node, h, lo, CAPACITY as nat, j as int, (MIN_LEN_AFTER_SPLIT - 1) as nat, (CAPACITY - 1) as nat,
            MIN_LEN_AFTER_SPLIT as nat + 1, CAPACITY as nat + 1),
    ensures
        children_entries(r.children_view(), (h - 1) as nat) == children_entries(node.children_view(), (h - 1) as nat),
        r.keys_view().len() == node.keys_view().len(),
        wf_node(BTreeNode::Internal(r), h, lo, CAPACITY as nat),
{
    let mut node = node;
    let ghost hc = (h - 1) as nat;
    let ghost cs = node.children_view();
    let ghost ks = node.keys_view();
    let sep = node.read_key(j);
    let right = node.write_child_ptr(j + 1, placeholder());
    let left = node.write_child_ptr(j, placeholder());
    proof {
        lemma_pair_sorted(cs, hc, j as int);
    }
    let (l2, r2, sep2, Ghost(d)) = take_first_of_right(left, right, sep, Ghost(hc));
    node.write_child_ptr(j, l2);
    node.write_child_ptr(j + 1, r2);
    node.write_key(j, sep2);
    proof {
        let j = j as int;
        let cs2 = node.children_view();
        assert(cs2 =~= cs.update(j, l2).update(j + 1, r2));
        let el = entries(cs[j], hc);
        let er = entries(cs[j + 1], hc);
        assert(el + er.subrange(0, d) + er.subrange(d, er.len() as int) =~= el + er);
        lemma_nonempty(cs[j], hc, (MIN_LEN_AFTER_SPLIT - 1) as nat, (CAPACITY - 1) as nat);
        assert(entries(l2, hc)[0] == el[0]);
        lemma_replace_pair(cs, ks, hc, j, l2, r2, sep2);
        lemma_wf_bounds(l2, hc, node_len(l2), node_len(l2), MIN_LEN_AFTER_SPLIT as nat, CAPACITY as nat);
        lemma_wf_bounds(r2, hc, node_len(r2), node_len(r2), MIN_LEN_AFTER_SPLIT as nat, CAPACITY as nat);
        assert forall|t: int| 0 <= t < cs2.len() implies wf_node(#[trigger] cs2[t], hc, MIN_LEN_AFTER_SPLIT as nat, CAPACITY as nat) by {
            if t != j && t != j + 1 {
                assert(cs2[t] == cs[t]);
            }
        }
    }
    node
}

/// Child `j` passes its last element to child `j + 1`.
fn pass_to_right<K: StableKey, V>(
    node: InternalBTreeNode<K, BTreeNode<K, V>>,
    j: usize,
    Ghost(h): Ghost<nat>,
    Ghost(lo): Ghost<nat>,
) -> (r: InternalBTreeNode<K, BTreeNode<K, V>>)
    requires
        wf_internal_except_pair(node, h, lo, CAPACITY as nat, j as int, MIN_LEN_AFTER_SPLIT as nat + 1, CAPACITY as nat + 1,
            (MIN_LEN_AFTER_SPLIT - 1) as nat, (CAPACITY - 1) as nat),
    ensures
        children_entries(r.children_view(), (h - 1) as nat) == children_entries(node.children_view(), (h - 1) as nat),
        r.keys_view().len() == node.keys_view().len(),
        wf_node(BTreeNode::Internal(r), h, lo, CAPACITY as nat),
{
    let mut node = node;
    let ghost hc = (h - 1) as nat;
    let ghost cs = node.children_view();
    let ghost ks = node.keys_view();
    let sep = node.read_key(j);
    let left = node.write_child_ptr(j, placeholder());
    let right = node.write_child_ptr(j + 1, placeholder());
    proof {
        lemma_pair_sorted(cs, hc, j as int);
    }
    let (l2, r2, sep2, Ghost(d)) = take_last_of_left(left, right, sep, Ghost(hc));
    node.write_child_ptr(j, l2);
    node.write_child_ptr(j + 1, r2);
    node.write_key(j, sep2);
    proof {
        let j = j as int;
        let cs2 = node.children_view();
        assert(cs2 =~= cs.update(j, l2).update(j + 1, r2));
        let el = entries(cs[j], hc);
        let er = entries(cs[j + 1], hc);
        assert(el.subrange(0, d) + (el.subrange(d, el.len() as int) + er) =~= el + er);
        assert(entries(l2, hc)[0] == el[0]);
        lemma_replace_pair(cs, ks, hc, j, l2, r2, sep2);
        lemma_wf_bounds(l2, hc, node_len(l2), node_len(l2), MIN_LEN_AFTER_SPLIT as nat, CAPACITY as nat);
        lemma_wf_bounds(r2, hc, node_len(r2), node_len(r2), MIN_LEN_AFTER_SPLIT as nat, CAPACITY as nat);
        assert forall|t: int| 0 <= t < cs2.len() implies wf_node(#[trigger] cs2[t], hc, MIN_LEN_AFTER_SPLIT as nat, CAPACITY as nat) by {
            if t != j && t != j + 1 {
                assert(cs2[t] == cs[t]);
            }
        }
    }
    node
}

/// Children `j` and `j + 1` join into one; the separator between them goes.
fn merge_children<K: StableKey, V>(
    node: InternalBTreeNode<K, BTreeNode<K, V>>,
    j: usize,
    Ghost(h): Ghost<nat>,
    Ghost(lo): Ghost<nat>,
) -> (r: InternalBTreeNode<K, BTreeNode<K, V>>)
    requires
        wf_internal_except_pair(node, h, lo, CAPACITY as nat, j as int, (MIN_LEN_AFTER_SPLIT - 1) as nat, MIN_LEN_AFTER_SPLIT as nat,
            (MIN_LEN_AFTER_SPLIT - 1) as nat, MIN_LEN_AFTER_SPLIT as nat),
        node_len(node.children_view()[j as int]) + node_len(node.children_view()[j + 1]) >= 2 * MIN_LEN_AFTER_SPLIT - 1,
    ensures
        children_entries(r.children_view(), (h - 1) as nat) == children_entries(node.children_view(), (h - 1) as nat),
        r.keys_view().len() + 1 == node.keys_view().len(),
        wf_node(BTreeNode::Internal(r), h, r.keys_view().len(), r.keys_view().len()),
{
    let mut node = node;
    let ghost hc = (h - 1) as nat;
    let ghost cs = node.children_view();
    let ghost ks = node.keys_view();
    let len = node.read_len();
    let sep = node.remove_key(j, len);
    let right = node.remove_child_ptr(j + 1, len + 1);
    let left = node.write_child_ptr(j, placeholder());
    proof {
        lemma_pair_sorted(cs, hc, j as int);
        lemma_wf_bounds(cs[j as int], hc, (MIN_LEN_AFTER_SPLIT - 1) as nat, MIN_LEN_AFTER_SPLIT as nat, 0, CAPACITY as nat);
        lemma_wf_bounds(cs[j + 1], hc, (MIN_LEN_AFTER_SPLIT - 1) as nat, MIN_LEN_AFTER_SPLIT as nat, 0, CAPACITY as nat);
    }
    let merged = merge_nodes(left, right, sep, Ghost(hc));
    node.write_child_ptr(j, merged);
    node.write_len(len - 1);
    proof {
        let j = j as int;
        let cs2 = node.children_view();
        assert(cs2 =~= cs.update(j, merged).remove(j + 1));
        lemma_nonempty(cs[j], hc, (MIN_LEN_AFTER_SPLIT - 1) as nat, MIN_LEN_AFTER_SPLIT as nat);
        lemma_replace_merge(cs, ks, hc, j, merged);
        lemma_wf_bounds(merged, hc, node_len(merged), node_len(merged), MIN_LEN_AFTER_SPLIT as nat, CAPACITY as nat);
        assert forall|t: int| 0 <= t < cs2.len() implies wf_node(#[trigger] cs2[t], hc, MIN_LEN_AFTER_SPLIT as nat, CAPACITY as nat) by {
            if t < j {
                assert(cs2[t] == cs[t]);
            } else if t > j {
                assert(cs2[t] == cs[t + 1]);
            }
        }
    }
    node
}

/// Child `c` splits in two; the first key of the second half becomes a new separator.
fn split_child<K: StableKey, V>(
    node: InternalBTreeNode<K, BTreeNode<K, V>>,
    c: usize,
    idx: usize,
    Ghost(h): Ghost<nat>,
    Ghost(lo): Ghost<nat>,
) -> (r: InternalBTreeNode<K, BTreeNode<K, V>>)
    requires
        wf_internal_except(node, h, lo, CAPACITY as nat, c as int, CAPACITY as nat + 1, CAPACITY as nat + 1),
    ensures
        children_entries(r.children_view(), (h - 1) as nat) == children_entries(node.children_view(), (h - 1) as nat),
        r.keys_view().len() == node.keys_view().len() + 1,
        wf_node(BTreeNode::Internal(r), h, lo, CAPACITY as nat + 1),
{
    let mut node = node;
    let ghost hc = (h - 1) as nat;
    let ghost cs = node.children_view();
    let ghost ks = node.keys_view();
    let len = node.read_len();
    let child = node.write_child_ptr(c, placeholder());
    let (a, sep, b) = split_node(child, idx, Ghost(hc));
    node.write_child_ptr(c, a);
    node.insert_key(c, sep, len);
    node.insert_child_ptr(c + 1, b, len + 1);
    node.write_len(len + 1);
    proof {
        let j = c as int;
        let cs2 = node.children_view();
        assert(cs2 =~= cs.update(j, a).insert(j + 1, b));
        assert(entries(a, hc)[0] == entries(cs[j], hc)[0]);
        lemma_replace_split(cs, ks, hc, j, a, b, sep);
        assert forall|t: int| 0 <= t < cs2.len() implies wf_node(#[trigger] cs2[t], hc, MIN_LEN_AFTER_SPLIT as nat, CAPACITY as nat) by {
            if t < j {
                assert(cs2[t] == cs[t]);
            } else if t > j + 1 {
                assert(cs2[t] == cs[t - 1]);
            }
        }
    }
    node
}

/// Child `c` of an internal node has overflowed to `CAPACITY + 1` keys, its last insertion
/// landing at `idx`. It passes one element to its left sibling if that has room, else to
/// its right sibling if that has room, else it splits in two. Returns the node and, if the
/// node itself now holds `CAPACITY + 1` keys, the slot where its new key landed.
fn fix_child_overflow<K: StableKey, V>(
    node: InternalBTreeNode<K, BTreeNode<K, V>>,
    c: usize,
    idx: usize,
    Ghost(h): Ghost<nat>,
    Ghost(lo): Ghost<nat>,
) -> (r: (InternalBTreeNode<K, BTreeNode<K, V>>, Option<usize>))
    requires
        wf_internal_except(node, h, lo, CAPACITY as nat, c as int, CAPACITY as nat + 1, CAPACITY as nat + 1),
    ensures
        children_entries(r.0.children_view(), (h - 1) as nat) == children_entries(node.children_view(), (h - 1) as nat),
        r.1 is None ==> wf_node(BTreeNode::Internal(r.0), h, lo, CAPACITY as nat),
        r.1 matches Some(j) ==> (j <= CAPACITY && wf_node(BTreeNode::Internal(r.0), h, CAPACITY as nat + 1, CAPACITY as nat + 1)),
{
    let ghost hc = (h - 1) as nat;
    let len = node.read_len();
    if c > 0 {
        let left_len = node_len_exec(node.read_child_ptr(c - 1), Ghost(hc), Ghost(MIN_LEN_AFTER_SPLIT as nat), Ghost(CAPACITY as nat));
        if left_len < CAPACITY {
            proof {
                lemma_wf_bounds(node.children_view()[c - 1], hc, MIN_LEN_AFTER_SPLIT as nat, CAPACITY as nat, (MIN_LEN_AFTER_SPLIT - 1) as nat, (CAPACITY - 1) as nat);
                lemma_wf_bounds(node.children_view()[c as int], hc, CAPACITY as nat + 1, CAPACITY as nat + 1, MIN_LEN_AFTER_SPLIT as nat + 1, CAPACITY as nat + 1);
            }
            return (pass_to_left(node, c - 1, Ghost(h), Ghost(lo)), None);
        }
    }
    if c < len {
        let right_len = node_len_exec(node.read_child_ptr(c + 1), Ghost(hc), Ghost(MIN_LEN_AFTER_SPLIT as nat), Ghost(CAPACITY as nat));
        if right_len < CAPACITY {
            proof {
                lemma_wf_bounds(node.children_view()[c + 1], hc, MIN_LEN_AFTER_SPLIT as nat, CAPACITY as nat, (MIN_LEN_AFTER_SPLIT - 1) as nat, (CAPACITY - 1) as nat);
                lemma_wf_bounds(node.children_view()[c as int], hc, CAPACITY as nat + 1, CAPACITY as nat + 1, MIN_LEN_AFTER_SPLIT as nat + 1, CAPACITY as nat + 1);
            }
            return (pass_to_right(node, c, Ghost(h), Ghost(lo)), None);
        }
    }
    let node = split_child(node, c, idx, Ghost(h), Ghost(lo));
    if len + 1 > CAPACITY {
        (node, Some(c))
    } else {
        proof {
            lemma_wf_bounds(BTreeNode::Internal(node), h, lo, CAPACITY as nat + 1, lo, CAPACITY as nat);
        }
        (node, None)
    }
}

/// What an insertion under a node did.
enum InsertOutcome<V> {
    /// The key was there; its old value is handed back.
    Replaced(V),
    /// A new entry went in and the node stays within its bounds.
    Inserted,
    /// A new entry went in and the node now holds `CAPACITY + 1` keys; the new key
    /// (or the new separator) landed in slot `idx`.
    Overflow(usize),
}

/// Inserts `key` and `value` under `node`, which has height `h` and holds at least `lo` keys.
fn insert_rec<K: StableKey, V>(
    node: BTreeNode<K, V>,
    key: K,
    value: V,
    Ghost(h): Ghost<nat>,
    Ghost(lo): Ghost<nat>,
) -> (r: (BTreeNode<K, V>, InsertOutcome<V>, Ghost<int>))
    requires
        wf_node(node, h, lo, CAPACITY as nat),
    ensures
        ({
            let e = entries(node, h);
            let e2 = entries(r.0, h);
            let pos = r.2@;
            match r.1 {
                InsertOutcome::Replaced(old) => {
                    &&& 0 <= pos < e.len()
                    &&& e[pos].0 == key
                    &&& old == e[pos].1
                    &&& e2 == e.update(pos, (key, value))
                    &&& wf_node(r.0, h, lo, CAPACITY as nat)
                },
                InsertOutcome::Inserted => {
                    &&& insert_position(e, pos, key)
                    &&& e2 == e.insert(pos, (key, value))
                    &&& wf_node(r.0, h, lo, CAPACITY as nat)
                },
                InsertOutcome::Overflow(idx) => {
                    &&& insert_position(e, pos, key)
                    &&& e2 == e.insert(pos, (key, value))
                    &&& idx <= CAPACITY
                    &&& wf_node(r.0, h, CAPACITY as nat + 1, CAPACITY as nat + 1)
                },
            }
        }),
    decreases h,
{
    match node {
        BTreeNode::Leaf(mut l) => {
            let len = l.read_len();
            let ghost l0 = l;
            match l.binary_search(&key, len) {
                Ok(i) => {
                    let old = l.write_value(i, value);
                    proof {
                        lemma_zip_update(l0.keys_view(), l0.values_view(), i as int, value);
                    }
                    (BTreeNode::Leaf(l), InsertOutcome::Replaced(old), Ghost(i as int))
                },
                Err(i) => {
                    l.insert_key(i, key, len);
                    l.insert_value(i, value, len);
                    l.write_len(len + 1);
                    proof {
                        let e = zip(l0.keys_view(), l0.values_view());
                        lemma_zip_insert(l0.keys_view(), l0.values_view(), i as int, key, value);
                        assert forall|t: int| 0 <= t < i implies #[trigger] e[t].0.key_int() < key.key_int() by {
                            assert(e[t].0 == l0.keys_view()[t]);
                        }
                        assert forall|t: int| i <= t < e.len() implies #[trigger] e[t].0.key_int() > key.key_int() by {
                            assert(e[t].0 == l0.keys_view()[t]);
                        }
                        lemma_sorted_keys_of_zip(l0.keys_view(), l0.values_view());
                        lemma_map_insert(e, i as int, key, value);
                        lemma_sorted_keys_of_zip(l.keys_view(), l.values_view());
                    }
                    if len + 1 > CAPACITY {
                        (BTreeNode::Leaf(l), InsertOutcome::Overflow(i), Ghost(i as int))
                    } else {
                        (BTreeNode::Leaf(l), InsertOutcome::Inserted, Ghost(i as int))
                    }
                },
            }
        },
        BTreeNode::Internal(mut i) => {
            let ghost i0 = i;
            let ghost hc = (h - 1) as nat;
            let ghost cs = i.children_view();
            proof {
                lemma_internal_keys_sorted(i, h, lo, CAPACITY as nat);
                lemma_internal_parts(i, h, lo, CAPACITY as nat);
            }
            let len = i.read_len();
            let c = match i.binary_search(&key, len) {
                Ok(j) => j + 1,
                Err(j) => j,
            };
            proof {
                if c < len {
                    assert(key.key_int() < i.keys_view()[c as int].key_int());
                }
            }
            let child = i.write_child_ptr(c, placeholder());
            let (child2, out, Ghost(p)) = insert_rec(child, key, value, Ghost(hc), Ghost(MIN_LEN_AFTER_SPLIT as nat));
            i.write_child_ptr(c, child2);
            proof {
                assert(i.children_view() =~= cs.update(c as int, child2));
            }
            match out {
                InsertOutcome::Replaced(old) => {
                    proof {
                        lemma_child_update(i0, h, lo, CAPACITY as nat, c as int, child2, p, value);
                        let cs2 = i.children_view();
                        assert forall|t: int| 0 <= t < cs2.len() implies wf_node(#[trigger] cs2[t], hc, MIN_LEN_AFTER_SPLIT as nat, CAPACITY as nat) by {
                            if t != c {
                                assert(cs2[t] == cs[t]);
                            }
                        }
                    }
                    (BTreeNode::Internal(i), InsertOutcome::Replaced(old), Ghost(child_offset(cs, hc, c as int) + p))
                },
                InsertOutcome::Inserted => {
                    proof {
                        lemma_child_insert(i0, h, lo, CAPACITY as nat, c as int, child2, p, key, value);
                        let cs2 = i.children_view();
                        assert forall|t: int| 0 <= t < cs2.len() implies wf_node(#[trigger] cs2[t], hc, MIN_LEN_AFTER_SPLIT as nat, CAPACITY as nat) by {
                            if t != c {
                                assert(cs2[t] == cs[t]);
                            }
                        }
                    }
                    (BTreeNode::Internal(i), InsertOutcome::Inserted, Ghost(child_offset(cs, hc, c as int) + p))
                },
                InsertOutcome::Overflow(idx) => {
                    proof {
                        lemma_child_insert(i0, h, lo, CAPACITY as nat, c as int, child2, p, key, value);
                        let cs2 = i.children_view();
                        assert forall|t: int| 0 <= t < cs2.len() && t != c implies wf_node(#[trigger] cs2[t], hc, MIN_LEN_AFTER_SPLIT as nat, CAPACITY as nat) by {
                            assert(cs2[t] == cs[t]);
                        }
                    }
                    let (i2, o) = fix_child_overflow(i, c, idx, Ghost(h), Ghost(lo));
                    match o {
                        Some(j) => (BTreeNode::Internal(i2), InsertOutcome::Overflow(j), Ghost(child_offset(cs, hc, c as int) + p)),
                        None => (BTreeNode::Internal(i2), InsertOutcome::Inserted, Ghost(child_offset(cs, hc, c as int) + p)),
                    }
                },
            }
        },
    }
}

/// The entries under a well-formed node are sorted by key.
pub proof fn lemma_wf_sorted<K: StableKey, V>(n: BTreeNode<K, V>, h: nat, lo: nat, hi: nat)
    requires
        wf_node(n, h, lo, hi),
    ensures
        sorted_entries(entries(n, h)),
{
    match n {
        BTreeNode::Leaf(l) => {
            lemma_sorted_keys_of_zip(l.keys_view(), l.values_view());
        },
        BTreeNode::Internal(i) => {
            lemma_internal_parts(i, h, lo, hi);
        },
    }
}

/// Looks `key` up under `node`.
fn get_rec<'a, K: StableKey, V>(node: &'a BTreeNode<K, V>, key: &K, Ghost(h): Ghost<nat>, Ghost(lo): Ghost<nat>) -> (r: Option<&'a V>)
    requires
        wf_node(*node, h, lo, CAPACITY as nat),
    ensures
        r is None ==> forall|i: int| 0 <= i < entries(*node, h).len() ==> #[trigger] entries(*node, h)[i].0 != *key,
        r matches Some(v) ==> exists|i: int| 0 <= i < entries(*node, h).len() && #[trigger] entries(*node, h)[i].0 == *key
            && entries(*node, h)[i].1 == *v,
    decreases h,
{
    match node {
        BTreeNode::Leaf(l) => {
            let len = l.read_len();
            match l.binary_search(key, len) {
                Ok(i) => {
                    let v = l.read_value(i);
                    proof {
                        assert(entries(*node, h)[i as int].0 == *key);
                    }
                    Some(v)
                },
                Err(i) => {
                    proof {
                        assert forall|t: int| 0 <= t < entries(*node, h).len() implies #[trigger] entries(*node, h)[t].0 != *key by {
                            assert(entries(*node, h)[t].0 == l.keys_view()[t]);
                            if t < i {
                                assert(l.keys_view()[t].key_int() < key.key_int());
                            } else {
                                assert(l.keys_view()[t].key_int() > key.key_int());
                            }
                        }
                    }
                    None
                },
            }
        },
        BTreeNode::Internal(i) => {
            let ghost hc = (h - 1) as nat;
            proof {
                lemma_internal_keys_sorted(*i, h, lo, CAPACITY as nat);
                lemma_internal_parts(*i, h, lo, CAPACITY as nat);
            }
            let len = i.read_len();
            let c = match i.binary_search(key, len) {
                Ok(j) => j + 1,
                Err(j) => j,
            };
            proof {
                if c < len {
                    assert(key.key_int() < i.keys_view()[c as int].key_int());
                }
                lemma_child_range(*i, h, lo, CAPACITY as nat, c as int, *key);
            }
            let child = i.read_child_ptr(c);
            let r = get_rec(child, key, Ghost(hc), Ghost(MIN_LEN_AFTER_SPLIT as nat));
            proof {
                let cs = i.children_view();
                let p = children_entries(cs.subrange(0, c as int), hc);
                let x = entries(cs[c as int], hc);
                let q = children_entries(cs.subrange(c + 1, cs.len() as int), hc);
                let e = entries(*node, h);
                assert(e == p + x + q);
                match r {
                    Some(v) => {
                        let t = choose|t: int| 0 <= t < x.len() && #[trigger] x[t].0 == *key && x[t].1 == *v;
                        assert(e[p.len() + t] == x[t]);
                    },
                    None => {
                        assert forall|t: int| 0 <= t < e.len() implies #[trigger] e[t].0 != *key by {
                            if t < p.len() {
                                assert(e[t] == p[t]);
                                assert(p[t].0.key_int() < key.key_int());
                            } else if t < p.len() + x.len() {
                                assert(e[t] == x[t - p.len()]);
                            } else {
                                assert(e[t] == q[t - p.len() - x.len()]);
                                assert(q[t - p.len() - x.len()].0.key_int() > key.key_int());
                            }
                        }
                    },
                }
            }
            r
        },
    }
}

/// Removing an entry from child `c` removes it from the node's entries at the child's
/// offset; the order stays, and so do the separators, but for that of child `c` when the
/// entry removed was its first.
pub proof fn lemma_child_remove<K: StableKey, V>(
    i: InternalBTreeNode<K, BTreeNode<K, V>>,
    h: nat,
    lo: nat,
    hi: nat,
    c: int,
    n2: BTreeNode<K, V>,
    pos: int,
)
    requires
        wf_node(BTreeNode::Internal(i), h, lo, hi),
        0 <= c < i.children_view().len(),
        0 <= pos < entries(i.children_view()[c], (h - 1) as nat).len(),
        entries(n2, (h - 1) as nat) == entries(i.children_view()[c], (h - 1) as nat).remove(pos),
    ensures
        ({
            let cs = i.children_view();
            let hc = (h - 1) as nat;
            let e = entries(BTreeNode::Internal(i), h);
            let off = child_offset(cs, hc, c);
            &&& 0 <= off + pos < e.len()
            &&& e[off + pos] == entries(cs[c], hc)[pos]
            &&& children_entries(cs.update(c, n2), hc) == e.remove(off + pos)
            &&& sorted_entries(e.remove(off + pos))
            &&& forall|t: int|
                1 <= t < cs.len() && (t != c || pos > 0) ==> entries(#[trigger] cs.update(c, n2)[t], hc).len() > 0
                    && entries(cs.update(c, n2)[t], hc)[0].0 == i.keys_view()[t - 1]
        }),
{
    let cs = i.children_view();
    let ks = i.keys_view();
    let hc = (h - 1) as nat;
    let e = entries(BTreeNode::Internal(i), h);
    lemma_children_entries_split(cs, hc, c);
    let p = children_entries(cs.subrange(0, c), hc);
    let x = entries(cs[c], hc);
    let q = children_entries(cs.subrange(c + 1, cs.len() as int), hc);
    let cs2 = cs.update(c, n2);
    lemma_children_entries_split(cs2, hc, c);
    assert(cs2.subrange(0, c) =~= cs.subrange(0, c));
    assert(cs2.subrange(c + 1, cs.len() as int) =~= cs.subrange(c + 1, cs.len() as int));
    assert(e[p.len() + pos] == x[pos]);
    assert(p + x.remove(pos) + q =~= (p + x + q).remove(p.len() + pos));
    lemma_internal_parts(i, h, lo, hi);
    lemma_map_remove(e, p.len() + pos);
    assert forall|t: int| 1 <= t < cs.len() && (t != c || pos > 0) implies entries(#[trigger] cs2[t], hc).len() > 0
        && entries(cs2[t], hc)[0].0 == ks[t - 1] by {
        if t != c {
            assert(cs2[t] == cs[t]);
        } else {
            assert(entries(n2, hc)[0] == x[0]);
        }
    }
}

/// The first key under a node that holds entries.
fn first_key<K: StableKey, V>(node: &BTreeNode<K, V>, Ghost(h): Ghost<nat>, Ghost(lo): Ghost<nat>) -> (r: K)
    requires
        wf_node(*node, h, lo, CAPACITY as nat),
        entries(*node, h).len() > 0,
    ensures
        r == entries(*node, h)[0].0,
    decreases h,
{
    match node {
        BTreeNode::Leaf(l) => l.read_key(0),
        BTreeNode::Internal(i) => {
            proof {
                lemma_internal_first(*i, h, lo, CAPACITY as nat);
                lemma_internal_parts(*i, h, lo, CAPACITY as nat);
            }
            first_key(i.read_child_ptr(0), Ghost((h - 1) as nat), Ghost(MIN_LEN_AFTER_SPLIT as nat))
        },
    }
}

/// Child `c` of an internal node has underflowed to `MIN_LEN_AFTER_SPLIT - 1` keys. It
/// takes an element from its left sibling if that has more than `MIN_LEN_AFTER_SPLIT`,
/// else from its right sibling if that has more, else it merges with its right sibling
/// if there is one, else with its left.
fn fix_child_underflow<K: StableKey, V>(
    node: InternalBTreeNode<K, BTreeNode<K, V>>,
    c: usize,
    Ghost(h): Ghost<nat>,
    Ghost(lo): Ghost<nat>,
) -> (r: InternalBTreeNode<K, BTreeNode<K, V>>)
    requires
        wf_internal_except(node, h, lo, CAPACITY as nat, c as int, (MIN_LEN_AFTER_SPLIT - 1) as nat, (MIN_LEN_AFTER_SPLIT - 1) as nat),
        node.keys_view().len() >= 1,
    ensures
        children_entries(r.children_view(), (h - 1) as nat) == children_entries(node.children_view(), (h - 1) as nat),
        r.keys_view().len() <= node.keys_view().len() <= r.keys_view().len() + 1,
        wf_node(BTreeNode::Internal(r), h, r.keys_view().len(), r.keys_view().len()),
{
    let ghost hc = (h - 1) as nat;
    let ghost cs = node.children_view();
    let ghost mn = MIN_LEN_AFTER_SPLIT as nat;
    let len = node.read_len();
    if c > 0 {
        let left_len = node_len_exec(node.read_child_ptr(c - 1), Ghost(hc), Ghost(mn), Ghost(CAPACITY as nat));
        if left_len > MIN_LEN_AFTER_SPLIT {
            proof {
                lemma_wf_bounds(cs[c - 1], hc, mn, CAPACITY as nat, mn + 1, CAPACITY as nat + 1);
                lemma_wf_bounds(cs[c as int], hc, (mn - 1) as nat, (mn - 1) as nat, (mn - 1) as nat, (CAPACITY - 1) as nat);
            }
            let r = pass_to_right(node, c - 1, Ghost(h), Ghost(0));
            proof {
                lemma_wf_bounds(BTreeNode::Internal(r), h, 0, CAPACITY as nat, r.keys_view().len(), r.keys_view().len());
            }
            return r;
        }
        if c < len {
            let right_len = node_len_exec(node.read_child_ptr(c + 1), Ghost(hc), Ghost(mn), Ghost(CAPACITY as nat));
            if right_len > MIN_LEN_AFTER_SPLIT {
                proof {
                    lemma_wf_bounds(cs[c + 1], hc, mn, CAPACITY as nat, mn + 1, CAPACITY as nat + 1);
                    lemma_wf_bounds(cs[c as int], hc, (mn - 1) as nat, (mn - 1) as nat, (mn - 1) as nat, (CAPACITY - 1) as nat);
                }
                let r = pass_to_left(node, c, Ghost(h), Ghost(0));
                proof {
                    lemma_wf_bounds(BTreeNode::Internal(r), h, 0, CAPACITY as nat, r.keys_view().len(), r.keys_view().len());
                }
                return r;
            }
            proof {
                lemma_wf_bounds(cs[c + 1], hc, mn, CAPACITY as nat, (mn - 1) as nat, mn);
                lemma_wf_bounds(cs[c as int], hc, (mn - 1) as nat, (mn - 1) as nat, (mn - 1) as nat, mn);
            }
            return merge_children(node, c, Ghost(h), Ghost(0));
        }
        proof {
            lemma_wf_bounds(cs[c - 1], hc, mn, CAPACITY as nat, (mn - 1) as nat, mn);
            lemma_wf_bounds(cs[c as int], hc, (mn - 1) as nat, (mn - 1) as nat, (mn - 1) as nat, mn);
        }
        return merge_children(node, c - 1, Ghost(h), Ghost(0));
    }
    let right_len = node_len_exec(node.read_child_ptr(c + 1), Ghost(hc), Ghost(mn), Ghost(CAPACITY as nat));
    if right_len > MIN_LEN_AFTER_SPLIT {
        proof {
            lemma_wf_bounds(cs[c + 1], hc, mn, CAPACITY as nat, mn + 1, CAPACITY as nat + 1);
            lemma_wf_bounds(cs[c as int], hc, (mn - 1) as nat, (mn - 1) as nat, (mn - 1) as nat, (CAPACITY - 1) as nat);
        }
        let r = pass_to_left(node, c, Ghost(h), Ghost(0));
        proof {
            lemma_wf_bounds(BTreeNode::Internal(r), h, 0, CAPACITY as nat, r.keys_view().len(), r.keys_view().len());
        }
        return r;
    }
    proof {
        lemma_wf_bounds(cs[c + 1], hc, mn, CAPACITY as nat, (mn - 1) as nat, mn);
        lemma_wf_bounds(cs[c as int], hc, (mn - 1) as nat, (mn - 1) as nat, (mn - 1) as nat, mn);
    }
    merge_children(node, c, Ghost(h), Ghost(0))
}

/// After an entry left child `c`: the separator before the child follows its new first
/// key if the entry removed was its first, then the child is mended if it underflowed.
fn settle_child<K: StableKey, V>(
    node: InternalBTreeNode<K, BTreeNode<K, V>>,
    c: usize,
    found: bool,
    Ghost(h): Ghost<nat>,
    Ghost(lo): Ghost<nat>,
    Ghost(i0): Ghost<InternalBTreeNode<K, BTreeNode<K, V>>>,
    Ghost(p): Ghost<int>,
) -> (r: InternalBTreeNode<K, BTreeNode<K, V>>)
    requires
        wf_node(BTreeNode::Internal(i0), h, lo, CAPACITY as nat),
        lo >= 1,
        0 <= c < i0.children_view().len(),
        node.keys_view() == i0.keys_view(),
        node.recorded_len() == i0.recorded_len(),
        node.children_view() == i0.children_view().update(c as int, node.children_view()[c as int]),
        0 <= p < entries(i0.children_view()[c as int], (h - 1) as nat).len(),
        entries(node.children_view()[c as int], (h - 1) as nat) == entries(i0.children_view()[c as int], (h - 1) as nat).remove(p),
        wf_node(node.children_view()[c as int], (h - 1) as nat, (MIN_LEN_AFTER_SPLIT - 1) as nat, CAPACITY as nat),
        found == (c >= 1 && p == 0),
    ensures
        children_entries(r.children_view(), (h - 1) as nat) == entries(BTreeNode::Internal(i0), h).remove(
            child_offset(i0.children_view(), (h - 1) as nat, c as int) + p,
        ),
        wf_node(BTreeNode::Internal(r), h, (lo - 1) as nat, CAPACITY as nat),
{
    let mut node = node;
    let ghost hc = (h - 1) as nat;
    let ghost cs = i0.children_view();
    let ghost n2 = node.children_view()[c as int];
    proof {
        lemma_child_remove(i0, h, lo, CAPACITY as nat, c as int, n2, p);
        assert(cs.update(c as int, n2) == node.children_view());
    }
    if found {
        proof {
            lemma_nonempty(n2, hc, (MIN_LEN_AFTER_SPLIT - 1) as nat, CAPACITY as nat);
        }
        let fk = first_key(node.read_child_ptr(c), Ghost(hc), Ghost((MIN_LEN_AFTER_SPLIT - 1) as nat));
        node.write_key(c - 1, fk);
    }
    proof {
        let cs2 = node.children_view();
        assert forall|t: int| 0 <= t < cs2.len() && t != c implies wf_node(#[trigger] cs2[t], hc, MIN_LEN_AFTER_SPLIT as nat, CAPACITY as nat) by {
            assert(cs2[t] == cs[t]);
        }
        assert forall|t: int| 1 <= t < cs2.len() implies entries(#[trigger] cs2[t], hc).len() > 0 && entries(cs2[t], hc)[0].0 == node.keys_view()[t - 1] by {
            if t == c && found {
                lemma_nonempty(n2, hc, (MIN_LEN_AFTER_SPLIT - 1) as nat, CAPACITY as nat);
            }
        }
        assert(wf_internal_except(node, h, lo, CAPACITY as nat, c as int, (MIN_LEN_AFTER_SPLIT - 1) as nat, CAPACITY as nat));
    }
    let clen = node_len_exec(node.read_child_ptr(c), Ghost(hc), Ghost((MIN_LEN_AFTER_SPLIT - 1) as nat), Ghost(CAPACITY as nat));
    if clen < MIN_LEN_AFTER_SPLIT {
        proof {
            lemma_wf_bounds(n2, hc, (MIN_LEN_AFTER_SPLIT - 1) as nat, CAPACITY as nat, (MIN_LEN_AFTER_SPLIT - 1) as nat, (MIN_LEN_AFTER_SPLIT - 1) as nat);
        }
        let r = fix_child_underflow(node, c, Ghost(h), Ghost(lo));
        proof {
            lemma_wf_bounds(BTreeNode::Internal(r), h, r.keys_view().len(), r.keys_view().len(), (lo - 1) as nat, CAPACITY as nat);
        }
        r
    } else {
        proof {
            lemma_wf_bounds(n2, hc, (MIN_LEN_AFTER_SPLIT - 1) as nat, CAPACITY as nat, MIN_LEN_AFTER_SPLIT as nat, CAPACITY as nat);
            lemma_except_to_wf(node, h, lo, CAPACITY as nat, c as int, MIN_LEN_AFTER_SPLIT as nat, CAPACITY as nat);
            lemma_wf_bounds(BTreeNode::Internal(node), h, lo, CAPACITY as nat, (lo - 1) as nat, CAPACITY as nat);
        }
        node
    }
}

/// Removes `key` from under `node`, which has height `h` and holds at least `lo` keys.
fn remove_rec<K: StableKey, V>(node: BTreeNode<K, V>, key: &K, Ghost(h): Ghost<nat>, Ghost(lo): Ghost<nat>) -> (r: (BTreeNode<K, V>, Option<V>, Ghost<int>))
    requires
        wf_node(node, h, lo, CAPACITY as nat),
        node is Internal ==> lo >= 1,
    ensures
        ({
            let e = entries(node, h);
            let pos = r.2@;
            match r.1 {
                None => {
                    &&& entries(r.0, h) == e
                    &&& wf_node(r.0, h, lo, CAPACITY as nat)
                    &&& forall|t: int| 0 <= t < e.len() ==> #[trigger] e[t].0 != *key
                },
                Some(v) => {
                    &&& 0 <= pos < e.len()
                    &&& e[pos].0 == *key
                    &&& v == e[pos].1
                    &&& entries(r.0, h) == e.remove(pos)
                    &&& wf_node(r.0, h, if lo > 0 { (lo - 1) as nat } else { 0 }, CAPACITY as nat)
                },
            }
        }),
    decreases h,
{
    match node {
        BTreeNode::Leaf(mut l) => {
            let len = l.read_len();
            let ghost l0 = l;
            match l.binary_search(key, len) {
                Ok(i) => {
                    let v = l.remove_and_disown_by_idx(i, len);
                    l.write_len(len - 1);
                    proof {
                        let e = zip(l0.keys_view(), l0.values_view());
                        lemma_zip_remove(l0.keys_view(), l0.values_view(), i as int);
                        lemma_sorted_keys_of_zip(l0.keys_view(), l0.values_view());
                        lemma_map_remove(e, i as int);
                        lemma_sorted_keys_of_zip(l.keys_view(), l.values_view());
                    }
                    (BTreeNode::Leaf(l), Some(v), Ghost(i as int))
                },
                Err(i) => {
                    proof {
                        let e = entries(BTreeNode::Leaf(l0), h);
                        assert forall|t: int| 0 <= t < e.len() implies #[trigger] e[t].0 != *key by {
                            assert(e[t].0 == l.keys_view()[t]);
                            if t < i {
                                assert(l.keys_view()[t].key_int() < key.key_int());
                            } else {
                                assert(l.keys_view()[t].key_int() > key.key_int());
                            }
                        }
                    }
                    (BTreeNode::Leaf(l), None, Ghost(0))
                },
            }
        },
        BTreeNode::Internal(mut i) => {
            let ghost i0 = i;
            let ghost hc = (h - 1) as nat;
            let ghost cs = i.children_view();
            let ghost ks = i.keys_view();
            proof {
                lemma_internal_keys_sorted(i, h, lo, CAPACITY as nat);
                lemma_internal_parts(i, h, lo, CAPACITY as nat);
            }
            let len = i.read_len();
            let (c, found) = match i.binary_search(key, len) {
                Ok(j) => (j + 1, true),
                Err(j) => (j, false),
            };
            proof {
                if c < len {
                    assert(key.key_int() < ks[c as int].key_int());
                }
                lemma_child_range(i, h, lo, CAPACITY as nat, c as int, *key);
            }
            let child = i.write_child_ptr(c, placeholder());
            let (child2, out, Ghost(p)) = remove_rec(child, key, Ghost(hc), Ghost(MIN_LEN_AFTER_SPLIT as nat));
            i.write_child_ptr(c, child2);
            proof {
                assert(i.children_view() =~= cs.update(c as int, child2));
            }
            match out {
                None => {
                    proof {
                        let cs2 = i.children_view();
                        let e = entries(BTreeNode::Internal(i0), h);
                        let pp = children_entries(cs.subrange(0, c as int), hc);
                        let x = entries(cs[c as int], hc);
                        let q = children_entries(cs.subrange(c + 1, cs.len() as int), hc);
                        lemma_children_entries_split(cs2, hc, c as int);
                        assert(cs2.subrange(0, c as int) =~= cs.subrange(0, c as int));
                        assert(cs2.subrange(c + 1, cs.len() as int) =~= cs.subrange(c + 1, cs.len() as int));
                        assert forall|t: int| 0 <= t < cs2.len() implies wf_node(#[trigger] cs2[t], hc, MIN_LEN_AFTER_SPLIT as nat, CAPACITY as nat) by {
                            if t != c {
                                assert(cs2[t] == cs[t]);
                            }
                        }
                        assert forall|t: int| 1 <= t < cs2.len() implies entries(#[trigger] cs2[t], hc).len() > 0 && entries(cs2[t], hc)[0].0 == ks[t - 1] by {
                            if t != c {
                                assert(cs2[t] == cs[t]);
                            }
                        }
                        assert forall|t: int| 0 <= t < e.len() implies #[trigger] e[t].0 != *key by {
                            if t < pp.len() {
                                assert(e[t] == pp[t]);
                                assert(pp[t].0.key_int() < key.key_int());
                            } else if t < pp.len() + x.len() {
                                assert(e[t] == x[t - pp.len()]);
                            } else {
                                assert(e[t] == q[t - pp.len() - x.len()]);
                                assert(q[t - pp.len() - x.len()].0.key_int() > key.key_int());
                            }
                        }
                    }
                    (BTreeNode::Internal(i), None, Ghost(0))
                },
                Some(v) => {
                    proof {
                        let x = entries(cs[c as int], hc);
                        lemma_internal_parts(i0, h, lo, CAPACITY as nat);
                        lemma_wf_sorted(cs[c as int], hc, MIN_LEN_AFTER_SPLIT as nat, CAPACITY as nat);
                        if c >= 1 {
                            assert(x[0].0 == ks[c - 1]);
                            if found {
                                if p > 0 {
                                    assert(x[0].0.key_int() < x[p].0.key_int());
                                }
                            } else {
                                assert(ks[c - 1].key_int() < key.key_int());
                            }
                        }
                    }
                    let i2 = settle_child(i, c, found, Ghost(h), Ghost(lo), Ghost(i0), Ghost(p));
                    proof {
                        lemma_child_remove(i0, h, lo, CAPACITY as nat, c as int, child2, p);
                    }
                    (BTreeNode::Internal(i2), Some(v), Ghost(child_offset(cs, hc, c as int) + p))
                },
            }
        },
    }
}

/// A node holding the keys and the link count of a well-formed internal node, whose
/// children are those of that node but for child `c`, which has the same keys in the
/// same places, is well formed and has the node's entries with those of child `c` in
/// place of the old ones.
pub proof fn lemma_internal_child_values<K: StableKey, V>(
    i0: InternalBTreeNode<K, BTreeNode<K, V>>,
    ii: InternalBTreeNode<K, BTreeNode<K, V>>,
    h: nat,
    lo: nat,
    hi: nat,
    c: int,
)
    requires
        wf_node(BTreeNode::Internal(i0), h, lo, hi),
        0 <= c < i0.children_view().len(),
        ii.keys_view() == i0.keys_view(),
        ii.recorded_len() == i0.recorded_len(),
        ii.children_view() == i0.children_view().update(c, ii.children_view()[c]),
        wf_node(ii.children_view()[c], (h - 1) as nat, MIN_LEN_AFTER_SPLIT as nat, CAPACITY as nat),
        entries(ii.children_view()[c], (h - 1) as nat).len() == entries(i0.children_view()[c], (h - 1) as nat).len(),
        forall|t: int| 0 <= t < entries(ii.children_view()[c], (h - 1) as nat).len() ==>
            (#[trigger] entries(ii.children_view()[c], (h - 1) as nat)[t]).0 == entries(i0.children_view()[c], (h - 1) as nat)[t].0,
    ensures
        wf_node(BTreeNode::Internal(ii), h, lo, hi),
        entries(BTreeNode::Internal(ii), h) == children_entries(i0.children_view().subrange(0, c), (h - 1) as nat)
            + entries(ii.children_view()[c], (h - 1) as nat) + children_entries(
            i0.children_view().subrange(c + 1, i0.children_view().len() as int),
            (h - 1) as nat,
        ),
{
    let cs = i0.children_view();
    let cs2 = ii.children_view();
    let hc = (h - 1) as nat;
    let ks = i0.keys_view();
    let n2 = cs2[c];
    lemma_internal_parts(i0, h, lo, hi);
    lemma_children_entries_split(cs, hc, c);
    lemma_children_entries_split(cs2, hc, c);
    assert(cs2.subrange(0, c) =~= cs.subrange(0, c));
    assert(cs2.subrange(c + 1, cs.len() as int) =~= cs.subrange(c + 1, cs.len() as int));
    let p = children_entries(cs.subrange(0, c), hc);
    let x = entries(cs[c], hc);
    let x2 = entries(n2, hc);
    let q = children_entries(cs.subrange(c + 1, cs.len() as int), hc);
    let e = p + x + q;
    let e2 = p + x2 + q;
    assert forall|a: int, b: int| 0 <= a < b < e2.len() implies e2[a].0.key_int() < e2[b].0.key_int() by {
        assert(e2[a].0 == e[a].0) by {
            if a >= p.len() && a < p.len() + x.len() {
                assert(x2[a - p.len()].0 == x[a - p.len()].0);
            }
        }
        assert(e2[b].0 == e[b].0) by {
            if b >= p.len() && b < p.len() + x.len() {
                assert(x2[b - p.len()].0 == x[b - p.len()].0);
            }
        }
    }
    assert forall|t: int| 0 <= t < cs2.len() implies wf_node(#[trigger] cs2[t], hc, MIN_LEN_AFTER_SPLIT as nat, CAPACITY as nat) by {
        if t != c {
            assert(cs2[t] == cs[t]);
        }
    }
    assert forall|t: int| 1 <= t < cs2.len() implies entries(#[trigger] cs2[t], hc).len() > 0 && entries(cs2[t], hc)[0].0 == ks[t - 1] by {
        if t != c {
            assert(cs2[t] == cs[t]);
        } else {
            assert(entries(cs[t], hc).len() > 0);
            assert(x2[0].0 == x[0].0);
        }
    }
}

/// Finds the value of `key` in a leaf, to change in place.
fn leaf_get_mut<'a, K: StableKey, V>(l: &'a mut LeafBTreeNode<K, V>, key: &K, Ghost(lo): Ghost<nat>) -> (r: (Option<&'a mut V>, Ghost<int>))
    requires
        wf_node(BTreeNode::Leaf(*old(l)), 0, lo, CAPACITY as nat),
    ensures
        wf_node(BTreeNode::Leaf(*final(l)), 0, lo, CAPACITY as nat),
        leaf_entries(*final(l)).len() == leaf_entries(*old(l)).len(),
        r.0 is None ==> *final(l) == *old(l) && forall|i: int|
            0 <= i < leaf_entries(*old(l)).len() ==> #[trigger] leaf_entries(*old(l))[i].0 != *key,
        r.0 matches Some(v) ==> ({
            let e = leaf_entries(*old(l));
            let pos = r.1@;
            &&& 0 <= pos < e.len()
            &&& e[pos].0 == *key
            &&& *v == e[pos].1
            &&& leaf_entries(*final(l)) == e.update(pos, (*key, *final(v)))
        }),
        forall|t: int| 0 <= t < leaf_entries(*final(l)).len() ==> (#[trigger] leaf_entries(*final(l))[t]).0 == leaf_entries(*old(l))[t].0,
{
    let len = l.read_len();
    let ghost l0 = *l;
    match l.binary_search(key, len) {
        Ok(i) => {
            let v = l.value_mut(i);
            (Some(v), Ghost(i as int))
        },
        Err(i) => {
            proof {
                let e = leaf_entries(l0);
                assert forall|t: int| 0 <= t < e.len() implies #[trigger] e[t].0 != *key by {
                    assert(e[t].0 == l0.keys_view()[t]);
                    if t < i {
                        assert(l0.keys_view()[t].key_int() < key.key_int());
                    } else {
                        assert(l0.keys_view()[t].key_int() > key.key_int());
                    }
                }
            }
            (None, Ghost(0))
        },
    }
}

/// Finds the value of `key` under `node`, to change in place.
fn get_mut_rec<'a, K: StableKey, V>(node: &'a mut BTreeNode<K, V>, key: &K, Ghost(h): Ghost<nat>, Ghost(lo): Ghost<nat>) -> (r: (Option<&'a mut V>, Ghost<int>))
    requires
        wf_node(*old(node), h, lo, CAPACITY as nat),
    ensures
        wf_node(*final(node), h, lo, CAPACITY as nat),
        entries(*final(node), h).len() == entries(*old(node), h).len(),
        r.0 is None ==> entries(*final(node), h) == entries(*old(node), h) && forall|i: int|
            0 <= i < entries(*old(node), h).len() ==> #[trigger] entries(*old(node), h)[i].0 != *key,
        r.0 matches Some(v) ==> ({
            let e = entries(*old(node), h);
            let pos = r.1@;
            &&& 0 <= pos < e.len()
            &&& e[pos].0 == *key
            &&& *v == e[pos].1
            &&& entries(*final(node), h) == e.update(pos, (*key, *final(v)))
        }),
        forall|t: int| 0 <= t < entries(*final(node), h).len() ==> (#[trigger] entries(*final(node), h)[t]).0 == entries(*old(node), h)[t].0,
    decreases h, 1nat,
{
    match node {
        BTreeNode::Leaf(l) => {
            proof {
                assert forall|l2: LeafBTreeNode<K, V>| #[trigger] entries(BTreeNode::Leaf(l2), h) == leaf_entries(l2) by {}
            }
            leaf_get_mut(l, key, Ghost(lo))
        },
        BTreeNode::Internal(i) => internal_get_mut(i, key, Ghost(h), Ghost(lo)),
    }
}

/// Finds the value of `key` under an internal node of height `h`, to change in place.
fn internal_get_mut<'a, K: StableKey, V>(i: &'a mut InternalBTreeNode<K, BTreeNode<K, V>>, key: &K, Ghost(h): Ghost<nat>, Ghost(lo): Ghost<nat>) -> (r: (Option<&'a mut V>, Ghost<int>))
    requires
        wf_node(BTreeNode::Internal(*old(i)), h, lo, CAPACITY as nat),
    ensures
        wf_node(BTreeNode::Internal(*final(i)), h, lo, CAPACITY as nat),
        entries(BTreeNode::Internal(*final(i)), h).len() == entries(BTreeNode::Internal(*old(i)), h).len(),
        r.0 is None ==> entries(BTreeNode::Internal(*final(i)), h) == entries(BTreeNode::Internal(*old(i)), h) && forall|t: int|
            0 <= t < entries(BTreeNode::Internal(*old(i)), h).len() ==> #[trigger] entries(BTreeNode::Internal(*old(i)), h)[t].0 != *key,
        r.0 matches Some(v) ==> ({
            let e = entries(BTreeNode::Internal(*old(i)), h);
            let pos = r.1@;
            &&& 0 <= pos < e.len()
            &&& e[pos].0 == *key
            &&& *v == e[pos].1
            &&& entries(BTreeNode::Internal(*final(i)), h) == e.update(pos, (*key, *final(v)))
        }),
        forall|t: int| 0 <= t < entries(BTreeNode::Internal(*final(i)), h).len() ==> (#[trigger] entries(BTreeNode::Internal(*final(i)), h)[t]).0 == entries(BTreeNode::Internal(*old(i)), h)[t].0,
    decreases h, 0nat,
{
    let ghost i0 = *i;
    let ghost hc = (h - 1) as nat;
    proof {
        lemma_internal_keys_sorted(i0, h, lo, CAPACITY as nat);
        lemma_internal_parts(i0, h, lo, CAPACITY as nat);
    }
    let len = i.read_len();
    let c = match i.binary_search(key, len) {
        Ok(j) => j + 1,
        Err(j) => j,
    };
    proof {
        if c < len {
            assert(key.key_int() < i0.keys_view()[c as int].key_int());
        }
        lemma_child_range(i0, h, lo, CAPACITY as nat, c as int, *key);
        assert forall|ii: InternalBTreeNode<K, BTreeNode<K, V>>|
            #![trigger wf_node(BTreeNode::Internal(ii), h, lo, CAPACITY as nat)]
            #![trigger entries(BTreeNode::Internal(ii), h)]
            ii.keys_view() == i0.keys_view() && ii.recorded_len() == i0.recorded_len()
                && ii.children_view() == i0.children_view().update(c as int, ii.children_view()[c as int])
                && wf_node(ii.children_view()[c as int], hc, MIN_LEN_AFTER_SPLIT as nat, CAPACITY as nat)
                && entries(ii.children_view()[c as int], hc).len() == entries(i0.children_view()[c as int], hc).len()
                && (forall|t: int| 0 <= t < entries(ii.children_view()[c as int], hc).len() ==>
                    (#[trigger] entries(ii.children_view()[c as int], hc)[t]).0 == entries(i0.children_view()[c as int], hc)[t].0)
            implies wf_node(BTreeNode::Internal(ii), h, lo, CAPACITY as nat)
                && entries(BTreeNode::Internal(ii), h) == children_entries(i0.children_view().subrange(0, c as int), hc)
                    + entries(ii.children_view()[c as int], hc) + children_entries(
                    i0.children_view().subrange(c + 1, i0.children_view().len() as int), hc) by {
            lemma_internal_child_values(i0, ii, h, lo, CAPACITY as nat, c as int);
        }
    }
    let child = i.child_mut(c);
    let (r, Ghost(p)) = get_mut_rec(child, key, Ghost(hc), Ghost(MIN_LEN_AFTER_SPLIT as nat));
    let ghost off = child_offset(i0.children_view(), hc, c as int);
    proof {
        let cs = i0.children_view();
        let pp = children_entries(cs.subrange(0, c as int), hc);
        let x = entries(cs[c as int], hc);
        let q = children_entries(cs.subrange(c + 1, cs.len() as int), hc);
        let e = entries(BTreeNode::Internal(i0), h);
        assert(e == pp + x + q);
        if r is Some {
            {
                assert(e[off + p] == x[p]);
                assert forall|vv: V| pp + #[trigger] x.update(p, (*key, vv)) + q == e.update(off + p, (*key, vv)) by {
                    assert(pp + x.update(p, (*key, vv)) + q =~= e.update(off + p, (*key, vv)));
                }
            }
        } else {
            {
                assert forall|t: int| 0 <= t < e.len() implies #[trigger] e[t].0 != *key by {
                    if t < pp.len() {
                        assert(e[t] == pp[t]);
                        assert(pp[t].0.key_int() < key.key_int());
                    } else if t < pp.len() + x.len() {
                        assert(e[t] == x[t - pp.len()]);
                    } else {
                        assert(e[t] == q[t - pp.len() - x.len()]);
                        assert(q[t - pp.len() - x.len()].0.key_int() > key.key_int());
                    }
                }
            }
        }
        assert forall|x2: Seq<(K, V)>| x2.len() == x.len() && (forall|t: int| 0 <= t < x2.len() ==> (#[trigger] x2[t]).0 == x[t].0)
            implies forall|t: int| 0 <= t < (pp + x2 + q).len() ==> (#[trigger] (pp + x2 + q)[t]).0 == e[t].0 by {
            assert forall|t: int| 0 <= t < (pp + x2 + q).len() implies (#[trigger] (pp + x2 + q)[t]).0 == e[t].0 by {
                if t >= pp.len() && t < pp.len() + x.len() {
                    assert(x2[t - pp.len()].0 == x[t - pp.len()].0);
                }
            }
        }
    }
    (r, Ghost(off + p))
}

/// The first entry under `node`.
fn first_rec<K: StableKey, V: Copy>(node: &BTreeNode<K, V>, Ghost(h): Ghost<nat>, Ghost(lo): Ghost<nat>) -> (r: (K, V))
    requires
        wf_node(*node, h, lo, CAPACITY as nat),
        entries(*node, h).len() >= 1,
    ensures
        r == entries(*node, h)[0],
    decreases h,
{
    match node {
        BTreeNode::Leaf(l) => {
            let k = l.read_key(0);
            let v = *l.read_value(0);
            (k, v)
        },
        BTreeNode::Internal(i) => {
            proof {
                lemma_internal_first(*i, h, lo, CAPACITY as nat);
            }
            let child = i.read_child_ptr(0);
            first_rec(child, Ghost((h - 1) as nat), Ghost(MIN_LEN_AFTER_SPLIT as nat))
        },
    }
}

/// The last entry under `node`.
fn last_rec<K: StableKey, V: Copy>(node: &BTreeNode<K, V>, Ghost(h): Ghost<nat>, Ghost(lo): Ghost<nat>) -> (r: (K, V))
    requires
        wf_node(*node, h, lo, CAPACITY as nat),
        entries(*node, h).len() >= 1,
    ensures
        r == entries(*node, h).last(),
    decreases h,
{
    match node {
        BTreeNode::Leaf(l) => {
            let len = l.read_len();
            let k = l.read_key(len - 1);
            let v = *l.read_value(len - 1);
            (k, v)
        },
        BTreeNode::Internal(i) => {
            let len = i.read_len();
            let ghost hc = (h - 1) as nat;
            let ghost cs = i.children_view();
            proof {
                lemma_internal_parts(*i, h, lo, CAPACITY as nat);
                assert(wf_node(cs[len as int], hc, MIN_LEN_AFTER_SPLIT as nat, CAPACITY as nat));
                lemma_nonempty(cs[len as int], hc, MIN_LEN_AFTER_SPLIT as nat, CAPACITY as nat);
                lemma_children_entries_split(cs, hc, len as int);
                assert(cs.subrange(len + 1, cs.len() as int) =~= Seq::<BTreeNode<K, V>>::empty());
                let x = entries(cs[len as int], hc);
                let pre = children_entries(cs.subrange(0, len as int), hc);
                assert(children_entries(cs, hc) =~= pre + x);
            }
            let child = i.read_child_ptr(len);
            last_rec(child, Ghost(hc), Ghost(MIN_LEN_AFTER_SPLIT as nat))
        },
    }
}

/// The fewest keys the root holds: an internal root holds at least one.
pub open spec fn root_min_len(h: nat) -> nat {
    if h > 0 { 1 } else { 0 }
}

/// Appends the entries under `node` to `out`.
fn collect_rec<K: StableKey, V: Copy>(node: &BTreeNode<K, V>, out: &mut Vec<(K, V)>, Ghost(h): Ghost<nat>, Ghost(lo): Ghost<nat>)
    requires
        wf_node(*node, h, lo, CAPACITY as nat),
    ensures
        final(out)@ == old(out)@ + entries(*node, h),
    decreases h,
{
    match node {
        BTreeNode::Leaf(l) => {
            let len = l.read_len();
            let ghost o = out@;
            let mut j: usize = 0;
            while j < len
                invariant
                    j <= len,
                    len == l.keys_view().len(),
                    len == l.values_view().len(),
                    out@ == o + leaf_entries(*l).subrange(0, j as int),
                decreases len - j,
            {
                out.push((l.read_key(j), *l.read_value(j)));
                j = j + 1;
                assert(out@ =~= o + leaf_entries(*l).subrange(0, j as int));
            }
            assert(leaf_entries(*l).subrange(0, len as int) =~= leaf_entries(*l));
        },
        BTreeNode::Internal(i) => {
            let len = i.read_len();
            let ghost o = out@;
            let ghost hc = (h - 1) as nat;
            let ghost cs = i.children_view();
            proof {
                lemma_internal_parts(*i, h, lo, CAPACITY as nat);
            }
            let mut j: usize = 0;
            while j <= len
                invariant
                    j <= len + 1,
                    len + 1 == cs.len(),
                    len <= CAPACITY,
                    cs == i.children_view(),
                    h > 0,
                    hc == h - 1,
                    forall|t: int| 0 <= t < cs.len() ==> wf_node(#[trigger] cs[t], hc, MIN_LEN_AFTER_SPLIT as nat, CAPACITY as nat),
                    out@ == o + children_entries(cs.subrange(0, j as int), hc),
                decreases len + 1 - j,
            {
                let ghost before = out@;
                collect_rec(i.read_child_ptr(j), out, Ghost(hc), Ghost(MIN_LEN_AFTER_SPLIT as nat));
                proof {
                    lemma_child_position_len(cs, hc, j as int);
                    let a = cs.subrange(0, j as int);
                    lemma_children_entries_concat(a, seq![cs[j as int]], hc);
                    lemma_children_entries_one(cs[j as int], hc);
                    assert(cs.subrange(0, j + 1) =~= a + seq![cs[j as int]]);
                    assert(out@ =~= o + children_entries(cs.subrange(0, j + 1), hc));
                }
                j = j + 1;
            }
            assert(cs.subrange(0, cs.len() as int) =~= cs);
        },
    }
}

/// A map stored as a B+ tree: every leaf but a lone root holds between
/// `MIN_LEN_AFTER_SPLIT` and `CAPACITY` entries, and all leaves sit at the same depth.
pub struct SBTreeMap<K, V> {
    root: Option<BTreeNode<K, V>>,
    len: u64,
    height: Ghost<nat>,
}

impl<K: StableKey, V> SBTreeMap<K, V> {
    /// The entries of the map in increasing key order.
    pub closed spec fn entries(&self) -> Seq<(K, V)> {
        match self.root {
            None => Seq::empty(),
            Some(n) => entries(n, self.height@),
        }
    }

    pub closed spec fn wf(&self) -> bool {
        match self.root {
            None => self.len == 0,
            Some(n) => wf_node(n, self.height@, root_min_len(self.height@), CAPACITY as nat)
                && entries(n, self.height@).len() == self.len,
        }
    }

    pub proof fn lemma_wf(&self)
        requires
            self.wf(),
        ensures
            sorted_entries(self.entries()),
            self@ == entries_map(self.entries()),
            self@.dom().finite(),
            self@.len() == self.entries().len(),
            self.entries().len() <= u64::MAX,
    {
        if let Some(n) = self.root {
            lemma_wf_sorted(n, self.height@, root_min_len(self.height@), CAPACITY as nat);
        }
        lemma_map_len(self.entries());
    }

    /// An empty map.
    pub fn new() -> (r: Self)
        ensures
            r.wf(),
            r@ == Map::<K, V>::empty(),
            r.entries() == Seq::<(K, V)>::empty(),
    {
        let r = SBTreeMap { root: None, len: 0, height: Ghost(0) };
        assert(r@ =~= Map::<K, V>::empty());
        r
    }

    /// The number of entries.
    pub fn len(&self) -> (r: u64)
        requires
            self.wf(),
        ensures
            r == self@.len(),
    {
        proof {
            self.lemma_wf();
        }
        self.len
    }

    pub fn is_empty(&self) -> (r: bool)
        requires
            self.wf(),
        ensures
            r == (self@.len() == 0),
    {
        self.len() == 0
    }

    /// Inserts `value` under `key`; returns the value that was there.
    pub fn insert(&mut self, key: K, value: V) -> (r: Option<V>)
        requires
            old(self).wf(),
            old(self)@.len() < u64::MAX,
        ensures
            final(self).wf(),
            final(self)@ == old(self)@.insert(key, value),
            r == (if old(self)@.contains_key(key) { Some(old(self)@[key]) } else { None }),
    {
        proof {
            self.lemma_wf();
        }
        let ghost e = self.entries();
        let ghost h: nat = if self.root is Some { self.height@ } else { 0 };
        let root = match self.root.take() {
            Some(n) => n,
            None => BTreeNode::Leaf(LeafBTreeNode::create()),
        };
        assert(entries(root, h) =~= e);
        let (n2, out, Ghost(pos)) = insert_rec(root, key, value, Ghost(h), Ghost(root_min_len(h)));
        match out {
            InsertOutcome::Replaced(old) => {
                self.root = Some(n2);
                self.height = Ghost(h);
                proof {
                    lemma_map_update(e, pos, value);
                    lemma_map_at(e, pos);
                }
                Some(old)
            },
            InsertOutcome::Inserted => {
                self.root = Some(n2);
                self.height = Ghost(h);
                self.len = self.len + 1;
                proof {
                    lemma_map_insert(e, pos, key, value);
                }
                None
            },
            InsertOutcome::Overflow(idx) => {
                let (a, sep, b) = split_node(n2, idx, Ghost(h));
                let new_root = InternalBTreeNode::create(sep, a, b);
                self.root = Some(BTreeNode::Internal(new_root));
                self.height = Ghost(h + 1);
                self.len = self.len + 1;
                proof {
                    lemma_map_insert(e, pos, key, value);
                    let cs = new_root.children_view();
                    assert(cs.drop_last() =~= seq![a]);
                    lemma_children_entries_one(a, h);
                    assert(children_entries(cs, h) == entries(a, h) + entries(b, h));
                    assert forall|j: int| 0 <= j < cs.len() implies wf_node(#[trigger] cs[j], h, MIN_LEN_AFTER_SPLIT as nat, CAPACITY as nat) by {
                        if j == 0 {
                            assert(cs[j] == a);
                        } else {
                            assert(cs[j] == b);
                        }
                    }
                }
                None
            },
        }
    }

    /// The value under `key`, if any.
    pub fn get(&self, key: &K) -> (r: Option<&V>)
        requires
            self.wf(),
        ensures
            r is Some == self@.contains_key(*key),
            r matches Some(v) ==> *v == self@[*key],
    {
        proof {
            self.lemma_wf();
        }
        match &self.root {
            None => None,
            Some(n) => {
                let r = get_rec(n, key, Ghost(self.height@), Ghost(root_min_len(self.height@)));
                proof {
                    let e = self.entries();
                    match r {
                        Some(v) => {
                            let t = choose|t: int| 0 <= t < e.len() && #[trigger] e[t].0 == *key && e[t].1 == *v;
                            lemma_map_at(e, t);
                        },
                        None => {
                            lemma_map_absent(e, *key);
                        },
                    }
                }
                r
            },
        }
    }

    /// Removes `key`; returns the value it had.
    pub fn remove(&mut self, key: &K) -> (r: Option<V>)
        requires
            old(self).wf(),
        ensures
            final(self).wf(),
            final(self)@ == old(self)@.remove(*key),
            r == (if old(self)@.contains_key(*key) { Some(old(self)@[*key]) } else { None }),
    {
        proof {
            self.lemma_wf();
        }
        let ghost e = self.entries();
        match self.root.take() {
            None => {
                proof {
                    assert(e.len() == 0);
                    lemma_map_absent(e, *key);
                    assert(entries_map(e) =~= entries_map(e).remove(*key));
                }
                None
            },
            Some(n) => {
                let ghost h = self.height@;
                let (n2, out, Ghost(pos)) = remove_rec(n, key, Ghost(h), Ghost(root_min_len(h)));
                match out {
                    None => {
                        self.root = Some(n2);
                        proof {
                            lemma_map_absent(e, *key);
                            assert(entries_map(e) =~= entries_map(e).remove(*key));
                        }
                        None
                    },
                    Some(v) => {
                        self.len = self.len - 1;
                        match n2 {
                            BTreeNode::Internal(mut i) => {
                                if i.read_len() == 0 {
                                    let ghost cs = i.children_view();
                                    let child = i.remove_child_ptr(0, 1);
                                    proof {
                                        assert(cs =~= seq![child]);
                                        assert(wf_node(cs[0], (h - 1) as nat, MIN_LEN_AFTER_SPLIT as nat, CAPACITY as nat));
                                        lemma_children_entries_one(child, (h - 1) as nat);
                                        lemma_wf_bounds(child, (h - 1) as nat, MIN_LEN_AFTER_SPLIT as nat, CAPACITY as nat, root_min_len((h - 1) as nat), CAPACITY as nat);
                                    }
                                    self.root = Some(child);
                                    self.height = Ghost((h - 1) as nat);
                                } else {
                                    proof {
                                        lemma_wf_bounds(BTreeNode::Internal(i), h, 0, CAPACITY as nat, 1, CAPACITY as nat);
                                    }
                                    self.root = Some(BTreeNode::Internal(i));
                                }
                            },
                            BTreeNode::Leaf(l) => {
                                self.root = Some(BTreeNode::Leaf(l));
                            },
                        }
                        proof {
                            lemma_map_remove(e, pos);
                            lemma_map_at(e, pos);
                        }
                        Some(v)
                    },
                }
            },
        }
    }

    /// Removes every entry.
    pub fn clear(&mut self)
        ensures
            final(self).wf(),
            final(self)@ == Map::<K, V>::empty(),
    {
        *self = Self::new();
    }

    /// Releases the map.
    pub fn drop(self) {
    }

    /// The value under `key`, to change in place, if any.
    pub fn get_mut(&mut self, key: &K) -> (r: Option<&mut V>)
        requires
            old(self).wf(),
        ensures
            final(self).wf(),
            old(self)@.contains_key(*key) == r is Some,
            r is None ==> final(self)@ == old(self)@,
            r matches Some(e) ==> (*e == old(self)@[*key] && final(self)@ == old(self)@.insert(*key, *final(e))),
    {
        proof {
            self.lemma_wf();
        }
        let ghost e = self.entries();
        let ghost h = self.height@;
        match &mut self.root {
            None => {
                proof {
                    lemma_map_absent(e, *key);
                }
                None
            },
            Some(n) => {
                proof {
                    assert forall|e2: Seq<(K, V)>| #[trigger] sorted_entries(e2) && e2.len() == e.len() && (forall|t: int| 0 <= t < e2.len() ==> (#[trigger] e2[t]).0 == e[t].0)
                        implies entries_map(e2).dom() == entries_map(e).dom() by {
                        assert(entries_map(e2).dom() =~= entries_map(e).dom()) by {
                            assert forall|k: K| entries_map(e2).dom().contains(k) == entries_map(e).dom().contains(k) by {
                                if entries_map(e2).dom().contains(k) {
                                    let t = choose|t: int| 0 <= t < e2.len() && e2[t].0 == k;
                                    assert(e[t].0 == k);
                                }
                                if entries_map(e).dom().contains(k) {
                                    let t = choose|t: int| 0 <= t < e.len() && e[t].0 == k;
                                    assert(e2[t].0 == k);
                                }
                            }
                        }
                    }
                    assert forall|pos: int, vv: V| 0 <= pos < e.len() && e[pos].0 == *key implies #[trigger] entries_map(e.update(pos, (*key, vv)))
                        == entries_map(e).insert(*key, vv) by {
                        lemma_map_update(e, pos, vv);
                    }
                }
                let (r, Ghost(pos)) = get_mut_rec(n, key, Ghost(h), Ghost(root_min_len(h)));
                proof {
                    if r is Some {
                        lemma_map_at(e, pos);
                    } else {
                        lemma_map_absent(e, *key);
                    }
                }
                r
            },
        }
    }

    /// Whether `key` has a value.
    pub fn contains_key(&self, key: &K) -> (r: bool)
        requires
            self.wf(),
        ensures
            r == self@.contains_key(*key),
    {
        self.get(key).is_some()
    }
}

impl<K: StableKey, V> View for SBTreeMap<K, V> {
    type V = Map<K, V>;

    open spec fn view(&self) -> Map<K, V> {
        entries_map(self.entries())
    }
}

impl<K: StableKey, V: Copy> SBTreeMap<K, V> {
    /// A copy of the value under `key`, if any.
    pub fn get_copy(&self, key: &K) -> (r: Option<V>)
        requires
            self.wf(),
        ensures
            r == (if self@.contains_key(*key) { Some(self@[*key]) } else { None }),
    {
        match self.get(key) {
            Some(v) => Some(*v),
            None => None,
        }
    }

    /// A copy of the entry with the smallest key, if the map is not empty.
    pub fn first_copy(&self) -> (r: Option<(K, V)>)
        requires
            self.wf(),
        ensures
            r is None <==> self@.len() == 0,
            r matches Some(p) ==> self@.contains_key(p.0) && self@[p.0] == p.1
                && forall|k: K| #[trigger] self@.contains_key(k) ==> p.0.key_int() <= k.key_int(),
    {
        proof {
            self.lemma_wf();
        }
        if self.len == 0 {
            return None;
        }
        match &self.root {
            None => None,
            Some(n) => {
                let r = first_rec(n, Ghost(self.height@), Ghost(root_min_len(self.height@)));
                proof {
                    let e = self.entries();
                    lemma_map_at(e, 0);
                    assert forall|k: K| #[trigger] self@.contains_key(k) implies r.0.key_int() <= k.key_int() by {
                        let t = choose|t: int| 0 <= t < e.len() && e[t].0 == k;
                        if t > 0 {
                            assert(e[0].0.key_int() < e[t].0.key_int());
                        }
                    }
                }
                Some(r)
            },
        }
    }

    /// A copy of the entry with the largest key, if the map is not empty.
    pub fn last_copy(&self) -> (r: Option<(K, V)>)
        requires
            self.wf(),
        ensures
            r is None <==> self@.len() == 0,
            r matches Some(p) ==> self@.contains_key(p.0) && self@[p.0] == p.1
                && forall|k: K| #[trigger] self@.contains_key(k) ==> k.key_int() <= p.0.key_int(),
    {
        proof {
            self.lemma_wf();
        }
        if self.len == 0 {
            return None;
        }
        match &self.root {
            None => None,
            Some(n) => {
                let r = last_rec(n, Ghost(self.height@), Ghost(root_min_len(self.height@)));
                proof {
                    let e = self.entries();
                    let last = e.len() - 1;
                    lemma_map_at(e, last);
                    assert forall|k: K| #[trigger] self@.contains_key(k) implies k.key_int() <= r.0.key_int() by {
                        let t = choose|t: int| 0 <= t < e.len() && e[t].0 == k;
                        if t < last {
                            assert(e[t].0.key_int() < e[last].0.key_int());
                        }
                    }
                }
                Some(r)
            },
        }
    }

    /// A cursor over the entries, in increasing key order.
    pub fn iter(&self) -> (r: SBTreeMapIter<K, V>)
        requires
            self.wf(),
        ensures
            r.wf(),
            r.items() == self.entries(),
            r.cursor() is None,
    {
        SBTreeMapIter::new(self)
    }

    /// The entries in increasing key order.
    pub fn entries_vec(&self) -> (r: Vec<(K, V)>)
        requires
            self.wf(),
        ensures
            r@ == self.entries(),
    {
        let mut out: Vec<(K, V)> = Vec::new();
        match &self.root {
            None => {},
            Some(n) => {
                collect_rec(n, &mut out, Ghost(self.height@), Ghost(root_min_len(self.height@)));
                assert(out@ =~= self.entries());
            },
        }
        out
    }

    /// A copy of the value under `key`, if any.
    pub fn get_cloned(&self, key: &K) -> (r: Option<V>)
        requires
            self.wf(),
        ensures
            r == (if self@.contains_key(*key) { Some(self@[*key]) } else { None }),
    {
        match self.get(key) {
            Some(v) => Some(*v),
            None => None,
        }
    }
}

impl<K: StableKey, V> Default for SBTreeMap<K, V> {
    fn default() -> (r: Self)
        ensures
            r.wf(),
            r@ == Map::<K, V>::empty(),
            r.entries() == Seq::<(K, V)>::empty(),
    {
        Self::new()
    }
}

} // verus!
