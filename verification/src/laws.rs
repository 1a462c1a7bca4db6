//! Properties that tie several operations of the collections together, stated over
//! the views that the operations' own contracts use.
use vstd::prelude::*;
use crate::key::StableKey;
use crate::vec::SVec;
use crate::vec_direct::SVecDirect;
use crate::log::SLog;
use crate::binary_heap::{lemma_heap_top, outranks, SBinaryHeap, SHeapType};
use crate::nrb_tree_map::{
    insert_view, lemma_insert_then_lookup, lemma_remove_gives_lookup, lookup, remove_view, NRBTreeMap,
};
use crate::hash_map::{full_len, SHashMap};
use crate::hash_map_direct::SHashMapDirect;
use crate::hash_tree_map::SHashTreeMap;
use crate::hash_set::SHashSet;
use crate::btree_map::SBTreeMap;
use crate::btree_set::SBTreeSet;

verus! {

/// What every map of the library has of a write: a read of the written key gives the
/// written value, other keys keep theirs, removing a key that was new brings the map
/// back, and the length grows by one exactly when the key was new.
proof fn lemma_map_write<K, V>(m: Map<K, V>, k: K, v: V)
    requires
        m.dom().finite(),
    ensures
        m.insert(k, v).contains_key(k),
        m.insert(k, v)[k] == v,
        forall|k2: K| k2 != k ==> (#[trigger] m.insert(k, v).contains_key(k2) == m.contains_key(k2)),
        forall|k2: K| k2 != k && m.contains_key(k2) ==> #[trigger] m.insert(k, v)[k2] == m[k2],
        !m.contains_key(k) ==> m.insert(k, v).remove(k) == m,
        m.insert(k, v).len() == (if m.contains_key(k) { m.len() } else { m.len() + 1 }),
        !m.remove(k).contains_key(k),
        m.remove(k).len() == (if m.contains_key(k) { m.len() - 1 } else { m.len() as int }),
{
    if !m.contains_key(k) {
        assert(m.insert(k, v).remove(k) =~= m);
    } else {
        assert(m.insert(k, v).dom() =~= m.dom());
    }
    if !m.contains_key(k) {
        assert(m.remove(k) =~= m);
    }
}

/// What every set of the library has of an insertion: the element is then in the set,
/// inserting it again changes nothing, and removing an element that was new brings the
/// set back; after a removal the element is not in the set.
proof fn lemma_set_write<T>(s: Set<T>, x: T)
    ensures
        s.insert(x).contains(x),
        s.insert(x).insert(x) == s.insert(x),
        !s.contains(x) ==> s.insert(x).remove(x) == s,
        !s.remove(x).contains(x),
{
    assert(s.insert(x).insert(x) =~= s.insert(x));
    if !s.contains(x) {
        assert(s.insert(x).remove(x) =~= s);
    }
}

/// Pushing onto an `SVec` and popping gives the pushed element back and leaves the
/// vector as it was.
pub proof fn svec_push_pop<T>(v: SVec<T>, x: T)
    requires
        v.wf(),
    ensures
        v@.push(x).len() > 0,
        v@.push(x).last() == x,
        v@.push(x).drop_last() == v@,
{
    assert(v@.push(x).drop_last() =~= v@);
}

/// Inserting into an `SVec` at `i` and removing at `i` gives the element back and
/// leaves the vector as it was.
pub proof fn svec_insert_remove<T>(v: SVec<T>, i: int, x: T)
    requires
        v.wf(),
        0 <= i <= v@.len(),
    ensures
        v@.insert(i, x)[i] == x,
        v@.insert(i, x).remove(i) == v@,
{
    assert(v@.insert(i, x).remove(i) =~= v@);
}

/// Swapping the same two elements of an `SVec` twice leaves it as it was.
pub proof fn svec_swap_twice<T>(v: SVec<T>, i: int, j: int)
    requires
        v.wf(),
        0 <= i < v@.len(),
        0 <= j < v@.len(),
        i != j,
    ensures
        ({
            let s1 = v@.update(i, v@[j]).update(j, v@[i]);
            s1.update(i, s1[j]).update(j, s1[i]) == v@
        }),
{
    let s1 = v@.update(i, v@[j]).update(j, v@[i]);
    assert(s1.update(i, s1[j]).update(j, s1[i]) =~= v@);
}

/// Replacing an element of an `SVec` makes it read back, and putting the returned
/// element back leaves the vector as it was.
pub proof fn svec_replace_back<T>(v: SVec<T>, i: int, x: T)
    requires
        v.wf(),
        0 <= i < v@.len(),
    ensures
        v@.update(i, x)[i] == x,
        v@.update(i, x).update(i, v@[i]) == v@,
{
    assert(v@.update(i, x).update(i, v@[i]) =~= v@);
}

/// Pushing onto an `SVecDirect` and popping gives the pushed element back and leaves
/// the vector as it was.
pub proof fn svec_direct_push_pop<T: Copy>(v: SVecDirect<T>, x: T)
    requires
        v.wf(),
    ensures
        v@.push(x).len() > 0,
        v@.push(x).last() == x,
        v@.push(x).drop_last() == v@,
{
    assert(v@.push(x).drop_last() =~= v@);
}

/// Pushing onto an `SLog` and popping gives the pushed element back and leaves the
/// log as it was.
pub proof fn slog_push_pop<T>(l: SLog<T>, x: T)
    requires
        l.wf(),
    ensures
        l@.push(x).len() > 0,
        l@.push(x).last() == x,
        l@.push(x).drop_last() == l@,
{
    assert(l@.push(x).drop_last() =~= l@);
}

/// A heap gives back what was pushed: after `x` is pushed onto a heap (whose elements
/// are then `after_push`), the element that a pop returns is `x` or one the heap held,
/// and the heap keeps as many elements as it had before the push.
pub proof fn sbinary_heap_push_pop<T: StableKey>(h: SBinaryHeap<T>, after_push: Seq<T>, x: T)
    requires
        h.wf(),
        after_push.len() == h@.len() + 1,
        after_push.to_multiset() == h@.to_multiset().insert(x),
    ensures
        after_push[0] == x || h@.contains(after_push[0]),
        after_push.to_multiset().remove(after_push[0]).len() == h@.len(),
{
    after_push.to_multiset_ensures();
    h@.to_multiset_ensures();
    let y = after_push[0];
    assert(after_push.contains(y));
    assert(after_push.to_multiset().count(y) > 0);
    if y != x {
        assert(h@.to_multiset().count(y) > 0);
    }
}

/// No element of a heap outranks the one on top, so `peek` and `pop` give the greatest
/// element of a max-heap and the least of a min-heap.
pub proof fn sbinary_heap_top<T: StableKey>(h: SBinaryHeap<T>)
    requires
        h.wf(),
    ensures
        forall|i: int| 0 <= i < h@.len() ==> !outranks(h.heap_type(), #[trigger] h@[i], h@[0]),
{
    h.lemma_wf();
    assert forall|i: int| 0 <= i < h@.len() implies !outranks(h.heap_type(), #[trigger] h@[i], h@[0]) by {
        lemma_heap_top(h@, h.heap_type(), i);
    }
}

/// An `SBTreeMap` gives back what was written: see the properties of a map write above.
pub proof fn sbtree_map_write<K: StableKey, V>(m: SBTreeMap<K, V>, k: K, v: V)
    requires
        m.wf(),
    ensures
        m@.insert(k, v).contains_key(k),
        m@.insert(k, v)[k] == v,
        forall|k2: K| k2 != k ==> (#[trigger] m@.insert(k, v).contains_key(k2) == m@.contains_key(k2)),
        forall|k2: K| k2 != k && m@.contains_key(k2) ==> #[trigger] m@.insert(k, v)[k2] == m@[k2],
        !m@.contains_key(k) ==> m@.insert(k, v).remove(k) == m@,
        m@.insert(k, v).len() == (if m@.contains_key(k) { m@.len() } else { m@.len() + 1 }),
        !m@.remove(k).contains_key(k),
        m@.remove(k).len() == (if m@.contains_key(k) { m@.len() - 1 } else { m@.len() as int }),
{
    m.lemma_wf();
    lemma_map_write(m@, k, v);
}

/// An `SHashMap` gives back what was written: see the properties of a map write above.
pub proof fn shash_map_write<K: StableKey, V>(m: SHashMap<K, V>, k: K, v: V)
    requires
        m.wf(),
    ensures
        m@.insert(k, v).contains_key(k),
        m@.insert(k, v)[k] == v,
        forall|k2: K| k2 != k ==> (#[trigger] m@.insert(k, v).contains_key(k2) == m@.contains_key(k2)),
        forall|k2: K| k2 != k && m@.contains_key(k2) ==> #[trigger] m@.insert(k, v)[k2] == m@[k2],
        !m@.contains_key(k) ==> m@.insert(k, v).remove(k) == m@,
        m@.insert(k, v).len() == (if m@.contains_key(k) { m@.len() } else { m@.len() + 1 }),
        !m@.remove(k).contains_key(k),
        m@.remove(k).len() == (if m@.contains_key(k) { m@.len() - 1 } else { m@.len() as int }),
{
    m.lemma_view_finite();
    lemma_map_write(m@, k, v);
}

/// An `SHashTreeMap` gives back what was written: see the properties of a map write above.
pub proof fn shash_tree_map_write<K: StableKey, V>(m: SHashTreeMap<K, V>, k: K, v: V)
    requires
        m.wf(),
    ensures
        m@.insert(k, v).contains_key(k),
        m@.insert(k, v)[k] == v,
        forall|k2: K| k2 != k ==> (#[trigger] m@.insert(k, v).contains_key(k2) == m@.contains_key(k2)),
        forall|k2: K| k2 != k && m@.contains_key(k2) ==> #[trigger] m@.insert(k, v)[k2] == m@[k2],
        !m@.contains_key(k) ==> m@.insert(k, v).remove(k) == m@,
        m@.insert(k, v).len() == (if m@.contains_key(k) { m@.len() } else { m@.len() + 1 }),
        !m@.remove(k).contains_key(k),
        m@.remove(k).len() == (if m@.contains_key(k) { m@.len() - 1 } else { m@.len() as int }),
{
    m.lemma_finite();
    lemma_map_write(m@, k, v);
}

/// An `SHashMapDirect` gives back what was written: see the properties of a map write
/// above.
pub proof fn shash_map_direct_write<K: StableKey, V: Copy>(m: SHashMapDirect<K, V>, k: K, v: V)
    requires
        m.wf(),
    ensures
        m@.insert(k, v).contains_key(k),
        m@.insert(k, v)[k] == v,
        forall|k2: K| k2 != k ==> (#[trigger] m@.insert(k, v).contains_key(k2) == m@.contains_key(k2)),
        forall|k2: K| k2 != k && m@.contains_key(k2) ==> #[trigger] m@.insert(k, v)[k2] == m@[k2],
        !m@.contains_key(k) ==> m@.insert(k, v).remove(k) == m@,
        m@.insert(k, v).len() == (if m@.contains_key(k) { m@.len() } else { m@.len() + 1 }),
        !m@.remove(k).contains_key(k),
        m@.remove(k).len() == (if m@.contains_key(k) { m@.len() - 1 } else { m@.len() as int }),
{
    m.lemma_finite();
    lemma_map_write(m@, k, v);
}

/// An `SHashSet` holds what was inserted: see the properties of a set insertion above.
pub proof fn shash_set_write<T: StableKey>(s: SHashSet<T>, x: T)
    requires
        s.wf(),
    ensures
        s@.insert(x).contains(x),
        s@.insert(x).insert(x) == s@.insert(x),
        !s@.contains(x) ==> s@.insert(x).remove(x) == s@,
        !s@.remove(x).contains(x),
{
    lemma_set_write(s@, x);
}

/// An `SBTreeSet` holds what was inserted: see the properties of a set insertion above.
pub proof fn sbtree_set_write<T: StableKey>(s: SBTreeSet<T>, x: T)
    requires
        s.wf(),
    ensures
        s@.insert(x).contains(x),
        s@.insert(x).insert(x) == s@.insert(x),
        !s@.contains(x) ==> s@.insert(x).remove(x) == s@,
        !s@.remove(x).contains(x),
{
    lemma_set_write(s@, x);
}

/// An `NRBTreeMap` gives back what was just written: a search for `k` right after `v`
/// was put under `k` finds `v`; and taking `k` out gives back what a search for `k`
/// finds.
pub proof fn nrb_tree_map_write<K: StableKey, V: Copy>(m: NRBTreeMap<K, V>, k: K, v: V)
    requires
        m.wf(),
    ensures
        lookup(insert_view(m@, k, v).0, k) == Some(v),
        remove_view(m@, k).1 == lookup(m@, k),
{
    m.lemma_wf();
    lemma_insert_then_lookup(m@, k, v);
    lemma_remove_gives_lookup(m@, k);
}

/// An `SHashMap` of `c` slots has at least two slots and never holds more than
/// `full_len(c)` entries; it is full (`is_full`) at exactly `full_len(c)`, and then one
/// growth to `2 * c - 1` slots leaves it not full, so the next new key grows it once
/// (see `insert`), while a map that is not full keeps its `c` slots.
pub proof fn shash_map_full_grows_once<K: StableKey, V>(m: SHashMap<K, V>)
    requires
        m.wf(),
    ensures
        m.spec_capacity() >= 2,
        m@.len() <= full_len(m.spec_capacity()),
        m@.len() == full_len(m.spec_capacity()) ==> m@.len() < full_len(
            (2 * m.spec_capacity() - 1) as nat,
        ),
{
    m.lemma_capacity();
    let c = m.spec_capacity();
    assert(full_len((2 * c - 1) as nat) > full_len(c)) by (nonlinear_arith)
        requires
            c >= 2,
            full_len((2 * c - 1) as nat) == ((2 * c - 1) * 3) / 4,
            full_len(c) == (c * 3) / 4,
    {
    }
}

/// `u8` keys are ordered by their value: the key integer of `a` is `a` itself, so one
/// key ranks below another exactly when it is the smaller number, and two keys rank
/// the same exactly when they are equal.
pub proof fn key_order_u8(a: u8, b: u8)
    ensures
        a.key_int() == a as int,
        (a.key_int() < b.key_int()) <==> (a < b),
        (a.key_int() == b.key_int()) <==> (a == b),
{
}

/// `u16` keys are ordered by their value: the key integer of `a` is `a` itself, so one
/// key ranks below another exactly when it is the smaller number, and two keys rank
/// the same exactly when they are equal.
pub proof fn key_order_u16(a: u16, b: u16)
    ensures
        a.key_int() == a as int,
        (a.key_int() < b.key_int()) <==> (a < b),
        (a.key_int() == b.key_int()) <==> (a == b),
{
}

/// `u32` keys are ordered by their value: the key integer of `a` is `a` itself, so one
/// key ranks below another exactly when it is the smaller number, and two keys rank
/// the same exactly when they are equal.
pub proof fn key_order_u32(a: u32, b: u32)
    ensures
        a.key_int() == a as int,
        (a.key_int() < b.key_int()) <==> (a < b),
        (a.key_int() == b.key_int()) <==> (a == b),
{
}

/// `u64` keys are ordered by their value: the key integer of `a` is `a` itself, so one
/// key ranks below another exactly when it is the smaller number, and two keys rank
/// the same exactly when they are equal.
pub proof fn key_order_u64(a: u64, b: u64)
    ensures
        a.key_int() == a as int,
        (a.key_int() < b.key_int()) <==> (a < b),
        (a.key_int() == b.key_int()) <==> (a == b),
{
}

/// `u128` keys are ordered by their value: the key integer of `a` is `a` itself, so one
/// key ranks below another exactly when it is the smaller number, and two keys rank
/// the same exactly when they are equal.
pub proof fn key_order_u128(a: u128, b: u128)
    ensures
        a.key_int() == a as int,
        (a.key_int() < b.key_int()) <==> (a < b),
        (a.key_int() == b.key_int()) <==> (a == b),
{
}

/// `usize` keys are ordered by their value: the key integer of `a` is `a` itself, so one
/// key ranks below another exactly when it is the smaller number, and two keys rank
/// the same exactly when they are equal.
pub proof fn key_order_usize(a: usize, b: usize)
    ensures
        a.key_int() == a as int,
        (a.key_int() < b.key_int()) <==> (a < b),
        (a.key_int() == b.key_int()) <==> (a == b),
{
}

/// `i32` keys are ordered by their value: the key integer of `a` is `a` itself, so one
/// key ranks below another exactly when it is the smaller number, and two keys rank
/// the same exactly when they are equal.
pub proof fn key_order_i32(a: i32, b: i32)
    ensures
        a.key_int() == a as int,
        (a.key_int() < b.key_int()) <==> (a < b),
        (a.key_int() == b.key_int()) <==> (a == b),
{
}

/// `i64` keys are ordered by their value: the key integer of `a` is `a` itself, so one
/// key ranks below another exactly when it is the smaller number, and two keys rank
/// the same exactly when they are equal.
pub proof fn key_order_i64(a: i64, b: i64)
    ensures
        a.key_int() == a as int,
        (a.key_int() < b.key_int()) <==> (a < b),
        (a.key_int() == b.key_int()) <==> (a == b),
{
}

/// The entries of an `SBTreeMap` with `u16` keys (as `entries_vec` and the iterator give
/// them) come in ascending numeric key order.
pub proof fn sbtree_map_u16_ascending<V>(m: SBTreeMap<u16, V>)
    requires
        m.wf(),
    ensures
        forall|i: int, j: int| 0 <= i < j < m.entries().len() ==> #[trigger] m.entries()[i].0 < #[trigger] m.entries()[j].0,
{
    m.lemma_wf();
}

/// In an `SBTreeMap` with `i32` keys, the key that `first_copy` promises (no key ranks
/// below it) is the numerically least key, and the one `last_copy` promises is the
/// greatest; the entries come in ascending numeric order.
pub proof fn sbtree_map_i32_ends<V>(m: SBTreeMap<i32, V>, p: i32)
    requires
        m.wf(),
    ensures
        (forall|k: i32| #[trigger] m@.contains_key(k) ==> p.key_int() <= k.key_int()) <==> (forall|k: i32|
            #[trigger] m@.contains_key(k) ==> p <= k),
        (forall|k: i32| #[trigger] m@.contains_key(k) ==> k.key_int() <= p.key_int()) <==> (forall|k: i32|
            #[trigger] m@.contains_key(k) ==> k <= p),
        forall|i: int, j: int| 0 <= i < j < m.entries().len() ==> #[trigger] m.entries()[i].0 < #[trigger] m.entries()[j].0,
{
    m.lemma_wf();
}

/// The elements of an `SBTreeSet` of `u128` (as its iterator gives them) come in
/// ascending numeric order.
pub proof fn sbtree_set_u128_ascending(s: SBTreeSet<u128>)
    requires
        s.wf(),
    ensures
        forall|i: int, j: int| 0 <= i < j < s.elements().len() ==> #[trigger] s.elements()[i] < #[trigger] s.elements()[j],
{
    s.lemma_elements();
}

/// The top of a max-heap of `i64` (what `peek` and `pop` give) is its numerically
/// greatest element.
pub proof fn sbinary_heap_i64_max_top(h: SBinaryHeap<i64>)
    requires
        h.wf(),
        h.heap_type() == SHeapType::Max,
    ensures
        forall|i: int| 0 <= i < h@.len() ==> #[trigger] h@[i] <= h@[0],
{
    sbinary_heap_top(h);
    assert forall|i: int| 0 <= i < h@.len() implies #[trigger] h@[i] <= h@[0] by {
        assert(!outranks(h.heap_type(), h@[i], h@[0]));
    }
}

/// The top of a min-heap of `usize` (what `peek` and `pop` give) is its numerically
/// least element.
pub proof fn sbinary_heap_usize_min_top(h: SBinaryHeap<usize>)
    requires
        h.wf(),
        h.heap_type() == SHeapType::Min,
    ensures
        forall|i: int| 0 <= i < h@.len() ==> h@[0] <= #[trigger] h@[i],
{
    sbinary_heap_top(h);
    assert forall|i: int| 0 <= i < h@.len() implies h@[0] <= #[trigger] h@[i] by {
        assert(!outranks(h.heap_type(), h@[i], h@[0]));
    }
}

} // verus!
