use ic_stable_memory::nrb_tree_map::NRBTreeMap;
use ic_stable_memory::binary_heap::{SBinaryHeap, SHeapType};
use ic_stable_memory::btree_map::SBTreeMap;
use ic_stable_memory::btree_set::SBTreeSet;
use ic_stable_memory::hash_map::SHashMap;
use ic_stable_memory::hash_map_direct::SHashMapDirect;
use ic_stable_memory::hash_set::SHashSet;
use ic_stable_memory::hash_tree_map::SHashTreeMap;
use ic_stable_memory::log::SLog;
use ic_stable_memory::vec::SVec;
use ic_stable_memory::vec_direct::SVecDirect;

#[test]
fn svec_push_then_pop_gives_back() {
    let mut v = SVec::<u64>::new();
    for i in 0..10u64 {
        v.push(i * 3).unwrap();
    }
    v.push(77).unwrap();
    assert_eq!(v.pop(), Some(77));
    assert_eq!(v.len(), 10);
    for i in 0..10usize {
        assert_eq!(v.get_copy(i), Some(i as u64 * 3));
    }
    let mut empty = SVec::<u64>::new();
    assert_eq!(empty.pop(), None);
}

#[test]
fn svec_insert_then_remove_gives_back() {
    let mut v = SVec::<u64>::new();
    for i in 0..5u64 {
        v.push(i).unwrap();
    }
    v.insert(2, 100).unwrap();
    assert_eq!(v.get_copy(2), Some(100));
    assert_eq!(v.get_copy(3), Some(2));
    assert_eq!(v.remove(2), 100);
    for i in 0..5usize {
        assert_eq!(v.get_copy(i), Some(i as u64));
    }
    v.insert(5, 9).unwrap();
    assert_eq!(v.get_copy(5), Some(9));
    assert_eq!(v.remove(5), 9);
    assert_eq!(v.len(), 5);
}

#[test]
fn svec_swap_twice_and_replace_back() {
    let mut v = SVec::<u64>::new();
    for i in 0..4u64 {
        v.push(i + 10).unwrap();
    }
    v.swap(0, 3);
    assert_eq!(v.get_copy(0), Some(13));
    assert_eq!(v.get_copy(3), Some(10));
    v.swap(0, 3);
    assert_eq!(v.get_copy(0), Some(10));
    assert_eq!(v.get_copy(3), Some(13));

    let old = v.replace(1, 50);
    assert_eq!(old, 11);
    assert_eq!(v.get_copy(1), Some(50));
    assert_eq!(v.replace(1, old), 50);
    assert_eq!(v.get_copy(1), Some(11));
}

#[test]
fn svec_direct_push_then_pop_gives_back() {
    let mut v = SVecDirect::<u64>::new();
    for i in 0..20u64 {
        v.push(i);
    }
    v.push(1000);
    assert_eq!(v.pop(), Some(1000));
    assert_eq!(v.len(), 20);
    assert_eq!(v.get_cloned(19), Some(19));
    assert_eq!(v.get_cloned(20), None);
}

#[test]
fn slog_push_then_pop_gives_back() {
    let mut l = SLog::<u64>::new();
    for i in 0..50u64 {
        l.push(i).unwrap();
    }
    l.push(5000).unwrap();
    assert_eq!(l.last(), Some(&5000));
    assert_eq!(l.pop(), Some(5000));
    assert_eq!(l.len(), 50);
    assert_eq!(l.last(), Some(&49));
    assert_eq!(l.first(), Some(&0));
    assert_eq!(l.get(25), Some(&25));
}

#[test]
fn heap_pop_after_push_gives_pushed_or_held() {
    let mut h = SBinaryHeap::<u32>::new(SHeapType::Max);
    for i in [5u32, 1, 8, 3] {
        h.push(i).unwrap();
    }
    h.push(20).unwrap();
    assert_eq!(h.pop(), Some(20));
    assert_eq!(h.len(), 4);

    h.push(2).unwrap();
    let top = h.pop().unwrap();
    assert!(top == 2 || [5u32, 1, 8, 3].contains(&top));
    assert_eq!(h.len(), 4);
}

#[test]
fn maps_give_back_what_was_written() {
    let mut b = SBTreeMap::<u64, u64>::new();
    let mut h = SHashMap::<u64, u64>::new();
    let mut t = SHashTreeMap::<u64, u64>::new();
    let mut d = SHashMapDirect::<u64, u64>::new();
    for i in 0..40u64 {
        assert_eq!(b.insert(i, i * 2), None);
        assert_eq!(h.insert(i, i * 2).unwrap(), None);
        assert_eq!(t.insert(i, i * 2), None);
        assert_eq!(d.insert(i, i * 2), None);
    }
    assert_eq!(b.insert(7, 70), Some(14));
    assert_eq!(h.insert(7, 70).unwrap(), Some(14));
    assert_eq!(t.insert(7, 70), Some(14));
    assert_eq!(d.insert(7, 70), Some(14));
    assert_eq!(b.len(), 40);
    assert_eq!(h.len(), 40);
    assert_eq!(t.len(), 40);
    assert_eq!(d.len(), 40);
    for i in 0..40u64 {
        let want = if i == 7 { 70 } else { i * 2 };
        assert_eq!(b.get_copy(&i), Some(want));
        assert_eq!(h.get_cloned(&i), Some(want));
        assert_eq!(t.get_copy(&i), Some(want));
        assert_eq!(d.get_cloned(&i), Some(want));
    }

    assert_eq!(b.insert(1000, 1), None);
    assert_eq!(b.remove(&1000), Some(1));
    assert_eq!(h.insert(1000, 1).unwrap(), None);
    assert_eq!(h.remove(&1000), Some(1));
    assert_eq!(t.insert(1000, 1), None);
    assert_eq!(t.remove(&1000), Some(1));
    assert_eq!(d.insert(1000, 1), None);
    assert_eq!(d.remove(&1000), Some(1));
    assert_eq!(b.len(), 40);
    assert_eq!(h.len(), 40);
    assert_eq!(t.len(), 40);
    assert_eq!(d.len(), 40);
    assert!(!b.contains_key(&1000));
    assert!(!h.contains_key(&1000));
    assert!(!t.contains_key(&1000));
    assert!(!d.contains_key(&1000));
    assert_eq!(b.remove(&1000), None);
    assert_eq!(t.remove(&1000), None);
}

#[test]
fn sets_hold_what_was_inserted() {
    let mut h = SHashSet::<u64>::new();
    let mut b = SBTreeSet::<u64>::new();
    assert_eq!(h.insert(5).unwrap(), false);
    assert_eq!(b.insert(5).unwrap(), false);
    assert!(h.contains(&5));
    assert!(b.contains(&5));
    assert_eq!(h.insert(5).unwrap(), true);
    assert_eq!(b.insert(5).unwrap(), true);
    assert_eq!(h.len(), 1);
    assert_eq!(b.len(), 1);
    assert!(h.remove(&5));
    assert!(b.remove(&5));
    assert!(!h.contains(&5));
    assert!(!b.contains(&5));
    assert!(!h.remove(&5));
    assert!(!b.remove(&5));
    assert_eq!(h.len(), 0);
    assert_eq!(b.len(), 0);
}

#[test]
fn btree_map_first_and_last() {
    let mut m = SBTreeMap::<u64, u64>::new();
    assert_eq!(m.first_copy(), None);
    assert_eq!(m.last_copy(), None);
    for i in [50u64, 10, 90, 30, 70] {
        m.insert(i, i + 1);
    }
    for i in 100..200u64 {
        m.insert(i, 0);
    }
    assert_eq!(m.first_copy(), Some((10, 11)));
    assert_eq!(m.last_copy(), Some((199, 0)));
    m.remove(&10);
    m.remove(&199);
    assert_eq!(m.first_copy(), Some((30, 31)));
    assert_eq!(m.last_copy(), Some((198, 0)));
}

#[test]
fn hash_tree_map_many_keys() {
    let mut t = SHashTreeMap::<u64, u64>::default();
    assert!(t.is_empty());
    for i in 0..3000u64 {
        assert_eq!(t.insert(i * 7, i), None);
    }
    assert_eq!(t.len(), 3000);
    for i in (0..3000u64).step_by(2) {
        assert_eq!(t.remove(&(i * 7)), Some(i));
    }
    assert_eq!(t.len(), 1500);
    for i in 0..3000u64 {
        let want = if i % 2 == 0 { None } else { Some(i) };
        assert_eq!(t.get_copy(&(i * 7)), want);
        assert_eq!(t.contains_key(&(i * 7)), want.is_some());
    }
    for i in 0..3000u64 {
        t.remove(&(i * 7));
    }
    assert!(t.is_empty());
    assert_eq!(t.get_copy(&7), None);
}

#[test]
fn slog_get_mut_changes_one_element() {
    let mut l = SLog::<u64>::new();
    for i in 0..30u64 {
        l.push(i).unwrap();
    }
    *l.get_mut(17).unwrap() = 1700;
    assert!(l.get_mut(30).is_none());
    for i in 0..30u64 {
        let want = if i == 17 { 1700 } else { i };
        assert_eq!(l.get(i), Some(&want));
    }
    let mut v = SVec::<u64>::new();
    v.push(1).unwrap();
    *v.get_mut(0).unwrap() = 5;
    assert_eq!(v.get_copy(0), Some(5));
    let mut m = SBTreeMap::<u64, u64>::new();
    for i in 0..100u64 {
        m.insert(i, i);
    }
    *m.get_mut(&42).unwrap() = 4200;
    assert!(m.get_mut(&420).is_none());
    assert_eq!(m.get_copy(&42), Some(4200));
    assert_eq!(m.get_copy(&43), Some(43));
    let mut h = SHashMap::<u64, u64>::new();
    h.insert(3, 3).unwrap();
    *h.get_mut(&3).unwrap() = 33;
    assert_eq!(h.get_cloned(&3), Some(33));
}

#[test]
fn heap_ordered_top_is_greatest() {
    let mut h = SBinaryHeap::<u32>::new(SHeapType::Max);
    for x in [80u32, 100, 50, 10, 90, 60, 70, 20, 40, 30] {
        h.push(x).unwrap();
    }
    let n = h.len();
    for i in 1..n {
        assert!(h.get(i).unwrap() <= h.get((i - 1) / 2).unwrap());
    }
    let top = h.peek().unwrap();
    for i in 0..n {
        assert!(h.get(i).unwrap() <= top);
    }
    assert_eq!(top, 100);

    // every pop gives the greatest element left
    let mut h = SBinaryHeap::<u32>::new(SHeapType::Max);
    for x in [15u32, 19, 32, 21, 13, 0, 33, 32, 1, 28, 19, 10, 50] {
        h.push(x).unwrap();
    }
    let mut popped = Vec::new();
    while let Some(x) = h.pop() {
        popped.push(x);
    }
    assert_eq!(popped, vec![50, 33, 32, 32, 28, 21, 19, 19, 15, 13, 10, 1, 0]);

    let mut h = SBinaryHeap::<u32>::new(SHeapType::Max);
    for x in [0u32, 6, 7, 8, 1, 2, 9, 3, 4, 5] {
        h.insert(x).unwrap();
        let top = h.peek().unwrap();
        for i in 0..h.len() {
            assert!(h.get(i).unwrap() <= top);
        }
    }
    let mut popped = Vec::new();
    while let Some(x) = h.pop() {
        popped.push(x);
    }
    assert_eq!(popped, vec![9, 8, 7, 6, 5, 4, 3, 2, 1, 0]);
}

#[test]
fn min_heap_pops_in_ascending_order() {
    let mut h = SBinaryHeap::<u32>::new(SHeapType::Min);
    for x in [0u32, 6, 7, 8, 1, 2, 9, 3, 4, 5, 6] {
        h.push(x).unwrap();
    }
    for i in 1..h.len() {
        assert!(h.get(i).unwrap() >= h.get((i - 1) / 2).unwrap());
    }
    let mut popped = Vec::new();
    while let Some(x) = h.pop() {
        popped.push(x);
    }
    assert_eq!(popped, vec![0, 1, 2, 3, 4, 5, 6, 6, 7, 8, 9]);
}

#[test]
fn hash_map_retain_keeps_what_the_filter_accepts() {
    let mut m = SHashMap::<u64, u64>::new();
    for i in 0..100u64 {
        m.insert(i, i * 10).unwrap();
    }
    let cap = m.capacity();
    m.retain(|k, _v| *k % 2 == 0);
    assert_eq!(m.len(), 50);
    assert_eq!(m.capacity(), cap);
    for i in 0..100u64 {
        if i % 2 == 0 {
            assert_eq!(m.get_cloned(&i), Some(i * 10));
        } else {
            assert!(!m.contains_key(&i));
        }
    }
    m.retain(|_k, v| *v > 500);
    assert_eq!(m.len(), 24);
    assert_eq!(m.get_cloned(&52), Some(520));
    assert_eq!(m.get_cloned(&50), None);
}

#[test]
fn nrb_tree_map_finds_what_was_just_written() {
    let mut m = NRBTreeMap::<u64, u64>::new();
    let keys: Vec<u64> = (0..200u64).map(|i| (i * 7919) % 211).collect();
    for &k in &keys {
        assert_eq!(m.insert(k, k + 1000), None);
        assert_eq!(m.get_copy(&k), Some(k + 1000));
        assert!(m.contains_key(&k));
    }
    for &k in &keys {
        assert_eq!(m.get_copy(&k), Some(k + 1000));
    }
    // a key already there takes the new value
    assert_eq!(m.insert(keys[5], 1), Some(keys[5] + 1000));
    assert_eq!(m.get_copy(&keys[5]), Some(1));
    // taking a key out gives back what a search found
    for &k in keys.iter().take(50) {
        let found = m.get_copy(&k);
        assert_eq!(m.remove(&k), found);
        assert_eq!(m.get_copy(&k), None);
    }
    assert_eq!(m.remove(&5000), None);
    assert!(!m.contains_key(&5000));
}

#[test]
fn nrb_tree_map_ascending_and_descending_inserts() {
    let mut m = NRBTreeMap::<u32, u32>::default();
    for i in 0..100u32 {
        m.insert(i, i * 2);
    }
    for i in (200..300u32).rev() {
        m.insert(i, i * 2);
    }
    for i in 0..100u32 {
        assert_eq!(m.get_copy(&i), Some(i * 2));
        assert_eq!(m.get_copy(&(i + 200)), Some((i + 200) * 2));
        assert_eq!(m.get_copy(&(i + 100)), None);
    }
}

#[test]
fn nrb_tree_map_emptied_node_sends_searches_left() {
    let mut m = NRBTreeMap::<u32, u32>::new();
    for i in 0..=11u32 {
        assert_eq!(m.insert(i, i), None);
    }
    // the first node is full, so 11 went to its right
    assert_eq!(m.get_copy(&11), Some(11));
    for i in 0..=10u32 {
        assert_eq!(m.remove(&i), Some(i));
    }
    // the first node is now empty: a search goes left and misses 11
    assert_eq!(m.get_copy(&11), None);
    assert!(!m.contains_key(&11));
}
