use ic_stable_memory::binary_heap::{SBinaryHeap, SHeapType};
use ic_stable_memory::btree_set::SBTreeSet;
use ic_stable_memory::hash_map::SHashMap;
use ic_stable_memory::hash_set::SHashSet;
use ic_stable_memory::log::SLog;
use ic_stable_memory::vec::SVec;

#[test]
fn binary_heap_heap_sort_works_fine() {
    let example = vec![10u32, 20, 30, 40, 50, 60, 70, 80, 90, 100];
    let mut max_heap = SBinaryHeap::<u32>::new(SHeapType::Max);

    // insert example values in random order
    max_heap.insert(80).unwrap();
    max_heap.insert(100).unwrap();
    max_heap.insert(50).unwrap();
    max_heap.insert(10).unwrap();
    max_heap.insert(90).unwrap();
    max_heap.insert(60).unwrap();
    max_heap.insert(70).unwrap();
    max_heap.insert(20).unwrap();
    max_heap.insert(40).unwrap();
    max_heap.insert(30).unwrap();

    let mut probe = vec![];

    // pop all elements, push them to probe
    for _ in 0..10 {
        probe.insert(0, max_heap.pop().unwrap());
    }

    // probe should be the same as example
    assert_eq!(probe, example, "Invalid elements order (max)");

    // it should also work for the min heap
    let example = vec![100u32, 90, 90, 80, 70, 50, 40, 30, 20, 10];
    let mut min_heap = SBinaryHeap::<u32>::new(SHeapType::Min);

    // insert example values in random order
    min_heap.insert(80).unwrap();
    min_heap.insert(100).unwrap();
    min_heap.insert(50).unwrap();
    min_heap.insert(10).unwrap();
    min_heap.insert(90).unwrap();
    min_heap.insert(90).unwrap();
    min_heap.insert(70).unwrap();
    min_heap.insert(20).unwrap();
    min_heap.insert(40).unwrap();
    min_heap.insert(30).unwrap();

    let mut probe = vec![];

    // pop all elements, push them to probe
    for _ in 0..10 {
        probe.insert(0, min_heap.pop().unwrap());
    }

    // probe should be the same as example
    assert_eq!(probe, example, "Invalid elements order (min)");
}

#[test]
fn mod_iter_works_fine() {
    // a heap
    let mut heap = SBinaryHeap::default();

    for i in 0..100 {
        heap.push(i).unwrap();
    }

    let mut c = 0;
    let mut iter = heap.iter();
    while let Some(i) = iter.next() {
        c += 1;

        assert!(*i < 100);
    }

    assert_eq!(c, 100);

    // an ordered set
    let mut set = SBTreeSet::<u32>::default();
    for i in 0..100 {
        set.insert(i).unwrap();
    }

    let mut iter = set.iter();
    let mut idx = 0u32;
    while let Some(i) = iter.next() {
        assert_eq!(idx, i);
        idx += 1;
    }

    // a hash set
    let mut set = SHashSet::default();

    for i in 0..100 {
        set.insert(i).unwrap();
    }

    let mut c = 0;
    let mut iter = set.iter();
    while let Some(_) = iter.next() {
        c += 1;
    }

    assert_eq!(c, 100);

    // a hash map
    let mut map = SHashMap::new();
    for i in 0..100u32 {
        map.insert(i, i).unwrap();
    }

    let mut c = 0;
    let mut iter = map.iter();
    while let Some((k, _v)) = iter.next() {
        c += 1;

        assert!(*k < 100);
    }

    assert_eq!(c, 100);

    // a vector
    let mut vec = SVec::new();
    for i in 0..100 {
        vec.push(i).unwrap();
    }

    let mut c = 0;
    let mut idx = 0;
    let mut iter = vec.iter();
    while let Some(i) = iter.next() {
        c += 1;

        assert_eq!(idx as i32, *i);
        idx += 1;
    }

    assert_eq!(c, 100);

    // a log, from its end
    let mut log = SLog::new();

    for i in 0..100 {
        log.push(i).unwrap();
    }

    let mut j = 99;

    let mut iter = log.rev_iter();
    while let Some(i) = iter.next() {
        assert_eq!(*i, j);
        j -= 1;
    }
}
