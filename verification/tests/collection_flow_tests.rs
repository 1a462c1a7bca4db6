use ic_stable_memory::binary_heap::SBinaryHeap;
use ic_stable_memory::btree_map::SBTreeMap;
use ic_stable_memory::btree_set::SBTreeSet;
use ic_stable_memory::hash_map::SHashMap;
use ic_stable_memory::hash_tree_map::SHashTreeMap;
use ic_stable_memory::log::SLog;
use ic_stable_memory::vec::SVec;
use ic_stable_memory::vec_direct::SVecDirect;
use rand::seq::SliceRandom;
use rand::{thread_rng, Rng};

#[derive(Clone, Copy, Debug, PartialEq)]
struct DirectTest {
    a: u64,
    b: bool,
}

fn u64_basic_flow_body() {
    let mut v = SVec::<u64>::default();
    assert!(v.get_copy(100).is_none());

    v.push(10).unwrap();
    v.push(20).unwrap();

    assert_eq!(v.replace(0, 11), 10);

    v.drop();
}

#[test]
fn vec_basic_flow_works_fine() {
    u64_basic_flow_body();
}

#[test]
fn vec_indirect_basic_flow_works_fine() {
    u64_basic_flow_body();
}

#[test]
fn vec_direct_push_pop_work_fine() {
    let mut stable_vec = SVecDirect::new();
    let count = 10u64;

    for i in 0..count {
        let it = DirectTest { a: i, b: true };

        stable_vec.push(it);
    }

    assert_eq!(stable_vec.len(), count, "Invalid len after push");

    for i in 0..count {
        let it = DirectTest { a: i, b: false };

        stable_vec.replace(i, it);
    }

    assert_eq!(stable_vec.len(), count, "Invalid len after push");

    for i in 0..count {
        let it = stable_vec.pop().unwrap();

        assert_eq!(it.a, count - 1 - i);
        assert!(!it.b);
    }

    assert_eq!(stable_vec.len(), 0, "Invalid len after pop");

    for i in 0..count {
        let it = DirectTest { a: i, b: true };

        stable_vec.push(it);
    }

    stable_vec.drop();
}

#[test]
fn vec_direct_basic_flow_works_fine() {
    let mut v = SVecDirect::<u64>::default();
    assert!(v.get_cloned(100).is_none());

    v.push(10);
    v.push(20);

    assert_eq!(v.get_cloned(0).unwrap(), 10);
    assert_eq!(v.get_cloned(1).unwrap(), 20);
    assert_eq!(v.replace(0, 11), 10);

    v.drop();
}

#[test]
fn mod_insert_works_fine() {
    // on the vector
    let mut array = SVec::default();
    let mut check = Vec::default();

    for i in 0..30 {
        array.insert(0, 29 - i).unwrap();
        check.insert(0, 29 - i);
    }

    for i in 60..100 {
        array.insert(array.len(), i).unwrap();
        check.insert(check.len(), i);
    }

    for i in 30..60 {
        array.insert(30 + (i - 30), i).unwrap();
        check.insert(30 + (i - 30), i);
    }

    for i in 0..100 {
        assert_eq!(*array.get(i).unwrap(), i);
    }

    let mut actual = Vec::new();
    while let Some(elem) = array.pop() {
        actual.insert(0, elem);
    }

    assert_eq!(actual, check);

    // on the ordered map
    let mut example = Vec::new();
    for i in 0..300 {
        example.push(i);
    }
    example.shuffle(&mut thread_rng());

    let mut map = SBTreeMap::<u64, u64>::default();

    for i in example {
        map.insert(i, i);
    }
}

#[test]
fn binary_search_work_fine() {
    // 0..100 randomly shuffled
    let initial = vec![
        3, 24, 46, 92, 2, 21, 34, 95, 82, 22, 88, 32, 59, 13, 73, 51, 12, 83, 28, 17, 9, 23, 5,
        63, 62, 38, 20, 40, 25, 98, 30, 43, 57, 86, 42, 4, 99, 33, 11, 74, 96, 94, 47, 31, 37, 71,
        80, 70, 14, 67, 93, 56, 27, 39, 58, 41, 29, 84, 8, 0, 45, 54, 7, 26, 97, 6, 81, 65, 79,
        10, 91, 68, 36, 60, 76, 75, 15, 87, 49, 35, 78, 64, 69, 52, 50, 61, 48, 53, 44, 19, 55,
        72, 90, 77, 89, 16, 85, 66, 18, 1,
    ];

    let mut array = SVec::<i32>::default();
    let mut check = Vec::<i32>::new();

    for i in 0..100 {
        match check.binary_search_by(|it| it.cmp(&initial[i])) {
            Err(idx) => check.insert(idx, initial[i]),
            _ => unreachable!(),
        }

        match array.binary_search_by(|it| it.cmp(&initial[i])) {
            Err(idx) => array.insert(idx, initial[i]).unwrap(),
            _ => unreachable!(),
        }
    }

    let mut actual = Vec::new();
    while let Some(elem) = array.pop() {
        actual.insert(0, elem);
    }

    assert_eq!(actual, check);
}

#[test]
fn remove_works_fine() {
    let initial = vec![
        3, 24, 46, 92, 2, 21, 34, 95, 82, 22, 88, 32, 59, 13, 73, 51, 12, 83, 28, 17, 9, 23, 5,
        63, 62, 38, 20, 40, 25, 98, 30, 43, 57, 86, 42, 4, 99, 33, 11, 74, 96, 94, 47, 31, 37, 71,
        80, 70, 14, 67, 93, 56, 27, 39, 58, 41, 29, 84, 8, 0, 45, 54, 7, 26, 97, 6, 81, 65, 79,
        10, 91, 68, 36, 60, 76, 75, 15, 87, 49, 35, 78, 64, 69, 52, 50, 61, 48, 53, 44, 19, 55,
        72, 90, 77, 89, 16, 85, 66, 18, 1,
    ];

    let mut array = SVec::new();
    for i in 0..initial.len() {
        array.push(initial[i]).unwrap();
    }

    for i in 0..initial.len() {
        assert_eq!(array.remove(0), initial[i]);
    }
}

#[test]
fn mod_random_works_fine() {
    // on the ordered map
    let iterations = 1000;
    let mut map = SBTreeMap::<u64, u64>::default();

    let mut example = Vec::new();
    for i in 0..iterations {
        example.push(i as u64);
    }
    example.shuffle(&mut thread_rng());

    for i in 0..iterations {
        assert!(map.insert(example[i], example[i]).is_none());

        for j in 0..i {
            assert!(map.contains_key(&example[j]), "don't contain {}", example[j]);
            assert_eq!(*map.get(&example[j]).unwrap(), example[j], "unable to get {}", example[j]);
        }
    }

    assert_eq!(map.insert(0, 1).unwrap(), 0);
    assert_eq!(map.insert(0, 0).unwrap(), 1);

    example.shuffle(&mut thread_rng());
    for i in 0..iterations {
        assert_eq!(map.remove(&example[i]), Some(example[i]));

        for j in (i + 1)..iterations {
            assert!(map.contains_key(&example[j]), "don't contain {}", example[j]);
            assert_eq!(*map.get(&example[j]).unwrap(), example[j], "unable to get {}", example[j]);
        }
    }

    // on the vector
    let mut svec = SVec::new();

    let mut rng = thread_rng();
    let iterations = 10_000;

    let mut example = Vec::new();
    for i in 0..iterations {
        example.push(i);
    }
    example.shuffle(&mut rng);

    for i in 0..iterations {
        svec.push(example[i]).unwrap();
    }

    for i in 0..iterations {
        svec.insert(rng.gen_range(0..svec.len()), example[i]).unwrap();
    }

    for _ in 0..iterations {
        svec.pop().unwrap();
    }

    for _ in 0..iterations {
        if svec.len() == 1 {
            svec.remove(0);
        } else {
            let range = rng.gen_range(0..(svec.len() - 1));
            svec.remove(range);
        }
    }

    assert!(svec.is_empty());
}

#[test]
fn map_complex_deletes_work_fine() {
    let mut map = SBTreeMap::new();

    for i in 0..75 {
        map.insert(i, i);
    }

    for i in 0..75 {
        map.insert(150 - i, i);
    }

    for i in 0..150 {
        let j = if i % 2 == 0 { i } else { 150 - i };

        if j % 3 == 0 {
            map.remove(&j);
        }
    }

    let mut map = SBTreeMap::new();

    for i in 0..150 {
        map.insert(150 - i, i);
    }

    for i in 0..150 {
        map.remove(&(150 - i));
    }

    let mut map = SBTreeMap::new();

    for i in 0..5000 {
        map.insert(4999 - i, i);
    }

    let mut vec = (2000..3000).collect::<Vec<_>>();
    vec.shuffle(&mut thread_rng());

    for i in vec {
        map.remove(&i);
    }

    for i in 2000..3000 {
        map.insert(i, i);
    }

    let mut vec = (0..5000).collect::<Vec<_>>();
    vec.shuffle(&mut thread_rng());

    for i in vec {
        map.remove(&i);
    }
    assert!(map.is_empty());
}

#[test]
fn map_removes_work() {
    let mut map = SHashTreeMap::new();

    for i in 0..500 {
        map.insert(499 - i, i);
    }

    let mut vec = (200..300).collect::<Vec<_>>();
    vec.shuffle(&mut thread_rng());

    for i in vec {
        map.remove(&i).unwrap();
    }

    for i in 500..5000 {
        map.insert(i, i);
    }

    for i in 200..300 {
        map.insert(i, i);
    }

    let mut vec = (0..5000).collect::<Vec<_>>();
    vec.shuffle(&mut thread_rng());

    for i in vec {
        let res = map.remove(&i);
        assert!(res.is_some());
    }
    assert!(map.is_empty());
}

#[test]
fn mod_removes_work() {
    let mut map = SHashMap::new();

    for i in 0..500 {
        map.insert(499 - i, i).unwrap();
    }

    let mut vec = (200..300).collect::<Vec<_>>();
    vec.shuffle(&mut thread_rng());

    for i in vec {
        map.remove(&i);
    }

    for i in 500..5000 {
        map.insert(i, i).unwrap();
    }

    for i in 200..300 {
        map.insert(i, i).unwrap();
    }

    let mut vec = (0..5000).collect::<Vec<_>>();
    vec.shuffle(&mut thread_rng());

    for i in vec {
        map.remove(&i);
    }
    assert!(map.is_empty());
}

#[test]
fn mod_heap_sort_works_fine() {
    let example = vec![10u32, 20, 30, 40, 50, 60, 70, 80, 90, 100];
    let mut max_heap = SBinaryHeap::default();

    assert!(max_heap.is_empty());

    // insert example values in random order
    max_heap.push(80).unwrap();
    max_heap.push(100).unwrap();
    max_heap.push(50).unwrap();
    max_heap.push(10).unwrap();
    max_heap.push(90).unwrap();
    max_heap.push(60).unwrap();
    max_heap.push(70).unwrap();
    max_heap.push(20).unwrap();
    max_heap.push(40).unwrap();
    max_heap.push(30).unwrap();

    assert_eq!(max_heap.peek().unwrap(), 100);

    let mut probe = vec![];

    // pop all elements, push them to probe
    for _ in 0..10 {
        probe.insert(0, max_heap.pop().unwrap());
    }

    // probe should be the same as example
    assert_eq!(probe, example, "Invalid elements order (max)");

    max_heap.drop();
}

#[test]
fn it_works_fine() {
    let mut set = SBTreeSet::default();
    set.insert(10).unwrap();
    set.insert(20).unwrap();

    assert!(set.contains(&10));
    assert_eq!(set.len(), 2);
    assert!(!set.is_empty());

    assert!(set.remove(&10));
    assert!(!set.remove(&10));

    let _set = SBTreeSet::<u64>::new();
}

#[test]
fn hash_map_iter_works_fine() {
    let cap = 100;
    let count = 200;
    let mut map = SHashMap::new_with_capacity(cap).unwrap();
    let mut check = vec![false; count];

    for i in 0..count {
        map.insert(i, i).unwrap();
    }

    let mut iter = map.iter();

    let mut i = 0;
    while let Some(it) = iter.next() {
        assert!(*it.0 < count && *it.0 == *it.1);

        check[*it.0] = true;

        i += 1;
    }

    for i in check {
        assert!(i);
    }
    assert!(iter.next().is_none());
    assert!(i == count);
}

#[test]
fn mod_works_fine() {
    let mut log = SLog::new();

    assert!(log.is_empty());

    for i in 0..100 {
        log.push(i).unwrap();

        for j in 0..i {
            assert_eq!(*log.get(j).unwrap(), j);
        }
    }

    assert_eq!(log.len(), 100);
    for i in 0..100 {
        assert_eq!(*log.get(i).unwrap(), i);
    }

    for i in (20..100).rev() {
        assert_eq!(log.pop().unwrap(), i);
    }

    assert_eq!(log.len(), 20);
    for i in 20..100 {
        log.push(i).unwrap();
    }

    for i in 0..100 {
        assert_eq!(*log.get(i).unwrap(), i);
    }

    for i in (0..100).rev() {
        assert_eq!(log.pop().unwrap(), i);
    }

    assert!(log.pop().is_none());
    assert!(log.is_empty());
}

#[test]
fn binary_search_by_partitioned() {
    // partitioned by "is it below 10, at 10, above 10" but not sorted
    let mut v = SVec::<u32>::new();
    for x in [3u32, 1, 2, 10, 10, 30, 20, 40] {
        v.push(x).unwrap();
    }
    let r = v.binary_search_by(|it| it.cmp(&10));
    assert!(matches!(r, Ok(3) | Ok(4)));
    let below_15 = |it: &u32| if *it < 15 { std::cmp::Ordering::Less } else { std::cmp::Ordering::Greater };
    assert_eq!(v.binary_search_by(below_15), Err(5));
    let e = SVec::<u32>::new();
    assert_eq!(e.binary_search_by(|it| it.cmp(&1)), Err(0));
}
