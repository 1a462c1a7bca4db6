use ic_stable_memory::btree_map::SBTreeMap;

#[test]
fn btree_map_random_works_as_expected() {
    let example = vec![
        (10, 1),
        (20, 2),
        (30, 3),
        (40, 4),
        (50, 5),
        (60, 6),
        (70, 7),
        (80, 8),
        (90, 9),
    ];

    let mut map = SBTreeMap::new();

    assert!(map.insert(30, 3).is_none());
    assert!(map.insert(90, 9).is_none());
    assert!(map.insert(10, 1).is_none());
    assert!(map.insert(70, 7).is_none());
    assert!(map.insert(80, 8).is_none());
    assert!(map.insert(50, 5).is_none());
    assert!(map.insert(20, 2).is_none());
    assert!(map.insert(60, 6).is_none());
    assert!(map.insert(40, 4).is_none());

    assert_eq!(map.len(), 9);

    let probe = map.entries_vec();
    assert_eq!(example, probe);

    assert_eq!(map.remove(&30).unwrap(), 3);
    assert_eq!(map.remove(&70).unwrap(), 7);
    assert_eq!(map.remove(&50).unwrap(), 5);
    assert_eq!(map.remove(&40).unwrap(), 4);
    assert_eq!(map.remove(&60).unwrap(), 6);
    assert_eq!(map.remove(&20).unwrap(), 2);
    assert_eq!(map.remove(&80).unwrap(), 8);
    assert_eq!(map.remove(&10).unwrap(), 1);
    assert_eq!(map.remove(&90).unwrap(), 9);

    assert!(map.is_empty());

    map.drop();
}

#[test]
fn btree_map_sequential_works_as_expected() {
    let mut map = SBTreeMap::new();

    for i in 0..10 {
        map.insert(i, 0);
    }

    for i in 0..10 {
        map.remove(&i).unwrap();
    }

    map.drop();
}

#[test]
fn btree_map_basic_flow_works_fine() {
    let mut map = SBTreeMap::new();

    let prev = map.insert(1, 10);
    assert!(prev.is_none());

    let val = map.get_cloned(&1).unwrap();
    assert_eq!(val, 10);
    assert!(map.contains_key(&1));

    assert!(map.insert(2, 20).is_none());
    map.insert(3, 30);
    map.insert(4, 40);
    map.insert(5, 50);

    let val = map.insert(3, 130).unwrap();
    assert_eq!(val, 30);

    assert!(!map.contains_key(&99));
    assert!(map.remove(&99).is_none());

    map.drop();

    let _map = SBTreeMap::<u64, u64>::default();
}

#[test]
fn btree_map_deletion_works_fine() {
    let mut map = SBTreeMap::new();

    for i in 0..50 {
        map.insert(i + 10, i);
    }

    let val = map.insert(13, 130).unwrap();
    assert_eq!(val, 3);

    let val1 = map.get_cloned(&13).unwrap();
    assert_eq!(val1, 130);

    assert!(!map.contains_key(&99));
    assert!(map.remove(&99).is_none());

    map.insert(13, 3);
    assert_eq!(map.remove(&16).unwrap(), 6);

    map.insert(16, 6);
    map.insert(9, 90);

    assert_eq!(map.remove(&16).unwrap(), 6);

    map.insert(16, 6);
    assert_eq!(map.remove(&9).unwrap(), 90);
    assert_eq!(map.remove(&53).unwrap(), 43);

    map.insert(60, 70);
    map.insert(61, 71);
    assert_eq!(map.remove(&58).unwrap(), 48);

    map.drop();

    let mut map = SBTreeMap::new();

    for i in 0..50 {
        map.insert(i * 2, i);
    }

    map.insert(85, 1);
    assert_eq!(map.remove(&88).unwrap(), 44);

    map.drop();

    let mut map = SBTreeMap::new();

    for i in 0..50 {
        map.insert(i * 2, i);
    }

    map.remove(&94);
    map.remove(&96);
    map.remove(&98);

    assert_eq!(map.remove(&88).unwrap(), 44);

    map.insert(81, 1);
    map.insert(83, 1);
    map.insert(94, 1);
    map.insert(85, 1);

    assert_eq!(map.remove(&86).unwrap(), 43);

    map.insert(71, 1);
    map.insert(73, 1);
    map.insert(75, 1);
    map.insert(77, 1);
    map.insert(79, 1);

    map.insert(47, 1);
    map.insert(49, 1);
    map.insert(51, 1);
    map.insert(53, 1);
    map.insert(55, 1);
    map.insert(57, 1);
    map.insert(59, 1);
    map.insert(61, 1);
    map.insert(63, 1);
    map.insert(65, 1);
    map.insert(67, 1);
    map.insert(69, 1);

    map.drop();

    let mut map = SBTreeMap::new();

    for i in 150..300 {
        map.insert(i, i);
    }
    for i in 0..150 {
        map.insert(i, i);
    }

    assert_eq!(map.remove(&203).unwrap(), 203);
    assert_eq!(map.remove(&80).unwrap(), 80);

    map.drop();
}

#[test]
fn btree_map_complex_deletes_work_fine() {
    let mut map = SBTreeMap::new();

    for i in 0..75 {
        map.insert(i, i);
    }

    for i in 0..75 {
        map.insert(150 - i, i);
    }

    for i in 0..150 {
        let j = if i % 2 == 0 { i } else { 150 - i };

        if j % 3 == 0 {
            map.remove(&j);
        }
    }

    map.drop();

    let mut map = SBTreeMap::new();

    for i in 0..150 {
        map.insert(150 - i, i);
    }

    for i in 0..150 {
        map.remove(&(150 - i));
    }

    map.drop();
}

#[test]
fn btree_map_set_like_map_works_fine() {
    let mut map = SBTreeMap::<i32, ()>::new();
    map.insert(1, ());
    map.drop();
}

#[test]
fn map_random_works_as_expected() {
    let mut map = SBTreeMap::new();

    assert!(map.insert(30, 3).is_none());
    assert!(map.insert(90, 9).is_none());
    assert!(map.insert(10, 1).is_none());
    assert!(map.insert(70, 7).is_none());
    assert!(map.insert(80, 8).is_none());
    assert!(map.insert(50, 5).is_none());
    assert!(map.insert(20, 2).is_none());
    assert!(map.insert(60, 6).is_none());
    assert!(map.insert(40, 4).is_none());

    assert_eq!(map.len(), 9);

    assert_eq!(map.remove(&30).unwrap(), 3);
    assert_eq!(map.remove(&70).unwrap(), 7);
    assert_eq!(map.remove(&50).unwrap(), 5);
    assert_eq!(map.remove(&40).unwrap(), 4);
    assert_eq!(map.remove(&60).unwrap(), 6);
    assert_eq!(map.remove(&20).unwrap(), 2);
    assert_eq!(map.remove(&80).unwrap(), 8);
    assert_eq!(map.remove(&10).unwrap(), 1);
    assert_eq!(map.remove(&90).unwrap(), 9);

    assert!(map.is_empty());
}

#[test]
fn map_sequential_works_as_expected() {
    let mut map = SBTreeMap::new();

    for i in 0..10 {
        map.insert(i, 0);
    }

    for i in 0..10 {
        map.remove(&i).unwrap();
    }
}

#[test]
fn temp() {
    let mut map = SBTreeMap::new();

    for i in 0..11 {
        map.insert(i, i);
    }

    map.insert(11, 11);

    assert_eq!(map.len(), 12);
}

#[test]
fn map_deletion_works_fine() {
    let mut map = SBTreeMap::new();

    for i in 0..50 {
        map.insert(i + 10, i);
    }

    let val = map.insert(13, 130).unwrap();
    assert_eq!(val, 3);

    let val1 = map.get_copy(&13).unwrap();
    assert_eq!(val1, 130);

    assert!(!map.contains_key(&99));
    assert!(map.remove(&99).is_none());

    map.insert(13, 3);
    assert_eq!(map.remove(&16).unwrap(), 6);

    map.insert(16, 6);
    map.insert(9, 90);

    assert_eq!(map.remove(&16).unwrap(), 6);

    map.insert(16, 6);
    assert_eq!(map.remove(&9).unwrap(), 90);
    assert_eq!(map.remove(&53).unwrap(), 43);

    map.insert(60, 70);
    map.insert(61, 71);
    assert_eq!(map.remove(&58).unwrap(), 48);

    let mut map = SBTreeMap::new();

    for i in 0..50 {
        map.insert(i * 2, i);
    }

    map.insert(85, 1);
    assert_eq!(map.remove(&88).unwrap(), 44);

    let mut map = SBTreeMap::new();

    for i in 0..50 {
        map.insert(i * 2, i);
    }

    map.remove(&94);
    map.remove(&96);
    map.remove(&98);

    assert_eq!(map.remove(&88).unwrap(), 44);

    map.insert(81, 1);
    map.insert(83, 1);
    map.insert(94, 1);
    map.insert(85, 1);

    assert_eq!(map.remove(&86).unwrap(), 43);

    map.insert(71, 1);
    map.insert(73, 1);
    map.insert(75, 1);
    map.insert(77, 1);
    map.insert(79, 1);

    map.insert(47, 1);
    map.insert(49, 1);
    map.insert(51, 1);
    map.insert(53, 1);
    map.insert(55, 1);
    map.insert(57, 1);
    map.insert(59, 1);
    map.insert(61, 1);
    map.insert(63, 1);
    map.insert(65, 1);
    map.insert(67, 1);
    map.insert(69, 1);

    let mut map = SBTreeMap::new();

    for i in 150..300 {
        map.insert(i, i);
    }

    for i in 0..150 {
        map.insert(i, i);
    }

    assert_eq!(map.remove(&203).unwrap(), 203);
    assert_eq!(map.remove(&80).unwrap(), 80);
}

#[test]
fn map_set_like_map_works_fine() {
    let mut map = SBTreeMap::<i32, ()>::new();
    map.insert(1, ());
}

#[test]
fn iters_work_fine() {
    let mut map = SBTreeMap::<u64, u64>::default();

    for i in 0..200 {
        map.insert(i, i);
    }

    let mut i = 0u64;

    let mut iter = map.iter();
    while let Some((k, v)) = iter.next() {
        assert_eq!(i, k);
        assert_eq!(i, v);

        i += 1;
    }

    assert_eq!(i, 199);

    let mut iter = map.iter();
    while let Some((k, v)) = iter.next_back() {
        assert_eq!(i, k);
        assert_eq!(i, v);

        i -= 1;
    }

    assert_eq!(i, 0);
}

#[test]
fn insertion_works_fine() {
    let elements = vec![
        1, 4, 2, 6, 7, 8, 3, 9, 12, 43, 65, 34, 24, 78, 13, 98, 132, 21, 18, 19, 500, 95, 92, 41,
        40, 55, 10,
    ];

    let mut map = SBTreeMap::new();

    let mut control = Vec::new();

    for elem in elements {
        control.push(elem);
        control.sort();

        map.insert(elem, ());
        let probe = map
            .entries_vec()
            .into_iter()
            .map(|(k, _)| k)
            .collect::<Vec<_>>();

        assert_eq!(probe, control);
    }
}
