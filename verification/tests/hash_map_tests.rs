use ic_stable_memory::nrb_tree_map::{NRBTreeNode, CAPACITY};
use ic_stable_memory::btree_map::SBTreeMap;
use ic_stable_memory::hash_map::SHashMap;
use ic_stable_memory::hash_tree_map::SHashTreeMap;
use ic_stable_memory::hash_set::SHashSet;
use ic_stable_memory::vec::SVec;

#[test]
fn map_basic_flow_works_fine() {
    // on the ordered map
    let mut map = SBTreeMap::new();

    let prev = map.insert(1, 10);
    assert!(prev.is_none());

    let val = map.get_copy(&1).unwrap();
    assert_eq!(val, 10);
    assert!(map.contains_key(&1));

    assert!(map.insert(2, 20).is_none());
    map.insert(3, 30);
    map.insert(4, 40);
    map.insert(5, 50);

    let val = map.insert(3, 130).unwrap();
    assert_eq!(val, 30);

    assert!(!map.contains_key(&99));
    assert!(map.remove(&99).is_none());

    let _map = SBTreeMap::<u64, u64>::default();

    // on the hash map
    let mut map = SHashTreeMap::new();

    assert!(map.remove(&10).is_none());
    assert!(map.get_copy(&10).is_none());

    let it = map.insert(1, 1);
    assert!(it.is_none());
    assert!(map.insert(2, 2).is_none());
    assert!(map.insert(3, 3).is_none());
    assert_eq!(map.insert(1, 10).unwrap(), 1);

    assert!(map.remove(&5).is_none());
    assert_eq!(map.remove(&1).unwrap(), 10);

    assert!(map.contains_key(&2));
    assert!(!map.contains_key(&5));

    let mut map = SHashTreeMap::default();
    for i in 0..100 {
        assert!(map.insert(i, i).is_none());
    }

    for i in 0..100 {
        assert_eq!(map.get_copy(&i).unwrap(), i);
    }

    for i in 0..100 {
        assert_eq!(map.remove(&(99 - i)).unwrap(), 99 - i);
    }
}

#[test]
fn insert_remove_read() {
    let mut map = SHashTreeMap::new();
    let iterations = 2000;

    for i in 0..iterations {
        assert!(map.insert(i, i).is_none());

        for j in 0..i {
            assert_eq!(map.get_copy(&j).unwrap(), j);
        }
    }

    for i in 0..iterations {
        assert_eq!(map.remove(&i).unwrap(), i);

        if map.len() > 1 {
            for j in ((i + 1)..iterations).rev() {
                let res = map.get_copy(&j);
                assert_eq!(res.unwrap(), j);
            }
        }
    }
}

#[test]
fn map_simple_flow_works_well() {
    let mut map = SHashTreeMap::new();

    let k1 = 1;
    let k2 = 2;
    let k3 = 3;
    let k4 = 4;
    let k5 = 5;
    let k6 = 6;
    let k7 = 7;
    let k8 = 8;

    map.insert(k1, 1);
    map.insert(k2, 2);
    map.insert(k3, 3);
    map.insert(k4, 4);
    map.insert(k5, 5);
    map.insert(k6, 6);
    map.insert(k7, 7);
    map.insert(k8, 8);

    assert_eq!(map.get_copy(&k1).unwrap(), 1);
    assert_eq!(map.get_copy(&k2).unwrap(), 2);
    assert_eq!(map.get_copy(&k3).unwrap(), 3);
    assert_eq!(map.get_copy(&k4).unwrap(), 4);
    assert_eq!(map.get_copy(&k5).unwrap(), 5);
    assert_eq!(map.get_copy(&k6).unwrap(), 6);
    assert_eq!(map.get_copy(&k7).unwrap(), 7);
    assert_eq!(map.get_copy(&k8).unwrap(), 8);

    assert!(map.get_copy(&9).is_none());
    assert!(map.get_copy(&0).is_none());

    assert_eq!(map.remove(&k3).unwrap(), 3);
    assert!(map.get_copy(&k3).is_none());

    assert_eq!(map.remove(&k1).unwrap(), 1);
    assert!(map.get_copy(&k1).is_none());

    assert_eq!(map.remove(&k5).unwrap(), 5);
    assert!(map.get_copy(&k5).is_none());

    assert_eq!(map.remove(&k7).unwrap(), 7);
    assert!(map.get_copy(&k7).is_none());

    assert_eq!(map.get_copy(&k2).unwrap(), 2);
    assert_eq!(map.get_copy(&k4).unwrap(), 4);
    assert_eq!(map.get_copy(&k6).unwrap(), 6);
    assert_eq!(map.get_copy(&k8).unwrap(), 8);
}

#[test]
fn map_tombstones_work_fine() {
    let mut map = SHashTreeMap::new();

    for i in 0..100 {
        map.insert(i, i);
    }

    assert_eq!(map.len(), 100);

    for i in 0..50 {
        map.remove(&i);
    }

    assert_eq!(map.len(), 50);

    for i in 0..50 {
        map.insert(i, i);
    }

    assert_eq!(map.len(), 100);
}

#[test]
fn mod_simple_flow_works_well() {
    let mut map = SHashMap::new_with_capacity(3).unwrap();

    let k1 = 1;
    let k2 = 2;
    let k3 = 3;
    let k4 = 4;
    let k5 = 5;
    let k6 = 6;
    let k7 = 7;
    let k8 = 8;

    map.insert(k1, 1).unwrap();
    map.insert(k2, 2).unwrap();
    map.insert(k3, 3).unwrap();
    map.insert(k4, 4).unwrap();
    map.insert(k5, 5).unwrap();
    map.insert(k6, 6).unwrap();
    map.insert(k7, 7).unwrap();
    map.insert(k8, 8).unwrap();

    assert_eq!(*map.get(&k1).unwrap(), 1);
    assert_eq!(*map.get(&k2).unwrap(), 2);
    assert_eq!(*map.get(&k3).unwrap(), 3);
    assert_eq!(*map.get(&k4).unwrap(), 4);
    assert_eq!(*map.get(&k5).unwrap(), 5);
    assert_eq!(*map.get(&k6).unwrap(), 6);
    assert_eq!(*map.get(&k7).unwrap(), 7);
    assert_eq!(*map.get(&k8).unwrap(), 8);

    assert!(map.get(&9).is_none());
    assert!(map.get(&0).is_none());

    assert_eq!(map.remove(&k3).unwrap(), 3);
    assert!(map.get(&k3).is_none());

    assert_eq!(map.remove(&k1).unwrap(), 1);
    assert!(map.get(&k1).is_none());

    assert_eq!(map.remove(&k5).unwrap(), 5);
    assert!(map.get(&k5).is_none());

    assert_eq!(map.remove(&k7).unwrap(), 7);
    assert!(map.get(&k7).is_none());

    assert_eq!(*map.get(&k2).unwrap(), 2);
    assert_eq!(*map.get(&k4).unwrap(), 4);
    assert_eq!(*map.get(&k6).unwrap(), 6);
    assert_eq!(*map.get(&k8).unwrap(), 8);
}

#[test]
fn mod_basic_flow_works_fine() {
    // on the hash map
    let mut map = SHashMap::new_with_capacity(3).unwrap();

    assert!(map.remove(&10).is_none());
    assert!(map.get(&10).is_none());

    let it = map.insert(1, 1).unwrap();
    assert!(it.is_none());
    assert!(map.insert(2, 2).unwrap().is_none());
    assert!(map.insert(3, 3).unwrap().is_none());
    assert_eq!(map.insert(1, 10).unwrap().unwrap(), 1);

    assert!(map.remove(&5).is_none());
    assert_eq!(map.remove(&1).unwrap(), 10);

    assert!(map.contains_key(&2));
    assert!(!map.contains_key(&5));

    let mut map = SHashMap::default();
    for i in 0..100 {
        assert!(map.insert(i, i).unwrap().is_none());
    }

    for i in 0..100 {
        assert_eq!(*map.get(&i).unwrap(), i);
    }

    for i in 0..100 {
        assert_eq!(map.remove(&(99 - i)).unwrap(), 99 - i);
    }

    // on the hash set
    let mut set = SHashSet::default();

    assert!(set.is_empty());

    assert!(!set.insert(10).unwrap());
    assert!(!set.insert(20).unwrap());
    assert!(set.insert(10).unwrap());

    assert!(set.contains(&10));
    assert!(!set.contains(&100));

    assert_eq!(set.len(), 2);

    assert!(!set.remove(&100));
    assert!(set.remove(&10));

    SHashSet::<u64>::new_with_capacity(10).unwrap();

    // on the vector
    let mut v = SVec::default();
    assert!(v.get(100).is_none());

    v.push(10).unwrap();
    v.push(20).unwrap();

    assert_eq!(*v.get(0).unwrap(), 10);
    assert_eq!(*v.get(1).unwrap(), 20);
    assert_eq!(v.replace(0, 11), 10);

    // on a search-tree node
    let mut node = NRBTreeNode::<u64, u64>::new();

    assert_eq!(node.get_left(), 0);
    assert_eq!(node.get_right(), 0);
    assert_eq!(node.get_parent(), 0);

    node.set_left(1000);
    node.set_right(2000);
    node.set_parent(3000);

    assert_eq!(node.get_left(), 1000);
    assert_eq!(node.get_right(), 2000);
    assert_eq!(node.get_parent(), 3000);

    for i in 10..(10 + CAPACITY) as u64 {
        assert!(node.insert(i * 2, i * 2).unwrap().is_none());
    }

    for i in 100..105 {
        let (k, v, to_left) = node.insert(i, i).unwrap_err();
        assert_eq!(k, i);
        assert_eq!(v, i);
        assert!(!to_left);
    }

    for i in 0..5 {
        let (k, v, to_left) = node.insert(i, i).unwrap_err();
        assert_eq!(k, i);
        assert_eq!(v, i);
        assert!(to_left);
    }

    for i in 10..(10 + CAPACITY) as u64 {
        let (_k, _v, _to_left) = node.insert(i * 2 + 1, i * 2 + 1).unwrap_err();

        assert_eq!(node.len(), CAPACITY);
    }

    for i in 0..5 {
        let to_left = node.remove(&i).unwrap_err();
        assert!(to_left)
    }

    for i in 100..105 {
        let to_left = node.remove(&i).unwrap_err();
        assert!(!to_left);
    }

    for i in 24..30 {
        assert_eq!(node.remove(&i).unwrap().unwrap(), i);
    }

    assert_eq!(node.remove(&32).unwrap().unwrap(), 32);
    assert!(node.remove(&32).unwrap().is_none());
    assert_eq!(node.remove(&34).unwrap().unwrap(), 34);

    assert_eq!(node.get_left(), 1000);
    assert_eq!(node.get_right(), 2000);
    assert_eq!(node.get_parent(), 3000);
}

#[test]
fn nrb_node_full_pushes_out_an_end_entry() {
    let mut node = NRBTreeNode::<u32, u32>::new();
    for i in 0..CAPACITY as u32 {
        assert_eq!(node.insert(i * 10, i), Ok(None));
    }
    // an existing key takes the new value
    assert_eq!(node.insert(30, 333), Ok(Some(3)));
    assert_eq!(node.get(&30), Ok(Some(333)));
    // slot 2 is before the middle: the first entry goes out to the left
    assert_eq!(node.insert(15, 15), Err((0, 0, true)));
    assert_eq!(node.get(&0), Err(true));
    assert_eq!(node.get(&15), Ok(Some(15)));
    // slot 8 is after the middle: the last entry goes out to the right
    assert_eq!(node.insert(75, 75), Err((100, 10, false)));
    assert_eq!(node.get(&100), Err(false));
    assert_eq!(node.len(), CAPACITY);
    // a key between the keys but not there
    assert_eq!(node.get(&41), Ok(None));
    assert_eq!(node.contains_key(&41), Ok(false));
    assert_eq!(node.contains_key(&40), Ok(true));
    assert_eq!(node.contains_key(&1), Err(true));
    assert_eq!(node.contains_key(&1000), Err(false));
    // an empty node sends every key to the left
    let empty = NRBTreeNode::<u32, u32>::new();
    assert_eq!(empty.get(&5), Err(true));
    assert!(!empty.is_black());
    let mut n2 = NRBTreeNode::<u32, u32>::new();
    n2.set_is_black(true);
    n2.set_is_left_child(true);
    assert!(n2.is_black() && n2.is_left_child());
}

#[test]
fn hash_set_basic_flow_works_fine() {
    let mut set = SHashSet::<u64>::default();

    assert!(set.is_empty());

    assert!(!set.insert(10).unwrap());
    assert!(!set.insert(20).unwrap());
    assert!(set.insert(10).unwrap());

    assert!(set.contains(&10));
    assert!(!set.contains(&100));

    assert_eq!(set.len(), 2);

    assert!(!set.remove(&100));
    assert!(set.remove(&10));

    set.drop();

    let set = SHashSet::<u64>::new_with_capacity(10).unwrap();
    set.drop();
}
