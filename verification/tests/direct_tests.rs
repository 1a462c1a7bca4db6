use ic_stable_memory::hash_map_direct::SHashMapDirect;
use ic_stable_memory::vec_direct::SVecDirect;

fn direct_map_body(mut map: SHashMapDirect<i32, i32>) {
    let k1 = 1;
    let k2 = 2;
    let k3 = 3;
    let k4 = 4;
    let k5 = 5;
    let k6 = 6;
    let k7 = 7;
    let k8 = 8;

    map.insert(k1, 1);
    map.insert(k2, 2);
    map.insert(k3, 3);
    map.insert(k4, 4);
    map.insert(k5, 5);
    map.insert(k6, 6);
    map.insert(k7, 7);
    map.insert(k8, 8);

    assert_eq!(map.get_cloned(&k1).unwrap(), 1);
    assert_eq!(map.get_cloned(&k2).unwrap(), 2);
    assert_eq!(map.get_cloned(&k3).unwrap(), 3);
    assert_eq!(map.get_cloned(&k4).unwrap(), 4);
    assert_eq!(map.get_cloned(&k5).unwrap(), 5);
    assert_eq!(map.get_cloned(&k6).unwrap(), 6);
    assert_eq!(map.get_cloned(&k7).unwrap(), 7);
    assert_eq!(map.get_cloned(&k8).unwrap(), 8);

    assert!(map.get_cloned(&9).is_none());
    assert!(map.get_cloned(&0).is_none());

    assert_eq!(map.remove(&k3).unwrap(), 3);
    assert!(map.get_cloned(&k3).is_none());

    assert_eq!(map.remove(&k1).unwrap(), 1);
    assert!(map.get_cloned(&k1).is_none());

    assert_eq!(map.remove(&k5).unwrap(), 5);
    assert!(map.get_cloned(&k5).is_none());

    assert_eq!(map.remove(&k7).unwrap(), 7);
    assert!(map.get_cloned(&k7).is_none());

    assert_eq!(map.get_cloned(&k2).unwrap(), 2);
    assert_eq!(map.get_cloned(&k4).unwrap(), 4);
    assert_eq!(map.get_cloned(&k6).unwrap(), 6);
    assert_eq!(map.get_cloned(&k8).unwrap(), 8);

    map.drop();
}

#[test]
fn hash_map_direct_simple_flow_works_well_for_big() {
    let map = SHashMapDirect::new();
    direct_map_body(map);
}

#[test]
fn hash_map_direct_simple_flow_works_well_for_small() {
    let map = SHashMapDirect::new_with_capacity(3);
    direct_map_body(map);
}

#[test]
fn hash_map_direct_basic_flow_works_fine() {
    let mut map = SHashMapDirect::<u64, u64>::default();

    assert!(map.remove(&10).is_none());
    assert!(map.get_cloned(&10).is_none());

    assert!(map.insert(1, 1).is_none());
    assert!(map.insert(2, 2).is_none());
    assert!(map.insert(3, 3).is_none());
    assert_eq!(map.insert(1, 10).unwrap(), 1);

    assert!(map.remove(&5).is_none());
    assert_eq!(map.remove(&1).unwrap(), 10);

    assert!(map.contains_key(&2));
    assert!(!map.contains_key(&5));

    map.drop();

    let mut map = SHashMapDirect::<u64, u64>::new_with_capacity(3);
    for i in 0..100 {
        map.insert(i, i);
    }

    for i in 0..100 {
        assert_eq!(map.remove(&(99 - i)).unwrap(), 99 - i);
    }

    map.drop();
}

#[test]
fn new_hash_map_simple_flow_works_well_for_big() {
    let map = SHashMapDirect::new();
    direct_map_body(map);
}

#[test]
fn new_hash_map_simple_flow_works_well_for_small() {
    let map = SHashMapDirect::new_with_capacity(3);
    direct_map_body(map);
}

#[test]
fn new_hash_map_basic_flow_works_fine() {
    let mut map = SHashMapDirect::<u64, u64>::new_with_capacity(7773);

    assert!(map.remove(&10).is_none());
    assert!(map.get_cloned(&10).is_none());

    let it = map.insert(1, 1);
    assert!(it.is_none());
    assert!(map.insert(2, 2).is_none());
    assert!(map.insert(3, 3).is_none());
    assert_eq!(map.insert(1, 10).unwrap(), 1);

    assert!(map.remove(&5).is_none());
    assert_eq!(map.remove(&1).unwrap(), 10);

    assert!(map.contains_key(&2));
    assert!(!map.contains_key(&5));

    map.drop();

    let mut map = SHashMapDirect::<u64, u64>::default();
    for i in 0..100 {
        assert!(map.insert(i, i).is_none());
    }

    for i in 0..100 {
        assert_eq!(map.get_cloned(&i).unwrap(), i);
    }

    for i in 0..100 {
        assert_eq!(map.remove(&(99 - i)).unwrap(), 99 - i);
    }

    map.drop();
}

#[test]
fn vec_direct_create_destroy_work_fine() {
    let mut stable_vec = SVecDirect::<u64>::new();
    assert_eq!(stable_vec.capacity(), 0);
    assert_eq!(stable_vec.len(), 0);

    stable_vec.push(10);
    assert_eq!(stable_vec.capacity(), 4);
    assert_eq!(stable_vec.len(), 1);

    stable_vec.drop();
}
