use ic_stable_memory::btree_map::SBTreeMap;
use ic_stable_memory::hash_set::SHashSet;
use ic_stable_memory::hash_map::{SHashMap, SHashTreeNode};
use ic_stable_memory::key::StableKey;
use std::hash::{Hash, Hasher};

fn zwo<T: Hash>(v: T) -> u64 {
    let mut h = zwohash::ZwoHasher::default();
    v.hash(&mut h);
    h.finish()
}

#[test]
fn key_hashes_are_zwohash() {
    assert_eq!(5u64.key_hash(), zwo(5u64));
    assert_eq!(5u32.key_hash(), zwo(5u32));
    assert_eq!(5usize.key_hash(), zwo(5usize));
    assert_eq!(5i32.key_hash(), zwo(5i32));
    assert_eq!((-5i64).key_hash(), zwo(-5i64));
    assert_ne!(5u64.key_hash(), 5);
    assert_ne!(5u32.key_hash(), 5);
    assert_ne!(5usize.key_hash(), 5);
    assert_ne!(5i32.key_hash(), 5);
    assert_ne!(5i64.key_hash(), 5);
    assert_eq!(SHashTreeNode::<u64, u64>::hash(&77), zwo(77u64) as usize);
}

#[test]
fn small_and_wide_integer_keys_work() {
    assert_eq!(5u8.key_hash(), zwo(5u8));
    assert_eq!(5u16.key_hash(), zwo(5u16));
    assert_eq!(5u128.key_hash(), zwo(5u128));
    assert_ne!(5u8.key_hash(), 5);
    assert_ne!(5u16.key_hash(), 5);
    assert_ne!(5u128.key_hash(), 5);

    let mut m = SHashMap::<u8, u16>::new();
    for i in 0..=255u8 {
        assert_eq!(m.insert(i, i as u16 * 2).unwrap(), None);
    }
    for i in 0..=255u8 {
        assert_eq!(m.get_cloned(&i), Some(i as u16 * 2));
    }
    let mut b = SBTreeMap::<u16, u128>::new();
    for i in (0..300u16).rev() {
        b.insert(i, (i as u128) << 100);
    }
    assert_eq!(b.get_copy(&7), Some(7u128 << 100));
    let mut s = SHashSet::<u128>::new();
    assert!(!s.insert(u128::MAX).unwrap());
    assert!(s.contains(&u128::MAX));
}

#[test]
fn hash_map_grows_until_not_full() {
    let mut m = SHashMap::<u64, u64>::new_with_capacity(2).unwrap();
    assert_eq!(m.capacity(), 2);
    assert!(!m.is_full());
    assert_eq!(m.insert(1, 1).unwrap(), None);
    assert_eq!(m.capacity(), 2);
    assert!(m.is_full());
    assert_eq!(m.insert(2, 2).unwrap(), None);
    assert_eq!(m.capacity(), 3);

    let mut m = SHashMap::<u64, u64>::new();
    assert_eq!(m.capacity(), 7);
    for i in 0..4u64 {
        assert_eq!(m.insert(i, i).unwrap(), None);
    }
    assert_eq!(m.capacity(), 7);
    assert_eq!(m.len(), 4);
    assert_eq!(m.insert(4, 4).unwrap(), None);
    assert_eq!(m.capacity(), 7);
    assert!(m.is_full());
    assert_eq!(m.insert(1, 10).unwrap(), Some(1));
    assert_eq!(m.capacity(), 7);
    m.insert(5, 5).unwrap();
    assert_eq!(m.capacity(), 13);
    assert_eq!(m.len(), 6);
    assert_eq!(SHashMap::<u64, u64>::max_capacity(), 252645135);
}
