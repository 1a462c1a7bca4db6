use ic_stable_memory::vec::SVec;
use ic_stable_memory::vec_direct::SVecDirect;

#[test]
fn vec_create_destroy_work_fine() {
    let mut stable_vec = SVecDirect::<u64>::new();
    assert_eq!(stable_vec.capacity(), 0);
    assert_eq!(stable_vec.len(), 0);

    stable_vec.push(10);
    assert_eq!(stable_vec.capacity(), 4);
    assert_eq!(stable_vec.len(), 1);

    stable_vec.drop();
}

#[test]
fn vec_indirect_create_destroy_work_fine() {
    let mut stable_vec = SVecDirect::<u64>::new();
    assert_eq!(stable_vec.capacity(), 0);
    assert_eq!(stable_vec.len(), 0);

    stable_vec.push(10);
    assert_eq!(stable_vec.capacity(), 4);
    assert_eq!(stable_vec.len(), 1);

    stable_vec.drop();
}

#[test]
fn mod_create_destroy_work_fine() {
    let mut stable_vec = SVec::new();
    assert_eq!(stable_vec.capacity(), 4);
    assert_eq!(stable_vec.len(), 0);

    stable_vec.push(10).unwrap();
    assert_eq!(stable_vec.capacity(), 4);
    assert_eq!(stable_vec.len(), 1);

    for i in 0..4 {
        stable_vec.push(i).unwrap();
    }
    assert_eq!(stable_vec.capacity(), 8);
}

#[test]
fn vec_capacity_doubles_when_full() {
    let mut v = SVec::<u64>::new_with_capacity(1).unwrap();
    assert_eq!(v.capacity(), 1);
    v.push(1).unwrap();
    assert_eq!(v.capacity(), 1);
    v.push(2).unwrap();
    assert_eq!(v.capacity(), 2);
    v.push(3).unwrap();
    assert_eq!(v.capacity(), 4);
    let empty = SVec::<u64>::new_with_capacity(0).unwrap();
    assert_eq!(empty.capacity(), 0);
    assert!(empty.is_empty());
}
