use ic_stable_memory::btree_map::internal_node::InternalBTreeNode;
use ic_stable_memory::btree_map::leaf_node::LeafBTreeNode;
use ic_stable_memory::btree_map::{B, CAPACITY, CHILDREN_MIN_LEN_AFTER_SPLIT, MIN_LEN_AFTER_SPLIT};

#[test]
fn internal_node_works_fine() {
    let mut node = InternalBTreeNode::<u64>::create_empty();

    for i in 0..CAPACITY {
        node.push_key(i as u64, i);
    }

    node.write_len(CAPACITY);

    for i in 0..CAPACITY {
        let k = node.pop_key(CAPACITY - i);
        assert_eq!(k, (CAPACITY - i - 1) as u64);
    }

    for i in 0..CAPACITY {
        node.insert_key(0, i as u64, i);
    }

    for i in 0..CAPACITY {
        let k = node.remove_key(i, CAPACITY);
        assert_eq!(k, (CAPACITY - i - 1) as u64);

        node.insert_key(i, k, CAPACITY - 1);
        node.push_child_ptr(1u64, i);
    }

    node.push_child_ptr(1u64, CAPACITY);

    let (mut right, mid) = node.split_max_len();

    node.write_len(MIN_LEN_AFTER_SPLIT);
    right.write_len(MIN_LEN_AFTER_SPLIT);

    assert_eq!(node.read_len(), MIN_LEN_AFTER_SPLIT);
    assert_eq!(right.read_len(), MIN_LEN_AFTER_SPLIT);

    for i in 0..node.read_len() {
        let k = node.read_key(i);
        assert_eq!(k, (CAPACITY - i - 1) as u64);

        let c = *node.read_child_ptr(i);
        assert_eq!(c, 1u64);
    }

    let c = *node.read_child_ptr(MIN_LEN_AFTER_SPLIT);
    assert_eq!(c, 1u64);

    for i in 0..right.read_len() {
        let k = right.read_key(i);
        assert_eq!(k, (CAPACITY - B - i - 1) as u64);

        let c = *right.read_child_ptr(i);
        assert_eq!(c, 1u64);
    }

    let c = *right.read_child_ptr(CHILDREN_MIN_LEN_AFTER_SPLIT - 1);
    assert_eq!(c, 1u64);

    node.merge_min_len(mid, right);

    node.write_len(CAPACITY);
    assert_eq!(node.read_len(), CAPACITY);

    for i in 0..node.read_len() {
        let k = node.read_key(i);
        assert_eq!(k, (CAPACITY - i - 1) as u64);

        let c = *node.read_child_ptr(i);
        assert_eq!(c, 1u64);
    }

    let c = *node.read_child_ptr(CAPACITY - 1);
    assert_eq!(c, 1u64);
}

#[test]
fn leaf_node_works_fine() {
    let mut node = LeafBTreeNode::<u64, u64>::create();

    for i in 0..CAPACITY {
        node.push_key(i as u64, i);
        node.push_value(i as u64, i);
    }

    for i in 0..CAPACITY {
        let k = node.pop_key(CAPACITY - i);
        let v = node.pop_value(CAPACITY - i);

        assert_eq!(k, (CAPACITY - i - 1) as u64);
        assert_eq!(v, (CAPACITY - i - 1) as u64);
    }

    for i in (0..CAPACITY).rev() {
        node.insert_key(0, i as u64, CAPACITY - i - 1);
        node.insert_value(0, i as u64, CAPACITY - i - 1);
    }

    node.write_len(CAPACITY);

    for i in 0..CAPACITY {
        let k = node.remove_key(i, CAPACITY);
        let v = node.remove_value(i, CAPACITY);

        assert_eq!(k, i as u64);
        assert_eq!(v, i as u64);

        node.insert_key(i, k, CAPACITY - 1);
        node.insert_value(i, v, CAPACITY - 1);
    }

    let right = node.split_max_len(true);

    for i in 0..MIN_LEN_AFTER_SPLIT {
        let k = node.read_key(i);
        let v = *node.read_value(i);

        assert_eq!(k, i as u64);
        assert_eq!(v, i as u64);
    }

    for i in 0..B {
        let k = right.read_key(i);
        let v = *right.read_value(i);

        assert_eq!(k, (i + MIN_LEN_AFTER_SPLIT) as u64);
        assert_eq!(v, (i + MIN_LEN_AFTER_SPLIT) as u64);
    }

    node.merge_min_len(right);

    for i in 0..CAPACITY {
        let k = node.read_key(i);
        let v = *node.read_value(i);

        assert_eq!(k, i as u64);
        assert_eq!(v, i as u64);
    }
}
