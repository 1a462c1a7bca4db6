# Stable collections

Vectors, logs, heaps, hash maps and sets, and B+ tree maps and sets, written in
Verus with contracts over mathematical views (`Seq`, `Map`, `Set`, `Multiset`):

- `vec` (`SVec`), `vec_direct` (`SVecDirect`), `log` (`SLog`): sequences;
- `binary_heap` (`SBinaryHeap`): a heap over an `SVec`, kept heap-ordered, with
  its sift-up and sift-down stated exactly;
- `hash_map` (`SHashMap`, `SHashTreeNode`), `hash_tree_map` (`SHashTreeMap`),
  `hash_map_direct` (`SHashMapDirect`), `hash_set` (`SHashSet`): hash maps and sets
  keyed by `zwohash` hashes;
- `btree_map` (`SBTreeMap`, a B+ tree) and `btree_set` (`SBTreeSet`);
- `nrb_tree_map` (`NRBTreeNode`, `NRBTreeMap`): a search tree of nodes that hold up
  to eleven sorted entries each, and push an end entry down when full;
- `key`: the element traits, and the calls into `zwohash`;
- `laws`: properties that tie operations together (a read gives back a write,
  a push is undone by a pop, ...).

`app/` prints the collections' contents for debugging.
