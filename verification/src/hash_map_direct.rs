//! `SHashMapDirect`: a hash map of copyable keys and values that chains the entries of
//! each bucket in a vector. The table of buckets is made on the first insertion.
use vstd::prelude::*;
use crate::key::{KeyOrder, StableKey};

verus! {

/// The number of buckets of a map made with `new`.
pub const STABLE_HASH_MAP_DEFAULT_CAPACITY: u32 = 7993;

/// The bucket of key `k` in a table of `cap` buckets.
pub open spec fn bucket_of<K: StableKey>(k: K, cap: nat) -> int {
    (k.key_hash_spec() as int) % (cap as int)
}

/// The table holds `k` in its bucket.
pub open spec fn chain_has<K: StableKey, V>(t: Seq<Seq<(K, V)>>, k: K) -> bool {
    let b = t[bucket_of(k, t.len())];
    exists|i: int| 0 <= i < b.len() && b[i].0 == k
}

/// The map that a table of buckets holds.
pub open spec fn chain_view<K: StableKey, V>(t: Seq<Seq<(K, V)>>) -> Map<K, V> {
    Map::new(
        |k: K| chain_has(t, k),
        |k: K|
            {
                let b = t[bucket_of(k, t.len())];
                b[choose|i: int| 0 <= i < b.len() && b[i].0 == k].1
            },
    )
}

/// Every entry sits in the bucket of its key, and no bucket holds a key twice.
pub open spec fn chains_wf<K: StableKey, V>(t: Seq<Seq<(K, V)>>) -> bool {
    &&& t.len() > 0
    &&& forall|b: int, i: int| 0 <= b < t.len() && 0 <= i < t[b].len() ==> bucket_of(#[trigger] t[b][i].0, t.len()) == b
    &&& forall|b: int, i: int, j: int|
        0 <= b < t.len() && 0 <= i < t[b].len() && 0 <= j < t[b].len() && i != j ==> #[trigger] t[b][i].0 != #[trigger] t[b][j].0
}

/// The entry in slot `i` of bucket `b` is an entry of the map.
pub proof fn lemma_chain_at<K: StableKey, V>(t: Seq<Seq<(K, V)>>, b: int, i: int)
    requires
        chains_wf(t),
        0 <= b < t.len(),
        0 <= i < t[b].len(),
    ensures
        chain_view(t).contains_key(t[b][i].0),
        chain_view(t)[t[b][i].0] == t[b][i].1,
{
    let k = t[b][i].0;
    assert(bucket_of(k, t.len()) == b);
    let j = choose|j: int| 0 <= j < t[b].len() && t[b][j].0 == k;
    if j != i {
        assert(t[b][i].0 != t[b][j].0);
    }
}

/// Changing one bucket changes the map only at the keys of that bucket.
pub proof fn lemma_chain_other<K: StableKey, V>(t: Seq<Seq<(K, V)>>, t2: Seq<Seq<(K, V)>>, b: int, k: K)
    requires
        t.len() == t2.len(),
        t.len() > 0,
        forall|c: int| 0 <= c < t.len() && c != b ==> t2[c] == t[c],
        bucket_of(k, t.len()) != b,
    ensures
        chain_view(t2).contains_key(k) == chain_view(t).contains_key(k),
        chain_view(t).contains_key(k) ==> chain_view(t2)[k] == chain_view(t)[k],
{
    let c = bucket_of(k, t.len());
    assert(0 <= c < t.len());
    assert(t2[c] == t[c]);
}

/// Writing a new value next to a key of bucket `b` writes it into the map.
pub proof fn lemma_chain_update<K: StableKey, V>(t: Seq<Seq<(K, V)>>, b: int, i: int, v: V)
    requires
        chains_wf(t),
        0 <= b < t.len(),
        0 <= i < t[b].len(),
    ensures
        chains_wf(t.update(b, t[b].update(i, (t[b][i].0, v)))),
        chain_view(t.update(b, t[b].update(i, (t[b][i].0, v)))) == chain_view(t).insert(t[b][i].0, v),
{
    let k = t[b][i].0;
    let nb = t[b].update(i, (k, v));
    let t2 = t.update(b, nb);
    let n = t.len();
    assert forall|c: int, j: int| 0 <= c < t2.len() && 0 <= j < t2[c].len() implies bucket_of(#[trigger] t2[c][j].0, t2.len()) == c by {
        assert(t2[c][j].0 == t[c][j].0);
    }
    assert forall|c: int, j1: int, j2: int|
        0 <= c < t2.len() && 0 <= j1 < t2[c].len() && 0 <= j2 < t2[c].len() && j1 != j2 implies #[trigger] t2[c][j1].0 != #[trigger] t2[c][j2].0 by {
        assert(t2[c][j1].0 == t[c][j1].0 && t2[c][j2].0 == t[c][j2].0);
    }
    lemma_chain_at(t, b, i);
    lemma_chain_at(t2, b, i);
    assert forall|kk: K| #[trigger] chain_view(t2).contains_key(kk) == chain_view(t).insert(k, v).contains_key(kk) by {
        if bucket_of(kk, n) != b {
            lemma_chain_other(t, t2, b, kk);
        } else {
            if chain_view(t).contains_key(kk) {
                let j = choose|j: int| 0 <= j < t[b].len() && t[b][j].0 == kk;
                assert(t2[b][j].0 == kk);
            }
            if chain_view(t2).contains_key(kk) {
                let j = choose|j: int| 0 <= j < t2[b].len() && t2[b][j].0 == kk;
                assert(t[b][j].0 == kk);
            }
        }
    }
    assert forall|kk: K| chain_view(t2).contains_key(kk) implies #[trigger] chain_view(t2)[kk] == chain_view(t).insert(k, v)[kk] by {
        if bucket_of(kk, n) != b {
            lemma_chain_other(t, t2, b, kk);
        } else if kk != k {
            let j = choose|j: int| 0 <= j < t2[b].len() && t2[b][j].0 == kk;
            assert(j != i);
            lemma_chain_at(t2, b, j);
            lemma_chain_at(t, b, j);
        }
    }
    assert(chain_view(t2) =~= chain_view(t).insert(k, v));
}

/// Appending an entry whose key is not in the map to the bucket of its key adds it.
pub proof fn lemma_chain_push<K: StableKey, V>(t: Seq<Seq<(K, V)>>, k: K, v: V)
    requires
        chains_wf(t),
        !chain_view(t).contains_key(k),
    ensures
        chains_wf(t.update(bucket_of(k, t.len()), t[bucket_of(k, t.len())].push((k, v)))),
        chain_view(t.update(bucket_of(k, t.len()), t[bucket_of(k, t.len())].push((k, v)))) == chain_view(t).insert(k, v),
{
    let n = t.len();
    let b = bucket_of(k, n);
    let nb = t[b].push((k, v));
    let t2 = t.update(b, nb);
    assert(0 <= b < n);
    assert forall|c: int, j: int| 0 <= c < t2.len() && 0 <= j < t2[c].len() implies bucket_of(#[trigger] t2[c][j].0, t2.len()) == c by {
        if c != b || j < t[b].len() {
            assert(t2[c][j] == t[c][j]);
        }
    }
    assert forall|c: int, j1: int, j2: int|
        0 <= c < t2.len() && 0 <= j1 < t2[c].len() && 0 <= j2 < t2[c].len() && j1 != j2 implies #[trigger] t2[c][j1].0 != #[trigger] t2[c][j2].0 by {
        if c == b {
            if j1 < t[b].len() && j2 < t[b].len() {
                assert(t2[c][j1] == t[c][j1] && t2[c][j2] == t[c][j2]);
            } else if j1 < t[b].len() {
                assert(t2[c][j1] == t[c][j1]);
                assert(t[b][j1].0 != k);
            } else {
                assert(t2[c][j2] == t[c][j2]);
                assert(t[b][j2].0 != k);
            }
        }
    }
    assert(t2[b][t[b].len() as int] == (k, v));
    lemma_chain_at(t2, b, t[b].len() as int);
    assert forall|kk: K| #[trigger] chain_view(t2).contains_key(kk) == chain_view(t).insert(k, v).contains_key(kk) by {
        if bucket_of(kk, n) != b {
            lemma_chain_other(t, t2, b, kk);
        } else if kk != k {
            if chain_view(t).contains_key(kk) {
                let j = choose|j: int| 0 <= j < t[b].len() && t[b][j].0 == kk;
                assert(t2[b][j].0 == kk);
            }
            if chain_view(t2).contains_key(kk) {
                let j = choose|j: int| 0 <= j < t2[b].len() && t2[b][j].0 == kk;
                assert(t[b][j].0 == kk);
            }
        }
    }
    assert forall|kk: K| chain_view(t2).contains_key(kk) implies #[trigger] chain_view(t2)[kk] == chain_view(t).insert(k, v)[kk] by {
        if bucket_of(kk, n) != b {
            lemma_chain_other(t, t2, b, kk);
        } else if kk != k {
            let j = choose|j: int| 0 <= j < t2[b].len() && t2[b][j].0 == kk;
            assert(j < t[b].len());
            lemma_chain_at(t2, b, j);
            assert(t2[b][j] == t[b][j]);
            lemma_chain_at(t, b, j);
        }
    }
    assert(chain_view(t2) =~= chain_view(t).insert(k, v));
}

/// A bucket with its entry in slot `i` replaced by its last, and its last dropped.
pub open spec fn swap_remove<T>(s: Seq<T>, i: int) -> Seq<T> {
    s.update(i, s.last()).drop_last()
}

/// Taking the entry in slot `i` out of bucket `b` removes its key from the map.
pub proof fn lemma_chain_swap_remove<K: StableKey, V>(t: Seq<Seq<(K, V)>>, b: int, i: int)
    requires
        chains_wf(t),
        0 <= b < t.len(),
        0 <= i < t[b].len(),
    ensures
        chains_wf(t.update(b, swap_remove(t[b], i))),
        chain_view(t.update(b, swap_remove(t[b], i))) == chain_view(t).remove(t[b][i].0),
{
    let n = t.len();
    let k = t[b][i].0;
    let last = t[b].len() - 1;
    let nb = swap_remove(t[b], i);
    let t2 = t.update(b, nb);
    // the slot of each entry of the new bucket in the old one
    assert forall|j: int| 0 <= j < nb.len() implies #[trigger] nb[j] == t[b][if j == i { last } else { j }] by {
    }
    assert forall|c: int, j: int| 0 <= c < t2.len() && 0 <= j < t2[c].len() implies bucket_of(#[trigger] t2[c][j].0, t2.len()) == c by {
        if c == b {
            assert(nb[j] == t[b][if j == i { last } else { j }]);
        }
    }
    assert forall|c: int, j1: int, j2: int|
        0 <= c < t2.len() && 0 <= j1 < t2[c].len() && 0 <= j2 < t2[c].len() && j1 != j2 implies #[trigger] t2[c][j1].0 != #[trigger] t2[c][j2].0 by {
        if c == b {
            assert(nb[j1] == t[b][if j1 == i { last } else { j1 }]);
            assert(nb[j2] == t[b][if j2 == i { last } else { j2 }]);
        }
    }
    lemma_chain_at(t, b, i);
    assert forall|kk: K| #[trigger] chain_view(t2).contains_key(kk) == chain_view(t).remove(k).contains_key(kk) by {
        if bucket_of(kk, n) != b {
            lemma_chain_other(t, t2, b, kk);
        } else {
            if chain_view(t2).contains_key(kk) {
                let j = choose|j: int| 0 <= j < t2[b].len() && t2[b][j].0 == kk;
                let jj = if j == i { last } else { j };
                assert(nb[j] == t[b][jj]);
                assert(jj != i);
                assert(t[b][jj].0 != t[b][i].0);
            }
            if kk != k && chain_view(t).contains_key(kk) {
                let j = choose|j: int| 0 <= j < t[b].len() && t[b][j].0 == kk;
                assert(j != i);
                if j == last {
                    assert(nb[i] == t[b][last]);
                } else {
                    assert(nb[j] == t[b][j]);
                }
            }
        }
    }
    assert forall|kk: K| chain_view(t2).contains_key(kk) implies #[trigger] chain_view(t2)[kk] == chain_view(t).remove(k)[kk] by {
        if bucket_of(kk, n) != b {
            lemma_chain_other(t, t2, b, kk);
        } else {
            let j = choose|j: int| 0 <= j < t2[b].len() && t2[b][j].0 == kk;
            let jj = if j == i { last } else { j };
            assert(nb[j] == t[b][jj]);
            lemma_chain_at(t2, b, j);
            lemma_chain_at(t, b, jj);
        }
    }
    assert(chain_view(t2) =~= chain_view(t).remove(k));
}

/// A hash map whose buckets chain their entries; its key hashes come from `zwohash`.
pub struct SHashMapDirect<K, V> {
    len: u64,
    table_capacity: u32,
    table: Option<Vec<Vec<(K, V)>>>,
}

impl<K: StableKey, V: Copy> View for SHashMapDirect<K, V> {
    type V = Map<K, V>;

    closed spec fn view(&self) -> Map<K, V> {
        match self.table {
            Some(_) => chain_view(self.buckets()),
            None => Map::empty(),
        }
    }
}

impl<K: StableKey, V: Copy> SHashMapDirect<K, V> {
    /// The buckets, once the table is made.
    pub closed spec fn buckets(&self) -> Seq<Seq<(K, V)>> {
        match self.table {
            Some(t) => Seq::new(t@.len(), |b: int| t@[b]@),
            None => Seq::empty(),
        }
    }

    pub closed spec fn wf(&self) -> bool {
        &&& self.table_capacity > 0
        &&& match self.table {
            Some(t) => {
                &&& t@.len() == self.table_capacity
                &&& chains_wf(self.buckets())
            },
            None => self.len == 0,
        }
        &&& self@.dom().finite()
        &&& self@.len() == self.len
    }

    /// The entries of a well-formed map are finitely many.
    pub proof fn lemma_finite(&self)
        requires
            self.wf(),
        ensures
            self@.dom().finite(),
    {
    }

    /// The number of buckets the table has, or will have.
    pub closed spec fn spec_table_capacity(&self) -> nat {
        self.table_capacity as nat
    }

    /// A map with the default number of buckets.
    pub fn new() -> (r: Self)
        ensures
            r.wf(),
            r@ == Map::<K, V>::empty(),
            r.spec_table_capacity() == STABLE_HASH_MAP_DEFAULT_CAPACITY,
    {
        Self::new_with_capacity(STABLE_HASH_MAP_DEFAULT_CAPACITY)
    }

    /// A map whose table will have `capacity` buckets.
    pub fn new_with_capacity(capacity: u32) -> (r: Self)
        requires
            capacity > 0,
        ensures
            r.wf(),
            r@ == Map::<K, V>::empty(),
            r.spec_table_capacity() == capacity,
    {
        let r = SHashMapDirect { len: 0, table_capacity: capacity, table: None };
        assert(r@ =~= Map::<K, V>::empty());
        r
    }

    /// Makes the table of empty buckets if there is none.
    fn init_table(&mut self)
        requires
            old(self).wf(),
        ensures
            final(self).wf(),
            final(self)@ == old(self)@,
            final(self).len == old(self).len,
            final(self).table_capacity == old(self).table_capacity,
            final(self).table is Some,
    {
        if self.table.is_none() {
            let cap = self.table_capacity as usize;
            let mut t: Vec<Vec<(K, V)>> = Vec::new();
            let mut i: usize = 0;
            while i < cap
                invariant
                    i <= cap,
                    t@.len() == i,
                    forall|b: int| 0 <= b < i ==> (#[trigger] t@[b])@.len() == 0,
                decreases cap - i,
            {
                t.push(Vec::new());
                i = i + 1;
            }
            self.table = Some(t);
            proof {
                let bs = self.buckets();
                assert forall|b: int| 0 <= b < bs.len() implies (#[trigger] bs[b]).len() == 0 by {
                    assert(bs[b] == t@[b]@);
                }
                assert(chain_view(bs) =~= Map::<K, V>::empty()) by {
                    assert forall|k: K| !chain_view(bs).contains_key(k) by {
                        let c = bucket_of(k, bs.len());
                        assert(bs[c].len() == 0);
                    }
                }
                assert(old(self)@ =~= Map::<K, V>::empty());
            }
        }
    }

    /// The bucket of `key`.
    fn find_bucket_idx(&self, key: &K) -> (r: usize)
        requires
            self.wf(),
        ensures
            r == bucket_of(*key, self.table_capacity as nat),
            r < self.table_capacity,
    {
        let hash = key.key_hash();
        (hash % (self.table_capacity as u64)) as usize
    }

    /// The place of `key` in bucket `b`, if it is there.
    fn find_in_bucket(bucket: &Vec<(K, V)>, key: &K) -> (r: Option<usize>)
        ensures
            r matches Some(i) ==> i < bucket@.len() && bucket@[i as int].0 == *key,
            r is None ==> forall|i: int| 0 <= i < bucket@.len() ==> #[trigger] bucket@[i].0 != *key,
    {
        let mut i: usize = 0;
        while i < bucket.len()
            invariant
                i <= bucket@.len(),
                forall|j: int| 0 <= j < i ==> #[trigger] bucket@[j].0 != *key,
            decreases bucket@.len() - i,
        {
            if bucket[i].0.compare_key(key) == KeyOrder::Equal {
                proof {
                    K::lemma_key_int_injective(bucket@[i as int].0, *key);
                }
                return Some(i);
            }
            proof {
                if bucket@[i as int].0 == *key {
                    assert(bucket@[i as int].0.key_int() == key.key_int());
                }
            }
            i = i + 1;
        }
        None
    }

    /// Inserts `value` under `key`; returns the value that was there.
    pub fn insert(&mut self, key: K, value: V) -> (r: Option<V>)
        requires
            old(self).wf(),
            old(self)@.len() < u64::MAX,
        ensures
            final(self).wf(),
            final(self)@ == old(self)@.insert(key, value),
            r == (if old(self)@.contains_key(key) { Some(old(self)@[key]) } else { None }),
    {
        self.init_table();
        let idx = self.find_bucket_idx(&key);
        let ghost t = self.buckets();
        let ghost m0 = self@;
        let mut table = self.table.take().unwrap();
        let mut bucket: Vec<(K, V)> = Vec::new();
        table.set_and_swap(idx, &mut bucket);
        proof {
            assert(bucket@ == t[idx as int]);
        }
        let prev = match Self::find_in_bucket(&bucket, &key) {
            Some(i) => {
                let old_value = bucket[i].1;
                bucket.set(i, (key, value));
                proof {
                    lemma_chain_update(t, idx as int, i as int, value);
                    lemma_chain_at(t, idx as int, i as int);
                }
                Some(old_value)
            },
            None => {
                bucket.push((key, value));
                proof {
                    lemma_chain_push(t, key, value);
                    vstd::set::axiom_set_insert_len(m0.dom(), key);
                }
                self.len = self.len + 1;
                None
            },
        };
        let ghost nb = bucket@;
        table.set_and_swap(idx, &mut bucket);
        self.table = Some(table);
        proof {
            assert(self.buckets() =~= t.update(idx as int, nb));
            assert(m0.insert(key, value).dom() =~= m0.dom().insert(key));
        }
        prev
    }

    /// Removes `key`; returns the value it had.
    pub fn remove(&mut self, key: &K) -> (r: Option<V>)
        requires
            old(self).wf(),
        ensures
            final(self).wf(),
            final(self)@ == old(self)@.remove(*key),
            r == (if old(self)@.contains_key(*key) { Some(old(self)@[*key]) } else { None }),
    {
        if self.len == 0 {
            proof {
                assert(self@.dom() =~= Set::<K>::empty());
                assert(self@.remove(*key) =~= self@);
            }
            return None;
        }
        let idx = self.find_bucket_idx(key);
        let ghost t = self.buckets();
        let ghost m0 = self@;
        let mut table = self.table.take().unwrap();
        let mut bucket: Vec<(K, V)> = Vec::new();
        table.set_and_swap(idx, &mut bucket);
        proof {
            assert(bucket@ == t[idx as int]);
        }
        let res = match Self::find_in_bucket(&bucket, key) {
            Some(i) => {
                let last = bucket.len() - 1;
                let value = bucket[i].1;
                proof {
                    lemma_chain_swap_remove(t, idx as int, i as int);
                    lemma_chain_at(t, idx as int, i as int);
                    vstd::set::axiom_set_remove_len(m0.dom(), *key);
                }
                let moved = bucket[last];
                bucket.set(i, moved);
                bucket.pop();
                proof {
                    assert(bucket@ =~= swap_remove(t[idx as int], i as int));
                }
                self.len = self.len - 1;
                Some(value)
            },
            None => {
                proof {
                    assert(!m0.contains_key(*key));
                    assert(m0.remove(*key) =~= m0);
                    assert(t.update(idx as int, bucket@) =~= t);
                }
                None
            },
        };
        let ghost nb = bucket@;
        table.set_and_swap(idx, &mut bucket);
        self.table = Some(table);
        proof {
            assert(self.buckets() =~= t.update(idx as int, nb));
            assert(m0.remove(*key).dom() =~= m0.dom().remove(*key));
        }
        res
    }

    /// A copy of the value under `key`, if any.
    pub fn get_cloned(&self, key: &K) -> (r: Option<V>)
        requires
            self.wf(),
        ensures
            r == (if self@.contains_key(*key) { Some(self@[*key]) } else { None }),
    {
        if self.len == 0 {
            proof {
                assert(self@.dom() =~= Set::<K>::empty());
            }
            return None;
        }
        let idx = self.find_bucket_idx(key);
        let table = self.table.as_ref().unwrap();
        let bucket = &table[idx];
        proof {
            assert(bucket@ == self.buckets()[idx as int]);
        }
        match Self::find_in_bucket(bucket, key) {
            Some(i) => {
                proof {
                    lemma_chain_at(self.buckets(), idx as int, i as int);
                }
                Some(bucket[i].1)
            },
            None => None,
        }
    }

    /// Whether `key` has a value.
    pub fn contains_key(&self, key: &K) -> (r: bool)
        requires
            self.wf(),
        ensures
            r == self@.contains_key(*key),
    {
        self.get_cloned(key).is_some()
    }

    /// The number of entries.
    pub fn len(&self) -> (r: u64)
        requires
            self.wf(),
        ensures
            r == self@.len(),
    {
        self.len
    }

    pub fn is_empty(&self) -> (r: bool)
        requires
            self.wf(),
        ensures
            r == (self@.len() == 0),
    {
        self.len == 0
    }

    /// Releases the map.
    pub fn drop(self) {
    }
}

impl<K: StableKey, V: Copy> Default for SHashMapDirect<K, V> {
    fn default() -> (r: Self)
        ensures
            r.wf(),
            r@ == Map::<K, V>::empty(),
            r.spec_table_capacity() == STABLE_HASH_MAP_DEFAULT_CAPACITY,
    {
        Self::new()
    }
}

} // verus!
