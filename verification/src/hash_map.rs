//! `SHashMap`: an open-addressing hash map with linear probing and eager
//! (backward-shift) removal, keyed by `zwohash` hashes.
use vstd::prelude::*;
use crate::key::{AsFixedSizeBytes, KeyOrder, StableKey};
use crate::OutOfMemory;

verus! {

/// The capacity a map has when it is created without one.
pub const DEFAULT_CAPACITY: usize = 7;

/// The largest capacity a map of `K` to `V` may have: a slot takes a flag byte, a key
/// and a value.
pub open spec fn map_max_capacity<K: AsFixedSizeBytes, V: AsFixedSizeBytes>() -> nat {
    (u32::MAX as nat) / (1 + K::spec_size() + V::spec_size())
}

/// The number of entries at which the next insertion of a new key grows the table:
/// three quarters of the capacity.
pub open spec fn full_len(cap: nat) -> nat {
    (cap * 3) / 4
}

/// The number of entries at which a hash tree node takes no new key: three times a
/// quarter of its capacity.
pub open spec fn node_full_len(cap: nat) -> nat {
    (cap / 4) * 3
}

/// The capacity after `n` growths from `cap`: each growth takes `c` slots to `2 * c - 1`.
pub open spec fn grown_capacity(cap: nat, n: nat) -> nat
    decreases n,
{
    if n == 0 {
        cap
    } else {
        (grown_capacity(cap, (n - 1) as nat) * 2 - 1) as nat
    }
}

/// Every growth that inserting a new key into a map of `cap` slots holding `len`
/// entries goes through stays within `max` slots, and doubling the capacity it grows
/// from does not overflow: whenever the map is full at every capacity up to the `n`th,
/// the `n + 1`th fits.
pub open spec fn grows_within(cap: nat, len: nat, max: nat) -> bool {
    forall|n: nat|
        (forall|m: nat| m <= n ==> len == full_len(#[trigger] grown_capacity(cap, m))) ==> (#[trigger] grown_capacity(cap, n))
            * 2 <= usize::MAX && grown_capacity(cap, n) * 2 - 1 <= max
}

/// Growing once is enough: from `cap >= 2` slots holding at most `full_len(cap)`
/// entries, the growths that a new key goes through end at `2 * cap - 1` slots when the
/// map is full and at `cap` slots when it is not.
pub proof fn lemma_grows_once(cap: nat, len: nat, n: nat)
    requires
        cap >= 2,
        len <= full_len(cap),
        len < full_len(grown_capacity(cap, n)),
        forall|m: nat| m < n ==> len == full_len(#[trigger] grown_capacity(cap, m)),
    ensures
        grown_capacity(cap, n) == if len == full_len(cap) { (2 * cap - 1) as nat } else { cap },
{
    assert(grown_capacity(cap, 0) == cap);
    if len < full_len(cap) {
        if n > 0 {
            assert(len == full_len(grown_capacity(cap, 0)));
        }
    } else {
        assert(n != 0);
        assert(grown_capacity(cap, 1) == 2 * cap - 1) by {
            assert(grown_capacity(cap, 1) == (grown_capacity(cap, 0) * 2 - 1) as nat);
        }
        assert(full_len((2 * cap - 1) as nat) > full_len(cap)) by (nonlinear_arith)
            requires
                cap >= 2,
                full_len((2 * cap - 1) as nat) == ((2 * cap - 1) * 3) / 4,
                full_len(cap) == (cap * 3) / 4,
        {
        }
        if n > 1 {
            assert(len == full_len(grown_capacity(cap, 1)));
        }
    }
}

/// The slot at which probing for `k` starts in a table of `cap` slots.
pub open spec fn home<K: StableKey>(k: K, cap: nat) -> int {
    (k.key_hash_spec() as usize) as int % (cap as int)
}

/// The slot `e` steps after slot `h`, wrapping around a table of `cap` slots.
pub open spec fn step(h: int, e: int, cap: int) -> int {
    if h + e < cap {
        h + e
    } else {
        h + e - cap
    }
}

/// How many steps lead from slot `h` to slot `x`, wrapping around.
pub open spec fn dist(h: int, x: int, cap: int) -> int {
    if h <= x {
        x - h
    } else {
        x + cap - h
    }
}

/// Slot `x` of `t` holds the key `k`.
pub open spec fn slot_has<K, V>(t: Seq<Option<(K, V)>>, x: int, k: K) -> bool {
    0 <= x < t.len() && t[x] is Some && t[x].unwrap().0 == k
}

/// Slot `x` of `t` holds an entry.
pub open spec fn occupied<K, V>(t: Seq<Option<(K, V)>>, x: int) -> bool {
    0 <= x < t.len() && t[x] is Some
}

/// The number of occupied slots.
pub open spec fn count_some<K, V>(t: Seq<Option<(K, V)>>) -> nat
    decreases t.len(),
{
    if t.len() == 0 {
        0
    } else {
        count_some(t.drop_last()) + (if t.last() is Some {
            1nat
        } else {
            0nat
        })
    }
}

/// The map that a table of slots holds.
pub open spec fn table_view<K, V>(t: Seq<Option<(K, V)>>) -> Map<K, V> {
    Map::new(
        |k: K| exists|x: int| slot_has(t, x, k),
        |k: K| t[choose|x: int| slot_has(t, x, k)].unwrap().1,
    )
}

/// No key stands in two slots.
pub open spec fn keys_unique<K, V>(t: Seq<Option<(K, V)>>) -> bool {
    forall|x: int, y: int|
        occupied(t, x) && occupied(t, y) && x != y ==> #[trigger] t[x].unwrap().0 != #[trigger] t[y].unwrap().0
}

/// Every slot between an entry's home slot and its own slot is occupied.
pub open spec fn probe_closed<K: StableKey, V>(t: Seq<Option<(K, V)>>) -> bool {
    forall|x: int, e: int|
        occupied(t, x) && 0 <= e < dist(home(t[x].unwrap().0, t.len()), x, t.len() as int) ==> occupied(
            t,
            #[trigger] step(home(t[x].unwrap().0, t.len()), e, t.len() as int),
        )
}

pub proof fn lemma_count_le<K, V>(t: Seq<Option<(K, V)>>)
    ensures
        count_some(t) <= t.len(),
    decreases t.len(),
{
    if t.len() > 0 {
        lemma_count_le(t.drop_last());
    }
}

pub proof fn lemma_count_update<K, V>(t: Seq<Option<(K, V)>>, x: int, v: Option<(K, V)>)
    requires
        0 <= x < t.len(),
    ensures
        count_some(t.update(x, v)) + (if t[x] is Some {
            1int
        } else {
            0int
        }) == count_some(t) + (if v is Some {
            1int
        } else {
            0int
        }),
    decreases t.len(),
{
    if x == t.len() - 1 {
        assert(t.update(x, v).drop_last() =~= t.drop_last());
    } else {
        lemma_count_update(t.drop_last(), x, v);
        assert(t.update(x, v).drop_last() =~= t.drop_last().update(x, v));
    }
}

pub proof fn lemma_count_full<K, V>(t: Seq<Option<(K, V)>>)
    requires
        forall|x: int| 0 <= x < t.len() ==> #[trigger] t[x] is Some,
    ensures
        count_some(t) == t.len(),
    decreases t.len(),
{
    if t.len() > 0 {
        lemma_count_full(t.drop_last());
    }
}

pub proof fn lemma_count_empty<K, V>(t: Seq<Option<(K, V)>>)
    requires
        forall|x: int| 0 <= x < t.len() ==> #[trigger] t[x] is None,
    ensures
        count_some(t) == 0,
    decreases t.len(),
{
    if t.len() > 0 {
        lemma_count_empty(t.drop_last());
    }
}

pub proof fn lemma_step_dist(h: int, x: int, cap: int)
    requires
        0 <= h < cap,
        0 <= x < cap,
    ensures
        0 <= dist(h, x, cap) < cap,
        step(h, dist(h, x, cap), cap) == x,
{
}

pub proof fn lemma_dist_step(h: int, e: int, cap: int)
    requires
        0 <= h < cap,
        0 <= e < cap,
    ensures
        0 <= step(h, e, cap) < cap,
        dist(h, step(h, e, cap), cap) == e,
{
}

pub proof fn lemma_home_range<K: StableKey>(k: K, cap: nat)
    requires
        cap > 0,
    ensures
        0 <= home(k, cap) < cap,
{
}

pub proof fn lemma_view_at<K, V>(t: Seq<Option<(K, V)>>, x: int)
    requires
        keys_unique(t),
        occupied(t, x),
    ensures
        table_view(t).contains_key(t[x].unwrap().0),
        table_view(t)[t[x].unwrap().0] == t[x].unwrap().1,
{
    let k = t[x].unwrap().0;
    assert(slot_has(t, x, k));
    let y = choose|y: int| slot_has(t, y, k);
    assert(slot_has(t, y, k));
    if y != x {
        assert(t[x].unwrap().0 != t[y].unwrap().0);
    }
}

pub proof fn lemma_view_absent<K, V>(t: Seq<Option<(K, V)>>, k: K)
    requires
        forall|x: int| !slot_has(t, x, k),
    ensures
        !table_view(t).contains_key(k),
{
}

/// Filling an empty slot with a key that is nowhere in the table adds it to the map.
pub proof fn lemma_view_fill<K, V>(t: Seq<Option<(K, V)>>, x: int, k: K, v: V)
    requires
        keys_unique(t),
        0 <= x < t.len(),
        t[x] is None,
        forall|y: int| !slot_has(t, y, k),
    ensures
        keys_unique(t.update(x, Some((k, v)))),
        table_view(t.update(x, Some((k, v)))) == table_view(t).insert(k, v),
{
    let t2 = t.update(x, Some((k, v)));
    assert forall|a: int, b: int|
        occupied(t2, a) && occupied(t2, b) && a != b implies #[trigger] t2[a].unwrap().0
        != #[trigger] t2[b].unwrap().0 by {
        if a == x {
            assert(!slot_has(t, b, k));
        } else if b == x {
            assert(!slot_has(t, a, k));
        } else {
            assert(t2[a] == t[a] && t2[b] == t[b]);
        }
    }
    assert forall|kk: K| #[trigger]
        table_view(t2).contains_key(kk) == table_view(t).insert(k, v).contains_key(kk) by {
        if kk == k {
            assert(slot_has(t2, x, k));
        } else {
            if exists|y: int| slot_has(t2, y, kk) {
                let y = choose|y: int| slot_has(t2, y, kk);
                assert(slot_has(t, y, kk));
            }
            if exists|y: int| slot_has(t, y, kk) {
                let y = choose|y: int| slot_has(t, y, kk);
                assert(slot_has(t2, y, kk));
            }
        }
    }
    assert forall|kk: K| #[trigger] table_view(t2).contains_key(kk) implies table_view(t2)[kk]
        == table_view(t).insert(k, v)[kk] by {
        let y = choose|y: int| slot_has(t2, y, kk);
        assert(slot_has(t2, y, kk));
        lemma_view_at(t2, y);
        if kk == k {
            assert(slot_has(t2, x, k));
            if y != x {
                assert(t2[x].unwrap().0 != t2[y].unwrap().0);
            }
        } else {
            assert(y != x);
            assert(occupied(t, y));
            lemma_view_at(t, y);
        }
    }
    assert(table_view(t2) =~= table_view(t).insert(k, v));
}

/// Emptying the slot of a key removes it from the map.
pub proof fn lemma_view_clear<K, V>(t: Seq<Option<(K, V)>>, x: int)
    requires
        keys_unique(t),
        occupied(t, x),
    ensures
        keys_unique(t.update(x, None)),
        table_view(t.update(x, None)) == table_view(t).remove(t[x].unwrap().0),
{
    let k = t[x].unwrap().0;
    let t2 = t.update(x, None);
    assert forall|a: int, b: int|
        occupied(t2, a) && occupied(t2, b) && a != b implies #[trigger] t2[a].unwrap().0
        != #[trigger] t2[b].unwrap().0 by {
        assert(t2[a] == t[a] && t2[b] == t[b]);
    }
    assert forall|kk: K| #[trigger]
        table_view(t2).contains_key(kk) == table_view(t).remove(k).contains_key(kk) by {
        if exists|y: int| slot_has(t2, y, kk) {
            let y = choose|y: int| slot_has(t2, y, kk);
            assert(slot_has(t, y, kk));
            if kk == k {
                assert(t[y].unwrap().0 != t[x].unwrap().0);
            }
        }
        if kk != k && exists|y: int| slot_has(t, y, kk) {
            let y = choose|y: int| slot_has(t, y, kk);
            assert(slot_has(t2, y, kk));
        }
    }
    assert forall|kk: K| #[trigger] table_view(t2).contains_key(kk) implies table_view(t2)[kk]
        == table_view(t).remove(k)[kk] by {
        let y = choose|y: int| slot_has(t2, y, kk);
        assert(slot_has(t2, y, kk));
        lemma_view_at(t2, y);
        assert(occupied(t, y));
        lemma_view_at(t, y);
    }
    assert(table_view(t2) =~= table_view(t).remove(k));
}

/// Writing a new value next to a key that stays in its slot updates the map.
pub proof fn lemma_view_set_value<K, V>(t: Seq<Option<(K, V)>>, x: int, v: V)
    requires
        keys_unique(t),
        occupied(t, x),
    ensures
        keys_unique(t.update(x, Some((t[x].unwrap().0, v)))),
        table_view(t.update(x, Some((t[x].unwrap().0, v)))) == table_view(t).insert(t[x].unwrap().0, v),
{
    let k = t[x].unwrap().0;
    let t1 = t.update(x, None);
    lemma_view_clear(t, x);
    assert forall|y: int| !slot_has(t1, y, k) by {
        if slot_has(t1, y, k) {
            assert(y != x);
            assert(t[y].unwrap().0 != t[x].unwrap().0);
        }
    }
    lemma_view_fill(t1, x, k, v);
    assert(t1.update(x, Some((k, v))) =~= t.update(x, Some((k, v))));
    assert(table_view(t).remove(k).insert(k, v) =~= table_view(t).insert(k, v));
}

pub proof fn lemma_view_push_none<K, V>(t: Seq<Option<(K, V)>>)
    requires
        keys_unique(t),
    ensures
        keys_unique(t.push(None)),
        table_view(t.push(None)) == table_view(t),
{
    let t2 = t.push(None);
    assert forall|a: int, b: int|
        occupied(t2, a) && occupied(t2, b) && a != b implies #[trigger] t2[a].unwrap().0
        != #[trigger] t2[b].unwrap().0 by {
        assert(t2[a] == t[a] && t2[b] == t[b]);
    }
    assert forall|kk: K| #[trigger]
        table_view(t2).contains_key(kk) == table_view(t).contains_key(kk) by {
        if exists|y: int| slot_has(t2, y, kk) {
            let y = choose|y: int| slot_has(t2, y, kk);
            assert(slot_has(t, y, kk));
        }
        if exists|y: int| slot_has(t, y, kk) {
            let y = choose|y: int| slot_has(t, y, kk);
            assert(slot_has(t2, y, kk));
        }
    }
    assert forall|kk: K| #[trigger] table_view(t2).contains_key(kk) implies table_view(t2)[kk]
        == table_view(t)[kk] by {
        let y = choose|y: int| slot_has(t2, y, kk);
        assert(slot_has(t2, y, kk));
        lemma_view_at(t2, y);
        assert(occupied(t, y));
        lemma_view_at(t, y);
    }
    assert(table_view(t2) =~= table_view(t));
}

pub proof fn lemma_view_len<K, V>(t: Seq<Option<(K, V)>>)
    requires
        keys_unique(t),
    ensures
        table_view(t).dom().finite(),
        table_view(t).len() == count_some(t),
    decreases t.len(),
{
    if t.len() == 0 {
        assert(table_view(t) =~= Map::<K, V>::empty());
    } else {
        let p = t.drop_last();
        assert forall|a: int, b: int|
            occupied(p, a) && occupied(p, b) && a != b implies #[trigger] p[a].unwrap().0
            != #[trigger] p[b].unwrap().0 by {
            assert(p[a] == t[a] && p[b] == t[b]);
        }
        lemma_view_len(p);
        lemma_view_push_none(p);
        let x = p.len() as int;
        if t.last() is None {
            assert(p.push(None) =~= t);
        } else {
            let k = t.last().unwrap().0;
            let v = t.last().unwrap().1;
            assert forall|y: int| !slot_has(p.push(None), y, k) by {
                if slot_has(p.push(None), y, k) {
                    assert(occupied(t, y) && y != x);
                    assert(t[y].unwrap().0 != t[x].unwrap().0);
                }
            }
            lemma_view_fill(p.push(None), x, k, v);
            assert(p.push(None).update(x, Some((k, v))) =~= t);
            lemma_view_absent(p.push(None), k);
        }
    }
}

/// Filling an empty slot at the end of a probe path keeps every probe path closed.
pub proof fn lemma_probe_fill<K: StableKey, V>(t: Seq<Option<(K, V)>>, i: int, k: K, v: V)
    requires
        probe_closed(t),
        0 <= i < t.len(),
        t[i] is None,
        forall|e: int|
            0 <= e < dist(home(k, t.len()), i, t.len() as int) ==> occupied(
                t,
                #[trigger] step(home(k, t.len()), e, t.len() as int),
            ),
    ensures
        probe_closed(t.update(i, Some((k, v)))),
{
    let t2 = t.update(i, Some((k, v)));
    assert forall|x: int, e: int|
        occupied(t2, x) && 0 <= e < dist(home(t2[x].unwrap().0, t2.len()), x, t2.len() as int)
            implies occupied(
            t2,
            #[trigger] step(home(t2[x].unwrap().0, t2.len()), e, t2.len() as int),
        ) by {
        if x == i {
            assert(occupied(t, step(home(k, t.len()), e, t.len() as int)));
        } else {
            assert(occupied(t, x));
            assert(occupied(t, step(home(t[x].unwrap().0, t.len()), e, t.len() as int)));
        }
    }
}

/// Appending an entry whose key is new to a table adds it to the map.
pub proof fn lemma_view_push_some<K, V>(t: Seq<Option<(K, V)>>, k: K, v: V)
    requires
        keys_unique(t),
        forall|y: int| !slot_has(t, y, k),
    ensures
        keys_unique(t.push(Some((k, v)))),
        table_view(t.push(Some((k, v)))) == table_view(t).insert(k, v),
{
    lemma_view_push_none(t);
    let p = t.push(None);
    assert forall|y: int| !slot_has(p, y, k) by {
        if slot_has(p, y, k) {
            assert(slot_has(t, y, k));
        }
    }
    lemma_view_fill(p, t.len() as int, k, v);
    assert(p.update(t.len() as int, Some((k, v))) =~= t.push(Some((k, v))));
}

pub proof fn lemma_count_push<K, V>(t: Seq<Option<(K, V)>>, s: Option<(K, V)>)
    ensures
        count_some(t.push(s)) == count_some(t) + (if s is Some {
            1nat
        } else {
            0nat
        }),
{
    assert(t.push(s).drop_last() =~= t);
}

pub proof fn lemma_count_subrange_le<K, V>(t: Seq<Option<(K, V)>>, i: int)
    requires
        0 <= i <= t.len(),
    ensures
        count_some(t.subrange(0, i)) <= count_some(t),
    decreases t.len() - i,
{
    if i < t.len() {
        lemma_count_subrange_le(t, i + 1);
        assert(t.subrange(0, i + 1) =~= t.subrange(0, i).push(t[i]));
        lemma_count_push(t.subrange(0, i), t[i]);
    } else {
        assert(t.subrange(0, i) =~= t);
    }
}

/// Every probe path is free of empty slots, except that it may pass the hole at `i`.
pub open spec fn hole_closed<K: StableKey, V>(t: Seq<Option<(K, V)>>, i: int) -> bool {
    forall|x: int, e: int|
        occupied(t, x) && 0 <= e < dist(home(t[x].unwrap().0, t.len()), x, t.len() as int) ==> (
        occupied(t, #[trigger] step(home(t[x].unwrap().0, t.len()), e, t.len() as int)) || step(
            home(t[x].unwrap().0, t.len()),
            e,
            t.len() as int,
        ) == i)
}

/// Every entry whose probe path passes the hole at `i` lies past the scan position `j`.
pub open spec fn hole_beyond<K: StableKey, V>(t: Seq<Option<(K, V)>>, i: int, j: int) -> bool {
    forall|x: int|
        #[trigger] occupied(t, x) && dist(home(t[x].unwrap().0, t.len()), i, t.len() as int) < dist(
            home(t[x].unwrap().0, t.len()),
            x,
            t.len() as int,
        ) ==> dist(i, x, t.len() as int) > dist(i, j, t.len() as int)
}

/// An entry whose home is `k` may move from `j` back to the hole at `i`.
pub open spec fn movable(i: int, j: int, k: int, cap: int) -> bool {
    !(0 < dist(i, k, cap) <= dist(i, j, cap))
}

pub proof fn lemma_movable_xor(i: int, j: int, k: int, cap: int)
    requires
        0 <= i < cap,
        0 <= j < cap,
        0 <= k < cap,
        i != j,
    ensures
        (((j < i) != (k <= i)) != (k > j)) == movable(i, j, k, cap),
{
}

pub proof fn lemma_dist_add(h: int, i: int, x: int, cap: int)
    requires
        0 <= h < cap,
        0 <= i < cap,
        0 <= x < cap,
        dist(h, i, cap) <= dist(h, x, cap),
    ensures
        dist(h, x, cap) == dist(h, i, cap) + dist(i, x, cap),
{
}

pub proof fn lemma_dist_add2(h: int, i: int, x: int, cap: int)
    requires
        0 <= h < cap,
        0 <= i < cap,
        0 <= x < cap,
        dist(h, i, cap) + dist(i, x, cap) < cap,
    ensures
        dist(h, x, cap) == dist(h, i, cap) + dist(i, x, cap),
{
}

pub proof fn lemma_count_all_but_one<K, V>(t: Seq<Option<(K, V)>>, i: int, y: int)
    requires
        0 <= i < t.len(),
        0 <= y < t.len(),
        y != i,
        forall|z: int| 0 <= z < t.len() && z != i ==> #[trigger] t[z] is Some,
    ensures
        count_some(t) + 1 >= t.len(),
{
    let t2 = t.update(i, t[y]);
    assert forall|z: int| 0 <= z < t2.len() implies #[trigger] t2[z] is Some by {
        if z != i {
            assert(t2[z] == t[z]);
        }
    }
    lemma_count_full(t2);
    lemma_count_update(t, i, t[y]);
}

/// Moving the entry at `j` into the empty slot `i` leaves the map as it is.
pub proof fn lemma_view_move<K, V>(t: Seq<Option<(K, V)>>, i: int, j: int)
    requires
        keys_unique(t),
        occupied(t, j),
        0 <= i < t.len(),
        t[i] is None,
    ensures
        keys_unique(t.update(j, None).update(i, t[j])),
        table_view(t.update(j, None).update(i, t[j])) == table_view(t),
        count_some(t.update(j, None).update(i, t[j])) == count_some(t),
{
    let k = t[j].unwrap().0;
    let v = t[j].unwrap().1;
    let t1 = t.update(j, None);
    lemma_view_clear(t, j);
    assert forall|y: int| !slot_has(t1, y, k) by {
        if slot_has(t1, y, k) {
            assert(y != j);
            assert(t[y].unwrap().0 != t[j].unwrap().0);
        }
    }
    lemma_view_fill(t1, i, k, v);
    assert(t[j] == Some((k, v)));
    lemma_view_at(t, j);
    assert(table_view(t).remove(k).insert(k, v) =~= table_view(t));
    lemma_count_update(t, j, None);
    lemma_count_update(t1, i, t[j]);
}

/// The scan position after `j`.
pub open spec fn next_slot(j: int, cap: int) -> int {
    if j + 1 == cap {
        0
    } else {
        j + 1
    }
}

/// When the slot after the scan position is empty, no probe path passes the hole.
pub proof fn lemma_hole_done<K: StableKey, V>(t: Seq<Option<(K, V)>>, i: int, j: int)
    requires
        t.len() >= 2,
        0 <= i < t.len(),
        0 <= j < t.len(),
        t[i] is None,
        t[next_slot(j, t.len() as int)] is None,
        hole_closed(t, i),
        hole_beyond(t, i, j),
    ensures
        probe_closed(t),
{
    let cap = t.len() as int;
    let nj = next_slot(j, cap);
    assert forall|x: int, e: int|
        occupied(t, x) && 0 <= e < dist(home(t[x].unwrap().0, t.len()), x, cap) implies occupied(
        t,
        #[trigger] step(home(t[x].unwrap().0, t.len()), e, cap),
    ) by {
        let hx = home(t[x].unwrap().0, t.len());
        lemma_home_range(t[x].unwrap().0, t.len());
        if step(hx, e, cap) == i {
            lemma_dist_step(hx, e, cap);
            assert(dist(hx, i, cap) < dist(hx, x, cap));
            assert(dist(i, x, cap) > dist(i, j, cap));
            assert(dist(i, nj, cap) == dist(i, j, cap) + 1);
            lemma_dist_add(hx, i, x, cap);
            if nj != x {
                lemma_dist_add2(hx, i, nj, cap);
                let e2 = dist(hx, nj, cap);
                lemma_step_dist(hx, nj, cap);
                assert(occupied(t, step(hx, e2, cap)) || step(hx, e2, cap) == i);
            }
        }
    }
}

/// Shifting the entry at `j` back into the hole at `i` moves the hole to `j`.
pub proof fn lemma_hole_move<K: StableKey, V>(t1: Seq<Option<(K, V)>>, i: int, j: int)
    requires
        t1.len() >= 2,
        0 <= i < t1.len(),
        0 <= j < t1.len(),
        i != j,
        t1[i] is None,
        occupied(t1, j),
        movable(i, j, home(t1[j].unwrap().0, t1.len()), t1.len() as int),
        hole_closed(t1, i),
    ensures
        hole_closed(t1.update(j, None).update(i, t1[j]), j),
        hole_beyond(t1.update(j, None).update(i, t1[j]), j, j),
{
    let cap = t1.len() as int;
    let t2 = t1.update(j, None).update(i, t1[j]);
    let kh = home(t1[j].unwrap().0, t1.len());
    lemma_home_range(t1[j].unwrap().0, t1.len());
    assert forall|x: int, e: int|
        occupied(t2, x) && 0 <= e < dist(home(t2[x].unwrap().0, t2.len()), x, cap) implies (occupied(
        t2,
        #[trigger] step(home(t2[x].unwrap().0, t2.len()), e, cap),
    ) || step(home(t2[x].unwrap().0, t2.len()), e, cap) == j) by {
        let hx = home(t2[x].unwrap().0, t2.len());
        lemma_home_range(t2[x].unwrap().0, t2.len());
        let st = step(hx, e, cap);
        lemma_dist_step(hx, e, cap);
        if x == i {
            assert(hx == kh);
            if dist(kh, i, cap) >= dist(kh, j, cap) {
                lemma_dist_add(kh, j, i, cap);
            }
            assert(dist(kh, i, cap) < dist(kh, j, cap));
            assert(occupied(t1, st) || st == i);
            if st == i {
                lemma_step_dist(kh, i, cap);
            }
        } else {
            assert(t2[x] == t1[x]);
            assert(occupied(t1, x));
            assert(occupied(t1, st) || st == i);
        }
    }
}

/// Leaving the entry at `j` in place keeps every path that passes the hole beyond the scan.
pub proof fn lemma_hole_stay<K: StableKey, V>(t1: Seq<Option<(K, V)>>, i: int, jp: int, j: int)
    requires
        t1.len() >= 2,
        0 <= i < t1.len(),
        0 <= jp < t1.len(),
        j == next_slot(jp, t1.len() as int),
        j != i,
        t1[i] is None,
        occupied(t1, j),
        !movable(i, j, home(t1[j].unwrap().0, t1.len()), t1.len() as int),
        hole_beyond(t1, i, jp),
    ensures
        hole_beyond(t1, i, j),
{
    let cap = t1.len() as int;
    assert forall|x: int|
        #[trigger] occupied(t1, x) && dist(home(t1[x].unwrap().0, t1.len()), i, cap) < dist(
            home(t1[x].unwrap().0, t1.len()),
            x,
            cap,
        ) implies dist(i, x, cap) > dist(i, j, cap) by {
        lemma_home_range(t1[x].unwrap().0, t1.len());
        assert(dist(i, x, cap) > dist(i, jp, cap));
        if x == j {
            let kh = home(t1[j].unwrap().0, t1.len());
            lemma_dist_add(kh, i, j, cap);
        }
    }
}

/// An open-addressing hash map with linear probing and eager removal.
///
/// An insertion of a new key into a map whose length has reached three quarters of its
/// capacity (see `is_full`) first grows the table to `2 * capacity - 1` slots and rehashes.
pub struct SHashMap<K, V> {
    table: Vec<Option<(K, V)>>,
    len: usize,
}

impl<K: StableKey, V> View for SHashMap<K, V> {
    type V = Map<K, V>;

    closed spec fn view(&self) -> Map<K, V> {
        table_view(self.table@)
    }
}

impl<K: StableKey, V> SHashMap<K, V> {
    /// The table's shape: no repeated key, probe paths without holes, the length
    /// counted right and below the growth threshold.
    pub closed spec fn wf(&self) -> bool {
        &&& self.table@.len() >= 2
        &&& self.len == count_some(self.table@)
        &&& self.len <= full_len(self.table@.len())
        &&& keys_unique(self.table@)
        &&& probe_closed(self.table@)
    }

    /// The number of slots.
    pub closed spec fn spec_capacity(&self) -> nat {
        self.table@.len()
    }

    /// The slots of the table: an entry or nothing.
    pub closed spec fn slots(&self) -> Seq<Option<(K, V)>> {
        self.table@
    }

    /// The entry in an occupied slot is an entry of the map, and every key of the map
    /// stands in some slot.
    pub proof fn lemma_slots(&self)
        requires
            self.wf(),
        ensures
            forall|x: int| 0 <= x < self.slots().len() && #[trigger] self.slots()[x] is Some ==> self@.contains_key(
                self.slots()[x].unwrap().0,
            ) && self@[self.slots()[x].unwrap().0] == self.slots()[x].unwrap().1,
            forall|k: K| #[trigger] self@.contains_key(k) ==> exists|x: int|
                0 <= x < self.slots().len() && self.slots()[x] is Some && self.slots()[x].unwrap().0 == k,
            forall|x: int, y: int| 0 <= x < self.slots().len() && 0 <= y < self.slots().len() && x != y
                && #[trigger] self.slots()[x] is Some && #[trigger] self.slots()[y] is Some
                ==> self.slots()[x].unwrap().0 != self.slots()[y].unwrap().0,
    {
        assert forall|x: int| 0 <= x < self.slots().len() && #[trigger] self.slots()[x] is Some implies self@.contains_key(
            self.slots()[x].unwrap().0,
        ) && self@[self.slots()[x].unwrap().0] == self.slots()[x].unwrap().1 by {
            lemma_view_at(self.table@, x);
        }
        assert forall|k: K| #[trigger] self@.contains_key(k) implies exists|x: int|
            0 <= x < self.slots().len() && self.slots()[x] is Some && self.slots()[x].unwrap().0 == k by {
            let x = choose|x: int| slot_has(self.table@, x, k);
            assert(self.slots()[x] is Some && self.slots()[x].unwrap().0 == k);
        }
    }

    /// A cursor over the entries, in slot order.
    pub fn iter(&self) -> (r: SHashMapIter<'_, K, V>)
        ensures
            r.wf(),
            r.slots() == self.slots(),
            r.pos() == 0,
    {
        SHashMapIter::new(self)
    }

    /// The map of a well-formed table is finite.
    pub proof fn lemma_view_finite(&self)
        requires
            self.wf(),
        ensures
            self@.dom().finite(),
    {
        self.lemma_len();
    }

    /// A well-formed map has at least two slots and at most `full_len` of its capacity
    /// in entries.
    pub proof fn lemma_capacity(&self)
        requires
            self.wf(),
        ensures
            self.spec_capacity() >= 2,
            self@.len() <= full_len(self.spec_capacity()),
    {
        self.lemma_len();
    }

    proof fn lemma_len(&self)
        requires
            self.wf(),
        ensures
            self.len == self@.len(),
            self@.dom().finite(),
    {
        lemma_view_len(self.table@);
    }

    fn new_table(capacity: usize) -> (r: Vec<Option<(K, V)>>)
        ensures
            r@.len() == capacity,
            forall|x: int| 0 <= x < capacity ==> #[trigger] r@[x] is None,
    {
        let mut t: Vec<Option<(K, V)>> = Vec::new();
        let mut i: usize = 0;
        while i < capacity
            invariant
                i <= capacity,
                t@.len() == i,
                forall|x: int| 0 <= x < i ==> #[trigger] t@[x] is None,
            decreases capacity - i,
        {
            t.push(None);
            i = i + 1;
        }
        t
    }

    proof fn lemma_empty_table_wf(t: Seq<Option<(K, V)>>)
        requires
            t.len() >= 2,
            forall|x: int| 0 <= x < t.len() ==> #[trigger] t[x] is None,
        ensures
            count_some(t) == 0,
            keys_unique(t),
            probe_closed(t),
            table_view(t) == Map::<K, V>::empty(),
    {
        lemma_count_empty(t);
        assert(table_view(t) =~= Map::<K, V>::empty());
    }

    /// Creates an empty map of the default capacity.
    pub fn new() -> (r: Self)
        ensures
            r.wf(),
            r@ == Map::<K, V>::empty(),
            r.spec_capacity() == DEFAULT_CAPACITY,
    {
        let table = Self::new_table(DEFAULT_CAPACITY);
        proof {
            Self::lemma_empty_table_wf(table@);
        }
        SHashMap { table, len: 0 }
    }

    pub fn len(&self) -> (r: usize)
        requires
            self.wf(),
        ensures
            r == self@.len(),
    {
        proof {
            self.lemma_len();
        }
        self.len
    }

    pub fn capacity(&self) -> (r: usize)
        ensures
            r == self.spec_capacity(),
    {
        self.table.len()
    }

    pub fn is_empty(&self) -> (r: bool)
        requires
            self.wf(),
        ensures
            r == (self@.len() == 0),
    {
        proof {
            self.lemma_len();
        }
        self.len == 0
    }

    /// True when the next insertion of a new key grows the table.
    pub fn is_full(&self) -> (r: bool)
        requires
            self.wf(),
        ensures
            r == (self@.len() == full_len(self.spec_capacity())),
    {
        proof {
            self.lemma_len();
        }
        let cap = self.table.len();
        let threshold = (cap / 4) * 3 + ((cap % 4) * 3) / 4;
        assert(threshold == (cap * 3) / 4) by (nonlinear_arith)
            requires
                threshold == (cap / 4) * 3 + ((cap % 4) * 3) / 4,
        {
        }
        self.len == threshold
    }

    fn hash_home(key: &K, cap: usize) -> (r: usize)
        requires
            cap > 0,
        ensures
            r == home(*key, cap as nat),
            r < cap,
    {
        let h = key.key_hash();
        (h as usize) % cap
    }

    /// The slot that holds `key`, if any.
    fn find_inner_idx(&self, key: &K) -> (r: Option<usize>)
        requires
            self.wf(),
        ensures
            r matches Some(i) ==> slot_has(self.table@, i as int, *key),
            r is None ==> forall|x: int| !slot_has(self.table@, x, *key),
    {
        if self.len == 0 {
            proof {
                assert forall|x: int| !slot_has(self.table@, x, *key) by {
                    if slot_has(self.table@, x, *key) {
                        lemma_count_update(self.table@, x, None);
                    }
                }
            }
            return None;
        }
        let cap = self.table.len();
        let h = Self::hash_home(key, cap);
        let mut i = h;
        let ghost mut d: int = 0;
        loop
            invariant
                self.wf(),
                cap == self.table@.len(),
                h == home(*key, cap as nat),
                h < cap,
                0 <= d < cap,
                i == step(h as int, d, cap as int),
                forall|e: int|
                    0 <= e < d ==> occupied(self.table@, #[trigger] step(h as int, e, cap as int))
                        && self.table@[step(h as int, e, cap as int)].unwrap().0 != *key,
            decreases cap - d,
        {
            match &self.table[i] {
                None => {
                    proof {
                        assert forall|x: int| !slot_has(self.table@, x, *key) by {
                            if slot_has(self.table@, x, *key) {
                                lemma_step_dist(h as int, x, cap as int);
                                let dd = dist(h as int, x, cap as int);
                                if dd < d {
                                } else if dd > d {
                                    assert(occupied(
                                        self.table@,
                                        step(home(self.table@[x].unwrap().0, cap as nat), d, cap as int),
                                    ));
                                }
                            }
                        }
                    }
                    return None;
                },
                Some(entry) => {
                    if entry.0.compare_key(key) == KeyOrder::Equal {
                        proof {
                            K::lemma_key_int_injective(entry.0, *key);
                        }
                        return Some(i);
                    }
                },
            }
            i = if i + 1 == cap {
                0
            } else {
                i + 1
            };
            proof {
                d = d + 1;
                if d == cap {
                    assert forall|x: int| 0 <= x < cap implies #[trigger] self.table@[x] is Some by {
                        lemma_step_dist(h as int, x, cap as int);
                        assert(occupied(
                            self.table@,
                            step(h as int, dist(h as int, x, cap as int), cap as int),
                        ));
                    }
                    lemma_count_full(self.table@);
                }
            }
        }
    }

    /// Probes for `key`: `Ok` with its slot, or `Err` with the empty slot that ends
    /// its probe path.
    fn find_slot(&self, key: &K) -> (r: Result<usize, usize>)
        requires
            self.wf(),
        ensures
            r matches Ok(i) ==> slot_has(self.table@, i as int, *key),
            r matches Err(i) ==> {
                &&& 0 <= i < self.table@.len()
                &&& self.table@[i as int] is None
                &&& forall|x: int| !slot_has(self.table@, x, *key)
                &&& forall|e: int|
                    0 <= e < dist(home(*key, self.table@.len()), i as int, self.table@.len() as int)
                        ==> occupied(
                        self.table@,
                        #[trigger] step(home(*key, self.table@.len()), e, self.table@.len() as int),
                    )
            },
    {
        let cap = self.table.len();
        let h = Self::hash_home(key, cap);
        let mut i = h;
        let ghost mut d: int = 0;
        loop
            invariant
                self.wf(),
                cap == self.table@.len(),
                h == home(*key, cap as nat),
                h < cap,
                0 <= d < cap,
                i == step(h as int, d, cap as int),
                forall|e: int|
                    0 <= e < d ==> occupied(self.table@, #[trigger] step(h as int, e, cap as int))
                        && self.table@[step(h as int, e, cap as int)].unwrap().0 != *key,
            decreases cap - d,
        {
            match &self.table[i] {
                None => {
                    proof {
                        assert forall|x: int| !slot_has(self.table@, x, *key) by {
                            if slot_has(self.table@, x, *key) {
                                lemma_step_dist(h as int, x, cap as int);
                                let dd = dist(h as int, x, cap as int);
                                if dd < d {
                                } else if dd > d {
                                    assert(occupied(
                                        self.table@,
                                        step(home(self.table@[x].unwrap().0, cap as nat), d, cap as int),
                                    ));
                                }
                            }
                        }
                        lemma_dist_step(h as int, d, cap as int);
                    }
                    return Err(i);
                },
                Some(entry) => {
                    if entry.0.compare_key(key) == KeyOrder::Equal {
                        proof {
                            K::lemma_key_int_injective(entry.0, *key);
                        }
                        return Ok(i);
                    }
                },
            }
            i = if i + 1 == cap {
                0
            } else {
                i + 1
            };
            proof {
                d = d + 1;
                if d == cap {
                    assert forall|x: int| 0 <= x < cap implies #[trigger] self.table@[x] is Some by {
                        lemma_step_dist(h as int, x, cap as int);
                        assert(occupied(
                            self.table@,
                            step(h as int, dist(h as int, x, cap as int), cap as int),
                        ));
                    }
                    lemma_count_full(self.table@);
                }
            }
        }
    }

    /// Puts an entry whose key is not in the map into the empty slot that ends its probe path.
    fn place(&mut self, i: usize, key: K, value: V)
        requires
            old(self).wf(),
            old(self)@.len() < full_len(old(self).spec_capacity()),
            0 <= i < old(self).table@.len(),
            old(self).table@[i as int] is None,
            forall|x: int| !slot_has(old(self).table@, x, key),
            forall|e: int|
                0 <= e < dist(home(key, old(self).table@.len()), i as int, old(self).table@.len() as int)
                    ==> occupied(
                    old(self).table@,
                    #[trigger] step(home(key, old(self).table@.len()), e, old(self).table@.len() as int),
                ),
        ensures
            final(self).wf(),
            final(self)@ == old(self)@.insert(key, value),
            final(self).spec_capacity() == old(self).spec_capacity(),
            final(self).table@ == old(self).table@.update(i as int, Some((key, value))),
    {
        let cap = self.table.len();
        proof {
            self.lemma_len();
            lemma_view_fill(self.table@, i as int, key, value);
            lemma_probe_fill(self.table@, i as int, key, value);
            lemma_count_update(self.table@, i as int, Some((key, value)));
            assert(full_len(self.table@.len()) <= self.table@.len());
            assert(self.len < cap);
        }
        self.table.set(i, Some((key, value)));
        self.len = self.len + 1;
    }

    /// Inserts an entry whose key is not in the map, when the map is not full.
    fn insert_absent(&mut self, key: K, value: V)
        requires
            old(self).wf(),
            old(self)@.len() < full_len(old(self).spec_capacity()),
            !old(self)@.contains_key(key),
        ensures
            final(self).wf(),
            final(self)@ == old(self)@.insert(key, value),
            final(self).spec_capacity() == old(self).spec_capacity(),
    {
        match self.find_slot(&key) {
            Ok(i) => {
                proof {
                    lemma_view_at(self.table@, i as int);
                }
            },
            Err(i) => {
                self.place(i, key, value);
            },
        }
    }

    /// Rehashes every entry into a table of `2 * capacity - 1` slots.
    fn grow(&mut self)
        requires
            old(self).wf(),
            old(self).spec_capacity() * 2 <= usize::MAX,
        ensures
            final(self).wf(),
            final(self)@ == old(self)@,
            final(self).spec_capacity() == old(self).spec_capacity() * 2 - 1,
    {
        let cap = self.table.len();
        let new_cap = cap * 2 - 1;
        let ghost orig = self.table@;
        proof {
            self.lemma_len();
            assert(new_cap / 4 >= cap / 4);
        }
        let new_table = Self::new_table(new_cap);
        proof {
            Self::lemma_empty_table_wf(new_table@);
        }
        let mut fresh: SHashMap<K, V> = SHashMap { table: new_table, len: 0 };
        let mut old_table: Vec<Option<(K, V)>> = Vec::new();
        std::mem::swap(&mut old_table, &mut self.table);
        let mut i: usize = 0;
        assert(orig.subrange(0, 0) =~= Seq::<Option<(K, V)>>::empty());
        assert(table_view(Seq::<Option<(K, V)>>::empty()) =~= Map::<K, V>::empty());
        while i < cap
            invariant
                cap == orig.len(),
                new_cap == cap * 2 - 1,
                i <= cap,
                keys_unique(orig),
                count_some(orig) <= full_len(cap as nat),
                full_len(cap as nat) <= full_len(new_cap as nat),
                old_table@.len() == cap,
                forall|x: int| i <= x < cap ==> old_table@[x] == #[trigger] orig[x],
                fresh.wf(),
                fresh.spec_capacity() == new_cap,
                fresh@ == table_view(orig.subrange(0, i as int)),
            decreases cap - i,
        {
            let mut slot: Option<(K, V)> = None;
            old_table.set_and_swap(i, &mut slot);
            proof {
                let p = orig.subrange(0, i as int);
                assert(orig.subrange(0, i as int + 1) =~= p.push(orig[i as int]));
                lemma_count_push(p, orig[i as int]);
                lemma_count_subrange_le(orig, i as int + 1);
                assert forall|a: int, b: int|
                    occupied(p, a) && occupied(p, b) && a != b implies #[trigger] p[a].unwrap().0
                    != #[trigger] p[b].unwrap().0 by {
                    assert(p[a] == orig[a] && p[b] == orig[b]);
                }
                lemma_view_push_none(p);
                lemma_view_len(p);
                if orig[i as int] is None {
                    assert(p.push(None) =~= orig.subrange(0, i as int + 1));
                }
            }
            match slot {
                Some((k, v)) => {
                    proof {
                        let p = orig.subrange(0, i as int);
                        assert forall|y: int| !slot_has(p, y, k) by {
                            if slot_has(p, y, k) {
                                assert(occupied(orig, y) && occupied(orig, i as int));
                                assert(orig[y].unwrap().0 != orig[i as int].unwrap().0);
                            }
                        }
                        lemma_view_absent(p, k);
                        lemma_view_push_some(p, k, v);
                        fresh.lemma_len();
                    }
                    fresh.insert_absent(k, v);
                },
                None => {},
            }
            i = i + 1;
        }
        proof {
            assert(orig.subrange(0, cap as int) =~= orig);
        }
        self.table = fresh.table;
        self.len = fresh.len;
    }

    /// Writing a new value next to the key of slot `i` keeps the table's shape and
    /// writes the value into the map.
    proof fn lemma_set_value(t: Seq<Option<(K, V)>>, i: int, key: K, value: V)
        requires
            keys_unique(t),
            probe_closed(t),
            slot_has(t, i, key),
        ensures
            keys_unique(t.update(i, Some((key, value)))),
            probe_closed(t.update(i, Some((key, value)))),
            count_some(t.update(i, Some((key, value)))) == count_some(t),
            table_view(t.update(i, Some((key, value)))) == table_view(t).insert(key, value),
    {
        lemma_view_set_value(t, i, value);
        lemma_count_update(t, i, Some((key, value)));
        let t2 = t.update(i, Some((key, value)));
        assert forall|x: int, e: int|
            occupied(t2, x) && 0 <= e < dist(home(t2[x].unwrap().0, t2.len()), x, t2.len() as int)
                implies occupied(
                t2,
                #[trigger] step(home(t2[x].unwrap().0, t2.len()), e, t2.len() as int),
            ) by {
            assert(occupied(t, x));
            assert(occupied(
                t,
                step(home(t[x].unwrap().0, t2.len()), e, t2.len() as int),
            ));
        }
    }

    /// Writes `value` next to `key`, which stands in slot `i`; returns the value that was there.
    fn set_value_at(&mut self, i: usize, key: K, value: V) -> (r: V)
        requires
            old(self).wf(),
            slot_has(old(self).table@, i as int, key),
        ensures
            final(self).wf(),
            final(self)@ == old(self)@.insert(key, value),
            r == old(self)@[key],
            final(self).table@ == old(self).table@.update(i as int, Some((key, value))),
            final(self).spec_capacity() == old(self).spec_capacity(),
    {
        proof {
            lemma_view_at(self.table@, i as int);
            Self::lemma_set_value(self.table@, i as int, key, value);
        }
        let mut slot = Some((key, value));
        self.table.set_and_swap(i, &mut slot);
        let (_, prev) = slot.unwrap();
        prev
    }

    /// Removes the entry in slot `idx`, then shifts back the entries that follow it on
    /// their probe paths, so that no probe path holds an empty slot.
    fn remove_by_idx(&mut self, idx: usize) -> (r: V)
        requires
            old(self).wf(),
            occupied(old(self).table@, idx as int),
        ensures
            final(self).wf(),
            final(self)@ == old(self)@.remove(old(self).table@[idx as int].unwrap().0),
            r == old(self)@[old(self).table@[idx as int].unwrap().0],
            final(self).spec_capacity() == old(self).spec_capacity(),
    {
        let cap = self.table.len();
        let ghost t0 = self.table@;
        let ghost k0 = t0[idx as int].unwrap().0;
        proof {
            self.lemma_len();
            lemma_view_at(t0, idx as int);
            lemma_view_clear(t0, idx as int);
            lemma_count_update(t0, idx as int, None);
        }
        let mut taken: Option<(K, V)> = None;
        self.table.set_and_swap(idx, &mut taken);
        let (_, prev_value) = taken.unwrap();
        let ghost target = table_view(t0).remove(k0);
        proof {
            assert forall|x: int, e: int|
                occupied(self.table@, x) && 0 <= e < dist(
                    home(self.table@[x].unwrap().0, self.table@.len()),
                    x,
                    cap as int,
                ) implies (occupied(
                self.table@,
                #[trigger] step(home(self.table@[x].unwrap().0, self.table@.len()), e, cap as int),
            ) || step(home(self.table@[x].unwrap().0, self.table@.len()), e, cap as int)
                == idx) by {
                assert(occupied(t0, x));
                assert(occupied(t0, step(home(t0[x].unwrap().0, t0.len()), e, cap as int)));
            }
        }
        let mut i = idx;
        let mut j = idx;
        let ghost mut d: int = 0;
        loop
            invariant
                cap == self.table@.len(),
                cap >= 2,
                count_some(self.table@) + 1 == count_some(t0),
                self.len == count_some(t0),
                count_some(t0) <= full_len(cap as nat),
                keys_unique(self.table@),
                table_view(self.table@) == target,
                0 <= i < cap,
                0 <= j < cap,
                idx < cap,
                self.table@[i as int] is None,
                0 <= d < cap,
                j == step(idx as int, d, cap as int),
                forall|e: int|
                    0 <= e <= d ==> #[trigger] step(idx as int, e, cap as int) == i || occupied(
                        self.table@,
                        step(idx as int, e, cap as int),
                    ),
                hole_closed(self.table@, i as int),
                hole_beyond(self.table@, i as int, j as int),
            ensures
                cap == self.table@.len(),
                count_some(self.table@) + 1 == count_some(t0),
                self.len == count_some(t0),
                keys_unique(self.table@),
                table_view(self.table@) == target,
                0 <= i < cap,
                0 <= j < cap,
                self.table@[i as int] is None,
                self.table@[next_slot(j as int, cap as int)] is None,
                hole_closed(self.table@, i as int),
                hole_beyond(self.table@, i as int, j as int),
            decreases cap - d,
        {
            let nj = if j + 1 == cap {
                0
            } else {
                j + 1
            };
            if nj == idx {
                proof {
                    lemma_dist_step(idx as int, d, cap as int);
                    assert(d == cap - 1);
                    assert forall|z: int| 0 <= z < cap && z != i implies #[trigger] self.table@[z]
                        is Some by {
                        lemma_step_dist(idx as int, z, cap as int);
                        assert(step(idx as int, dist(idx as int, z, cap as int), cap as int) == i
                            || occupied(
                            self.table@,
                            step(idx as int, dist(idx as int, z, cap as int), cap as int),
                        ));
                    }
                    let y: int = if i == 0 {
                        1
                    } else {
                        0
                    };
                    lemma_count_all_but_one(self.table@, i as int, y);
                    assert(full_len(cap as nat) < cap);
                }
                break;
            }
            let next_home = match &self.table[nj] {
                Some(entry) => Self::hash_home(&entry.0, cap),
                None => {
                    break;
                },
            };
            proof {
                lemma_dist_step(idx as int, d, cap as int);
                assert(nj == step(idx as int, d + 1, cap as int));
                lemma_movable_xor(i as int, nj as int, next_home as int, cap as int);
            }
            if (nj < i) ^ (next_home <= i) ^ (next_home > nj) {
                let ghost t1 = self.table@;
                let mut moving: Option<(K, V)> = None;
                self.table.set_and_swap(nj, &mut moving);
                self.table.set(i, moving);
                proof {
                    lemma_view_move(t1, i as int, nj as int);
                    assert(self.table@ =~= t1.update(nj as int, None).update(i as int, t1[nj as int]));
                    lemma_hole_move(t1, i as int, nj as int);
                    assert forall|e: int|
                        0 <= e <= d + 1 implies #[trigger] step(idx as int, e, cap as int) == nj
                            || occupied(self.table@, step(idx as int, e, cap as int)) by {
                        if e <= d {
                            assert(step(idx as int, e, cap as int) == i || occupied(
                                t1,
                                step(idx as int, e, cap as int),
                            ));
                        }
                    }
                }
                i = nj;
            } else {
                proof {
                    lemma_hole_stay(self.table@, i as int, j as int, nj as int);
                }
            }
            j = nj;
            proof {
                d = d + 1;
            }
        }
        proof {
            lemma_hole_done(self.table@, i as int, j as int);
            lemma_view_len(self.table@);
            lemma_view_len(t0);
            assert(self.len == count_some(t0));
        }
        self.len = self.len - 1;
        prev_value
    }

    /// Removes the entry stored by `key` and returns its value, if there is one.
    pub fn remove(&mut self, key: &K) -> (r: Option<V>)
        requires
            old(self).wf(),
        ensures
            final(self).wf(),
            final(self)@ == old(self)@.remove(*key),
            old(self)@.contains_key(*key) ==> r == Some(old(self)@[*key]),
            !old(self)@.contains_key(*key) ==> r is None,
            final(self).spec_capacity() == old(self).spec_capacity(),
    {
        match self.find_inner_idx(key) {
            Some(i) => Some(self.remove_by_idx(i)),
            None => {
                proof {
                    lemma_view_absent(self.table@, *key);
                    assert(self@.remove(*key) =~= self@);
                }
                None
            },
        }
    }

    /// Keeps only the entries on which `f` answers `true`; `f` is asked once about each
    /// entry. The capacity stays.
    pub fn retain<F: Fn(&K, &V) -> bool>(&mut self, f: F)
        requires
            old(self).wf(),
            forall|k: &K, v: &V| #[trigger] call_requires(f, (k, v)),
        ensures
            final(self).wf(),
            final(self).spec_capacity() == old(self).spec_capacity(),
            forall|k: K| #[trigger] final(self)@.contains_key(k) ==> old(self)@.contains_key(k)
                && final(self)@[k] == old(self)@[k] && call_ensures(f, (&k, &old(self)@[k]), true),
            forall|k: K| old(self)@.contains_key(k) && !(#[trigger] final(self)@.contains_key(k))
                ==> call_ensures(f, (&k, &old(self)@[k]), false),
    {
        let ghost m0 = self@;
        proof {
            self.lemma_slots();
        }
        let n = self.table.len();
        let mut to_remove: Vec<K> = Vec::new();
        let mut i: usize = 0;
        while i < n
            invariant
                self.wf(),
                self@ == m0,
                n == self.table@.len(),
                i <= n,
                forall|j: int| 0 <= j < to_remove@.len() ==> m0.contains_key(#[trigger] to_remove@[j])
                    && call_ensures(f, (&to_remove@[j], &m0[to_remove@[j]]), false),
                forall|x: int| 0 <= x < i && #[trigger] self.table@[x] is Some ==> to_remove@.contains(
                    self.table@[x].unwrap().0,
                ) || call_ensures(f, (&self.table@[x].unwrap().0, &self.table@[x].unwrap().1), true),
                forall|k: &K, v: &V| #[trigger] call_requires(f, (k, v)),
            decreases n - i,
        {
            let ghost tr_start = to_remove@;
            match &self.table[i] {
                Some(e) => {
                    proof {
                        lemma_view_at(self.table@, i as int);
                    }
                    let keep = f(&e.0, &e.1);
                    proof {
                        assert(*e == self.table@[i as int].unwrap());
                        assert(keep ==> call_ensures(f, (&self.table@[i as int].unwrap().0, &self.table@[i as int].unwrap().1), true));
                    }
                    if !keep {
                        let ghost tr0 = to_remove@;
                        to_remove.push(e.0);
                        proof {
                            assert forall|k: K| tr0.contains(k) || k == e.0 implies #[trigger] to_remove@.contains(k) by {
                                vstd::seq_lib::lemma_seq_contains_after_push(tr0, e.0, k);
                            }
                        }
                    }
                },
                None => {},
            }
            proof {
                assert forall|x: int| 0 <= x < i + 1 && #[trigger] self.table@[x] is Some implies to_remove@.contains(
                    self.table@[x].unwrap().0,
                ) || call_ensures(f, (&self.table@[x].unwrap().0, &self.table@[x].unwrap().1), true) by {
                    if x < i {
                        if tr_start.contains(self.table@[x].unwrap().0) {
                            assert(to_remove@.contains(self.table@[x].unwrap().0));
                        }
                    }
                }
            }
            i = i + 1;
        }
        let ghost removed = to_remove@;
        let mut j: usize = 0;
        while j < to_remove.len()
            invariant
                self.wf(),
                self.spec_capacity() == old(self).spec_capacity(),
                removed == to_remove@,
                j <= to_remove@.len(),
                forall|k: K| #[trigger] self@.contains_key(k) <==> m0.contains_key(k) && !removed.subrange(0, j as int).contains(k),
                forall|k: K| #[trigger] self@.contains_key(k) ==> self@[k] == m0[k],
            decreases to_remove@.len() - j,
        {
            let _ = self.remove(&to_remove[j]);
            proof {
                assert(removed.subrange(0, j + 1) =~= removed.subrange(0, j as int).push(removed[j as int]));
                assert forall|k: K| #[trigger] removed.subrange(0, j + 1).contains(k) <==> removed.subrange(0, j as int).contains(k)
                    || k == removed[j as int] by {
                    vstd::seq_lib::lemma_seq_contains_after_push(removed.subrange(0, j as int), removed[j as int], k);
                }
            }
            j = j + 1;
        }
        proof {
            assert(removed.subrange(0, removed.len() as int) =~= removed);
            assert forall|k: K| #[trigger] self@.contains_key(k) implies call_ensures(f, (&k, &m0[k]), true) by {
                let x = choose|x: int| 0 <= x < old(self).table@.len() && old(self).table@[x] is Some
                    && old(self).table@[x].unwrap().0 == k;
                lemma_view_at(old(self).table@, x);
            }
            assert forall|k: K| m0.contains_key(k) && !(#[trigger] self@.contains_key(k))
                implies call_ensures(f, (&k, &m0[k]), false) by {
                let t = choose|t: int| 0 <= t < removed.len() && removed[t] == k;
                assert(removed[t] == k);
            }
        }
    }

    /// Removes every entry; the capacity stays.
    pub fn clear(&mut self)
        requires
            old(self).wf(),
        ensures
            final(self).wf(),
            final(self)@ == Map::<K, V>::empty(),
            final(self).spec_capacity() == old(self).spec_capacity(),
    {
        if self.len == 0 {
            proof {
                self.lemma_len();
                assert(self@ =~= Map::<K, V>::empty());
            }
            return;
        }
        let cap = self.table.len();
        let mut i: usize = 0;
        while i < cap
            invariant
                cap == self.table@.len(),
                cap >= 2,
                i <= cap,
                forall|x: int| 0 <= x < i ==> #[trigger] self.table@[x] is None,
            decreases cap - i,
        {
            self.table.set(i, None);
            i = i + 1;
        }
        proof {
            Self::lemma_empty_table_wf(self.table@);
        }
        self.len = 0;
    }

    /// Releases the map and everything in it.
    pub fn drop(self) {
    }

    /// The value stored by `key`, if any.
    pub fn get(&self, key: &K) -> (r: Option<&V>)
        requires
            self.wf(),
        ensures
            self@.contains_key(*key) ==> r == Some(&self@[*key]),
            !self@.contains_key(*key) ==> r is None,
    {
        match self.find_inner_idx(key) {
            Some(i) => {
                proof {
                    lemma_view_at(self.table@, i as int);
                }
                match &self.table[i] {
                    Some(entry) => Some(&entry.1),
                    None => None,
                }
            },
            None => {
                proof {
                    lemma_view_absent(self.table@, *key);
                }
                None
            },
        }
    }

    /// The value stored by `key`, to change in place, if any.
    pub fn get_mut(&mut self, key: &K) -> (r: Option<&mut V>)
        requires
            old(self).wf(),
        ensures
            final(self).wf(),
            final(self).spec_capacity() == old(self).spec_capacity(),
            old(self)@.contains_key(*key) == r is Some,
            r is None ==> final(self)@ == old(self)@,
            r matches Some(e) ==> (*e == old(self)@[*key] && final(self)@ == old(self)@.insert(*key, *final(e))),
    {
        match self.find_inner_idx(key) {
            Some(i) => {
                proof {
                    lemma_view_at(self.table@, i as int);
                    assert forall|v: V| keys_unique(#[trigger] self.table@.update(i as int, Some((*key, v))))
                        && probe_closed(self.table@.update(i as int, Some((*key, v))))
                        && count_some(self.table@.update(i as int, Some((*key, v)))) == count_some(self.table@)
                        && table_view(self.table@.update(i as int, Some((*key, v)))) == table_view(self.table@).insert(*key, v) by {
                        Self::lemma_set_value(self.table@, i as int, *key, v);
                    }
                }
                match &mut self.table[i] {
                    Some(entry) => Some(&mut entry.1),
                    None => None,
                }
            },
            None => {
                proof {
                    lemma_view_absent(self.table@, *key);
                }
                None
            },
        }
    }

    /// True when a value is stored by `key`.
    pub fn contains_key(&self, key: &K) -> (r: bool)
        requires
            self.wf(),
        ensures
            r == self@.contains_key(*key),
    {
        match self.find_inner_idx(key) {
            Some(i) => {
                proof {
                    lemma_view_at(self.table@, i as int);
                }
                true
            },
            None => {
                proof {
                    lemma_view_absent(self.table@, *key);
                }
                false
            },
        }
    }
}

impl<K: StableKey, V: AsFixedSizeBytes> SHashMap<K, V> {
    /// The largest capacity a map of `K` to `V` may have.
    pub fn max_capacity() -> (r: usize)
        ensures
            r == map_max_capacity::<K, V>(),
    {
        (u32::MAX as usize) / (1 + K::fixed_size() + V::fixed_size())
    }

    /// Creates an empty map with `capacity` slots.
    pub fn new_with_capacity(capacity: usize) -> (r: Result<Self, OutOfMemory>)
        requires
            2 <= capacity <= map_max_capacity::<K, V>(),
        ensures
            r matches Ok(m) && m.wf() && m@ == Map::<K, V>::empty() && m.spec_capacity()
                == capacity,
    {
        let table = Self::new_table(capacity);
        proof {
            Self::lemma_empty_table_wf(table@);
        }
        Ok(SHashMap { table, len: 0 })
    }

    /// Inserts `value` by `key` and returns the value stored by `key` before, if any.
    ///
    /// A new key inserted into a full map first grows the table to `2 * capacity - 1`
    /// slots and rehashes every entry, as many times as it takes for the map not to be full.
    pub fn insert(&mut self, key: K, value: V) -> (r: Result<Option<V>, (K, V)>)
        requires
            old(self).wf(),
            old(self)@.contains_key(key) || grows_within(old(self).spec_capacity(), old(self)@.len(), map_max_capacity::<K, V>()),
        ensures
            final(self).wf(),
            final(self)@ == old(self)@.insert(key, value),
            old(self)@.contains_key(key) ==> r == Ok::<Option<V>, (K, V)>(Some(old(self)@[key])),
            !old(self)@.contains_key(key) ==> r == Ok::<Option<V>, (K, V)>(None),
            old(self)@.contains_key(key) ==> final(self).spec_capacity()
                == old(self).spec_capacity(),
            !old(self)@.contains_key(key) ==> exists|n: nat|
                final(self).spec_capacity() == grown_capacity(old(self).spec_capacity(), n)
                && old(self)@.len() < full_len(final(self).spec_capacity())
                && forall|m: nat| m < n ==> old(self)@.len() == full_len(#[trigger] grown_capacity(old(self).spec_capacity(), m)),
            !old(self)@.contains_key(key) ==> final(self).spec_capacity() == if old(self)@.len() == full_len(
                old(self).spec_capacity(),
            ) {
                (2 * old(self).spec_capacity() - 1) as nat
            } else {
                old(self).spec_capacity()
            },
    {
        proof {
            self.lemma_len();
        }
        match self.find_slot(&key) {
            Ok(i) => {
                let prev = self.set_value_at(i, key, value);
                Ok(Some(prev))
            },
            Err(i) => {
                if self.is_full() {
                    let ghost v0 = self@;
                    let ghost cap0 = self.spec_capacity();
                    let ghost mut n: nat = 0;
                    while self.is_full()
                        invariant
                            self.wf(),
                            self@ == v0,
                            self.spec_capacity() == grown_capacity(cap0, n),
                            forall|m: nat| m < n ==> v0.len() == full_len(#[trigger] grown_capacity(cap0, m)),
                            !self@.contains_key(key),
                            grows_within(cap0, v0.len(), map_max_capacity::<K, V>()),
                            self.spec_capacity() <= 4 * self@.len() + 16,
                        decreases 4 * self@.len() + 16 - self.spec_capacity(),
                    {
                        proof {
                            self.lemma_len();
                            assert(forall|m: nat| m <= n ==> v0.len() == full_len(#[trigger] grown_capacity(cap0, m)));
                            assert(grown_capacity(cap0, n) * 2 <= usize::MAX);
                        }
                        self.grow();
                        proof {
                            n = n + 1;
                        }
                    }
                    proof {
                        self.lemma_len();
                        assert(self.spec_capacity() == grown_capacity(cap0, n));
                        lemma_grows_once(cap0, v0.len(), n);
                    }
                    self.insert_absent(key, value);
                } else {
                    proof {
                        lemma_view_absent(self.table@, key);
                        assert(grown_capacity(self.spec_capacity(), 0) == self.spec_capacity());
                    }
                    self.place(i, key, value);
                }
                Ok(None)
            },
        }
    }
}

impl<K: StableKey, V: Copy> SHashMap<K, V> {
    /// A copy of the value stored by `key`, if any.
    pub fn get_cloned(&self, key: &K) -> (r: Option<V>)
        requires
            self.wf(),
        ensures
            self@.contains_key(*key) ==> r == Some(self@[*key]),
            !self@.contains_key(*key) ==> r is None,
    {
        match self.get(key) {
            Some(v) => Some(*v),
            None => None,
        }
    }
}

impl<K: StableKey, V> Default for SHashMap<K, V> {
    fn default() -> (r: Self)
        ensures
            r.wf(),
            r@ == Map::<K, V>::empty(),
            r.spec_capacity() == DEFAULT_CAPACITY,
    {
        Self::new()
    }
}

/// A cursor over the entries of a hash map, in slot order.
pub struct SHashMapIter<'a, K, V> {
    map: &'a SHashMap<K, V>,
    i: usize,
}

impl<'a, K: StableKey, V> SHashMapIter<'a, K, V> {
    /// The slots walked over.
    pub closed spec fn slots(&self) -> Seq<Option<(K, V)>> {
        self.map.table@
    }

    /// The next slot to look at.
    pub closed spec fn pos(&self) -> nat {
        self.i as nat
    }

    pub closed spec fn wf(&self) -> bool {
        self.i <= self.map.table@.len()
    }

    /// A cursor at the first slot of `map`.
    pub fn new(map: &'a SHashMap<K, V>) -> (r: Self)
        ensures
            r.wf(),
            r.slots() == map.slots(),
            r.pos() == 0,
    {
        SHashMapIter { map, i: 0 }
    }

    /// The entry in the next occupied slot, if any.
    pub fn next(&mut self) -> (r: Option<(&'a K, &'a V)>)
        requires
            old(self).wf(),
        ensures
            final(self).wf(),
            final(self).slots() == old(self).slots(),
            r is None ==> final(self).pos() == old(self).slots().len() && forall|j: int|
                old(self).pos() <= j < old(self).slots().len() ==> #[trigger] old(self).slots()[j] is None,
            r matches Some(e) ==> (old(self).pos() < final(self).pos() <= old(self).slots().len()
                && old(self).slots()[final(self).pos() - 1] == Some((*e.0, *e.1))
                && forall|j: int| old(self).pos() <= j < final(self).pos() - 1 ==> #[trigger] old(self).slots()[j] is None),
    {
        let map: &'a SHashMap<K, V> = self.map;
        let cap = map.table.len();
        let ghost start = self.i as int;
        while self.i < cap
            invariant
                self.map == map,
                old(self).map == map,
                start == old(self).i,
                cap == map.table@.len(),
                start <= self.i <= cap,
                forall|j: int| start <= j < self.i ==> #[trigger] map.table@[j] is None,
            decreases cap - self.i,
        {
            let i = self.i;
            self.i = i + 1;
            match &map.table[i] {
                Some(e) => {
                    return Some((&e.0, &e.1));
                },
                None => {},
            }
        }
        None
    }
}

/// A node of a hash tree: a table of a fixed number of slots with open addressing,
/// linear probing and eager removal, which takes no new key once three quarters of its
/// slots are taken, and a link to the next node.
pub struct SHashTreeNode<K, V> {
    table: SHashMap<K, V>,
    next: u64,
}

impl<K: StableKey, V> View for SHashTreeNode<K, V> {
    type V = Map<K, V>;

    closed spec fn view(&self) -> Map<K, V> {
        self.table@
    }
}

impl<K: StableKey, V> SHashTreeNode<K, V> {
    pub closed spec fn wf(&self) -> bool {
        &&& self.table.wf()
        &&& self.table.len <= node_full_len(self.table.table@.len())
    }

    /// The number of slots.
    pub closed spec fn spec_capacity(&self) -> nat {
        self.table.spec_capacity()
    }

    /// The slots: an entry or nothing.
    pub closed spec fn slots(&self) -> Seq<Option<(K, V)>> {
        self.table.table@
    }

    /// The link to the next node.
    pub closed spec fn spec_next(&self) -> u64 {
        self.next
    }

    pub proof fn lemma_len(&self)
        requires
            self.wf(),
        ensures
            self@.dom().finite(),
            self@.len() <= node_full_len(self.spec_capacity()),
            self.spec_capacity() >= 2,
    {
        self.table.lemma_len();
    }

    /// The entry in an occupied slot is an entry of the node, and every key of the node
    /// stands in some slot.
    pub proof fn lemma_slots(&self)
        requires
            self.wf(),
        ensures
            self.slots().len() == self.spec_capacity(),
            forall|x: int| 0 <= x < self.slots().len() && #[trigger] self.slots()[x] is Some ==> self@.contains_key(
                self.slots()[x].unwrap().0,
            ) && self@[self.slots()[x].unwrap().0] == self.slots()[x].unwrap().1,
            forall|k: K| #[trigger] self@.contains_key(k) ==> exists|x: int|
                0 <= x < self.slots().len() && self.slots()[x] is Some && self.slots()[x].unwrap().0 == k,
            forall|x: int, y: int| 0 <= x < self.slots().len() && 0 <= y < self.slots().len() && x != y
                && #[trigger] self.slots()[x] is Some && #[trigger] self.slots()[y] is Some
                ==> self.slots()[x].unwrap().0 != self.slots()[y].unwrap().0,
    {
        self.table.lemma_slots();
    }

    /// The key in slot `idx`, if the slot holds an entry.
    pub fn read_key_at(&self, idx: usize) -> (r: Option<K>)
        requires
            idx < self.slots().len(),
        ensures
            r == (match self.slots()[idx as int] {
                Some(e) => Some(e.0),
                None => None,
            }),
    {
        match &self.table.table[idx] {
            Some(e) => Some(e.0),
            None => None,
        }
    }

    /// The hash of a key: the `zwohash` hash, as a `usize`.
    pub fn hash(val: &K) -> (r: usize)
        ensures
            r == val.key_hash_spec() as usize,
    {
        val.key_hash() as usize
    }

    /// Whether a node of `capacity` slots holding `len` entries takes no new key.
    pub fn is_full(&self, len: usize, capacity: usize) -> (r: bool)
        ensures
            r == (len == node_full_len(capacity as nat)),
    {
        len == (capacity / 4) * 3
    }

    /// The number of entries.
    pub fn len(&self) -> (r: usize)
        requires
            self.wf(),
        ensures
            r == self@.len(),
    {
        self.table.len()
    }

    /// The number of entries, as the node records it.
    pub fn read_len(&self) -> (r: usize)
        requires
            self.wf(),
        ensures
            r == self@.len(),
    {
        self.table.len()
    }

    /// The number of slots.
    pub fn read_capacity(&self) -> (r: usize)
        ensures
            r == self.spec_capacity(),
    {
        self.table.capacity()
    }

    /// The link to the next node.
    pub fn read_next(&self) -> (r: u64)
        ensures
            r == self.spec_next(),
    {
        self.next
    }

    /// Sets the link to the next node.
    pub fn write_next(&mut self, next: u64)
        ensures
            final(self).spec_next() == next,
            final(self)@ == old(self)@,
            final(self).slots() == old(self).slots(),
            final(self).spec_capacity() == old(self).spec_capacity(),
            final(self).wf() == old(self).wf(),
    {
        self.next = next;
    }

    /// The slot that holds `key`, and the key there, if any.
    pub fn find_inner_idx(&self, key: &K, capacity: usize) -> (r: Option<(usize, K)>)
        requires
            self.wf(),
            capacity == self.spec_capacity(),
        ensures
            r matches Some((i, k)) ==> (i < self.slots().len() && self.slots()[i as int] == Some((k, self@[*key]))
                && k == *key && self@.contains_key(*key)),
            r is None ==> !self@.contains_key(*key),
    {
        match self.table.find_inner_idx(key) {
            Some(i) => {
                proof {
                    lemma_view_at(self.table.table@, i as int);
                }
                match &self.table.table[i] {
                    Some(entry) => Some((i, entry.0)),
                    None => None,
                }
            },
            None => {
                proof {
                    lemma_view_absent(self.table.table@, *key);
                }
                None
            },
        }
    }

    /// Inserts `value` under `key`. A key already there gets the new value, and its old
    /// value comes back; a new key takes an empty slot unless the node is full, in which
    /// case the entry comes back as an error. The slot used is returned too, with whether
    /// the key is new.
    pub fn insert(&mut self, key: K, value: V, capacity: usize) -> (r: Result<(Option<V>, bool, usize), (K, V)>)
        requires
            old(self).wf(),
            capacity == old(self).spec_capacity(),
        ensures
            final(self).wf(),
            final(self).spec_capacity() == old(self).spec_capacity(),
            final(self).spec_next() == old(self).spec_next(),
            old(self)@.contains_key(key) ==> (r matches Ok((prev, is_new, i)) && prev == Some(old(self)@[key])
                && !is_new && i < old(self).slots().len() && old(self).slots()[i as int] == Some((key, old(self)@[key]))
                && final(self).slots() == old(self).slots().update(i as int, Some((key, value)))),
            !old(self)@.contains_key(key) && old(self)@.len() == node_full_len(old(self).spec_capacity()) ==> r
                == Err::<(Option<V>, bool, usize), (K, V)>((key, value)) && final(self)@ == old(self)@,
            !old(self)@.contains_key(key) && old(self)@.len() < node_full_len(old(self).spec_capacity()) ==> (r matches Ok(
                (prev, is_new, i),
            ) && prev is None && is_new && i < final(self).slots().len() && final(self).slots()[i as int] == Some((key, value))),
            r is Ok ==> final(self)@ == old(self)@.insert(key, value),
    {
        proof {
            self.table.lemma_len();
        }
        match self.table.find_slot(&key) {
            Ok(i) => {
                proof {
                    lemma_view_at(self.table.table@, i as int);
                }
                let prev = self.table.set_value_at(i, key, value);
                proof {
                    self.table.lemma_len();
                }
                Ok((Some(prev), false, i))
            },
            Err(i) => {
                proof {
                    lemma_view_absent(self.table.table@, key);
                }
                if self.is_full(self.table.len, capacity) {
                    return Err((key, value));
                }
                self.table.place(i, key, value);
                proof {
                    self.table.lemma_len();
                }
                Ok((None, true, i))
            },
        }
    }

    /// Removes the entry in slot `i` and returns its value.
    pub fn remove_by_idx(&mut self, i: usize, capacity: usize) -> (r: V)
        requires
            old(self).wf(),
            capacity == old(self).spec_capacity(),
            i < old(self).slots().len(),
            old(self).slots()[i as int] is Some,
        ensures
            final(self).wf(),
            final(self)@ == old(self)@.remove(old(self).slots()[i as int].unwrap().0),
            r == old(self)@[old(self).slots()[i as int].unwrap().0],
            final(self).spec_capacity() == old(self).spec_capacity(),
            final(self).spec_next() == old(self).spec_next(),
    {
        proof {
            self.table.lemma_len();
        }
        let r = self.table.remove_by_idx(i);
        proof {
            self.table.lemma_len();
        }
        r
    }

    /// Removes `key`; returns the value it had.
    pub fn remove(&mut self, key: &K, capacity: usize) -> (r: Option<V>)
        requires
            old(self).wf(),
            capacity == old(self).spec_capacity(),
        ensures
            final(self).wf(),
            final(self)@ == old(self)@.remove(*key),
            old(self)@.contains_key(*key) ==> r == Some(old(self)@[*key]),
            !old(self)@.contains_key(*key) ==> r is None,
            final(self).spec_capacity() == old(self).spec_capacity(),
            final(self).spec_next() == old(self).spec_next(),
    {
        proof {
            self.table.lemma_len();
        }
        let r = self.table.remove(key);
        proof {
            self.table.lemma_len();
        }
        r
    }
}

impl<K: StableKey, V: AsFixedSizeBytes> SHashTreeNode<K, V> {
    /// A node of `capacity` empty slots and no next node; `None` when `capacity` is
    /// below 2 or above the largest capacity of a map of `K` to `V`.
    pub fn new(capacity: usize) -> (r: Option<Self>)
        ensures
            (2 <= capacity <= map_max_capacity::<K, V>()) == r is Some,
            r matches Some(n) ==> (n.wf() && n@ == Map::<K, V>::empty() && n.spec_capacity() == capacity
                && n.spec_next() == 0),
    {
        if capacity < 2 || capacity > SHashMap::<K, V>::max_capacity() {
            return None;
        }
        match SHashMap::new_with_capacity(capacity) {
            Ok(table) => {
                proof {
                    table.lemma_len();
                }
                Some(SHashTreeNode { table, next: 0 })
            },
            Err(_) => None,
        }
    }
}

impl<K: StableKey, V: Copy> SHashTreeNode<K, V> {
    /// The value in slot `idx`, which holds an entry.
    pub fn read_val_at(&self, idx: usize, capacity: usize) -> (r: V)
        requires
            self.wf(),
            capacity == self.spec_capacity(),
            idx < self.slots().len(),
            self.slots()[idx as int] is Some,
        ensures
            r == self.slots()[idx as int].unwrap().1,
            r == self@[self.slots()[idx as int].unwrap().0],
    {
        proof {
            lemma_view_at(self.table.table@, idx as int);
        }
        let entry = self.table.table[idx].unwrap();
        entry.1
    }
}

impl<K: StableKey, V> Default for SHashTreeNode<K, V> {
    fn default() -> (r: Self)
        ensures
            r.wf(),
            r@ == Map::<K, V>::empty(),
            r.spec_capacity() == DEFAULT_CAPACITY,
            r.spec_next() == 0,
    {
        let table = SHashMap::new();
        proof {
            table.lemma_len();
        }
        SHashTreeNode { table, next: 0 }
    }
}

} // verus!
