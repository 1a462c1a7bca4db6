//! `SLog`: an append-only log kept in a chain of sectors whose capacities double.
use vstd::prelude::*;

verus! {

/// The capacity of the sector before the first one (the first sector holds twice that).
pub const DEFAULT_CAPACITY: u64 = 2;

/// The capacity of sector `i`: 4, 8, 16, ...
pub open spec fn sector_cap(i: nat) -> nat
    decreases i,
{
    if i == 0 {
        4
    } else {
        2 * sector_cap((i - 1) as nat)
    }
}

/// The elements of a chain of sectors, in order.
pub open spec fn flat<T>(ss: Seq<Seq<T>>) -> Seq<T>
    decreases ss.len(),
{
    if ss.len() == 0 {
        Seq::empty()
    } else {
        flat(ss.drop_last()) + ss.last()
    }
}

/// The number of elements in the first `k` sectors.
pub open spec fn prefix_len<T>(ss: Seq<Seq<T>>, k: int) -> nat {
    flat(ss.subrange(0, k)).len()
}

pub proof fn lemma_flat_push<T>(ss: Seq<Seq<T>>, s: Seq<T>)
    ensures
        flat(ss.push(s)) == flat(ss) + s,
{
    assert(ss.push(s).drop_last() =~= ss);
}

pub proof fn lemma_flat_update_last<T>(ss: Seq<Seq<T>>, s: Seq<T>)
    requires
        ss.len() > 0,
    ensures
        flat(ss.update(ss.len() - 1, s)) == flat(ss.drop_last()) + s,
{
    assert(ss.update(ss.len() - 1, s).drop_last() =~= ss.drop_last());
}

pub proof fn lemma_prefix_step<T>(ss: Seq<Seq<T>>, k: int)
    requires
        0 <= k < ss.len(),
    ensures
        prefix_len(ss, k + 1) == prefix_len(ss, k) + ss[k].len(),
        flat(ss.subrange(0, k + 1)) == flat(ss.subrange(0, k)) + ss[k],
{
    assert(ss.subrange(0, k + 1).drop_last() =~= ss.subrange(0, k));
}

pub proof fn lemma_prefix_all<T>(ss: Seq<Seq<T>>)
    ensures
        prefix_len(ss, ss.len() as int) == flat(ss).len(),
{
    assert(ss.subrange(0, ss.len() as int) =~= ss);
}

/// Element `idx` of the chain sits in sector `k` when the sectors before `k` hold at
/// most `idx` elements and those up to `k` hold more.
pub proof fn lemma_flat_index<T>(ss: Seq<Seq<T>>, k: int, idx: int)
    requires
        0 <= k < ss.len(),
        prefix_len(ss, k) <= idx < prefix_len(ss, k + 1),
    ensures
        idx < flat(ss).len(),
        flat(ss)[idx] == ss[k][idx - prefix_len(ss, k)],
    decreases ss.len(),
{
    lemma_prefix_step(ss, k);
    if k == ss.len() - 1 {
        assert(ss.subrange(0, k + 1) =~= ss);
        assert(ss.subrange(0, k) =~= ss.drop_last());
    } else {
        let p = ss.drop_last();
        assert(p.subrange(0, k) =~= ss.subrange(0, k));
        assert(p.subrange(0, k + 1) =~= ss.subrange(0, k + 1));
        lemma_flat_index(p, k, idx);
        lemma_prefix_all(p);
        lemma_prefix_mono(p, k + 1, p.len() as int);
    }
}

pub proof fn lemma_prefix_mono<T>(ss: Seq<Seq<T>>, a: int, b: int)
    requires
        0 <= a <= b <= ss.len(),
    ensures
        prefix_len(ss, a) <= prefix_len(ss, b),
    decreases b - a,
{
    if a < b {
        lemma_prefix_mono(ss, a, b - 1);
        lemma_prefix_step(ss, b - 1);
    }
}

/// Changing element `j` of sector `k` changes the element of the chain at the sector's
/// start plus `j`.
pub proof fn lemma_flat_update<T>(ss: Seq<Seq<T>>, k: int, j: int, v: T)
    requires
        0 <= k < ss.len(),
        0 <= j < ss[k].len(),
    ensures
        prefix_len(ss, k) + j < flat(ss).len(),
        flat(ss.update(k, ss[k].update(j, v))) == flat(ss).update(prefix_len(ss, k) + j, v),
    decreases ss.len(),
{
    let s2 = ss.update(k, ss[k].update(j, v));
    let p = ss.drop_last();
    if k == ss.len() - 1 {
        lemma_flat_update_last(ss, ss[k].update(j, v));
        assert(ss.subrange(0, k) =~= p);
        assert(flat(ss) == flat(p) + ss[k]);
        assert(flat(s2) =~= flat(ss).update(prefix_len(ss, k) + j, v));
    } else {
        lemma_flat_update(p, k, j, v);
        assert(s2.drop_last() =~= p.update(k, p[k].update(j, v)));
        assert(p.subrange(0, k) =~= ss.subrange(0, k));
        lemma_prefix_step(p, k);
        lemma_prefix_all(p);
        lemma_prefix_mono(p, k + 1, p.len() as int);
        assert(s2.last() == ss.last());
        assert(flat(s2) == flat(s2.drop_last()) + s2.last());
        assert(flat(ss) == flat(p) + ss.last());
        assert(flat(s2) =~= flat(ss).update(prefix_len(ss, k) + j, v));
    }
}

/// Element `j` of `v`, to change in place.
fn elem_mut<T>(v: &mut Vec<T>, j: usize) -> (r: &mut T)
    requires
        j < old(v)@.len(),
    ensures
        *r == old(v)@[j as int],
        final(v)@ == old(v)@.update(j as int, *final(r)),
{
    &mut v[j]
}

/// A log of elements, stored in sectors of 4, 8, 16, ... slots; every sector but the
/// last is full.
pub struct SLog<T> {
    sectors: Vec<Vec<T>>,
    len: u64,
    cur_sector_capacity: u64,
}

impl<T> View for SLog<T> {
    type V = Seq<T>;

    closed spec fn view(&self) -> Seq<T> {
        flat(self.sectors_view())
    }
}

impl<T> SLog<T> {
    pub closed spec fn sectors_view(&self) -> Seq<Seq<T>> {
        Seq::new(self.sectors@.len(), |i: int| self.sectors@[i]@)
    }

    /// Sectors have the capacities 4, 8, 16, ...; all but the last are full; the last
    /// is empty only when it is the first; the length is counted.
    pub closed spec fn wf(&self) -> bool {
        let ss = self.sectors_view();
        &&& forall|i: int| 0 <= i < ss.len() - 1 ==> #[trigger] ss[i].len() == sector_cap(i as nat)
        &&& ss.len() > 0 ==> ss.last().len() <= sector_cap((ss.len() - 1) as nat)
        &&& ss.len() > 1 ==> ss.last().len() > 0
        &&& ss.len() > 0 ==> self.cur_sector_capacity == sector_cap((ss.len() - 1) as nat)
        &&& ss.len() == 0 ==> self.cur_sector_capacity == DEFAULT_CAPACITY
        &&& self.len == flat(ss).len()
        &&& ss.len() <= 62
    }

    proof fn lemma_cap_pow(i: nat)
        ensures
            sector_cap(i) == 4 * vstd::arithmetic::power2::pow2(i),
        decreases i,
    {
        if i > 0 {
            Self::lemma_cap_pow((i - 1) as nat);
            vstd::arithmetic::power2::lemma_pow2_unfold(i);
        } else {
            vstd::arithmetic::power2::lemma2_to64();
        }
    }

    proof fn lemma_cap_bound(i: nat)
        requires
            i <= 62,
        ensures
            4 <= sector_cap(i) <= 0x1_0000_0000_0000_0000,
            i <= 61 ==> sector_cap(i) <= 0x8000_0000_0000_0000,
            i == 62 ==> sector_cap(i) == 0x1_0000_0000_0000_0000,
    {
        Self::lemma_cap_pow(i);
        Self::lemma_cap_pow(0);
        vstd::arithmetic::power2::lemma2_to64();
        vstd::arithmetic::power2::lemma2_to64_rest();
        if i < 61 {
            vstd::arithmetic::power2::lemma_pow2_strictly_increases(i, 61);
        }
        if i < 62 {
            vstd::arithmetic::power2::lemma_pow2_strictly_increases(i, 62);
        }
        if i > 0 {
            vstd::arithmetic::power2::lemma_pow2_strictly_increases(0, i);
        }
    }

    /// Full sectors `0..k` hold `sector_cap(k) - 4` elements.
    proof fn lemma_full_prefix(ss: Seq<Seq<T>>, k: int)
        requires
            0 <= k <= ss.len(),
            forall|i: int| 0 <= i < k ==> #[trigger] ss[i].len() == sector_cap(i as nat),
        ensures
            prefix_len(ss, k) + 4 == sector_cap(k as nat),
        decreases k,
    {
        if k > 0 {
            Self::lemma_full_prefix(ss, k - 1);
            lemma_prefix_step(ss, k - 1);
        } else {
            assert(ss.subrange(0, 0) =~= Seq::<Seq<T>>::empty());
        }
    }

    /// Creates an empty log; no sector is made until the first push.
    pub fn new() -> (r: Self)
        ensures
            r.wf(),
            r@ == Seq::<T>::empty(),
    {
        let r = SLog { sectors: Vec::new(), len: 0, cur_sector_capacity: DEFAULT_CAPACITY };
        assert(r.sectors_view() =~= Seq::<Seq<T>>::empty());
        r
    }

    pub fn len(&self) -> (r: u64)
        requires
            self.wf(),
        ensures
            r == self@.len(),
    {
        self.len
    }

    pub fn is_empty(&self) -> (r: bool)
        requires
            self.wf(),
        ensures
            r == (self@.len() == 0),
    {
        self.len == 0
    }

    /// Appends `it` at the end, opening a sector twice as large when the current one is full.
    pub fn push(&mut self, it: T) -> (r: Result<(), T>)
        requires
            old(self).wf(),
            old(self)@.len() < 0xFFFF_FFFF_FFFF_FFFC,
        ensures
            r is Ok,
            final(self).wf(),
            final(self)@ == old(self)@.push(it),
    {
        let ghost ss0 = self.sectors_view();
        let n = self.sectors.len();
        if n == 0 {
            self.cur_sector_capacity = self.cur_sector_capacity * 2;
            let mut first: Vec<T> = Vec::new();
            first.push(it);
            self.sectors.push(first);
            self.len = self.len + 1;
            proof {
                let ss = self.sectors_view();
                assert(ss.len() == 1);
                assert(ss[0] =~= seq![it]);
                assert(ss =~= ss0.push(seq![it]));
                lemma_flat_push(ss0, seq![it]);
                assert(flat(ss0) =~= Seq::<T>::empty());
                assert(self@ =~= old(self)@.push(it));
            }
            return Ok(());
        }
        let last = n - 1;
        let cur_len = self.sectors[last].len();
        proof {
            Self::lemma_cap_bound(last as nat);
        }
        if (cur_len as u64) < self.cur_sector_capacity {
            let ghost s_old = ss0[last as int];
            let mut sec: Vec<T> = Vec::new();
            std::mem::swap(&mut sec, &mut self.sectors[last]);
            sec.push(it);
            self.sectors.set(last, sec);
            self.len = self.len + 1;
            proof {
                let ss = self.sectors_view();
                assert(ss =~= ss0.update(last as int, s_old.push(it)));
                lemma_flat_update_last(ss0, s_old.push(it));
                lemma_flat_update_last(ss0, s_old);
                assert(ss0.update(last as int, s_old) =~= ss0);
                assert(self@ =~= old(self)@.push(it));
            }
            Ok(())
        } else {
            proof {
                Self::lemma_full_prefix(ss0, n as int);
                lemma_prefix_all(ss0);
                if n >= 62 {
                    Self::lemma_cap_bound(62);
                    assert(false);
                }
                Self::lemma_cap_bound(n as nat);
            }
            self.cur_sector_capacity = self.cur_sector_capacity * 2;
            let mut fresh: Vec<T> = Vec::new();
            fresh.push(it);
            self.sectors.push(fresh);
            self.len = self.len + 1;
            proof {
                let ss = self.sectors_view();
                assert(ss =~= ss0.push(seq![it]));
                lemma_flat_push(ss0, seq![it]);
                assert(self@ =~= old(self)@.push(it));
            }
            Ok(())
        }
    }

    /// Removes and returns the last element; a sector left empty is dropped unless it
    /// is the first.
    pub fn pop(&mut self) -> (r: Option<T>)
        requires
            old(self).wf(),
        ensures
            final(self).wf(),
            old(self)@.len() == 0 ==> r is None && final(self)@ == old(self)@,
            old(self)@.len() > 0 ==> r == Some(old(self)@.last()) && final(self)@ == old(
                self,
            )@.drop_last(),
    {
        let ghost ss0 = self.sectors_view();
        if self.len == 0 {
            return None;
        }
        let n = self.sectors.len();
        if n == 0 {
            proof {
                assert(ss0 =~= Seq::<Seq<T>>::empty());
            }
            return None;
        }
        let last = n - 1;
        let ghost s_old = ss0[last as int];
        proof {
            if s_old.len() == 0 {
                assert(n == 1);
                assert(ss0.drop_last() =~= Seq::<Seq<T>>::empty());
                assert(flat(ss0.drop_last()) =~= Seq::<T>::empty());
                assert(flat(ss0) =~= Seq::<T>::empty());
            }
        }
        let mut sec: Vec<T> = Vec::new();
        std::mem::swap(&mut sec, &mut self.sectors[last]);
        let it = sec.pop().unwrap();
        let now_empty = sec.len() == 0;
        self.sectors.set(last, sec);
        self.len = self.len - 1;
        proof {
            let ss = self.sectors_view();
            assert(ss =~= ss0.update(last as int, s_old.drop_last()));
            lemma_flat_update_last(ss0, s_old.drop_last());
            lemma_flat_update_last(ss0, s_old);
            assert(ss0.update(last as int, s_old) =~= ss0);
            assert(self@ =~= old(self)@.drop_last());
        }
        if now_empty && n > 1 {
            let _ = self.sectors.pop();
            self.cur_sector_capacity = self.cur_sector_capacity / 2;
            proof {
                let ss1 = ss0.update(last as int, s_old.drop_last());
                let ss = self.sectors_view();
                assert(ss =~= ss1.drop_last());
                lemma_flat_update_last(ss0, s_old.drop_last());
                assert(flat(ss1) =~= flat(ss1.drop_last()));
                assert(sector_cap(last as nat) == 2 * sector_cap((last - 1) as nat));
            }
        }
        Some(it)
    }

    /// Removes every element.
    pub fn clear(&mut self)
        requires
            old(self).wf(),
        ensures
            final(self).wf(),
            final(self)@ == Seq::<T>::empty(),
    {
        while self.len > 0
            invariant
                self.wf(),
            decreases self@.len(),
        {
            let _ = self.pop();
        }
    }

    /// The sector that holds element `idx`, and the number of elements before it.
    fn find_sector_for_idx(&self, idx: u64) -> (r: Option<(usize, u64)>)
        requires
            self.wf(),
        ensures
            idx >= self@.len() ==> r is None,
            idx < self@.len() ==> (r matches Some((k, start)) && k < self.sectors_view().len()
                && start == prefix_len(self.sectors_view(), k as int) && start <= idx
                < prefix_len(self.sectors_view(), k + 1)),
    {
        if idx >= self.len || self.len == 0 {
            return None;
        }
        let ghost ss = self.sectors_view();
        let mut k = self.sectors.len() - 1;
        let mut len = self.len;
        proof {
            lemma_prefix_all(ss);
        }
        loop
            invariant
                self.wf(),
                ss == self.sectors_view(),
                k < ss.len(),
                len == prefix_len(ss, k + 1),
                idx < len,
                idx < flat(ss).len(),
            decreases k,
        {
            proof {
                lemma_prefix_step(ss, k as int);
                if k == 0 {
                    assert(ss.subrange(0, 0) =~= Seq::<Seq<T>>::empty());
                }
            }
            let start = len - self.sectors[k].len() as u64;
            if start <= idx {
                return Some((k, start));
            }
            len = start;
            k = k - 1;
        }
    }

    /// The element at `idx`, if there is one.
    pub fn get(&self, idx: u64) -> (r: Option<&T>)
        requires
            self.wf(),
        ensures
            idx < self@.len() ==> r == Some(&self@[idx as int]),
            idx >= self@.len() ==> r is None,
    {
        match self.find_sector_for_idx(idx) {
            Some((k, start)) => {
                proof {
                    let ss = self.sectors_view();
                    lemma_flat_index(ss, k as int, idx as int);
                    lemma_prefix_step(ss, k as int);
                    assert(ss[k as int] == self.sectors@[k as int]@);
                    assert(self.sectors@[k as int]@[(idx - start) as int] == self@[idx as int]);
                }
                let sector = &self.sectors[k];
                let slen = sector.len();
                assert(idx - start < slen);
                let j = (idx - start) as usize;
                assert(j == idx - start);
                Some(&sector[j])
            },
            None => None,
        }
    }

    /// Sector `k`, to change in place.
    fn sector_mut(&mut self, k: usize) -> (r: &mut Vec<T>)
        requires
            k < old(self).sectors@.len(),
        ensures
            *r == old(self).sectors@[k as int],
            final(self).sectors_view() == old(self).sectors_view().update(k as int, final(r)@),
            final(self).len == old(self).len,
            final(self).cur_sector_capacity == old(self).cur_sector_capacity,
    {
        &mut self.sectors[k]
    }

    /// The element at `idx`, to change in place, if there is one.
    pub fn get_mut(&mut self, idx: u64) -> (r: Option<&mut T>)
        requires
            old(self).wf(),
        ensures
            final(self).wf(),
            idx < old(self)@.len() ==> r is Some,
            idx >= old(self)@.len() ==> r is None && final(self)@ == old(self)@,
            r matches Some(e) ==> (*e == old(self)@[idx as int] && final(self)@ == old(self)@.update(idx as int, *final(e))),
    {
        match self.find_sector_for_idx(idx) {
            Some((k, start)) => {
                let ghost ss = self.sectors_view();
                proof {
                    lemma_flat_index(ss, k as int, idx as int);
                    lemma_prefix_step(ss, k as int);
                    assert(ss[k as int] == self.sectors@[k as int]@);
                    assert forall|v: T| #[trigger] flat(ss.update(k as int, ss[k as int].update(idx - start, v)))
                        == flat(ss).update(idx as int, v) by {
                        lemma_flat_update(ss, k as int, idx - start, v);
                    }
                }
                let slen = self.sectors[k].len();
                assert(idx - start < slen);
                let j = (idx - start) as usize;
                assert(j == idx - start);
                let sector = self.sector_mut(k);
                let e = elem_mut(sector, j);
                Some(e)
            },
            None => None,
        }
    }

    /// The first element, if any.
    pub fn first(&self) -> (r: Option<&T>)
        requires
            self.wf(),
        ensures
            self@.len() > 0 ==> r == Some(&self@[0]),
            self@.len() == 0 ==> r is None,
    {
        self.get(0)
    }

    /// The last element, if any.
    pub fn last(&self) -> (r: Option<&T>)
        requires
            self.wf(),
        ensures
            self@.len() > 0 ==> r == Some(&self@.last()),
            self@.len() == 0 ==> r is None,
    {
        if self.len == 0 {
            return None;
        }
        self.get(self.len - 1)
    }

    /// Releases the log.
    pub fn drop(self) {
    }

    /// A cursor over the elements, from the last to the first.
    pub fn rev_iter(&self) -> (r: SLogIter<'_, T>)
        requires
            self.wf(),
        ensures
            r.wf(),
            r.items() == self@,
            r.remaining() == self@.len(),
    {
        SLogIter::new(self)
    }
}

impl<T> Default for SLog<T> {
    fn default() -> (r: Self)
        ensures
            r.wf(),
            r@ == Seq::<T>::empty(),
    {
        Self::new()
    }
}

/// A cursor over the elements of a log, from the last pushed to the first.
pub struct SLogIter<'a, T> {
    log: &'a SLog<T>,
    remaining: u64,
}

impl<'a, T> SLogIter<'a, T> {
    /// The elements walked over, oldest first.
    pub closed spec fn items(&self) -> Seq<T> {
        self.log@
    }

    /// How many elements are still to come.
    pub closed spec fn remaining(&self) -> nat {
        self.remaining as nat
    }

    pub closed spec fn wf(&self) -> bool {
        &&& self.log.wf()
        &&& self.remaining <= self.log@.len()
    }

    /// A cursor at the last element of `log`.
    pub fn new(log: &'a SLog<T>) -> (r: Self)
        requires
            log.wf(),
        ensures
            r.wf(),
            r.items() == log@,
            r.remaining() == log@.len(),
    {
        SLogIter { log, remaining: log.len() }
    }

    /// The next element, going back from the last, if any.
    pub fn next(&mut self) -> (r: Option<&'a T>)
        requires
            old(self).wf(),
        ensures
            final(self).wf(),
            final(self).items() == old(self).items(),
            old(self).remaining() > 0 ==> r == Some(&old(self).items()[old(self).remaining() - 1])
                && final(self).remaining() == old(self).remaining() - 1,
            old(self).remaining() == 0 ==> r is None && final(self).remaining() == 0,
    {
        if self.remaining == 0 {
            return None;
        }
        self.remaining = self.remaining - 1;
        self.log.get(self.remaining)
    }
}

} // verus!
