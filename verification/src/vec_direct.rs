//! `SVecDirect`: a vector of copyable elements kept in sectors of 4, 8, 16, ... slots,
//! up to sectors of `2^29` slots, found by arithmetic on the index.
use vstd::prelude::*;
use vstd::arithmetic::power2::{pow2, lemma_pow2_unfold, lemma_pow2_strictly_increases, lemma2_to64};
use crate::log::{flat, prefix_len, sector_cap, lemma_flat_index, lemma_prefix_step, lemma_prefix_all};

verus! {

/// The slots of a sector past the doubling ones.
pub const TWO_IN_29: u64 = 536870912;

/// The slots of the sectors `0..27` together: `2^29 - 4`.
pub const TWO_IN_29_MINUS_4: u64 = 536870908;

/// The index of the first slot of sector `k`.
pub open spec fn direct_start(k: nat) -> int {
    if k <= 27 {
        sector_cap(k) - 4
    } else {
        TWO_IN_29_MINUS_4 + (k - 27) * TWO_IN_29
    }
}

/// How many elements of a vector of length `len` sector `k` holds.
pub open spec fn sector_fill(len: nat, k: nat) -> int {
    if len <= direct_start(k) {
        0
    } else if len >= direct_start(k + 1) {
        direct_start(k + 1) - direct_start(k)
    } else {
        len - direct_start(k)
    }
}

/// The capacity of sector `k` is `2^(k + 2)` for the doubling sectors.
pub proof fn lemma_sector_cap_pow(k: nat)
    ensures
        sector_cap(k) == pow2(k + 2),
    decreases k,
{
    if k > 0 {
        lemma_sector_cap_pow((k - 1) as nat);
        lemma_pow2_unfold(k + 2);
    } else {
        lemma2_to64();
    }
}

/// Sector starts increase.
pub proof fn lemma_start_mono(a: nat, b: nat)
    requires
        a < b,
    ensures
        direct_start(a) < direct_start(b),
    decreases b - a,
{
    if a + 1 < b {
        lemma_start_mono(a, (b - 1) as nat);
        lemma_start_mono((b - 1) as nat, b);
    } else {
        if b <= 27 {
            lemma_sector_cap_pow(a);
            lemma_sector_cap_pow(b);
            lemma_pow2_strictly_increases(a + 2, b + 2);
        } else if a == 27 {
            lemma_sector_cap_pow(27);
            lemma2_to64();
            assert(pow2(29) == 536870912) by {
                vstd::arithmetic::power2::lemma2_to64_rest();
            }
        }
    }
}

/// Floor of the base-two logarithm of `x`.
fn fast_log2_32(x: u32) -> (r: u32)
    requires
        x > 0,
    ensures
        r < 32,
        pow2(r as nat) <= x < pow2(r as nat + 1),
{
    let mut r: u32 = 0;
    let mut p: u64 = 2;
    proof {
        lemma2_to64();
    }
    while (x as u64) >= p
        invariant
            r < 32,
            pow2(r as nat) <= x,
            p == pow2(r as nat + 1),
        decreases 32 - r,
    {
        proof {
            lemma2_to64();
            vstd::arithmetic::power2::lemma2_to64_rest();
            if r + 1 >= 32 {
                if r + 1 > 32 {
                    lemma_pow2_strictly_increases(32, r as nat + 1);
                }
                assert(false);
            }
            lemma_pow2_unfold(r as nat + 2);
        }
        r = r + 1;
        p = p * 2;
    }
    r
}

/// The sector that holds slot `idx`, and the slot's place in it. The index `2^29 - 4`,
/// the first slot of sector 27, is left out.
fn calculate_inner_index(idx: u64) -> (r: (usize, usize))
    requires
        idx != TWO_IN_29_MINUS_4,
        idx > TWO_IN_29_MINUS_4 ==> (idx - TWO_IN_29_MINUS_4) / (TWO_IN_29 as int) + 27 <= usize::MAX,
    ensures
        direct_start(r.0 as nat) <= idx < direct_start(r.0 as nat + 1),
        r.1 == idx - direct_start(r.0 as nat),
{
    if idx < 4 {
        proof {
            lemma_sector_cap_pow(0);
            lemma_sector_cap_pow(1);
            lemma2_to64();
        }
        return (0, idx as usize);
    }
    if idx > TWO_IN_29_MINUS_4 {
        let i2 = idx - TWO_IN_29_MINUS_4;
        let q = i2 / TWO_IN_29;
        let sector_idx = 27 + q as usize;
        let offset = (i2 % TWO_IN_29) as usize;
        proof {
            assert(sector_idx == 27 + q);
            lemma_sector_cap_pow(27);
            lemma2_to64();
            assert(q * TWO_IN_29 <= i2 < (q + 1) * TWO_IN_29) by (nonlinear_arith)
                requires
                    q == i2 / TWO_IN_29,
            ;
            assert(i2 % TWO_IN_29 == i2 - q * TWO_IN_29) by (nonlinear_arith)
                requires
                    q == i2 / TWO_IN_29,
            ;
        }
        return (sector_idx, offset);
    }
    let l = fast_log2_32((idx + 4) as u32);
    proof {
        lemma_sector_cap_pow(27);
        lemma2_to64();
        vstd::arithmetic::power2::lemma2_to64_rest();
        if l >= 29 {
            lemma_pow2_strictly_increases(29, l as nat);
        }
        if l < 2 {
            lemma_pow2_strictly_increases(l as nat + 1, 2);
        }
    }
    let sector_idx = (l - 2) as usize;
    proof {
        vstd::bits::lemma_u64_shl_is_mul(1, l as u64);
        lemma_sector_cap_pow(sector_idx as nat);
        lemma_sector_cap_pow(sector_idx as nat + 1);
    }
    let ptrs_in_prev_sectors = (1u64 << (l as u64)) - 4;
    let offset = (idx - ptrs_in_prev_sectors) as usize;
    (sector_idx, offset)
}


/// Some sector starts at or before slot `i` and ends after it.
pub proof fn lemma_find_sector(i: nat, n: nat) -> (k: nat)
    requires
        i < direct_start(n),
    ensures
        k < n,
        direct_start(k) <= i < direct_start(k + 1),
    decreases n,
{
    lemma_sector_cap_pow(0);
    lemma2_to64();
    if n == 0 {
        assert(false);
        0
    } else if i >= direct_start((n - 1) as nat) {
        (n - 1) as nat
    } else {
        lemma_find_sector(i, (n - 1) as nat)
    }
}

/// Sectors filled as `sector_fill` prescribes hold `min(len, start)` elements before
/// each sector start.
pub proof fn lemma_fill_prefix<T>(ss: Seq<Seq<T>>, len: nat, k: int)
    requires
        0 <= k <= ss.len(),
        forall|j: int| 0 <= j < ss.len() ==> #[trigger] ss[j].len() == sector_fill(len, j as nat),
    ensures
        prefix_len(ss, k) == if len <= direct_start(k as nat) { len as int } else { direct_start(k as nat) },
    decreases k,
{
    if k == 0 {
        assert(ss.subrange(0, 0) =~= Seq::<Seq<T>>::empty());
        lemma_sector_cap_pow(0);
        lemma2_to64();
    } else {
        lemma_fill_prefix(ss, len, k - 1);
        lemma_prefix_step(ss, k - 1);
        lemma_start_mono((k - 1) as nat, k as nat);
    }
}

/// Element `idx` of such sectors sits in sector `k` when `k` spans it.
pub proof fn lemma_fill_index<T>(ss: Seq<Seq<T>>, len: nat, idx: int, k: int)
    requires
        0 <= k < ss.len(),
        forall|j: int| 0 <= j < ss.len() ==> #[trigger] ss[j].len() == sector_fill(len, j as nat),
        len <= direct_start(ss.len() as nat),
        0 <= idx < len,
        direct_start(k as nat) <= idx < direct_start(k as nat + 1),
    ensures
        flat(ss).len() == len,
        flat(ss)[idx] == ss[k][idx - direct_start(k as nat)],
{
    lemma_fill_prefix(ss, len, k);
    lemma_fill_prefix(ss, len, k + 1);
    lemma_fill_prefix(ss, len, ss.len() as int);
    lemma_prefix_all(ss);
    lemma_flat_index(ss, k, idx);
}

/// A vector of copyable elements in sectors of 4, 8, 16, ... slots. Its capacity is the
/// number of sector pointers its sector table has room for: none at first, 4 after the
/// first push, then doubling whenever the length reaches it.
pub struct SVecDirect<T> {
    len: u64,
    table_slots: u64,
    sectors: Vec<Vec<T>>,
}

impl<T: Copy> View for SVecDirect<T> {
    type V = Seq<T>;

    closed spec fn view(&self) -> Seq<T> {
        flat(self.sectors_view())
    }
}

impl<T: Copy> SVecDirect<T> {
    pub closed spec fn sectors_view(&self) -> Seq<Seq<T>> {
        Seq::new(self.sectors@.len(), |i: int| self.sectors@[i]@)
    }

    /// The capacity, as a number.
    pub closed spec fn spec_capacity(&self) -> nat {
        self.table_slots as nat
    }

    /// Sector `k` holds the elements of slots `direct_start(k)..direct_start(k + 1)`
    /// that are below the length; the sectors reach past the length.
    pub closed spec fn wf(&self) -> bool {
        let ss = self.sectors_view();
        &&& ss.len() <= 27
        &&& self.len <= TWO_IN_29_MINUS_4
        &&& self.len <= direct_start(ss.len())
        &&& forall|j: int| 0 <= j < ss.len() ==> #[trigger] ss[j].len() == sector_fill(self.len as nat, j as nat)
        &&& self.len <= self.table_slots
        &&& self.table_slots <= 2 * TWO_IN_29
    }

    proof fn lemma_view(&self)
        requires
            self.wf(),
        ensures
            self@.len() == self.len,
    {
        let ss = self.sectors_view();
        lemma_fill_prefix(ss, self.len as nat, ss.len() as int);
        lemma_prefix_all(ss);
    }

    /// An empty vector with no sector table.
    pub fn new() -> (r: Self)
        ensures
            r.wf(),
            r@ == Seq::<T>::empty(),
            r.spec_capacity() == 0,
    {
        let r = SVecDirect { len: 0, table_slots: 0, sectors: Vec::new() };
        proof {
            lemma_sector_cap_pow(0);
            lemma2_to64();
            assert(r.sectors_view() =~= Seq::<Seq<T>>::empty());
        }
        r
    }

    /// The number of sector pointers the sector table has room for.
    pub fn capacity(&self) -> (r: u64)
        ensures
            r == self.spec_capacity(),
    {
        self.table_slots
    }

    pub fn len(&self) -> (r: u64)
        requires
            self.wf(),
        ensures
            r == self@.len(),
    {
        proof {
            self.lemma_view();
        }
        self.len
    }

    pub fn is_empty(&self) -> (r: bool)
        requires
            self.wf(),
        ensures
            r == (self@.len() == 0),
    {
        proof {
            self.lemma_view();
        }
        self.len == 0
    }

    /// Whether the next push grows the sector table.
    pub fn is_about_to_grow(&self) -> (r: bool)
        requires
            self.wf(),
        ensures
            r == (self@.len() == self.spec_capacity()),
    {
        proof {
            self.lemma_view();
        }
        self.len == self.table_slots
    }

    /// Grows the sector table when the length has reached it: to 4 slots, then twice as many.
    fn grow_if_needed(&mut self)
        requires
            old(self).wf(),
            old(self).len < TWO_IN_29_MINUS_4,
        ensures
            final(self).wf(),
            final(self)@ == old(self)@,
            final(self).len == old(self).len,
            final(self).sectors@ == old(self).sectors@,
            final(self).len < final(self).table_slots,
            final(self).spec_capacity() == if old(self).len == old(self).table_slots {
                if old(self).table_slots == 0 { 4 } else { 2 * old(self).table_slots }
            } else {
                old(self).table_slots as int
            },
    {
        if self.len == self.table_slots {
            if self.table_slots == 0 {
                self.table_slots = 4;
            } else {
                self.table_slots = self.table_slots * 2;
            }
        }
    }

    /// Makes sure sector `idx` exists, adding it when it is the next one.
    fn get_or_create_sector(&mut self, idx: usize)
        requires
            old(self).wf(),
            idx <= old(self).sectors@.len(),
            idx < 27,
        ensures
            final(self).wf(),
            final(self)@ == old(self)@,
            final(self).len == old(self).len,
            final(self).table_slots == old(self).table_slots,
            idx < final(self).sectors@.len(),
            forall|j: int| 0 <= j < old(self).sectors@.len() ==> final(self).sectors@[j] == old(self).sectors@[j],
    {
        if idx == self.sectors.len() {
            let ghost ss = self.sectors_view();
            self.sectors.push(Vec::new());
            proof {
                let ss2 = self.sectors_view();
                assert(ss2 =~= ss.push(Seq::<T>::empty()));
                lemma_start_mono(idx as nat, idx as nat + 1);
                crate::log::lemma_flat_push(ss, Seq::<T>::empty());
                assert(flat(ss) + Seq::<T>::empty() =~= flat(ss));
            }
        }
    }

    /// Appends `element`. The sector starts are tabled for sectors `0..27` only, which
    /// hold the slots below `TWO_IN_29_MINUS_4`: the slot at that index has no sector.
    pub fn push(&mut self, element: T)
        requires
            old(self).wf(),
            old(self)@.len() < TWO_IN_29_MINUS_4,
        ensures
            final(self).wf(),
            final(self)@ == old(self)@.push(element),
            final(self).spec_capacity() == if old(self)@.len() == old(self).spec_capacity() {
                if old(self).spec_capacity() == 0 { 4 } else { 2 * old(self).spec_capacity() }
            } else {
                old(self).spec_capacity()
            },
    {
        proof {
            self.lemma_view();
        }
        let ghost old_ss = self.sectors_view();
        let ghost len0 = self.len as nat;
        self.grow_if_needed();
        let (k, off) = calculate_inner_index(self.len);
        proof {
            if k > self.sectors@.len() {
                lemma_start_mono(self.sectors@.len() as nat, k as nat);
            }
            if k >= 27 {
                if k > 27 {
                    lemma_start_mono(27, k as nat);
                }
                lemma_sector_cap_pow(27);
                lemma2_to64();
                vstd::arithmetic::power2::lemma2_to64_rest();
            }
        }
        self.get_or_create_sector(k);
        let ghost mid_ss = self.sectors_view();
        let mut sector: Vec<T> = Vec::new();
        self.sectors.set_and_swap(k, &mut sector);
        proof {
            assert(mid_ss[k as int] == sector@);
            assert(sector@.len() == off) by {
                lemma_start_mono(k as nat, k as nat + 1);
            }
        }
        sector.push(element);
        self.sectors.set_and_swap(k, &mut sector);
        self.len = self.len + 1;
        proof {
            let ss = self.sectors_view();
            assert(ss =~= mid_ss.update(k as int, mid_ss[k as int].push(element)));
            assert forall|j: int| 0 <= j < ss.len() implies #[trigger] ss[j].len() == sector_fill(self.len as nat, j as nat) by {
                if j < k {
                    if j + 1 < k {
                        lemma_start_mono(j as nat + 1, k as nat);
                    }
                } else if j > k {
                    if j > k + 1 {
                        lemma_start_mono(k as nat + 1, j as nat);
                    }
                }
                lemma_start_mono(j as nat, j as nat + 1);
            }
            if ss.len() > mid_ss.len() {
            }
            lemma_start_mono(k as nat, k as nat + 1);
            if k + 1 < ss.len() {
                lemma_start_mono(k as nat + 1, ss.len() as nat);
            }
            assert(self.len <= direct_start(ss.len() as nat));
            self.lemma_view();
            assert forall|i: int| 0 <= i < self.len implies #[trigger] self@[i] == old(self)@.push(element)[i] by {
                let kk = lemma_find_sector(i as nat, ss.len() as nat) as int;
                lemma_fill_index(ss, self.len as nat, i, kk);
                if i < len0 {
                    if kk > old_ss.len() {
                        lemma_start_mono(old_ss.len() as nat, kk as nat);
                    }
                    lemma_fill_index(mid_ss, len0, i, kk);
                    lemma_fill_index(old_ss, len0, i, kk);
                    assert(mid_ss[kk] == old_ss[kk]);
                } else {
                    assert(kk == k) by {
                        if kk < k {
                            lemma_start_mono(kk as nat + 1, k as nat);
                        } else if kk > k {
                            lemma_start_mono(k as nat + 1, kk as nat);
                        }
                    }
                }
            }
            assert(self@ =~= old(self)@.push(element));
        }
    }

    /// Where slot `idx` of the vector lives: its sector and its place there.
    proof fn lemma_locate(&self, idx: int, k: int, off: int)
        requires
            self.wf(),
            0 <= k,
            0 <= idx < self.len,
            direct_start(k as nat) <= idx < direct_start(k as nat + 1),
            off == idx - direct_start(k as nat),
        ensures
            0 <= k < self.sectors@.len(),
            0 <= off < self.sectors@[k]@.len(),
            self@[idx] == self.sectors@[k]@[off],
            self@.len() == self.len,
    {
        let ss = self.sectors_view();
        assert(self.len <= direct_start(ss.len()));
        if k >= ss.len() {
            if k > ss.len() {
                lemma_start_mono(ss.len() as nat, k as nat);
            }
            assert(false);
        }
        lemma_start_mono(k as nat, k as nat + 1);
        lemma_fill_index(ss, self.len as nat, idx, k);
    }

    /// The sector and place of slot `idx`, which is below the length.
    fn locate(&self, idx: u64) -> (r: (usize, usize))
        requires
            self.wf(),
            idx < self.len,
        ensures
            r.0 < self.sectors@.len(),
            r.1 < self.sectors@[r.0 as int]@.len(),
            self@[idx as int] == self.sectors@[r.0 as int]@[r.1 as int],
            direct_start(r.0 as nat) <= idx < direct_start(r.0 as nat + 1),
            r.1 == idx - direct_start(r.0 as nat),
    {
        let r = calculate_inner_index(idx);
        proof {
            self.lemma_locate(idx as int, r.0 as int, r.1 as int);
        }
        r
    }

    /// Writes `element` into slot `idx`, below the length.
    fn write_elem(&mut self, idx: u64, element: T)
        requires
            old(self).wf(),
            idx < old(self).len,
        ensures
            final(self).wf(),
            final(self)@ == old(self)@.update(idx as int, element),
            final(self).len == old(self).len,
            final(self).table_slots == old(self).table_slots,
    {
        let (k, off) = self.locate(idx);
        let ghost ss0 = self.sectors_view();
        let mut sector: Vec<T> = Vec::new();
        self.sectors.set_and_swap(k, &mut sector);
        sector.set(off, element);
        self.sectors.set_and_swap(k, &mut sector);
        proof {
            let ss = self.sectors_view();
            assert(ss =~= ss0.update(k as int, ss0[k as int].update(off as int, element)));
            assert forall|j: int| 0 <= j < ss.len() implies #[trigger] ss[j].len() == sector_fill(self.len as nat, j as nat) by {
                assert(ss[j].len() == ss0[j].len());
            }
            self.lemma_view();
            old(self).lemma_view();
            assert forall|i: int| 0 <= i < self.len implies #[trigger] self@[i] == old(self)@.update(idx as int, element)[i] by {
                let kk = lemma_find_sector(i as nat, ss.len() as nat) as int;
                self.lemma_locate(i, kk, i - direct_start(kk as nat));
                old(self).lemma_locate(i, kk, i - direct_start(kk as nat));
                if kk == k && i != idx {
                    assert(i - direct_start(kk as nat) != off);
                }
                if i == idx {
                    assert(kk == k) by {
                        if kk < k {
                            lemma_start_mono(kk as nat + 1, k as nat);
                        } else if kk > k {
                            lemma_start_mono(k as nat + 1, kk as nat);
                        }
                    }
                }
            }
            assert(self@ =~= old(self)@.update(idx as int, element));
        }
    }

    /// Removes and returns the last element.
    pub fn pop(&mut self) -> (r: Option<T>)
        requires
            old(self).wf(),
        ensures
            final(self).wf(),
            old(self)@.len() == 0 ==> r is None && final(self)@ == old(self)@,
            old(self)@.len() > 0 ==> r == Some(old(self)@.last()) && final(self)@ == old(self)@.drop_last(),
            final(self).spec_capacity() == old(self).spec_capacity(),
    {
        proof {
            self.lemma_view();
        }
        if self.len == 0 {
            return None;
        }
        let idx = self.len - 1;
        let (k, off) = self.locate(idx);
        let ghost ss0 = self.sectors_view();
        let mut sector: Vec<T> = Vec::new();
        self.sectors.set_and_swap(k, &mut sector);
        proof {
            lemma_start_mono(k as nat, k as nat + 1);
            assert(sector@ == ss0[k as int]);
            assert(ss0[k as int].len() == sector_fill(self.len as nat, k as nat));
            assert(sector@.len() == off + 1);
        }
        let e = sector.pop().unwrap();
        self.sectors.set_and_swap(k, &mut sector);
        self.len = idx;
        proof {
            let ss = self.sectors_view();
            assert(ss =~= ss0.update(k as int, ss0[k as int].drop_last()));
            assert forall|j: int| 0 <= j < ss.len() implies #[trigger] ss[j].len() == sector_fill(self.len as nat, j as nat) by {
                if j < k {
                    if j + 1 < k {
                        lemma_start_mono(j as nat + 1, k as nat);
                    }
                } else if j > k {
                    if j > k + 1 {
                        lemma_start_mono(k as nat + 1, j as nat);
                    }
                }
                lemma_start_mono(j as nat, j as nat + 1);
            }
            if k + 1 < ss.len() {
                lemma_start_mono(k as nat + 1, ss.len() as nat);
            }
            self.lemma_view();
            assert forall|i: int| 0 <= i < self.len implies #[trigger] self@[i] == old(self)@[i] by {
                let kk = lemma_find_sector(i as nat, ss.len() as nat) as int;
                self.lemma_locate(i, kk, i - direct_start(kk as nat));
                old(self).lemma_locate(i, kk, i - direct_start(kk as nat));
            }
            assert(self@ =~= old(self)@.drop_last());
        }
        Some(e)
    }

    /// A copy of the element at `idx`, if there is one.
    pub fn get_cloned(&self, idx: u64) -> (r: Option<T>)
        requires
            self.wf(),
        ensures
            idx < self@.len() ==> r == Some(self@[idx as int]),
            idx >= self@.len() ==> r is None,
    {
        proof {
            self.lemma_view();
        }
        if idx >= self.len || self.len == 0 {
            return None;
        }
        let (k, off) = self.locate(idx);
        Some(self.sectors[k][off])
    }

    /// Puts `element` at `idx` and returns the element that was there.
    pub fn replace(&mut self, idx: u64, element: T) -> (r: T)
        requires
            old(self).wf(),
            idx < old(self)@.len(),
        ensures
            final(self).wf(),
            r == old(self)@[idx as int],
            final(self)@ == old(self)@.update(idx as int, element),
            final(self).spec_capacity() == old(self).spec_capacity(),
    {
        proof {
            self.lemma_view();
        }
        let (k, off) = self.locate(idx);
        let prev = self.sectors[k][off];
        self.write_elem(idx, element);
        prev
    }

    /// Exchanges the elements at two different indices.
    pub fn swap(&mut self, idx1: u64, idx2: u64)
        requires
            old(self).wf(),
            idx1 < old(self)@.len(),
            idx2 < old(self)@.len(),
            idx1 != idx2,
        ensures
            final(self).wf(),
            final(self)@ == old(self)@.update(idx1 as int, old(self)@[idx2 as int]).update(idx2 as int, old(self)@[idx1 as int]),
            final(self).spec_capacity() == old(self).spec_capacity(),
    {
        proof {
            self.lemma_view();
        }
        let (k1, off1) = self.locate(idx1);
        let (k2, off2) = self.locate(idx2);
        let e1 = self.sectors[k1][off1];
        let e2 = self.sectors[k2][off2];
        self.write_elem(idx1, e2);
        self.write_elem(idx2, e1);
    }

    /// Releases the vector.
    pub fn drop(self) {
    }
}

impl<T: Copy> Default for SVecDirect<T> {
    fn default() -> (r: Self)
        ensures
            r.wf(),
            r@ == Seq::<T>::empty(),
            r.spec_capacity() == 0,
    {
        Self::new()
    }
}

} // verus!
