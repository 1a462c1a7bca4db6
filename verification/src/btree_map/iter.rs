//! A cursor over the entries of an `SBTreeMap`, taken in key order.
use vstd::prelude::*;
use crate::key::StableKey;
use super::SBTreeMap;

verus! {

/// A cursor over a copy of a map's entries in key order. It keeps one position, shared by
/// both ends: `next` walks forward from the first entry and stops before the last one;
/// `next_back` walks backward from the last entry and stops before the first one.
pub struct SBTreeMapIter<K, V> {
    entries: Vec<(K, V)>,
    started: bool,
    idx: usize,
}

impl<K: StableKey, V: Copy> SBTreeMapIter<K, V> {
    /// The entries walked over.
    pub closed spec fn items(&self) -> Seq<(K, V)> {
        self.entries@
    }

    /// The position, once a first step was taken.
    pub closed spec fn cursor(&self) -> Option<nat> {
        if self.started {
            Some(self.idx as nat)
        } else {
            None
        }
    }

    pub closed spec fn wf(&self) -> bool {
        self.started ==> self.idx < self.entries@.len()
    }

    pub proof fn lemma_cursor(&self)
        requires
            self.wf(),
        ensures
            self.cursor() matches Some(i) ==> i < self.items().len(),
    {
    }

    /// A cursor over the entries of `map`.
    pub fn new(map: &SBTreeMap<K, V>) -> (r: Self)
        requires
            map.wf(),
        ensures
            r.wf(),
            r.items() == map.entries(),
            r.cursor() is None,
    {
        SBTreeMapIter { entries: map.entries_vec(), started: false, idx: 0 }
    }

    /// The entry at the position, moving it forward; `None` at the last entry.
    pub fn next(&mut self) -> (r: Option<(K, V)>)
        requires
            old(self).wf(),
        ensures
            final(self).wf(),
            final(self).items() == old(self).items(),
            ({
                let s = old(self).items();
                let i = match old(self).cursor() {
                    Some(i) => i,
                    None => 0,
                };
                if s.len() == 0 {
                    r is None && final(self).cursor() == old(self).cursor()
                } else if i + 1 == s.len() {
                    r is None && final(self).cursor() == Some(i)
                } else {
                    r == Some(s[i as int]) && final(self).cursor() == Some(i + 1)
                }
            }),
    {
        let len = self.entries.len();
        if !self.started {
            if len == 0 {
                return None;
            }
            self.started = true;
            self.idx = 0;
        }
        if self.idx + 1 == len {
            return None;
        }
        let item = self.entries[self.idx];
        self.idx = self.idx + 1;
        Some(item)
    }

    /// The entry at the position, moving it backward; `None` at the first entry.
    pub fn next_back(&mut self) -> (r: Option<(K, V)>)
        requires
            old(self).wf(),
        ensures
            final(self).wf(),
            final(self).items() == old(self).items(),
            ({
                let s = old(self).items();
                let i = match old(self).cursor() {
                    Some(i) => i as int,
                    None => s.len() - 1,
                };
                if s.len() == 0 {
                    r is None && final(self).cursor() == old(self).cursor()
                } else if i == 0 {
                    r is None && final(self).cursor() == Some(0nat)
                } else {
                    r == Some(s[i]) && final(self).cursor() == Some((i - 1) as nat)
                }
            }),
    {
        let len = self.entries.len();
        if !self.started {
            if len == 0 {
                return None;
            }
            self.started = true;
            self.idx = len - 1;
        }
        if self.idx == 0 {
            return None;
        }
        let item = self.entries[self.idx];
        self.idx = self.idx - 1;
        Some(item)
    }
}

} // verus!
