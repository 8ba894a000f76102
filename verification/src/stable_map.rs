//! A keyed container of cache slots whose lookup-or-create is idempotent.
//!
//! Slots are addressed by a dense `u32` key. A slot of `None` stands for a
//! key that was never initialized; `Some(entry)` is an initialized slot.

use vstd::prelude::*;

use crate::entry::CacheEntry;

verus! {

/// The slot container backing the collection's write-back cache.
pub struct StableMap {
    slots: Vec<Option<CacheEntry>>,
}

impl StableMap {
    /// The dense array of slots, in key order.
    pub closed spec fn slots_view(&self) -> Seq<Option<CacheEntry>> {
        self.slots@
    }

    /// How many keys have an allocated slot position.
    pub open spec fn width(&self) -> nat {
        self.slots_view().len()
    }

    /// The slot stored under key `k`; `None` for a key never touched.
    pub open spec fn slot_spec(&self, k: u32) -> Option<CacheEntry> {
        if (k as nat) < self.width() {
            self.slots_view()[k as int]
        } else {
            None
        }
    }

    /// A container with no slots.
    pub fn new() -> (r: Self)
        ensures
            r.width() == 0,
            forall|k: u32| #[trigger] r.slot_spec(k) is None,
    {
        StableMap { slots: Vec::new() }
    }

    /// How many keys have an allocated slot position.
    pub fn slot_count(&self) -> (n: usize)
        ensures
            n == self.width(),
    {
        self.slots.len()
    }

    /// Reads a copy of the slot under key `k`.
    pub fn slot(&self, k: u32) -> (r: Option<CacheEntry>)
        ensures
            r == self.slot_spec(k),
    {
        if (k as usize) < self.slots.len() {
            self.slots[k as usize]
        } else {
            None
        }
    }

    /// A mutable borrow of the slot under key `k`, creating an uninitialized
    /// slot first if the key was never touched. Repeated calls with the same
    /// key reach the same slot.
    pub fn get_mut(&mut self, k: u32) -> (slot: &mut Option<CacheEntry>)
        ensures
            *slot == old(self).slot_spec(k),
            final(self).slot_spec(k) == *final(slot),
            forall|j: u32| j != k ==> #[trigger] final(self).slot_spec(j) == old(self).slot_spec(j),
            final(self).width() == if old(self).width() > k as nat + 1 {
                old(self).width()
            } else {
                k as nat + 1
            },
    {
        if self.slots.len() <= k as usize {
            while self.slots.len() <= k as usize
                invariant
                    self.slots@.len() <= k as nat + 1,
                    old(self).width() <= self.slots@.len(),
                    forall|j: int|
                        0 <= j < old(self).slots_view().len() ==> self.slots@[j] == old(
                            self,
                        ).slots_view()[j],
                    forall|j: int|
                        old(self).slots_view().len() <= j < self.slots@.len() ==> self.slots@[j]
                            is None,
                decreases k as int + 1 - self.slots@.len(),
            {
                self.slots.push(None);
            }
        }
        proof {
            assert(self.slot_spec(k) == old(self).slot_spec(k));
            assert(forall|j: u32|
                j != k ==> #[trigger] self.slot_spec(j) == old(self).slot_spec(j));
        }
        &mut self.slots[k as usize]
    }

    /// A mutable borrow of the whole slot array.
    pub fn inner(&mut self) -> (slots: &mut Vec<Option<CacheEntry>>)
        ensures
            (*slots)@ == old(self).slots_view(),
            final(self).slots_view() == (*final(slots))@,
    {
        &mut self.slots
    }
}

impl Default for StableMap {
    /// A container with no slots.
    fn default() -> (r: Self)
        ensures
            r.width() == 0,
            forall|k: u32| #[trigger] r.slot_spec(k) is None,
    {
        StableMap::new()
    }
}

} // verus!
