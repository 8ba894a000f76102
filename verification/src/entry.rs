//! A single cache slot's state machine.

use vstd::prelude::*;

verus! {

/// Whether a cached slot agrees with the backing store (`Cached`) or has
/// diverged from it and must be reconciled by a flush (`Modified`).
#[derive(Clone, Copy)]
pub enum EntryState {
    Cached,
    Modified,
}

/// One cached slot: the value currently held for a key (`None` meaning the
/// key holds no element) and whether that value has diverged from the store.
#[derive(Clone, Copy)]
pub struct CacheEntry {
    value: Option<u64>,
    state: EntryState,
}

impl CacheEntry {
    /// The value this slot currently holds.
    pub closed spec fn spec_value(&self) -> Option<u64> {
        self.value
    }

    /// Whether this slot has diverged from the store.
    pub closed spec fn spec_is_modified(&self) -> bool {
        self.state is Modified
    }

    /// A slot that agrees with the store; used after a load (a load that
    /// found nothing is represented as `value == None`).
    pub fn new_cached(value: Option<u64>) -> (r: Self)
        ensures
            r.spec_value() == value,
            !r.spec_is_modified(),
    {
        CacheEntry { value, state: EntryState::Cached }
    }

    /// A slot that has diverged from the store; used for writes to keys that
    /// were never loaded.
    pub fn new_modified(value: Option<u64>) -> (r: Self)
        ensures
            r.spec_value() == value,
            r.spec_is_modified(),
    {
        CacheEntry { value, state: EntryState::Modified }
    }

    /// Reads the held value without changing the slot.
    pub fn value(&self) -> (r: Option<u64>)
        ensures
            r == self.spec_value(),
    {
        self.value
    }

    /// A mutable borrow of the held value. Mutating through it does not by
    /// itself mark the slot as diverged; callers that need the change to
    /// persist must mark the slot, or use [`Self::replace`].
    pub fn value_mut(&mut self) -> (r: &mut Option<u64>)
        ensures
            *r == old(self).spec_value(),
            final(self).spec_value() == *final(r),
            final(self).spec_is_modified() == old(self).spec_is_modified(),
    {
        &mut self.value
    }

    /// Swaps in a new value, marks the slot as diverged, and returns the
    /// prior value.
    pub fn replace(&mut self, value: Option<u64>) -> (r: Option<u64>)
        ensures
            r == old(self).spec_value(),
            final(self).spec_value() == value,
            final(self).spec_is_modified(),
    {
        let prior = self.value;
        self.value = value;
        self.state = EntryState::Modified;
        prior
    }

    /// Whether a flush must reconcile this slot against the store.
    pub fn is_modified(&self) -> (r: bool)
        ensures
            r == self.spec_is_modified(),
    {
        match self.state {
            EntryState::Modified => true,
            EntryState::Cached => false,
        }
    }

    /// Records that a flush reconciled this slot: it agrees with the store
    /// again, and the value stays cached in memory.
    pub fn mark_flushed(&mut self)
        ensures
            final(self).spec_value() == old(self).spec_value(),
            !final(self).spec_is_modified(),
    {
        self.state = EntryState::Cached;
    }
}

} // verus!
