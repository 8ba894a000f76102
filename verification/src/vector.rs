//! The indexable sequence collection over the key-value store.
//!
//! Reads load store values into the cache at most once per index; mutations
//! only mark cache slots and are written back by [`Vector::flush`], which must
//! run before the collection's lifetime ends for mutations to persist.
//!
//! Every mutation goes through an operation that marks the touched slot —
//! [`Vector::set`], [`Vector::push`], [`Vector::pop`], [`Vector::replace`],
//! [`Vector::swap_remove`] — so no change can be dropped silently at flush
//! time; the collection hands out no plain mutable borrow whose writes would
//! go untracked.

use vstd::prelude::*;

use crate::codec::decoded;
use crate::codec::deserialize_element;
use crate::codec::key_of;
use crate::codec::lemma_encode_decode;
use crate::codec::lemma_key_of_injective;
use crate::codec::serialize_element;
use crate::entry::CacheEntry;
use crate::stable_map::StableMap;
use crate::store::Store;

verus! {

/// The conditions under which an operation is rejected.
#[derive(Clone, Copy, Debug, PartialEq, Eq, Structural)]
pub enum Error {
    /// An index at or past the collection's length was used for a mutation,
    /// or a mutation was asked of an empty collection.
    IndexOutOfBounds,
    /// A push was asked of a collection already at the largest representable
    /// length.
    CapacityExceeded,
}

/// Unwraps a value that the collection's invariant guarantees to be present.
/// An absent value would mean a prior execution left the store in a state the
/// in-memory model did not expect.
pub fn expect_consistent_state<T>(val: Option<T>) -> (r: T)
    requires
        val is Some,
    ensures
        val == Some(r),
{
    match val {
        Some(v) => v,
        None => vstd::pervasive::unreached(),
    }
}

/// Every value the store holds under an index key of `prefix` is a valid
/// element encoding.
pub open spec fn prefix_keys_ok(prefix: Seq<u8>, store: Map<Seq<u8>, Seq<u8>>) -> bool {
    forall|i: u32|
        store.contains_key(#[trigger] key_of(prefix, i)) ==> store[key_of(prefix, i)].len() == 8
}

/// Whether `k` is the store key of some index under `prefix`.
pub open spec fn is_index_key(prefix: Seq<u8>, k: Seq<u8>) -> bool {
    exists|i: u32| k == key_of(prefix, i)
}

/// The indexable collection: a length, a key-namespace prefix, and a
/// write-back cache of slots.
pub struct Vector {
    len: u32,
    prefix: Vec<u8>,
    cache: StableMap,
}

impl Vector {
    /// The number of logical elements.
    pub closed spec fn spec_len(&self) -> u32 {
        self.len
    }

    /// The key prefix that namespaces this collection in the shared store.
    pub closed spec fn spec_prefix(&self) -> Seq<u8> {
        self.prefix@
    }

    /// What index `i` holds, reading through the cache: the cached value if
    /// the slot was touched, otherwise whatever the store holds.
    pub closed spec fn slot_view(&self, store: Map<Seq<u8>, Seq<u8>>, i: u32) -> Option<u64> {
        match self.cache.slot_spec(i) {
            Some(e) => e.spec_value(),
            None => {
                if store.contains_key(key_of(self.prefix@, i)) {
                    Some(decoded(store[key_of(self.prefix@, i)]))
                } else {
                    None
                }
            },
        }
    }

    /// The slot at `i`, if cached and not marked diverged, agrees with what
    /// the store holds under the key of `i`.
    pub closed spec fn entry_ok(&self, store: Map<Seq<u8>, Seq<u8>>, i: u32) -> bool {
        match self.cache.slot_spec(i) {
            Some(e) => e.spec_is_modified() || ((e.spec_value() is Some <==> store.contains_key(
                key_of(self.prefix@, i),
            )) && (e.spec_value() matches Some(v) ==> decoded(store[key_of(self.prefix@, i)])
                == v)),
            None => true,
        }
    }

    /// Cache slots not marked as diverged agree with the store, and the slot
    /// array stays indexable by `u32`.
    pub closed spec fn cache_ok(&self, store: Map<Seq<u8>, Seq<u8>>) -> bool {
        &&& self.cache.width() <= u32::MAX as nat + 1
        &&& forall|i: u32| #[trigger] self.entry_ok(store, i)
    }

    /// The slot at `i` is either untouched or not diverged.
    pub closed spec fn slot_clean(&self, i: u32) -> bool {
        match self.cache.slot_spec(i) {
            Some(e) => !e.spec_is_modified(),
            None => true,
        }
    }

    /// Every index below the length holds a value.
    pub closed spec fn complete(&self, store: Map<Seq<u8>, Seq<u8>>) -> bool {
        forall|i: u32| i < self.len ==> (#[trigger] self.slot_view(store, i)) is Some
    }

    /// The collection's invariant relative to the store it lives over.
    pub closed spec fn wf(&self, store: Map<Seq<u8>, Seq<u8>>) -> bool {
        &&& prefix_keys_ok(self.prefix@, store)
        &&& self.cache_ok(store)
        &&& self.complete(store)
    }

    /// The abstract sequence this collection holds over `store`.
    pub closed spec fn view_in(&self, store: Map<Seq<u8>, Seq<u8>>) -> Seq<u64> {
        Seq::new(self.len as nat, |i: int| self.slot_view(store, i as u32).unwrap())
    }

    /// No cache slot is diverged from the store: a flush would write nothing.
    pub closed spec fn all_flushed(&self) -> bool {
        forall|i: u32| #[trigger] self.slot_clean(i)
    }

    /// Create a new collection with zero elements under `prefix`, which must
    /// be unique per logical collection among users of the same store: no
    /// index key of `prefix` may be bound yet.
    pub fn new(prefix: Vec<u8>, store: &Store) -> (r: Self)
        requires
            forall|i: u32| !store@.contains_key(#[trigger] key_of(prefix@, i)),
        ensures
            r.wf(store@),
            r.spec_len() == 0,
            r.spec_prefix() == prefix@,
            r.all_flushed(),
            r.view_in(store@) == Seq::<u64>::empty(),
    {
        let r = Vector { len: 0, prefix, cache: StableMap::new() };
        proof {
            assert(r.view_in(store@) =~= Seq::<u64>::empty());
        }
        r
    }

    /// Take up a collection of `len` elements that an earlier, fully flushed
    /// instance left in the store under `prefix`.
    pub fn reopen(len: u32, prefix: Vec<u8>, store: &Store) -> (r: Self)
        requires
            prefix_keys_ok(prefix@, store@),
            forall|i: u32| i < len ==> store@.contains_key(#[trigger] key_of(prefix@, i)),
        ensures
            r.wf(store@),
            r.spec_len() == len,
            r.spec_prefix() == prefix@,
            r.all_flushed(),
            forall|i: u32|
                i < len ==> r.view_in(store@)[i as int] == decoded(
                    store@[#[trigger] key_of(prefix@, i)],
                ),
    {
        let r = Vector { len, prefix, cache: StableMap::new() };
        r
    }

    /// The number of elements in the collection, also referred to as its
    /// size.
    pub fn len(&self) -> (r: u32)
        ensures
            r == self.spec_len(),
    {
        self.len
    }

    /// Whether the collection contains no elements.
    pub fn is_empty(&self) -> (r: bool)
        ensures
            r == (self.spec_len() == 0),
    {
        self.len == 0
    }

    /// A copy of the key prefix this collection was created under.
    pub fn prefix(&self) -> (r: Vec<u8>)
        ensures
            r@ == self.spec_prefix(),
    {
        let mut r: Vec<u8> = Vec::new();
        r.extend_from_slice(self.prefix.as_slice());
        r
    }

    /// The store key of an index: the prefix followed by the index's
    /// little-endian bytes.
    fn index_to_lookup_key(&self, index: u32) -> (r: Vec<u8>)
        ensures
            r@ == key_of(self.prefix@, index),
    {
        let mut key: Vec<u8> = Vec::new();
        key.extend_from_slice(self.prefix.as_slice());
        key.push((index & 0xff) as u8);
        key.push(((index >> 8) & 0xff) as u8);
        key.push(((index >> 16) & 0xff) as u8);
        key.push(((index >> 24) & 0xff) as u8);
        proof {
            assert(index >> 0 == index) by (bit_vector);
            assert(key@ =~= key_of(self.prefix@, index));
        }
        key
    }

    /// Ensures the slot at `index` is cached, loading it from the store if it
    /// was never touched. The loader runs at most once per index: an existing
    /// slot is returned as it is.
    fn load_slot(&mut self, store: &Store, index: u32)
        requires
            store.wf(),
            prefix_keys_ok(old(self).prefix@, store@),
            old(self).cache_ok(store@),
        ensures
            final(self).len == old(self).len,
            final(self).prefix@ == old(self).prefix@,
            final(self).cache_ok(store@),
            forall|j: u32|
                #[trigger] final(self).slot_view(store@, j) == old(self).slot_view(store@, j),
            forall|j: u32|
                j != index ==> #[trigger] final(self).cache.slot_spec(j) == old(
                    self,
                ).cache.slot_spec(j),
            final(self).cache.slot_spec(index) matches Some(e) && e.spec_value() == old(
                self,
            ).slot_view(store@, index) && e.spec_is_modified() == (old(self).cache.slot_spec(index)
                matches Some(e0) && e0.spec_is_modified()),
    {
        let key = self.index_to_lookup_key(index);
        let slot = self.cache.get_mut(index);
        match slot {
            Some(_) => {},
            None => {
                let value = match store.read(&key) {
                    Some(bytes) => {
                        let v = deserialize_element(&bytes);
                        Some(expect_consistent_state(v))
                    },
                    None => { None },
                };
                *slot = Some(CacheEntry::new_cached(value));
            },
        }
        proof {
            assert forall|j: u32| #[trigger] self.slot_view(store@, j) == old(self).slot_view(
                store@,
                j,
            ) by {
                if j != index {
                    assert(self.cache.slot_spec(j) == old(self).cache.slot_spec(j));
                }
            }
            assert forall|i: u32| #[trigger] self.entry_ok(store@, i) by {
                if i != index {
                    assert(self.cache.slot_spec(i) == old(self).cache.slot_spec(i));
                    assert(old(self).entry_ok(store@, i));
                }
            }
        }
    }

    /// Overwrites the slot at `index` with a value and marks it diverged,
    /// creating the slot without a load when it was never touched.
    fn write_slot(&mut self, index: u32, value: u64)
        requires
            old(self).cache.width() <= u32::MAX as nat + 1,
        ensures
            final(self).len == old(self).len,
            final(self).prefix@ == old(self).prefix@,
            final(self).cache.width() <= u32::MAX as nat + 1,
            forall|j: u32|
                j != index ==> #[trigger] final(self).cache.slot_spec(j) == old(
                    self,
                ).cache.slot_spec(j),
            final(self).cache.slot_spec(index) matches Some(e) && e.spec_value() == Some(value)
                && e.spec_is_modified(),
    {
        let slot = self.cache.get_mut(index);
        match slot {
            Some(e) => {
                let _ = e.replace(Some(value));
            },
            None => {
                *slot = Some(CacheEntry::new_modified(Some(value)));
            },
        }
    }

    /// Returns the element at `index`, or nothing when `index` is at or past
    /// the length. The first read of an index loads it from the store; later
    /// reads are served from the cache.
    pub fn get(&mut self, store: &Store, index: u32) -> (r: Option<u64>)
        requires
            store.wf(),
            old(self).wf(store@),
        ensures
            final(self).wf(store@),
            final(self).spec_len() == old(self).spec_len(),
            final(self).spec_prefix() == old(self).spec_prefix(),
            final(self).view_in(store@) == old(self).view_in(store@),
            old(self).all_flushed() ==> final(self).all_flushed(),
            index < old(self).spec_len() ==> r == Some(old(self).view_in(store@)[index as int]),
            index >= old(self).spec_len() ==> r is None,
    {
        if index >= self.len {
            return None;
        }
        self.load_slot(store, index);
        let slot = self.cache.slot(index);
        let entry = expect_consistent_state(slot);
        let r = entry.value();
        proof {
            assert(old(self).slot_view(store@, index) is Some);
            assert(self.view_in(store@) =~= old(self).view_in(store@));
            assert(old(self).view_in(store@)[index as int] == old(self).slot_view(
                store@,
                index,
            ).unwrap());
            if old(self).all_flushed() {
                assert forall|i: u32| #[trigger] self.slot_clean(i) by {
                    if i != index {
                        assert(self.cache.slot_spec(i) == old(self).cache.slot_spec(i));
                        assert(old(self).slot_clean(i));
                    } else {
                        assert(old(self).slot_clean(index));
                    }
                }
            }
        }
        r
    }

    /// Sets the value at `index`, which must be below the length. Values
    /// after `index` do not shift. The slot is marked diverged; when the slot
    /// was never touched, no load happens, since the stored value is about to
    /// be overwritten anyway.
    pub fn set(&mut self, store: &Store, index: u32, value: u64) -> (r: Result<(), Error>)
        requires
            store.wf(),
            old(self).wf(store@),
        ensures
            final(self).spec_len() == old(self).spec_len(),
            final(self).spec_prefix() == old(self).spec_prefix(),
            index < old(self).spec_len() ==> {
                &&& r is Ok
                &&& final(self).wf(store@)
                &&& final(self).view_in(store@) == old(self).view_in(store@).update(
                    index as int,
                    value,
                )
            },
            index >= old(self).spec_len() ==> r == Err::<(), Error>(Error::IndexOutOfBounds)
                && *final(self) == *old(self),
    {
        if index >= self.len {
            return Err(Error::IndexOutOfBounds);
        }
        self.write_slot(index, value);
        proof {
            self.lemma_local_update(old(self), store@, index);
            assert(self.view_in(store@) =~= old(self).view_in(store@).update(index as int, value));
        }
        Ok(())
    }

    /// After an update of the single slot `index` against `pre`, the cache
    /// consistency clause carries over, and every other index keeps its
    /// value.
    proof fn lemma_cache_update(&self, pre: &Self, store: Map<Seq<u8>, Seq<u8>>, index: u32)
        requires
            pre.cache_ok(store),
            self.prefix@ == pre.prefix@,
            self.cache.width() <= u32::MAX as nat + 1,
            forall|j: u32|
                j != index ==> #[trigger] self.cache.slot_spec(j) == pre.cache.slot_spec(j),
            self.entry_ok(store, index),
        ensures
            self.cache_ok(store),
            forall|j: u32|
                j != index ==> #[trigger] self.slot_view(store, j) == pre.slot_view(store, j),
    {
        assert forall|j: u32|
            j != index implies #[trigger] self.slot_view(store, j) == pre.slot_view(store, j) by {
            assert(self.cache.slot_spec(j) == pre.cache.slot_spec(j));
        }
        assert forall|i: u32| #[trigger] self.entry_ok(store, i) by {
            if i != index {
                assert(self.cache.slot_spec(i) == pre.cache.slot_spec(i));
                assert(pre.entry_ok(store, i));
            }
        }
    }

    /// After an update of the single slot `index` against `pre`, the
    /// invariant's pointwise clauses carry over to every other index.
    proof fn lemma_local_update(&self, pre: &Self, store: Map<Seq<u8>, Seq<u8>>, index: u32)
        requires
            pre.wf(store),
            self.len == pre.len || (self.len == pre.len + 1 && index == pre.len) || (pre.len
                == self.len + 1 && index == self.len),
            self.prefix@ == pre.prefix@,
            self.cache.width() <= u32::MAX as nat + 1,
            forall|j: u32|
                j != index ==> #[trigger] self.cache.slot_spec(j) == pre.cache.slot_spec(j),
            self.entry_ok(store, index),
            self.slot_view(store, index) is Some || self.len <= index,
        ensures
            self.cache_ok(store),
            self.complete(store),
            forall|j: u32|
                j != index ==> #[trigger] self.slot_view(store, j) == pre.slot_view(store, j),
    {
        self.lemma_cache_update(pre, store, index);
        assert forall|i: u32| i < self.len implies (#[trigger] self.slot_view(store, i))
            is Some by {
            if i != index {
                assert(self.slot_view(store, i) == pre.slot_view(store, i));
            }
        }
    }

    /// Appends an element at the back of the collection.
    pub fn push(&mut self, store: &Store, value: u64) -> (r: Result<(), Error>)
        requires
            store.wf(),
            old(self).wf(store@),
        ensures
            final(self).spec_prefix() == old(self).spec_prefix(),
            old(self).spec_len() < u32::MAX ==> {
                &&& r is Ok
                &&& final(self).wf(store@)
                &&& final(self).spec_len() == old(self).spec_len() + 1
                &&& final(self).view_in(store@) == old(self).view_in(store@).push(value)
            },
            old(self).spec_len() == u32::MAX ==> r == Err::<(), Error>(Error::CapacityExceeded)
                && *final(self) == *old(self),
    {
        if self.len == u32::MAX {
            return Err(Error::CapacityExceeded);
        }
        let last = self.len;
        self.write_slot(last, value);
        self.len = last + 1;
        proof {
            self.lemma_local_update(old(self), store@, last);
            assert(self.view_in(store@) =~= old(self).view_in(store@).push(value));
        }
        Ok(())
    }

    /// Removes the last element and returns it, or nothing when the
    /// collection is empty. The slot's value is replaced by an absence marked
    /// diverged, so a flush removes the store key.
    pub fn pop(&mut self, store: &Store) -> (r: Option<u64>)
        requires
            store.wf(),
            old(self).wf(store@),
        ensures
            final(self).spec_prefix() == old(self).spec_prefix(),
            old(self).spec_len() == 0 ==> r is None && *final(self) == *old(self),
            old(self).spec_len() > 0 ==> {
                &&& final(self).wf(store@)
                &&& final(self).spec_len() == old(self).spec_len() - 1
                &&& r == Some(old(self).view_in(store@).last())
                &&& final(self).view_in(store@) == old(self).view_in(store@).drop_last()
                &&& final(self).slot_view(store@, (old(self).spec_len() - 1) as u32) is None
            },
    {
        if self.len == 0 {
            return None;
        }
        let last = self.len - 1;
        self.load_slot(store, last);
        self.len = last;
        let slot = self.cache.get_mut(last);
        let r = match slot {
            Some(e) => e.replace(None),
            None => vstd::pervasive::unreached(),
        };
        proof {
            self.lemma_local_update(old(self), store@, last);
            assert(old(self).slot_view(store@, last) is Some);
            assert(r == Some(old(self).view_in(store@)[last as int]));
            assert(self.view_in(store@) =~= old(self).view_in(store@).drop_last());
        }
        r
    }

    /// Exchanges the values at `a` and `b`, both below the length, marking
    /// both slots diverged. Touches the store only for lazy loads of the two
    /// slots.
    fn swap(&mut self, store: &Store, a: u32, b: u32)
        requires
            store.wf(),
            old(self).wf(store@),
            a < old(self).spec_len(),
            b < old(self).spec_len(),
        ensures
            final(self).wf(store@),
            final(self).spec_len() == old(self).spec_len(),
            final(self).spec_prefix() == old(self).spec_prefix(),
            final(self).view_in(store@) == old(self).view_in(store@).update(
                a as int,
                old(self).view_in(store@)[b as int],
            ).update(b as int, old(self).view_in(store@)[a as int]),
    {
        if a == b {
            proof {
                assert(self.view_in(store@) =~= old(self).view_in(store@).update(
                    a as int,
                    old(self).view_in(store@)[b as int],
                ).update(b as int, old(self).view_in(store@)[a as int]));
            }
            return;
        }
        self.load_slot(store, a);
        let ghost s1 = *self;
        let slot_a = self.cache.get_mut(a);
        let val_a = match slot_a {
            Some(e) => e.replace(None),
            None => vstd::pervasive::unreached(),
        };
        proof {
            self.lemma_cache_update(&s1, store@, a);
        }
        let ghost s2 = *self;
        self.load_slot(store, b);
        let ghost s3 = *self;
        let slot_b = self.cache.get_mut(b);
        let val_b = match slot_b {
            Some(e) => e.replace(val_a),
            None => vstd::pervasive::unreached(),
        };
        proof {
            self.lemma_cache_update(&s3, store@, b);
        }
        let ghost s4 = *self;
        let slot_a2 = self.cache.get_mut(a);
        let _ = match slot_a2 {
            Some(e) => e.replace(val_b),
            None => vstd::pervasive::unreached(),
        };
        proof {
            self.lemma_cache_update(&s4, store@, a);
            let pre = old(self).view_in(store@);
            assert(s1.slot_view(store@, a) == old(self).slot_view(store@, a));
            assert(val_a == Some(pre[a as int]));
            assert(s3.slot_view(store@, b) == s2.slot_view(store@, b));
            assert(s2.slot_view(store@, b) == s1.slot_view(store@, b));
            assert(s1.slot_view(store@, b) == old(self).slot_view(store@, b));
            assert(val_b == Some(pre[b as int]));
            assert(self.slot_view(store@, b) == s4.slot_view(store@, b));
            assert(self.slot_view(store@, b) == val_a);
            assert(self.slot_view(store@, a) == val_b);
            assert forall|i: u32| i != a && i != b implies #[trigger] self.slot_view(store@, i)
                == old(self).slot_view(store@, i) by {
                assert(self.slot_view(store@, i) == s4.slot_view(store@, i));
                assert(s4.slot_view(store@, i) == s3.slot_view(store@, i));
                assert(s3.slot_view(store@, i) == s2.slot_view(store@, i));
                assert(s2.slot_view(store@, i) == s1.slot_view(store@, i));
                assert(s1.slot_view(store@, i) == old(self).slot_view(store@, i));
            }
            assert forall|i: u32| i < self.len implies (#[trigger] self.slot_view(store@, i))
                is Some by {
                if i != a && i != b {
                    assert(self.slot_view(store@, i) == old(self).slot_view(store@, i));
                }
            }
            assert(self.view_in(store@) =~= pre.update(a as int, pre[b as int]).update(
                b as int,
                pre[a as int],
            ));
        }
    }

    /// Removes the element at `index` and returns it; the former last element
    /// moves into its place, so the order of the other elements is kept but
    /// the removed position is filled out of order.
    pub fn swap_remove(&mut self, store: &Store, index: u32) -> (r: Result<u64, Error>)
        requires
            store.wf(),
            old(self).wf(store@),
        ensures
            final(self).spec_prefix() == old(self).spec_prefix(),
            index < old(self).spec_len() ==> {
                &&& final(self).wf(store@)
                &&& final(self).spec_len() == old(self).spec_len() - 1
                &&& r == Ok::<u64, Error>(old(self).view_in(store@)[index as int])
                &&& final(self).view_in(store@) == old(self).view_in(store@).update(
                    index as int,
                    old(self).view_in(store@).last(),
                ).drop_last()
            },
            index >= old(self).spec_len() ==> r == Err::<u64, Error>(Error::IndexOutOfBounds)
                && *final(self) == *old(self),
    {
        if self.is_empty() || index >= self.len {
            return Err(Error::IndexOutOfBounds);
        }
        let last = self.len - 1;
        self.swap(store, index, last);
        let popped = self.pop(store);
        let value = expect_consistent_state(popped);
        proof {
            let pre = old(self).view_in(store@);
            let swapped = pre.update(index as int, pre[last as int]).update(
                last as int,
                pre[index as int],
            );
            assert(value == pre[index as int]);
            assert(self.view_in(store@) =~= pre.update(index as int, pre.last()).drop_last());
        }
        Ok(value)
    }

    /// Puts a new value at `index`, which must be below the length, and
    /// returns the value it evicts.
    pub fn replace(&mut self, store: &Store, index: u32, value: u64) -> (r: Result<u64, Error>)
        requires
            store.wf(),
            old(self).wf(store@),
        ensures
            final(self).spec_prefix() == old(self).spec_prefix(),
            index < old(self).spec_len() ==> {
                &&& final(self).wf(store@)
                &&& final(self).spec_len() == old(self).spec_len()
                &&& r == Ok::<u64, Error>(old(self).view_in(store@)[index as int])
                &&& final(self).view_in(store@) == old(self).view_in(store@).update(
                    index as int,
                    value,
                )
            },
            index >= old(self).spec_len() ==> r == Err::<u64, Error>(Error::IndexOutOfBounds)
                && *final(self) == *old(self),
    {
        if index >= self.len {
            return Err(Error::IndexOutOfBounds);
        }
        self.load_slot(store, index);
        let ghost mid = *self;
        let slot = self.cache.get_mut(index);
        let prior = match slot {
            Some(e) => e.replace(Some(value)),
            None => vstd::pervasive::unreached(),
        };
        proof {
            self.lemma_local_update(&mid, store@, index);
            assert(old(self).slot_view(store@, index) is Some);
        }
        let evicted = expect_consistent_state(prior);
        proof {
            assert(evicted == old(self).view_in(store@)[index as int]);
            assert(self.view_in(store@) =~= old(self).view_in(store@).update(index as int, value));
        }
        Ok(evicted)
    }

    /// Removes all elements: every key below the length is deleted from the
    /// store directly, the length is reset, and all cached slots are dropped
    /// without being flushed, since they no longer mean anything.
    #[verifier::loop_isolation(false)]
    pub fn clear(&mut self, store: &mut Store)
        requires
            old(store).wf(),
            old(self).wf(old(store)@),
        ensures
            final(store).wf(),
            final(self).wf(final(store)@),
            final(self).spec_len() == 0,
            final(self).spec_prefix() == old(self).spec_prefix(),
            final(self).view_in(final(store)@) == Seq::<u64>::empty(),
            final(self).all_flushed(),
            forall|j: u32|
                j < old(self).spec_len() ==> !final(store)@.contains_key(
                    #[trigger] key_of(old(self).spec_prefix(), j),
                ),
            forall|k: Seq<u8>|
                #[trigger] final(store)@.contains_key(k) ==> (old(store)@.contains_key(k)
                    && final(store)@[k] == old(store)@[k]),
            forall|k: Seq<u8>|
                old(store)@.contains_key(k) && !(#[trigger] final(store)@.contains_key(k))
                    ==> exists|j: u32|
                    j < old(self).spec_len() && k == key_of(old(self).spec_prefix(), j),
    {
        let n = self.len;
        let mut i: u32 = 0;
        while i < n
            invariant
                i <= n,
                store.wf(),
                forall|j: u32|
                    j < i ==> !store@.contains_key(#[trigger] key_of(self.prefix@, j)),
                forall|k: Seq<u8>|
                    #[trigger] store@.contains_key(k) ==> old(store)@.contains_key(k) && store@[k]
                        == old(store)@[k],
                forall|k: Seq<u8>|
                    old(store)@.contains_key(k) && !(#[trigger] store@.contains_key(k)) ==> exists|
                        j: u32,
                    | j < i && k == key_of(self.prefix@, j),
            decreases n - i,
        {
            let key = self.index_to_lookup_key(i);
            store.remove(&key);
            proof {
                assert forall|k: Seq<u8>|
                    old(store)@.contains_key(k) && !(#[trigger] store@.contains_key(k)) implies
                exists|j: u32| j < i + 1 && k == key_of(self.prefix@, j) by {
                    if k == key_of(self.prefix@, i) {
                        assert(i < i + 1 && k == key_of(self.prefix@, i));
                    }
                }
            }
            i += 1;
        }
        self.len = 0;
        self.cache.inner().clear();
        proof {
            assert forall|j: u32| #[trigger] self.cache.slot_spec(j) is None by {}
            assert forall|i2: u32| #[trigger] self.entry_ok(store@, i2) by {}
            assert forall|i2: u32| #[trigger] self.slot_clean(i2) by {}
            assert forall|i2: u32|
                store@.contains_key(#[trigger] key_of(self.prefix@, i2)) implies store@[key_of(
                self.prefix@,
                i2,
            )].len() == 8 by {
                assert(old(store)@.contains_key(key_of(self.prefix@, i2)));
            }
            assert(self.view_in(store@) =~= Seq::<u64>::empty());
        }
    }

    /// Writes every diverged slot back to the store: a present value is
    /// serialized and written under the slot's key, an absent one has the key
    /// removed. Reconciled slots are marked as agreeing again, so a second
    /// flush with no mutation in between changes nothing. Call this before
    /// the collection's lifetime ends; nothing else persists mutations.
    #[verifier::loop_isolation(false)]
    pub fn flush(&mut self, store: &mut Store)
        requires
            old(store).wf(),
            old(self).wf(old(store)@),
        ensures
            final(store).wf(),
            final(self).wf(final(store)@),
            final(self).spec_len() == old(self).spec_len(),
            final(self).spec_prefix() == old(self).spec_prefix(),
            final(self).view_in(final(store)@) == old(self).view_in(old(store)@),
            final(self).all_flushed(),
            forall|i: u32|
                i < old(self).spec_len() ==> final(store)@.contains_key(
                    #[trigger] key_of(old(self).spec_prefix(), i),
                ) && decoded(final(store)@[key_of(old(self).spec_prefix(), i)]) == old(
                    self,
                ).view_in(old(store)@)[i as int],
            forall|i: u32|
                final(store)@.contains_key(#[trigger] key_of(old(self).spec_prefix(), i)) == (old(
                    self,
                ).slot_view(old(store)@, i) is Some),
            forall|k: Seq<u8>|
                !is_index_key(old(self).spec_prefix(), k)
                    ==> #[trigger] final(store)@.contains_key(k) == old(store)@.contains_key(k),
            forall|k: Seq<u8>|
                !is_index_key(old(self).spec_prefix(), k) && old(store)@.contains_key(k)
                    ==> #[trigger] final(store)@[k] == old(store)@[k],
            old(self).all_flushed() ==> (*final(self) == *old(self) && final(store)@ == old(
                store,
            )@),
    {
        let n = self.cache.slot_count();
        let mut i: usize = 0;
        while i < n
            invariant
                i <= n,
                n == self.cache.width(),
                self.len == old(self).len,
                self.prefix@ == old(self).prefix@,
                store.wf(),
                prefix_keys_ok(self.prefix@, store@),
                self.cache_ok(store@),
                forall|j: u32|
                    #[trigger] self.slot_view(store@, j) == old(self).slot_view(old(store)@, j),
                forall|j: u32| (j as nat) < i ==> #[trigger] self.slot_clean(j),
                forall|j: u32|
                    (j as nat) >= i ==> #[trigger] self.cache.slot_spec(j) == old(
                        self,
                    ).cache.slot_spec(j),
                forall|j: u32|
                    ((#[trigger] self.cache.slot_spec(j)) is Some) == (old(self).cache.slot_spec(j)
                        is Some),
                forall|j: u32|
                    self.cache.slot_spec(j) is None ==> store@.contains_key(
                        #[trigger] key_of(self.prefix@, j),
                    ) == old(store)@.contains_key(key_of(self.prefix@, j)),
                forall|k: Seq<u8>|
                    !is_index_key(self.prefix@, k) ==> #[trigger] store@.contains_key(k) == old(
                        store,
                    )@.contains_key(k),
                forall|k: Seq<u8>|
                    !is_index_key(self.prefix@, k) && old(store)@.contains_key(k)
                        ==> #[trigger] store@[k] == old(store)@[k],
                old(self).all_flushed() ==> *self == *old(self) && store@ == old(store)@,
            decreases n - i,
        {
            let idx = i as u32;
            let ghost pre_self = *self;
            let ghost pre_store = store@;
            let entry_opt = self.cache.slot(idx);
            if let Some(e) = entry_opt {
                if e.is_modified() {
                    proof {
                        if old(self).all_flushed() {
                            assert(old(self).slot_clean(idx));
                            assert(false);
                        }
                    }
                    let key = self.index_to_lookup_key(idx);
                    match e.value() {
                        Some(v) => {
                            let bytes = serialize_element(v);
                            store.write(&key, &bytes);
                            proof {
                                lemma_encode_decode(v);
                            }
                        },
                        None => {
                            store.remove(&key);
                        },
                    }
                    let slot = self.cache.get_mut(idx);
                    match slot {
                        Some(e2) => e2.mark_flushed(),
                        None => vstd::pervasive::unreached(),
                    }
                    proof {
                        assert forall|j: u32|
                            j != idx implies #[trigger] self.cache.slot_spec(j)
                            == pre_self.cache.slot_spec(j) by {}
                        assert forall|i2: u32|
                            store@.contains_key(#[trigger] key_of(self.prefix@, i2)) implies
                        store@[key_of(self.prefix@, i2)].len() == 8 by {
                            if key_of(self.prefix@, i2) == key_of(self.prefix@, idx) {
                            } else {
                                assert(pre_store.contains_key(key_of(self.prefix@, i2))
                                    == store@.contains_key(key_of(self.prefix@, i2)));
                            }
                        }
                        assert forall|i2: u32| #[trigger] self.entry_ok(store@, i2) by {
                            if i2 == idx {
                            } else {
                                if key_of(self.prefix@, i2) == key_of(self.prefix@, idx) {
                                    lemma_key_of_injective(self.prefix@, i2, idx);
                                }
                                assert(pre_self.entry_ok(pre_store, i2));
                            }
                        }
                        assert forall|j: u32| #[trigger] self.slot_view(store@, j) == old(
                            self,
                        ).slot_view(old(store)@, j) by {
                            if j != idx {
                                if key_of(self.prefix@, j) == key_of(self.prefix@, idx) {
                                    lemma_key_of_injective(self.prefix@, j, idx);
                                }
                                assert(self.slot_view(store@, j) == pre_self.slot_view(
                                    pre_store,
                                    j,
                                ));
                            }
                        }
                        assert forall|k: Seq<u8>|
                            !is_index_key(self.prefix@, k) implies #[trigger] store@.contains_key(
                            k,
                        ) == old(store)@.contains_key(k) by {
                            assert(key_of(self.prefix@, idx) == key_of(self.prefix@, idx));
                            assert(is_index_key(self.prefix@, key_of(self.prefix@, idx)));
                        }
                        assert forall|k: Seq<u8>|
                            !is_index_key(self.prefix@, k) && old(store)@.contains_key(k) implies
                        #[trigger] store@[k] == old(store)@[k] by {
                            assert(is_index_key(self.prefix@, key_of(self.prefix@, idx)));
                        }
                        assert forall|j: u32| self.cache.slot_spec(j) is None implies
                        store@.contains_key(#[trigger] key_of(self.prefix@, j)) == old(
                            store,
                        )@.contains_key(key_of(self.prefix@, j)) by {
                            assert(self.cache.slot_spec(j) == pre_self.cache.slot_spec(j));
                            if key_of(self.prefix@, j) == key_of(self.prefix@, idx) {
                                lemma_key_of_injective(self.prefix@, j, idx);
                            }
                            assert(store@.contains_key(key_of(self.prefix@, j))
                                == pre_store.contains_key(key_of(self.prefix@, j)));
                        }
                    }
                }
            }
            proof {
                assert forall|j: u32| (j as nat) < i + 1 implies #[trigger] self.slot_clean(j) by {
                    if j != idx {
                        assert(self.cache.slot_spec(j) == pre_self.cache.slot_spec(j));
                        assert(pre_self.slot_clean(j));
                    }
                }
            }
            i += 1;
        }
        proof {
            assert forall|j: u32| #[trigger] self.slot_clean(j) by {
                if (j as nat) >= n {
                    assert(self.cache.slot_spec(j) is None);
                }
            }
            assert forall|i2: u32| i2 < self.len implies (#[trigger] self.slot_view(store@, i2))
                is Some by {
                assert(self.slot_view(store@, i2) == old(self).slot_view(old(store)@, i2));
                assert(old(self).slot_view(old(store)@, i2) is Some);
            }
            assert(self.view_in(store@) =~= old(self).view_in(old(store)@));
            assert forall|i2: u32| i2 < old(self).spec_len() implies store@.contains_key(
                #[trigger] key_of(old(self).spec_prefix(), i2),
            ) && decoded(store@[key_of(old(self).spec_prefix(), i2)]) == old(self).view_in(
                old(store)@,
            )[i2 as int] by {
                assert(self.slot_view(store@, i2) == old(self).slot_view(old(store)@, i2));
                assert(self.slot_view(store@, i2) is Some);
                match self.cache.slot_spec(i2) {
                    Some(e) => {
                        assert(self.slot_clean(i2));
                        assert(self.entry_ok(store@, i2));
                    },
                    None => {},
                }
            }
            assert forall|i2: u32|
                store@.contains_key(#[trigger] key_of(old(self).spec_prefix(), i2)) == (old(
                    self,
                ).slot_view(old(store)@, i2) is Some) by {
                assert(self.slot_view(store@, i2) == old(self).slot_view(old(store)@, i2));
                match self.cache.slot_spec(i2) {
                    Some(e) => {
                        assert(self.slot_clean(i2));
                        assert(self.entry_ok(store@, i2));
                    },
                    None => {
                        assert(old(self).cache.slot_spec(i2) is None);
                    },
                }
            }
        }
    }

    /// Collects the elements in index order, loading any not yet cached. The
    /// result is a snapshot; the collection itself is unchanged.
    #[verifier::loop_isolation(false)]
    pub fn iter(&mut self, store: &Store) -> (r: Vec<u64>)
        requires
            store.wf(),
            old(self).wf(store@),
        ensures
            final(self).wf(store@),
            final(self).spec_len() == old(self).spec_len(),
            final(self).spec_prefix() == old(self).spec_prefix(),
            final(self).view_in(store@) == old(self).view_in(store@),
            r@ == old(self).view_in(store@),
    {
        let mut out: Vec<u64> = Vec::new();
        let n = self.len;
        let mut i: u32 = 0;
        while i < n
            invariant
                i <= n,
                self.wf(store@),
                self.len == old(self).len,
                self.prefix@ == old(self).prefix@,
                self.view_in(store@) == old(self).view_in(store@),
                out@.len() == i as nat,
                forall|j: int| 0 <= j < i ==> out@[j] == old(self).view_in(store@)[j],
            decreases n - i,
        {
            let v = self.get(store, i);
            let value = expect_consistent_state(v);
            out.push(value);
            i += 1;
        }
        proof {
            assert(out@ =~= old(self).view_in(store@));
        }
        out
    }

    /// Appends every value of `values` in order.
    #[verifier::loop_isolation(false)]
    pub fn extend(&mut self, store: &Store, values: &Vec<u64>) -> (r: Result<(), Error>)
        requires
            store.wf(),
            old(self).wf(store@),
        ensures
            final(self).spec_prefix() == old(self).spec_prefix(),
            old(self).spec_len() + values@.len() <= u32::MAX ==> {
                &&& r is Ok
                &&& final(self).wf(store@)
                &&& final(self).spec_len() == old(self).spec_len() + values@.len()
                &&& final(self).view_in(store@) == old(self).view_in(store@) + values@
            },
            old(self).spec_len() + values@.len() > u32::MAX ==> r == Err::<(), Error>(
                Error::CapacityExceeded,
            ) && *final(self) == *old(self),
    {
        if values.len() > (u32::MAX - self.len) as usize {
            return Err(Error::CapacityExceeded);
        }
        let n = values.len();
        let mut k: usize = 0;
        while k < n
            invariant
                k <= n,
                self.wf(store@),
                self.len as int == old(self).len + k,
                self.prefix@ == old(self).prefix@,
                self.view_in(store@) == old(self).view_in(store@) + values@.take(k as int),
            decreases n - k,
        {
            let ghost pre_view = self.view_in(store@);
            let res = self.push(store, values[k]);
            proof {
                assert(res is Ok);
                assert(self.view_in(store@) == pre_view.push(values@[k as int]));
                assert(values@.take(k as int).push(values@[k as int]) =~= values@.take(
                    k as int + 1,
                ));
                assert(self.view_in(store@) =~= old(self).view_in(store@) + values@.take(
                    k as int + 1,
                ));
            }
            k += 1;
        }
        proof {
            assert(values@.take(n as int) =~= values@);
            assert(self.view_in(store@) == old(self).view_in(store@) + values@);
        }
        Ok(())
    }
}

/// What remains on the sequence model after `k` pops.
pub open spec fn after_pops(vs: Seq<u64>, k: int) -> Seq<u64> {
    vs.take(vs.len() - k)
}

/// Law: values pushed in order come back out of `pop` in reverse order, and
/// once as many pops have run as there were pushes, nothing remains. `push`
/// appends to the sequence model and `pop` hands back the model's last
/// element and drops it, so after `k` pops of a collection holding `vs` the
/// next pop returns `vs[vs.len() - 1 - k]`.
pub proof fn lemma_push_pop_duality(vs: Seq<u64>, k: int)
    requires
        0 <= k < vs.len(),
    ensures
        after_pops(vs, 0) == vs,
        after_pops(vs, k).last() == vs[vs.len() - 1 - k],
        after_pops(vs, k).drop_last() == after_pops(vs, k + 1),
        after_pops(vs, vs.len() as int) == Seq::<u64>::empty(),
{
    assert(after_pops(vs, 0) =~= vs);
    assert(after_pops(vs, k).drop_last() =~= after_pops(vs, k + 1));
    assert(after_pops(vs, vs.len() as int) =~= Seq::<u64>::empty());
}

/// Law: after `set(i, x)` and then `replace(i, y)`, the value `replace`
/// hands back is `x`, and the element at `i` afterwards is `y` — stated over
/// the sequence model that the contracts of `set`, `replace`, and `get` use.
pub proof fn lemma_set_replace_consistency(s: Seq<u64>, i: int, x: u64, y: u64)
    requires
        0 <= i < s.len(),
    ensures
        s.update(i, x)[i] == x,
        s.update(i, x).update(i, y)[i] == y,
        s.update(i, x).update(i, y) == s.update(i, y),
{
    assert(s.update(i, x).update(i, y) =~= s.update(i, y));
}

} // verus!


