use store_vec::CacheEntry;
use store_vec::StableMap;
use store_vec::Store;
use store_vec::expect_consistent_state;

#[test]
fn store_read_write_remove() {
    let mut store = Store::new();
    let key = b"key".to_vec();
    assert_eq!(store.read(&key), None);
    store.write(&key, &b"one".to_vec());
    assert_eq!(store.read(&key), Some(b"one".to_vec()));
    store.write(&key, &b"two".to_vec());
    assert_eq!(store.read(&key), Some(b"two".to_vec()));
    store.remove(&key);
    assert_eq!(store.read(&key), None);
    store.remove(&key);
    assert_eq!(store.read(&key), None);
}

#[test]
fn cache_entry_state_machine() {
    let mut entry = CacheEntry::new_cached(Some(4));
    assert!(!entry.is_modified());
    assert_eq!(entry.value(), Some(4));
    assert_eq!(entry.replace(Some(5)), Some(4));
    assert!(entry.is_modified());
    assert_eq!(entry.value(), Some(5));
    entry.mark_flushed();
    assert!(!entry.is_modified());
    assert_eq!(entry.value(), Some(5));
    let fresh = CacheEntry::new_modified(None);
    assert!(fresh.is_modified());
    assert_eq!(fresh.value(), None);
}

#[test]
fn mutating_through_value_mut_does_not_mark_the_slot() {
    let mut entry = CacheEntry::new_cached(Some(1));
    *entry.value_mut() = Some(2);
    assert_eq!(entry.value(), Some(2));
    assert!(!entry.is_modified());
}

#[test]
fn stable_map_lookup_is_idempotent() {
    let mut map = StableMap::default();
    assert_eq!(map.slot_count(), 0);
    assert!(map.get_mut(3).is_none());
    *map.get_mut(3) = Some(CacheEntry::new_modified(Some(9)));
    let again = map.get_mut(3).as_ref().unwrap().value();
    assert_eq!(again, Some(9));
    assert_eq!(map.slot_count(), 4);
    assert!(map.slot(2).is_none());
    map.inner().clear();
    assert_eq!(map.slot_count(), 0);
}

#[test]
fn expect_consistent_state_unwraps() {
    assert_eq!(expect_consistent_state(Some(41u64)), 41);
}
