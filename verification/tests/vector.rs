use rand::{Rng, SeedableRng};

use store_vec::Error;
use store_vec::Store;
use store_vec::Vector;

#[test]
fn test_push_pop() {
    let mut rng = rand_xorshift::XorShiftRng::seed_from_u64(0);
    let mut store = Store::new();
    let mut vec = Vector::new(b"v".to_vec(), &store);
    let mut baseline = vec![];
    for _ in 0..500 {
        let value = rng.gen::<u64>();
        vec.push(&store, value).unwrap();
        baseline.push(value);
    }
    let actual: Vec<u64> = vec.iter(&store);
    assert_eq!(actual, baseline);
    for _ in 0..1001 {
        assert_eq!(baseline.pop(), vec.pop(&store));
    }
}

#[test]
pub fn test_replace() {
    let mut rng = rand_xorshift::XorShiftRng::seed_from_u64(1);
    let mut store = Store::new();
    let mut vec = Vector::new(b"v".to_vec(), &store);
    let mut baseline = vec![];
    for _ in 0..500 {
        let value = rng.gen::<u64>();
        vec.push(&store, value).unwrap();
        baseline.push(value);
    }
    for _ in 0..500 {
        let index = rng.gen::<u32>() % vec.len();
        let value = rng.gen::<u64>();
        let old_value0 = vec.get(&store, index).unwrap();
        let old_value1 = vec.replace(&store, index, value).unwrap();
        let old_value2 = baseline[index as usize];
        assert_eq!(old_value0, old_value1);
        assert_eq!(old_value0, old_value2);
        *baseline.get_mut(index as usize).unwrap() = value;
    }
    let actual: Vec<u64> = vec.iter(&store);
    assert_eq!(actual, baseline);
}

#[test]
pub fn test_swap_remove() {
    let mut rng = rand_xorshift::XorShiftRng::seed_from_u64(2);
    let mut store = Store::new();
    let mut vec = Vector::new(b"v".to_vec(), &store);
    let mut baseline = vec![];
    for _ in 0..500 {
        let value = rng.gen::<u64>();
        vec.push(&store, value).unwrap();
        baseline.push(value);
    }
    for _ in 0..500 {
        let index = rng.gen::<u32>() % vec.len();
        let old_value0 = vec.get(&store, index).unwrap();
        let old_value1 = vec.swap_remove(&store, index).unwrap();
        let old_value2 = baseline[index as usize];
        let last_index = baseline.len() - 1;
        baseline.swap(index as usize, last_index);
        baseline.pop();
        assert_eq!(old_value0, old_value1);
        assert_eq!(old_value0, old_value2);
    }
    let actual: Vec<u64> = vec.iter(&store);
    assert_eq!(actual, baseline);
}

#[test]
pub fn test_clear() {
    let mut rng = rand_xorshift::XorShiftRng::seed_from_u64(3);
    let mut store = Store::new();
    let mut vec = Vector::new(b"v".to_vec(), &store);
    for _ in 0..100 {
        for _ in 0..(rng.gen::<u64>() % 20 + 1) {
            let value = rng.gen::<u64>();
            vec.push(&store, value).unwrap();
        }
        assert!(!vec.is_empty());
        vec.clear(&mut store);
        assert!(vec.is_empty());
    }
}

#[test]
pub fn test_extend() {
    let mut rng = rand_xorshift::XorShiftRng::seed_from_u64(0);
    let mut store = Store::new();
    let mut vec = Vector::new(b"v".to_vec(), &store);
    let mut baseline = vec![];
    for _ in 0..100 {
        let value = rng.gen::<u64>();
        vec.push(&store, value).unwrap();
        baseline.push(value);
    }

    for _ in 0..100 {
        let mut tmp = vec![];
        for _ in 0..=(rng.gen::<u64>() % 20 + 1) {
            let value = rng.gen::<u64>();
            tmp.push(value);
        }
        baseline.extend(tmp.clone());
        vec.extend(&store, &tmp).unwrap();
    }
    let actual: Vec<u64> = vec.iter(&store);
    assert_eq!(actual, baseline);
}

/// The store key the collection uses for an index: prefix, then the index's
/// little-endian bytes.
fn key_for(prefix: &[u8], index: u32) -> Vec<u8> {
    let mut key = prefix.to_vec();
    key.extend_from_slice(&index.to_le_bytes());
    key
}

#[test]
fn push_pop_duality_scenario() {
    let mut store = Store::new();
    let mut vec = Vector::new(b"d".to_vec(), &store);
    for v in [11u64, 22, 33] {
        vec.push(&store, v).unwrap();
    }
    assert_eq!(vec.pop(&store), Some(33));
    assert_eq!(vec.pop(&store), Some(22));
    assert_eq!(vec.pop(&store), Some(11));
    assert_eq!(vec.pop(&store), None);
    assert!(vec.is_empty());
    assert_eq!(vec.len(), 0);
}

#[test]
fn set_then_replace_returns_old_value() {
    let mut store = Store::new();
    let mut vec = Vector::new(b"r".to_vec(), &store);
    for v in [1u64, 2, 3] {
        vec.push(&store, v).unwrap();
    }
    vec.set(&store, 1, 77).unwrap();
    assert_eq!(vec.replace(&store, 1, 88), Ok(77));
    assert_eq!(vec.get(&store, 1), Some(88));
}

#[test]
fn swap_remove_moves_last_into_hole() {
    let mut store = Store::new();
    let mut vec = Vector::new(b"s".to_vec(), &store);
    for v in [10u64, 20, 30, 40] {
        vec.push(&store, v).unwrap();
    }
    assert_eq!(vec.swap_remove(&store, 1), Ok(20));
    assert_eq!(vec.len(), 3);
    assert_eq!(vec.iter(&store), vec![10, 40, 30]);
    assert_eq!(vec.swap_remove(&store, 2), Ok(30));
    assert_eq!(vec.iter(&store), vec![10, 40]);
}

#[test]
fn flush_is_idempotent_and_invisible_to_get() {
    let mut store = Store::new();
    let mut vec = Vector::new(b"f".to_vec(), &store);
    for v in [5u64, 6, 7] {
        vec.push(&store, v).unwrap();
    }
    vec.set(&store, 0, 50).unwrap();
    vec.flush(&mut store);
    assert_eq!(vec.iter(&store), vec![50, 6, 7]);
    vec.flush(&mut store);
    assert_eq!(vec.iter(&store), vec![50, 6, 7]);
    let reopened_after_two_flushes: Vec<u64> = Vector::reopen(3, b"f".to_vec(), &store).iter(&store);
    assert_eq!(reopened_after_two_flushes, vec![50, 6, 7]);
}

#[test]
fn round_trip_through_store() {
    let mut store = Store::new();
    let mut vec = Vector::new(b"t".to_vec(), &store);
    vec.push(&store, 0).unwrap();
    vec.push(&store, 0).unwrap();
    let x: u64 = 0x0123_4567_89ab_cdef;
    vec.set(&store, 1, x).unwrap();
    vec.flush(&mut store);
    // The serializer must have written exactly the little-endian bytes.
    let raw = store.read(&key_for(b"t", 1)).unwrap();
    assert_eq!(raw, x.to_le_bytes().to_vec());
    // A fresh instance over the same prefix reads the value back.
    let mut again = Vector::reopen(2, b"t".to_vec(), &store);
    assert_eq!(again.get(&store, 1), Some(x));
    assert_eq!(again.get(&store, 0), Some(0));
}

#[test]
fn clear_empties_collection_and_store() {
    let mut store = Store::new();
    let mut vec = Vector::new(b"c".to_vec(), &store);
    for v in [1u64, 2, 3, 4] {
        vec.push(&store, v).unwrap();
    }
    vec.flush(&mut store);
    vec.clear(&mut store);
    assert!(vec.is_empty());
    assert_eq!(vec.len(), 0);
    for i in 0..4u32 {
        assert_eq!(store.read(&key_for(b"c", i)), None);
    }
    assert_eq!(vec.get(&store, 0), None);
}

#[test]
fn bounds_checks() {
    let mut store = Store::new();
    let mut vec = Vector::new(b"b".to_vec(), &store);
    for v in [1u64, 2] {
        vec.push(&store, v).unwrap();
    }
    let length = vec.len();
    assert_eq!(vec.get(&store, length), None);
    assert_eq!(vec.set(&store, length, 9), Err(Error::IndexOutOfBounds));
    assert_eq!(vec.set(&store, length + 1, 9), Err(Error::IndexOutOfBounds));
    assert_eq!(vec.replace(&store, length, 9), Err(Error::IndexOutOfBounds));
    let mut empty = Vector::new(b"e".to_vec(), &store);
    assert_eq!(empty.swap_remove(&store, 0), Err(Error::IndexOutOfBounds));
}

#[test]
fn full_scenario() {
    let mut store = Store::new();
    let mut vec = Vector::new(b"x".to_vec(), &store);
    assert_eq!(vec.prefix(), b"x".to_vec());
    assert!(vec.is_empty());
    for v in 0u64..5 {
        vec.push(&store, v).unwrap();
    }
    assert_eq!(vec.len(), 5);
    assert_eq!(vec.swap_remove(&store, 1), Ok(1));
    assert_eq!(vec.iter(&store), vec![0, 4, 2, 3]);
    assert_eq!(vec.pop(&store), Some(3));
    assert_eq!(vec.iter(&store), vec![0, 4, 2]);
    vec.flush(&mut store);
    let mut reopened = Vector::reopen(3, b"x".to_vec(), &store);
    assert_eq!(reopened.iter(&store), vec![0, 4, 2]);
}

#[test]
fn collections_with_distinct_prefixes_share_a_store() {
    let mut store = Store::new();
    let mut a = Vector::new(b"a".to_vec(), &store);
    let mut b = Vector::new(b"b".to_vec(), &store);
    a.push(&store, 1).unwrap();
    b.push(&store, 2).unwrap();
    a.flush(&mut store);
    b.flush(&mut store);
    assert_eq!(a.get(&store, 0), Some(1));
    assert_eq!(b.get(&store, 0), Some(2));
}
