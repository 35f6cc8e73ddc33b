use extendable_hashmap::{HashMap, BUCKET_CAP};
use std::collections::hash_map::DefaultHasher;
use std::hash::{BuildHasher, BuildHasherDefault};

fn hash_of(key: i32) -> u64 {
    BuildHasherDefault::<DefaultHasher>::default().hash_one(key)
}

/// Keys whose hashes begin with `prefix` read over its first `bits` bits.
fn keys_with_prefix(prefix: u64, bits: u32, count: usize) -> Vec<i32> {
    let mut found = Vec::new();
    let mut k: i32 = 0;
    while found.len() < count {
        if hash_of(k) >> (64 - bits) == prefix {
            found.push(k);
        }
        k += 1;
    }
    found
}

#[test]
fn insert_without_split_works() {
    let mut map = HashMap::new();
    assert_eq!(map.insert(1, 1), None);

    assert_eq!(map.get(&1), Some(&1));
}

#[test]
fn insert_duplicate_items() {
    let mut map = HashMap::new();
    assert_eq!(map.insert(1, 1), None);
    assert_eq!(map.insert(1, 1), Some(1));

    assert_eq!(map.get(&1), Some(&1));
}

#[test]
fn insert_1000_items() {
    let mut map = HashMap::new();
    for i in 0..1000 {
        assert_eq!(map.get(&i), None);
        assert_eq!(map.insert(i, i), None);
        assert_eq!(map.get(&i), Some(&i));
    }

    assert_eq!(map.len(), 1000);
}

#[test]
fn remove_works() {
    let mut map = HashMap::new();
    for i in 0..1000 {
        assert!(map.remove(&i).is_none());
        map.insert(i, i);
    }
    assert_eq!(map.len(), 1000);

    for i in 0..1000 {
        assert_eq!(map.remove(&i), Some(i));
    }

    assert_eq!(map.len(), 0);
}

#[test]
fn new_map_has_two_slots() {
    let map: HashMap<u8> = HashMap::new();
    assert_eq!(map.len(), 0);
    assert!(map.is_empty());
    assert_eq!(map.global_depth(), 1);
    assert_eq!(map.bucket_count(), 2);
    assert_eq!(map.capacity(), 2 * BUCKET_CAP);
    let other: HashMap<u8> = HashMap::default();
    assert_eq!(other.capacity(), 2 * BUCKET_CAP);
}

#[test]
fn round_trip_of_insert_get_remove() {
    let mut map = HashMap::new();
    assert_eq!(map.insert(-7, "seven"), None);
    assert_eq!(map.get(&-7), Some(&"seven"));
    assert_eq!(map.remove(&-7), Some("seven"));
    assert_eq!(map.get(&-7), None);
    assert_eq!(map.remove(&-7), None);
    assert!(map.is_empty());
}

#[test]
fn update_returns_old_value_and_keeps_len() {
    let mut map = HashMap::new();
    map.insert(3, 30);
    map.insert(4, 40);
    assert_eq!(map.insert(3, 31), Some(30));
    assert_eq!(map.len(), 2);
    assert_eq!(map.get(&3), Some(&31));
    assert_eq!(map.get(&4), Some(&40));
}

#[test]
fn split_of_one_bucket_makes_two_deeper_buckets() {
    // two keys under hash prefix 00 and two under 01: all four address bucket [0]
    let mut keys = keys_with_prefix(0b00, 2, 2);
    keys.extend(keys_with_prefix(0b01, 2, 2));
    let mut map = HashMap::new();
    for (n, k) in keys.iter().enumerate() {
        assert_eq!(map.insert(*k, n), None);
    }
    assert_eq!(map.len(), 4);
    assert_eq!(map.global_depth(), 2);
    assert_eq!(map.bucket_count(), 3);
    for (n, k) in keys.iter().enumerate() {
        assert_eq!(map.local_depth_of(k), 2);
        assert_eq!(map.get(k), Some(&n));
    }
    let other = keys_with_prefix(0b1, 1, 1)[0];
    assert_eq!(map.local_depth_of(&other), 1);
}

#[test]
fn growth_scenario_keeps_every_key() {
    let mut map = HashMap::new();
    for i in 0..30 {
        assert!(map.remove(&i).is_none());
        map.insert(i, i);
    }
    assert_eq!(map.len(), 30);
    for i in 0..30 {
        assert_eq!(map.get(&i), Some(&i));
    }
}

#[test]
fn shrink_scenario_returns_values_in_removal_order() {
    let mut map = HashMap::new();
    for i in 0..30 {
        map.insert(i, i);
    }
    for i in 0..30 {
        assert_eq!(map.remove(&i), Some(i));
        assert_eq!(map.len(), 29 - i as usize);
        for j in i + 1..30 {
            assert_eq!(map.get(&j), Some(&j));
        }
    }
    assert_eq!(map.len(), 0);
}

#[test]
fn directory_doubles_when_every_bucket_is_at_full_depth() {
    let keys = keys_with_prefix(0b1, 1, 4);
    let mut map = HashMap::new();
    for k in &keys[..3] {
        map.insert(*k, *k);
    }
    assert_eq!(map.capacity(), 2 * BUCKET_CAP);
    assert_eq!(map.global_depth(), 1);
    map.insert(keys[3], keys[3]);
    assert!(map.global_depth() >= 2);
    assert!(map.capacity() >= 4 * BUCKET_CAP);
    for k in &keys {
        assert_eq!(map.get(k), Some(k));
    }
}

#[test]
fn try_insert_takes_ordinary_keys() {
    let mut map = HashMap::new();
    assert_eq!(map.try_insert(5, 'a'), Ok(None));
    assert_eq!(map.try_insert(5, 'b'), Ok(Some('a')));
    assert_eq!(map.get(&5), Some(&'b'));
    for i in 0..100 {
        assert_eq!(map.try_insert(100 + i, 'c'), Ok(None));
    }
    assert_eq!(map.len(), 101);
}

#[test]
fn removal_merges_siblings_back() {
    let mut keys = keys_with_prefix(0b00, 2, 2);
    keys.extend(keys_with_prefix(0b01, 2, 2));
    let mut map = HashMap::new();
    for k in &keys {
        map.insert(*k, *k);
    }
    assert_eq!(map.bucket_count(), 3);
    map.remove(&keys[0]);
    map.remove(&keys[2]);
    assert_eq!(map.bucket_count(), 2);
    assert_eq!(map.local_depth_of(&keys[1]), 1);
    assert_eq!(map.global_depth(), 2);
    assert_eq!(map.get(&keys[1]), Some(&keys[1]));
    assert_eq!(map.get(&keys[3]), Some(&keys[3]));
}

#[test]
fn get_mut_writes_through() {
    let mut map = HashMap::new();
    for i in 0..50 {
        map.insert(i, i * 10);
    }
    if let Some(v) = map.get_mut(&17) {
        *v = -1;
    }
    assert_eq!(map.get(&17), Some(&-1));
    assert_eq!(map.get(&18), Some(&180));
    assert_eq!(map.get_mut(&99), None);
    assert_eq!(map.len(), 50);
}

#[test]
fn absent_key_and_room_leave_the_shape_alone() {
    let mut map = HashMap::new();
    for i in 0..40 {
        map.insert(i, i);
    }
    let depth = map.global_depth();
    let buckets = map.bucket_count();
    let capacity = map.capacity();
    assert_eq!(map.remove(&1000), None);
    assert_eq!(map.global_depth(), depth);
    assert_eq!(map.bucket_count(), buckets);
    assert_eq!(map.insert(5, 50), Some(5));
    assert_eq!(map.global_depth(), depth);
    assert_eq!(map.bucket_count(), buckets);
    assert_eq!(map.capacity(), capacity);
    assert!(map.capacity() >= map.len());
}
