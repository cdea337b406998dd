use std::ops::Deref;

use easy_map::hashing::bucket_for_hash;
use easy_map::{EasyMap, DEFAULT_BUCKETS};

fn listing<'a>(map: &'a EasyMap<u64, &'static str>, index: usize) -> Vec<(u64, &'static str)> {
    map.bucket_entries(index).into_iter().map(|(k, v)| (*k, *v)).collect()
}

#[test]
fn new_map_has_default_buckets_all_empty() {
    let map = EasyMap::<u64, u64>::new();
    assert_eq!(map.bucket_count(), DEFAULT_BUCKETS);
    assert_eq!(DEFAULT_BUCKETS, 32);
    for i in 0..map.bucket_count() {
        assert!(map.bucket_entries(i).is_empty());
    }
    assert!(map.iter().next().is_none());
}

#[test]
fn with_capacity_sets_bucket_count() {
    assert_eq!(EasyMap::<u64, u64>::with_capacity(0).bucket_count(), 0);
    assert_eq!(EasyMap::<u64, u64>::with_capacity(7).bucket_count(), 7);
    let empty = EasyMap::<u64, u64>::with_capacity(0);
    assert!(empty.iter().next().is_none());
}

#[test]
fn bucket_for_hash_is_the_remainder() {
    assert_eq!(bucket_for_hash(10, 4), 2);
    assert_eq!(bucket_for_hash(7, 7), 0);
    assert_eq!(bucket_for_hash(u64::MAX, 1), 0);
    assert_eq!(bucket_for_hash(12345, 100), 45);
}

#[test]
fn new_keys_are_chained_in_front() {
    let mut map = EasyMap::with_capacity(3);
    assert!(map.insert_into_bucket(1, 10, "a").is_none());
    assert!(map.insert_into_bucket(1, 20, "b").is_none());
    assert!(map.insert_into_bucket(1, 30, "c").is_none());
    assert_eq!(listing(&map, 1), vec![(30, "c"), (20, "b"), (10, "a")]);
    assert!(listing(&map, 0).is_empty());
    assert!(listing(&map, 2).is_empty());
}

#[test]
fn replaced_key_keeps_its_place_and_returns_old_node() {
    let mut map = EasyMap::with_capacity(2);
    map.insert_into_bucket(0, 1, "one");
    map.insert_into_bucket(0, 2, "two");
    map.insert_into_bucket(0, 3, "three");
    let old = map.insert_into_bucket(0, 2, "TWO").unwrap();
    assert_eq!(old.key(), &2);
    assert_eq!(*old.deref(), "two");
    assert_eq!(listing(&map, 0), vec![(3, "three"), (2, "TWO"), (1, "one")]);
}

#[test]
fn read_after_write_in_a_bucket() {
    let mut map = EasyMap::with_capacity(4);
    map.insert_into_bucket(2, 7, "seven");
    assert_eq!(map.get_from_bucket(2, &7), Some(&"seven"));
    assert_eq!(map.get_from_bucket(2, &8), None);
    assert_eq!(map.get_from_bucket(1, &7), None);
    map.insert_into_bucket(2, 7, "SEVEN");
    assert_eq!(map.get_from_bucket(2, &7), Some(&"SEVEN"));
}

#[test]
fn remove_from_bucket_unlinks_the_node() {
    let mut map = EasyMap::with_capacity(1);
    map.insert_into_bucket(0, 1, "one");
    map.insert_into_bucket(0, 2, "two");
    map.insert_into_bucket(0, 3, "three");
    let removed = map.remove_from_bucket(0, &2).unwrap();
    assert_eq!(removed.key(), &2);
    assert_eq!(*removed.deref(), "two");
    assert_eq!(listing(&map, 0), vec![(3, "three"), (1, "one")]);
    assert!(map.remove_from_bucket(0, &2).is_none());
    let head = map.remove_from_bucket(0, &3).unwrap();
    assert_eq!(*head.deref(), "three");
    assert_eq!(listing(&map, 0), vec![(1, "one")]);
    map.remove_from_bucket(0, &1);
    assert!(listing(&map, 0).is_empty());
}

#[test]
fn remove_undoes_a_fresh_insert() {
    let mut map = EasyMap::with_capacity(1);
    map.insert(5, "five");
    map.insert(6, "six");
    let before = listing(&map, 0);
    assert!(map.insert(9, "nine").is_none());
    assert_eq!(*map.remove(&9).unwrap().deref(), "nine");
    assert_eq!(listing(&map, 0), before);
}

#[test]
fn single_bucket_map_behaves_as_a_map() {
    // With one bucket every key hashes to the same place.
    let mut map = EasyMap::with_capacity(1);
    assert!(map.insert(1, "a").is_none());
    assert!(map.insert(2, "b").is_none());
    assert_eq!(map.insert(1, "c").map(|n| *n.deref()), Some("a"));
    assert_eq!(map.get(&1), Some(&"c"));
    assert_eq!(map.get(&2), Some(&"b"));
    assert_eq!(map.get(&3), None);
    assert_eq!(map.remove(&2).map(|n| *n.deref()), Some("b"));
    assert_eq!(map.get(&2), None);
    assert!(map.remove(&2).is_none());
}

#[test]
fn iteration_goes_bucket_by_bucket_head_first() {
    let mut map = EasyMap::with_capacity(3);
    map.insert_into_bucket(2, 1, "x");
    map.insert_into_bucket(0, 2, "y");
    map.insert_into_bucket(0, 3, "z");
    map.insert_into_bucket(2, 4, "w");
    let mut it = map.iter();
    let mut got = Vec::new();
    while let Some((k, v)) = it.next() {
        got.push((*k, *v));
    }
    assert_eq!(got, vec![(3, "z"), (2, "y"), (4, "w"), (1, "x")]);
    assert!(it.next().is_none());
}

#[test]
fn many_keys_in_many_buckets() {
    let mut map = EasyMap::new();
    for k in 0..500u64 {
        assert!(map.insert(k, k * 2).is_none());
    }
    for k in 0..500u64 {
        assert_eq!(map.get(&k), Some(&(k * 2)));
    }
    let mut count = 0;
    let mut it = map.iter();
    while let Some((k, v)) = it.next() {
        assert_eq!(*v, *k * 2);
        count += 1;
    }
    assert_eq!(count, 500);
    for k in (0..500u64).step_by(2) {
        assert_eq!(map.remove(&k).map(|n| *n.deref()), Some(k * 2));
    }
    for k in 0..500u64 {
        assert_eq!(map.get(&k).is_some(), k % 2 == 1);
    }
}

#[test]
fn iterated_entries_are_unique_and_found() {
    let mut map = EasyMap::with_capacity(5);
    for k in 0..40u64 {
        map.insert(k % 17, k);
    }
    map.remove(&3);
    map.remove(&3);
    let mut seen: Vec<u64> = Vec::new();
    let mut it = map.iter();
    while let Some((k, v)) = it.next() {
        assert!(!seen.contains(k));
        seen.push(*k);
        assert_eq!(map.get(k), Some(v));
    }
    assert_eq!(seen.len(), 16);
    assert_eq!(map.get(&3), None);
    assert_eq!(map.get(&5), Some(&39));
}
