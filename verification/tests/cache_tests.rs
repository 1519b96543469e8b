use lru_cache::cache::Cache;

#[test]
fn test_blockcache_cache_add_rm() {
    let mut cache = Cache::new(128);

    let h_123 = "aaa".as_bytes().to_vec();
    let h_521 = "aab".as_bytes().to_vec();
    let h_372 = "aac".as_bytes().to_vec();
    let h_332 = "aad".as_bytes().to_vec();
    let h_899 = "aae".as_bytes().to_vec();

    cache.insert(&h_123, 123);
    cache.insert(&h_332, 332);
    cache.insert(&h_521, 521);
    cache.insert(&h_372, 372);
    cache.insert(&h_899, 899);

    assert_eq!(cache.count(), 5);

    assert_eq!(cache.get(&h_123), Some(&123));
    assert_eq!(cache.get(&h_372), Some(&372));

    assert_eq!(cache.remove(&h_521), Some(521));
    assert_eq!(cache.get(&h_521), None);
    assert_eq!(cache.remove(&h_521), None);

    assert_eq!(cache.count(), 4);
}

#[test]
fn test_blockcache_cache_capacity() {
    let mut cache = Cache::new(3);

    let h_123 = "aaa".as_bytes().to_vec();
    let h_521 = "aab".as_bytes().to_vec();
    let h_372 = "aac".as_bytes().to_vec();
    let h_332 = "aad".as_bytes().to_vec();
    let h_899 = "aae".as_bytes().to_vec();

    cache.insert(&h_123, 123);
    cache.insert(&h_332, 332);
    cache.insert(&h_521, 521);
    cache.insert(&h_372, 372);
    cache.insert(&h_899, 899);

    assert_eq!(cache.count(), 3);

    assert_eq!(cache.get(&h_123), None);
    assert_eq!(cache.get(&h_332), None);
    assert_eq!(cache.get(&h_521), Some(&521));
    assert_eq!(cache.get(&h_372), Some(&372));
    assert_eq!(cache.get(&h_899), Some(&899));
}

// The invariant: the count tracks the live keys and never exceeds the
// capacity, whatever the sequence of operations.
#[test]
fn test_count_bounded_by_capacity() {
    let mut cache = Cache::new(2);
    assert_eq!(cache.cap(), 2);
    assert_eq!(cache.count(), 0);

    let a = b"a".to_vec();
    let b = b"b".to_vec();
    let c = b"c".to_vec();

    cache.insert(&a, 1);
    assert_eq!(cache.count(), 1);
    cache.insert(&b, 2);
    assert_eq!(cache.count(), 2);
    cache.insert(&c, 3);
    assert_eq!(cache.count(), 2);
    assert!(cache.count() <= cache.cap());

    assert_eq!(cache.remove(&c), Some(3));
    assert_eq!(cache.count(), 1);
    assert_eq!(cache.remove(&b), Some(2));
    assert_eq!(cache.count(), 0);
    assert_eq!(cache.remove(&a), None);
    assert_eq!(cache.count(), 0);
}

// Insert-then-get: a freshly inserted key is immediately retrievable.
#[test]
fn test_insert_then_get() {
    let mut cache = Cache::new(4);
    let k = b"some key".to_vec();
    cache.insert(&k, 77);
    assert_eq!(cache.get(&k), Some(&77));
}

// Eviction order: with capacity 1, every new key evicts the previous one.
#[test]
fn test_eviction_order_capacity_one() {
    let mut cache = Cache::new(1);
    let a = b"a".to_vec();
    let b = b"b".to_vec();

    cache.insert(&a, 1);
    cache.insert(&b, 2);
    assert_eq!(cache.count(), 1);
    assert_eq!(cache.get(&a), None);
    assert_eq!(cache.get(&b), Some(&2));
}

// Promotion effect: a key touched by get is no longer the eviction target.
#[test]
fn test_promotion_protects_key() {
    let mut cache = Cache::new(3);
    let a = b"a".to_vec();
    let b = b"b".to_vec();
    let c = b"c".to_vec();
    let d = b"d".to_vec();

    cache.insert(&a, 1);
    cache.insert(&b, 2);
    cache.insert(&c, 3);

    // a is the least recently used; promote it, making b the target.
    assert_eq!(cache.get(&a), Some(&1));
    cache.insert(&d, 4);

    assert_eq!(cache.get(&a), Some(&1));
    assert_eq!(cache.get(&b), None);
    assert_eq!(cache.get(&c), Some(&3));
    assert_eq!(cache.get(&d), Some(&4));
}

// Remove-once: a removed key's value comes back exactly once.
#[test]
fn test_remove_returns_value_once() {
    let mut cache = Cache::new(8);
    let k = b"k".to_vec();
    cache.insert(&k, 9);
    assert_eq!(cache.remove(&k), Some(9));
    assert_eq!(cache.remove(&k), None);
    assert_eq!(cache.get(&k), None);
}

// Five keys under a large capacity: get two, remove a third (not among the
// two just touched); the removal yields its value once and the count drops.
#[test]
fn test_five_keys_get_two_remove_third() {
    let mut cache = Cache::new(128);
    let k1 = b"k1".to_vec();
    let k2 = b"k2".to_vec();
    let k3 = b"k3".to_vec();
    let k4 = b"k4".to_vec();
    let k5 = b"k5".to_vec();

    cache.insert(&k1, 10);
    cache.insert(&k2, 20);
    cache.insert(&k3, 30);
    cache.insert(&k4, 40);
    cache.insert(&k5, 50);

    assert_eq!(cache.get(&k1), Some(&10));
    assert_eq!(cache.get(&k2), Some(&20));

    assert_eq!(cache.remove(&k4), Some(40));
    assert_eq!(cache.remove(&k4), None);
    assert_eq!(cache.count(), 4);
}

// Re-inserting a present key replaces its value, keeps the key unique, and
// promotes it to most recently used.
#[test]
fn test_insert_replaces_duplicate_key() {
    let mut cache = Cache::new(2);
    let a = b"a".to_vec();
    let b = b"b".to_vec();
    let c = b"c".to_vec();

    cache.insert(&a, 1);
    cache.insert(&b, 2);
    assert_eq!(cache.count(), 2);

    // Overwrite a: no growth, the new value wins, and a becomes most recent.
    cache.insert(&a, 100);
    assert_eq!(cache.count(), 2);
    assert_eq!(cache.get(&a), Some(&100));

    // b is now least recently used and gets evicted by the next new key.
    cache.insert(&c, 3);
    assert_eq!(cache.count(), 2);
    assert_eq!(cache.get(&b), None);
    assert_eq!(cache.get(&a), Some(&100));
    assert_eq!(cache.get(&c), Some(&3));
}

// Overwriting a key at full capacity evicts nothing.
#[test]
fn test_insert_duplicate_at_capacity_evicts_nothing() {
    let mut cache = Cache::new(2);
    let a = b"a".to_vec();
    let b = b"b".to_vec();

    cache.insert(&a, 1);
    cache.insert(&b, 2);
    cache.insert(&b, 22);

    assert_eq!(cache.count(), 2);
    assert_eq!(cache.get(&a), Some(&1));
    assert_eq!(cache.get(&b), Some(&22));
}
