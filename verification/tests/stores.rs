//! Cache store tests.

use cached::SizedCache;
use cached::TimedCache;
use cached::UnboundCache;

#[test]
fn basic_cache() {
    let mut c = UnboundCache::new();
    assert!(c.cache_get(&1).is_none());
    let misses = c.cache_misses().unwrap();
    assert_eq!(1, misses);

    c.cache_set(1, 100);
    assert!(c.cache_get(&1).is_some());
    let hits = c.cache_hits().unwrap();
    let misses = c.cache_misses().unwrap();
    assert_eq!(1, hits);
    assert_eq!(1, misses);
}

#[test]
fn sized_cache() {
    let mut c = SizedCache::with_size(5);
    assert!(c.cache_get(&1).is_none());
    let misses = c.cache_misses().unwrap();
    assert_eq!(1, misses);

    c.cache_set(1, 100);
    assert!(c.cache_get(&1).is_some());
    let hits = c.cache_hits().unwrap();
    let misses = c.cache_misses().unwrap();
    assert_eq!(1, hits);
    assert_eq!(1, misses);

    c.cache_set(2, 100);
    c.cache_set(3, 100);
    c.cache_set(4, 100);
    c.cache_set(5, 100);

    assert_eq!(c.key_order(), [5, 4, 3, 2, 1]);

    c.cache_set(6, 100);
    c.cache_set(7, 100);

    assert_eq!(c.key_order(), [7, 6, 5, 4, 3]);

    assert!(c.cache_get(&2).is_none());
    assert!(c.cache_get(&3).is_some());

    assert_eq!(c.key_order(), [3, 7, 6, 5, 4]);

    assert_eq!(2, c.cache_misses().unwrap());
    let size = c.cache_size();
    assert_eq!(5, size);
}

/// Regression test confirming that racing cache sets on a SizedCache do
/// not cause duplicates to exist in the internal order list.
#[test]
fn size_cache_racing_keys_eviction_regression() {
    let mut c = SizedCache::with_size(2);
    c.cache_set(1, 100);
    c.cache_set(1, 100);
    // size would be 1, but the internal order would be [1, 1]
    c.cache_set(2, 100);
    c.cache_set(3, 100);
    // this next set would fail because a duplicate key would be evicted
    c.cache_set(4, 100);
}

#[test]
fn clear() {
    let mut c = UnboundCache::new();

    c.cache_set(1, 100);
    c.cache_set(2, 200);
    c.cache_set(3, 300);

    // register some hits and misses
    c.cache_get(&1);
    c.cache_get(&2);
    c.cache_get(&3);
    c.cache_get(&10);
    c.cache_get(&20);
    c.cache_get(&30);

    assert_eq!(3, c.cache_size());
    assert_eq!(3, c.cache_hits().unwrap());
    assert_eq!(3, c.cache_misses().unwrap());
    assert_eq!(3, c.backing_capacity());

    // clear the cache, should have no more elements
    // hits and misses will still be kept
    c.cache_clear();

    assert_eq!(0, c.cache_size());
    assert_eq!(3, c.cache_hits().unwrap());
    assert_eq!(3, c.cache_misses().unwrap());
    assert_eq!(3, c.backing_capacity()); // Keeps the storage for reuse.

    let capacity = 1;
    let mut c = UnboundCache::with_capacity(capacity);
    assert_eq!(capacity, c.backing_capacity());

    c.cache_set(1, 100);
    c.cache_set(2, 200);
    c.cache_set(3, 300);

    assert_eq!(3, c.backing_capacity());

    c.cache_clear();

    assert_eq!(3, c.backing_capacity()); // Keeps the storage for reuse.

    let mut c = SizedCache::with_size(3);

    c.cache_set(1, 100);
    c.cache_set(2, 200);
    c.cache_set(3, 300);
    c.cache_clear();

    assert_eq!(0, c.cache_size());

    let mut c = TimedCache::with_lifespan(3600);

    c.cache_set(1, 100);
    c.cache_set(2, 200);
    c.cache_set(3, 300);
    c.cache_clear();

    assert_eq!(0, c.cache_size());
}

#[test]
fn reset() {
    let mut c = UnboundCache::new();
    c.cache_set(1, 100);
    c.cache_set(2, 200);
    c.cache_set(3, 300);
    assert_eq!(3, c.backing_capacity());

    c.cache_reset();

    assert_eq!(0, c.backing_capacity());

    let init_capacity = 1;
    let mut c = UnboundCache::with_capacity(init_capacity);
    c.cache_set(1, 100);
    c.cache_set(2, 200);
    c.cache_set(3, 300);
    assert_eq!(3, c.backing_capacity());

    c.cache_reset();

    assert_eq!(init_capacity, c.backing_capacity());

    let mut c = SizedCache::with_size(init_capacity);
    c.cache_set(1, 100);
    c.cache_set(2, 200);
    c.cache_set(3, 300);
    assert_eq!(init_capacity, c.backing_capacity());

    c.cache_reset();

    assert_eq!(init_capacity, c.backing_capacity());

    let mut c = TimedCache::with_lifespan(100);
    c.cache_set(1, 100);
    c.cache_set(2, 200);
    c.cache_set(3, 300);
    assert_eq!(3, c.backing_capacity());

    c.cache_reset();

    assert_eq!(0, c.backing_capacity());

    let mut c = TimedCache::with_lifespan_and_capacity(100, init_capacity);
    c.cache_set(1, 100);
    c.cache_set(2, 200);
    c.cache_set(3, 300);
    assert_eq!(3, c.backing_capacity());

    c.cache_reset();

    assert_eq!(init_capacity, c.backing_capacity());
}

#[test]
fn remove() {
    let mut c = UnboundCache::new();

    c.cache_set(1, 100);
    c.cache_set(2, 200);
    c.cache_set(3, 300);

    // register some hits and misses
    c.cache_get(&1);
    c.cache_get(&2);
    c.cache_get(&3);
    c.cache_get(&10);
    c.cache_get(&20);
    c.cache_get(&30);

    assert_eq!(3, c.cache_size());
    assert_eq!(3, c.cache_hits().unwrap());
    assert_eq!(3, c.cache_misses().unwrap());

    // remove some items from cache
    // hits and misses will still be kept
    assert_eq!(Some(100), c.cache_remove(&1));

    assert_eq!(2, c.cache_size());
    assert_eq!(3, c.cache_hits().unwrap());
    assert_eq!(3, c.cache_misses().unwrap());

    assert_eq!(Some(200), c.cache_remove(&2));

    assert_eq!(1, c.cache_size());

    // removing extra is ok
    assert_eq!(None, c.cache_remove(&2));

    assert_eq!(1, c.cache_size());

    let mut c = SizedCache::with_size(3);

    c.cache_set(1, 100);
    c.cache_set(2, 200);
    c.cache_set(3, 300);

    assert_eq!(Some(100), c.cache_remove(&1));
    assert_eq!(2, c.cache_size());

    assert_eq!(Some(200), c.cache_remove(&2));
    assert_eq!(1, c.cache_size());

    assert_eq!(None, c.cache_remove(&2));
    assert_eq!(1, c.cache_size());

    assert_eq!(Some(300), c.cache_remove(&3));
    assert_eq!(0, c.cache_size());

    let mut c = TimedCache::with_lifespan(3600);

    c.cache_set(1, 100);
    c.cache_set(2, 200);
    c.cache_set(3, 300);

    assert_eq!(Some(100), c.cache_remove(&1));
    assert_eq!(2, c.cache_size());
}
