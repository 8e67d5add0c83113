//! Behavioural tests: one concrete scenario for each stated law of the
//! caches, plus edge cases of the time-bounded variant that need no clock.

use cached::SizedCache;
use cached::TimedCache;
use cached::UnboundCache;

/// The entry count of a size-bounded cache never exceeds its size, however
/// many insertions run against it.
#[test]
fn capacity_never_exceeded() {
    let mut c = SizedCache::with_size(3);
    for k in 0..20u64 {
        c.cache_set(k, k);
        assert!(c.cache_size() <= 3);
    }
    assert_eq!(3, c.cache_size());
}

/// Filling a cache of size N with N distinct keys leaves the keys in
/// reverse insertion order.
#[test]
fn reverse_insertion_order() {
    let mut c = SizedCache::with_size(3);
    c.cache_set(1, 10);
    c.cache_set(2, 20);
    c.cache_set(3, 30);
    assert_eq!(c.key_order(), [3, 2, 1]);
    assert_eq!(c.value_order(), [30, 20, 10]);
}

/// The (N+1)-th distinct key evicts exactly the least recently used key.
#[test]
fn eviction_takes_least_recent() {
    let mut c = SizedCache::with_size(3);
    c.cache_set(1, 10);
    c.cache_set(2, 20);
    c.cache_set(3, 30);
    c.cache_set(4, 40);
    assert_eq!(c.key_order(), [4, 3, 2]);
    assert!(c.cache_get(&1).is_none());
}

/// A read promotes its key, so the next eviction takes the key that became
/// least recent, not the one just read.
#[test]
fn promotion_protects_read_key() {
    let mut c = SizedCache::with_size(2);
    c.cache_set(1, 10);
    c.cache_set(2, 20);
    assert_eq!(Some(&10), c.cache_get(&1));
    c.cache_set(3, 30);
    assert_eq!(c.key_order(), [3, 1]);
    assert!(c.cache_get(&2).is_none());
    assert_eq!(Some(&10), c.cache_get(&1));
}

/// Repeated insertions of the same key keep exactly one entry, holding the
/// latest value.
#[test]
fn duplicate_sets_keep_one_entry() {
    let mut c = SizedCache::with_size(4);
    for _ in 0..5 {
        c.cache_set(7, 1);
    }
    c.cache_set(7, 2);
    assert_eq!(1, c.cache_size());
    assert_eq!(c.key_order(), [7]);
    assert_eq!(Some(&2), c.cache_get(&7));
}

/// An overwrite through `cache_set` does not promote the key: only reads
/// change the recency order.
#[test]
fn overwrite_keeps_recency() {
    let mut c = SizedCache::with_size(4);
    c.cache_set(1, 10);
    c.cache_set(2, 20);
    c.cache_set(3, 30);
    c.cache_set(1, 11);
    assert_eq!(c.key_order(), [3, 2, 1]);
    assert_eq!(c.value_order(), [30, 20, 11]);
}

/// Hit and miss counters grow monotonically and survive clearing.
#[test]
fn counters_survive_clear() {
    let mut c = SizedCache::with_size(2);
    c.cache_set(1, 10);
    assert!(c.cache_get(&1).is_some());
    assert!(c.cache_get(&9).is_none());
    let hits = c.cache_hits().unwrap();
    let misses = c.cache_misses().unwrap();
    c.cache_clear();
    assert_eq!(0, c.cache_size());
    assert_eq!(hits, c.cache_hits().unwrap());
    assert_eq!(misses, c.cache_misses().unwrap());
    assert!(c.cache_get(&1).is_none());
    assert_eq!(misses + 1, c.cache_misses().unwrap());
}

/// Removing a just-evicted key returns nothing and has no side effects;
/// removing a present key returns its value and shrinks the cache by one.
#[test]
fn remove_after_eviction() {
    let mut c = SizedCache::with_size(2);
    c.cache_set(1, 10);
    c.cache_set(2, 20);
    c.cache_set(3, 30);
    assert_eq!(None, c.cache_remove(&1));
    assert_eq!(2, c.cache_size());
    assert_eq!(c.key_order(), [3, 2]);
    assert_eq!(Some(20), c.cache_remove(&2));
    assert_eq!(1, c.cache_size());
}

/// Three entries, three hits and three misses on an unbounded cache;
/// clearing drops the entries and keeps the accounting.
#[test]
fn unbounded_accounting() {
    let mut c = UnboundCache::new();
    c.cache_set(1, 100);
    c.cache_set(2, 200);
    c.cache_set(3, 300);
    assert!(c.cache_get(&1).is_some());
    assert!(c.cache_get(&2).is_some());
    assert!(c.cache_get(&3).is_some());
    assert!(c.cache_get(&4).is_none());
    assert!(c.cache_get(&5).is_none());
    assert!(c.cache_get(&6).is_none());
    assert_eq!(3, c.cache_hits().unwrap());
    assert_eq!(3, c.cache_misses().unwrap());
    assert_eq!(3, c.cache_size());
    c.cache_clear();
    assert_eq!(0, c.cache_size());
    assert_eq!(3, c.cache_hits().unwrap());
    assert_eq!(3, c.cache_misses().unwrap());
}

/// Within its lifespan an entry of the time-bounded cache is a hit and
/// keeps its value.
#[test]
fn timed_hit_within_lifespan() {
    let mut c = TimedCache::with_lifespan(3600);
    assert!(c.cache_get(&1).is_none());
    assert_eq!(1, c.cache_misses().unwrap());
    c.cache_set(1, 100);
    assert_eq!(Some(&100), c.cache_get(&1));
    assert_eq!(1, c.cache_hits().unwrap());
    assert_eq!(Some(3600), c.cache_lifespan());
}

/// The expiry rule: live exactly when fewer whole seconds have elapsed
/// than the lifespan allows; a zero lifespan admits no reading at all.
#[test]
fn expiry_rule() {
    assert!(TimedCache::<u64>::is_live(0, 2));
    assert!(TimedCache::<u64>::is_live(1, 2));
    assert!(!TimedCache::<u64>::is_live(2, 2));
    assert!(!TimedCache::<u64>::is_live(3, 2));
    assert!(!TimedCache::<u64>::is_live(0, 0));
    assert!(!TimedCache::<u64>::is_live(u64::MAX, u64::MAX));
    assert!(TimedCache::<u64>::is_live(u64::MAX - 1, u64::MAX));
}

/// With a lifespan of zero seconds every entry is already expired when it
/// is next read: the read misses and purges the entry.
#[test]
fn timed_expiry_purges() {
    let mut c = TimedCache::with_lifespan(0);
    c.cache_set(1, 100);
    assert_eq!(1, c.cache_size());
    assert!(c.cache_get(&1).is_none());
    assert_eq!(1, c.cache_misses().unwrap());
    assert_eq!(0, c.cache_hits().unwrap());
    assert_eq!(0, c.cache_size());
}

/// The removal of a timed entry returns its value whether or not it has
/// expired.
#[test]
fn timed_remove_ignores_expiry() {
    let mut c = TimedCache::with_lifespan(0);
    c.cache_set(5, 50);
    assert_eq!(Some(50), c.cache_remove(&5));
    assert_eq!(None, c.cache_remove(&5));
    assert_eq!(0, c.cache_size());
}

/// The constructor alias behaves exactly like `with_size`, and the
/// capacity is reported back.
#[test]
fn capacity_reporting() {
    let mut c = SizedCache::with_capacity(4);
    assert_eq!(Some(4), c.cache_capacity());
    c.cache_set(1, 1);
    assert_eq!(4, c.backing_capacity());
    c.cache_reset();
    assert_eq!(Some(4), c.cache_capacity());
    assert_eq!(0, c.cache_size());
}
