//! Time-bounded cache: values are timestamped when inserted and evicted,
//! lazily, when found expired at the time of retrieval. There is no
//! background sweep: an expired entry stays in memory until the next
//! lookup of that exact key.

use vstd::prelude::*;
use std::collections::HashMap;

verus! {

broadcast use vstd::std_specs::hash::group_hash_axioms;

#[verifier::external_type_specification]
#[verifier::external_body]
pub struct ExInstant(std::time::Instant);

/// Relies on std::time::Instant::now for an opaque reading of a monotonic
/// clock; nothing is assumed of its value.
pub assume_specification[ std::time::Instant::now ]() -> (r: std::time::Instant);

/// Relies on std::time::Instant::elapsed for the time since the instant was
/// taken; the result depends on the clock, so nothing is assumed of it.
pub assume_specification[ std::time::Instant::elapsed ](t: &std::time::Instant) -> (r:
    std::time::Duration);

/// Relies on std::time::Duration::as_secs for the whole seconds of the
/// duration; the duration is opaque here, so nothing is assumed of it.
pub assume_specification[ std::time::Duration::as_secs ](d: &std::time::Duration) -> (r: u64);

/// Status of a timestamped value at the moment of retrieval.
enum Status {
    NotFound,
    Found,
    Expired,
}

/// Cache store bound by time: entries older than the configured lifespan,
/// in seconds, count as absent and are purged when a lookup finds them.
pub struct TimedCache<V> {
    store: HashMap<u64, (std::time::Instant, V)>,
    seconds: u64,
    hits: u32,
    misses: u32,
    initial_capacity: Option<usize>,
    reserved: usize,
}

impl<V> TimedCache<V> {
    /// The stored entries: key to insertion timestamp and value. The
    /// timestamp is opaque; contracts speak of the value part.
    pub closed spec fn contents(self) -> Map<u64, (std::time::Instant, V)> {
        self.store@
    }

    /// The configured lifespan, in seconds.
    pub closed spec fn lifespan(self) -> u64 {
        self.seconds
    }

    /// Cumulative number of lookups that found a live entry.
    pub closed spec fn hit_count(self) -> u32 {
        self.hits
    }

    /// Cumulative number of lookups that missed or found an expired entry.
    pub closed spec fn miss_count(self) -> u32 {
        self.misses
    }

    /// Entry slots set aside: the high-water entry count, at least the
    /// pre-allocation given at construction.
    pub closed spec fn backing(self) -> int {
        self.reserved as int
    }

    /// The pre-allocation given at construction, or zero.
    pub closed spec fn initial(self) -> int {
        match self.initial_capacity {
            Some(c) => c as int,
            None => 0,
        }
    }

    /// The backing never falls below the live entry count nor below the
    /// configured pre-allocation.
    pub closed spec fn wf(self) -> bool {
        &&& self.store@.dom().len() <= self.reserved as int
        &&& self.initial() <= self.reserved as int
    }

    fn new_store(capacity: Option<usize>) -> (m: HashMap<u64, (std::time::Instant, V)>)
        ensures
            m@ == Map::<u64, (std::time::Instant, V)>::empty(),
    {
        match capacity {
            Some(size) => HashMap::with_capacity(size),
            None => HashMap::new(),
        }
    }

    /// Creates a new cache with the given lifespan in seconds.
    pub fn with_lifespan(seconds: u64) -> (r: TimedCache<V>)
        ensures
            r.wf(),
            r.contents() == Map::<u64, (std::time::Instant, V)>::empty(),
            r.lifespan() == seconds,
            r.hit_count() == 0,
            r.miss_count() == 0,
            r.backing() == 0,
            r.initial() == 0,
    {
        let r = TimedCache {
            store: Self::new_store(None),
            seconds: seconds,
            hits: 0,
            misses: 0,
            initial_capacity: None,
            reserved: 0,
        };
        proof {
            assert(r.store@.dom() =~= Set::<u64>::empty());
        }
        r
    }

    /// Creates a new cache with the given lifespan in seconds and the given
    /// pre-allocated capacity.
    pub fn with_lifespan_and_capacity(seconds: u64, size: usize) -> (r: TimedCache<V>)
        ensures
            r.wf(),
            r.contents() == Map::<u64, (std::time::Instant, V)>::empty(),
            r.lifespan() == seconds,
            r.hit_count() == 0,
            r.miss_count() == 0,
            r.backing() == size as int,
            r.initial() == size as int,
    {
        let r = TimedCache {
            store: Self::new_store(Some(size)),
            seconds: seconds,
            hits: 0,
            misses: 0,
            initial_capacity: Some(size),
            reserved: size,
        };
        proof {
            assert(r.store@.dom() =~= Set::<u64>::empty());
        }
        r
    }

    /// The expiry rule: an entry is still live exactly when fewer whole
    /// seconds have elapsed since its insertion than the lifespan allows.
    /// `cache_get` decides hit versus expiry through this function, so the
    /// comparison is verified for every clock reading; with a lifespan of
    /// zero no reading is ever live.
    pub fn is_live(elapsed_secs: u64, lifespan: u64) -> (r: bool)
        ensures
            r == (elapsed_secs < lifespan),
    {
        elapsed_secs < lifespan
    }

    /// Looks the key up. An absent key counts one miss. A present key is
    /// checked against the lifespan through `is_live`: if still live it
    /// counts one hit and is returned; if expired it counts one miss and is
    /// purged. Which of the two happens depends on the clock, so for a
    /// positive lifespan the contract allows either; a lifespan of zero
    /// forces the expiry branch, since no elapsed time lies below zero.
    pub fn cache_get(&mut self, key: &u64) -> (r: Option<&V>)
        requires
            old(self).wf(),
            old(self).hit_count() < u32::MAX,
            old(self).miss_count() < u32::MAX,
        ensures
            final(self).wf(),
            final(self).lifespan() == old(self).lifespan(),
            final(self).backing() == old(self).backing(),
            final(self).initial() == old(self).initial(),
            !old(self).contents().dom().contains(*key) ==> {
                &&& r is None
                &&& final(self).contents() == old(self).contents()
                &&& final(self).hit_count() == old(self).hit_count()
                &&& final(self).miss_count() == old(self).miss_count() + 1
            },
            old(self).contents().dom().contains(*key) ==> {
                ||| {
                    &&& (r matches Some(v) && *v == old(self).contents()[*key].1)
                    &&& final(self).contents() == old(self).contents()
                    &&& final(self).hit_count() == old(self).hit_count() + 1
                    &&& final(self).miss_count() == old(self).miss_count()
                }
                ||| {
                    &&& r is None
                    &&& final(self).contents() == old(self).contents().remove(*key)
                    &&& final(self).hit_count() == old(self).hit_count()
                    &&& final(self).miss_count() == old(self).miss_count() + 1
                }
            },
            old(self).lifespan() == 0 && old(self).contents().dom().contains(*key) ==> {
                &&& r is None
                &&& final(self).contents() == old(self).contents().remove(*key)
                &&& final(self).hit_count() == old(self).hit_count()
                &&& final(self).miss_count() == old(self).miss_count() + 1
            },
    {
        let status = match self.store.get(key) {
            Some(stamped) => {
                let instant: &std::time::Instant = &stamped.0;
                let d = instant.elapsed();
                if Self::is_live(d.as_secs(), self.seconds) {
                    Status::Found
                } else {
                    Status::Expired
                }
            }
            None => Status::NotFound,
        };
        match status {
            Status::NotFound => {
                self.misses = self.misses + 1;
                None
            }
            Status::Found => {
                self.hits = self.hits + 1;
                match self.store.get(key) {
                    Some(stamped) => Some(&stamped.1),
                    None => vstd::pervasive::unreached(),
                }
            }
            Status::Expired => {
                let _ = self.store.remove(key);
                self.misses = self.misses + 1;
                proof {
                    assert(self.store@.dom() =~= old(self).store@.dom().remove(*key));
                    assert(self.store@.dom().len() == old(self).store@.dom().len() - 1);
                }
                None
            }
        }
    }

    /// Inserts or overwrites the value under the key, timestamped now.
    pub fn cache_set(&mut self, key: u64, val: V)
        requires
            old(self).wf(),
        ensures
            final(self).wf(),
            final(self).contents().dom() == old(self).contents().dom().insert(key),
            final(self).contents()[key].1 == val,
            (forall|k2: u64|
                k2 != key && old(self).contents().dom().contains(k2)
                    ==> final(self).contents()[k2] == old(self).contents()[k2]),
            final(self).lifespan() == old(self).lifespan(),
            final(self).hit_count() == old(self).hit_count(),
            final(self).miss_count() == old(self).miss_count(),
            final(self).initial() == old(self).initial(),
            final(self).backing() == vstd::math::max(
                old(self).backing(),
                final(self).contents().dom().len() as int,
            ),
    {
        let stamped = (std::time::Instant::now(), val);
        self.store.insert(key, stamped);
        proof {
            assert(self.store@.dom() =~= old(self).store@.dom().insert(key));
        }
        let l = self.store.len();
        if l > self.reserved {
            self.reserved = l;
        }
    }

    /// Removes the entry under the key, if any, and returns its value,
    /// whether or not it had expired.
    pub fn cache_remove(&mut self, k: &u64) -> (r: Option<V>)
        requires
            old(self).wf(),
        ensures
            final(self).wf(),
            final(self).contents() == old(self).contents().remove(*k),
            final(self).lifespan() == old(self).lifespan(),
            final(self).hit_count() == old(self).hit_count(),
            final(self).miss_count() == old(self).miss_count(),
            final(self).backing() == old(self).backing(),
            final(self).initial() == old(self).initial(),
            old(self).contents().dom().contains(*k) ==> (r matches Some(v) && v == old(
                self,
            ).contents()[*k].1),
            !old(self).contents().dom().contains(*k) ==> r is None,
    {
        let removed = self.store.remove(k);
        proof {
            assert(self.store@.dom() =~= old(self).store@.dom().remove(*k));
            if old(self).store@.dom().contains(*k) {
                assert(self.store@.dom().len() == old(self).store@.dom().len() - 1);
            } else {
                assert(self.store@.dom() =~= old(self).store@.dom());
            }
        }
        match removed {
            Some(stamped) => Some(stamped.1),
            None => None,
        }
    }

    /// Empties the cache. Counters and backing storage are untouched.
    pub fn cache_clear(&mut self)
        requires
            old(self).wf(),
        ensures
            final(self).wf(),
            final(self).contents() == Map::<u64, (std::time::Instant, V)>::empty(),
            final(self).lifespan() == old(self).lifespan(),
            final(self).hit_count() == old(self).hit_count(),
            final(self).miss_count() == old(self).miss_count(),
            final(self).backing() == old(self).backing(),
            final(self).initial() == old(self).initial(),
    {
        self.store.clear();
        proof {
            assert(self.store@.dom() =~= Set::<u64>::empty());
        }
    }

    /// Empties the cache and shrinks the backing storage back to the
    /// pre-allocation given at construction. Counters are untouched.
    pub fn cache_reset(&mut self)
        requires
            old(self).wf(),
        ensures
            final(self).wf(),
            final(self).contents() == Map::<u64, (std::time::Instant, V)>::empty(),
            final(self).lifespan() == old(self).lifespan(),
            final(self).hit_count() == old(self).hit_count(),
            final(self).miss_count() == old(self).miss_count(),
            final(self).backing() == old(self).initial(),
            final(self).initial() == old(self).initial(),
    {
        let cap_opt = self.initial_capacity;
        self.store = Self::new_store(cap_opt);
        self.reserved = match cap_opt {
            Some(c) => c,
            None => 0,
        };
        proof {
            assert(self.store@.dom() =~= Set::<u64>::empty());
        }
    }

    /// Current number of stored entries, expired ones included.
    pub fn cache_size(&self) -> (r: usize)
        ensures
            r as int == self.contents().dom().len() as int,
    {
        self.store.len()
    }

    /// Cumulative hits; never reset by `cache_clear` or `cache_reset`.
    pub fn cache_hits(&self) -> (r: Option<u32>)
        ensures
            r == Some(self.hit_count()),
    {
        Some(self.hits)
    }

    /// Cumulative misses; never reset by `cache_clear` or `cache_reset`.
    pub fn cache_misses(&self) -> (r: Option<u32>)
        ensures
            r == Some(self.miss_count()),
    {
        Some(self.misses)
    }

    /// The configured lifespan, in seconds.
    pub fn cache_lifespan(&self) -> (r: Option<u64>)
        ensures
            r == Some(self.lifespan()),
    {
        Some(self.seconds)
    }

    /// The backing storage currently set aside for entries.
    pub fn backing_capacity(&self) -> (r: usize)
        ensures
            r as int == self.backing(),
    {
        self.reserved
    }
}

} // verus!
