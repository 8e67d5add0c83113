//! Unbounded cache: a thin wrapper over a hash map, with no size limit and
//! no eviction policy.

use vstd::prelude::*;
use std::collections::HashMap;

verus! {

broadcast use vstd::std_specs::hash::group_hash_axioms;

/// Default unbounded cache. `cache_clear` keeps the backing storage grown
/// so far for reuse; `cache_reset` shrinks it back to the pre-allocation
/// given at construction, or to nothing.
pub struct UnboundCache<V> {
    store: HashMap<u64, V>,
    hits: u32,
    misses: u32,
    initial_capacity: Option<usize>,
    reserved: usize,
}

impl<V> UnboundCache<V> {
    /// The stored entries, as a map from key to value.
    pub closed spec fn contents(self) -> Map<u64, V> {
        self.store@
    }

    /// Cumulative number of lookups that found their key.
    pub closed spec fn hit_count(self) -> u32 {
        self.hits
    }

    /// Cumulative number of lookups that missed.
    pub closed spec fn miss_count(self) -> u32 {
        self.misses
    }

    /// Entry slots set aside: the high-water entry count, at least the
    /// pre-allocation given at construction.
    pub closed spec fn backing(self) -> int {
        self.reserved as int
    }

    /// The pre-allocation given at construction, or zero.
    pub closed spec fn initial(self) -> int {
        match self.initial_capacity {
            Some(c) => c as int,
            None => 0,
        }
    }

    /// The backing never falls below the live entry count nor below the
    /// configured pre-allocation.
    pub closed spec fn wf(self) -> bool {
        &&& self.store@.dom().len() <= self.reserved as int
        &&& self.initial() <= self.reserved as int
    }

    fn new_store(capacity: Option<usize>) -> (m: HashMap<u64, V>)
        ensures
            m@ == Map::<u64, V>::empty(),
    {
        match capacity {
            Some(size) => HashMap::with_capacity(size),
            None => HashMap::new(),
        }
    }

    /// Creates an empty cache with no pre-allocation.
    pub fn new() -> (r: UnboundCache<V>)
        ensures
            r.wf(),
            r.contents() == Map::<u64, V>::empty(),
            r.hit_count() == 0,
            r.miss_count() == 0,
            r.backing() == 0,
            r.initial() == 0,
    {
        let r = UnboundCache {
            store: Self::new_store(None),
            hits: 0,
            misses: 0,
            initial_capacity: None,
            reserved: 0,
        };
        proof {
            assert(r.store@.dom() =~= Set::<u64>::empty());
        }
        r
    }

    /// Creates an empty cache with the given pre-allocated capacity.
    pub fn with_capacity(size: usize) -> (r: UnboundCache<V>)
        ensures
            r.wf(),
            r.contents() == Map::<u64, V>::empty(),
            r.hit_count() == 0,
            r.miss_count() == 0,
            r.backing() == size as int,
            r.initial() == size as int,
    {
        let r = UnboundCache {
            store: Self::new_store(Some(size)),
            hits: 0,
            misses: 0,
            initial_capacity: Some(size),
            reserved: size,
        };
        proof {
            assert(r.store@.dom() =~= Set::<u64>::empty());
        }
        r
    }

    /// Looks the key up; a hit counts one hit, a miss one miss. The entries
    /// themselves are untouched.
    pub fn cache_get(&mut self, key: &u64) -> (r: Option<&V>)
        requires
            old(self).wf(),
            old(self).hit_count() < u32::MAX,
            old(self).miss_count() < u32::MAX,
        ensures
            final(self).wf(),
            final(self).contents() == old(self).contents(),
            final(self).backing() == old(self).backing(),
            final(self).initial() == old(self).initial(),
            old(self).contents().dom().contains(*key) ==> {
                &&& (r matches Some(v) && *v == old(self).contents()[*key])
                &&& final(self).hit_count() == old(self).hit_count() + 1
                &&& final(self).miss_count() == old(self).miss_count()
            },
            !old(self).contents().dom().contains(*key) ==> {
                &&& r is None
                &&& final(self).hit_count() == old(self).hit_count()
                &&& final(self).miss_count() == old(self).miss_count() + 1
            },
    {
        match self.store.get(key) {
            Some(v) => {
                self.hits = self.hits + 1;
                Some(v)
            }
            None => {
                self.misses = self.misses + 1;
                None
            }
        }
    }

    /// Inserts or overwrites the value under the key.
    pub fn cache_set(&mut self, key: u64, val: V)
        requires
            old(self).wf(),
        ensures
            final(self).wf(),
            final(self).contents() == old(self).contents().insert(key, val),
            final(self).hit_count() == old(self).hit_count(),
            final(self).miss_count() == old(self).miss_count(),
            final(self).initial() == old(self).initial(),
            final(self).backing() == vstd::math::max(
                old(self).backing(),
                final(self).contents().dom().len() as int,
            ),
    {
        self.store.insert(key, val);
        proof {
            assert(self.store@.dom() =~= old(self).store@.dom().insert(key));
        }
        let l = self.store.len();
        if l > self.reserved {
            self.reserved = l;
        }
    }

    /// Removes the entry under the key, if any, and returns its value.
    pub fn cache_remove(&mut self, k: &u64) -> (r: Option<V>)
        requires
            old(self).wf(),
        ensures
            final(self).wf(),
            final(self).contents() == old(self).contents().remove(*k),
            final(self).hit_count() == old(self).hit_count(),
            final(self).miss_count() == old(self).miss_count(),
            final(self).backing() == old(self).backing(),
            final(self).initial() == old(self).initial(),
            old(self).contents().dom().contains(*k) ==> (r matches Some(v) && v == old(
                self,
            ).contents()[*k]),
            !old(self).contents().dom().contains(*k) ==> r is None,
    {
        let r = self.store.remove(k);
        proof {
            assert(self.store@.dom() =~= old(self).store@.dom().remove(*k));
            if old(self).store@.dom().contains(*k) {
                assert(self.store@.dom().len() == old(self).store@.dom().len() - 1);
            } else {
                assert(self.store@.dom() =~= old(self).store@.dom());
            }
        }
        r
    }

    /// Empties the cache. Counters and backing storage are untouched.
    pub fn cache_clear(&mut self)
        requires
            old(self).wf(),
        ensures
            final(self).wf(),
            final(self).contents() == Map::<u64, V>::empty(),
            final(self).hit_count() == old(self).hit_count(),
            final(self).miss_count() == old(self).miss_count(),
            final(self).backing() == old(self).backing(),
            final(self).initial() == old(self).initial(),
    {
        self.store.clear();
        proof {
            assert(self.store@.dom() =~= Set::<u64>::empty());
        }
    }

    /// Empties the cache and shrinks the backing storage back to the
    /// pre-allocation given at construction. Counters are untouched.
    pub fn cache_reset(&mut self)
        requires
            old(self).wf(),
        ensures
            final(self).wf(),
            final(self).contents() == Map::<u64, V>::empty(),
            final(self).hit_count() == old(self).hit_count(),
            final(self).miss_count() == old(self).miss_count(),
            final(self).backing() == old(self).initial(),
            final(self).initial() == old(self).initial(),
    {
        let cap_opt = self.initial_capacity;
        self.store = Self::new_store(cap_opt);
        self.reserved = match cap_opt {
            Some(c) => c,
            None => 0,
        };
        proof {
            assert(self.store@.dom() =~= Set::<u64>::empty());
        }
    }

    /// Current number of live entries.
    pub fn cache_size(&self) -> (r: usize)
        ensures
            r as int == self.contents().dom().len() as int,
    {
        self.store.len()
    }

    /// Cumulative hits; never reset by `cache_clear` or `cache_reset`.
    pub fn cache_hits(&self) -> (r: Option<u32>)
        ensures
            r == Some(self.hit_count()),
    {
        Some(self.hits)
    }

    /// Cumulative misses; never reset by `cache_clear` or `cache_reset`.
    pub fn cache_misses(&self) -> (r: Option<u32>)
        ensures
            r == Some(self.miss_count()),
    {
        Some(self.misses)
    }

    /// The backing storage currently set aside for entries.
    pub fn backing_capacity(&self) -> (r: usize)
        ensures
            r as int == self.backing(),
    {
        self.reserved
    }
}

} // verus!
