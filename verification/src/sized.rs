//! Size-bounded cache with least-recently-used eviction: a hash index from
//! key to slot, kept in lock-step with the order list that tracks recency.

use vstd::prelude::*;
use std::collections::HashMap;
use crate::list::LRUList;
use crate::model::{
    distinct_keys, evict_if_full, has_key, keys_of, lemma_key_index_unique, promote,
    remove_entry, set_entry, value_at,
};

verus! {

broadcast use vstd::std_specs::hash::group_hash_axioms, crate::list::LRUList::lemma_len;

/// Least recently used cache: stores up to a fixed number of entries and,
/// once full, evicts the least recently used entry before inserting. Reads
/// promote the entry they find to most recently used; overwrites through
/// `cache_set` do not.
pub struct SizedCache<V> {
    store: HashMap<u64, usize>,
    order: LRUList<(u64, V)>,
    capacity: usize,
    hits: u32,
    misses: u32,
}

impl<V> SizedCache<V> {
    /// The entries, most to least recently used.
    pub closed spec fn entries(self) -> Seq<(u64, V)> {
        self.order.contents()
    }

    /// The keys, most to least recently used.
    pub open spec fn keys(self) -> Seq<u64> {
        keys_of(self.entries())
    }

    /// Number of live entries.
    pub open spec fn len(self) -> int {
        self.entries().len() as int
    }

    /// The fixed capacity the cache was built with.
    pub closed spec fn cap(self) -> int {
        self.capacity as int
    }

    /// Cumulative number of lookups that found their key.
    pub closed spec fn hit_count(self) -> u32 {
        self.hits
    }

    /// Cumulative number of lookups that missed.
    pub closed spec fn miss_count(self) -> u32 {
        self.misses
    }

    /// The hash index and the order list agree exactly: every entry's key
    /// maps to that entry's slot, every indexed key has an entry, and the
    /// counts match.
    spec fn index_ok(self) -> bool {
        &&& self.store@.dom().len() == self.order.contents().len()
        &&& (forall|t: int|
            0 <= t < self.order.contents().len() ==> self.store@.contains_key(
                (#[trigger] self.order.contents()[t]).0,
            ) && self.store@[self.order.contents()[t].0] == self.order.slots()[t])
        &&& (forall|k: u64|
            #[trigger] self.store@.dom().contains(k) ==> exists|t: int|
                0 <= t < self.order.contents().len() && self.order.contents()[t].0 == k)
    }

    /// Well-formedness: the order list is consistent, the capacity is
    /// positive and respected, keys are unique, and the index agrees with
    /// the order list.
    pub closed spec fn wf(self) -> bool {
        &&& self.order.wf()
        &&& self.capacity > 0
        &&& self.order.contents().len() <= self.capacity
        &&& distinct_keys(self.order.contents())
        &&& self.index_ok()
    }

    /// What well-formedness lets every caller rely on: the capacity is
    /// positive, no two entries share a key, and the entry count never
    /// exceeds the capacity.
    pub proof fn lemma_wf_entries(self)
        requires
            self.wf(),
        ensures
            0 < self.cap(),
            distinct_keys(self.entries()),
            self.entries().len() <= self.cap(),
    {
    }

    /// Creates a new cache with the given size limit and pre-allocated
    /// backing storage. A size of zero is a configuration error and is
    /// ruled out up front.
    pub fn with_size(size: usize) -> (r: SizedCache<V>)
        requires
            size > 0,
        ensures
            r.wf(),
            r.entries() == Seq::<(u64, V)>::empty(),
            r.cap() == size as int,
            r.hit_count() == 0,
            r.miss_count() == 0,
    {
        let r = SizedCache {
            store: HashMap::with_capacity(size),
            order: LRUList::with_capacity(size),
            capacity: size,
            hits: 0,
            misses: 0,
        };
        proof {
            assert(r.store@.dom() =~= Set::<u64>::empty());
        }
        r
    }

    /// Alias kept for callers of the constructor's earlier name.
    pub fn with_capacity(size: usize) -> (r: SizedCache<V>)
        requires
            size > 0,
        ensures
            r.wf(),
            r.entries() == Seq::<(u64, V)>::empty(),
            r.cap() == size as int,
            r.hit_count() == 0,
            r.miss_count() == 0,
    {
        Self::with_size(size)
    }

    /// Looks the key up. A hit promotes the entry to most recently used and
    /// counts one hit; a miss counts one miss and changes nothing else.
    pub fn cache_get(&mut self, key: &u64) -> (r: Option<&V>)
        requires
            old(self).wf(),
            old(self).hit_count() < u32::MAX,
            old(self).miss_count() < u32::MAX,
        ensures
            final(self).wf(),
            final(self).cap() == old(self).cap(),
            has_key(old(self).entries(), *key) ==> {
                &&& final(self).entries() == promote(old(self).entries(), *key)
                &&& r matches Some(v) && *v == value_at(old(self).entries(), *key)
                &&& final(self).hit_count() == old(self).hit_count() + 1
                &&& final(self).miss_count() == old(self).miss_count()
            },
            !has_key(old(self).entries(), *key) ==> {
                &&& final(self).entries() == old(self).entries()
                &&& r is None
                &&& final(self).hit_count() == old(self).hit_count()
                &&& final(self).miss_count() == old(self).miss_count() + 1
            },
    {
        let idx_opt: Option<usize> = match self.store.get(key) {
            Some(i) => Some(*i),
            None => None,
        };
        match idx_opt {
            Some(index) => {
                let ghost e0 = old(self).entries();
                let ghost j = choose|t: int| 0 <= t < e0.len() && e0[t].0 == *key;
                proof {
                    assert(self.store@.contains_key(*key) && self.store@[*key] == index);
                    assert(self.store@.dom().contains(*key));
                    assert(0 <= j < e0.len() && e0[j].0 == *key);
                    lemma_key_index_unique(e0, *key, j);
                    assert(self.store@[e0[j].0] == self.order.slots()[j]);
                }
                self.order.move_to_front(index, Ghost(j));
                self.hits = self.hits + 1;
                proof {
                    let e2 = self.order.contents();
                    let s2 = self.order.slots();
                    assert(e2 == promote(e0, *key));
                    assert forall|t: int, u: int| 0 <= t < u < e2.len() implies e2[t].0
                        != e2[u].0 by {
                        let t0 = if t == 0 {
                            j
                        } else if t - 1 < j {
                            t - 1
                        } else {
                            t
                        };
                        let u0 = if u - 1 < j {
                            u - 1
                        } else {
                            u
                        };
                        assert(e2[t] == e0[t0]);
                        assert(e2[u] == e0[u0]);
                        assert(t0 != u0);
                    }
                    assert forall|t: int|
                        0 <= t < e2.len() implies self.store@.contains_key(
                        (#[trigger] e2[t]).0,
                    ) && self.store@[e2[t].0] == s2[t] by {
                        let t0 = if t == 0 {
                            j
                        } else if t - 1 < j {
                            t - 1
                        } else {
                            t
                        };
                        assert(e2[t] == e0[t0]);
                        assert(s2[t] == old(self).order.slots()[t0]);
                        assert(self.store@.contains_key(e0[t0].0) && self.store@[e0[t0].0] == old(
                            self,
                        ).order.slots()[t0]);
                    }
                    assert forall|k: u64| #[trigger] self.store@.dom().contains(k) implies exists|
                        t: int,
                    | 0 <= t < e2.len() && e2[t].0 == k by {
                        let t0 = choose|t0: int| 0 <= t0 < e0.len() && e0[t0].0 == k;
                        let t = if t0 == j {
                            0
                        } else if t0 < j {
                            t0 + 1
                        } else {
                            t0
                        };
                        assert(e2[t] == e0[t0]);
                    }
                    assert(final(self).wf());
                }
                let p = self.order.get(index, Ghost(0));
                Some(&p.1)
            }
            None => {
                proof {
                    if has_key(old(self).entries(), *key) {
                        let t = choose|t: int|
                            0 <= t < old(self).entries().len() && old(self).entries()[t].0 == *key;
                        assert(self.store@.contains_key(old(self).entries()[t].0));
                        assert(false);
                    }
                }
                self.misses = self.misses + 1;
                None
            }
        }
    }

    /// Inserts or overwrites. At capacity the least recently used entry is
    /// evicted first; a fresh key is then prepended as most recently used,
    /// while a present key is overwritten in place, keeping its recency.
    /// Eviction happens before the key is looked up, so writing a key into
    /// a full cache can evict that very key — then least recently used —
    /// and re-insert it at the front.
    pub fn cache_set(&mut self, key: u64, val: V)
        requires
            old(self).wf(),
        ensures
            final(self).wf(),
            final(self).cap() == old(self).cap(),
            final(self).entries() == set_entry(
                old(self).entries(),
                old(self).cap(),
                key,
                val,
            ),
            final(self).hit_count() == old(self).hit_count(),
            final(self).miss_count() == old(self).miss_count(),
    {
        if self.store.len() >= self.capacity {
            let ghost e0 = old(self).entries();
            proof {
                assert(self.store@.dom().len() >= self.capacity);
                assert(e0.len() == self.cap());
                assert(e0.len() > 0);
            }
            let pair = self.order.pop_back();
            let evicted_key = pair.0;
            let _ = self.store.remove(&evicted_key);
            proof {
                let e1 = self.order.contents();
                let s1 = self.order.slots();
                assert(evicted_key == e0.last().0);
                assert(old(self).store@.contains_key(e0[e0.len() - 1].0));
                assert(self.store@ == old(self).store@.remove(evicted_key));
                assert(self.store@.dom() =~= old(self).store@.dom().remove(evicted_key));
                assert(self.store@.dom().len() == e1.len());
                assert forall|t: int|
                    0 <= t < e1.len() implies self.store@.contains_key((#[trigger] e1[t]).0)
                    && self.store@[e1[t].0] == s1[t] by {
                    assert(e1[t] == e0[t]);
                    assert(s1[t] == old(self).order.slots()[t]);
                    assert(e0[t].0 != e0[e0.len() - 1].0);
                }
                assert forall|k: u64| #[trigger] self.store@.dom().contains(k) implies exists|
                    t: int,
                | 0 <= t < e1.len() && e1[t].0 == k by {
                    let t0 = choose|t0: int| 0 <= t0 < e0.len() && e0[t0].0 == k;
                    assert(k != evicted_key);
                    assert(t0 != e0.len() - 1);
                    assert(e1[t0] == e0[t0]);
                }
                assert(self.wf());
            }
        }
        let ghost mid = *self;
        proof {
            assert(mid.wf());
            assert(mid.entries() == evict_if_full(old(self).entries(), old(self).cap()));
            assert(mid.entries().len() < mid.cap()) by {
                if old(self).entries().len() >= old(self).cap() {
                    assert(mid.entries().len() == old(self).entries().len() - 1);
                } else {
                    assert(old(self).store@.dom().len() < old(self).capacity);
                }
            }
        }
        let idx_opt: Option<usize> = match self.store.get(&key) {
            Some(i) => Some(*i),
            None => None,
        };
        match idx_opt {
            Some(index) => {
                let ghost e1 = mid.entries();
                let ghost j = choose|t: int| 0 <= t < e1.len() && e1[t].0 == key;
                proof {
                    assert(self.store@.contains_key(key) && self.store@[key] == index);
                    assert(self.store@.dom().contains(key));
                    assert(0 <= j < e1.len() && e1[j].0 == key);
                    lemma_key_index_unique(e1, key, j);
                    assert(self.store@[e1[j].0] == self.order.slots()[j]);
                }
                self.order.set(index, (key, val), Ghost(j));
                proof {
                    let e2 = self.order.contents();
                    assert(e2 == e1.update(j, (key, val)));
                    assert forall|t: int, u: int| 0 <= t < u < e2.len() implies e2[t].0
                        != e2[u].0 by {
                        assert(e1[t].0 != e1[u].0);
                    }
                    assert forall|t: int|
                        0 <= t < e2.len() implies self.store@.contains_key(
                        (#[trigger] e2[t]).0,
                    ) && self.store@[e2[t].0] == self.order.slots()[t] by {
                        assert(mid.store@.contains_key((e1[t]).0) && mid.store@[e1[t].0]
                            == mid.order.slots()[t]);
                    }
                    assert forall|k: u64| #[trigger] self.store@.dom().contains(k) implies exists|
                        t: int,
                    | 0 <= t < e2.len() && e2[t].0 == k by {
                        let t0 = choose|t0: int| 0 <= t0 < e1.len() && e1[t0].0 == k;
                        assert(e2[t0].0 == e1[t0].0);
                    }
                    assert(final(self).wf());
                    assert(final(self).entries() == set_entry(
                        old(self).entries(),
                        old(self).cap(),
                        key,
                        val,
                    ));
                }
            }
            None => {
                proof {
                    if has_key(mid.entries(), key) {
                        let t = choose|t: int|
                            0 <= t < mid.entries().len() && mid.entries()[t].0 == key;
                        assert(self.store@.contains_key(mid.entries()[t].0));
                        assert(false);
                    }
                }
                let index = self.order.push_front((key, val));
                self.store.insert(key, index);
                proof {
                    let e1 = mid.entries();
                    let e2 = self.order.contents();
                    let s2 = self.order.slots();
                    assert(e2 == seq![(key, val)] + e1);
                    assert(self.store@ == mid.store@.insert(key, index));
                    assert(self.store@.dom() =~= mid.store@.dom().insert(key));
                    assert(!mid.store@.dom().contains(key));
                    assert(self.store@.dom().len() == e2.len());
                    assert forall|t: int, u: int| 0 <= t < u < e2.len() implies e2[t].0
                        != e2[u].0 by {
                        assert(e2[u] == e1[u - 1]);
                        if t > 0 {
                            assert(e2[t] == e1[t - 1]);
                        } else {
                            if e1[u - 1].0 == key {
                                assert(mid.store@.dom().contains(e1[u - 1].0));
                                assert(false);
                            }
                        }
                    }
                    assert forall|t: int|
                        0 <= t < e2.len() implies self.store@.contains_key(
                        (#[trigger] e2[t]).0,
                    ) && self.store@[e2[t].0] == s2[t] by {
                        if t > 0 {
                            assert(e2[t] == e1[t - 1]);
                            assert(s2[t] == mid.order.slots()[t - 1]);
                            assert(mid.store@.contains_key(e1[t - 1].0) && mid.store@[e1[t - 1].0]
                                == mid.order.slots()[t - 1]);
                            if e1[t - 1].0 == key {
                                assert(mid.store@.dom().contains(key));
                                assert(false);
                            }
                            assert(!mid.order.slots().contains(index));
                            assert(mid.order.slots()[t - 1] != index);
                        }
                    }
                    assert forall|k: u64| #[trigger] self.store@.dom().contains(k) implies exists|
                        t: int,
                    | 0 <= t < e2.len() && e2[t].0 == k by {
                        if k == key {
                            assert(e2[0].0 == k);
                        } else {
                            assert(mid.store@.dom().contains(k));
                            let t0 = choose|t0: int| 0 <= t0 < e1.len() && e1[t0].0 == k;
                            assert(e2[t0 + 1] == e1[t0]);
                        }
                    }
                    assert(final(self).wf());
                    assert(final(self).entries() == set_entry(
                        old(self).entries(),
                        old(self).cap(),
                        key,
                        val,
                    ));
                }
            }
        }
    }

    /// Removes the entry holding the key, if any, and returns its value.
    /// An absent key returns nothing and has no side effects.
    pub fn cache_remove(&mut self, k: &u64) -> (r: Option<V>)
        requires
            old(self).wf(),
        ensures
            final(self).wf(),
            final(self).cap() == old(self).cap(),
            final(self).entries() == remove_entry(old(self).entries(), *k),
            final(self).hit_count() == old(self).hit_count(),
            final(self).miss_count() == old(self).miss_count(),
            has_key(old(self).entries(), *k) ==> (r matches Some(v) && v == value_at(
                old(self).entries(),
                *k,
            )),
            !has_key(old(self).entries(), *k) ==> r is None,
    {
        let idx_opt = self.store.remove(k);
        match idx_opt {
            Some(index) => {
                let ghost e0 = old(self).entries();
                let ghost j = choose|t: int| 0 <= t < e0.len() && e0[t].0 == *k;
                proof {
                    assert(old(self).store@.contains_key(*k) && old(self).store@[*k] == index);
                    assert(old(self).store@.dom().contains(*k));
                    assert(0 <= j < e0.len() && e0[j].0 == *k);
                    lemma_key_index_unique(e0, *k, j);
                    assert(old(self).store@[e0[j].0] == self.order.slots()[j]);
                    assert(self.store@ == old(self).store@.remove(*k));
                }
                let pair = self.order.remove(index, Ghost(j));
                proof {
                    let e2 = self.order.contents();
                    let s2 = self.order.slots();
                    assert(e2 == e0.remove(j));
                    assert(self.store@.dom() =~= old(self).store@.dom().remove(*k));
                    assert(self.store@.dom().len() == e2.len());
                    assert forall|t: int, u: int| 0 <= t < u < e2.len() implies e2[t].0
                        != e2[u].0 by {
                        let t0 = if t < j {
                            t
                        } else {
                            t + 1
                        };
                        let u0 = if u < j {
                            u
                        } else {
                            u + 1
                        };
                        assert(e2[t] == e0[t0]);
                        assert(e2[u] == e0[u0]);
                    }
                    assert forall|t: int|
                        0 <= t < e2.len() implies self.store@.contains_key(
                        (#[trigger] e2[t]).0,
                    ) && self.store@[e2[t].0] == s2[t] by {
                        let t0 = if t < j {
                            t
                        } else {
                            t + 1
                        };
                        assert(e2[t] == e0[t0]);
                        assert(s2[t] == old(self).order.slots()[t0]);
                        assert(e0[t0].0 != e0[j].0);
                        assert(old(self).store@.contains_key(e0[t0].0) && old(
                            self,
                        ).store@[e0[t0].0] == old(self).order.slots()[t0]);
                    }
                    assert forall|k2: u64| #[trigger] self.store@.dom().contains(k2) implies exists|
                        t: int,
                    | 0 <= t < e2.len() && e2[t].0 == k2 by {
                        assert(old(self).store@.dom().contains(k2));
                        let t0 = choose|t0: int| 0 <= t0 < e0.len() && e0[t0].0 == k2;
                        assert(k2 != *k);
                        assert(t0 != j);
                        let t = if t0 < j {
                            t0
                        } else {
                            t0 - 1
                        };
                        assert(e2[t] == e0[t0]);
                    }
                    assert(final(self).wf());
                }
                Some(pair.1)
            }
            None => {
                proof {
                    if has_key(old(self).entries(), *k) {
                        let t = choose|t: int|
                            0 <= t < old(self).entries().len() && old(self).entries()[t].0 == *k;
                        assert(old(self).store@.contains_key(old(self).entries()[t].0));
                        assert(false);
                    }
                }
                None
            }
        }
    }

    /// Empties the cache. Hit and miss counters are untouched, and the
    /// capacity stays what it was at construction.
    pub fn cache_clear(&mut self)
        requires
            old(self).wf(),
        ensures
            final(self).wf(),
            final(self).cap() == old(self).cap(),
            final(self).entries() == Seq::<(u64, V)>::empty(),
            final(self).hit_count() == old(self).hit_count(),
            final(self).miss_count() == old(self).miss_count(),
    {
        self.store.clear();
        self.order.clear();
        proof {
            assert(self.store@.dom() =~= Set::<u64>::empty());
        }
    }

    /// For this cache, identical to `cache_clear`: the capacity is fixed at
    /// construction and cannot shrink or grow.
    pub fn cache_reset(&mut self)
        requires
            old(self).wf(),
        ensures
            final(self).wf(),
            final(self).cap() == old(self).cap(),
            final(self).entries() == Seq::<(u64, V)>::empty(),
            final(self).hit_count() == old(self).hit_count(),
            final(self).miss_count() == old(self).miss_count(),
    {
        self.cache_clear();
    }

    /// Current number of live entries; never exceeds the capacity.
    pub fn cache_size(&self) -> (r: usize)
        requires
            self.wf(),
        ensures
            r as int == self.len(),
            r as int <= self.cap(),
    {
        self.store.len()
    }

    /// Cumulative hits; never reset by `cache_clear` or `cache_reset`.
    pub fn cache_hits(&self) -> (r: Option<u32>)
        ensures
            r == Some(self.hit_count()),
    {
        Some(self.hits)
    }

    /// Cumulative misses; never reset by `cache_clear` or `cache_reset`.
    pub fn cache_misses(&self) -> (r: Option<u32>)
        ensures
            r == Some(self.miss_count()),
    {
        Some(self.misses)
    }

    /// The size limit the cache was built with.
    pub fn cache_capacity(&self) -> (r: Option<usize>)
        ensures
            r == Some((self.cap() as usize)),
    {
        Some(self.capacity)
    }

    /// The backing storage set aside for entries: fixed at the capacity.
    pub fn backing_capacity(&self) -> (r: usize)
        ensures
            r as int == self.cap(),
    {
        self.capacity
    }

    /// The keys in the current order, from most to least recently used.
    pub fn key_order(&self) -> (r: Vec<u64>)
        requires
            self.wf(),
        ensures
            r@ == self.keys(),
    {
        let slot_vec = self.order.slot_order();
        let mut r: Vec<u64> = Vec::new();
        let mut i: usize = 0;
        while i < slot_vec.len()
            invariant
                self.wf(),
                slot_vec@ == self.order.slots(),
                i <= slot_vec@.len(),
                r@.len() == i,
                forall|t: int| 0 <= t < i ==> r@[t] == self.order.contents()[t].0,
            decreases slot_vec@.len() - i,
        {
            let p = self.order.get(slot_vec[i], Ghost(i as int));
            r.push(p.0);
            i = i + 1;
        }
        proof {
            assert(r@ =~= self.keys());
        }
        r
    }
}

impl<V: Copy> SizedCache<V> {
    /// The values in the current order, from most to least recently used.
    pub fn value_order(&self) -> (r: Vec<V>)
        requires
            self.wf(),
        ensures
            r@ == self.entries().map_values(|e: (u64, V)| e.1),
    {
        let slot_vec = self.order.slot_order();
        let mut r: Vec<V> = Vec::new();
        let mut i: usize = 0;
        while i < slot_vec.len()
            invariant
                self.wf(),
                slot_vec@ == self.order.slots(),
                i <= slot_vec@.len(),
                r@.len() == i,
                forall|t: int| 0 <= t < i ==> r@[t] == self.order.contents()[t].1,
            decreases slot_vec@.len() - i,
        {
            let p = self.order.get(slot_vec[i], Ghost(i as int));
            r.push(p.1);
            i = i + 1;
        }
        proof {
            assert(r@ =~= self.entries().map_values(|e: (u64, V)| e.1));
        }
        r
    }
}

} // verus!
