//! Mathematical model of the size-bounded cache: the recency sequence of
//! entries and the transitions that lookup, insertion and removal perform
//! on it. Entries are ordered from most to least recently used.

use vstd::prelude::*;

verus! {

/// No two entries share a key.
pub open spec fn distinct_keys<V>(entries: Seq<(u64, V)>) -> bool {
    forall|i: int, j: int| 0 <= i < j < entries.len() ==> entries[i].0 != entries[j].0
}

/// The keys of the entries, most to least recently used.
pub open spec fn keys_of<V>(entries: Seq<(u64, V)>) -> Seq<u64> {
    entries.map_values(|e: (u64, V)| e.0)
}

/// Whether some entry holds the key.
pub open spec fn has_key<V>(entries: Seq<(u64, V)>, key: u64) -> bool {
    exists|j: int| 0 <= j < entries.len() && entries[j].0 == key
}

/// The position of the entry holding the key; meaningful when the keys are
/// distinct and the key is present.
pub open spec fn key_index<V>(entries: Seq<(u64, V)>, key: u64) -> int {
    choose|j: int| 0 <= j < entries.len() && entries[j].0 == key
}

/// The value stored under the key.
pub open spec fn value_at<V>(entries: Seq<(u64, V)>, key: u64) -> V {
    entries[key_index(entries, key)].1
}

/// A successful lookup moves its entry to the front, the most recent spot;
/// the relative order of the other entries is kept.
pub open spec fn promote<V>(entries: Seq<(u64, V)>, key: u64) -> Seq<(u64, V)> {
    let j = key_index(entries, key);
    seq![entries[j]] + entries.remove(j)
}

/// When the cache is full the least recently used entry leaves, before
/// anything is inserted.
pub open spec fn evict_if_full<V>(entries: Seq<(u64, V)>, cap: int) -> Seq<(u64, V)> {
    if entries.len() >= cap {
        entries.drop_last()
    } else {
        entries
    }
}

/// What an insertion does: evict first when at capacity, then either
/// overwrite the present entry in place, keeping its recency, or prepend a
/// fresh entry at the most recent spot.
pub open spec fn set_entry<V>(entries: Seq<(u64, V)>, cap: int, key: u64, val: V) -> Seq<
    (u64, V),
> {
    let e1 = evict_if_full(entries, cap);
    if has_key(e1, key) {
        e1.update(key_index(e1, key), (key, val))
    } else {
        seq![(key, val)] + e1
    }
}

/// What a removal does: drop the entry holding the key, if any.
pub open spec fn remove_entry<V>(entries: Seq<(u64, V)>, key: u64) -> Seq<(u64, V)> {
    if has_key(entries, key) {
        entries.remove(key_index(entries, key))
    } else {
        entries
    }
}

/// With distinct keys, the entry holding a key sits at exactly one position.
pub proof fn lemma_key_index_unique<V>(entries: Seq<(u64, V)>, key: u64, j: int)
    requires
        distinct_keys(entries),
        0 <= j < entries.len(),
        entries[j].0 == key,
    ensures
        has_key(entries, key),
        key_index(entries, key) == j,
{
    assert(has_key(entries, key));
    let j2 = key_index(entries, key);
    assert(0 <= j2 < entries.len() && entries[j2].0 == key);
    if j2 < j {
        assert(entries[j2].0 != entries[j].0);
    } else if j < j2 {
        assert(entries[j].0 != entries[j2].0);
    }
}

} // verus!
