//! Laws of the size-bounded cache, stated over the model transitions that
//! the cache operations are specified with, and proved once and for all.

use vstd::prelude::*;
use crate::model::{
    distinct_keys, evict_if_full, has_key, key_index, keys_of, lemma_key_index_unique, promote,
    set_entry,
};

verus! {

/// The state after a whole sequence of insertions, applied first to last.
pub open spec fn set_all<V>(entries: Seq<(u64, V)>, cap: int, ops: Seq<(u64, V)>) -> Seq<
    (u64, V),
>
    decreases ops.len(),
{
    if ops.len() == 0 {
        entries
    } else {
        set_all(set_entry(entries, cap, ops[0].0, ops[0].1), cap, ops.skip(1))
    }
}

/// One insertion into a well-formed state keeps the keys distinct, keeps
/// the entry count within the capacity, and leaves the inserted key
/// present.
pub proof fn lemma_set_entry_wf<V>(entries: Seq<(u64, V)>, cap: int, key: u64, val: V)
    requires
        distinct_keys(entries),
        entries.len() <= cap,
        cap > 0,
    ensures
        distinct_keys(set_entry(entries, cap, key, val)),
        set_entry(entries, cap, key, val).len() <= cap,
        has_key(set_entry(entries, cap, key, val), key),
{
    let e1 = evict_if_full(entries, cap);
    assert(distinct_keys(e1)) by {
        if entries.len() >= cap {
            assert forall|t: int, u: int| 0 <= t < u < e1.len() implies e1[t].0 != e1[u].0 by {
                assert(e1[t] == entries[t]);
                assert(e1[u] == entries[u]);
            }
        }
    }
    let r = set_entry(entries, cap, key, val);
    if has_key(e1, key) {
        let j = key_index(e1, key);
        assert(0 <= j < e1.len() && e1[j].0 == key);
        assert forall|t: int, u: int| 0 <= t < u < r.len() implies r[t].0 != r[u].0 by {
            assert(r[t].0 == e1[t].0);
            assert(r[u].0 == e1[u].0);
        }
        assert(r[j].0 == key);
        assert(has_key(r, key));
    } else {
        assert forall|t: int, u: int| 0 <= t < u < r.len() implies r[t].0 != r[u].0 by {
            assert(r[u] == e1[u - 1]);
            if t > 0 {
                assert(r[t] == e1[t - 1]);
            } else {
                if e1[u - 1].0 == key {
                    assert(has_key(e1, key));
                    assert(false);
                }
            }
        }
        assert(r[0].0 == key);
        assert(has_key(r, key));
    }
}

/// Capacity invariant: whatever sequence of insertions runs against a
/// well-formed cache state, the keys stay distinct and the entry count
/// never exceeds the capacity.
pub proof fn lemma_capacity_invariant<V>(entries: Seq<(u64, V)>, cap: int, ops: Seq<(u64, V)>)
    requires
        distinct_keys(entries),
        entries.len() <= cap,
        cap > 0,
    ensures
        distinct_keys(set_all(entries, cap, ops)),
        set_all(entries, cap, ops).len() <= cap,
    decreases ops.len(),
{
    if ops.len() > 0 {
        lemma_set_entry_wf(entries, cap, ops[0].0, ops[0].1);
        lemma_capacity_invariant(set_entry(entries, cap, ops[0].0, ops[0].1), cap, ops.skip(1));
    }
}

/// Recency ordering: insertions of fresh, pairwise distinct keys into a
/// cache with room for all of them stack up in reverse insertion order in
/// front of what was already there. In particular, filling an empty cache
/// of size N with N keys leaves the keys in reverse insertion order.
pub proof fn lemma_recency_ordering<V>(entries: Seq<(u64, V)>, cap: int, ops: Seq<(u64, V)>)
    requires
        distinct_keys(entries),
        cap > 0,
        entries.len() + ops.len() <= cap,
        keys_of(ops).no_duplicates(),
        forall|t: int| 0 <= t < ops.len() ==> !has_key(entries, (#[trigger] ops[t]).0),
    ensures
        set_all(entries, cap, ops) == ops.reverse() + entries,
    decreases ops.len(),
{
    if ops.len() == 0 {
        assert(set_all(entries, cap, ops) =~= ops.reverse() + entries);
    } else {
        let key = ops[0].0;
        let val = ops[0].1;
        assert(entries.len() < cap);
        assert(evict_if_full(entries, cap) == entries);
        assert(!has_key(entries, key));
        let e1 = set_entry(entries, cap, key, val);
        assert(e1 == seq![(key, val)] + entries);
        assert((key, val) == ops[0]);
        assert forall|t: int, u: int| 0 <= t < u < e1.len() implies e1[t].0 != e1[u].0 by {
            assert(e1[u] == entries[u - 1]);
            if t > 0 {
                assert(e1[t] == entries[t - 1]);
            } else {
                if entries[u - 1].0 == key {
                    assert(has_key(entries, key));
                    assert(false);
                }
            }
        }
        let rest = ops.skip(1);
        assert(keys_of(rest) =~= keys_of(ops).skip(1));
        assert forall|t: int, u: int|
            0 <= t < u < keys_of(rest).len() implies keys_of(rest)[t] != keys_of(rest)[u] by {
            assert(keys_of(rest)[t] == keys_of(ops)[t + 1]);
            assert(keys_of(rest)[u] == keys_of(ops)[u + 1]);
        }
        assert forall|t: int| 0 <= t < rest.len() implies !has_key(e1, (#[trigger] rest[t]).0) by {
            assert(rest[t] == ops[t + 1]);
            if has_key(e1, ops[t + 1].0) {
                let w = choose|w: int| 0 <= w < e1.len() && e1[w].0 == ops[t + 1].0;
                if w == 0 {
                    assert(keys_of(ops)[t + 1] == ops[t + 1].0);
                    assert(keys_of(ops)[0] == key);
                    assert(false);
                } else {
                    assert(e1[w] == entries[w - 1]);
                    assert(has_key(entries, ops[t + 1].0));
                    assert(false);
                }
            }
        }
        lemma_recency_ordering(e1, cap, rest);
        assert(set_all(entries, cap, ops) == set_all(e1, cap, rest));
        assert(set_all(e1, cap, rest) == rest.reverse() + e1);
        assert(rest.reverse() + e1 =~= ops.reverse() + entries) by {
            assert forall|t: int|
                0 <= t < ops.len() + entries.len() implies (rest.reverse() + e1)[t] == (
            ops.reverse() + entries)[t] by {
                if t < rest.len() {
                    assert((rest.reverse() + e1)[t] == rest[rest.len() - 1 - t]);
                    assert(rest[rest.len() - 1 - t] == ops[ops.len() - 1 - t]);
                    assert((ops.reverse() + entries)[t] == ops[ops.len() - 1 - t]);
                } else if t == rest.len() {
                    assert((rest.reverse() + e1)[t] == e1[0]);
                    assert((ops.reverse() + entries)[t] == ops[0]);
                } else {
                    assert((rest.reverse() + e1)[t] == e1[t - rest.len()]);
                    assert(e1[t - rest.len()] == entries[t - rest.len() - 1]);
                    assert((ops.reverse() + entries)[t] == entries[t - ops.len()]);
                }
            }
        }
    }
}

/// Recency ordering from empty: filling an empty cache of size N with up
/// to N pairwise distinct keys leaves the keys in reverse insertion order.
pub proof fn lemma_reverse_insertion_order<V>(cap: int, ops: Seq<(u64, V)>)
    requires
        cap > 0,
        ops.len() <= cap,
        keys_of(ops).no_duplicates(),
    ensures
        keys_of(set_all(Seq::<(u64, V)>::empty(), cap, ops)) == keys_of(ops).reverse(),
{
    let empty = Seq::<(u64, V)>::empty();
    assert(forall|t: int| 0 <= t < ops.len() ==> !has_key(empty, (#[trigger] ops[t]).0));
    lemma_recency_ordering(empty, cap, ops);
    assert(set_all(empty, cap, ops) =~= ops.reverse());
    assert(keys_of(ops.reverse()) =~= keys_of(ops).reverse()) by {
        assert forall|t: int|
            0 <= t < ops.len() implies keys_of(ops.reverse())[t] == keys_of(
            ops,
        ).reverse()[t] by {
            assert(keys_of(ops.reverse())[t] == ops.reverse()[t].0);
            assert(ops.reverse()[t] == ops[ops.len() - 1 - t]);
            assert(keys_of(ops).reverse()[t] == keys_of(ops)[ops.len() - 1 - t]);
        }
    }
}

/// Insertions compose: running two batches one after the other is running
/// their concatenation.
pub proof fn lemma_set_all_app<V>(
    entries: Seq<(u64, V)>,
    cap: int,
    ops1: Seq<(u64, V)>,
    ops2: Seq<(u64, V)>,
)
    ensures
        set_all(entries, cap, ops1 + ops2) == set_all(set_all(entries, cap, ops1), cap, ops2),
    decreases ops1.len(),
{
    if ops1.len() == 0 {
        assert(ops1 + ops2 =~= ops2);
    } else {
        let ops = ops1 + ops2;
        assert(ops[0] == ops1[0]);
        assert(ops.skip(1) =~= ops1.skip(1) + ops2);
        lemma_set_all_app(set_entry(entries, cap, ops1[0].0, ops1[0].1), cap, ops1.skip(1), ops2);
    }
}

/// Eviction correctness: an insertion whose key is not among the surviving
/// entries of a full cache evicts exactly the least recently used entry;
/// every other entry stays, and the evicted key is gone unless it is the
/// key just inserted.
pub proof fn lemma_eviction<V>(entries: Seq<(u64, V)>, cap: int, key: u64, val: V)
    requires
        distinct_keys(entries),
        cap > 0,
        entries.len() == cap,
        !has_key(entries.drop_last(), key),
    ensures
        set_entry(entries, cap, key, val) == seq![(key, val)] + entries.drop_last(),
        key != entries.last().0 ==> !has_key(set_entry(entries, cap, key, val), entries.last().0),
{
    let e1 = evict_if_full(entries, cap);
    assert(e1 == entries.drop_last());
    assert(!has_key(e1, key));
    let r = set_entry(entries, cap, key, val);
    assert(r == seq![(key, val)] + e1);
    if key != entries.last().0 {
        if has_key(r, entries.last().0) {
            let w = choose|w: int| 0 <= w < r.len() && r[w].0 == entries.last().0;
            if w == 0 {
                assert(false);
            } else {
                assert(r[w] == entries[w - 1]);
                assert(entries[w - 1].0 != entries[entries.len() - 1].0);
                assert(false);
            }
        }
    }
}

/// Eviction correctness, end to end: filling an empty cache of size N with
/// N+1 pairwise distinct keys evicts exactly the first key inserted — the
/// least recently used one at the time of the last insertion — and leaves
/// the other keys in reverse insertion order.
pub proof fn lemma_fill_then_overflow<V>(cap: int, ops: Seq<(u64, V)>)
    requires
        cap > 0,
        ops.len() == cap + 1,
        keys_of(ops).no_duplicates(),
    ensures
        keys_of(set_all(Seq::<(u64, V)>::empty(), cap, ops)) == keys_of(ops).skip(1).reverse(),
        !has_key(set_all(Seq::<(u64, V)>::empty(), cap, ops), ops[0].0),
{
    let empty = Seq::<(u64, V)>::empty();
    let first = ops.take(cap);
    let rest = ops.skip(cap);
    assert(ops =~= first + rest);
    lemma_set_all_app(empty, cap, first, rest);
    assert forall|t: int, u: int|
        0 <= t < u < keys_of(first).len() implies keys_of(first)[t] != keys_of(first)[u] by {
        assert(keys_of(first)[t] == first[t].0 == ops[t].0 == keys_of(ops)[t]);
        assert(keys_of(first)[u] == keys_of(ops)[u]);
    }
    assert(forall|t: int| 0 <= t < first.len() ==> !has_key(empty, (#[trigger] first[t]).0));
    lemma_recency_ordering(empty, cap, first);
    let e1 = set_all(empty, cap, first);
    assert(e1 =~= first.reverse());
    assert(e1.len() == cap);
    assert forall|t: int, u: int| 0 <= t < u < e1.len() implies e1[t].0 != e1[u].0 by {
        assert(e1[t] == ops[cap - 1 - t]);
        assert(e1[u] == ops[cap - 1 - u]);
        assert(keys_of(ops)[cap - 1 - u] != keys_of(ops)[cap - 1 - t]);
    }
    let key = ops[cap].0;
    let val = ops[cap].1;
    assert forall|t: int| 0 <= t < e1.len() - 1 implies e1.drop_last()[t].0 != key by {
        assert(e1.drop_last()[t] == ops[cap - 1 - t]);
        assert(keys_of(ops)[cap - 1 - t] != keys_of(ops)[cap]);
    }
    assert(!has_key(e1.drop_last(), key)) by {
        if has_key(e1.drop_last(), key) {
            let w = choose|w: int| 0 <= w < e1.drop_last().len() && e1.drop_last()[w].0 == key;
            assert(false);
        }
    }
    lemma_eviction(e1, cap, key, val);
    assert(rest.len() == 1);
    assert(rest[0] == ops[cap]);
    let r = set_all(e1, cap, rest);
    assert(r == set_all(set_entry(e1, cap, key, val), cap, rest.skip(1)));
    assert(rest.skip(1).len() == 0);
    assert(r == set_entry(e1, cap, key, val));
    assert(r == seq![(key, val)] + e1.drop_last());
    assert(e1.last() == ops[0]);
    assert(keys_of(ops)[0] != keys_of(ops)[cap]);
    assert(!has_key(r, ops[0].0));
    assert(keys_of(r) =~= keys_of(ops).skip(1).reverse()) by {
        assert forall|t: int|
            0 <= t < cap implies keys_of(r)[t] == keys_of(ops).skip(1).reverse()[t] by {
            assert(keys_of(ops).skip(1).reverse()[t] == keys_of(ops).skip(1)[cap - 1 - t]);
            assert(keys_of(ops).skip(1)[cap - 1 - t] == keys_of(ops)[cap - t]);
            if t == 0 {
                assert(keys_of(r)[0] == key);
            } else {
                assert(r[t] == e1.drop_last()[t - 1]);
                assert(e1.drop_last()[t - 1] == ops[cap - t]);
            }
        }
    }
}

/// Promotion on hit: a lookup moves the key it finds to the front of the
/// recency order, and an insertion of a fresh key right after it evicts
/// the entry that had become least recent, never the one just read.
pub proof fn lemma_promotion_protects<V>(
    entries: Seq<(u64, V)>,
    cap: int,
    key: u64,
    key2: u64,
    val2: V,
)
    requires
        distinct_keys(entries),
        cap >= 2,
        entries.len() == cap,
        has_key(entries, key),
        !has_key(entries, key2),
    ensures
        keys_of(promote(entries, key))[0] == key,
        keys_of(promote(entries, key)).last() != key,
        has_key(set_entry(promote(entries, key), cap, key2, val2), key),
        !has_key(
            set_entry(promote(entries, key), cap, key2, val2),
            keys_of(promote(entries, key)).last(),
        ),
{
    let j0 = choose|t: int| 0 <= t < entries.len() && entries[t].0 == key;
    lemma_key_index_unique(entries, key, j0);
    let j = key_index(entries, key);
    assert(j == j0);
    let e1 = promote(entries, key);
    assert(e1 == seq![entries[j]] + entries.remove(j));
    assert(e1.len() == cap);
    assert forall|t: int, u: int| 0 <= t < u < e1.len() implies e1[t].0 != e1[u].0 by {
        let t0 = if t == 0 {
            j
        } else if t - 1 < j {
            t - 1
        } else {
            t
        };
        let u0 = if u - 1 < j {
            u - 1
        } else {
            u
        };
        assert(e1[t] == entries[t0]);
        assert(e1[u] == entries[u0]);
        assert(t0 != u0);
    }
    assert(e1[0].0 == key);
    assert(keys_of(e1)[0] == key);
    assert(keys_of(e1).last() == e1[cap - 1].0);
    assert(e1[cap - 1].0 != key) by {
        assert(e1[0].0 != e1[cap - 1].0);
    }
    assert forall|t: int| 0 <= t < e1.len() - 1 implies e1.drop_last()[t].0 != key2 by {
        let t0 = if t == 0 {
            j
        } else if t - 1 < j {
            t - 1
        } else {
            t
        };
        assert(e1[t] == entries[t0]);
        if entries[t0].0 == key2 {
            assert(has_key(entries, key2));
            assert(false);
        }
    }
    assert(!has_key(e1.drop_last(), key2));
    lemma_eviction(e1, cap, key2, val2);
    let r = set_entry(e1, cap, key2, val2);
    assert(r == seq![(key2, val2)] + e1.drop_last());
    assert(e1.drop_last()[0] == e1[0]);
    assert(r[1].0 == key);
    assert(has_key(r, key));
    assert(key2 != e1.last().0) by {
        let t0 = if cap - 1 - 1 < j {
            cap - 2
        } else {
            cap - 1
        };
        assert(e1[cap - 1] == entries[t0]);
        if entries[t0].0 == key2 {
            assert(has_key(entries, key2));
            assert(false);
        }
    }
    assert(keys_of(e1).last() == e1.last().0);
}

/// No duplicate slots: repeated insertions of one and the same key, from a
/// state holding only that key, keep a single entry with the latest value.
proof fn lemma_duplicate_sets_from<V>(cap: int, v: V, ops: Seq<(u64, V)>, key: u64)
    requires
        cap > 0,
        forall|t: int| 0 <= t < ops.len() ==> (#[trigger] ops[t]).0 == key,
    ensures
        set_all(seq![(key, v)], cap, ops) == (if ops.len() == 0 {
            seq![(key, v)]
        } else {
            seq![(key, ops.last().1)]
        }),
    decreases ops.len(),
{
    if ops.len() > 0 {
        let e0 = seq![(key, v)];
        let e1 = set_entry(e0, cap, ops[0].0, ops[0].1);
        assert(e1 == seq![(key, ops[0].1)]) by {
            if e0.len() >= cap {
                let ev = evict_if_full(e0, cap);
                assert(ev =~= Seq::<(u64, V)>::empty());
                assert(!has_key(ev, key));
                assert(e1 =~= seq![(key, ops[0].1)]);
            } else {
                let ev = evict_if_full(e0, cap);
                assert(ev == e0);
                assert(ev[0].0 == key);
                assert(has_key(ev, key));
                lemma_key_index_unique(ev, key, 0);
                assert(e1 =~= seq![(key, ops[0].1)]);
            }
        }
        lemma_duplicate_sets_from(cap, ops[0].1, ops.skip(1), key);
        if ops.len() > 1 {
            assert(ops.skip(1).last() == ops.last());
        }
    }
}

/// No duplicate slots: however often one and the same key is inserted into
/// an empty cache, a single entry results, holding the latest value.
pub proof fn lemma_duplicate_sets<V>(cap: int, ops: Seq<(u64, V)>, key: u64)
    requires
        cap > 0,
        ops.len() > 0,
        forall|t: int| 0 <= t < ops.len() ==> (#[trigger] ops[t]).0 == key,
    ensures
        set_all(Seq::<(u64, V)>::empty(), cap, ops) == seq![(key, ops.last().1)],
    decreases ops.len(),
{
    let e0 = Seq::<(u64, V)>::empty();
    let e1 = set_entry(e0, cap, ops[0].0, ops[0].1);
    assert(e1 == seq![(key, ops[0].1)]) by {
        assert(evict_if_full(e0, cap) == e0);
        assert(!has_key(e0, key));
        assert(e1 =~= seq![(key, ops[0].1)]);
    }
    lemma_duplicate_sets_from(cap, ops[0].1, ops.skip(1), key);
    if ops.len() > 1 {
        assert(ops.skip(1).last() == ops.last());
    }
}

} // verus!
