//! Order list: a doubly linked list with limited operations, kept inside
//! `Vec`s instead of heap nodes. Links are slot indices into one contiguous
//! buffer; a slot is never deallocated, it only moves between two cyclic
//! chains, one of free slots and one of occupied slots.

use vstd::prelude::*;

verus! {

/// Index of the sentinel slot that heads the cycle of free slots.
pub(crate) const FREE: usize = 0;

/// Index of the sentinel slot that heads the cycle of occupied slots. The
/// slot right after it holds the most recently used payload, the slot right
/// before it the least recently used one.
pub(crate) const OCCUPIED: usize = 1;

/// The order list. `payload[i]` is the payload of slot `i` (`None` for the
/// two sentinels and for free slots), and `next_of[i]` / `prev_of[i]` are
/// the links of slot `i` within its cycle. The ghost sequences `occ` and
/// `free` spell out the two cycles, front to back.
pub(crate) struct LRUList<T> {
    payload: Vec<Option<T>>,
    next_of: Vec<usize>,
    prev_of: Vec<usize>,
    occ: Ghost<Seq<usize>>,
    free: Ghost<Seq<usize>>,
}

impl<T> LRUList<T> {
    /// Number of slots in the buffer, sentinels included.
    pub(crate) closed spec fn n(self) -> int {
        self.payload@.len() as int
    }

    spec fn nxt(self, i: usize) -> usize {
        self.next_of@[i as int]
    }

    spec fn prv(self, i: usize) -> usize {
        self.prev_of@[i as int]
    }

    /// The slots of `q`, in order, form the cyclic chain through sentinel
    /// `s`: each slot's links point at its neighbours, and the sentinel
    /// closes the cycle (onto itself when `q` is empty).
    spec fn cycle_linked(self, s: usize, q: Seq<usize>) -> bool {
        &&& self.nxt(s) == (if q.len() == 0 {
            s
        } else {
            q[0]
        })
        &&& self.prv(s) == (if q.len() == 0 {
            s
        } else {
            q.last()
        })
        &&& (forall|j: int|
            0 <= j < q.len() ==> #[trigger] self.nxt(q[j]) == (if j == q.len() - 1 {
                s
            } else {
                q[j + 1]
            }))
        &&& (forall|j: int|
            0 <= j < q.len() ==> #[trigger] self.prv(q[j]) == (if j == 0 {
                s
            } else {
                q[j - 1]
            }))
    }

    spec fn slots_in_range(self, q: Seq<usize>) -> bool {
        forall|j: int| 0 <= j < q.len() ==> 2 <= #[trigger] q[j] < self.n()
    }

    /// Well-formedness: the two cycles are disjoint, cover every non-sentinel
    /// slot between them, are linked consistently, and exactly the occupied
    /// slots hold a payload.
    pub(crate) closed spec fn wf(self) -> bool {
        &&& self.n() >= 2
        &&& self.next_of@.len() == self.payload@.len()
        &&& self.prev_of@.len() == self.payload@.len()
        &&& self.slots_in_range(self.occ@)
        &&& self.slots_in_range(self.free@)
        &&& self.occ@.no_duplicates()
        &&& self.free@.no_duplicates()
        &&& (forall|i: int, j: int|
            0 <= i < self.occ@.len() && 0 <= j < self.free@.len() ==> #[trigger] self.occ@[i]
                != #[trigger] self.free@[j])
        &&& self.occ@.len() + self.free@.len() == self.n() - 2
        &&& self.cycle_linked(OCCUPIED, self.occ@)
        &&& self.cycle_linked(FREE, self.free@)
        &&& (forall|j: int|
            0 <= j < self.occ@.len() ==> (#[trigger] self.payload@[self.occ@[j] as int]) is Some)
        &&& (forall|j: int|
            0 <= j < self.free@.len() ==> (#[trigger] self.payload@[self.free@[j] as int]) is None)
        &&& self.payload@[FREE as int] is None
        &&& self.payload@[OCCUPIED as int] is None
    }

    /// The occupied slot indices, most to least recently used.
    pub(crate) closed spec fn slots(self) -> Seq<usize> {
        self.occ@
    }

    /// There are exactly as many occupied slots as payloads.
    pub(crate) broadcast proof fn lemma_len(self)
        ensures
            (#[trigger] self.slots()).len() == self.contents().len(),
    {
    }

    /// The payloads of the occupied slots, most to least recently used.
    pub(crate) closed spec fn contents(self) -> Seq<T> {
        Seq::new(self.occ@.len(), |j: int| self.payload@[self.occ@[j] as int]->Some_0)
    }

    /// An empty list: both cycles are self-loops on their sentinel. Room for
    /// `capacity` payload slots is reserved up front.
    pub(crate) fn with_capacity(capacity: usize) -> (r: LRUList<T>)
        ensures
            r.wf(),
            r.contents() == Seq::<T>::empty(),
            r.slots() == Seq::<usize>::empty(),
    {
        let reserve: usize = if capacity <= usize::MAX - 2 {
            capacity + 2
        } else {
            capacity
        };
        let mut payload: Vec<Option<T>> = Vec::with_capacity(reserve);
        payload.push(None);
        payload.push(None);
        let mut next_of: Vec<usize> = Vec::with_capacity(reserve);
        next_of.push(FREE);
        next_of.push(OCCUPIED);
        let mut prev_of: Vec<usize> = Vec::with_capacity(reserve);
        prev_of.push(FREE);
        prev_of.push(OCCUPIED);
        let r = LRUList {
            payload,
            next_of,
            prev_of,
            occ: Ghost(Seq::empty()),
            free: Ghost(Seq::empty()),
        };
        proof {
            assert(r.contents() =~= Seq::<T>::empty());
        }
        r
    }

    /// Take slot `index` out of its chain by short-circuiting its
    /// neighbours' links. The slot's own links are left as they were.
    fn unlink(&mut self, index: usize)
        requires
            old(self).next_of@.len() == old(self).payload@.len(),
            old(self).prev_of@.len() == old(self).payload@.len(),
            index < old(self).payload@.len(),
            old(self).prv(index) < old(self).payload@.len(),
            old(self).nxt(index) < old(self).payload@.len(),
        ensures
            final(self).payload@ == old(self).payload@,
            final(self).occ == old(self).occ,
            final(self).free == old(self).free,
            final(self).next_of@ == old(self).next_of@.update(
                old(self).prv(index) as int,
                old(self).nxt(index),
            ),
            final(self).prev_of@ == old(self).prev_of@.update(
                old(self).nxt(index) as int,
                old(self).prv(index),
            ),
    {
        let p = self.prev_of[index];
        let nx = self.next_of[index];
        self.next_of[p] = nx;
        self.prev_of[nx] = p;
    }

    /// Splice slot `index` into a chain right after slot `anchor`.
    fn link_after(&mut self, index: usize, anchor: usize)
        requires
            old(self).next_of@.len() == old(self).payload@.len(),
            old(self).prev_of@.len() == old(self).payload@.len(),
            index < old(self).payload@.len(),
            anchor < old(self).payload@.len(),
            old(self).nxt(anchor) < old(self).payload@.len(),
        ensures
            final(self).payload@ == old(self).payload@,
            final(self).occ == old(self).occ,
            final(self).free == old(self).free,
            final(self).next_of@ == old(self).next_of@.update(index as int, old(self).nxt(anchor))
                .update(anchor as int, index),
            final(self).prev_of@ == old(self).prev_of@.update(index as int, anchor).update(
                old(self).nxt(anchor) as int,
                index,
            ),
    {
        let nx = self.next_of[anchor];
        self.prev_of[index] = anchor;
        self.next_of[index] = nx;
        self.next_of[anchor] = index;
        self.prev_of[nx] = index;
    }

    /// Unlink the occupied slot at position `j` of the occupied cycle and
    /// relink it as the new head: it becomes the most recently used.
    #[verifier::rlimit(50)]
    pub(crate) fn move_to_front(&mut self, index: usize, Ghost(j): Ghost<int>)
        requires
            old(self).wf(),
            0 <= j < old(self).slots().len(),
            old(self).slots()[j] == index,
        ensures
            final(self).wf(),
            final(self).slots() == seq![index] + old(self).slots().remove(j),
            final(self).contents() == seq![old(self).contents()[j]] + old(self).contents().remove(
                j,
            ),
    {
        proof {
            assert(old(self).nxt(old(self).occ@[j]) == (if j == old(self).occ@.len() - 1 {
                OCCUPIED
            } else {
                old(self).occ@[j + 1]
            }));
            assert(old(self).prv(old(self).occ@[j]) == (if j == 0 {
                OCCUPIED
            } else {
                old(self).occ@[j - 1]
            }));
        }
        self.unlink(index);
        self.link_after(index, OCCUPIED);
        proof {
            let q0 = old(self).occ@;
            let f = old(self).free@;
            let n = old(self).n();
            let len = q0.len() as int;
            let p: usize = if j == 0 {
                OCCUPIED
            } else {
                q0[j - 1]
            };
            let nx: usize = if j == len - 1 {
                OCCUPIED
            } else {
                q0[j + 1]
            };
            let a: usize = if j == 0 {
                nx
            } else {
                q0[0]
            };
            let q2 = seq![index] + q0.remove(j);
            self.occ@ = q2;
            assert(self.next_of@ == old(self).next_of@.update(p as int, nx).update(
                index as int,
                a,
            ).update(OCCUPIED as int, index));
            assert(self.prev_of@ == old(self).prev_of@.update(nx as int, p).update(
                index as int,
                OCCUPIED,
            ).update(a as int, index));
            assert(q2.len() == len);
            assert forall|t: int| 0 <= t < q2.len() implies 2 <= #[trigger] q2[t] < n by {
                if t > 0 {
                    assert(q2[t] == q0[if t - 1 < j {
                        t - 1
                    } else {
                        t
                    }]);
                }
            }
            assert forall|t: int, u: int| 0 <= t < u < q2.len() implies q2[t] != q2[u] by {
                let t0 = if t == 0 {
                    j
                } else if t - 1 < j {
                    t - 1
                } else {
                    t
                };
                let u0 = if u - 1 < j {
                    u - 1
                } else {
                    u
                };
                assert(q2[t] == q0[t0]);
                assert(q2[u] == q0[u0]);
                assert(t0 != u0);
            }
            assert forall|t: int, u: int|
                0 <= t < q2.len() && 0 <= u < f.len() implies #[trigger] q2[t]
                != #[trigger] f[u] by {
                let t0 = if t == 0 {
                    j
                } else if t - 1 < j {
                    t - 1
                } else {
                    t
                };
                assert(q2[t] == q0[t0]);
            }
            assert forall|t: int|
                0 <= t < q2.len() implies #[trigger] self.nxt(q2[t]) == (if t == q2.len() - 1 {
                OCCUPIED
            } else {
                q2[t + 1]
            }) by {
                if t == 0 {
                    assert(self.nxt(index) == a);
                } else {
                    let t0 = if t - 1 < j {
                        t - 1
                    } else {
                        t
                    };
                    assert(q2[t] == q0[t0]);
                    assert(q0[t0] != index);
                    assert(q0[t0] != OCCUPIED);
                    if t0 == j - 1 {
                        assert(q2[t] == p);
                        assert(self.nxt(q2[t]) == nx);
                    } else {
                        assert(q2[t] != p);
                        assert(self.nxt(q2[t]) == old(self).nxt(q0[t0]));
                        assert(old(self).nxt(q0[t0]) == (if t0 == len - 1 {
                            OCCUPIED
                        } else {
                            q0[t0 + 1]
                        }));
                    }
                    if t < q2.len() - 1 {
                        assert(q2[t + 1] == q0[if t < j {
                            t
                        } else {
                            t + 1
                        }]);
                    }
                }
            }
            assert forall|t: int|
                0 <= t < q2.len() implies #[trigger] self.prv(q2[t]) == (if t == 0 {
                OCCUPIED
            } else {
                q2[t - 1]
            }) by {
                if t == 0 {
                    assert(self.prv(index) == OCCUPIED);
                } else {
                    let t0 = if t - 1 < j {
                        t - 1
                    } else {
                        t
                    };
                    assert(q2[t] == q0[t0]);
                    assert(q0[t0] != index);
                    assert(q0[t0] != OCCUPIED);
                    if q0[t0] == a {
                        assert(self.prv(q2[t]) == index);
                        assert(t == 1);
                    } else if q0[t0] == nx && j != len - 1 {
                        assert(t0 == j + 1);
                        assert(self.prv(q2[t]) == p);
                    } else {
                        assert(self.prv(q2[t]) == old(self).prv(q0[t0]));
                        assert(old(self).prv(q0[t0]) == (if t0 == 0 {
                            OCCUPIED
                        } else {
                            q0[t0 - 1]
                        }));
                    }
                    if t > 1 {
                        assert(q2[t - 1] == q0[if t - 2 < j {
                            t - 2
                        } else {
                            t - 1
                        }]);
                    }
                }
            }
            assert(self.nxt(OCCUPIED) == index);
            assert(self.prv(OCCUPIED) == (if q2.len() == 0 {
                OCCUPIED
            } else {
                q2.last()
            })) by {
                if len == 1 {
                    assert(q2.last() == index);
                } else if j == len - 1 {
                    assert(q2.last() == q0[len - 2]);
                } else {
                    assert(q2.last() == q0[len - 1]);
                }
            }
            assert forall|t: int|
                0 <= t < f.len() implies #[trigger] self.nxt(f[t]) == old(self).nxt(f[t]) by {
                assert(f[t] != p);
                assert(f[t] != index);
                assert(f[t] != OCCUPIED);
            }
            assert forall|t: int|
                0 <= t < f.len() implies #[trigger] self.prv(f[t]) == old(self).prv(f[t]) by {
                assert(f[t] != nx);
                assert(f[t] != a);
                assert(f[t] != index);
            }
            assert(self.nxt(FREE) == old(self).nxt(FREE));
            assert(self.prv(FREE) == old(self).prv(FREE));
            assert(self.cycle_linked(FREE, f));
            assert forall|t: int|
                0 <= t < q2.len() implies (#[trigger] self.payload@[q2[t] as int]) is Some by {
                if t > 0 {
                    assert(q2[t] == q0[if t - 1 < j {
                        t - 1
                    } else {
                        t
                    }]);
                }
            }
            assert(final(self).wf());
            assert(final(self).contents() =~= seq![old(self).contents()[j]]
                + old(self).contents().remove(j)) by {
                assert forall|t: int| 0 <= t < q2.len() implies final(self).contents()[t] == (
                seq![old(self).contents()[j]] + old(self).contents().remove(j))[t] by {
                    if t > 0 {
                        let t0 = if t - 1 < j {
                            t - 1
                        } else {
                            t
                        };
                        assert(q2[t] == q0[t0]);
                        assert((seq![old(self).contents()[j]] + old(self).contents().remove(j))[t]
                            == old(self).contents()[t0]);
                    }
                }
            }
        }
    }

    /// Unlink the occupied slot at position `j` of the occupied cycle,
    /// relink it into the free cycle, and hand its payload out.
    #[verifier::rlimit(50)]
    pub(crate) fn remove(&mut self, index: usize, Ghost(j): Ghost<int>) -> (r: T)
        requires
            old(self).wf(),
            0 <= j < old(self).slots().len(),
            old(self).slots()[j] == index,
        ensures
            final(self).wf(),
            final(self).slots() == old(self).slots().remove(j),
            final(self).contents() == old(self).contents().remove(j),
            r == old(self).contents()[j],
    {
        proof {
            assert(old(self).nxt(old(self).occ@[j]) == (if j == old(self).occ@.len() - 1 {
                OCCUPIED
            } else {
                old(self).occ@[j + 1]
            }));
            assert(old(self).prv(old(self).occ@[j]) == (if j == 0 {
                OCCUPIED
            } else {
                old(self).occ@[j - 1]
            }));
        }
        self.unlink(index);
        self.link_after(index, FREE);
        let mut taken: Option<T> = None;
        core::mem::swap(&mut self.payload[index], &mut taken);
        proof {
            let q0 = old(self).occ@;
            let f = old(self).free@;
            let n = old(self).n();
            let len = q0.len() as int;
            let p: usize = if j == 0 {
                OCCUPIED
            } else {
                q0[j - 1]
            };
            let nx: usize = if j == len - 1 {
                OCCUPIED
            } else {
                q0[j + 1]
            };
            let a: usize = if f.len() == 0 {
                FREE
            } else {
                f[0]
            };
            let q2 = q0.remove(j);
            let f2 = seq![index] + f;
            self.occ@ = q2;
            self.free@ = f2;
            assert(self.next_of@ == old(self).next_of@.update(p as int, nx).update(
                index as int,
                a,
            ).update(FREE as int, index));
            assert(self.prev_of@ == old(self).prev_of@.update(nx as int, p).update(
                index as int,
                FREE,
            ).update(a as int, index));
            assert(self.payload@ == old(self).payload@.update(index as int, None));
            assert forall|t: int| 0 <= t < q2.len() implies 2 <= #[trigger] q2[t] < n by {
                assert(q2[t] == q0[if t < j {
                    t
                } else {
                    t + 1
                }]);
            }
            assert forall|t: int, u: int| 0 <= t < u < q2.len() implies q2[t] != q2[u] by {
                let t0 = if t < j {
                    t
                } else {
                    t + 1
                };
                let u0 = if u < j {
                    u
                } else {
                    u + 1
                };
                assert(q2[t] == q0[t0]);
                assert(q2[u] == q0[u0]);
            }
            assert forall|t: int, u: int|
                0 <= t < q2.len() && 0 <= u < f2.len() implies #[trigger] q2[t]
                != #[trigger] f2[u] by {
                let t0 = if t < j {
                    t
                } else {
                    t + 1
                };
                assert(q2[t] == q0[t0]);
                if u > 0 {
                    assert(f2[u] == f[u - 1]);
                }
            }
            assert forall|t: int|
                0 <= t < q2.len() implies #[trigger] self.nxt(q2[t]) == (if t == q2.len() - 1 {
                OCCUPIED
            } else {
                q2[t + 1]
            }) by {
                let t0 = if t < j {
                    t
                } else {
                    t + 1
                };
                assert(q2[t] == q0[t0]);
                assert(q0[t0] != index);
                assert(q0[t0] != FREE);
                assert(q0[t0] != a);
                if t0 == j - 1 {
                    assert(q2[t] == p);
                    assert(self.nxt(q2[t]) == nx);
                } else {
                    assert(q2[t] != p);
                    assert(self.nxt(q2[t]) == old(self).nxt(q0[t0]));
                    assert(old(self).nxt(q0[t0]) == (if t0 == len - 1 {
                        OCCUPIED
                    } else {
                        q0[t0 + 1]
                    }));
                }
                if t < q2.len() - 1 {
                    assert(q2[t + 1] == q0[if t + 1 < j {
                        t + 1
                    } else {
                        t + 2
                    }]);
                }
            }
            assert forall|t: int|
                0 <= t < q2.len() implies #[trigger] self.prv(q2[t]) == (if t == 0 {
                OCCUPIED
            } else {
                q2[t - 1]
            }) by {
                let t0 = if t < j {
                    t
                } else {
                    t + 1
                };
                assert(q2[t] == q0[t0]);
                assert(q0[t0] != index);
                assert(q0[t0] != FREE);
                assert(q0[t0] != a);
                if t0 == j + 1 {
                    assert(q2[t] == nx);
                    assert(self.prv(q2[t]) == p);
                } else {
                    assert(q2[t] != nx);
                    assert(self.prv(q2[t]) == old(self).prv(q0[t0]));
                    assert(old(self).prv(q0[t0]) == (if t0 == 0 {
                        OCCUPIED
                    } else {
                        q0[t0 - 1]
                    }));
                }
                if t > 0 {
                    assert(q2[t - 1] == q0[if t - 1 < j {
                        t - 1
                    } else {
                        t
                    }]);
                }
            }
            assert(self.nxt(OCCUPIED) == (if q2.len() == 0 {
                OCCUPIED
            } else {
                q2[0]
            })) by {
                if j == 0 {
                    assert(self.nxt(OCCUPIED) == nx);
                } else {
                    assert(self.nxt(OCCUPIED) == old(self).nxt(OCCUPIED));
                    assert(q2[0] == q0[0]);
                }
            }
            assert(self.prv(OCCUPIED) == (if q2.len() == 0 {
                OCCUPIED
            } else {
                q2.last()
            })) by {
                if j == len - 1 {
                    assert(self.prv(OCCUPIED) == p);
                    if len > 1 {
                        assert(q2.last() == q0[len - 2]);
                    }
                } else {
                    assert(self.prv(OCCUPIED) == old(self).prv(OCCUPIED));
                    assert(q2.last() == q0[len - 1]);
                }
            }
            assert forall|t: int|
                0 <= t < f2.len() implies #[trigger] self.nxt(f2[t]) == (if t == f2.len() - 1 {
                FREE
            } else {
                f2[t + 1]
            }) by {
                if t == 0 {
                    assert(self.nxt(index) == a);
                } else {
                    assert(f2[t] == f[t - 1]);
                    assert(f[t - 1] != p);
                    assert(f[t - 1] != index);
                    assert(f[t - 1] != FREE);
                    assert(self.nxt(f2[t]) == old(self).nxt(f[t - 1]));
                    if t < f2.len() - 1 {
                        assert(f2[t + 1] == f[t]);
                    }
                }
            }
            assert forall|t: int|
                0 <= t < f2.len() implies #[trigger] self.prv(f2[t]) == (if t == 0 {
                FREE
            } else {
                f2[t - 1]
            }) by {
                if t == 0 {
                    assert(self.prv(index) == FREE);
                } else {
                    assert(f2[t] == f[t - 1]);
                    assert(f[t - 1] != nx);
                    assert(f[t - 1] != index);
                    if t == 1 {
                        assert(f[0] == a);
                        assert(self.prv(f2[t]) == index);
                    } else {
                        assert(f[t - 1] != a);
                        assert(self.prv(f2[t]) == old(self).prv(f[t - 1]));
                        assert(f2[t - 1] == f[t - 2]);
                    }
                }
            }
            assert(self.nxt(FREE) == index);
            assert(self.prv(FREE) == (if f2.len() == 0 {
                FREE
            } else {
                f2.last()
            })) by {
                if f.len() == 0 {
                    assert(a == FREE);
                    assert(self.prv(FREE) == index);
                    assert(f2.last() == index);
                } else {
                    assert(self.prv(FREE) == old(self).prv(FREE));
                    assert(f2.last() == f.last());
                }
            }
            assert forall|t: int|
                0 <= t < q2.len() implies (#[trigger] self.payload@[q2[t] as int]) is Some by {
                let t0 = if t < j {
                    t
                } else {
                    t + 1
                };
                assert(q2[t] == q0[t0]);
                assert(q0[t0] != index);
            }
            assert forall|t: int|
                0 <= t < f2.len() implies (#[trigger] self.payload@[f2[t] as int]) is None by {
                if t > 0 {
                    assert(f2[t] == f[t - 1]);
                    assert(f[t - 1] != index);
                }
            }
            assert(final(self).wf());
            assert(final(self).contents() =~= old(self).contents().remove(j)) by {
                assert forall|t: int|
                    0 <= t < q2.len() implies final(self).contents()[t] == old(
                    self,
                ).contents().remove(j)[t] by {
                    let t0 = if t < j {
                        t
                    } else {
                        t + 1
                    };
                    assert(q2[t] == q0[t0]);
                    assert(q0[t0] != index);
                    assert(old(self).contents().remove(j)[t] == old(self).contents()[t0]);
                }
            }
            assert(taken == old(self).payload@[index as int]);
            assert(old(self).payload@[q0[j] as int] is Some);
        }
        match taken {
            Some(v) => v,
            None => vstd::pervasive::unreached(),
        }
    }

    /// Take a slot from the free cycle, growing the buffer by one brand-new
    /// slot when the free cycle is empty, give it the payload, and relink it
    /// as the head of the occupied cycle: the most recently used spot.
    /// Returns the slot index for later direct access.
    #[verifier::rlimit(50)]
    pub(crate) fn push_front(&mut self, value: T) -> (idx: usize)
        requires
            old(self).wf(),
        ensures
            final(self).wf(),
            final(self).slots() == seq![idx] + old(self).slots(),
            final(self).contents() == seq![value] + old(self).contents(),
            !old(self).slots().contains(idx),
    {
        if self.next_of[FREE] == FREE {
            let newi = self.payload.len();
            self.payload.push(None);
            self.next_of.push(FREE);
            self.prev_of.push(FREE);
            self.next_of[FREE] = newi;
            self.prev_of[FREE] = newi;
            proof {
                assert(old(self).free@.len() == 0);
                self.free@ = seq![newi];
                assert forall|t: int|
                    0 <= t < self.occ@.len() implies #[trigger] self.nxt(self.occ@[t]) == old(
                    self,
                ).nxt(self.occ@[t]) by {
                    assert(2 <= self.occ@[t] < old(self).n());
                }
                assert forall|t: int|
                    0 <= t < self.occ@.len() implies #[trigger] self.prv(self.occ@[t]) == old(
                    self,
                ).prv(self.occ@[t]) by {
                    assert(2 <= self.occ@[t] < old(self).n());
                }
                assert(self.nxt(OCCUPIED) == old(self).nxt(OCCUPIED));
                assert(self.prv(OCCUPIED) == old(self).prv(OCCUPIED));
                assert(self.cycle_linked(OCCUPIED, self.occ@));
                assert(self.wf());
                assert(self.contents() =~= old(self).contents());
            }
        }
        let ghost s1 = *self;
        let index = self.next_of[FREE];
        proof {
            assert(s1.wf());
            assert(s1.slots() == old(self).slots());
            assert(s1.contents() == old(self).contents());
            if s1.free@.len() == 0 {
                assert(s1.nxt(FREE) == FREE);
                assert(false);
            }
            assert(index == s1.free@[0]);
            assert(s1.nxt(s1.free@[0]) == (if 0 == s1.free@.len() - 1 {
                FREE
            } else {
                s1.free@[1]
            }));
            assert(s1.prv(s1.free@[0]) == FREE);
        }
        self.unlink(index);
        self.link_after(index, OCCUPIED);
        self.payload[index] = Some(value);
        proof {
            let q0 = s1.occ@;
            let f = s1.free@;
            let n = s1.n();
            let flen = f.len() as int;
            let nx: usize = if flen == 1 {
                FREE
            } else {
                f[1]
            };
            let a: usize = if q0.len() == 0 {
                OCCUPIED
            } else {
                q0[0]
            };
            let q2 = seq![index] + q0;
            let f2 = f.skip(1);
            self.occ@ = q2;
            self.free@ = f2;
            assert(self.next_of@ == s1.next_of@.update(FREE as int, nx).update(index as int, a)
                .update(OCCUPIED as int, index));
            assert(self.prev_of@ == s1.prev_of@.update(nx as int, FREE).update(
                index as int,
                OCCUPIED,
            ).update(a as int, index));
            assert(self.payload@ == s1.payload@.update(index as int, Some(value)));
            assert forall|t: int| 0 <= t < f2.len() implies #[trigger] f2[t] == f[t + 1] by {}
            assert forall|t: int| 0 <= t < q2.len() implies 2 <= #[trigger] q2[t] < n by {
                if t > 0 {
                    assert(q2[t] == q0[t - 1]);
                }
            }
            assert forall|t: int, u: int| 0 <= t < u < q2.len() implies q2[t] != q2[u] by {
                assert(q2[u] == q0[u - 1]);
                if t > 0 {
                    assert(q2[t] == q0[t - 1]);
                }
            }
            assert forall|t: int, u: int|
                0 <= t < q2.len() && 0 <= u < f2.len() implies #[trigger] q2[t]
                != #[trigger] f2[u] by {
                assert(f2[u] == f[u + 1]);
                if t > 0 {
                    assert(q2[t] == q0[t - 1]);
                }
            }
            assert forall|t: int|
                0 <= t < q2.len() implies #[trigger] self.nxt(q2[t]) == (if t == q2.len() - 1 {
                OCCUPIED
            } else {
                q2[t + 1]
            }) by {
                if t == 0 {
                    assert(self.nxt(index) == a);
                } else {
                    assert(q2[t] == q0[t - 1]);
                    assert(q0[t - 1] != index);
                    assert(q0[t - 1] != FREE);
                    assert(q0[t - 1] != OCCUPIED);
                    assert(self.nxt(q2[t]) == s1.nxt(q0[t - 1]));
                    assert(s1.nxt(q0[t - 1]) == (if t - 1 == q0.len() - 1 {
                        OCCUPIED
                    } else {
                        q0[t]
                    }));
                    if t < q2.len() - 1 {
                        assert(q2[t + 1] == q0[t]);
                    }
                }
            }
            assert forall|t: int|
                0 <= t < q2.len() implies #[trigger] self.prv(q2[t]) == (if t == 0 {
                OCCUPIED
            } else {
                q2[t - 1]
            }) by {
                if t == 0 {
                    assert(self.prv(index) == OCCUPIED);
                } else {
                    assert(q2[t] == q0[t - 1]);
                    assert(q0[t - 1] != index);
                    assert(q0[t - 1] != nx);
                    if q0[t - 1] == a {
                        assert(t == 1);
                        assert(self.prv(q2[t]) == index);
                    } else {
                        assert(self.prv(q2[t]) == s1.prv(q0[t - 1]));
                        assert(s1.prv(q0[t - 1]) == (if t - 1 == 0 {
                            OCCUPIED
                        } else {
                            q0[t - 2]
                        }));
                        if t > 1 {
                            assert(q2[t - 1] == q0[t - 2]);
                        }
                    }
                }
            }
            assert(self.nxt(OCCUPIED) == index);
            assert(self.prv(OCCUPIED) == (if q2.len() == 0 {
                OCCUPIED
            } else {
                q2.last()
            })) by {
                if q0.len() == 0 {
                    assert(a == OCCUPIED);
                    assert(self.prv(OCCUPIED) == index);
                    assert(q2.last() == index);
                } else {
                    assert(self.prv(OCCUPIED) == s1.prv(OCCUPIED));
                    assert(q2.last() == q0.last());
                }
            }
            assert forall|t: int|
                0 <= t < f2.len() implies #[trigger] self.nxt(f2[t]) == (if t == f2.len() - 1 {
                FREE
            } else {
                f2[t + 1]
            }) by {
                assert(f2[t] == f[t + 1]);
                assert(f[t + 1] != FREE);
                assert(f[t + 1] != index);
                assert(f[t + 1] != OCCUPIED);
                assert(self.nxt(f2[t]) == s1.nxt(f[t + 1]));
                assert(s1.nxt(f[t + 1]) == (if t + 1 == flen - 1 {
                    FREE
                } else {
                    f[t + 2]
                }));
                if t < f2.len() - 1 {
                    assert(f2[t + 1] == f[t + 2]);
                }
            }
            assert forall|t: int|
                0 <= t < f2.len() implies #[trigger] self.prv(f2[t]) == (if t == 0 {
                FREE
            } else {
                f2[t - 1]
            }) by {
                assert(f2[t] == f[t + 1]);
                assert(f[t + 1] != index);
                assert(f[t + 1] != a);
                if t == 0 {
                    assert(f[1] == nx);
                    assert(self.prv(f2[t]) == FREE);
                } else {
                    assert(f[t + 1] != nx);
                    assert(self.prv(f2[t]) == s1.prv(f[t + 1]));
                    assert(s1.prv(f[t + 1]) == f[t]);
                    assert(f2[t - 1] == f[t]);
                }
            }
            assert(self.nxt(FREE) == (if f2.len() == 0 {
                FREE
            } else {
                f2[0]
            })) by {
                if flen == 1 {
                    assert(self.nxt(FREE) == nx);
                } else {
                    assert(self.nxt(FREE) == nx);
                    assert(f2[0] == f[1]);
                }
            }
            assert(self.prv(FREE) == (if f2.len() == 0 {
                FREE
            } else {
                f2.last()
            })) by {
                if flen == 1 {
                    assert(nx == FREE);
                    assert(self.prv(FREE) == FREE);
                } else {
                    assert(nx != FREE);
                    assert(FREE != index);
                    assert(a != FREE);
                    assert(self.prv(FREE) == s1.prv(FREE));
                    assert(s1.prv(FREE) == f.last());
                    assert(f2.last() == f.last());
                }
            }
            assert forall|t: int|
                0 <= t < q2.len() implies (#[trigger] self.payload@[q2[t] as int]) is Some by {
                if t > 0 {
                    assert(q2[t] == q0[t - 1]);
                    assert(q0[t - 1] != index);
                }
            }
            assert forall|t: int|
                0 <= t < f2.len() implies (#[trigger] self.payload@[f2[t] as int]) is None by {
                assert(f2[t] == f[t + 1]);
                assert(f[t + 1] != index);
            }
            assert(final(self).wf());
            assert(final(self).contents() =~= seq![value] + old(self).contents()) by {
                assert forall|t: int|
                    0 <= t < q2.len() implies final(self).contents()[t] == (seq![value] + old(
                    self,
                ).contents())[t] by {
                    if t > 0 {
                        assert(q2[t] == q0[t - 1]);
                        assert(q0[t - 1] != index);
                        assert((seq![value] + old(self).contents())[t] == s1.contents()[t - 1]);
                    }
                }
            }
            assert(!old(self).slots().contains(index)) by {
                if old(self).slots().contains(index) {
                    let t = choose|t: int|
                        0 <= t < old(self).slots().len() && old(self).slots()[t] == index;
                    assert(q0[t] != f[0]);
                    assert(false);
                }
            }
        }
        index
    }

    /// The slot index of the least recently used payload.
    pub(crate) fn back(&self) -> (r: usize)
        requires
            self.wf(),
            self.slots().len() > 0,
        ensures
            r == self.slots().last(),
    {
        self.prev_of[OCCUPIED]
    }

    /// Remove and return the least recently used payload.
    pub(crate) fn pop_back(&mut self) -> (r: T)
        requires
            old(self).wf(),
            old(self).contents().len() > 0,
        ensures
            final(self).wf(),
            final(self).slots() == old(self).slots().drop_last(),
            final(self).contents() == old(self).contents().drop_last(),
            r == old(self).contents().last(),
    {
        let index = self.back();
        let ghost j = self.slots().len() - 1;
        let r = self.remove(index, Ghost(j));
        proof {
            assert(old(self).slots().remove(j) =~= old(self).slots().drop_last());
            assert(old(self).contents().remove(j) =~= old(self).contents().drop_last());
        }
        r
    }

    /// Read the payload of the occupied slot at position `j` of the cycle.
    pub(crate) fn get(&self, index: usize, Ghost(j): Ghost<int>) -> (r: &T)
        requires
            self.wf(),
            0 <= j < self.slots().len(),
            self.slots()[j] == index,
        ensures
            *r == self.contents()[j],
    {
        proof {
            assert(2 <= self.occ@[j] < self.n());
            assert(self.payload@[self.occ@[j] as int] is Some);
        }
        match &self.payload[index] {
            Some(v) => v,
            None => vstd::pervasive::unreached(),
        }
    }

    /// Replace the payload of the occupied slot at position `j` of the
    /// cycle, without touching the recency order.
    pub(crate) fn set(&mut self, index: usize, value: T, Ghost(j): Ghost<int>)
        requires
            old(self).wf(),
            0 <= j < old(self).slots().len(),
            old(self).slots()[j] == index,
        ensures
            final(self).wf(),
            final(self).slots() == old(self).slots(),
            final(self).contents() == old(self).contents().update(j, value),
    {
        proof {
            assert(2 <= old(self).occ@[j] < old(self).n());
        }
        self.payload[index] = Some(value);
        proof {
            assert(self.payload@ == old(self).payload@.update(index as int, Some(value)));
            assert(forall|i: usize| #[trigger] self.nxt(i) == old(self).nxt(i));
            assert(forall|i: usize| #[trigger] self.prv(i) == old(self).prv(i));
            assert(self.cycle_linked(OCCUPIED, self.occ@));
            assert(self.cycle_linked(FREE, self.free@));
            assert forall|t: int|
                0 <= t < self.occ@.len() implies (#[trigger] self.payload@[self.occ@[t] as int])
                is Some by {}
            assert forall|t: int|
                0 <= t < self.free@.len() implies (#[trigger] self.payload@[self.free@[t] as int])
                is None by {
                assert(self.free@[t] != self.occ@[j]);
            }
            assert(final(self).wf());
            assert(final(self).contents() =~= old(self).contents().update(j, value)) by {
                assert forall|t: int|
                    0 <= t < self.occ@.len() implies final(self).contents()[t] == old(
                    self,
                ).contents().update(j, value)[t] by {
                    if t != j {
                        assert(self.occ@[t] != self.occ@[j]);
                    }
                }
            }
        }
    }

    /// Discard all slots and reinitialise to the empty state: both cycles
    /// become self-loops on their sentinel again.
    pub(crate) fn clear(&mut self)
        ensures
            final(self).wf(),
            final(self).slots() == Seq::<usize>::empty(),
            final(self).contents() == Seq::<T>::empty(),
    {
        self.payload.clear();
        self.payload.push(None);
        self.payload.push(None);
        self.next_of.clear();
        self.next_of.push(FREE);
        self.next_of.push(OCCUPIED);
        self.prev_of.clear();
        self.prev_of.push(FREE);
        self.prev_of.push(OCCUPIED);
        proof {
            self.occ@ = Seq::empty();
            self.free@ = Seq::empty();
            assert(final(self).contents() =~= Seq::<T>::empty());
        }
    }

    /// The occupied slot indices in recency order, walked from the occupied
    /// sentinel: most recently used first.
    pub(crate) fn slot_order(&self) -> (r: Vec<usize>)
        requires
            self.wf(),
        ensures
            r@ == self.slots(),
    {
        let mut r: Vec<usize> = Vec::new();
        let mut cur: usize = self.next_of[OCCUPIED];
        proof {
            assert(r@ =~= self.slots().take(0));
        }
        while cur != OCCUPIED
            invariant
                self.wf(),
                r@.len() <= self.slots().len(),
                r@ == self.slots().take(r@.len() as int),
                cur == (if r@.len() < self.slots().len() {
                    self.slots()[r@.len() as int]
                } else {
                    OCCUPIED
                }),
            decreases self.slots().len() - r@.len(),
        {
            let ghost k = r@.len() as int;
            proof {
                assert(k < self.slots().len());
                assert(2 <= self.occ@[k] < self.n());
                assert(self.nxt(self.occ@[k]) == (if k == self.occ@.len() - 1 {
                    OCCUPIED
                } else {
                    self.occ@[k + 1]
                }));
            }
            r.push(cur);
            cur = self.next_of[cur];
            proof {
                assert(r@ =~= self.slots().take(k + 1));
            }
        }
        proof {
            assert(r@ =~= self.slots());
        }
        r
    }
}

} // verus!
