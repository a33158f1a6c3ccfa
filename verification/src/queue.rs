//! The cached-minimum priority queue: O(1) insert by appending at the
//! tail, O(1) peek through a cached minimum index, and a single-pass O(n)
//! extract-minimum scan.
//!
//! Storage is an arena of [`Node`] slots addressed by index. A free list
//! and the live list are threaded through the same `next` fields, so no
//! operation allocates. The abstract state is the sequence of live slot
//! indices in list order (`live_idxs`) together with the sequence of free
//! slot indices (`free_idxs`); the value sequence `vals` is read off the
//! live indices.

use vstd::prelude::*;

use crate::node::Node;
use crate::order::{min_is_repeated, seq_min};
use crate::order::{lemma_seq_min_is_attained, lemma_seq_min_is_lower_bound, lemma_seq_min_push};

verus! {

/// Why an insert was refused.
#[derive(Debug, PartialEq, Eq, Structural)]
pub enum Error {
    /// The value is smaller than the queue's current minimum. Reserved
    /// for insertion policies that refuse to displace the cached minimum;
    /// the policies implemented here never return it.
    SmallerThanMin,
    /// No free slot is left in the backing storage.
    QueueFull,
}

/// A fixed-capacity priority queue over an arena of node slots.
pub struct PriorityQueue {
    data: Vec<Node<i64>>,
    head: Option<usize>,
    tail: Option<usize>,
    free: Option<usize>,
    min: Option<usize>,
    live: Ghost<Seq<usize>>,
    frees: Ghost<Seq<usize>>,
}

/// One step of the extract-minimum scan's candidate/runner-up state.
///
/// `pop_scan(v, k)` is the pair (candidate position, runner-up position)
/// after the scan has visited positions `1..=k` of the value sequence
/// `v`, having seeded the pair from the first two positions with ties
/// going to the left. A visited position is promoted to candidate when
/// its value is less than or equal to the candidate's, so among equal
/// minima the last-visited one ends up as the candidate.
pub open spec fn pop_scan(v: Seq<i64>, k: int) -> (int, int)
    recommends
        2 <= v.len(),
        0 <= k < v.len(),
    decreases k,
{
    if k <= 0 {
        if v[0] <= v[1] {
            (0int, 1int)
        } else {
            (1int, 0int)
        }
    } else {
        let st = pop_scan(v, k - 1);
        if v[k] <= v[st.0] && st.0 != k {
            (k, st.0)
        } else {
            st
        }
    }
}

/// The position the extract-minimum scan removes: the last occurrence of
/// the minimum value.
pub open spec fn pop_pos(v: Seq<i64>) -> int {
    pop_scan(v, v.len() - 1).0
}

/// The position whose slot becomes the new cached minimum after a pop.
pub open spec fn pop_second(v: Seq<i64>) -> int {
    pop_scan(v, v.len() - 1).1
}

/// After `k` scan steps the candidate and runner-up are distinct positions
/// within the visited prefix; the candidate attains the minimum of the
/// prefix and is its last occurrence there; and the runner-up is position
/// 1 when the candidate never left the head, else the minimum of the
/// positions before the candidate.
pub proof fn lemma_pop_scan_props(v: Seq<i64>, k: int)
    requires
        2 <= v.len(),
        1 <= k < v.len(),
    ensures
        ({
            let m = pop_scan(v, k).0;
            let s = pop_scan(v, k).1;
            &&& 0 <= m <= k
            &&& 0 <= s <= k
            &&& m != s
            &&& (forall|j: int| 0 <= j <= k ==> v[m] <= #[trigger] v[j])
            &&& (forall|j: int| m < j <= k ==> v[m] < #[trigger] v[j])
            &&& (m == 0 ==> s == 1)
            &&& (m >= 1 ==> v[s] == seq_min(v.take(m)))
        }),
    decreases k,
{
    let m = pop_scan(v, k).0;
    let s = pop_scan(v, k).1;
    if k == 1 {
        let st0 = pop_scan(v, 0);
        assert(seq_min(v.take(1)) == v.take(1)[0]);
        assert(v.take(1)[0] == v[0]);
    } else {
        lemma_pop_scan_props(v, k - 1);
        let m0 = pop_scan(v, k - 1).0;
        let s0 = pop_scan(v, k - 1).1;
        if v[k] <= v[m0] && m0 != k {
            assert(m == k && s == m0);
            assert forall|j: int| 0 <= j < v.take(k).len() implies v.take(k)[m0] <= #[trigger] v.take(
                k,
            )[j] by {
                assert(v.take(k)[j] == v[j]);
            }
            crate::order::lemma_min_at_position(v.take(k), m0);
            assert(v.take(k)[m0] == v[m0]);
        } else {
            assert(m == m0 && s == s0);
        }
    }
}

/// The scan's final candidate attains the minimum and is its last
/// occurrence; the runner-up is a distinct position.
pub proof fn lemma_pop_pos_props(v: Seq<i64>)
    requires
        v.len() >= 2,
    ensures
        0 <= pop_pos(v) < v.len(),
        0 <= pop_second(v) < v.len(),
        pop_pos(v) != pop_second(v),
        v[pop_pos(v)] == seq_min(v),
        forall|j: int| pop_pos(v) < j < v.len() ==> #[trigger] v[j] > seq_min(v),
        pop_pos(v) == 0 ==> pop_second(v) == 1,
        pop_pos(v) >= 1 ==> v[pop_second(v)] == seq_min(v.take(pop_pos(v))),
{
    lemma_pop_scan_props(v, v.len() - 1);
    crate::order::lemma_min_at_position(v, pop_pos(v));
}

/// When the minimum value occurs more than once, the runner-up the scan
/// leaves behind as the new cached minimum is a true minimum of the
/// remaining values.
pub proof fn lemma_pop_second_in_sync(v: Seq<i64>)
    requires
        v.len() >= 2,
        min_is_repeated(v),
    ensures
        v[pop_second(v)] == seq_min(v.remove(pop_pos(v))),
{
    lemma_pop_pos_props(v);
    let m = pop_pos(v);
    let s = pop_second(v);
    let (i, j) = choose|i: int, j: int|
        0 <= i < v.len() && 0 <= j < v.len() && i != j && v[i] == seq_min(v) && v[j] == seq_min(v);
    let w = if i == m {
        j
    } else {
        i
    };
    assert(v[w] == seq_min(v) && w != m);
    assert(w < m);
    // the runner-up's value equals the overall minimum
    let t = v.take(m);
    lemma_seq_min_is_attained(t);
    let a = choose|a: int| 0 <= a < t.len() && t[a] == seq_min(t);
    assert(t[a] == v[a]);
    lemma_seq_min_is_lower_bound(v);
    lemma_seq_min_is_lower_bound(t);
    assert(t[w] == v[w]);
    assert(seq_min(t) == seq_min(v));
    // the remaining values still attain the overall minimum
    let rm = v.remove(m);
    v.remove_ensures(m);
    lemma_seq_min_is_attained(rm);
    let b = choose|b: int| 0 <= b < rm.len() && rm[b] == seq_min(rm);
    assert(rm[b] == (if b < m {
        v[b]
    } else {
        v[b + 1]
    }));
    assert(rm[w] == v[w]);
    lemma_seq_min_is_lower_bound(rm);
    assert(seq_min(rm) == seq_min(v));
}

/// The exact boundary of the cached-minimum invariant across a pop: the
/// runner-up's value never exceeds what remains at its own position, so
/// the new cached minimum is in sync precisely when the runner-up's value
/// is a lower bound of the remaining values.
pub proof fn lemma_pop_second_in_sync_exact(v: Seq<i64>)
    requires
        v.len() >= 2,
        v[pop_second(v)] <= seq_min(v.remove(pop_pos(v))),
    ensures
        v[pop_second(v)] == seq_min(v.remove(pop_pos(v))),
{
    lemma_pop_pos_props(v);
    let m = pop_pos(v);
    let s = pop_second(v);
    let rm = v.remove(m);
    v.remove_ensures(m);
    let s2 = if s < m {
        s
    } else {
        s - 1
    };
    assert(rm[s2] == v[s]);
    lemma_seq_min_is_lower_bound(rm);
}

/// When the scan removes the tail (the minimum's last occurrence is the
/// most recently inserted element), the runner-up it leaves behind is a
/// true minimum of the remaining values.
pub proof fn lemma_pop_second_at_tail(v: Seq<i64>)
    requires
        v.len() >= 2,
        pop_pos(v) == v.len() - 1,
    ensures
        v[pop_second(v)] == seq_min(v.remove(pop_pos(v))),
{
    lemma_pop_pos_props(v);
    let m = pop_pos(v);
    assert(v.remove(m) =~= v.take(m));
}

/// A fully drained queue has every slot back on the free list, so an
/// insert is owed to succeed again: the free list is rethreaded by pops,
/// never exhausted.
pub proof fn lemma_drained_has_capacity(q: PriorityQueue)
    requires
        q.wf(),
        q.vals().len() == 0,
    ensures
        q.free_idxs().len() == q.cap(),
{
}

/// Successive pops never see a smaller minimum; with distinct values the
/// popped values strictly ascend.
pub proof fn lemma_pop_values_ascend(v: Seq<i64>)
    requires
        v.len() >= 2,
    ensures
        seq_min(v) <= seq_min(v.remove(pop_pos(v))),
        crate::order::all_distinct(v) ==> seq_min(v) < seq_min(v.remove(pop_pos(v))),
{
    lemma_pop_pos_props(v);
    let m = pop_pos(v);
    let rm = v.remove(m);
    v.remove_ensures(m);
    lemma_seq_min_is_attained(rm);
    let b = choose|b: int| 0 <= b < rm.len() && rm[b] == seq_min(rm);
    let b0 = if b < m {
        b
    } else {
        b + 1
    };
    assert(rm[b] == v[b0]);
    lemma_seq_min_is_lower_bound(v);
    assert(seq_min(v) <= v[b0]);
    if crate::order::all_distinct(v) {
        assert(b0 != m);
        if b0 < m {
            assert(v[b0] != v[m]);
        } else {
            assert(v[m] != v[b0]);
        }
        assert(v[b0] > seq_min(v));
    }
}

impl PriorityQueue {
    /// The fixed capacity: the number of arena slots.
    pub closed spec fn cap(self) -> nat {
        self.data@.len()
    }

    /// The live slot indices, in list order from head to tail.
    pub closed spec fn live_idxs(self) -> Seq<usize> {
        self.live@
    }

    /// The free slot indices, in free-list order.
    pub closed spec fn free_idxs(self) -> Seq<usize> {
        self.frees@
    }

    /// The value stored in slot `i`.
    pub closed spec fn val_at(self, i: usize) -> i64 {
        self.data@[i as int].value->0
    }

    /// The live values, in list order from head to tail.
    pub closed spec fn vals(self) -> Seq<i64> {
        Seq::new(self.live@.len(), |j: int| self.val_at(self.live@[j]))
    }

    /// The head-of-list index.
    pub closed spec fn head_idx(self) -> Option<usize> {
        self.head
    }

    /// The tail-of-list index.
    pub closed spec fn tail_idx(self) -> Option<usize> {
        self.tail
    }

    /// The head-of-free-list index.
    pub closed spec fn free_idx(self) -> Option<usize> {
        self.free
    }

    /// The cached minimum index.
    pub closed spec fn min_idx(self) -> Option<usize> {
        self.min
    }

    /// The value the cached minimum index designates.
    pub closed spec fn cached_min(self) -> Option<i64> {
        match self.min {
            None => None,
            Some(m) => Some(self.val_at(m)),
        }
    }

    /// The cached minimum designates a true minimum of the live values.
    pub open spec fn min_in_sync(self) -> bool {
        self.vals().len() > 0 ==> self.cached_min() == Some(seq_min(self.vals()))
    }

    /// Structural well-formedness: live and free lists partition the
    /// arena, both are threaded through the `next` fields in order, every
    /// live slot holds a value, and the cached minimum designates a live
    /// slot exactly when the queue is non-empty.
    pub closed spec fn wf(self) -> bool {
        let l = self.live@;
        let f = self.frees@;
        let n = self.data@.len();
        &&& l.len() + f.len() == n
        &&& (forall|i: int| 0 <= i < l.len() ==> (#[trigger] l[i]) < n)
        &&& (forall|i: int| 0 <= i < f.len() ==> (#[trigger] f[i]) < n)
        &&& l.no_duplicates()
        &&& f.no_duplicates()
        &&& (forall|i: int, j: int|
            #![trigger l[i], f[j]]
            0 <= i < l.len() && 0 <= j < f.len() ==> l[i] != f[j])
        &&& self.head == (if l.len() > 0 {
            Some(l[0])
        } else {
            None::<usize>
        })
        &&& self.tail == (if l.len() > 0 {
            Some(l[l.len() - 1])
        } else {
            None::<usize>
        })
        &&& self.free == (if f.len() > 0 {
            Some(f[0])
        } else {
            None::<usize>
        })
        &&& (forall|i: int|
            0 <= i < l.len() ==> self.data@[#[trigger] l[i] as int].next == (if i + 1 < l.len() {
                Some(l[i + 1])
            } else {
                None::<usize>
            }))
        &&& (forall|i: int|
            0 <= i < f.len() ==> self.data@[#[trigger] f[i] as int].next == (if i + 1 < f.len() {
                Some(f[i + 1])
            } else {
                None::<usize>
            }))
        &&& (forall|i: int| 0 <= i < l.len() ==> self.data@[#[trigger] l[i] as int].value is Some)
        &&& match self.min {
            None => l.len() == 0,
            Some(m) => l.contains(m),
        }
    }

    /// Builds a queue of fixed capacity with every slot free, threaded
    /// into the free list in index order.
    pub fn new(capacity: usize) -> (r: Self)
        ensures
            r.wf(),
            r.cap() == capacity,
            r.live_idxs().len() == 0,
            r.vals().len() == 0,
            r.free_idxs() == Seq::new(capacity as nat, |i: int| i as usize),
            r.head_idx() is None,
            r.tail_idx() is None,
            r.min_idx() is None,
            r.free_idx() == (if capacity > 0 {
                Some(0usize)
            } else {
                None::<usize>
            }),
            r.min_in_sync(),
    {
        let mut data: Vec<Node<i64>> = Vec::new();
        let mut i: usize = 0;
        while i < capacity
            invariant
                i <= capacity,
                data@.len() == i,
                forall|j: int|
                    0 <= j < i ==> (#[trigger] data@[j]).value is None && data@[j].next == (if j + 1
                        < capacity {
                        Some((j + 1) as usize)
                    } else {
                        None::<usize>
                    }),
            decreases capacity - i,
        {
            let nxt = if i + 1 < capacity {
                Some(i + 1)
            } else {
                None
            };
            data.push(Node::new_uninit(nxt));
            i = i + 1;
        }
        let r = PriorityQueue {
            data,
            head: None,
            tail: None,
            free: if capacity > 0 {
                Some(0)
            } else {
                None
            },
            min: None,
            live: Ghost(Seq::empty()),
            frees: Ghost(Seq::new(capacity as nat, |k: int| k as usize)),
        };
        proof {
            let f = r.frees@;
            assert(forall|k: int| 0 <= k < f.len() ==> (#[trigger] f[k]) == k as usize);
            assert(f.no_duplicates());
        }
        r
    }

    /// The current minimum, read through the cached minimum index.
    pub fn min(&self) -> (r: Option<i64>)
        requires
            self.wf(),
        ensures
            r == self.cached_min(),
            (r is None) <==> self.vals().len() == 0,
            self.min_in_sync() && self.vals().len() > 0 ==> r == Some(seq_min(self.vals())),
    {
        match self.min {
            None => None,
            Some(m) => {
                proof {
                    let l = self.live@;
                    assert(l.contains(m));
                    let j = choose|j: int| 0 <= j < l.len() && l[j] == m;
                    assert(l[j] < self.data@.len());
                }
                Some(self.data[m].value.unwrap())
            },
        }
    }

    /// The head-of-list index, for structural inspection.
    pub fn head_ptr(&self) -> (r: Option<usize>)
        ensures
            r == self.head_idx(),
    {
        self.head
    }

    /// The tail-of-list index, for structural inspection.
    pub fn tail_ptr(&self) -> (r: Option<usize>)
        ensures
            r == self.tail_idx(),
    {
        self.tail
    }

    /// The head-of-free-list index, for structural inspection.
    pub fn free_ptr(&self) -> (r: Option<usize>)
        ensures
            r == self.free_idx(),
    {
        self.free
    }

    /// The cached minimum index, for structural inspection.
    pub fn min_ptr(&self) -> (r: Option<usize>)
        ensures
            r == self.min_idx(),
    {
        self.min
    }

    /// The `next` link of slot `idx`, for structural inspection.
    pub fn next_at(&self, idx: usize) -> (r: Option<usize>)
        requires
            idx < self.cap(),
        ensures
            r == self.next_of(idx),
    {
        self.data[idx].next
    }

    /// The `next` link of slot `i`.
    pub closed spec fn next_of(self, i: usize) -> Option<usize> {
        self.data@[i as int].next
    }

    /// Inserts a value: allocates the first free slot, appends it at the
    /// tail, and lowers the cached minimum index to the new slot exactly
    /// when the value is strictly smaller than the cached minimum.
    /// Returns `QueueFull`, leaving the queue unmodified, when no slot is
    /// free.
    pub fn insert(&mut self, value: i64) -> (r: Result<(), Error>)
        requires
            old(self).wf(),
        ensures
            final(self).wf(),
            final(self).cap() == old(self).cap(),
            (r is Ok) <==> old(self).vals().len() < old(self).cap(),
            r is Err ==> r == Err::<(), Error>(Error::QueueFull) && *final(self) == *old(self),
            r is Ok ==> {
                let f0 = old(self).free_idxs()[0];
                &&& final(self).live_idxs() == old(self).live_idxs().push(f0)
                &&& final(self).free_idxs() == old(self).free_idxs().drop_first()
                &&& final(self).vals() == old(self).vals().push(value)
                &&& final(self).head_idx() == (if old(self).vals().len() == 0 {
                    Some(f0)
                } else {
                    old(self).head_idx()
                })
                &&& final(self).tail_idx() == Some(f0)
                &&& final(self).min_idx() == (if old(self).vals().len() == 0 {
                    Some(f0)
                } else if value < old(self).cached_min()->0 {
                    Some(f0)
                } else {
                    old(self).min_idx()
                })
            },
            old(self).min_in_sync() ==> final(self).min_in_sync(),
    {
        let ghost oldq = *old(self);
        let ghost l = self.live@;
        let ghost f = self.frees@;
        match self.free {
            None => {
                proof {
                    assert(f.len() == 0);
                }
                Err(Error::QueueFull)
            },
            Some(fi) => {
                proof {
                    assert(f.len() > 0 && fi == f[0] && fi < self.data@.len());
                    assert(forall|i: int| 0 <= i < l.len() ==> (#[trigger] l[i]) != fi);
                }
                let next_free = self.data[fi].next;
                self.free = next_free;
                self.data.set(fi, Node::new(value, None));
                match self.tail {
                    Some(t) => {
                        proof {
                            assert(l.len() > 0 && t == l[l.len() - 1] && t < self.data@.len());
                            assert(t != fi);
                        }
                        let mut tn = self.data[t];
                        tn.next = Some(fi);
                        self.data.set(t, tn);
                        self.tail = Some(fi);
                        let m = self.min.unwrap();
                        proof {
                            assert(l.contains(m));
                            let j = choose|j: int| 0 <= j < l.len() && l[j] == m;
                            assert(l[j] < self.data@.len() && m != fi);
                            assert(m != t ==> self.data@[m as int] == oldq.data@[m as int]);
                        }
                        if value < self.data[m].value.unwrap() {
                            self.min = Some(fi);
                        }
                    },
                    None => {
                        self.head = Some(fi);
                        self.tail = Some(fi);
                        self.min = Some(fi);
                    },
                }
                self.live = Ghost(l.push(fi));
                self.frees = Ghost(f.drop_first());
                proof {
                    self.lemma_insert_reestablish(oldq, value, fi);
                }
                Ok(())
            },
        }
    }

    /// Removes a minimum-valued element in one forward pass, re-linking
    /// its slot into the free list and caching the scan's runner-up as
    /// the new minimum index. Returns `None` on an empty queue, leaving
    /// it unmodified. Among equal minima the last-inserted one is
    /// removed, and the runner-up left behind is the occurrence visited
    /// just before it.
    #[verifier::loop_isolation(false)]
    pub fn pop(&mut self) -> (r: Option<i64>)
        requires
            old(self).wf(),
        ensures
            final(self).wf(),
            final(self).cap() == old(self).cap(),
            (r is Some) <==> old(self).vals().len() > 0,
            old(self).vals().len() == 0 ==> *final(self) == *old(self),
            old(self).vals().len() > 0 ==> r == Some(seq_min(old(self).vals())),
            old(self).vals().len() == 1 ==> {
                &&& final(self).vals().len() == 0
                &&& final(self).free_idxs() == seq![old(self).live_idxs()[0]]
                    + old(self).free_idxs()
            },
            old(self).vals().len() >= 2 ==> {
                let v = old(self).vals();
                let l = old(self).live_idxs();
                let m = pop_pos(v);
                &&& r == Some(v[m])
                &&& final(self).live_idxs() == l.remove(m)
                &&& final(self).vals() == v.remove(m)
                &&& final(self).free_idxs() == seq![l[m]] + old(self).free_idxs()
                &&& final(self).min_idx() == Some(l[pop_second(v)])
                &&& final(self).cached_min() == Some(v[pop_second(v)])
            },
            old(self).vals().len() <= 2 ==> final(self).min_in_sync(),
            old(self).vals().len() >= 2 && min_is_repeated(old(self).vals())
                ==> final(self).min_in_sync(),
            old(self).vals().len() >= 2 && pop_pos(old(self).vals()) == old(self).vals().len() - 1
                ==> final(self).min_in_sync(),
            old(self).vals().len() >= 2 && old(self).vals()[pop_second(old(self).vals())]
                <= seq_min(old(self).vals().remove(pop_pos(old(self).vals())))
                ==> final(self).min_in_sync(),
    {
        let ghost oldq = *old(self);
        let ghost l = self.live@;
        let ghost f = self.frees@;
        let ghost v = self.vals();
        let h = match self.head {
            None => {
                proof {
                    assert(l.len() == 0);
                }
                return None;
            },
            Some(h) => h,
        };
        proof {
            assert(l.len() > 0 && h == l[0] && h < self.data@.len());
        }
        match self.data[h].next {
            None => {
                // singleton list: return the head's value and reset
                proof {
                    assert(l.len() == 1);
                }
                let value = self.data[h].value.unwrap();
                let mut hn = self.data[h];
                hn.next = self.free;
                self.data.set(h, hn);
                self.free = Some(h);
                self.head = None;
                self.tail = None;
                self.min = None;
                self.live = Ghost(Seq::empty());
                self.frees = Ghost(seq![h] + f);
                proof {
                    let f2 = self.frees@;
                    assert(f2[0] == h);
                    assert forall|i: int, j: int| 0 <= i < j < f2.len() implies f2[i] != f2[j] by {
                        if i >= 1 {
                            assert(f[i - 1] != f[j - 1]);
                        } else {
                            assert(f2[j] == f[j - 1]);
                        }
                    }
                    assert(f2.no_duplicates());
                    assert forall|i: int| 0 <= i < f2.len() implies self.data@[#[trigger] f2[i] as int].next
                        == (if i + 1 < f2.len() {
                        Some(f2[i + 1])
                    } else {
                        None::<usize>
                    }) by {
                        if i >= 1 {
                            assert(f2[i] == f[i - 1] && f[i - 1] != h);
                            assert(self.data@[f[i - 1] as int] == oldq.data@[f[i - 1] as int]);
                        }
                    }
                    assert(self.vals() =~= Seq::<i64>::empty());
                    assert(self.wf());
                    assert(value == v[0]);
                    assert(seq_min(v) == v[0]);
                }
                Some(value)
            },
            Some(second) => {
                proof {
                    assert(l.len() >= 2 && second == l[1]);
                }
                let hv = self.data[h].value.unwrap();
                let sv = self.data[second].value.unwrap();
                let mut min_i: usize = h;
                let mut second_i: usize = second;
                if !(hv <= sv) {
                    min_i = second;
                    second_i = h;
                }
                let mut prev_cursor = h;
                let mut cursor = h;
                let mut min_pred = h;
                let ghost mut k: int = 0;
                proof {
                    assert(v[0] == hv && v[1] == sv);
                }
                while self.data[cursor].next.is_some()
                    invariant
                        0 <= k < l.len(),
                        cursor == l[k],
                        prev_cursor == l[if k >= 1 {
                            k - 1
                        } else {
                            0
                        }],
                        0 <= pop_scan(v, k).0 < l.len(),
                        0 <= pop_scan(v, k).1 < l.len(),
                        pop_scan(v, k).0 != pop_scan(v, k).1,
                        min_i == l[pop_scan(v, k).0],
                        second_i == l[pop_scan(v, k).1],
                        min_pred == l[if pop_scan(v, k).0 >= 1 {
                            pop_scan(v, k).0 - 1
                        } else {
                            0
                        }],
                    decreases l.len() - k,
                {
                    let next = self.data[cursor].next.unwrap();
                    proof {
                        assert(self.data@[l[k] as int].next == (if k + 1 < l.len() {
                            Some(l[k + 1])
                        } else {
                            None::<usize>
                        }));
                        assert(k + 1 < l.len() && next == l[k + 1]);
                    }
                    let nv = self.data[next].value.unwrap();
                    let mv = self.data[min_i].value.unwrap();
                    proof {
                        assert(nv == v[k + 1]);
                        assert(mv == v[pop_scan(v, k).0]);
                    }
                    if nv <= mv && min_i != next {
                        second_i = min_i;
                        min_i = next;
                        min_pred = cursor;
                    }
                    prev_cursor = cursor;
                    cursor = next;
                    proof {
                        let st = pop_scan(v, k);
                        k = k + 1;
                        assert(pop_scan(v, k) == (if v[k] <= v[st.0] && st.0 != k {
                            (k, st.0)
                        } else {
                            st
                        }));
                    }
                }
                proof {
                    assert(self.data@[l[k] as int].next == (if k + 1 < l.len() {
                        Some(l[k + 1])
                    } else {
                        None::<usize>
                    }));
                    assert(k == l.len() - 1);
                    lemma_pop_scan_props(v, k);
                    lemma_pop_pos_props(v);
                }
                let ghost m = pop_scan(v, k).0;
                let ghost s = pop_scan(v, k).1;
                let popped_value = self.data[min_i].value.unwrap();
                let next_after_min = self.data[min_i].next;
                if min_i == h {
                    proof {
                        assert(m == 0);
                    }
                    self.head = next_after_min;
                } else {
                    proof {
                        assert(m >= 1 && min_pred == l[m - 1] && min_pred != min_i);
                    }
                    let mut pn = self.data[min_pred];
                    pn.next = next_after_min;
                    self.data.set(min_pred, pn);
                }
                let t = self.tail.unwrap();
                if min_i == t {
                    proof {
                        assert(m == l.len() - 1);
                    }
                    self.tail = Some(prev_cursor);
                } else {
                    proof {
                        assert(m < l.len() - 1);
                    }
                }
                let mut mn = self.data[min_i];
                mn.next = self.free;
                self.data.set(min_i, mn);
                self.free = Some(min_i);
                self.min = Some(second_i);
                self.live = Ghost(l.remove(m));
                self.frees = Ghost(seq![min_i] + f);
                proof {
                    self.lemma_pop_reestablish(oldq, m, s);
                    assert(popped_value == v[m]);
                    if l.len() == 2 {
                        assert(self.vals() =~= seq![v[s]]);
                        assert(seq_min(self.vals()) == v[s]);
                    }
                    if min_is_repeated(v) {
                        lemma_pop_second_in_sync(v);
                    }
                    if m == l.len() - 1 {
                        lemma_pop_second_at_tail(v);
                    }
                    if v[s] <= seq_min(v.remove(m)) {
                        lemma_pop_second_in_sync_exact(v);
                    }
                }
                Some(popped_value)
            },
        }
    }

    /// The proof obligations of the general pop path: removing the slot
    /// at live position `m` and caching position `s` leaves the state
    /// well formed and related to the old as the contract states.
    proof fn lemma_pop_reestablish(self, oldq: PriorityQueue, m: int, s: int)
        requires
            oldq.wf(),
            oldq.live@.len() >= 2,
            0 <= m < oldq.live@.len(),
            0 <= s < oldq.live@.len(),
            m != s,
            self.live@ == oldq.live@.remove(m),
            self.frees@ == seq![oldq.live@[m]] + oldq.frees@,
            self.data@.len() == oldq.data@.len(),
            self.min == Some(oldq.live@[s]),
            self.free == Some(oldq.live@[m]),
            self.data@[oldq.live@[m] as int].next == oldq.free,
            self.data@[oldq.live@[m] as int].value == oldq.data@[oldq.live@[m] as int].value,
            m == 0 ==> self.head == oldq.data@[oldq.live@[0] as int].next && (forall|x: int|
                0 <= x < self.data@.len() && x != oldq.live@[m] ==> self.data@[x]
                    == oldq.data@[x]),
            m >= 1 ==> self.head == oldq.head && self.data@[oldq.live@[m - 1] as int].next
                == oldq.data@[oldq.live@[m] as int].next && self.data@[oldq.live@[m
                - 1] as int].value == oldq.data@[oldq.live@[m - 1] as int].value && (forall|x: int|
                0 <= x < self.data@.len() && x != oldq.live@[m] && x != oldq.live@[m - 1]
                    ==> self.data@[x] == oldq.data@[x]),
            self.tail == (if m == oldq.live@.len() - 1 {
                Some(oldq.live@[m - 1])
            } else {
                oldq.tail
            }),
        ensures
            self.wf(),
            self.cap() == oldq.cap(),
            self.live_idxs() == oldq.live_idxs().remove(m),
            self.free_idxs() == seq![oldq.live@[m]] + oldq.free_idxs(),
            self.vals() == oldq.vals().remove(m),
            self.min_idx() == Some(oldq.live@[s]),
            self.cached_min() == Some(oldq.vals()[s]),
    {
        let l = oldq.live@;
        let f = oldq.frees@;
        let n = oldq.data@.len() as int;
        let mi = l[m];
        let l2 = self.live@;
        let f2 = self.frees@;
        l.remove_ensures(m);
        assert(l2.len() == l.len() - 1);
        assert(f2.len() == f.len() + 1);
        assert(f2[0] == mi);
        assert(forall|i: int| 1 <= i < f2.len() ==> #[trigger] f2[i] == f[i - 1]);
        // index bounds carry over
        assert forall|i: int| 0 <= i < l2.len() implies (#[trigger] l2[i]) < n by {
            if i < m {
                assert(l2[i] == l[i]);
            } else {
                assert(l2[i] == l[i + 1]);
            }
        }
        // the new live list has no duplicates
        assert forall|i: int, j: int| 0 <= i < j < l2.len() implies l2[i] != l2[j] by {
            let i0 = if i < m {
                i
            } else {
                i + 1
            };
            let j0 = if j < m {
                j
            } else {
                j + 1
            };
            assert(l2[i] == l[i0] && l2[j] == l[j0]);
            assert(l[i0] != l[j0]);
        }
        assert(l2.no_duplicates());
        // the new free list has no duplicates
        assert forall|i: int, j: int| 0 <= i < j < f2.len() implies f2[i] != f2[j] by {
            if i == 0 {
                assert(f2[j] == f[j - 1]);
                assert(mi != f[j - 1]);
            } else {
                assert(f[i - 1] != f[j - 1]);
            }
        }
        assert(f2.no_duplicates());
        // live and free stay disjoint
        assert forall|i: int, j: int|
            #![trigger l2[i], f2[j]]
            0 <= i < l2.len() && 0 <= j < f2.len() implies l2[i] != f2[j] by {
            let i0 = if i < m {
                i
            } else {
                i + 1
            };
            assert(l2[i] == l[i0] && i0 != m);
            if j == 0 {
                assert(l[i0] != l[m]);
            } else {
                assert(l[i0] != f[j - 1]);
            }
        }
        // head, tail, free
        if m == 0 {
            assert(self.head == oldq.data@[l[0] as int].next);
            assert(oldq.data@[l[0] as int].next == Some(l[1]));
            assert(l2[0] == l[1]);
        } else {
            assert(l2[0] == l[0]);
        }
        if m == l.len() - 1 {
            assert(l2[l2.len() - 1] == l[m - 1]);
        } else {
            assert(l2[l2.len() - 1] == l[l.len() - 1]);
        }
        // live chain
        assert forall|i: int| 0 <= i < l2.len() implies self.data@[#[trigger] l2[i] as int].next
            == (if i + 1 < l2.len() {
            Some(l2[i + 1])
        } else {
            None::<usize>
        }) by {
            let i0 = if i < m {
                i
            } else {
                i + 1
            };
            assert(l2[i] == l[i0] && i0 != m);
            if m >= 1 && i0 == m - 1 {
                assert(self.data@[l[i0] as int].next == oldq.data@[l[m] as int].next);
                assert(oldq.data@[l[m] as int].next == (if m + 1 < l.len() {
                    Some(l[m + 1])
                } else {
                    None::<usize>
                }));
                if i + 1 < l2.len() {
                    assert(l2[i + 1] == l[m + 1]);
                }
            } else {
                assert(l[i0] != mi);
                if m >= 1 {
                    assert(l[i0] != l[m - 1]);
                }
                assert(self.data@[l[i0] as int] == oldq.data@[l[i0] as int]);
                assert(oldq.data@[l[i0] as int].next == (if i0 + 1 < l.len() {
                    Some(l[i0 + 1])
                } else {
                    None::<usize>
                }));
                if i + 1 < l2.len() {
                    if i0 + 1 == m {
                        assert(false);
                    } else {
                        assert(l2[i + 1] == l[i0 + 1]);
                    }
                }
            }
        }
        // free chain
        assert forall|i: int| 0 <= i < f2.len() implies self.data@[#[trigger] f2[i] as int].next
            == (if i + 1 < f2.len() {
            Some(f2[i + 1])
        } else {
            None::<usize>
        }) by {
            if i == 0 {
                assert(self.data@[mi as int].next == oldq.free);
            } else {
                assert(f2[i] == f[i - 1]);
                assert(f[i - 1] != mi);
                if m >= 1 {
                    assert(f[i - 1] != l[m - 1]);
                }
                assert(self.data@[f[i - 1] as int] == oldq.data@[f[i - 1] as int]);
            }
        }
        // values on live slots
        assert forall|i: int| 0 <= i < l2.len() implies self.data@[#[trigger] l2[i] as int].value
            is Some by {
            let i0 = if i < m {
                i
            } else {
                i + 1
            };
            assert(l2[i] == l[i0] && i0 != m);
            assert(oldq.data@[l[i0] as int].value is Some);
            if m >= 1 && i0 == m - 1 {
                assert(self.data@[l[i0] as int].value == oldq.data@[l[i0] as int].value);
            } else {
                assert(l[i0] != mi);
                if m >= 1 {
                    assert(l[i0] != l[m - 1]);
                }
                assert(self.data@[l[i0] as int] == oldq.data@[l[i0] as int]);
            }
        }
        // the cached minimum designates a live slot
        let s2 = if s < m {
            s
        } else {
            s - 1
        };
        assert(l2[s2] == l[s]);
        assert(l2.contains(l[s]));
        assert(self.wf());
        // the value sequence lost exactly position m
        oldq.vals().remove_ensures(m);
        assert forall|i: int| 0 <= i < l2.len() implies self.vals()[i] == oldq.vals().remove(m)[i]
        by {
            let i0 = if i < m {
                i
            } else {
                i + 1
            };
            assert(l2[i] == l[i0] && i0 != m);
            if m >= 1 && i0 == m - 1 {
                assert(self.data@[l[i0] as int].value == oldq.data@[l[i0] as int].value);
            } else {
                assert(l[i0] != mi);
                if m >= 1 {
                    assert(l[i0] != l[m - 1]);
                }
                assert(self.data@[l[i0] as int] == oldq.data@[l[i0] as int]);
            }
            assert(self.val_at(l2[i]) == oldq.val_at(l[i0]));
            assert(oldq.vals()[i0] == oldq.val_at(l[i0]));
        }
        assert(self.vals() =~= oldq.vals().remove(m));
        // the cached minimum's value
        if m >= 1 && s == m - 1 {
            assert(self.data@[l[s] as int].value == oldq.data@[l[s] as int].value);
        } else {
            assert(l[s] != mi);
            if m >= 1 {
                assert(l[s] != l[m - 1]);
            }
            assert(self.data@[l[s] as int] == oldq.data@[l[s] as int]);
        }
        assert(self.val_at(l[s]) == oldq.val_at(l[s]));
        assert(oldq.vals()[s] == oldq.val_at(l[s]));
    }

    /// The proof obligations shared by both insert paths: the new state
    /// is well formed and relates to the old as the contract states.
    proof fn lemma_insert_reestablish(self, oldq: PriorityQueue, value: i64, fi: usize)
        requires
            oldq.wf(),
            oldq.frees@.len() > 0,
            fi == oldq.frees@[0],
            self.live@ == oldq.live@.push(fi),
            self.frees@ == oldq.frees@.drop_first(),
            self.data@.len() == oldq.data@.len(),
            self.data@[fi as int].value == Some(value),
            self.data@[fi as int].next is None,
            self.head == (if oldq.live@.len() == 0 {
                Some(fi)
            } else {
                oldq.head
            }),
            self.tail == Some(fi),
            self.free == oldq.data@[fi as int].next,
            oldq.live@.len() > 0 ==> {
                let t = oldq.live@[oldq.live@.len() - 1];
                &&& self.data@[t as int].next == Some(fi)
                &&& self.data@[t as int].value == oldq.data@[t as int].value
                &&& (forall|x: int|
                    0 <= x < self.data@.len() && x != fi && x != t
                        ==> self.data@[x] == oldq.data@[x])
            },
            oldq.live@.len() == 0 ==> (forall|x: int|
                0 <= x < self.data@.len() && x != fi ==> self.data@[x] == oldq.data@[x]),
            self.min == (if oldq.live@.len() == 0 {
                Some(fi)
            } else if value < oldq.cached_min()->0 {
                Some(fi)
            } else {
                oldq.min
            }),
        ensures
            self.wf(),
            self.vals() == oldq.vals().push(value),
            oldq.min_in_sync() ==> self.min_in_sync(),
            self.cached_min() == (if oldq.live@.len() == 0 {
                Some(value)
            } else if value < oldq.cached_min()->0 {
                Some(value)
            } else {
                oldq.cached_min()
            }),
    {
        let l = oldq.live@;
        let f = oldq.frees@;
        let n = oldq.data@.len();
        let l2 = self.live@;
        let f2 = self.frees@;
        assert(forall|i: int| 0 <= i < l.len() ==> (#[trigger] l[i]) != fi);
        assert(forall|i: int| 0 <= i < f2.len() ==> (#[trigger] f2[i]) == f[i + 1]);
        // the new live list has no duplicates
        assert forall|i: int, j: int| 0 <= i < j < l2.len() implies l2[i] != l2[j] by {
            if j < l.len() {
                assert(l[i] != l[j]);
            }
        }
        assert(l2.no_duplicates());
        assert(f2.no_duplicates());
        // live chain
        assert forall|i: int| 0 <= i < l2.len() implies self.data@[#[trigger] l2[i] as int].next
            == (if i + 1 < l2.len() {
            Some(l2[i + 1])
        } else {
            None::<usize>
        }) by {
            if i + 1 < l.len() {
                assert(l2[i] == l[i] && l[i] != l[l.len() - 1] && l[i] != fi);
                assert(self.data@[l[i] as int] == oldq.data@[l[i] as int]);
            } else if i + 1 == l.len() {
                assert(l2[i] == l[l.len() - 1]);
            } else {
                assert(l2[i] == fi);
            }
        }
        // free chain
        assert forall|i: int| 0 <= i < f2.len() implies self.data@[#[trigger] f2[i] as int].next
            == (if i + 1 < f2.len() {
            Some(f2[i + 1])
        } else {
            None::<usize>
        }) by {
            assert(f2[i] == f[i + 1]);
            assert(f[i + 1] != f[0]);
            assert(f[i + 1] != fi);
            if l.len() > 0 {
                assert(f[i + 1] != l[l.len() - 1]);
            }
            assert(self.data@[f[i + 1] as int] == oldq.data@[f[i + 1] as int]);
        }
        // free head
        assert(self.free == oldq.data@[f[0] as int].next);
        // values on live slots
        assert forall|i: int| 0 <= i < l2.len() implies self.data@[#[trigger] l2[i] as int].value
            is Some by {
            if i < l.len() {
                assert(l2[i] == l[i]);
                assert(oldq.data@[l[i] as int].value is Some);
                if l.len() > 0 && l[i] == l[l.len() - 1] {
                } else {
                    assert(self.data@[l[i] as int] == oldq.data@[l[i] as int]);
                }
            }
        }
        // min designates a live slot
        match self.min {
            None => {
                assert(false);
            },
            Some(m) => {
                if m == fi {
                    assert(l2[l2.len() - 1] == fi);
                    assert(l2.contains(m));
                } else {
                    assert(oldq.min == Some(m));
                    assert(l.contains(m));
                    let j = choose|j: int| 0 <= j < l.len() && l[j] == m;
                    assert(l2[j] == m);
                    assert(l2.contains(m));
                }
            },
        }
        assert(self.wf());
        // the value sequence grew by exactly the new value
        assert forall|j: int| 0 <= j < l2.len() implies self.vals()[j] == oldq.vals().push(value)[j]
        by {
            if j < l.len() {
                assert(l2[j] == l[j]);
                if l.len() > 0 && l[j] == l[l.len() - 1] {
                    assert(self.data@[l[j] as int].value == oldq.data@[l[j] as int].value);
                } else {
                    assert(self.data@[l[j] as int] == oldq.data@[l[j] as int]);
                }
                assert(self.val_at(l[j]) == oldq.val_at(l[j]));
            } else {
                assert(l2[j] == fi);
            }
        }
        assert(self.vals() =~= oldq.vals().push(value));
        // the cached minimum stays in sync
        lemma_seq_min_push(oldq.vals(), value);
        if oldq.min_in_sync() {
            if l.len() == 0 {
                assert(self.cached_min() == Some(value));
            } else if value < oldq.cached_min()->0 {
                assert(self.cached_min() == Some(value));
            } else {
                let m = oldq.min->0;
                assert(l.contains(m));
                let j = choose|j: int| 0 <= j < l.len() && l[j] == m;
                if l.len() > 0 && m == l[l.len() - 1] {
                    assert(self.data@[m as int].value == oldq.data@[m as int].value);
                } else {
                    assert(self.data@[m as int] == oldq.data@[m as int]);
                }
                assert(self.cached_min() == oldq.cached_min());
            }
            assert(self.min_in_sync());
        }
        if l.len() > 0 {
            let m = oldq.min->0;
            assert(l.contains(m));
            if self.min == oldq.min {
                let j = choose|j: int| 0 <= j < l.len() && l[j] == m;
                if m == l[l.len() - 1] {
                    assert(self.data@[m as int].value == oldq.data@[m as int].value);
                } else {
                    assert(self.data@[m as int] == oldq.data@[m as int]);
                }
            }
        }
    }
}

} // verus!
