//! The sorted-list variant of the arena engine: insertion performs an
//! O(n) positional scan that keeps the live list sorted ascending, so
//! extraction is O(1) (always remove the head).
//!
//! The positional scan is the expensive operation and the one that must
//! tolerate interruption. It is exposed as an explicit step machine:
//! [`Sorted::scan_begin`] starts an insertion and either finishes it or
//! pauses holding a reader claim on the node it is inspecting;
//! [`Sorted::scan_step`] resumes from such a pause. Between a pause and
//! its resume the caller may run one [`Sorted::pop`]: a pop that would
//! reclaim the claimed node instead marks it for deletion and leaves its
//! storage intact, and the resuming scan performs the deferred
//! reclamation itself once its claim is dropped. [`Sorted::insert`] runs
//! the whole machine to completion in one call.

use vstd::prelude::*;

use crate::node::{rc_marked, rc_readers, Node};
use crate::order::{insert_pos, is_sorted, seq_min};
use crate::order::{
    lemma_insert_pos_of, lemma_min_at_position, lemma_sorted_insert,
};

verus! {

/// The position of `x` in `l`; meaningful when `l` contains `x` and has
/// no duplicates.
pub open spec fn pos_in(l: Seq<usize>, x: usize) -> int {
    choose|i: int| 0 <= i < l.len() && l[i] == x
}

/// In a duplicate-free sequence, `pos_in` inverts indexing.
pub proof fn lemma_pos_in(l: Seq<usize>, q: int)
    requires
        l.no_duplicates(),
        0 <= q < l.len(),
    ensures
        pos_in(l, l[q]) == q,
{
    let x = l[q];
    assert(0 <= q < l.len() && l[q] == x);
    let i = pos_in(l, x);
    assert(0 <= i < l.len() && l[i] == x);
    if i != q {
        assert(l[i] != l[q]);
    }
}

/// A paused insertion scan: the value still to be inserted and the slot
/// the scan holds a reader claim on.
pub struct Scan {
    value: i64,
    prev: usize,
}

impl Scan {
    /// The value the paused insertion will insert.
    pub closed spec fn value_of(self) -> i64 {
        self.value
    }

    /// The slot the paused scan holds a reader claim on.
    pub closed spec fn prev_slot(self) -> usize {
        self.prev
    }
}

/// What became of a newly begun insertion scan.
pub enum ScanOutcome {
    /// No free slot was left; nothing changed.
    Full,
    /// The value was inserted without scanning past the head.
    Inserted,
    /// The scan paused holding a reader claim; resume with
    /// [`Sorted::scan_step`].
    Paused(Scan),
}

/// What became of one resumed scan step.
pub enum ScanResume {
    /// The value was inserted; the scan is over.
    Inserted,
    /// The scan paused again at the next node.
    Paused(Scan),
}

/// A fixed-capacity sorted list over an arena of node slots.
pub struct Sorted {
    data: Vec<Node<i64>>,
    head: Option<usize>,
    free: Option<usize>,
    live: Ghost<Seq<usize>>,
    frees: Ghost<Seq<usize>>,
    reader: Ghost<Option<usize>>,
    limbo: Ghost<Option<usize>>,
}

impl Sorted {
    /// The fixed capacity: the number of arena slots.
    pub closed spec fn cap(self) -> nat {
        self.data@.len()
    }

    /// The live slot indices, in list order from the head.
    pub closed spec fn live_idxs(self) -> Seq<usize> {
        self.live@
    }

    /// The free slot indices, in free-list order.
    pub closed spec fn free_idxs(self) -> Seq<usize> {
        self.frees@
    }

    /// The value stored in slot `i`.
    pub closed spec fn val_at(self, i: usize) -> i64 {
        self.data@[i as int].value->0
    }

    /// The live values, in list order: sorted ascending.
    pub closed spec fn vals(self) -> Seq<i64> {
        Seq::new(self.live@.len(), |j: int| self.val_at(self.live@[j]))
    }

    /// The head-of-list index.
    pub closed spec fn head_idx(self) -> Option<usize> {
        self.head
    }

    /// The head-of-free-list index.
    pub closed spec fn free_idx(self) -> Option<usize> {
        self.free
    }

    /// The slot a paused scan holds a reader claim on, if any.
    pub closed spec fn reader_idx(self) -> Option<usize> {
        self.reader@
    }

    /// The slot whose reclamation a pop deferred, if any: logically
    /// removed from the list, storage still valid.
    pub closed spec fn limbo_idx(self) -> Option<usize> {
        self.limbo@
    }

    /// Structural well-formedness. Live and free lists are disjoint,
    /// duplicate-free, threaded through the `next` fields, and together
    /// with the at-most-one limbo slot cover the arena; live values are
    /// present and sorted ascending; a slot's reader count is 1 exactly
    /// when a paused scan claims it and 0 otherwise; a slot is marked for
    /// deletion exactly when it is the limbo slot, and the limbo slot's
    /// `next` still leads a stalled reader to the current head.
    pub closed spec fn wf(self) -> bool {
        let l = self.live@;
        let f = self.frees@;
        let n = self.data@.len();
        &&& (match self.limbo@ {
            None => l.len() + f.len() == n,
            Some(x) => {
                &&& l.len() + f.len() + 1 == n
                &&& x < n
                &&& !l.contains(x)
                &&& !f.contains(x)
                &&& self.data@[x as int].value is Some
                &&& self.data@[x as int].next == (if l.len() > 0 {
                    Some(l[0])
                } else {
                    None::<usize>
                })
                &&& self.reader@ == Some(x)
            },
        })
        &&& (forall|i: int| 0 <= i < l.len() ==> (#[trigger] l[i]) < n)
        &&& (forall|i: int| 0 <= i < f.len() ==> (#[trigger] f[i]) < n)
        &&& l.no_duplicates()
        &&& f.no_duplicates()
        &&& (forall|i: int, j: int|
            #![trigger l[i], f[j]]
            0 <= i < l.len() && 0 <= j < f.len() ==> l[i] != f[j])
        &&& self.head == (if l.len() > 0 {
            Some(l[0])
        } else {
            None::<usize>
        })
        &&& self.free == (if f.len() > 0 {
            Some(f[0])
        } else {
            None::<usize>
        })
        &&& (forall|i: int|
            0 <= i < l.len() ==> self.data@[#[trigger] l[i] as int].next == (if i + 1 < l.len() {
                Some(l[i + 1])
            } else {
                None::<usize>
            }))
        &&& (forall|i: int|
            0 <= i < f.len() ==> self.data@[#[trigger] f[i] as int].next == (if i + 1 < f.len() {
                Some(f[i + 1])
            } else {
                None::<usize>
            }))
        &&& (forall|i: int| 0 <= i < l.len() ==> self.data@[#[trigger] l[i] as int].value is Some)
        &&& is_sorted(self.vals())
        &&& (forall|i: usize|
            i < n ==> rc_readers((#[trigger] self.data@[i as int]).rc) == (if self.reader@
                == Some(i) {
                1u16
            } else {
                0u16
            }))
        &&& (forall|i: usize|
            i < n ==> (rc_marked((#[trigger] self.data@[i as int]).rc) <==> self.limbo@ == Some(
                i,
            )))
        &&& (match self.reader@ {
            None => self.limbo@ is None,
            Some(p) => p < n && (l.contains(p) || self.limbo@ == Some(p)),
        })
    }

    /// An active paused scan: the structure's reader claim is on the
    /// scan's slot, and when that slot is still live, every value up to
    /// it is at most the scan's value, so the insertion point lies at or
    /// beyond the slot.
    pub closed spec fn scan_ok(self, sc: Scan) -> bool {
        let l = self.live@;
        &&& self.reader@ == Some(sc.prev)
        &&& (l.contains(sc.prev) ==> (forall|j: int|
            0 <= j <= pos_in(l, sc.prev) ==> #[trigger] self.vals()[j] <= sc.value))
    }

    /// Builds a sorted list of fixed capacity with every slot free,
    /// threaded into the free list in index order.
    pub fn new(capacity: usize) -> (r: Self)
        ensures
            r.wf(),
            r.cap() == capacity,
            r.vals().len() == 0,
            r.live_idxs().len() == 0,
            r.free_idxs() == Seq::new(capacity as nat, |i: int| i as usize),
            r.head_idx() is None,
            r.free_idx() == (if capacity > 0 {
                Some(0usize)
            } else {
                None::<usize>
            }),
            r.reader_idx() is None,
            r.limbo_idx() is None,
    {
        let mut data: Vec<Node<i64>> = Vec::new();
        let mut i: usize = 0;
        while i < capacity
            invariant
                i <= capacity,
                data@.len() == i,
                forall|j: int|
                    0 <= j < i ==> (#[trigger] data@[j]).value is None && data@[j].rc == 0
                        && data@[j].next == (if j + 1 < capacity {
                        Some((j + 1) as usize)
                    } else {
                        None::<usize>
                    }),
            decreases capacity - i,
        {
            let nxt = if i + 1 < capacity {
                Some(i + 1)
            } else {
                None
            };
            data.push(Node::new_uninit(nxt));
            i = i + 1;
        }
        let r = Sorted {
            data,
            head: None,
            free: if capacity > 0 {
                Some(0)
            } else {
                None
            },
            live: Ghost(Seq::empty()),
            frees: Ghost(Seq::new(capacity as nat, |k: int| k as usize)),
            reader: Ghost(None),
            limbo: Ghost(None),
        };
        proof {
            let f = r.frees@;
            assert(forall|k: int| 0 <= k < f.len() ==> (#[trigger] f[k]) == k as usize);
            assert(f.no_duplicates());
            crate::node::lemma_rc_zero();
        }
        r
    }

    /// The head-of-list index, for structural inspection.
    pub fn head_ptr(&self) -> (r: Option<usize>)
        ensures
            r == self.head_idx(),
    {
        self.head
    }

    /// The head-of-free-list index, for structural inspection.
    pub fn free_ptr(&self) -> (r: Option<usize>)
        ensures
            r == self.free_idx(),
    {
        self.free
    }

    /// The current minimum: the value at the head of the sorted list.
    pub fn peek(&self) -> (r: Option<i64>)
        requires
            self.wf(),
        ensures
            r == (if self.vals().len() > 0 {
                Some(self.vals()[0])
            } else {
                None::<i64>
            }),
            self.vals().len() > 0 ==> r == Some(seq_min(self.vals())),
    {
        match self.head {
            None => None,
            Some(h) => {
                proof {
                    let l = self.live@;
                    assert(l.len() > 0 && h == l[0] && h < self.data@.len());
                    lemma_min_at_position(self.vals(), 0);
                }
                Some(self.data[h].value.unwrap())
            },
        }
    }

    /// Removes and returns the head of the sorted list: a minimum-valued
    /// element. When a paused scan holds a reader claim on the head, the
    /// slot is unlinked and marked for deletion instead of being
    /// reclaimed; its storage stays valid and its `next` still leads the
    /// stalled reader to the new head. At most one deferred deletion may
    /// be outstanding, so the resuming scan must reclaim it before the
    /// next pop.
    pub fn pop(&mut self) -> (r: Option<i64>)
        requires
            old(self).wf(),
            old(self).limbo_idx() is None,
        ensures
            final(self).wf(),
            final(self).cap() == old(self).cap(),
            (r is Some) <==> old(self).vals().len() > 0,
            old(self).vals().len() == 0 ==> *final(self) == *old(self),
            old(self).vals().len() > 0 ==> {
                &&& r == Some(old(self).vals()[0])
                &&& r == Some(seq_min(old(self).vals()))
                &&& final(self).vals() == old(self).vals().drop_first()
                &&& final(self).live_idxs() == old(self).live_idxs().drop_first()
            },
            old(self).vals().len() > 0 && old(self).reader_idx() != Some(
                old(self).live_idxs()[0],
            ) ==> {
                &&& final(self).free_idxs() == seq![old(self).live_idxs()[0]] + old(
                    self,
                ).free_idxs()
                &&& final(self).limbo_idx() is None
            },
            old(self).vals().len() > 0 && old(self).reader_idx() == Some(
                old(self).live_idxs()[0],
            ) ==> {
                &&& final(self).free_idxs() == old(self).free_idxs()
                &&& final(self).limbo_idx() == Some(old(self).live_idxs()[0])
            },
            final(self).reader_idx() == old(self).reader_idx(),
            old(self).reader_idx() is None ==> final(self).limbo_idx() is None,
    {
        let ghost oldq = *old(self);
        let ghost l = self.live@;
        let ghost f = self.frees@;
        let h = match self.head {
            None => {
                return None;
            },
            Some(h) => h,
        };
        proof {
            assert(l.len() > 0 && h == l[0] && h < self.data@.len());
        }
        let value = self.data[h].value.unwrap();
        proof {
            lemma_min_at_position(self.vals(), 0);
        }
        let next = self.data[h].next;
        let hn = self.data[h];
        if hn.is_being_read() {
            proof {
                assert(rc_readers(self.data@[h as int].rc) > 0);
                assert(self.reader@ == Some(h));
            }
            // defer reclamation: unlink, mark, leave storage intact
            let mut nd = self.data[h];
            nd.mark_for_deletion();
            self.data.set(h, nd);
            self.head = next;
            self.live = Ghost(l.drop_first());
            self.limbo = Ghost(Some(h));
            proof {
                self.lemma_pop_deferred(oldq);
            }
            Some(value)
        } else {
            proof {
                assert(rc_readers(self.data@[h as int].rc) == 0);
                assert(self.reader@ != Some(h));
            }
            let mut nd = self.data[h];
            nd.next = self.free;
            self.data.set(h, nd);
            self.free = Some(h);
            self.head = next;
            self.live = Ghost(l.drop_first());
            self.frees = Ghost(seq![h] + f);
            proof {
                self.lemma_pop_immediate(oldq);
            }
            Some(value)
        }
    }

    /// Inserts `value` at the front of the list, allocating the first
    /// free slot: the fast path for an empty list or a value below the
    /// current head.
    fn insert_first(&mut self, value: i64)
        requires
            old(self).wf(),
            old(self).reader_idx() is None,
            old(self).free_idxs().len() > 0,
            old(self).vals().len() > 0 ==> value < old(self).vals()[0],
        ensures
            final(self).wf(),
            final(self).cap() == old(self).cap(),
            final(self).vals() == old(self).vals().insert(0, value),
            final(self).live_idxs() == old(self).live_idxs().insert(0, old(self).free_idxs()[0]),
            final(self).free_idxs() == old(self).free_idxs().drop_first(),
            final(self).head_idx() == Some(old(self).free_idxs()[0]),
            final(self).reader_idx() is None,
            final(self).limbo_idx() is None,
    {
        let ghost oldq = *old(self);
        let ghost l = self.live@;
        let ghost f = self.frees@;
        let f0 = self.free.unwrap();
        proof {
            assert(f.len() > 0 && f0 == f[0] && f0 < self.data@.len());
        }
        self.free = self.data[f0].next;
        let old_head = self.head;
        self.data.set(f0, Node::new(value, old_head));
        self.head = Some(f0);
        self.live = Ghost(l.insert(0, f0));
        self.frees = Ghost(f.drop_first());
        proof {
            self.lemma_insert_front_reestablish(oldq, value);
        }
    }

    /// Inserts `value` immediately after the live node `prev`, allocating
    /// the first free slot and patching `prev` to point at it.
    fn insert_at(&mut self, value: i64, prev: usize, Ghost(p): Ghost<int>)
        requires
            old(self).wf(),
            old(self).reader_idx() is None,
            old(self).free_idxs().len() > 0,
            1 <= p <= old(self).live_idxs().len(),
            prev == old(self).live_idxs()[p - 1],
            forall|j: int| 0 <= j < p ==> #[trigger] old(self).vals()[j] <= value,
            p < old(self).live_idxs().len() ==> value < old(self).vals()[p],
        ensures
            final(self).wf(),
            final(self).cap() == old(self).cap(),
            final(self).vals() == old(self).vals().insert(p, value),
            final(self).live_idxs() == old(self).live_idxs().insert(p, old(self).free_idxs()[0]),
            final(self).free_idxs() == old(self).free_idxs().drop_first(),
            final(self).head_idx() == old(self).head_idx(),
            final(self).reader_idx() is None,
            final(self).limbo_idx() is None,
    {
        let ghost oldq = *old(self);
        let ghost l = self.live@;
        let ghost f = self.frees@;
        let f0 = self.free.unwrap();
        proof {
            assert(f.len() > 0 && f0 == f[0] && f0 < self.data@.len());
            assert(l.contains(prev) && prev < self.data@.len());
            assert(prev != f0);
        }
        self.free = self.data[f0].next;
        let after = self.data[prev].next;
        self.data.set(f0, Node::new(value, after));
        let mut pn = self.data[prev];
        pn.next = Some(f0);
        self.data.set(prev, pn);
        self.live = Ghost(l.insert(p, f0));
        self.frees = Ghost(f.drop_first());
        proof {
            self.lemma_insert_mid_reestablish(oldq, value, p);
        }
    }

    /// The proof obligations of a front insertion: the new state is well
    /// formed and the value sequence gained `value` at position 0.
    #[verifier::rlimit(100)]
    #[verifier::spinoff_prover]
    proof fn lemma_insert_front_reestablish(self, oldq: Sorted, value: i64)
        requires
            oldq.wf(),
            oldq.reader@ is None,
            oldq.frees@.len() > 0,
            oldq.live@.len() > 0 ==> value < oldq.vals()[0],
            self.live@ == oldq.live@.insert(0, oldq.frees@[0]),
            self.frees@ == oldq.frees@.drop_first(),
            self.data@.len() == oldq.data@.len(),
            self.data@[oldq.frees@[0] as int].value == Some(value),
            self.data@[oldq.frees@[0] as int].next == oldq.head,
            self.data@[oldq.frees@[0] as int].rc == 0u16,
            forall|x: int|
                0 <= x < self.data@.len() && x != oldq.frees@[0] ==> self.data@[x]
                    == oldq.data@[x],
            self.head == Some(oldq.frees@[0]),
            self.free == oldq.data@[oldq.frees@[0] as int].next,
            self.reader@ is None,
            self.limbo@ is None,
        ensures
            self.wf(),
            self.vals() == oldq.vals().insert(0, value),
    {
        let l = oldq.live@;
        let f = oldq.frees@;
        let n = oldq.data@.len() as int;
        let f0 = f[0];
        let l2 = self.live@;
        let f2 = self.frees@;
        l.insert_ensures(0, f0);
        assert(l2[0] == f0);
        assert(forall|i: int| 1 <= i < l2.len() ==> #[trigger] l2[i] == l[i - 1]);
        assert(forall|i: int| 0 <= i < f2.len() ==> #[trigger] f2[i] == f[i + 1]);
        assert(forall|i: int| 0 <= i < l.len() ==> (#[trigger] l[i]) != f0);
        // no duplicates, bounds, disjointness
        assert forall|i: int, j: int| 0 <= i < j < l2.len() implies l2[i] != l2[j] by {
            if i >= 1 {
                assert(l[i - 1] != l[j - 1]);
            } else {
                assert(l2[j] == l[j - 1]);
            }
        }
        assert(l2.no_duplicates());
        assert forall|i: int, j: int| 0 <= i < j < f2.len() implies f2[i] != f2[j] by {
            assert(f[i + 1] != f[j + 1]);
        }
        assert(f2.no_duplicates());
        assert forall|i: int| 0 <= i < l2.len() implies (#[trigger] l2[i]) < n by {
            if i >= 1 {
                assert(l2[i] == l[i - 1]);
            }
        }
        assert forall|i: int, j: int|
            #![trigger l2[i], f2[j]]
            0 <= i < l2.len() && 0 <= j < f2.len() implies l2[i] != f2[j] by {
            assert(f2[j] == f[j + 1]);
            if i >= 1 {
                assert(l[i - 1] != f[j + 1]);
            } else {
                assert(f[0] != f[j + 1]);
            }
        }
        // live chain
        assert forall|i: int| 0 <= i < l2.len() implies self.data@[#[trigger] l2[i] as int].next
            == (if i + 1 < l2.len() {
            Some(l2[i + 1])
        } else {
            None::<usize>
        }) by {
            if i == 0 {
                assert(self.data@[f0 as int].next == oldq.head);
            } else {
                assert(l2[i] == l[i - 1] && l[i - 1] != f0);
                assert(self.data@[l[i - 1] as int] == oldq.data@[l[i - 1] as int]);
            }
        }
        // free chain
        assert forall|i: int| 0 <= i < f2.len() implies self.data@[#[trigger] f2[i] as int].next
            == (if i + 1 < f2.len() {
            Some(f2[i + 1])
        } else {
            None::<usize>
        }) by {
            assert(f2[i] == f[i + 1] && f[i + 1] != f[0]);
            assert(self.data@[f[i + 1] as int] == oldq.data@[f[i + 1] as int]);
        }
        // values present
        assert forall|i: int| 0 <= i < l2.len() implies self.data@[#[trigger] l2[i] as int].value
            is Some by {
            if i >= 1 {
                assert(l2[i] == l[i - 1] && l[i - 1] != f0);
                assert(self.data@[l[i - 1] as int] == oldq.data@[l[i - 1] as int]);
            }
        }
        // the value sequence gained `value` in front
        oldq.vals().insert_ensures(0, value);
        assert forall|i: int| 0 <= i < l2.len() implies self.vals()[i] == oldq.vals().insert(
            0,
            value,
        )[i] by {
            if i >= 1 {
                assert(l2[i] == l[i - 1] && l[i - 1] != f0);
                assert(self.data@[l[i - 1] as int] == oldq.data@[l[i - 1] as int]);
                assert(oldq.vals()[i - 1] == oldq.val_at(l[i - 1]));
            }
        }
        assert(self.vals() =~= oldq.vals().insert(0, value));
        lemma_sorted_insert(oldq.vals(), value, 0);
        // reader counts and deletion marks
        crate::node::lemma_rc_zero();
        assert forall|i: usize| i < n implies rc_readers((#[trigger] self.data@[i as int]).rc) == (
        if self.reader@ == Some(i) {
            1u16
        } else {
            0u16
        }) by {
            if i != f0 {
                assert(self.data@[i as int] == oldq.data@[i as int]);
            }
        }
        assert forall|i: usize| i < n implies (rc_marked((#[trigger] self.data@[i as int]).rc)
            <==> self.limbo@ == Some(i)) by {
            if i != f0 {
                assert(self.data@[i as int] == oldq.data@[i as int]);
            }
        }
        assert(self.wf());
    }

    /// The proof obligations of a mid-list insertion after live position
    /// `p - 1`: the new state is well formed and the value sequence
    /// gained `value` at position `p`.
    #[verifier::rlimit(100)]
    #[verifier::spinoff_prover]
    proof fn lemma_insert_mid_reestablish(self, oldq: Sorted, value: i64, p: int)
        requires
            oldq.wf(),
            oldq.reader@ is None,
            oldq.frees@.len() > 0,
            1 <= p <= oldq.live@.len(),
            forall|j: int| 0 <= j < p ==> #[trigger] oldq.vals()[j] <= value,
            p < oldq.live@.len() ==> value < oldq.vals()[p],
            self.live@ == oldq.live@.insert(p, oldq.frees@[0]),
            self.frees@ == oldq.frees@.drop_first(),
            self.data@.len() == oldq.data@.len(),
            self.data@[oldq.frees@[0] as int].value == Some(value),
            self.data@[oldq.frees@[0] as int].next == oldq.data@[oldq.live@[p - 1] as int].next,
            self.data@[oldq.frees@[0] as int].rc == 0u16,
            self.data@[oldq.live@[p - 1] as int].next == Some(oldq.frees@[0]),
            self.data@[oldq.live@[p - 1] as int].value == oldq.data@[oldq.live@[p
                - 1] as int].value,
            self.data@[oldq.live@[p - 1] as int].rc == oldq.data@[oldq.live@[p - 1] as int].rc,
            forall|x: int|
                0 <= x < self.data@.len() && x != oldq.frees@[0] && x != oldq.live@[p - 1]
                    ==> self.data@[x] == oldq.data@[x],
            self.head == oldq.head,
            self.free == oldq.data@[oldq.frees@[0] as int].next,
            self.reader@ is None,
            self.limbo@ is None,
        ensures
            self.wf(),
            self.vals() == oldq.vals().insert(p, value),
    {
        let l = oldq.live@;
        let f = oldq.frees@;
        let n = oldq.data@.len() as int;
        let f0 = f[0];
        let lp = l[p - 1];
        let l2 = self.live@;
        let f2 = self.frees@;
        l.insert_ensures(p, f0);
        assert(l2[p] == f0);
        assert(forall|i: int| 0 <= i < p ==> #[trigger] l2[i] == l[i]);
        assert(forall|i: int| p < i < l2.len() ==> #[trigger] l2[i] == l[i - 1]);
        assert(forall|i: int| 0 <= i < f2.len() ==> #[trigger] f2[i] == f[i + 1]);
        assert(forall|i: int| 0 <= i < l.len() ==> (#[trigger] l[i]) != f0);
        // no duplicates, bounds, disjointness
        assert forall|i: int, j: int| 0 <= i < j < l2.len() implies l2[i] != l2[j] by {
            let i0 = if i < p {
                i
            } else {
                i - 1
            };
            let j0 = if j < p {
                j
            } else {
                j - 1
            };
            if i == p {
                assert(l2[j] == l[j - 1]);
            } else if j == p {
                assert(l2[i] == l[i0]);
            } else {
                assert(l2[i] == l[i0] && l2[j] == l[j0]);
                assert(l[i0] != l[j0]);
            }
        }
        assert(l2.no_duplicates());
        assert forall|i: int, j: int| 0 <= i < j < f2.len() implies f2[i] != f2[j] by {
            assert(f[i + 1] != f[j + 1]);
        }
        assert(f2.no_duplicates());
        assert forall|i: int| 0 <= i < l2.len() implies (#[trigger] l2[i]) < n by {
            if i != p {
                let i0 = if i < p {
                    i
                } else {
                    i - 1
                };
                assert(l2[i] == l[i0]);
            }
        }
        assert forall|i: int, j: int|
            #![trigger l2[i], f2[j]]
            0 <= i < l2.len() && 0 <= j < f2.len() implies l2[i] != f2[j] by {
            assert(f2[j] == f[j + 1]);
            if i == p {
                assert(f[0] != f[j + 1]);
            } else {
                let i0 = if i < p {
                    i
                } else {
                    i - 1
                };
                assert(l2[i] == l[i0]);
                assert(l[i0] != f[j + 1]);
            }
        }
        // head is unchanged (p >= 1 keeps the old head in place)
        assert(l2[0] == l[0]);
        // live chain
        assert forall|i: int| 0 <= i < l2.len() implies self.data@[#[trigger] l2[i] as int].next
            == (if i + 1 < l2.len() {
            Some(l2[i + 1])
        } else {
            None::<usize>
        }) by {
            if i == p {
                assert(self.data@[f0 as int].next == oldq.data@[lp as int].next);
                assert(oldq.data@[lp as int].next == (if p < l.len() {
                    Some(l[p])
                } else {
                    None::<usize>
                }));
                if i + 1 < l2.len() {
                    assert(l2[i + 1] == l[p]);
                }
            } else if i == p - 1 {
                assert(l2[i] == lp);
                assert(self.data@[lp as int].next == Some(f0));
                assert(l2[p] == f0);
            } else {
                let i0 = if i < p {
                    i
                } else {
                    i - 1
                };
                assert(l2[i] == l[i0] && l[i0] != f0 && i0 != p - 1);
                assert(l[i0] != lp);
                assert(self.data@[l[i0] as int] == oldq.data@[l[i0] as int]);
                assert(oldq.data@[l[i0] as int].next == (if i0 + 1 < l.len() {
                    Some(l[i0 + 1])
                } else {
                    None::<usize>
                }));
                if i + 1 < l2.len() {
                    if i < p - 1 {
                        assert(l2[i + 1] == l[i + 1]);
                    } else {
                        assert(l2[i + 1] == l[i0 + 1]);
                    }
                }
            }
        }
        // free chain
        assert forall|i: int| 0 <= i < f2.len() implies self.data@[#[trigger] f2[i] as int].next
            == (if i + 1 < f2.len() {
            Some(f2[i + 1])
        } else {
            None::<usize>
        }) by {
            assert(f2[i] == f[i + 1] && f[i + 1] != f[0]);
            assert(f[i + 1] != lp);
            assert(self.data@[f[i + 1] as int] == oldq.data@[f[i + 1] as int]);
        }
        // values present
        assert forall|i: int| 0 <= i < l2.len() implies self.data@[#[trigger] l2[i] as int].value
            is Some by {
            if i != p {
                let i0 = if i < p {
                    i
                } else {
                    i - 1
                };
                assert(l2[i] == l[i0] && l[i0] != f0);
                if i0 == p - 1 {
                    assert(self.data@[lp as int].value == oldq.data@[lp as int].value);
                } else {
                    assert(l[i0] != lp);
                    assert(self.data@[l[i0] as int] == oldq.data@[l[i0] as int]);
                }
            }
        }
        // the value sequence gained `value` at position p
        oldq.vals().insert_ensures(p, value);
        assert forall|i: int| 0 <= i < l2.len() implies self.vals()[i] == oldq.vals().insert(
            p,
            value,
        )[i] by {
            if i != p {
                let i0 = if i < p {
                    i
                } else {
                    i - 1
                };
                assert(l2[i] == l[i0] && l[i0] != f0);
                if i0 == p - 1 {
                    assert(self.data@[lp as int].value == oldq.data@[lp as int].value);
                } else {
                    assert(l[i0] != lp);
                    assert(self.data@[l[i0] as int] == oldq.data@[l[i0] as int]);
                }
                assert(oldq.vals()[i0] == oldq.val_at(l[i0]));
            }
        }
        assert(self.vals() =~= oldq.vals().insert(p, value));
        lemma_sorted_insert(oldq.vals(), value, p);
        // reader counts and deletion marks
        crate::node::lemma_rc_zero();
        assert forall|i: usize| i < n implies rc_readers((#[trigger] self.data@[i as int]).rc) == (
        if self.reader@ == Some(i) {
            1u16
        } else {
            0u16
        }) by {
            if i != f0 && i != lp {
                assert(self.data@[i as int] == oldq.data@[i as int]);
            } else if i == lp {
                assert(self.data@[i as int].rc == oldq.data@[i as int].rc);
            }
        }
        assert forall|i: usize| i < n implies (rc_marked((#[trigger] self.data@[i as int]).rc)
            <==> self.limbo@ == Some(i)) by {
            if i != f0 && i != lp {
                assert(self.data@[i as int] == oldq.data@[i as int]);
            } else if i == lp {
                assert(self.data@[i as int].rc == oldq.data@[i as int].rc);
            }
        }
        assert(self.wf());
    }

    /// Begins an insertion scan. Either the value belongs at the front
    /// (or the list is empty) and is inserted at once, or the scan pauses
    /// holding a reader claim on the head: a preemption point at which
    /// the caller may let other work, including one pop, run before
    /// resuming with [`Sorted::scan_step`]. Returns `Full`, changing
    /// nothing, when no slot is free.
    pub fn scan_begin(&mut self, value: i64) -> (r: ScanOutcome)
        requires
            old(self).wf(),
            old(self).reader_idx() is None,
        ensures
            final(self).wf(),
            final(self).cap() == old(self).cap(),
            final(self).limbo_idx() is None,
            (r is Full) <==> old(self).free_idxs().len() == 0,
            r is Full ==> *final(self) == *old(self),
            r is Inserted ==> {
                &&& final(self).vals() == old(self).vals().insert(
                    insert_pos(old(self).vals(), value),
                    value,
                )
                &&& final(self).free_idxs() == old(self).free_idxs().drop_first()
                &&& final(self).reader_idx() is None
            },
            r matches ScanOutcome::Paused(sc) ==> {
                &&& final(self).vals() == old(self).vals()
                &&& final(self).live_idxs() == old(self).live_idxs()
                &&& final(self).free_idxs() == old(self).free_idxs()
                &&& final(self).free_idxs().len() > 0
                &&& sc.value_of() == value
                &&& final(self).scan_ok(sc)
                &&& final(self).reader_idx() == Some(sc.prev_slot())
                &&& pos_in(final(self).live_idxs(), sc.prev_slot()) == 0
                &&& final(self).live_idxs().len() > 0
            },
    {
        let ghost oldq = *old(self);
        let ghost l = self.live@;
        let ghost v = self.vals();
        if self.free.is_none() {
            return ScanOutcome::Full;
        }
        match self.head {
            None => {
                proof {
                    lemma_insert_pos_of(v, value, 0);
                }
                self.insert_first(value);
                ScanOutcome::Inserted
            },
            Some(h) => {
                proof {
                    assert(l.len() > 0 && h == l[0] && h < self.data@.len());
                }
                let hv = self.data[h].value.unwrap();
                if value < hv {
                    proof {
                        lemma_insert_pos_of(v, value, 0);
                    }
                    self.insert_first(value);
                    ScanOutcome::Inserted
                } else {
                    let mut hn = self.data[h];
                    hn.inc_readers();
                    self.data.set(h, hn);
                    self.reader = Ghost(Some(h));
                    let r = ScanOutcome::Paused(Scan { value, prev: h });
                    proof {
                        self.lemma_claim_reestablish(oldq, 0);
                        lemma_pos_in(self.live@, 0);
                        assert(self.vals()[0] == v[0] && v[0] == hv);
                    }
                    r
                }
            },
        }
    }

    /// Resumes a paused insertion scan for one bounded step. The claim
    /// on the paused node is dropped first; if a pop marked that node for
    /// deletion in the meantime, the scan garbage-collects it now and
    /// restarts the comparison at the stored successor, the current
    /// head. The step then either inserts the value at its sorted
    /// position or pauses again one node further along.
    pub fn scan_step(&mut self, sc: Scan) -> (r: ScanResume)
        requires
            old(self).wf(),
            old(self).scan_ok(sc),
            old(self).free_idxs().len() > 0,
        ensures
            final(self).wf(),
            final(self).cap() == old(self).cap(),
            final(self).limbo_idx() is None,
            r is Inserted ==> {
                &&& final(self).vals() == old(self).vals().insert(
                    insert_pos(old(self).vals(), sc.value_of()),
                    sc.value_of(),
                )
                &&& final(self).reader_idx() is None
            },
            r matches ScanResume::Paused(sc2) ==> {
                &&& final(self).vals() == old(self).vals()
                &&& final(self).live_idxs() == old(self).live_idxs()
                &&& sc2.value_of() == sc.value_of()
                &&& final(self).scan_ok(sc2)
                &&& final(self).reader_idx() == Some(sc2.prev_slot())
                &&& final(self).free_idxs().len() > 0
                &&& 0 <= pos_in(final(self).live_idxs(), sc2.prev_slot())
                    < final(self).live_idxs().len()
                &&& (old(self).limbo_idx() is None ==> final(self).free_idxs()
                    == old(self).free_idxs() && pos_in(final(self).live_idxs(), sc2.prev_slot())
                    == pos_in(old(self).live_idxs(), sc.prev_slot()) + 1)
                &&& (old(self).limbo_idx() is Some ==> pos_in(
                    final(self).live_idxs(),
                    sc2.prev_slot(),
                ) == 0)
            },
    {
        let ghost oldq = *old(self);
        let ghost l = self.live@;
        let ghost v = self.vals();
        let p = sc.prev;
        proof {
            assert(self.reader@ == Some(p));
            assert(p < self.data@.len());
            assert(rc_readers(self.data@[p as int].rc) == 1);
        }
        let mut nd = self.data[p];
        nd.dec_readers();
        self.data.set(p, nd);
        self.reader = Ghost(None);
        let released = self.data[p];
        if released.is_marked_for_deletion() {
            proof {
                assert(rc_marked(oldq.data@[p as int].rc));
                assert(oldq.limbo@ == Some(p));
            }
            // deferred reclamation: clear the mark and thread the slot
            // back onto the free list before following its successor
            let mut nd2 = self.data[p];
            nd2.mark_ready();
            nd2.next = self.free;
            self.data.set(p, nd2);
            self.free = Some(p);
            self.frees = Ghost(seq![p] + oldq.frees@);
            self.limbo = Ghost(None);
            proof {
                self.lemma_release_reclaim(oldq, p);
            }
            let ghost mid = *self;
            match self.head {
                None => {
                    proof {
                        lemma_insert_pos_of(v, sc.value, 0);
                    }
                    self.insert_first(sc.value);
                    ScanResume::Inserted
                },
                Some(h) => {
                    proof {
                        assert(mid.live@ == l && h == l[0] && h < self.data@.len());
                    }
                    let hv = self.data[h].value.unwrap();
                    if sc.value < hv {
                        proof {
                            lemma_insert_pos_of(v, sc.value, 0);
                        }
                        self.insert_first(sc.value);
                        ScanResume::Inserted
                    } else {
                        let mut hn = self.data[h];
                        hn.inc_readers();
                        self.data.set(h, hn);
                        self.reader = Ghost(Some(h));
                        let r = ScanResume::Paused(Scan { value: sc.value, prev: h });
                        proof {
                            self.lemma_claim_reestablish(mid, 0);
                            lemma_pos_in(self.live@, 0);
                            assert(self.vals()[0] == v[0] && v[0] == hv);
                        }
                        r
                    }
                },
            }
        } else {
            proof {
                assert(!rc_marked(oldq.data@[p as int].rc));
                assert(oldq.limbo@ is None);
                self.lemma_release_live(oldq, p);
                assert(l.contains(p));
            }
            let ghost mid = *self;
            let ghost q = pos_in(l, p);
            proof {
                assert(0 <= q < l.len() && l[q] == p);
            }
            match self.data[p].next {
                None => {
                    proof {
                        assert(q == l.len() - 1);
                        assert forall|j: int| 0 <= j < l.len() as int implies #[trigger] v[j]
                            <= sc.value by {
                            assert(oldq.vals()[j] <= sc.value);
                        }
                        lemma_insert_pos_of(v, sc.value, l.len() as int);
                    }
                    self.insert_at(sc.value, p, Ghost(l.len() as int));
                    ScanResume::Inserted
                },
                Some(nx) => {
                    proof {
                        assert(q + 1 < l.len() && nx == l[q + 1] && nx < self.data@.len());
                    }
                    let nv = self.data[nx].value.unwrap();
                    if sc.value < nv {
                        proof {
                            assert(nv == v[q + 1]);
                            assert forall|j: int| 0 <= j < q + 1 implies #[trigger] v[j]
                                <= sc.value by {
                                assert(oldq.vals()[j] <= sc.value);
                            }
                            lemma_insert_pos_of(v, sc.value, q + 1);
                        }
                        self.insert_at(sc.value, p, Ghost(q + 1));
                        ScanResume::Inserted
                    } else {
                        let mut nn = self.data[nx];
                        nn.inc_readers();
                        self.data.set(nx, nn);
                        self.reader = Ghost(Some(nx));
                        let r = ScanResume::Paused(Scan { value: sc.value, prev: nx });
                        proof {
                            self.lemma_claim_reestablish(mid, q + 1);
                            lemma_pos_in(self.live@, q + 1);
                            assert(self.vals() == v);
                            assert forall|j: int| 0 <= j <= q + 1 implies #[trigger] self.vals()[j]
                                <= sc.value by {
                                if j <= q {
                                    assert(oldq.vals()[j] <= sc.value);
                                } else {
                                    assert(v[q + 1] == nv);
                                }
                            }
                        }
                        r
                    }
                },
            }
        }
    }

    /// Runs a paused scan to completion: resumes it step by step until
    /// the value is inserted.
    #[verifier::rlimit(100)]
    #[verifier::spinoff_prover]
    fn scan_finish(&mut self, sc: Scan, Ghost(fuel): Ghost<int>)
        requires
            old(self).wf(),
            old(self).scan_ok(sc),
            old(self).limbo_idx() is None,
            old(self).free_idxs().len() > 0,
            0 <= pos_in(old(self).live_idxs(), sc.prev_slot()) < old(self).live_idxs().len(),
            fuel == old(self).live_idxs().len() - pos_in(
                old(self).live_idxs(),
                sc.prev_slot(),
            ),
        ensures
            final(self).wf(),
            final(self).cap() == old(self).cap(),
            final(self).vals() == old(self).vals().insert(
                insert_pos(old(self).vals(), sc.value_of()),
                sc.value_of(),
            ),
            final(self).reader_idx() is None,
            final(self).limbo_idx() is None,
        decreases fuel,
    {
        match self.scan_step(sc) {
            ScanResume::Inserted => {
            },
            ScanResume::Paused(sc2) => {
                self.scan_finish(sc2, Ghost(fuel - 1));
            },
        }
    }

    /// Inserts a value at its sorted position: before the first element
    /// strictly greater, so a duplicate lands after the copies already
    /// present. Runs the whole scan machine to completion. Returns
    /// `Err(())`, leaving the list unmodified, when no slot is free.
    pub fn insert(&mut self, value: i64) -> (r: Result<(), ()>)
        requires
            old(self).wf(),
            old(self).reader_idx() is None,
        ensures
            final(self).wf(),
            final(self).cap() == old(self).cap(),
            (r is Ok) <==> old(self).vals().len() < old(self).cap(),
            r is Err ==> *final(self) == *old(self),
            r is Ok ==> final(self).vals() == old(self).vals().insert(
                insert_pos(old(self).vals(), value),
                value,
            ),
            final(self).reader_idx() is None,
            final(self).limbo_idx() is None,
    {
        match self.scan_begin(value) {
            ScanOutcome::Full => Err(()),
            ScanOutcome::Inserted => Ok(()),
            ScanOutcome::Paused(sc0) => {
                let ghost fuel = self.live@.len() as int;
                self.scan_finish(sc0, Ghost(fuel));
                Ok(())
            },
        }
    }

    /// Placing a reader claim on the live slot at position `q` (its
    /// reader count going from 0 to 1) leaves the state well formed.
    #[verifier::rlimit(50)]
    #[verifier::spinoff_prover]
    proof fn lemma_claim_reestablish(self, oldq: Sorted, q: int)
        requires
            oldq.wf(),
            oldq.reader@ is None,
            0 <= q < oldq.live@.len(),
            self.live@ == oldq.live@,
            self.frees@ == oldq.frees@,
            self.head == oldq.head,
            self.free == oldq.free,
            self.limbo@ == oldq.limbo@,
            self.data@.len() == oldq.data@.len(),
            self.reader@ == Some(oldq.live@[q]),
            self.data@[oldq.live@[q] as int].value == oldq.data@[oldq.live@[q] as int].value,
            self.data@[oldq.live@[q] as int].next == oldq.data@[oldq.live@[q] as int].next,
            rc_marked(self.data@[oldq.live@[q] as int].rc) == rc_marked(
                oldq.data@[oldq.live@[q] as int].rc,
            ),
            rc_readers(self.data@[oldq.live@[q] as int].rc) == 1,
            forall|x: int|
                0 <= x < self.data@.len() && x != oldq.live@[q] ==> self.data@[x]
                    == oldq.data@[x],
        ensures
            self.wf(),
            self.vals() == oldq.vals(),
    {
        let l = oldq.live@;
        let n = oldq.data@.len() as int;
        let c = l[q];
        // every slot keeps its value and link
        assert forall|x: int| 0 <= x < n implies self.data@[x].value == oldq.data@[x].value
            && self.data@[x].next == oldq.data@[x].next by {
            if x != c {
                assert(self.data@[x] == oldq.data@[x]);
            }
        }
        assert forall|i: int| 0 <= i < l.len() implies self.vals()[i] == oldq.vals()[i] by {
            assert(self.data@[l[i] as int].value == oldq.data@[l[i] as int].value);
        }
        assert(self.vals() =~= oldq.vals());
        assert forall|i: usize| i < n implies rc_readers((#[trigger] self.data@[i as int]).rc) == (
        if self.reader@ == Some(i) {
            1u16
        } else {
            0u16
        }) by {
            if i != c {
                assert(self.data@[i as int] == oldq.data@[i as int]);
            }
        }
        assert forall|i: usize| i < n implies (rc_marked((#[trigger] self.data@[i as int]).rc)
            <==> self.limbo@ == Some(i)) by {
            if i != c {
                assert(self.data@[i as int] == oldq.data@[i as int]);
            } else {
                assert(!rc_marked(oldq.data@[i as int].rc));
            }
        }
        assert(l.contains(c));
        assert(self.wf());
    }

    /// Dropping the reader claim from a still-live slot (its reader count
    /// going from 1 to 0) leaves the state well formed.
    #[verifier::rlimit(50)]
    #[verifier::spinoff_prover]
    proof fn lemma_release_live(self, oldq: Sorted, p: usize)
        requires
            oldq.wf(),
            oldq.reader@ == Some(p),
            oldq.limbo@ is None,
            self.live@ == oldq.live@,
            self.frees@ == oldq.frees@,
            self.head == oldq.head,
            self.free == oldq.free,
            self.limbo@ is None,
            self.reader@ is None,
            self.data@.len() == oldq.data@.len(),
            self.data@[p as int].value == oldq.data@[p as int].value,
            self.data@[p as int].next == oldq.data@[p as int].next,
            rc_marked(self.data@[p as int].rc) == rc_marked(oldq.data@[p as int].rc),
            rc_readers(self.data@[p as int].rc) == 0,
            forall|x: int|
                0 <= x < self.data@.len() && x != p ==> self.data@[x] == oldq.data@[x],
        ensures
            self.wf(),
            self.vals() == oldq.vals(),
    {
        let l = oldq.live@;
        let n = oldq.data@.len() as int;
        assert forall|x: int| 0 <= x < n implies self.data@[x].value == oldq.data@[x].value
            && self.data@[x].next == oldq.data@[x].next by {
            if x != p {
                assert(self.data@[x] == oldq.data@[x]);
            }
        }
        assert forall|i: int| 0 <= i < l.len() implies self.vals()[i] == oldq.vals()[i] by {
            assert(self.data@[l[i] as int].value == oldq.data@[l[i] as int].value);
        }
        assert(self.vals() =~= oldq.vals());
        assert forall|i: usize| i < n implies rc_readers((#[trigger] self.data@[i as int]).rc) == (
        if self.reader@ == Some(i) {
            1u16
        } else {
            0u16
        }) by {
            if i != p {
                assert(self.data@[i as int] == oldq.data@[i as int]);
            }
        }
        assert forall|i: usize| i < n implies (rc_marked((#[trigger] self.data@[i as int]).rc)
            <==> self.limbo@ == Some(i)) by {
            if i != p {
                assert(self.data@[i as int] == oldq.data@[i as int]);
            } else {
                assert(!rc_marked(oldq.data@[i as int].rc));
            }
        }
        assert(self.wf());
    }

    /// Dropping the last reader claim from the limbo slot and performing
    /// the deferred reclamation (clearing its mark and threading it onto
    /// the free list) leaves the state well formed.
    #[verifier::rlimit(50)]
    #[verifier::spinoff_prover]
    proof fn lemma_release_reclaim(self, oldq: Sorted, p: usize)
        requires
            oldq.wf(),
            oldq.reader@ == Some(p),
            oldq.limbo@ == Some(p),
            self.live@ == oldq.live@,
            self.frees@ == seq![p] + oldq.frees@,
            self.head == oldq.head,
            self.free == Some(p),
            self.limbo@ is None,
            self.reader@ is None,
            self.data@.len() == oldq.data@.len(),
            self.data@[p as int].next == oldq.free,
            rc_readers(self.data@[p as int].rc) == 0,
            !rc_marked(self.data@[p as int].rc),
            forall|x: int|
                0 <= x < self.data@.len() && x != p ==> self.data@[x] == oldq.data@[x],
        ensures
            self.wf(),
            self.vals() == oldq.vals(),
            self.free_idxs() == seq![p] + oldq.free_idxs(),
    {
        let l = oldq.live@;
        let f = oldq.frees@;
        let n = oldq.data@.len() as int;
        let f2 = self.frees@;
        assert(!l.contains(p) && !f.contains(p));
        assert(forall|i: int| 0 <= i < l.len() ==> (#[trigger] l[i]) != p);
        assert(forall|j: int| 0 <= j < f.len() ==> (#[trigger] f[j]) != p);
        assert(f2[0] == p);
        assert(forall|i: int| 1 <= i < f2.len() ==> #[trigger] f2[i] == f[i - 1]);
        // live slots are untouched
        assert forall|i: int| 0 <= i < l.len() implies self.data@[#[trigger] l[i] as int]
            == oldq.data@[l[i] as int] by {
            assert(l[i] != p);
        }
        assert forall|i: int| 0 <= i < l.len() implies self.vals()[i] == oldq.vals()[i] by {
            assert(self.data@[l[i] as int] == oldq.data@[l[i] as int]);
        }
        assert(self.vals() =~= oldq.vals());
        // the free list gained the reclaimed slot at its head
        assert forall|i: int, j: int| 0 <= i < j < f2.len() implies f2[i] != f2[j] by {
            if i == 0 {
                assert(f2[j] == f[j - 1]);
            } else {
                assert(f[i - 1] != f[j - 1]);
            }
        }
        assert(f2.no_duplicates());
        assert forall|i: int| 0 <= i < f2.len() implies self.data@[#[trigger] f2[i] as int].next
            == (if i + 1 < f2.len() {
            Some(f2[i + 1])
        } else {
            None::<usize>
        }) by {
            if i == 0 {
                assert(self.data@[p as int].next == oldq.free);
            } else {
                assert(f2[i] == f[i - 1] && f[i - 1] != p);
                assert(self.data@[f[i - 1] as int] == oldq.data@[f[i - 1] as int]);
            }
        }
        assert forall|i: int, j: int|
            #![trigger self.live@[i], f2[j]]
            0 <= i < l.len() && 0 <= j < f2.len() implies self.live@[i] != f2[j] by {
            if j == 0 {
                assert(l[i] != p);
            } else {
                assert(f2[j] == f[j - 1]);
                assert(l[i] != f[j - 1]);
            }
        }
        // reader counts and deletion marks
        assert forall|i: usize| i < n implies rc_readers((#[trigger] self.data@[i as int]).rc) == (
        if self.reader@ == Some(i) {
            1u16
        } else {
            0u16
        }) by {
            if i != p {
                assert(self.data@[i as int] == oldq.data@[i as int]);
            }
        }
        assert forall|i: usize| i < n implies (rc_marked((#[trigger] self.data@[i as int]).rc)
            <==> self.limbo@ == Some(i)) by {
            if i != p {
                assert(self.data@[i as int] == oldq.data@[i as int]);
            }
        }
        assert(self.wf());
    }

    /// The proof obligations of the deferred pop path: the head slot is
    /// unlinked and marked, its storage intact, and the state stays well
    /// formed with the slot in limbo.
    #[verifier::rlimit(100)]
    #[verifier::spinoff_prover]
    proof fn lemma_pop_deferred(self, oldq: Sorted)
        requires
            oldq.wf(),
            oldq.limbo@ is None,
            oldq.live@.len() > 0,
            self.data@.len() == oldq.data@.len(),
            self.live@ == oldq.live@.drop_first(),
            self.head == oldq.data@[oldq.live@[0] as int].next,
            self.reader@ == oldq.reader@,
            oldq.reader@ == Some(oldq.live@[0]),
            self.frees@ == oldq.frees@,
            self.free == oldq.free,
            self.limbo@ == Some(oldq.live@[0]),
            self.data@[oldq.live@[0] as int].value == oldq.data@[oldq.live@[0] as int].value,
            self.data@[oldq.live@[0] as int].next == oldq.data@[oldq.live@[0] as int].next,
            rc_marked(self.data@[oldq.live@[0] as int].rc),
            rc_readers(self.data@[oldq.live@[0] as int].rc) == rc_readers(
                oldq.data@[oldq.live@[0] as int].rc,
            ),
            forall|x: int|
                0 <= x < self.data@.len() && x != oldq.live@[0] ==> self.data@[x] == oldq.data@[x],
        ensures
            self.wf(),
            self.vals() == oldq.vals().drop_first(),
    {
        let l = oldq.live@;
        let f = oldq.frees@;
        let n = oldq.data@.len() as int;
        let h = l[0];
        let l2 = self.live@;
        self.lemma_pop_live_common(oldq);
        // the free list is untouched
        assert forall|i: int| 0 <= i < f.len() implies self.data@[#[trigger] f[i] as int].next == (
        if i + 1 < f.len() {
            Some(f[i + 1])
        } else {
            None::<usize>
        }) by {
            assert(f[i] != h);
            assert(self.data@[f[i] as int] == oldq.data@[f[i] as int]);
        }
        // reader-count and deletion-mark bookkeeping
        assert forall|i: usize| i < n implies rc_readers((#[trigger] self.data@[i as int]).rc) == (
        if self.reader@ == Some(i) {
            1u16
        } else {
            0u16
        }) by {
            if i != h {
                assert(self.data@[i as int] == oldq.data@[i as int]);
            } else {
                assert(rc_readers(oldq.data@[i as int].rc) == 1u16);
            }
        }
        assert forall|i: usize| i < n implies (rc_marked((#[trigger] self.data@[i as int]).rc)
            <==> self.limbo@ == Some(i)) by {
            if i != h {
                assert(self.data@[i as int] == oldq.data@[i as int]);
                assert(!rc_marked(oldq.data@[i as int].rc));
            }
        }
        // the limbo slot: outside both lists, storage intact, next leads
        // to the new head
        assert(l2.len() + f.len() + 1 == n);
        assert forall|j: int| 0 <= j < f.len() implies (#[trigger] f[j]) != h by {
            assert(l[0] != f[j]);
        }
        assert(!f.contains(h));
        assert(!l2.contains(h));
        assert(self.data@[h as int].value is Some);
        assert(self.data@[h as int].next == (if l2.len() > 0 {
            Some(l2[0])
        } else {
            None::<usize>
        }));
        assert(self.wf());
    }

    /// The proof obligations of the ordinary pop path: the head slot is
    /// unlinked and threaded back onto the free list.
    #[verifier::rlimit(100)]
    #[verifier::spinoff_prover]
    proof fn lemma_pop_immediate(self, oldq: Sorted)
        requires
            oldq.wf(),
            oldq.limbo@ is None,
            oldq.live@.len() > 0,
            self.data@.len() == oldq.data@.len(),
            self.live@ == oldq.live@.drop_first(),
            self.head == oldq.data@[oldq.live@[0] as int].next,
            self.reader@ == oldq.reader@,
            oldq.reader@ != Some(oldq.live@[0]),
            self.frees@ == seq![oldq.live@[0]] + oldq.frees@,
            self.free == Some(oldq.live@[0]),
            self.limbo@ is None,
            self.data@[oldq.live@[0] as int].value == oldq.data@[oldq.live@[0] as int].value,
            self.data@[oldq.live@[0] as int].next == oldq.free,
            self.data@[oldq.live@[0] as int].rc == oldq.data@[oldq.live@[0] as int].rc,
            forall|x: int|
                0 <= x < self.data@.len() && x != oldq.live@[0] ==> self.data@[x] == oldq.data@[x],
        ensures
            self.wf(),
            self.vals() == oldq.vals().drop_first(),
    {
        let l = oldq.live@;
        let f = oldq.frees@;
        let n = oldq.data@.len() as int;
        let h = l[0];
        let l2 = self.live@;
        self.lemma_pop_live_common(oldq);
        let f2 = self.frees@;
        assert(f2[0] == h);
        assert(forall|i: int| 1 <= i < f2.len() ==> #[trigger] f2[i] == f[i - 1]);
        assert forall|i: int, j: int| 0 <= i < j < f2.len() implies f2[i] != f2[j] by {
            if i == 0 {
                assert(f2[j] == f[j - 1]);
                assert(h != f[j - 1]);
            } else {
                assert(f[i - 1] != f[j - 1]);
            }
        }
        assert(f2.no_duplicates());
        assert forall|i: int| 0 <= i < f2.len() implies self.data@[#[trigger] f2[i] as int].next
            == (if i + 1 < f2.len() {
            Some(f2[i + 1])
        } else {
            None::<usize>
        }) by {
            if i >= 1 {
                assert(f2[i] == f[i - 1] && f[i - 1] != h);
                assert(self.data@[f[i - 1] as int] == oldq.data@[f[i - 1] as int]);
            }
        }
        assert forall|i: int, j: int|
            #![trigger l2[i], f2[j]]
            0 <= i < l2.len() && 0 <= j < f2.len() implies l2[i] != f2[j] by {
            assert(l2[i] == l[i + 1]);
            if j == 0 {
                assert(l[i + 1] != l[0]);
            } else {
                assert(l[i + 1] != f[j - 1]);
            }
        }
        // reader-count and deletion-mark bookkeeping
        assert forall|i: usize| i < n implies rc_readers((#[trigger] self.data@[i as int]).rc) == (
        if self.reader@ == Some(i) {
            1u16
        } else {
            0u16
        }) by {
            if i != h {
                assert(self.data@[i as int] == oldq.data@[i as int]);
            }
        }
        assert forall|i: usize| i < n implies (rc_marked((#[trigger] self.data@[i as int]).rc)
            <==> self.limbo@ == Some(i)) by {
            if i != h {
                assert(self.data@[i as int] == oldq.data@[i as int]);
            }
        }
        // a reader claim elsewhere stays on a live slot
        match self.reader@ {
            None => {},
            Some(p) => {
                assert(p != h);
                assert(l.contains(p));
                let q = choose|q: int| 0 <= q < l.len() && l[q] == p;
                assert(q >= 1);
                assert(l2[q - 1] == p);
                assert(l2.contains(p));
            },
        }
        assert(self.wf());
    }

    /// The live-list facts shared by both pop paths: dropping the head
    /// keeps the remaining chain, values, and sortedness.
    #[verifier::spinoff_prover]
    proof fn lemma_pop_live_common(self, oldq: Sorted)
        requires
            oldq.wf(),
            oldq.live@.len() > 0,
            self.data@.len() == oldq.data@.len(),
            self.live@ == oldq.live@.drop_first(),
            self.head == oldq.data@[oldq.live@[0] as int].next,
            forall|x: int|
                0 <= x < self.data@.len() && x != oldq.live@[0] ==> self.data@[x] == oldq.data@[x],
        ensures
            self.vals() == oldq.vals().drop_first(),
            is_sorted(self.vals()),
            self.live@.no_duplicates(),
            forall|i: int| 0 <= i < self.live@.len() ==> (#[trigger] self.live@[i]) < self.data@.len(),
            forall|i: int|
                0 <= i < self.live@.len() ==> self.data@[#[trigger] self.live@[i] as int].next == (
                if i + 1 < self.live@.len() {
                    Some(self.live@[i + 1])
                } else {
                    None::<usize>
                }),
            forall|i: int|
                0 <= i < self.live@.len() ==> self.data@[#[trigger] self.live@[i] as int].value
                    is Some,
            self.head == (if self.live@.len() > 0 {
                Some(self.live@[0])
            } else {
                None::<usize>
            }),
            forall|i: int, j: int|
                #![trigger self.live@[i], oldq.frees@[j]]
                0 <= i < self.live@.len() && 0 <= j < oldq.frees@.len() ==> self.live@[i]
                    != oldq.frees@[j],
            forall|i: int| 0 <= i < self.live@.len() ==> (#[trigger] self.live@[i]) != oldq.live@[0],
        decreases 0int,
    {
        let l = oldq.live@;
        let f = oldq.frees@;
        let h = l[0];
        let l2 = self.live@;
        assert(forall|i: int| 0 <= i < l2.len() ==> #[trigger] l2[i] == l[i + 1]);
        assert forall|i: int| 0 <= i < l2.len() implies (#[trigger] l2[i]) != h by {
            assert(l2[i] == l[i + 1]);
            assert(l[i + 1] != l[0]);
        }
        assert forall|i: int, j: int| 0 <= i < j < l2.len() implies l2[i] != l2[j] by {
            assert(l[i + 1] != l[j + 1]);
        }
        assert(l2.no_duplicates());
        assert forall|i: int| 0 <= i < l2.len() implies (#[trigger] l2[i]) < self.data@.len() by {
            assert(l2[i] == l[i + 1]);
        }
        assert forall|i: int, j: int|
            #![trigger l2[i], f[j]]
            0 <= i < l2.len() && 0 <= j < f.len() implies l2[i] != f[j] by {
            assert(l2[i] == l[i + 1]);
            assert(l[i + 1] != f[j]);
        }
        assert forall|i: int| 0 <= i < l2.len() implies self.data@[#[trigger] l2[i] as int].next
            == (if i + 1 < l2.len() {
            Some(l2[i + 1])
        } else {
            None::<usize>
        }) by {
            assert(l2[i] == l[i + 1] && l[i + 1] != h);
            assert(self.data@[l[i + 1] as int] == oldq.data@[l[i + 1] as int]);
        }
        assert forall|i: int| 0 <= i < l2.len() implies self.data@[#[trigger] l2[i] as int].value
            is Some by {
            assert(l2[i] == l[i + 1] && l[i + 1] != h);
            assert(self.data@[l[i + 1] as int] == oldq.data@[l[i + 1] as int]);
        }
        assert forall|i: int| 0 <= i < l2.len() implies self.vals()[i] == oldq.vals().drop_first()[i]
        by {
            assert(l2[i] == l[i + 1] && l[i + 1] != h);
            assert(self.data@[l[i + 1] as int] == oldq.data@[l[i + 1] as int]);
            assert(oldq.vals()[i + 1] == oldq.val_at(l[i + 1]));
        }
        assert(self.vals() =~= oldq.vals().drop_first());
        assert forall|i: int, j: int| 0 <= i <= j < self.vals().len() implies self.vals()[i]
            <= self.vals()[j] by {
            assert(self.vals()[i] == oldq.vals()[i + 1]);
            assert(self.vals()[j] == oldq.vals()[j + 1]);
            assert(oldq.vals()[i + 1] <= oldq.vals()[j + 1]);
        }
    }
}

} // verus!
