//! The unit of arena storage: a fixed-size cell holding an optional value,
//! a nullable `next` index, and reader-count/deletion-flag bookkeeping.

use vstd::prelude::*;

verus! {

/// The deletion flag is the top bit of the packed `rc` word.
pub open spec fn rc_marked(rc: u16) -> bool {
    rc & 0x8000 != 0
}

/// The reader count occupies the low fifteen bits of the packed `rc` word.
pub open spec fn rc_readers(rc: u16) -> u16 {
    rc & 0x7fff
}

/// A fresh `rc` word carries no readers and no deletion mark.
pub proof fn lemma_rc_zero()
    ensures
        !rc_marked(0u16),
        rc_readers(0u16) == 0u16,
{
    assert(0u16 & 0x8000 == 0 && 0u16 & 0x7fff == 0) by (bit_vector);
}

/// One slot of the arena. While a slot is on the free list its `value` is
/// empty and must not be read; the `next` field threads the slot into
/// whichever list (free or live) currently owns it. `rc` packs a count of
/// in-progress readers with a single marked-for-deletion bit, used to
/// defer reclamation of a slot that a paused traversal still references.
#[derive(Clone, Copy, Debug)]
pub struct Node<T> {
    pub value: Option<T>,
    pub next: Option<usize>,
    pub rc: u16,
}

impl<T> Node<T> {
    /// A live slot: holds `value`, linked to `next`, no readers, unmarked.
    pub fn new(value: T, next: Option<usize>) -> (r: Self)
        ensures
            r.value == Some(value),
            r.next == next,
            r.rc == 0,
    {
        Node { value: Some(value), next, rc: 0 }
    }

    /// A slot without a value, linked to `next`: the shape of a free-list
    /// entry.
    pub fn new_uninit(next: Option<usize>) -> (r: Self)
        ensures
            r.value is None,
            r.next == next,
            r.rc == 0,
    {
        Node { value: None, next, rc: 0 }
    }

    /// A slot without a value and without a successor.
    pub fn new_empty() -> (r: Self)
        ensures
            r.value is None,
            r.next is None,
            r.rc == 0,
    {
        Node { value: None, next: None, rc: 0 }
    }

    /// Sets the deletion flag; the reader count is untouched.
    pub fn mark_for_deletion(&mut self)
        ensures
            final(self).value == old(self).value,
            final(self).next == old(self).next,
            rc_marked(final(self).rc),
            rc_readers(final(self).rc) == rc_readers(old(self).rc),
    {
        proof {
            let rc = self.rc;
            assert((rc | 0x8000) & 0x8000 != 0 && (rc | 0x8000) & 0x7fff == rc & 0x7fff)
                by (bit_vector);
        }
        self.rc = self.rc | 0x8000;
    }

    /// Clears the deletion flag; the reader count is untouched.
    pub fn mark_ready(&mut self)
        ensures
            final(self).value == old(self).value,
            final(self).next == old(self).next,
            !rc_marked(final(self).rc),
            rc_readers(final(self).rc) == rc_readers(old(self).rc),
    {
        proof {
            let rc = self.rc;
            assert((rc & 0x7fff) & 0x8000 == 0 && (rc & 0x7fff) & 0x7fff == rc & 0x7fff)
                by (bit_vector);
        }
        self.rc = self.rc & 0x7fff;
    }

    /// Whether the slot has been marked for deferred deletion.
    pub fn is_marked_for_deletion(&self) -> (r: bool)
        ensures
            r == rc_marked(self.rc),
    {
        self.rc & 0x8000 != 0
    }

    /// Registers one more in-progress reader of this slot.
    pub fn inc_readers(&mut self)
        requires
            rc_readers(old(self).rc) < 0x7fff,
        ensures
            final(self).value == old(self).value,
            final(self).next == old(self).next,
            rc_marked(final(self).rc) == rc_marked(old(self).rc),
            rc_readers(final(self).rc) == rc_readers(old(self).rc) + 1,
    {
        proof {
            let rc = self.rc;
            assert(rc & 0x7fff < 0x7fff ==> rc < 0xffff && ((rc + 1) as u16) & 0x8000 == rc
                & 0x8000 && ((rc + 1) as u16) & 0x7fff == (rc & 0x7fff) + 1) by (bit_vector);
        }
        self.rc = self.rc + 1;
    }

    /// Drops one reader claim. Decrementing a zero reader count is a
    /// programmer error and is ruled out by the precondition.
    pub fn dec_readers(&mut self)
        requires
            rc_readers(old(self).rc) > 0,
        ensures
            final(self).value == old(self).value,
            final(self).next == old(self).next,
            rc_marked(final(self).rc) == rc_marked(old(self).rc),
            rc_readers(final(self).rc) == rc_readers(old(self).rc) - 1,
    {
        let ghost orc = self.rc;
        self.rc = (self.rc & 0x8000) | ((self.rc & 0x7fff) - 1);
        proof {
            let nrc = self.rc;
            assert(nrc & 0x8000 == orc & 0x8000 && nrc & 0x7fff == (orc & 0x7fff) - 1)
                by (bit_vector)
                requires
                    orc & 0x7fff >= 1,
                    nrc == (orc & 0x8000) | (((orc & 0x7fff) - 1) as u16),
            ;
        }
    }

    /// Whether some traversal currently holds a reader claim on the slot.
    pub fn is_being_read(&self) -> (r: bool)
        ensures
            r == (rc_readers(self.rc) > 0),
    {
        self.rc & 0x7fff != 0
    }
}

impl<T> Default for Node<T> {
    /// The default slot is empty and unlinked.
    fn default() -> (r: Self)
        ensures
            r.value is None,
            r.next is None,
            r.rc == 0,
    {
        Node::new_empty()
    }
}

} // verus!
