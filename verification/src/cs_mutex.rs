//! A minimal mutual-exclusion cell for data that is only ever touched
//! inside a critical section. The callers' discipline (the Guard) is what
//! provides exclusion; this type only carries the value.

use vstd::prelude::*;

verus! {

/// A cell holding a value that must only be accessed with preemption
/// disabled. Exclusive access is re-established either by holding the
/// mutex uniquely (`into_inner`) or by the surrounding critical section.
pub struct Mutex<T> {
    inner: T,
}

impl<T> Mutex<T> {
    /// The value the mutex protects.
    pub closed spec fn contents(self) -> T {
        self.inner
    }

    /// Creates a new mutex around `value`.
    pub fn new(value: T) -> (r: Self)
        ensures
            r.contents() == value,
    {
        Mutex { inner: value }
    }

    /// Unwraps the contained value, consuming the mutex.
    pub fn into_inner(self) -> (r: T)
        ensures
            r == self.contents(),
    {
        self.inner
    }
}

} // verus!
