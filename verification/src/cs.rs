//! The critical-section collaborators: a capability token proving that
//! preemption is disabled, the trait that grants it, and the trait that
//! lets a long traversal yield and reacquire it at a preemption point.

use vstd::prelude::*;

verus! {

/// A capability proving exclusive access for the duration of a critical
/// section. Holding one is the permission to read and mutate the shared
/// queue structure.
pub struct CsToken<T> {
    inner: T,
}

impl<T> CsToken<T> {
    /// The implementation-specific witness carried by the token.
    pub closed spec fn witness(self) -> T {
        self.inner
    }

    /// Wraps an implementation-specific witness into a token. The caller
    /// vouches that preemption really is disabled while the token lives.
    pub fn new(inner: T) -> (r: Self)
        ensures
            r.witness() == inner,
    {
        CsToken { inner }
    }
}

/// The mutual-exclusion envelope: `enter` runs with preemption disabled
/// and yields the capability token proving it.
pub trait CriticalSection {
    type Inner;

    fn enter(&self) -> CsToken<Self::Inner>;
}

/// A critical section that can additionally be released and reacquired
/// from inside an active section, at an explicit preemption point.
pub trait PreemptionPoint: CriticalSection {
    fn preemption_point(cs: &mut CsToken<Self::Inner>);
}

/// A no-op critical section for single-threaded contexts where nothing
/// ever preempts.
#[derive(Debug)]
pub struct NoopCs;

impl CriticalSection for NoopCs {
    type Inner = ();

    fn enter(&self) -> CsToken<()> {
        CsToken::new(())
    }
}

impl PreemptionPoint for NoopCs {
    fn preemption_point(_cs: &mut CsToken<()>) {
    }
}

} // verus!
