//! Session-context accounting for the engine's process-wide working
//! memory (its allocation "tower").
//!
//! The paired native initialization and teardown calls operate on implicit
//! process state and are made by the surrounding application exactly once
//! around each context's lifetime; what this crate owns and proves is the
//! debug-instrumentation side of the contract: a signed allocation counter
//! that starts at zero, moves by one for each tracked native allocation or
//! deallocation, and is read back at release time, where a non-zero value
//! signals a native-side leak (a diagnostic, not a hard failure).

use vstd::prelude::*;

verus! {

/// A handle for one active session of the native engine's working memory.
///
/// At most one context may drive native invocations at a time; that
/// mutual exclusion is a caller obligation, since the native state is
/// process-wide and not safe for concurrent use.
pub struct StarcodeContext {
    allocation_count: i64,
}

impl StarcodeContext {
    /// The tracked allocation balance: tracked allocations minus tracked
    /// deallocations since the context was created.
    pub closed spec fn allocation_balance(self) -> int {
        self.allocation_count as int
    }

    /// Creates the context for one engine session; the counter starts
    /// balanced.
    pub fn new() -> (r: Self)
        ensures
            r.allocation_balance() == 0,
    {
        StarcodeContext { allocation_count: 0 }
    }

    /// Records one native-side allocation.
    pub fn track_allocation(&mut self)
        requires
            old(self).allocation_balance() < i64::MAX,
        ensures
            final(self).allocation_balance() == old(self).allocation_balance() + 1,
    {
        self.allocation_count = self.allocation_count + 1;
    }

    /// Records one native-side deallocation.
    pub fn track_deallocation(&mut self)
        requires
            old(self).allocation_balance() > i64::MIN,
        ensures
            final(self).allocation_balance() == old(self).allocation_balance() - 1,
    {
        self.allocation_count = self.allocation_count - 1;
    }

    /// Reads the balance without ending the session, for diagnostics.
    pub fn residual_allocations(&self) -> (r: i64)
        ensures
            r as int == self.allocation_balance(),
    {
        self.allocation_count
    }

    /// Ends the session, handing back the final balance so the caller can
    /// emit a leak warning when it is not zero. The caller pairs this with
    /// the native teardown call.
    pub fn release(self) -> (r: i64)
        ensures
            r as int == self.allocation_balance(),
    {
        self.allocation_count
    }
}

/// A context that records as many deallocations as allocations, in any
/// order, releases with a balanced counter: acquiring and immediately
/// releasing, or wrapping any number of balanced engine invocations,
/// leaves the debug counter at zero.
pub proof fn lemma_balanced_tracking_releases_clean(
    fresh: StarcodeContext,
    released: StarcodeContext,
    allocations: int,
    deallocations: int,
)
    requires
        fresh.allocation_balance() == 0,
        released.allocation_balance() == fresh.allocation_balance() + allocations - deallocations,
        allocations == deallocations,
    ensures
        released.allocation_balance() == 0,
{
}

} // verus!
