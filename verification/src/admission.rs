//! Global admission control for upstream tracker connections.
//!
//! A process-wide counting semaphore with a fixed permit capacity bounds how
//! many upstream announces are in flight at once.

use vstd::prelude::*;

verus! {

/// Default number of simultaneous upstream connections.
pub const DEFAULT_PERMIT_COUNT: u64 = 10;

/// Counting semaphore state: permits in use never exceed the capacity.
pub struct Admission {
    pub capacity: u64,
    pub in_flight: u64,
}

impl Admission {
    /// At most `capacity` upstream announces are in flight at any instant.
    pub open spec fn wf(&self) -> bool {
        self.in_flight <= self.capacity
    }

    /// A fresh semaphore with the given capacity and no permits handed out.
    pub fn new(capacity: u64) -> (r: Admission)
        ensures
            r.wf(),
            r.capacity == capacity,
            r.in_flight == 0,
    {
        Admission { capacity, in_flight: 0 }
    }

    /// Takes one permit if any is free; says whether it did.
    pub fn try_acquire(&mut self) -> (r: bool)
        requires
            old(self).wf(),
        ensures
            final(self).wf(),
            r == (old(self).in_flight < old(self).capacity),
            final(self).capacity == old(self).capacity,
            r ==> final(self).in_flight == old(self).in_flight + 1,
            !r ==> final(self).in_flight == old(self).in_flight,
    {
        if self.in_flight < self.capacity {
            self.in_flight = self.in_flight + 1;
            true
        } else {
            false
        }
    }

    /// Returns one held permit, unconditionally.
    pub fn release(&mut self)
        requires
            old(self).wf(),
            old(self).in_flight >= 1,
        ensures
            final(self).wf(),
            final(self).capacity == old(self).capacity,
            final(self).in_flight == old(self).in_flight - 1,
    {
        self.in_flight = self.in_flight - 1;
    }
}

/// However the semaphore is driven, no state reachable through its
/// operations has more than `capacity` permits out.
pub proof fn lemma_admission_bounded(a: Admission)
    requires
        a.wf(),
    ensures
        a.in_flight <= a.capacity,
{
}

} // verus!
