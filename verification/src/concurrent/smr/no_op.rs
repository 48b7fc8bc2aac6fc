//! Backend that does not reclaim anything.
use vstd::prelude::*;
use crate::concurrent::smr::Smr;

verus! {

/// Number of allocations that a thread counts before it reports them.
pub const GARBAGE_THRESHOLD: u32 = 256;

/// Dummy backend for safe memory reclamation that leaks all retired
/// allocations.
///
/// Should only be used for benchmarking purposes.
#[derive(Copy, Clone, Debug)]
pub struct NoOp {
    /// Number of leaked allocations that threads have reported.
    pub garbage: u32,
    /// Number of leaked allocations that are not reported yet.
    pub local: NoOpGuard,
}

/// Leaked allocations of one thread.
#[derive(Copy, Clone, Debug)]
pub struct NoOpGuard {
    pub garbage: u32,
}

impl NoOpGuard {
    /// Count one allocation.
    ///
    /// Returns the number of allocations to report, once there are more than
    /// the threshold.
    pub fn retire(&mut self) -> (report: Option<u32>)
        ensures
            if old(self).garbage >= GARBAGE_THRESHOLD {
                report == Some(GARBAGE_THRESHOLD) && final(self).garbage == 0
            } else {
                report is None && final(self).garbage == old(self).garbage + 1
            },
    {
        if self.garbage >= GARBAGE_THRESHOLD {
            self.garbage = 0;
            Some(GARBAGE_THRESHOLD)
        } else {
            self.garbage = self.garbage + 1;
            None
        }
    }
}

impl Default for NoOp {
    fn default() -> (smr: Self)
        ensures
            smr.garbage == 0,
            smr.local.garbage == 0,
    {
        NoOp { garbage: 0, local: NoOpGuard { garbage: 0 } }
    }
}

impl NoOp {
    /// Number of leaked allocations that threads have reported.
    pub fn garbage(&self) -> (garbage: u32)
        ensures
            garbage == self.garbage,
    {
        self.garbage
    }

    /// Add what a thread has reported.
    pub fn report(&mut self, count: u32)
        ensures
            final(self).garbage == old(self).garbage.wrapping_add(count),
            final(self).local == old(self).local,
    {
        self.garbage = self.garbage.wrapping_add(count);
    }

    /// Count one allocation that is leaked by this thread.
    pub fn leak(&mut self)
        ensures
            if old(self).local.garbage >= GARBAGE_THRESHOLD {
                &&& final(self).local.garbage == 0
                &&& final(self).garbage == old(self).garbage.wrapping_add(GARBAGE_THRESHOLD)
            } else {
                &&& final(self).local.garbage == old(self).local.garbage + 1
                &&& final(self).garbage == old(self).garbage
            },
    {
        if let Some(count) = self.local.retire() {
            self.report(count);
        }
    }
}

/// Calls [`core::mem::forget`], which takes a value without running its
/// destructor. Nothing is claimed of it.
#[verifier::external_body]
pub(crate) fn forget<V>(value: V) {
    core::mem::forget(value)
}

/// The value was taken without running its destructor.
pub closed spec fn forgotten<V>(value: V) -> bool {
    call_ensures(forget::<V>, (value,), ())
}

impl<V: Send + 'static> Smr<V> for NoOp {
    /// The allocation is counted, and a full batch is reported.
    open spec fn retires(before: Self, after: Self) -> bool {
        if before.local.garbage >= GARBAGE_THRESHOLD {
            &&& after.local.garbage == 0
            &&& after.garbage == before.garbage.wrapping_add(GARBAGE_THRESHOLD)
        } else {
            &&& after.local.garbage == before.local.garbage + 1
            &&& after.garbage == before.garbage
        }
    }

    /// The value is forgotten.
    open spec fn handed(before: Self, value: V) -> bool {
        forgotten(value)
    }

    /// Leak the value.
    fn retire(&mut self, value: V) {
        self.leak();
        forget(value);
    }

    fn garbage(&self) -> (garbage: u32)
        ensures
            garbage == self.garbage,
    {
        NoOp::garbage(self)
    }
}

/// A value that is retired is forgotten, so that its destructor does not run,
/// and is counted.
///
/// The retirement that finds a full batch reports the batch in its place.
pub(crate) proof fn law_forgotten<V: Send + 'static>(before: NoOp, after: NoOp, value: V)
    requires
        <NoOp as Smr<V>>::handed(before, value),
        <NoOp as Smr<V>>::retires(before, after),
    ensures
        call_ensures(forget::<V>, (value,), ()),
        before.local.garbage < GARBAGE_THRESHOLD ==> after.garbage == before.garbage
            && after.local.garbage - before.local.garbage == 1,
        before.local.garbage == GARBAGE_THRESHOLD ==> after.garbage
            == before.garbage.wrapping_add(before.local.garbage) && after.local.garbage == 0,
        before.local.garbage <= GARBAGE_THRESHOLD ==> after.local.garbage <= GARBAGE_THRESHOLD,
{
}

} // verus!
