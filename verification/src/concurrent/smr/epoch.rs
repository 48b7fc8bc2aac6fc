//! Epoch-based reclamation.
use vstd::prelude::*;
use crate::concurrent::smr::Smr;

verus! {

/// Guard of the default global collector.
#[verifier::external_type_specification]
#[verifier::external_body]
pub struct ExEpochGuard(crossbeam_epoch::Guard);

/// [`crossbeam_epoch::Collector`] backend for safe memory reclamation.
///
/// Uses the default global collector.
#[derive(Copy, Clone, Debug)]
pub struct Epoch;

impl Default for Epoch {
    fn default() -> (smr: Self)
        ensures
            smr == Epoch,
    {
        Epoch
    }
}

/// Whether a guard belongs to a collector, and so keeps a thread pinned.
pub uninterp spec fn pins(guard: crossbeam_epoch::Guard) -> bool;

/// Calls [`crossbeam_epoch::pin`], which pins the current thread. Claims that
/// the guard belongs to a collector, which is the default one.
#[verifier::external_body]
fn pin() -> (guard: crossbeam_epoch::Guard)
    ensures
        pins(guard),
{
    crossbeam_epoch::pin()
}

/// Calls [`crossbeam_epoch::Guard::defer`], which drops the value at some time
/// after all threads that are pinned now were unpinned. With a guard that
/// belongs to no collector it would drop the value at once. When the drop takes
/// place rests on other threads, and nothing is claimed of it.
#[verifier::external_body]
pub(crate) fn defer_drop<V: Send + 'static>(guard: &crossbeam_epoch::Guard, value: V)
    requires
        pins(*guard),
{
    guard.defer(move || value)
}

/// The value was handed to the collector, which drops it at some time after
/// every thread that was pinned then is unpinned.
pub closed spec fn deferred<V: Send + 'static>(value: V) -> bool {
    exists|guard: crossbeam_epoch::Guard|
        pins(guard) && #[trigger] call_ensures(defer_drop::<V>, (&guard, value), ())
}

impl Epoch {
    /// Protect everything that is read while the guard lives.
    pub fn guard(&self) -> (guard: crossbeam_epoch::Guard)
        ensures
            pins(guard),
    {
        pin()
    }

    /// The collector does not count.
    pub fn garbage(&self) -> (garbage: u32)
        ensures
            garbage == 0,
    {
        0
    }
}

impl<V: Send + 'static> Smr<V> for Epoch {
    /// The backend is the global collector, and holds nothing itself.
    open spec fn retires(before: Self, after: Self) -> bool {
        after == before
    }

    /// The collector drops the value at some time after every thread that was
    /// pinned then is unpinned.
    open spec fn handed(before: Self, value: V) -> bool {
        deferred(value)
    }

    fn retire(&mut self, value: V) {
        let guard = pin();
        defer_drop(&guard, value);
    }

    fn garbage(&self) -> (garbage: u32)
        ensures
            garbage == 0,
    {
        Epoch::garbage(self)
    }
}

/// A value that is retired is deferred through a guard of the collector, and is
/// not dropped by the operation that retires it.
pub(crate) proof fn law_deferred<V: Send + 'static>(before: Epoch, value: V)
    requires
        <Epoch as Smr<V>>::handed(before, value),
    ensures
        exists|guard: crossbeam_epoch::Guard|
            pins(guard) && #[trigger] call_ensures(defer_drop::<V>, (&guard, value), ()),
{
}

} // verus!
