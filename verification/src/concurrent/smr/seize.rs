//! Batched reclamation with a collector per map.
use vstd::prelude::*;

verus! {

/// A collector.
#[verifier::external_type_specification]
#[verifier::external_body]
pub struct ExCollector(::seize::Collector);

/// Guard of a collector.
#[verifier::external_type_specification]
#[verifier::external_body]
pub struct ExLocalGuard<'a>(::seize::LocalGuard<'a>);

/// Number of retired allocations in a batch.
pub const BATCH: usize = 256;

/// [`::seize::Collector`] backend for safe memory reclamation.
///
/// Defaults to a batch size of 256.
pub struct Seize {
    pub collector: ::seize::Collector,
}

/// Number of retired allocations that a collector gathers in a batch.
pub uninterp spec fn batch_of(collector: ::seize::Collector) -> nat;

/// The collector that a guard belongs to.
pub uninterp spec fn entered(guard: ::seize::LocalGuard<'_>) -> ::seize::Collector;

/// Calls [`::seize::Collector::new`] and [`::seize::Collector::batch_size`].
/// Claims that the collector gathers `size` allocations in a batch.
#[verifier::external_body]
fn new_collector(size: usize) -> (collector: ::seize::Collector)
    ensures
        batch_of(collector) == size,
{
    ::seize::Collector::new().batch_size(size)
}

/// Calls [`::seize::Collector::enter`], which marks the current thread as
/// active. Claims that the guard belongs to the collector.
#[verifier::external_body]
fn enter<'a>(collector: &'a ::seize::Collector) -> (guard: ::seize::LocalGuard<'a>)
    ensures
        entered(guard) == *collector,
{
    collector.enter()
}

impl Default for Seize {
    fn default() -> (seize: Self)
        ensures
            batch_of(seize.collector) == BATCH,
    {
        Seize { collector: new_collector(BATCH) }
    }
}

impl Seize {
    /// Use a collector.
    pub fn from_collector(collector: ::seize::Collector) -> (seize: Self)
        ensures
            seize.collector == collector,
    {
        Seize { collector }
    }

    /// Give the collector back.
    pub fn into_collector(self) -> (collector: ::seize::Collector)
        ensures
            collector == self.collector,
    {
        self.collector
    }

    /// Protect everything that is read while the guard lives.
    pub fn guard<'a>(&'a self) -> (guard: ::seize::LocalGuard<'a>)
        ensures
            entered(guard) == self.collector,
    {
        enter(&self.collector)
    }
}

} // verus!
