//! Safe memory reclamation.
//!
//! A removed value may still be read by other threads. It is handed to a
//! backend, which drops it at some time after they are done.
use vstd::prelude::*;

pub mod epoch;
pub mod hazard;
pub mod no_op;
pub mod ps_reclaim;
pub mod seize;

verus! {

/// Backend for safe memory reclamation of values of type `V`.
pub trait Smr<V>: Sized {
    /// What handing over one value does to the backend.
    spec fn retires(before: Self, after: Self) -> bool;

    /// The value itself was handed to what defers its drop.
    spec fn handed(before: Self, value: V) -> bool;

    /// Drop the value at some time after every thread that may still read it.
    fn retire(&mut self, value: V)
        ensures
            Self::retires(*old(self), *final(self)),
            Self::handed(*old(self), value),
    ;

    /// Number of retired allocations that are not known to be dropped.
    fn garbage(&self) -> (garbage: u32);
}

} // verus!
