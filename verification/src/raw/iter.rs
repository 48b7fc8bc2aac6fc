//! Iteration over many entries for scan operations.
use vstd::prelude::*;

pub mod range;

verus! {

/// Direction of a scan.
#[derive(Copy, Clone, Debug, PartialEq, Eq, Structural)]
pub enum Order {
    /// From the smallest key to the largest.
    Ascend,
    /// From the largest key to the smallest.
    Descend,
}

} // verus!
