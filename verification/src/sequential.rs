//! Non-concurrent maps and sets.
use vstd::prelude::*;

pub mod iter;
pub mod laws;
pub mod map;

verus! {

} // verus!
