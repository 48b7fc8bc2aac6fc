//! Adaptive radix tree maps.
//!
//! [`SequentialMap`] is an ordered map whose keys are walked byte by byte.
//! [`ConcurrentMap`] keeps the same contents and hands removed values to a
//! backend for safe memory reclamation; [`concurrent::operation`] holds its
//! operations on shared memory, one atomic access at a time.
pub mod bytes;
pub mod concurrent;
pub mod raw;
pub mod sequential;
pub mod stat;
pub mod topology;

pub use crate::concurrent::map::ConcurrentMap;
pub use crate::raw::iter::Order;
pub use crate::raw::key::Key;
pub use crate::sequential::map::SequentialMap;
