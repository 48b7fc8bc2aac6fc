//! Maps that are shared between threads.
pub mod cursor;
pub mod effect;
pub mod events;
pub mod map;
pub mod memory;
pub mod operation;
pub mod progress;
pub mod protect;
pub mod race;
pub mod retire;
pub mod run;
pub mod scan;
pub mod smr;
pub mod tidy;
pub mod tree;
pub mod value;
pub mod walk;
