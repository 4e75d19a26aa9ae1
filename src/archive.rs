//! Graph representations kept alongside the capability-trait ones.
pub mod adjlist;
