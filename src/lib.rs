//! Graph storage, traversal orders and dominance analysis over dense integer vertices.
pub mod archive;
pub mod compact;
pub mod dominance;
pub mod graph;
pub mod traversal;
pub mod util;
