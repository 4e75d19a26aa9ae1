//! Graph storage and the capability traits that algorithms are written against.
pub mod graph_type;
pub mod matrix;
pub mod paths;
pub mod traits;
pub mod util;
pub mod visit_map;
