//! Wave-function-collapse graph coloring: a constraint-propagation engine
//! that properly colors an undirected graph with (max degree + 1) colors.

pub mod bits;
pub mod coloring;
pub mod engine;
pub mod laws;

pub use coloring::{wfc_color, validate_coloring};
pub use engine::{WfcState, WfcError};
