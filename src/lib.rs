//! Line-oriented set operations over the lines of several inputs.
pub mod lines;
pub mod bookkeeping;
pub mod model;
pub mod set;
pub mod operations;
pub mod laws;
