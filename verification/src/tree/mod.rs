pub mod text;
pub mod node;
pub mod tree_slice;
pub mod boundary;
pub mod units;
pub mod holding;
pub mod laws;
