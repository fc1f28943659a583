pub mod tree;
pub mod rope;
