pub mod rope_slice;
pub mod laws;
pub mod graphemes;
pub mod range;
pub mod equality;
