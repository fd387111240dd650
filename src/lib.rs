//! An open-addressing hash map from `i32` keys to values, with linear
//! probing, tombstone deletion and growth by doubling.

pub mod hash_map;
pub mod laws;

pub use hash_map::{DupErr, HashMap};
