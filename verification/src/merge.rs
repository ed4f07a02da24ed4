//! Merging streams of key-value pairs that arrive sorted by key.

pub mod flatten_sorted;
pub mod key;
pub mod product_sorted;
pub mod zip_group_sorted;
pub mod zip_sorted;
