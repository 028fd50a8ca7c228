//! Frequent itemset mining.

pub mod itemset;
pub mod laws;
pub mod level;
pub mod listing;
pub mod names;
pub mod repeat;
