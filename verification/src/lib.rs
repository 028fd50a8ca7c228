//! Machine learning for DuckDB: models and their registry, predictions, the mining
//! of association rules, similarity search over embeddings, metrics and cross
//! validation.
//!
//! Doubles stand in the library as their bit patterns (`u64`), single precision
//! numbers as theirs (`u32`). The library compares, stores and writes them; the
//! arithmetic on them is the caller's, handed in as functions, and contracts speak
//! of what those functions answer.

pub mod api;
pub mod assoc_rules;
pub mod automl;
pub mod bits;
pub mod blob;
pub mod bytes;
pub mod cosine;
pub mod cross_validate;
pub mod deploy;
pub mod embed;
pub mod footer;
pub mod json;
pub mod laws;
pub mod load;
pub mod metrics;
pub mod mining;
pub mod model;
pub mod name_map;
pub mod numbers;
pub mod predict;
pub mod report;
pub mod scalar;
pub mod snapshot;
pub mod sorting;
pub mod storage;
pub mod table;
pub mod text;
