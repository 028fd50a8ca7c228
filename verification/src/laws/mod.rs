//! What holds of the operations as a whole, stated of their arguments and results.

pub mod blobs;
pub mod boosted;
pub mod comparison;
pub mod counting;
pub mod descriptions;
pub mod documents;
pub mod encodings;
pub mod functions;
pub mod keeping;
pub mod linear;
pub mod metrics;
pub mod models;
pub mod neighbours;
pub mod prediction;
pub mod reals;
pub mod registry;
pub mod restoring;
pub mod rules;
pub mod settings;
pub mod similarity;
pub mod statements;
pub mod texts;
pub mod training;
pub mod transactions;
pub mod validation;
pub mod writing;
