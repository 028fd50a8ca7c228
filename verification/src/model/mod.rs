//! Models: what is known of them, the registry, and the formats in which they
//! are kept.

pub mod checked;
pub mod choice;
pub mod classes;
pub mod clusters;
pub mod km;
pub mod knn;
pub mod lda;
pub mod linear;
pub mod mlp;
pub mod naive_bayes;
pub mod onnx;
pub mod pca;
pub mod projection;
pub mod registry;
pub mod trained;
pub mod tree;
pub mod tsne;
pub mod types;
pub mod xgboost;
