//! Embeddings in the plane. New features are placed where the nearest training row
//! is.
//!
//! The numbers are the bits of doubles; computing with them is the caller's.

use vstd::prelude::*;
use crate::json;
use crate::model::checked;
use crate::model::checked::find_nearest;
use crate::model::types::{Algorithm, ModelError, ModelMetadata};
use crate::scalar;

verus! {

/// An embedding with the rows that it was made of.
#[derive(Debug, PartialEq, Eq)]
pub struct TsneModel {
    pub metadata: ModelMetadata,
    /// The two coordinates of each row.
    pub embedding: Vec<(u64, u64)>,
    pub x: Vec<Vec<u64>>,
}

/// The JSON of the hyperparameters.
pub open spec fn tsne_hyperparameters<W: Fn(u64) -> String>(write: W, kl: u64, out: Seq<char>) -> bool {
    exists|shown: Seq<char>| #[trigger]
        scalar::writes(write, kl, shown) && out == "{\"components\":2,\"kl_divergence\":"@ + shown + "}"@
}

/// The first coordinate of the nearest row.
pub open spec fn places<D: Fn(&Vec<u64>, &Vec<u64>) -> u64>(
    distance: D,
    rows: Seq<Seq<u64>>,
    embedding: Seq<(u64, u64)>,
    features: Seq<u64>,
    p: u64,
) -> bool {
    exists|i: usize| #[trigger] checked::is_nearest(distance, rows, features, i) && p == embedding[i as int].0
}

impl TsneModel {
    /// Each row has its coordinates, and there is one at least.
    pub open spec fn complete(self) -> bool {
        self.embedding@.len() > 0 && self.x@.len() <= self.embedding@.len()
    }

    /// A model of an embedding with the given divergence. `write` writes a number
    /// as JSON.
    pub fn new<W: Fn(u64) -> String>(
        embedding: Vec<(u64, u64)>,
        x: Vec<Vec<u64>>,
        kl: u64,
        n_features: usize,
        n_samples: usize,
        write: &W,
    ) -> (r: Self)
        requires
            forall|v: u64| call_requires(*write, (v,)),
        ensures
            r.embedding == embedding,
            r.x == x,
            checked::describes(r.metadata, Algorithm::TSNE, n_features as nat, n_samples as nat, None, None, 2),
            tsne_hyperparameters(*write, kl, r.metadata.hyperparameters_json@),
    {
        let shown: String = write(kl);
        let mut hyperparameters_json: String = "{\"components\":2,\"kl_divergence\":".to_owned();
        hyperparameters_json.append(shown.as_str());
        hyperparameters_json.append("}");
        proof {
            assert(call_ensures(*write, (kl,), shown));
            assert(scalar::writes(*write, kl, shown@));
        }
        let metadata = ModelMetadata {
            algorithm: Algorithm::TSNE,
            num_features: n_features,
            num_samples: n_samples,
            r_squared: None,
            mse: None,
            coefficients_count: 2,
            hyperparameters_json,
        };
        TsneModel { metadata, embedding, x }
    }

    /// Predicts the first coordinate of the nearest row.
    pub fn predict<D: Fn(&Vec<u64>, &Vec<u64>) -> u64>(&self, features: &Vec<u64>, distance: &D) -> (r: Result<
        u64,
        ModelError,
    >)
        requires
            features@.len() == self.metadata.num_features ==> self.complete(),
            forall|a: &Vec<u64>, b: &Vec<u64>| call_requires(*distance, (a, b)),
        ensures
            if features@.len() != self.metadata.num_features {
                r matches Err(ModelError::FeatureCountMismatch { expected, got }) && expected
                    == self.metadata.num_features && got == features@.len()
            } else {
                r matches Ok(p) && places(*distance, json::rows_of(self.x@), self.embedding@, features@, p)
            },
    {
        if features.len() != self.metadata.num_features {
            return Err(
                ModelError::FeatureCountMismatch { expected: self.metadata.num_features, got: features.len() },
            );
        }
        let i: usize = find_nearest(&self.x, features, distance);
        assert(checked::is_nearest(*distance, json::rows_of(self.x@), features@, i));
        let p: u64 = self.embedding[i].0;
        assert(places(*distance, json::rows_of(self.x@), self.embedding@, features@, p));
        Ok(p)
    }
}

} // verus!
