//! A neural network with one hidden layer, for regression.
//!
//! The numbers are the bits of doubles; computing with them is the caller's.

use vstd::prelude::*;
use crate::bits;
use crate::bits::is_less;
use crate::model::checked;
use crate::model::types::{Algorithm, ModelError, ModelMetadata};
use crate::text;
use crate::text::push_decimal;

verus! {

/// The weights.
#[derive(Debug, PartialEq, Eq)]
pub struct MlpWeights {
    /// From the input to the hidden layer, neuron by neuron.
    pub w1: Vec<Vec<u64>>,
    pub b1: Vec<u64>,
    /// From the hidden layer to the output.
    pub w2: Vec<u64>,
    pub b2: u64,
    pub input_size: usize,
    pub hidden_size: usize,
}

impl MlpWeights {
    /// How many numbers the weights are.
    pub open spec fn count(self) -> nat {
        self.w1@.len() * self.w1@[0]@.len() + self.b1@.len() + self.w2@.len() + 1
    }

    /// Every hidden neuron has its weights for that many features.
    pub open spec fn complete(self, features: nat) -> bool {
        &&& self.hidden_size <= self.w1@.len()
        &&& self.hidden_size <= self.b1@.len()
        &&& self.hidden_size <= self.w2@.len()
        &&& forall|i: int| 0 <= i < self.hidden_size ==> (#[trigger] self.w1@[i])@.len() >= features
    }
}

/// The model.
#[derive(Debug, PartialEq, Eq)]
pub struct MlpModel {
    pub metadata: ModelMetadata,
    pub inner: MlpWeights,
}

/// What a hidden neuron hands on: the value where it is above zero, else zero.
pub open spec fn rectified(z: u64) -> u64 {
    if bits::less(bits::ZERO, z) {
        z
    } else {
        bits::ZERO
    }
}

/// The caller's value of a neuron before it is rectified.
pub open spec fn activates<N: Fn(u64, &Vec<u64>, &Vec<u64>) -> u64>(
    neuron: N,
    bias: u64,
    weights: Seq<u64>,
    features: Seq<u64>,
    z: u64,
) -> bool {
    exists|w: &Vec<u64>, f: &Vec<u64>| w@ == weights && f@ == features && #[trigger] call_ensures(neuron, (bias, w, f), z)
}

/// The hidden layer at some features.
pub open spec fn is_hidden<N: Fn(u64, &Vec<u64>, &Vec<u64>) -> u64>(
    neuron: N,
    m: MlpWeights,
    features: Seq<u64>,
    hidden: Seq<u64>,
) -> bool {
    &&& hidden.len() == m.hidden_size
    &&& forall|i: int| 0 <= i < hidden.len() ==> is_neuron(neuron, m, features, i, #[trigger] hidden[i])
}

/// One neuron of the hidden layer at some features.
pub open spec fn is_neuron<N: Fn(u64, &Vec<u64>, &Vec<u64>) -> u64>(
    neuron: N,
    m: MlpWeights,
    features: Seq<u64>,
    i: int,
    value: u64,
) -> bool {
    exists|z: u64| #[trigger] activates(neuron, m.b1@[i], m.w1@[i]@, features, z) && value == rectified(z)
}

/// The output: what the caller makes of the hidden layer.
pub open spec fn is_output<
    N: Fn(u64, &Vec<u64>, &Vec<u64>) -> u64,
    O: Fn(u64, &Vec<u64>, &Vec<u64>) -> u64,
>(neuron: N, output: O, m: MlpWeights, features: Seq<u64>, p: u64) -> bool {
    exists|hidden: Seq<u64>| #[trigger]
        is_hidden(neuron, m, features, hidden) && activates(output, m.b2, m.w2@, hidden, p)
}

impl MlpModel {
    /// The model of some weights.
    pub fn new(weights: MlpWeights, r_squared: Option<u64>, mse: Option<u64>) -> (r: Self)
        requires
            weights.w1@.len() > 0,
            weights.count() <= usize::MAX,
        ensures
            r.inner == weights,
            checked::describes(
                r.metadata,
                Algorithm::MlpRegressor,
                weights.input_size as nat,
                0,
                r_squared,
                mse,
                weights.count(),
            ),
            r.metadata.hyperparameters_json@ == "{\"hidden_size\":"@ + text::decimal(weights.hidden_size as nat)
                + ",\"iterations\":0}"@,
    {
        let mut hyperparameters_json: String = "{\"hidden_size\":".to_owned();
        push_decimal(&mut hyperparameters_json, weights.hidden_size as u64);
        hyperparameters_json.append(",\"iterations\":0}");
        let rows: usize = weights.w1.len();
        let cols: usize = weights.w1[0].len();
        proof {
            assert(0 <= rows * cols) by (nonlinear_arith)
                requires
                    0 <= rows,
                    0 <= cols,
            ;
        }
        let coefficients_count: usize = rows * cols + weights.b1.len() + weights.w2.len() + 1;
        let metadata = ModelMetadata {
            algorithm: Algorithm::MlpRegressor,
            num_features: weights.input_size,
            num_samples: 0,
            r_squared,
            mse,
            coefficients_count,
            hyperparameters_json,
        };
        MlpModel { metadata, inner: weights }
    }

    /// The output at some features. `neuron` adds a bias and the weighted features,
    /// `output` does the same for the hidden layer.
    fn forward<N: Fn(u64, &Vec<u64>, &Vec<u64>) -> u64, O: Fn(u64, &Vec<u64>, &Vec<u64>) -> u64>(
        &self,
        features: &Vec<u64>,
        neuron: &N,
        output: &O,
    ) -> (p: u64)
        requires
            self.inner.complete(features@.len()),
            forall|b: u64, w: &Vec<u64>, f: &Vec<u64>| call_requires(*neuron, (b, w, f)),
            forall|b: u64, w: &Vec<u64>, f: &Vec<u64>| call_requires(*output, (b, w, f)),
        ensures
            is_output(*neuron, *output, self.inner, features@, p),
    {
        let mut hidden: Vec<u64> = Vec::new();
        let mut i: usize = 0;
        while i < self.inner.hidden_size
            invariant
                self.inner.complete(features@.len()),
                forall|b: u64, w: &Vec<u64>, f: &Vec<u64>| call_requires(*neuron, (b, w, f)),
                i <= self.inner.hidden_size,
                hidden@.len() == i,
                forall|x: int| 0 <= x < i ==> is_neuron(*neuron, self.inner, features@, x, #[trigger] hidden@[x]),
            decreases self.inner.hidden_size - i,
        {
            let w = &self.inner.w1[i];
            let z: u64 = neuron(self.inner.b1[i], w, features);
            proof {
                assert(call_ensures(*neuron, (self.inner.b1@[i as int], w, features), z));
                assert(activates(*neuron, self.inner.b1@[i as int], self.inner.w1@[i as int]@, features@, z));
            }
            let value: u64 = if is_less(bits::ZERO, z) {
                z
            } else {
                bits::ZERO
            };
            assert(is_neuron(*neuron, self.inner, features@, i as int, value));
            hidden.push(value);
            i = i + 1;
        }
        let w = &self.inner.w2;
        let h = &hidden;
        let p: u64 = output(self.inner.b2, w, h);
        proof {
            assert(is_hidden(*neuron, self.inner, features@, hidden@));
            assert(call_ensures(*output, (self.inner.b2, w, h), p));
            assert(activates(*output, self.inner.b2, self.inner.w2@, hidden@, p));
        }
        p
    }

    /// Predicts.
    pub fn predict<N: Fn(u64, &Vec<u64>, &Vec<u64>) -> u64, O: Fn(u64, &Vec<u64>, &Vec<u64>) -> u64>(
        &self,
        features: &Vec<u64>,
        neuron: &N,
        output: &O,
    ) -> (r: Result<u64, ModelError>)
        requires
            features@.len() == self.metadata.num_features ==> self.inner.complete(features@.len()),
            forall|b: u64, w: &Vec<u64>, f: &Vec<u64>| call_requires(*neuron, (b, w, f)),
            forall|b: u64, w: &Vec<u64>, f: &Vec<u64>| call_requires(*output, (b, w, f)),
        ensures
            if features@.len() != self.metadata.num_features {
                r matches Err(ModelError::FeatureCountMismatch { expected, got }) && expected
                    == self.metadata.num_features && got == features@.len()
            } else {
                r matches Ok(p) && is_output(*neuron, *output, self.inner, features@, p)
            },
    {
        if features.len() != self.metadata.num_features {
            return Err(
                ModelError::FeatureCountMismatch { expected: self.metadata.num_features, got: features.len() },
            );
        }
        Ok(self.forward(features, neuron, output))
    }
}

} // verus!
