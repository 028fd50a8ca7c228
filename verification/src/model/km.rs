//! Kaplan-Meier survival curves. A model has no features: it predicts the median
//! survival time.
//!
//! The numbers are the bits of doubles.

use vstd::prelude::*;
use crate::bits;
use crate::bits::is_less_eq;
use crate::model::checked;
use crate::model::types::{Algorithm, ModelError, ModelMetadata};
use crate::text;
use crate::text::push_decimal;

verus! {

/// A survival curve that was estimated.
#[derive(Debug, PartialEq, Eq)]
pub struct KmResult {
    /// The times of events, in ascending order.
    pub times: Vec<u64>,
    /// The survival at each time.
    pub survival: Vec<u64>,
    pub n: usize,
    pub events: usize,
}

/// The model: the curve.
#[derive(Debug, PartialEq, Eq)]
pub struct KmMlModel {
    pub metadata: ModelMetadata,
    pub times: Vec<u64>,
    pub survival: Vec<u64>,
    pub events: usize,
}

/// How many of the times from the first on, without a gap, are at or before `t`.
pub open spec fn times_until(times: Seq<u64>, t: u64) -> nat
    decreases times.len(),
{
    if times.len() == 0 || !bits::less_eq(times[0], t) {
        0
    } else {
        1 + times_until(times.skip(1), t)
    }
}

/// The survival at a time: one before the first event, else that of the last
/// event at or before it.
pub open spec fn survival_of(times: Seq<u64>, survival: Seq<u64>, t: u64) -> u64 {
    if times_until(times, t) == 0 {
        bits::ONE
    } else {
        survival[times_until(times, t) - 1]
    }
}

/// The median survival time: the first time at which the survival is at most a
/// half; the last time where there is none, and zero where there is no time.
pub open spec fn is_median(times: Seq<u64>, survival: Seq<u64>, m: u64) -> bool {
    if exists|i: int| 0 <= i < times.len() && bits::less_eq(#[trigger] survival[i], bits::HALF) {
        exists|i: int|
            0 <= i < times.len() && bits::less_eq(#[trigger] survival[i], bits::HALF) && m == times[i] && forall|j: int|
                0 <= j < i ==> !bits::less_eq(#[trigger] survival[j], bits::HALF)
    } else if times.len() > 0 {
        m == times.last()
    } else {
        m == bits::ZERO
    }
}

impl KmMlModel {
    /// The model of a curve.
    pub fn new(result: KmResult) -> (r: Self)
        requires
            result.events <= result.n,
        ensures
            r.times == result.times,
            r.survival == result.survival,
            r.events == result.events,
            checked::describes(
                r.metadata,
                Algorithm::KaplanMeier,
                0,
                result.n as nat,
                None,
                None,
                result.events as nat,
            ),
            r.metadata.hyperparameters_json@ == "{\"censored\":"@ + text::decimal((result.n - result.events) as nat)
                + ",\"curve_points\":"@ + text::decimal(result.times@.len()) + ",\"events\":"@ + text::decimal(
                result.events as nat,
            ) + "}"@,
    {
        let mut hyperparameters_json: String = "{\"censored\":".to_owned();
        push_decimal(&mut hyperparameters_json, (result.n - result.events) as u64);
        hyperparameters_json.append(",\"curve_points\":");
        push_decimal(&mut hyperparameters_json, result.times.len() as u64);
        hyperparameters_json.append(",\"events\":");
        push_decimal(&mut hyperparameters_json, result.events as u64);
        hyperparameters_json.append("}");
        let metadata = ModelMetadata {
            algorithm: Algorithm::KaplanMeier,
            num_features: 0,
            num_samples: result.n,
            r_squared: None,
            mse: None,
            coefficients_count: result.events,
            hyperparameters_json,
        };
        KmMlModel { metadata, times: result.times, survival: result.survival, events: result.events }
    }

    /// The survival at a time.
    pub fn survival_at(&self, t: u64) -> (s: u64)
        requires
            self.times@.len() <= self.survival@.len(),
        ensures
            s == survival_of(self.times@, self.survival@, t),
    {
        let mut i: usize = 0;
        assert(self.times@.skip(0) =~= self.times@);
        while i < self.times.len() && is_less_eq(self.times[i], t)
            invariant
                i <= self.times@.len(),
                times_until(self.times@, t) == i + times_until(self.times@.skip(i as int), t),
            decreases self.times.len() - i,
        {
            let ghost rest = self.times@.skip(i as int);
            assert(rest[0] == self.times@[i as int]);
            assert(rest.skip(1) =~= self.times@.skip(i + 1));
            i = i + 1;
        }
        proof {
            let rest = self.times@.skip(i as int);
            if i < self.times@.len() {
                assert(rest[0] == self.times@[i as int]);
            }
        }
        if i == 0 {
            bits::ONE
        } else {
            self.survival[i - 1]
        }
    }

    /// The curve: the times and the survival at each.
    pub fn curve(&self) -> (r: (&Vec<u64>, &Vec<u64>))
        ensures
            *r.0 == self.times,
            *r.1 == self.survival,
    {
        (&self.times, &self.survival)
    }

    /// Predicts the median survival time, whatever the features.
    pub fn predict(&self, _features: &Vec<u64>) -> (r: Result<u64, ModelError>)
        requires
            self.times@.len() <= self.survival@.len(),
        ensures
            r matches Ok(m) && is_median(self.times@, self.survival@, m),
    {
        let n: usize = self.times.len();
        let mut i: usize = 0;
        while i < n
            invariant
                n == self.times@.len(),
                n <= self.survival@.len(),
                i <= n,
                forall|j: int| 0 <= j < i ==> !bits::less_eq(#[trigger] self.survival@[j], bits::HALF),
            decreases n - i,
        {
            if is_less_eq(self.survival[i], bits::HALF) {
                assert(bits::less_eq(self.survival@[i as int], bits::HALF));
                return Ok(self.times[i]);
            }
            i = i + 1;
        }
        if n > 0 {
            Ok(self.times[n - 1])
        } else {
            Ok(bits::ZERO)
        }
    }
}

} // verus!
