//! What the models answer.

use vstd::prelude::*;
use crate::bits;
use crate::laws::reals;
use crate::model::checked;
use crate::model::choice;
use crate::model::km::KmMlModel;
use crate::model::lda::{LdaMlModel, LdaModel};
use crate::model::mlp;
use crate::model::mlp::{MlpModel, MlpWeights};
use crate::model::naive_bayes;
use crate::model::naive_bayes::{NaiveBayesModel, NbMlModel};
use crate::model::onnx;
use crate::model::onnx::{
    build_attention_mask, extract_embedding, first_value, pick_output_name, plan_embed, plan_predict, RunPlan,
};
use crate::model::pca::{PcaMlModel, PcaModel};
use crate::model::projection;
use crate::model::trained::{
    AdaBoostModel, ArimaMlModel, CoxMlModel, MultilogisticModel, OrdinalMlModel, SvmModel, SvrModel, MAX_HORIZON,
};
use crate::model::tree::{ForestModel, TreeModel};
use crate::model::types::ModelError;
use crate::text;

verus! {

/// The answer to some features is the given function of them.
pub open spec fn is_asked<P: Fn(&Vec<u64>) -> u64>(ask: P, answer: spec_fn(Seq<u64>) -> u64) -> bool {
    forall|f: &Vec<u64>, p: u64| #[trigger] call_ensures(ask, (f,), p) ==> p == answer(f@)
}

/// Features of another number than wanted are refused with both numbers, and others
/// are answered.
pub open spec fn answers_features(
    wanted: usize,
    answer: spec_fn(Seq<u64>) -> u64,
    features: Seq<u64>,
    r: Result<u64, ModelError>,
) -> bool {
    &&& features.len() != wanted ==> (r matches Err(ModelError::FeatureCountMismatch { expected, got }) && expected
        == wanted && got == features.len())
    &&& features.len() == wanted ==> r == Ok::<u64, ModelError>(answer(features))
}

proof fn lemma_answers<P: Fn(&Vec<u64>) -> u64>(
    wanted: usize,
    ask: P,
    answer: spec_fn(Seq<u64>) -> u64,
    features: Seq<u64>,
    r: Result<u64, ModelError>,
)
    requires
        checked::checked_outcome(wanted, ask, features, r),
        is_asked(ask, answer),
    ensures
        answers_features(wanted, answer, features, r),
{
    if features.len() == wanted {
        let p = r->Ok_0;
        let f = choose|f: &Vec<u64>| f@ == features && #[trigger] call_ensures(ask, (f,), p);
        assert(p == answer(f@));
    }
}

/// A tree answers the features it was made for.
pub proof fn law_tree_answers<T, P: Fn(&Vec<u64>) -> u64>(
    model: &TreeModel<T>,
    features: &Vec<u64>,
    ask: &P,
    r: Result<u64, ModelError>,
    answer: spec_fn(Seq<u64>) -> u64,
)
    requires
        call_ensures(TreeModel::<T>::predict::<P>, (model, features, ask), r),
        is_asked(*ask, answer),
    ensures
        answers_features(model.metadata.num_features, answer, features@, r),
{
    lemma_answers(model.metadata.num_features, *ask, answer, features@, r);
}

/// A forest answers the features it was made for.
pub proof fn law_forest_answers<T, P: Fn(&Vec<u64>) -> u64>(
    model: &ForestModel<T>,
    features: &Vec<u64>,
    ask: &P,
    r: Result<u64, ModelError>,
    answer: spec_fn(Seq<u64>) -> u64,
)
    requires
        call_ensures(ForestModel::<T>::predict::<P>, (model, features, ask), r),
        is_asked(*ask, answer),
    ensures
        answers_features(model.metadata.num_features, answer, features@, r),
{
    lemma_answers(model.metadata.num_features, *ask, answer, features@, r);
}

/// Boosted stumps answer the features they were made for.
pub proof fn law_stumps_answer<P: Fn(&Vec<u64>) -> u64>(
    model: &AdaBoostModel,
    features: &Vec<u64>,
    ask: &P,
    r: Result<u64, ModelError>,
    answer: spec_fn(Seq<u64>) -> u64,
)
    requires
        call_ensures(AdaBoostModel::predict::<P>, (model, features, ask), r),
        is_asked(*ask, answer),
    ensures
        answers_features(model.metadata.num_features, answer, features@, r),
{
    lemma_answers(model.metadata.num_features, *ask, answer, features@, r);
}

/// A model of hazards answers the features it was made for.
pub proof fn law_hazards_answer<D, P: Fn(&Vec<u64>) -> u64>(
    model: &CoxMlModel<D>,
    features: &Vec<u64>,
    ask: &P,
    r: Result<u64, ModelError>,
    answer: spec_fn(Seq<u64>) -> u64,
)
    requires
        call_ensures(CoxMlModel::<D>::predict::<P>, (model, features, ask), r),
        is_asked(*ask, answer),
    ensures
        answers_features(model.metadata.num_features, answer, features@, r),
{
    lemma_answers(model.metadata.num_features, *ask, answer, features@, r);
}

/// A model of ordered classes answers the features it was made for.
pub proof fn law_ordered_classes_answer<D, P: Fn(&Vec<u64>) -> u64>(
    model: &OrdinalMlModel<D>,
    features: &Vec<u64>,
    ask: &P,
    r: Result<u64, ModelError>,
    answer: spec_fn(Seq<u64>) -> u64,
)
    requires
        call_ensures(OrdinalMlModel::<D>::predict::<P>, (model, features, ask), r),
        is_asked(*ask, answer),
    ensures
        answers_features(model.metadata.num_features, answer, features@, r),
{
    lemma_answers(model.metadata.num_features, *ask, answer, features@, r);
}

/// A model of many classes answers the features it was made for.
pub proof fn law_many_classes_answer<D, P: Fn(&Vec<u64>) -> u64>(
    model: &MultilogisticModel<D>,
    features: &Vec<u64>,
    ask: &P,
    r: Result<u64, ModelError>,
    answer: spec_fn(Seq<u64>) -> u64,
)
    requires
        call_ensures(MultilogisticModel::<D>::predict::<P>, (model, features, ask), r),
        is_asked(*ask, answer),
    ensures
        answers_features(model.metadata.num_features, answer, features@, r),
{
    lemma_answers(model.metadata.num_features, *ask, answer, features@, r);
}

/// A classifying vector machine answers the features it was made for.
pub proof fn law_vectors_answer<D, P: Fn(&Vec<u64>) -> u64>(
    model: &SvmModel<D>,
    features: &Vec<u64>,
    ask: &P,
    r: Result<u64, ModelError>,
    answer: spec_fn(Seq<u64>) -> u64,
)
    requires
        call_ensures(SvmModel::<D>::predict::<P>, (model, features, ask), r),
        is_asked(*ask, answer),
    ensures
        answers_features(model.metadata.num_features, answer, features@, r),
{
    lemma_answers(model.metadata.num_features, *ask, answer, features@, r);
}

/// A vector machine for numbers answers the features it was made for.
pub proof fn law_regressing_vectors_answer<D, P: Fn(&Vec<u64>) -> u64>(
    model: &SvrModel<D>,
    features: &Vec<u64>,
    ask: &P,
    r: Result<u64, ModelError>,
    answer: spec_fn(Seq<u64>) -> u64,
)
    requires
        call_ensures(SvrModel::<D>::predict::<P>, (model, features, ask), r),
        is_asked(*ask, answer),
    ensures
        answers_features(model.metadata.num_features, answer, features@, r),
{
    lemma_answers(model.metadata.num_features, *ask, answer, features@, r);
}

proof fn lemma_longest_horizon()
    ensures
        reals::is_number(MAX_HORIZON),
        reals::value(MAX_HORIZON) == 100_000 * reals::value(bits::ONE),
{
    let m = MAX_HORIZON as nat;
    let unit = 0x10_0000_0000_0000nat;
    assert(m == 1039 * unit + 0x8_6a00_0000_0000);
    assert(m / unit == 1039);
    assert(m % unit == 0x8_6a00_0000_0000);
    assert(unit + m % unit == 100_000 * 0x10_0000_0000);
    vstd::arithmetic::power2::lemma_pow2_adds(36, 1038);
    assert(vstd::arithmetic::power2::pow2(36) == 0x10_0000_0000) by {
        vstd::arithmetic::power2::lemma2_to64();
        vstd::arithmetic::power2::lemma2_to64_rest();
    }
    reals::law_constants_have_their_values();
    let p = vstd::arithmetic::power2::pow2(1038);
    assert(100_000 * 0x10_0000_0000 * p == 100_000 * (0x10_0000_0000 * p)) by (nonlinear_arith);
    assert(reals::value(MAX_HORIZON) == 100_000 * 0x10_0000_0000 * p);
}

/// A series is forecast for one horizon, from 1 to 100000.
pub proof fn law_horizon_is_forecast<D, F: Fn(&D, u64) -> u64, S: Fn(u64) -> String>(
    model: &ArimaMlModel<D>,
    features: &Vec<u64>,
    forecast: &F,
    show: &S,
    r: Result<u64, ModelError>,
    answer: spec_fn(D, u64) -> u64,
)
    requires
        call_ensures(ArimaMlModel::<D>::predict::<F, S>, (model, features, forecast, show), r),
        forall|m: &D, h: u64, p: u64| #[trigger] call_ensures(*forecast, (m, h), p) ==> p == answer(*m, h),
    ensures
        features@.len() != 1 ==> (r matches Err(ModelError::FeatureCountMismatch { expected, got }) && expected == 1
            && got == features@.len()),
        features@.len() == 1 ==> {
            let one = reals::value(bits::ONE);
            let h = features@[0];
            if reals::is_number(h) && one <= reals::value(h) <= 100_000 * one {
                r == Ok::<u64, ModelError>(answer(model.model, h))
            } else {
                r matches Err(ModelError::Training(_))
            }
        },
{
    lemma_longest_horizon();
    reals::law_constants_have_their_values();
    if features@.len() == 1 {
        reals::law_order_is_of_values(bits::ONE, features@[0]);
        reals::law_order_is_of_values(features@[0], MAX_HORIZON);
    }
}

/// The survival at a time is that of the last of the leading times up to it, and all
/// before the first one.
pub proof fn law_survival_is_a_step(model: &KmMlModel, t: u64, s: u64) -> (m: int)
    requires
        call_ensures(KmMlModel::survival_at, (model, t), s),
        reals::is_number(t),
        forall|i: int| 0 <= i < model.times@.len() ==> reals::is_number(#[trigger] model.times@[i]),
    ensures
        0 <= m <= model.times@.len(),
        forall|i: int| 0 <= i < m ==> reals::value(#[trigger] model.times@[i]) <= reals::value(t),
        m < model.times@.len() ==> reals::value(model.times@[m]) > reals::value(t),
        m == 0 ==> s == bits::ONE,
        m > 0 ==> s == model.survival@[m - 1],
{
    let m = crate::model::km::times_until(model.times@, t) as int;
    lemma_times_until(model.times@, t);
    m
}

proof fn lemma_times_until(times: Seq<u64>, t: u64)
    requires
        reals::is_number(t),
        forall|i: int| 0 <= i < times.len() ==> reals::is_number(#[trigger] times[i]),
    ensures
        0 <= crate::model::km::times_until(times, t) <= times.len(),
        forall|i: int|
            0 <= i < crate::model::km::times_until(times, t) ==> reals::value(#[trigger] times[i]) <= reals::value(t),
        crate::model::km::times_until(times, t) < times.len() ==> reals::value(
            times[crate::model::km::times_until(times, t) as int],
        ) > reals::value(t),
    decreases times.len(),
{
    if times.len() > 0 {
        reals::law_order_is_of_values(times[0], t);
        assert(reals::is_number(times[0]));
        if bits::less_eq(times[0], t) {
            let rest = times.skip(1);
            assert forall|i: int| 0 <= i < rest.len() implies reals::is_number(#[trigger] rest[i]) by {
                assert(rest[i] == times[i + 1]);
            }
            lemma_times_until(rest, t);
            assert forall|i: int| 0 <= i < crate::model::km::times_until(times, t) implies reals::value(
                #[trigger] times[i],
            ) <= reals::value(t) by {
                if i > 0 {
                    assert(rest[i - 1] == times[i]);
                }
            }
        }
    }
}

/// A curve predicts the first time at which at most half survive, or else its last
/// time, or 0 if it has none, whatever the features.
pub proof fn law_median_is_half_survival(model: &KmMlModel, features: &Vec<u64>, r: Result<u64, ModelError>)
    requires
        call_ensures(KmMlModel::predict, (model, features), r),
        forall|i: int| 0 <= i < model.survival@.len() ==> reals::is_number(#[trigger] model.survival@[i]),
        model.times@.len() <= model.survival@.len(),
    ensures
        r is Ok,
        forall|i: int|
            #![trigger model.survival@[i]]
            0 <= i < model.times@.len() && 2 * reals::value(model.survival@[i]) <= reals::value(bits::ONE) && (forall|
                j: int,
            |
                0 <= j < i ==> 2 * reals::value(#[trigger] model.survival@[j]) > reals::value(bits::ONE)) ==> r->Ok_0
                == model.times@[i],
        model.times@.len() > 0 && (forall|i: int|
            0 <= i < model.times@.len() ==> 2 * reals::value(#[trigger] model.survival@[i]) > reals::value(bits::ONE))
            ==> r->Ok_0 == model.times@.last(),
        model.times@.len() == 0 ==> reals::value(r->Ok_0) == 0,
{
    reals::law_constants_have_their_values();
    let s = model.survival@;
    assert forall|i: int| #![trigger s[i]] 0 <= i < s.len() implies bits::less_eq(s[i], bits::HALF) == (2
        * reals::value(s[i]) <= reals::value(bits::ONE)) by {
        reals::law_order_is_of_values(s[i], bits::HALF);
    }
}

/// The score of a class is the given function of its prior, its means, its variances
/// and the features.
pub open spec fn is_scoring<S: Fn(u64, &Vec<u64>, &Vec<u64>, &Vec<u64>) -> u64>(
    score: S,
    points: spec_fn(u64, Seq<u64>, Seq<u64>, Seq<u64>) -> u64,
) -> bool {
    forall|p: u64, a: &Vec<u64>, b: &Vec<u64>, f: &Vec<u64>, r: u64| #[trigger]
        call_ensures(score, (p, a, b, f), r) ==> r == points(p, a@, b@, f@)
}

/// The points of class `c`.
pub open spec fn points_of(
    points: spec_fn(u64, Seq<u64>, Seq<u64>, Seq<u64>) -> u64,
    m: NaiveBayesModel,
    features: Seq<u64>,
    c: int,
) -> u64 {
    points(m.priors@[c], m.means@[c]@, m.vars@[c]@, features)
}

/// No class has more points, and none before it as many.
pub open spec fn is_best_class(
    points: spec_fn(u64, Seq<u64>, Seq<u64>, Seq<u64>) -> u64,
    m: NaiveBayesModel,
    features: Seq<u64>,
    c: int,
) -> bool {
    &&& 0 <= c < m.classes@.len()
    &&& forall|d: int|
        #![trigger points_of(points, m, features, d)]
        0 <= d < m.classes@.len() ==> reals::value(points_of(points, m, features, d)) <= reals::value(
            points_of(points, m, features, c),
        )
    &&& forall|d: int|
        #![trigger points_of(points, m, features, d)]
        0 <= d < c ==> reals::value(points_of(points, m, features, d)) < reals::value(
            points_of(points, m, features, c),
        )
}

proof fn lemma_best_class<S: Fn(u64, &Vec<u64>, &Vec<u64>, &Vec<u64>) -> u64>(
    score: S,
    points: spec_fn(u64, Seq<u64>, Seq<u64>, Seq<u64>) -> u64,
    m: NaiveBayesModel,
    features: Seq<u64>,
    r: u64,
) -> (c: int)
    requires
        naive_bayes::nb_predicts(score, m@, features, r),
        is_scoring(score, points),
        m@.complete(),
        m.classes@.len() > 0,
        forall|d: int|
            #![trigger points_of(points, m, features, d)]
            0 <= d < m.classes@.len() ==> reals::is_number(points_of(points, m, features, d)) && reals::value(
                points_of(points, m, features, d),
            ) > reals::value(bits::NEG_INFINITY),
    ensures
        is_best_class(points, m, features, c),
        r == m.classes@[c],
{
    let (scores, best) = choose|scores: Seq<u64>, best: Option<usize>| #[trigger]
        naive_bayes::scores_all(score, m@, features, scores) && #[trigger] choice::first_greatest(scores, best) && r
            == (match best {
            Some(c) => m@.classes[c as int],
            None => bits::ZERO,
        });
    assert forall|d: int| 0 <= d < m.classes@.len() implies #[trigger] scores[d] == points_of(points, m, features, d) by {
        assert(naive_bayes::scores_class(score, m@, features, d, scores[d]));
        let (a, b, f) = choose|a: &Vec<u64>, b: &Vec<u64>, f: &Vec<u64>|
            a@ == m@.means[d] && b@ == m@.vars[d] && f@ == features && #[trigger] call_ensures(
                score,
                (m@.priors[d], a, b, f),
                scores[d],
            );
    }
    reals::law_constants_have_their_values();
    assert(scores[0] == points_of(points, m, features, 0));
    reals::law_order_is_of_values(bits::NEG_INFINITY, scores[0]);
    assert(best is Some);
    let c = best->0 as int;
    assert(scores[c] == points_of(points, m, features, c));
    assert forall|d: int|
        #![trigger points_of(points, m, features, d)]
        0 <= d < m.classes@.len() implies reals::value(points_of(points, m, features, d)) <= reals::value(
        points_of(points, m, features, c),
    ) && (d < c ==> reals::value(points_of(points, m, features, d)) < reals::value(
        points_of(points, m, features, c),
    )) by {
        assert(scores[d] == points_of(points, m, features, d));
        reals::law_order_is_of_values(scores[c], scores[d]);
        assert(!bits::less(scores[c], scores[d]));
        assert(d < c ==> !bits::less_eq(scores[c], scores[d]));
    }
    c
}

/// The class with the most points is predicted, and of several the first one.
pub proof fn law_best_class_is_predicted<S: Fn(u64, &Vec<u64>, &Vec<u64>, &Vec<u64>) -> u64>(
    model: &NaiveBayesModel,
    features: &Vec<u64>,
    score: &S,
    r: u64,
    points: spec_fn(u64, Seq<u64>, Seq<u64>, Seq<u64>) -> u64,
) -> (c: int)
    requires
        call_ensures(NaiveBayesModel::predict::<S>, (model, features, score), r),
        is_scoring(*score, points),
        model@.complete(),
        model.classes@.len() > 0,
        forall|d: int|
            #![trigger points_of(points, *model, features@, d)]
            0 <= d < model.classes@.len() ==> reals::is_number(points_of(points, *model, features@, d))
                && reals::value(points_of(points, *model, features@, d)) > reals::value(bits::NEG_INFINITY),
    ensures
        is_best_class(points, *model, features@, c),
        r == model.classes@[c],
{
    lemma_best_class(*score, points, *model, features@, r)
}

/// A registered model of classes predicts the class with the most points.
pub proof fn law_registered_class_is_predicted<S: Fn(u64, &Vec<u64>, &Vec<u64>, &Vec<u64>) -> u64>(
    model: &NbMlModel,
    features: &Vec<u64>,
    score: &S,
    r: Result<u64, ModelError>,
    points: spec_fn(u64, Seq<u64>, Seq<u64>, Seq<u64>) -> u64,
) -> (c: int)
    requires
        call_ensures(NbMlModel::predict::<S>, (model, features, score), r),
        is_scoring(*score, points),
        model.inner@.complete(),
        model.inner.classes@.len() > 0,
        forall|d: int|
            #![trigger points_of(points, model.inner, features@, d)]
            0 <= d < model.inner.classes@.len() ==> reals::is_number(points_of(points, model.inner, features@, d))
                && reals::value(points_of(points, model.inner, features@, d)) > reals::value(bits::NEG_INFINITY),
    ensures
        is_best_class(points, model.inner, features@, c),
        r == Ok::<u64, ModelError>(model.inner.classes@[c]),
{
    lemma_best_class(*score, points, model.inner, features@, r->Ok_0)
}

/// The sum of a neuron is the given function of its bias, its weights and its inputs.
pub open spec fn is_neuron<N: Fn(u64, &Vec<u64>, &Vec<u64>) -> u64>(
    neuron: N,
    sum: spec_fn(u64, Seq<u64>, Seq<u64>) -> u64,
) -> bool {
    forall|b: u64, w: &Vec<u64>, f: &Vec<u64>, r: u64| #[trigger]
        call_ensures(neuron, (b, w, f), r) ==> r == sum(b, w@, f@)
}

/// What hidden neuron `i` passes on: its sum where it is above 0, and else 0.
pub open spec fn passes_on(
    sum: spec_fn(u64, Seq<u64>, Seq<u64>) -> u64,
    m: MlpWeights,
    features: Seq<u64>,
    i: int,
    v: u64,
) -> bool {
    let z = sum(m.b1@[i], m.w1@[i]@, features);
    if reals::is_number(z) && reals::value(z) > 0 {
        v == z
    } else {
        v == bits::ZERO
    }
}

/// A network sums what its hidden neurons pass on.
pub proof fn law_network_sums_its_neurons<
    N: Fn(u64, &Vec<u64>, &Vec<u64>) -> u64,
    O: Fn(u64, &Vec<u64>, &Vec<u64>) -> u64,
>(
    model: &MlpModel,
    features: &Vec<u64>,
    neuron: &N,
    output: &O,
    r: Result<u64, ModelError>,
    sum: spec_fn(u64, Seq<u64>, Seq<u64>) -> u64,
    last: spec_fn(u64, Seq<u64>, Seq<u64>) -> u64,
) -> (hidden: Seq<u64>)
    requires
        call_ensures(MlpModel::predict::<N, O>, (model, features, neuron, output), r),
        is_neuron(*neuron, sum),
        is_neuron(*output, last),
    ensures
        features@.len() != model.metadata.num_features ==> (r matches Err(
            ModelError::FeatureCountMismatch { expected, got },
        ) && expected == model.metadata.num_features && got == features@.len()),
        features@.len() == model.metadata.num_features ==> {
            &&& hidden.len() == model.inner.hidden_size
            &&& forall|i: int|
                0 <= i < hidden.len() ==> passes_on(sum, model.inner, features@, i, #[trigger] hidden[i])
            &&& r == Ok::<u64, ModelError>(last(model.inner.b2, model.inner.w2@, hidden))
        },
{
    if features@.len() == model.metadata.num_features {
        let p = r->Ok_0;
        let hidden = choose|hidden: Seq<u64>| #[trigger]
            mlp::is_hidden(*neuron, model.inner, features@, hidden) && mlp::activates(
                *output,
                model.inner.b2,
                model.inner.w2@,
                hidden,
                p,
            );
        let (w, f) = choose|w: &Vec<u64>, f: &Vec<u64>|
            w@ == model.inner.w2@ && f@ == hidden && #[trigger] call_ensures(*output, (model.inner.b2, w, f), p);
        assert(p == last(model.inner.b2, w@, f@));
        reals::law_constants_have_their_values();
        assert forall|i: int| 0 <= i < hidden.len() implies passes_on(
            sum,
            model.inner,
            features@,
            i,
            #[trigger] hidden[i],
        ) by {
            assert(mlp::is_neuron(*neuron, model.inner, features@, i, hidden[i]));
            let z = choose|z: u64| #[trigger]
                mlp::activates(*neuron, model.inner.b1@[i], model.inner.w1@[i]@, features@, z) && hidden[i]
                    == mlp::rectified(z);
            let (w, f) = choose|w: &Vec<u64>, f: &Vec<u64>|
                w@ == model.inner.w1@[i]@ && f@ == features@ && #[trigger] call_ensures(
                    *neuron,
                    (model.inner.b1@[i], w, f),
                    z,
                );
            assert(z == sum(model.inner.b1@[i], w@, f@));
            reals::law_order_is_of_values(bits::ZERO, z);
        }
        hidden
    } else {
        Seq::empty()
    }
}

/// What a direction makes of the features is the given function of the direction,
/// the features and the mean.
pub open spec fn is_projecting<P: Fn(&Vec<u64>, &Vec<u64>, &Vec<u64>) -> u64>(
    project: P,
    along: spec_fn(Seq<u64>, Seq<u64>, Seq<u64>) -> u64,
) -> bool {
    forall|a: &Vec<u64>, f: &Vec<u64>, m: &Vec<u64>, r: u64| #[trigger]
        call_ensures(project, (a, f, m), r) ==> r == along(a@, f@, m@)
}

proof fn lemma_projected<P: Fn(&Vec<u64>, &Vec<u64>, &Vec<u64>) -> u64>(
    project: P,
    along: spec_fn(Seq<u64>, Seq<u64>, Seq<u64>) -> u64,
    component: Seq<u64>,
    features: Seq<u64>,
    mean: Seq<u64>,
    value: u64,
)
    requires
        projection::projects(project, component, features, mean, value),
        is_projecting(project, along),
    ensures
        value == along(component, features, mean),
{
    let (a, f, m) = choose|a: &Vec<u64>, f: &Vec<u64>, m: &Vec<u64>|
        a@ == component && f@ == features && m@ == mean && #[trigger] call_ensures(project, (a, f, m), value);
}

/// Features have one value along each principal direction, in the order of the
/// directions, and their score is the first of them.
pub proof fn law_principal_values<P: Fn(&Vec<u64>, &Vec<u64>, &Vec<u64>) -> u64>(
    model: &PcaModel,
    features: &Vec<u64>,
    project: &P,
    values: Vec<u64>,
    score: u64,
    along: spec_fn(Seq<u64>, Seq<u64>, Seq<u64>) -> u64,
)
    requires
        call_ensures(PcaModel::transform::<P>, (model, features, project), values),
        call_ensures(PcaModel::score::<P>, (model, features, project), score),
        is_projecting(*project, along),
    ensures
        values@.len() == model.components@.len(),
        forall|i: int|
            0 <= i < values@.len() ==> #[trigger] values@[i] == along(model.components@[i]@, features@, model.mean@),
        score == if values@.len() > 0 {
            values@[0]
        } else {
            bits::ZERO
        },
{
    assert forall|i: int| 0 <= i < values@.len() implies #[trigger] values@[i] == along(
        model.components@[i]@,
        features@,
        model.mean@,
    ) by {
        lemma_projected(*project, along, model@.components[i], features@, model@.mean, values@[i]);
    }
    if values@.len() > 0 {
        lemma_projected(*project, along, model@.components[0], features@, model@.mean, score);
        assert(values@[0] == along(model.components@[0]@, features@, model.mean@));
    }
}

/// A registered model of principal directions predicts the value along the first one.
pub proof fn law_principal_value_is_predicted<P: Fn(&Vec<u64>, &Vec<u64>, &Vec<u64>) -> u64>(
    model: &PcaMlModel,
    features: &Vec<u64>,
    project: &P,
    r: Result<u64, ModelError>,
    along: spec_fn(Seq<u64>, Seq<u64>, Seq<u64>) -> u64,
)
    requires
        call_ensures(PcaMlModel::predict::<P>, (model, features, project), r),
        is_projecting(*project, along),
    ensures
        r is Ok,
        model.inner.components@.len() > 0 ==> r->Ok_0 == along(
            model.inner.components@[0]@,
            features@,
            model.inner.mean@,
        ),
        model.inner.components@.len() == 0 ==> r->Ok_0 == bits::ZERO,
{
    if model.inner.components@.len() > 0 {
        lemma_projected(
            *project,
            along,
            model.inner@.components[0],
            features@,
            model.inner@.mean,
            r->Ok_0,
        );
    }
}

/// Features have one value along each discriminating direction.
pub proof fn law_discriminating_values<P: Fn(&Vec<u64>, &Vec<u64>, &Vec<u64>) -> u64>(
    model: &LdaModel,
    features: &Vec<u64>,
    project: &P,
    values: Vec<u64>,
    along: spec_fn(Seq<u64>, Seq<u64>, Seq<u64>) -> u64,
)
    requires
        call_ensures(LdaModel::transform::<P>, (model, features, project), values),
        is_projecting(*project, along),
    ensures
        values@.len() == model.components@.len(),
        forall|i: int|
            0 <= i < values@.len() ==> #[trigger] values@[i] == along(model.components@[i]@, features@, model.mean@),
{
    assert forall|i: int| 0 <= i < values@.len() implies #[trigger] values@[i] == along(
        model.components@[i]@,
        features@,
        model.mean@,
    ) by {
        lemma_projected(*project, along, model@.components[i], features@, model@.mean, values@[i]);
    }
}

/// One of the texts is the given one.
pub open spec fn is_among(names: Seq<String>, name: Seq<char>) -> bool {
    exists|i: int| 0 <= i < names.len() && (#[trigger] names[i])@ == name
}

proof fn lemma_among(names: Seq<String>, name: Seq<char>)
    ensures
        onnx::has_name(text::texts(names), name) == is_among(names, name),
{
    if is_among(names, name) {
        let i = choose|i: int| 0 <= i < names.len() && (#[trigger] names[i])@ == name;
        assert(text::texts(names)[i] == name);
    }
    if onnx::has_name(text::texts(names), name) {
        let i = choose|i: int| 0 <= i < names.len() && #[trigger] text::texts(names)[i] == name;
        assert(names[i]@ == name);
    }
}

/// An output is one of those there are: a pooled one if there is one, else an
/// embedding of texts, else the last hidden state, else the first.
pub proof fn law_preferred_output_is_picked(names: &[String], r: Option<&str>)
    requires
        call_ensures(pick_output_name, (names,), r),
    ensures
        r is None <==> names@.len() == 0,
        r matches Some(name) ==> is_among(names@, name@),
        is_among(names@, "pooler_output"@) ==> r is Some && r->0@ == "pooler_output"@,
        !is_among(names@, "pooler_output"@) && is_among(names@, "text_embeds"@) ==> r is Some && r->0@
            == "text_embeds"@,
        !is_among(names@, "pooler_output"@) && !is_among(names@, "text_embeds"@) && is_among(
            names@,
            "last_hidden_state"@,
        ) ==> r is Some && r->0@ == "last_hidden_state"@,
        names@.len() > 0 && !is_among(names@, "pooler_output"@) && !is_among(names@, "text_embeds"@) && !is_among(
            names@,
            "last_hidden_state"@,
        ) ==> r is Some && r->0@ == names@[0]@,
{
    lemma_among(names@, "pooler_output"@);
    lemma_among(names@, "text_embeds"@);
    lemma_among(names@, "last_hidden_state"@);
    if names@.len() > 0 {
        assert(text::texts(names@)[0] == names@[0]@);
    }
}

/// An embedding is a beginning of the numbers: for three or more dimensions the
/// vector of the first token, and else all of them.
pub proof fn law_first_token_is_embedded(shape: &[i64], data: &[u32], r: Vec<u32>)
    requires
        call_ensures(extract_embedding, (shape, data), r),
    ensures
        r@.len() <= data@.len(),
        forall|i: int| 0 <= i < r@.len() ==> #[trigger] r@[i] == data@[i],
        shape@.len() < 3 ==> r@.len() == data@.len(),
        shape@.len() >= 3 && 0 < shape@.last() <= data@.len() ==> r@.len() == shape@.last(),
        shape@.len() >= 3 && !(0 < shape@.last() <= data@.len()) ==> r@.len() == data@.len(),
{
}

/// A mask has a one for each token.
pub proof fn law_mask_is_all_ones(len: usize, r: Vec<i64>)
    requires
        call_ensures(build_attention_mask, (len,), r),
    ensures
        r@.len() == len,
        forall|i: int| 0 <= i < len ==> #[trigger] r@[i] == 1,
{
}

/// A registered model of discriminating directions predicts the value along the
/// first one.
pub proof fn law_discriminating_value_is_predicted<P: Fn(&Vec<u64>, &Vec<u64>, &Vec<u64>) -> u64>(
    model: &LdaMlModel,
    features: &Vec<u64>,
    project: &P,
    r: Result<u64, ModelError>,
    along: spec_fn(Seq<u64>, Seq<u64>, Seq<u64>) -> u64,
)
    requires
        call_ensures(LdaMlModel::predict::<P>, (model, features, project), r),
        is_projecting(*project, along),
    ensures
        r is Ok,
        model.inner.components@.len() > 0 ==> r->Ok_0 == along(
            model.inner.components@[0]@,
            features@,
            model.inner.mean@,
        ),
        model.inner.components@.len() == 0 ==> r->Ok_0 == bits::ZERO,
{
    if model.inner.components@.len() > 0 {
        lemma_projected(
            *project,
            along,
            model.inner@.components[0],
            features@,
            model.inner@.mean,
            r->Ok_0,
        );
    }
}

/// An embedding is asked of the first input, for the preferred output, with a mask
/// of ones for the features where the model has an input for that.
pub proof fn law_embedding_is_planned(
    input_names: &Vec<String>,
    output_names: &Vec<String>,
    n_features: usize,
    r: Result<RunPlan, ModelError>,
    picked: Option<&str>,
    outputs: &[String],
)
    requires
        call_ensures(plan_embed, (input_names, output_names, n_features), r),
        outputs@ == output_names@,
        call_ensures(pick_output_name, (outputs,), picked),
    ensures
        r is Ok <==> input_names@.len() > 0 && output_names@.len() > 0,
        r matches Ok(plan) ==> {
            &&& plan.input@ == input_names@[0]@
            &&& picked is Some && plan.output@ == picked->0@
            &&& plan.mask is Some <==> is_among(input_names@, "attention_mask"@)
            &&& plan.mask is Some ==> plan.mask->0@.len() == n_features
            &&& plan.mask is Some ==> forall|i: int| 0 <= i < n_features ==> #[trigger] plan.mask->0@[i] == 1
        },
{
    law_preferred_output_is_picked(outputs, picked);
    lemma_among(input_names@, "attention_mask"@);
}

/// A prediction is asked for the preferred output, and is the first number of it, or
/// 0 where it has none.
pub proof fn law_first_number_is_predicted(
    output_names: &Vec<String>,
    r: Result<String, ModelError>,
    picked: Option<&str>,
    outputs: &[String],
    data: &[u32],
    value: u32,
)
    requires
        call_ensures(plan_predict, (output_names,), r),
        outputs@ == output_names@,
        call_ensures(pick_output_name, (outputs,), picked),
        call_ensures(first_value, (data,), value),
    ensures
        r is Ok <==> output_names@.len() > 0,
        r matches Ok(name) ==> picked is Some && name@ == picked->0@,
        data@.len() > 0 ==> value == data@[0],
        data@.len() == 0 ==> value == 0,
{
    law_preferred_output_is_picked(outputs, picked);
}

} // verus!
