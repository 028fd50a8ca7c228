//! What models tell of how they were trained.

use vstd::prelude::*;
use crate::json;
use crate::laws::writing;
use crate::model::clusters::{AgglomerativeModel, DbscanModel, FcmModel, KMeansModel, Linkage};
use crate::model::km::{KmMlModel, KmResult};
use crate::model::linear::{LassoModel, LinearModel, LogisticModel, PolyModel};
use crate::model::mlp::{MlpModel, MlpWeights};
use crate::model::onnx::onnx_metadata;
use crate::model::trained::{AdaBoostModel, ArimaMlModel, StumpData, SvmModel, SvrModel, SvrSettings};
use crate::model::tree::{ForestModel, TreeModel};
use crate::model::tsne::TsneModel;
use crate::model::types::ModelMetadata;
use crate::text;

verus! {

/// A line tells its penalty.
pub proof fn law_line_tells_its_penalty<W: Fn(u64) -> String>(
    coefficients: Vec<u64>,
    num_samples: usize,
    r_squared: Option<u64>,
    mse: Option<u64>,
    lambda: u64,
    write: &W,
    r: LinearModel,
    w: spec_fn(u64) -> Seq<char>,
)
    requires
        call_ensures(
            LinearModel::new::<W>,
            (coefficients, num_samples, r_squared, mse, lambda, write),
            r,
        ),
        writing::is_writing(*write, w),
    ensures
        r.metadata.hyperparameters_json@ == "{\""@
            + "lambda"@
            + "\":"@
            + w(lambda)
            + "}"@,
{
}

/// A logistic line tells its accuracy.
pub proof fn law_logistic_line_tells_its_accuracy<W: Fn(u64) -> String>(
    coefficients: Vec<u64>,
    num_samples: usize,
    x: u64,
    write: &W,
    r: LogisticModel,
    w: spec_fn(u64) -> Seq<char>,
)
    requires
        call_ensures(
            LogisticModel::new::<W>,
            (coefficients, num_samples, Some(x), write),
            r,
        ),
        writing::is_writing(*write, w),
    ensures
        r.metadata.hyperparameters_json@ == "{\""@
            + "accuracy"@
            + "\":"@
            + w(x)
            + "}"@,
{
}

/// A lasso tells its penalty.
pub proof fn law_lasso_tells_its_penalty<W: Fn(u64) -> String>(
    coefficients: Vec<u64>,
    num_samples: usize,
    r_squared: Option<u64>,
    mse: Option<u64>,
    lambda: u64,
    show: &W,
    r: LassoModel,
    w: spec_fn(u64) -> Seq<char>,
)
    requires
        call_ensures(
            LassoModel::new::<W>,
            (coefficients, num_samples, r_squared, mse, lambda, show),
            r,
        ),
        writing::is_writing(*show, w),
    ensures
        r.metadata.hyperparameters_json@ == "{\""@
            + "lambda"@
            + "\":"@
            + w(lambda)
            + "}"@,
{
}

/// A polynomial tells its degree and its penalty.
pub proof fn law_polynomial_tells_its_degree<W: Fn(u64) -> String>(
    coefficients: Vec<u64>,
    degree: usize,
    num_samples: usize,
    r_squared: Option<u64>,
    mse: Option<u64>,
    lambda: u64,
    write: &W,
    r: PolyModel,
    w: spec_fn(u64) -> Seq<char>,
)
    requires
        call_ensures(
            PolyModel::new::<W>,
            (coefficients, degree, num_samples, r_squared, mse, lambda, write),
            r,
        ),
        writing::is_writing(*write, w),
    ensures
        r.metadata.hyperparameters_json@ == "{\"degree\":"@
            + text::decimal(degree as nat)
            + ",\"feature_order\":\"per-feature powers x^1..x^degree\",\"lambda\":"@
            + w(lambda)
            + "}"@,
{
}

/// A model of means tells its inertia, its iterations and its number of means.
pub proof fn law_means_tell_their_iterations<W: Fn(u64) -> String>(
    centroids: Vec<Vec<u64>>,
    num_features: usize,
    num_samples: usize,
    k: usize,
    inertia: u64,
    iterations: usize,
    write: &W,
    r: KMeansModel,
    w: spec_fn(u64) -> Seq<char>,
)
    requires
        call_ensures(
            KMeansModel::new::<W>,
            (centroids, num_features, num_samples, k, inertia, iterations, write),
            r,
        ),
        writing::is_writing(*write, w),
    ensures
        r.metadata.hyperparameters_json@ == "{\"inertia\":"@
            + w(inertia)
            + ",\"iterations\":"@
            + text::decimal(iterations as nat)
            + ",\"k\":"@
            + text::decimal(k as nat)
            + "}"@,
{
}

/// A fuzzy model tells its fuzziness, its iterations and its number of means.
pub proof fn law_fuzzy_means_tell_their_fuzziness<W: Fn(u64) -> String>(
    centroids: Vec<Vec<u64>>,
    num_features: usize,
    num_samples: usize,
    k: usize,
    fuzziness: u64,
    iterations: usize,
    write: &W,
    r: FcmModel,
    w: spec_fn(u64) -> Seq<char>,
)
    requires
        call_ensures(
            FcmModel::new::<W>,
            (centroids, num_features, num_samples, k, fuzziness, iterations, write),
            r,
        ),
        writing::is_writing(*write, w),
    ensures
        r.metadata.hyperparameters_json@ == "{\"fuzziness\":"@
            + w(fuzziness)
            + ",\"iterations\":"@
            + text::decimal(iterations as nat)
            + ",\"k\":"@
            + text::decimal(k as nat)
            + "}"@,
{
}

/// A model by density tells its clusters, its radius and its noise.
pub proof fn law_dense_clusters_tell_their_noise<W: Fn(u64) -> String>(
    clusters: Vec<Vec<u64>>,
    num_features: usize,
    num_samples: usize,
    eps: u64,
    noise_count: usize,
    write: &W,
    r: DbscanModel,
    w: spec_fn(u64) -> Seq<char>,
)
    requires
        call_ensures(
            DbscanModel::new::<W>,
            (clusters, num_features, num_samples, eps, noise_count, write),
            r,
        ),
        writing::is_writing(*write, w),
    ensures
        r.metadata.hyperparameters_json@ == "{\"clusters\":"@
            + text::decimal(clusters@.len())
            + ",\"eps\":"@
            + w(eps)
            + ",\"noise\":"@
            + text::decimal(noise_count as nat)
            + "}"@,
{
}

/// A survival curve tells the censored samples, its points and its events.
pub proof fn law_curve_tells_its_events(
    result: KmResult,
    r: KmMlModel,
)
    requires
        call_ensures(
            KmMlModel::new,
            (result,),
            r,
        ),
    ensures
        r.metadata.hyperparameters_json@ == "{\"censored\":"@
            + text::decimal((result.n - result.events) as nat)
            + ",\"curve_points\":"@
            + text::decimal(result.times@.len())
            + ",\"events\":"@
            + text::decimal(result.events as nat)
            + "}"@,
{
}

/// A network tells its hidden neurons.
pub proof fn law_network_tells_its_size(
    weights: MlpWeights,
    r_squared: Option<u64>,
    mse: Option<u64>,
    r: MlpModel,
)
    requires
        call_ensures(
            MlpModel::new,
            (weights, r_squared, mse),
            r,
        ),
    ensures
        r.metadata.hyperparameters_json@ == "{\"hidden_size\":"@
            + text::decimal(weights.hidden_size as nat)
            + ",\"iterations\":0}"@,
{
}

/// A tree tells its depth.
pub proof fn law_tree_tells_its_depth<T>(
    tree: T,
    num_features: usize,
    num_samples: usize,
    max_depth: usize,
    r: TreeModel<T>,
)
    requires
        call_ensures(
            TreeModel::<T>::new,
            (tree, num_features, num_samples, max_depth),
            r,
        ),
    ensures
        r.metadata.hyperparameters_json@ == "{\"max_depth\":"@
            + text::decimal(max_depth as nat)
            + "}"@,
{
}

/// A forest tells its depth and its trees.
pub proof fn law_forest_tells_its_depth<T>(
    trees: Vec<T>,
    num_features: usize,
    num_samples: usize,
    n_estimators: usize,
    max_depth: usize,
    r: ForestModel<T>,
)
    requires
        call_ensures(
            ForestModel::<T>::new,
            (trees, num_features, num_samples, n_estimators, max_depth),
            r,
        ),
    ensures
        r.metadata.hyperparameters_json@ == "{\"max_depth\":"@
            + text::decimal(max_depth as nat)
            + ",\"n_estimators\":"@
            + text::decimal(n_estimators as nat)
            + "}"@,
{
}

/// Boosted stumps tell their number.
pub proof fn law_stumps_tell_their_number(
    stumps: Vec<StumpData>,
    alphas: Vec<u64>,
    classes: Vec<u64>,
    num_features: usize,
    num_samples: usize,
    r: AdaBoostModel,
)
    requires
        call_ensures(
            AdaBoostModel::new,
            (stumps, alphas, classes, num_features, num_samples),
            r,
        ),
    ensures
        r.metadata.hyperparameters_json@ == "{\"base\":\"decision_stump\",\"n_estimators\":"@
            + text::decimal(stumps@.len())
            + "}"@,
{
}

/// A model of a series tells its order and its intercept.
pub proof fn law_series_tells_its_order<D>(
    model: D,
    p: usize,
    d: usize,
    q: usize,
    terms: usize,
    intercept: &str,
    r: ArimaMlModel<D>,
)
    requires
        call_ensures(
            ArimaMlModel::<D>::new,
            (model, p, d, q, terms, intercept),
            r,
        ),
    ensures
        r.metadata.hyperparameters_json@ == "p="@
            + text::decimal(p as nat)
            + ",d="@
            + text::decimal(d as nat)
            + ",q="@
            + text::decimal(q as nat)
            + ",intercept="@
            + intercept@,
{
}

/// A map tells its divergence.
pub proof fn law_map_tells_its_divergence<W: Fn(u64) -> String>(
    embedding: Vec<(u64, u64)>,
    x: Vec<Vec<u64>>,
    kl: u64,
    n_features: usize,
    n_samples: usize,
    write: &W,
    r: TsneModel,
    w: spec_fn(u64) -> Seq<char>,
)
    requires
        call_ensures(
            TsneModel::new::<W>,
            (embedding, x, kl, n_features, n_samples, write),
            r,
        ),
        writing::is_writing(*write, w),
    ensures
        r.metadata.hyperparameters_json@ == "{\"components\":2,\"kl_divergence\":"@
            + w(kl)
            + "}"@,
{
}

/// A classifying vector machine tells its kernel and its support vectors.
pub proof fn law_vectors_tell_their_kernel<D>(
    blob: D,
    linear: bool,
    n_features: usize,
    n_support: usize,
    rho: u64,
    r: SvmModel<D>,
)
    requires
        call_ensures(
            SvmModel::<D>::from_blob,
            (blob, linear, n_features, n_support, rho),
            r,
        ),
    ensures
        r.metadata.hyperparameters_json@ == "kernel="@
            + (if linear {
                "linear"@
            } else {
                "gaussian"@
            })
            + ", support_vectors="@
            + text::decimal(n_support as nat),
{
}

/// A vector machine for numbers tells its settings.
pub proof fn law_regressing_vectors_tell_their_settings<D, W: Fn(u64) -> String>(
    data: D,
    n_features: usize,
    n_support: usize,
    r_squared: Option<u64>,
    mse: Option<u64>,
    settings: &SvrSettings,
    num_samples: usize,
    write: &W,
    r: SvrModel<D>,
    w: spec_fn(u64) -> Seq<char>,
)
    requires
        call_ensures(
            SvrModel::<D>::new::<W>,
            (data, n_features, n_support, r_squared, mse, settings, num_samples, write),
            r,
        ),
        writing::is_writing(*write, w),
    ensures
        r.metadata.hyperparameters_json@ == "{\"c\":"@
            + w(settings.c)
            + ",\"coef0\":"@
            + w(settings.coef0)
            + ",\"degree\":"@
            + text::decimal(settings.degree as nat)
            + ",\"epsilon\":"@
            + w(settings.epsilon)
            + ",\"gamma\":"@
            + w(settings.gamma)
            + ",\"kernel\":"@
            + json::json_quoted(settings.kernel@)
            + "}"@,
{
}

/// A loaded graph tells its file.
pub proof fn law_graph_tells_its_file(
    file_path: &str,
    num_features: usize,
    r: ModelMetadata,
)
    requires
        call_ensures(
            onnx_metadata,
            (file_path, num_features),
            r,
        ),
    ensures
        r.hyperparameters_json@ == "{\"file_path\":"@
            + json::json_quoted(file_path@)
            + "}"@,
{
}

/// An agglomerative model tells its linkage and its clusters.
pub proof fn law_merged_clusters_tell_their_linkage(
    centers: Vec<Vec<u64>>,
    n_features: usize,
    n_samples: usize,
    linkage: Linkage,
    r: AgglomerativeModel,
)
    requires
        call_ensures(AgglomerativeModel::new, (centers, n_features, n_samples, linkage), r),
    ensures
        r.metadata.hyperparameters_json@ == "{\"linkage\":\""@ + (match linkage {
            Linkage::Single => "single"@,
            Linkage::Complete => "complete"@,
            Linkage::Average => "average"@,
        }) + "\",\"n_clusters\":"@ + text::decimal(centers@.len()) + "}"@,
{
}

} // verus!
