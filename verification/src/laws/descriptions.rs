//! What the descriptions of models say.

use vstd::prelude::*;
use crate::bits;
use crate::laws::reals;
use crate::model::clusters::{AgglomerativeModel, DbscanModel, FcmModel, KMeansModel, Linkage};
use crate::model::km::{KmMlModel, KmResult};
use crate::model::linear::{LassoCore, LassoModel, LinearModel, LogisticModel, PolyModel};
use crate::model::mlp::{MlpModel, MlpWeights};
use crate::model::onnx::onnx_metadata;
use crate::model::trained::{
    AdaBoostModel, ArimaMlModel, CoxMlModel, MultilogisticModel, OrdinalMlModel, StumpData, SvmModel, SvrModel,
    SvrSettings,
};
use crate::model::tree::{ForestModel, TreeModel};
use crate::model::tsne::TsneModel;
use crate::model::types;
use crate::model::types::{Algorithm, ModelMetadata};

verus! {

/// The description names the algorithm, the numbers of features, of samples and of
/// coefficients, and the two measures.
pub open spec fn tells(
    meta: ModelMetadata,
    algorithm: Algorithm,
    features: int,
    samples: int,
    r_squared: Option<u64>,
    mse: Option<u64>,
    coefficients: int,
) -> bool {
    &&& meta.algorithm == algorithm
    &&& meta.num_features == features
    &&& meta.num_samples == samples
    &&& meta.r_squared == r_squared
    &&& meta.mse == mse
    &&& meta.coefficients_count == coefficients
}

/// A line has a coefficient for each feature and the intercept; with a penalty above 0
/// it is a ridge.
pub proof fn law_linear_model_is_described<W: Fn(u64) -> String>(
    coefficients: Vec<u64>,
    num_samples: usize,
    r_squared: Option<u64>,
    mse: Option<u64>,
    lambda: u64,
    write: &W,
    r: LinearModel,
)
    requires
        call_ensures(LinearModel::new::<W>, (coefficients, num_samples, r_squared, mse, lambda, write), r),
        coefficients@.len() > 0,
    ensures
        r.coefficients == coefficients,
        r.lambda == lambda,
        tells(
            r.metadata,
            if reals::is_number(lambda) && reals::value(lambda) > 0 {
                Algorithm::RidgeRegression
            } else {
                Algorithm::LinearRegression
            },
            coefficients@.len() - 1,
            num_samples as int,
            r_squared,
            mse,
            coefficients@.len() as int,
        ),
{
    reals::law_constants_have_their_values();
    reals::law_order_is_of_values(bits::ZERO, lambda);
}

/// A logistic line has a coefficient for each feature and the intercept.
pub proof fn law_logistic_model_is_described<W: Fn(u64) -> String>(
    coefficients: Vec<u64>,
    num_samples: usize,
    accuracy: Option<u64>,
    write: &W,
    r: LogisticModel,
)
    requires
        call_ensures(LogisticModel::new::<W>, (coefficients, num_samples, accuracy, write), r),
        coefficients@.len() > 0,
    ensures
        r.coefficients == coefficients,
        tells(
            r.metadata,
            Algorithm::LogisticRegression,
            coefficients@.len() - 1,
            num_samples as int,
            None,
            None,
            coefficients@.len() as int,
        ),
{
}

/// A lasso keeps the last coefficient apart, as the intercept.
pub proof fn law_lasso_model_is_described<W: Fn(u64) -> String>(
    coefficients: Vec<u64>,
    num_samples: usize,
    r_squared: Option<u64>,
    mse: Option<u64>,
    lambda: u64,
    show: &W,
    r: LassoModel,
)
    requires
        call_ensures(LassoModel::new::<W>, (coefficients, num_samples, r_squared, mse, lambda, show), r),
        coefficients@.len() > 0,
    ensures
        r.inner.lambda == lambda,
        r.inner.coefficients@.push(r.inner.intercept) == coefficients@,
        tells(
            r.metadata,
            Algorithm::LassoRegression,
            coefficients@.len() - 1,
            num_samples as int,
            r_squared,
            mse,
            coefficients@.len() as int,
        ),
{
    assert(coefficients@.drop_last().push(coefficients@.last()) =~= coefficients@);
}

/// A lasso that was loaded has no samples and no measures.
pub proof fn law_loaded_lasso_model_is_described<W: Fn(u64) -> String>(
    core: LassoCore,
    show: &W,
    r: LassoModel,
)
    requires
        call_ensures(LassoModel::from_core::<W>, (core, show), r),
    ensures
        r.inner == core,
        tells(
            r.metadata,
            Algorithm::LassoRegression,
            core.coefficients@.len() as int,
            0,
            None,
            None,
            core.coefficients@.len() as int + 1,
        ),
{
}

/// A polynomial has a coefficient for each power of each feature and the intercept.
pub proof fn law_polynomial_is_described<W: Fn(u64) -> String>(
    coefficients: Vec<u64>,
    degree: usize,
    num_samples: usize,
    r_squared: Option<u64>,
    mse: Option<u64>,
    lambda: u64,
    write: &W,
    features: int,
    r: PolyModel,
)
    requires
        call_ensures(PolyModel::new::<W>, (coefficients, degree, num_samples, r_squared, mse, lambda, write), r),
        coefficients@.len() == features * degree + 1,
        features >= 0,
        degree > 0,
    ensures
        r.inner.coefficients == coefficients,
        r.inner.lambda == lambda,
        r.degree == degree,
        r.n_features == features,
        tells(
            r.metadata,
            Algorithm::PolynomialRegression,
            features,
            num_samples as int,
            r_squared,
            mse,
            coefficients@.len() as int,
        ),
{
    vstd::arithmetic::div_mod::lemma_div_multiples_vanish(features, degree as int);
    assert(features * degree == degree * features) by (nonlinear_arith);
}

/// A model of means tells the sum of its squared distances as its error.
pub proof fn law_means_are_described<W: Fn(u64) -> String>(
    centroids: Vec<Vec<u64>>,
    num_features: usize,
    num_samples: usize,
    k: usize,
    inertia: u64,
    iterations: usize,
    write: &W,
    r: KMeansModel,
)
    requires
        call_ensures(KMeansModel::new::<W>, (centroids, num_features, num_samples, k, inertia, iterations, write), r),
    ensures
        r.centroids == centroids,
        r.inertia == inertia,
        tells(r.metadata, Algorithm::KMeans, num_features as int, num_samples as int, None, Some(inertia), k as int),
{
}

/// A model of means that was loaded has no samples and no measures.
pub proof fn law_loaded_means_are_described(
    centroids: Vec<Vec<u64>>,
    k: usize,
    num_features: usize,
    r: KMeansModel,
)
    requires
        call_ensures(KMeansModel::restored, (centroids, k, num_features), r),
    ensures
        r.centroids == centroids,
        tells(r.metadata, Algorithm::KMeans, num_features as int, 0, None, None, k as int),
{
}

/// A fuzzy model tells its numbers.
pub proof fn law_fuzzy_means_are_described<W: Fn(u64) -> String>(
    centroids: Vec<Vec<u64>>,
    num_features: usize,
    num_samples: usize,
    k: usize,
    fuzziness: u64,
    iterations: usize,
    write: &W,
    r: FcmModel,
)
    requires
        call_ensures(FcmModel::new::<W>, (centroids, num_features, num_samples, k, fuzziness, iterations, write), r),
    ensures
        r.centroids == centroids,
        r.fuzziness == fuzziness,
        tells(r.metadata, Algorithm::FuzzyCMeans, num_features as int, num_samples as int, None, None, k as int),
{
}

/// A model by density tells the number of its clusters.
pub proof fn law_dense_clusters_are_described<W: Fn(u64) -> String>(
    clusters: Vec<Vec<u64>>,
    num_features: usize,
    num_samples: usize,
    eps: u64,
    noise_count: usize,
    write: &W,
    r: DbscanModel,
)
    requires
        call_ensures(DbscanModel::new::<W>, (clusters, num_features, num_samples, eps, noise_count, write), r),
    ensures
        r.clusters == clusters,
        r.eps == eps,
        tells(
            r.metadata,
            Algorithm::DBSCAN,
            num_features as int,
            num_samples as int,
            None,
            None,
            clusters@.len() as int,
        ),
{
}

/// A model by density that was loaded has no samples.
pub proof fn law_loaded_dense_clusters_are_described(
    clusters: Vec<Vec<u64>>,
    num_features: usize,
    eps: u64,
    r: DbscanModel,
)
    requires
        call_ensures(DbscanModel::restored, (clusters, num_features, eps), r),
    ensures
        r.clusters == clusters,
        r.eps == eps,
        tells(r.metadata, Algorithm::DBSCAN, num_features as int, 0, None, None, clusters@.len() as int),
{
}

/// An agglomerative model tells the number of its centers.
pub proof fn law_merged_clusters_are_described(
    centers: Vec<Vec<u64>>,
    n_features: usize,
    n_samples: usize,
    linkage: Linkage,
    r: AgglomerativeModel,
)
    requires
        call_ensures(AgglomerativeModel::new, (centers, n_features, n_samples, linkage), r),
    ensures
        r.centers == centers,
        linkage is Single ==> r.linkage@ == "single"@,
        linkage is Complete ==> r.linkage@ == "complete"@,
        linkage is Average ==> r.linkage@ == "average"@,
        tells(
            r.metadata,
            Algorithm::Agglomerative,
            n_features as int,
            n_samples as int,
            None,
            None,
            centers@.len() as int,
        ),
{
}

/// A survival curve tells its samples and its events.
pub proof fn law_curve_is_described(
    result: KmResult,
    r: KmMlModel,
)
    requires
        call_ensures(KmMlModel::new, (result,), r),
    ensures
        r.times == result.times,
        r.survival == result.survival,
        r.events == result.events,
        tells(r.metadata, Algorithm::KaplanMeier, 0, result.n as int, None, None, result.events as int),
{
}

/// A network has all its weights and biases as coefficients, and that of the output.
pub proof fn law_network_is_described(
    weights: MlpWeights,
    r_squared: Option<u64>,
    mse: Option<u64>,
    r: MlpModel,
)
    requires
        call_ensures(MlpModel::new, (weights, r_squared, mse), r),
    ensures
        r.inner == weights,
        tells(
            r.metadata,
            Algorithm::MlpRegressor,
            weights.input_size as int,
            0,
            r_squared,
            mse,
            (weights.w1@.len() * weights.w1@[0]@.len() + weights.b1@.len() + weights.w2@.len() + 1) as int,
        ),
{
}

/// A tree tells its numbers.
pub proof fn law_tree_is_described<T>(
    tree: T,
    num_features: usize,
    num_samples: usize,
    max_depth: usize,
    r: TreeModel<T>,
)
    requires
        call_ensures(TreeModel::<T>::new, (tree, num_features, num_samples, max_depth), r),
    ensures
        r.tree == tree,
        tells(r.metadata, Algorithm::DecisionTreeRegressor, num_features as int, num_samples as int, None, None, 0),
{
}

/// A forest tells the number of trees that was asked for.
pub proof fn law_forest_is_described<T>(
    trees: Vec<T>,
    num_features: usize,
    num_samples: usize,
    n_estimators: usize,
    max_depth: usize,
    r: ForestModel<T>,
)
    requires
        call_ensures(ForestModel::<T>::new, (trees, num_features, num_samples, n_estimators, max_depth), r),
    ensures
        r.trees == trees,
        tells(
            r.metadata,
            Algorithm::RandomForestRegressor,
            num_features as int,
            num_samples as int,
            None,
            None,
            n_estimators as int,
        ),
{
}

/// Boosted stumps tell their number.
pub proof fn law_stumps_are_described(
    stumps: Vec<StumpData>,
    alphas: Vec<u64>,
    classes: Vec<u64>,
    num_features: usize,
    num_samples: usize,
    r: AdaBoostModel,
)
    requires
        call_ensures(AdaBoostModel::new, (stumps, alphas, classes, num_features, num_samples), r),
    ensures
        r.stumps == stumps,
        r.alphas == alphas,
        r.classes == classes,
        tells(
            r.metadata,
            Algorithm::AdaBoost,
            num_features as int,
            num_samples as int,
            None,
            None,
            stumps@.len() as int,
        ),
{
}

/// A model of a series has one feature, the horizon.
pub proof fn law_series_is_described<D>(
    model: D,
    p: usize,
    d: usize,
    q: usize,
    terms: usize,
    intercept: &str,
    r: ArimaMlModel<D>,
)
    requires
        call_ensures(ArimaMlModel::<D>::new, (model, p, d, q, terms, intercept), r),
    ensures
        r.model == model,
        tells(r.metadata, Algorithm::Arima, 1, 0, None, None, terms as int),
{
}

/// A model of hazards tells its features and its weights.
pub proof fn law_hazards_are_described<D>(
    model: D,
    n_features: usize,
    n_weights: usize,
    r: CoxMlModel<D>,
)
    requires
        call_ensures(CoxMlModel::<D>::new, (model, n_features, n_weights), r),
    ensures
        r.model == model,
        tells(r.metadata, Algorithm::CoxProportionalHazards, n_features as int, 0, None, None, n_weights as int),
{
}

/// A model of ordered classes has its weights and its thresholds as coefficients.
pub proof fn law_ordered_classes_are_described<D, S: Fn(u64) -> String>(
    model: D,
    n_features: usize,
    n_weights: usize,
    n_thresholds: usize,
    classes: &Vec<u64>,
    show: &S,
    r: OrdinalMlModel<D>,
)
    requires
        call_ensures(OrdinalMlModel::<D>::new::<S>, (model, n_features, n_weights, n_thresholds, classes, show), r),
    ensures
        r.model == model,
        tells(
            r.metadata,
            Algorithm::OrdinalLogisticRegression,
            n_features as int,
            0,
            None,
            None,
            n_weights + n_thresholds,
        ),
{
}

/// A model of many classes has weights for each feature and a bias in each of its lines.
pub proof fn law_many_classes_are_described<D, S: Fn(u64) -> String>(
    model: D,
    n_features: usize,
    n_weights: usize,
    classes: &Vec<u64>,
    show: &S,
    r: MultilogisticModel<D>,
)
    requires
        call_ensures(MultilogisticModel::<D>::new::<S>, (model, n_features, n_weights, classes, show), r),
    ensures
        r.model == model,
        tells(
            r.metadata,
            Algorithm::MultinomialLogisticRegression,
            n_features as int,
            0,
            None,
            None,
            n_weights * (n_features + 1),
        ),
{
    assert(n_weights * (n_features + 1) >= 0) by (nonlinear_arith);
}

/// A classifying vector machine tells its support vectors, and its offset as its error.
pub proof fn law_vectors_are_described<D>(
    blob: D,
    linear: bool,
    n_features: usize,
    n_support: usize,
    rho: u64,
    r: SvmModel<D>,
)
    requires
        call_ensures(SvmModel::<D>::from_blob, (blob, linear, n_features, n_support, rho), r),
    ensures
        r.blob == blob,
        tells(r.metadata, Algorithm::SVM, n_features as int, 0, None, Some(rho), n_support as int),
{
}

/// A vector machine for numbers tells its support vectors and its measures.
pub proof fn law_regressing_vectors_are_described<D, W: Fn(u64) -> String>(
    data: D,
    n_features: usize,
    n_support: usize,
    r_squared: Option<u64>,
    mse: Option<u64>,
    settings: &SvrSettings,
    num_samples: usize,
    write: &W,
    r: SvrModel<D>,
)
    requires
        call_ensures(
            SvrModel::<D>::new::<W>,
            (data, n_features, n_support, r_squared, mse, settings, num_samples, write),
            r,
        ),
    ensures
        r.data == data,
        tells(r.metadata, Algorithm::SVR, n_features as int, num_samples as int, r_squared, mse, n_support as int),
{
}

/// A map has two coordinates.
pub proof fn law_map_is_described<W: Fn(u64) -> String>(
    embedding: Vec<(u64, u64)>,
    x: Vec<Vec<u64>>,
    kl: u64,
    n_features: usize,
    n_samples: usize,
    write: &W,
    r: TsneModel,
)
    requires
        call_ensures(TsneModel::new::<W>, (embedding, x, kl, n_features, n_samples, write), r),
    ensures
        r.embedding == embedding,
        r.x == x,
        tells(r.metadata, Algorithm::TSNE, n_features as int, n_samples as int, None, None, 2),
{
}

/// A loaded graph tells its features only.
pub proof fn law_graph_is_described(
    file_path: &str,
    num_features: usize,
    r: ModelMetadata,
)
    requires
        call_ensures(onnx_metadata, (file_path, num_features), r),
    ensures
        tells(r, Algorithm::Onnx, num_features as int, 0, None, None, 0),
{
}

/// Each algorithm is known by its name.
pub proof fn law_algorithms_have_their_names(
    a: &Algorithm,
    r: String,
)
    requires
        call_ensures(Algorithm::name, (a,), r),
    ensures
        *a is LinearRegression ==> r@ == "linear_regression"@,
        *a is RidgeRegression ==> r@ == "ridge_regression"@,
        *a is ElasticNetRegression ==> r@ == "elastic_net"@,
        *a is LogisticRegression ==> r@ == "logistic_regression"@,
        *a is MultinomialLogisticRegression ==> r@ == "multilogistic"@,
        *a is OrdinalLogisticRegression ==> r@ == "ordinal"@,
        *a is RobustRegression ==> r@ == "robust"@,
        *a is CoxProportionalHazards ==> r@ == "cox"@,
        *a is Arima ==> r@ == "arima"@,
        *a is Onnx ==> r@ == "onnx"@,
        *a is DecisionTreeRegressor ==> r@ == "decision_tree"@,
        *a is RandomForestRegressor ==> r@ == "random_forest"@,
        *a is RandomForestClassifier ==> r@ == "rf_classifier"@,
        *a is KMeans ==> r@ == "kmeans"@,
        *a is XGBoostRegressor ==> r@ == "xgboost_regressor"@,
        *a is XGBoostClassifier ==> r@ == "xgboost_classifier"@,
        *a is XGBoostRegression ==> r@ == "xgboost_regression"@,
        *a is XGBoostBinary ==> r@ == "xgboost_binary"@,
        *a is KNNRegressor ==> r@ == "knn_regressor"@,
        *a is KNNClassifier ==> r@ == "knn_classifier"@,
        *a is NaiveBayes ==> r@ == "naive_bayes"@,
        *a is PCA ==> r@ == "pca"@,
        *a is LassoRegression ==> r@ == "lasso_regression"@,
        *a is MlpRegressor ==> r@ == "mlp_regressor"@,
        *a is DBSCAN ==> r@ == "dbscan"@,
        *a is SVM ==> r@ == "svm"@,
        *a is SVR ==> r@ == "svr"@,
        *a is LDA ==> r@ == "lda"@,
        *a is PolynomialRegression ==> r@ == "polynomial_regression"@,
        *a is FuzzyCMeans ==> r@ == "fuzzy_cmeans"@,
        *a is AdaBoost ==> r@ == "adaboost"@,
        *a is KaplanMeier ==> r@ == "kaplan_meier"@,
        *a is Agglomerative ==> r@ == "agglomerative"@,
        *a is TSNE ==> r@ == "tsne"@,
{
}

/// A name is read as the algorithm that has it, and any other text as none.
pub proof fn law_names_are_read(s: &str, r: Option<Algorithm>, a: &Algorithm, name: String)
    requires
        call_ensures(Algorithm::parse_algorithm, (s,), r),
        call_ensures(Algorithm::name, (a,), name),
    ensures
        s@ == name@ ==> r == Some(*a),
        r == Some(*a) ==> s@ == name@,
{
    if s@ == name@ {
        assert(types::name_of(*a) == s@);
        assert(r is Some);
        types::law_names_are_distinct(r->0, *a);
    }
}

} // verus!
