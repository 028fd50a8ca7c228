//! Algorithms, model metadata and errors.

use vstd::prelude::*;
use crate::text;
use crate::text::{push_decimal, text_eq};

verus! {

/// Supported ML algorithms
#[derive(Debug, Clone, Copy, PartialEq, Eq, Structural)]
pub enum Algorithm {
    LinearRegression,
    RidgeRegression,
    ElasticNetRegression,
    LogisticRegression,
    MultinomialLogisticRegression,
    OrdinalLogisticRegression,
    RobustRegression,
    CoxProportionalHazards,
    Arima,
    Onnx,
    DecisionTreeRegressor,
    RandomForestRegressor,
    RandomForestClassifier,
    KMeans,
    XGBoostRegressor,
    XGBoostClassifier,
    XGBoostRegression,
    XGBoostBinary,
    KNNRegressor,
    KNNClassifier,
    NaiveBayes,
    PCA,
    LassoRegression,
    MlpRegressor,
    DBSCAN,
    SVM,
    SVR,
    LDA,
    PolynomialRegression,
    FuzzyCMeans,
    AdaBoost,
    KaplanMeier,
    Agglomerative,
    TSNE,
}

/// The name by which SQL knows an algorithm.
pub open spec fn name_of(a: Algorithm) -> Seq<char> {
    match a {
        Algorithm::LinearRegression => "linear_regression"@,
        Algorithm::RidgeRegression => "ridge_regression"@,
        Algorithm::ElasticNetRegression => "elastic_net"@,
        Algorithm::LogisticRegression => "logistic_regression"@,
        Algorithm::MultinomialLogisticRegression => "multilogistic"@,
        Algorithm::OrdinalLogisticRegression => "ordinal"@,
        Algorithm::RobustRegression => "robust"@,
        Algorithm::CoxProportionalHazards => "cox"@,
        Algorithm::Arima => "arima"@,
        Algorithm::Onnx => "onnx"@,
        Algorithm::DecisionTreeRegressor => "decision_tree"@,
        Algorithm::RandomForestRegressor => "random_forest"@,
        Algorithm::RandomForestClassifier => "rf_classifier"@,
        Algorithm::KMeans => "kmeans"@,
        Algorithm::XGBoostRegressor => "xgboost_regressor"@,
        Algorithm::XGBoostClassifier => "xgboost_classifier"@,
        Algorithm::XGBoostRegression => "xgboost_regression"@,
        Algorithm::XGBoostBinary => "xgboost_binary"@,
        Algorithm::KNNRegressor => "knn_regressor"@,
        Algorithm::KNNClassifier => "knn_classifier"@,
        Algorithm::NaiveBayes => "naive_bayes"@,
        Algorithm::PCA => "pca"@,
        Algorithm::LassoRegression => "lasso_regression"@,
        Algorithm::MlpRegressor => "mlp_regressor"@,
        Algorithm::DBSCAN => "dbscan"@,
        Algorithm::SVM => "svm"@,
        Algorithm::SVR => "svr"@,
        Algorithm::LDA => "lda"@,
        Algorithm::PolynomialRegression => "polynomial_regression"@,
        Algorithm::FuzzyCMeans => "fuzzy_cmeans"@,
        Algorithm::AdaBoost => "adaboost"@,
        Algorithm::KaplanMeier => "kaplan_meier"@,
        Algorithm::Agglomerative => "agglomerative"@,
        Algorithm::TSNE => "tsne"@,
    }
}

/// The algorithm of a name.
pub open spec fn algorithm_of(name: Seq<char>) -> Option<Algorithm> {
    if exists|a: Algorithm| #[trigger] name_of(a) == name {
        Some(choose|a: Algorithm| #[trigger] name_of(a) == name)
    } else {
        None
    }
}

impl Algorithm {
    /// The name by which SQL knows the algorithm.
    pub fn name(&self) -> (r: String)
        ensures
            r@ == name_of(*self),
    {
        match self {
            Algorithm::LinearRegression => "linear_regression".to_owned(),
            Algorithm::RidgeRegression => "ridge_regression".to_owned(),
            Algorithm::ElasticNetRegression => "elastic_net".to_owned(),
            Algorithm::LogisticRegression => "logistic_regression".to_owned(),
            Algorithm::MultinomialLogisticRegression => "multilogistic".to_owned(),
            Algorithm::OrdinalLogisticRegression => "ordinal".to_owned(),
            Algorithm::RobustRegression => "robust".to_owned(),
            Algorithm::CoxProportionalHazards => "cox".to_owned(),
            Algorithm::Arima => "arima".to_owned(),
            Algorithm::Onnx => "onnx".to_owned(),
            Algorithm::DecisionTreeRegressor => "decision_tree".to_owned(),
            Algorithm::RandomForestRegressor => "random_forest".to_owned(),
            Algorithm::RandomForestClassifier => "rf_classifier".to_owned(),
            Algorithm::KMeans => "kmeans".to_owned(),
            Algorithm::XGBoostRegressor => "xgboost_regressor".to_owned(),
            Algorithm::XGBoostClassifier => "xgboost_classifier".to_owned(),
            Algorithm::XGBoostRegression => "xgboost_regression".to_owned(),
            Algorithm::XGBoostBinary => "xgboost_binary".to_owned(),
            Algorithm::KNNRegressor => "knn_regressor".to_owned(),
            Algorithm::KNNClassifier => "knn_classifier".to_owned(),
            Algorithm::NaiveBayes => "naive_bayes".to_owned(),
            Algorithm::PCA => "pca".to_owned(),
            Algorithm::LassoRegression => "lasso_regression".to_owned(),
            Algorithm::MlpRegressor => "mlp_regressor".to_owned(),
            Algorithm::DBSCAN => "dbscan".to_owned(),
            Algorithm::SVM => "svm".to_owned(),
            Algorithm::SVR => "svr".to_owned(),
            Algorithm::LDA => "lda".to_owned(),
            Algorithm::PolynomialRegression => "polynomial_regression".to_owned(),
            Algorithm::FuzzyCMeans => "fuzzy_cmeans".to_owned(),
            Algorithm::AdaBoost => "adaboost".to_owned(),
            Algorithm::KaplanMeier => "kaplan_meier".to_owned(),
            Algorithm::Agglomerative => "agglomerative".to_owned(),
            Algorithm::TSNE => "tsne".to_owned(),
        }
    }

    /// The algorithm of a name; `None` where no algorithm has that name.
    pub fn parse_algorithm(s: &str) -> (r: Option<Self>)
        ensures
            r == algorithm_of(s@),
            match r {
                Some(a) => name_of(a) == s@,
                None => forall|a: Algorithm| #![trigger name_of(a)] name_of(a) != s@,
            },
    {
        let r: Option<Self> = Self::find_algorithm(s);
        proof {
            if let Some(a) = r {
                assert(name_of(a) == s@);
                law_names_are_distinct(a, algorithm_of(s@)->0);
            }
        }
        r
    }

    fn find_algorithm(s: &str) -> (r: Option<Self>)
        ensures
            match r {
                Some(a) => name_of(a) == s@,
                None => forall|a: Algorithm| #[trigger] name_of(a) != s@,
            },
    {
        if text_eq(s, "linear_regression") {
            Some(Algorithm::LinearRegression)
        } else if text_eq(s, "ridge_regression") {
            Some(Algorithm::RidgeRegression)
        } else if text_eq(s, "elastic_net") {
            Some(Algorithm::ElasticNetRegression)
        } else if text_eq(s, "logistic_regression") {
            Some(Algorithm::LogisticRegression)
        } else if text_eq(s, "multilogistic") {
            Some(Algorithm::MultinomialLogisticRegression)
        } else if text_eq(s, "ordinal") {
            Some(Algorithm::OrdinalLogisticRegression)
        } else if text_eq(s, "robust") {
            Some(Algorithm::RobustRegression)
        } else if text_eq(s, "cox") {
            Some(Algorithm::CoxProportionalHazards)
        } else if text_eq(s, "arima") {
            Some(Algorithm::Arima)
        } else if text_eq(s, "onnx") {
            Some(Algorithm::Onnx)
        } else if text_eq(s, "decision_tree") {
            Some(Algorithm::DecisionTreeRegressor)
        } else if text_eq(s, "random_forest") {
            Some(Algorithm::RandomForestRegressor)
        } else if text_eq(s, "rf_classifier") {
            Some(Algorithm::RandomForestClassifier)
        } else if text_eq(s, "kmeans") {
            Some(Algorithm::KMeans)
        } else if text_eq(s, "xgboost_regressor") {
            Some(Algorithm::XGBoostRegressor)
        } else if text_eq(s, "xgboost_classifier") {
            Some(Algorithm::XGBoostClassifier)
        } else if text_eq(s, "xgboost_regression") {
            Some(Algorithm::XGBoostRegression)
        } else if text_eq(s, "xgboost_binary") {
            Some(Algorithm::XGBoostBinary)
        } else if text_eq(s, "knn_regressor") {
            Some(Algorithm::KNNRegressor)
        } else if text_eq(s, "knn_classifier") {
            Some(Algorithm::KNNClassifier)
        } else if text_eq(s, "naive_bayes") {
            Some(Algorithm::NaiveBayes)
        } else if text_eq(s, "pca") {
            Some(Algorithm::PCA)
        } else if text_eq(s, "lasso_regression") {
            Some(Algorithm::LassoRegression)
        } else if text_eq(s, "mlp_regressor") {
            Some(Algorithm::MlpRegressor)
        } else if text_eq(s, "dbscan") {
            Some(Algorithm::DBSCAN)
        } else if text_eq(s, "svm") {
            Some(Algorithm::SVM)
        } else if text_eq(s, "svr") {
            Some(Algorithm::SVR)
        } else if text_eq(s, "lda") {
            Some(Algorithm::LDA)
        } else if text_eq(s, "polynomial_regression") {
            Some(Algorithm::PolynomialRegression)
        } else if text_eq(s, "fuzzy_cmeans") {
            Some(Algorithm::FuzzyCMeans)
        } else if text_eq(s, "adaboost") {
            Some(Algorithm::AdaBoost)
        } else if text_eq(s, "kaplan_meier") {
            Some(Algorithm::KaplanMeier)
        } else if text_eq(s, "agglomerative") {
            Some(Algorithm::Agglomerative)
        } else if text_eq(s, "tsne") {
            Some(Algorithm::TSNE)
        } else {
            None
        }
    }
}

/// Length, first and last character of the name of an algorithm.
spec fn mark_of(a: Algorithm) -> (nat, char, char) {
    match a {
        Algorithm::LinearRegression => (17, 'l', 'n'),
        Algorithm::RidgeRegression => (16, 'r', 'n'),
        Algorithm::ElasticNetRegression => (11, 'e', 't'),
        Algorithm::LogisticRegression => (19, 'l', 'n'),
        Algorithm::MultinomialLogisticRegression => (13, 'm', 'c'),
        Algorithm::OrdinalLogisticRegression => (7, 'o', 'l'),
        Algorithm::RobustRegression => (6, 'r', 't'),
        Algorithm::CoxProportionalHazards => (3, 'c', 'x'),
        Algorithm::Arima => (5, 'a', 'a'),
        Algorithm::Onnx => (4, 'o', 'x'),
        Algorithm::DecisionTreeRegressor => (13, 'd', 'e'),
        Algorithm::RandomForestRegressor => (13, 'r', 't'),
        Algorithm::RandomForestClassifier => (13, 'r', 'r'),
        Algorithm::KMeans => (6, 'k', 's'),
        Algorithm::XGBoostRegressor => (17, 'x', 'r'),
        Algorithm::XGBoostClassifier => (18, 'x', 'r'),
        Algorithm::XGBoostRegression => (18, 'x', 'n'),
        Algorithm::XGBoostBinary => (14, 'x', 'y'),
        Algorithm::KNNRegressor => (13, 'k', 'r'),
        Algorithm::KNNClassifier => (14, 'k', 'r'),
        Algorithm::NaiveBayes => (11, 'n', 's'),
        Algorithm::PCA => (3, 'p', 'a'),
        Algorithm::LassoRegression => (16, 'l', 'n'),
        Algorithm::MlpRegressor => (13, 'm', 'r'),
        Algorithm::DBSCAN => (6, 'd', 'n'),
        Algorithm::SVM => (3, 's', 'm'),
        Algorithm::SVR => (3, 's', 'r'),
        Algorithm::LDA => (3, 'l', 'a'),
        Algorithm::PolynomialRegression => (21, 'p', 'n'),
        Algorithm::FuzzyCMeans => (12, 'f', 's'),
        Algorithm::AdaBoost => (8, 'a', 't'),
        Algorithm::KaplanMeier => (12, 'k', 'r'),
        Algorithm::Agglomerative => (13, 'a', 'e'),
        Algorithm::TSNE => (4, 't', 'e'),
    }
}

proof fn lemma_mark(a: Algorithm)
    ensures
        mark_of(a) == (name_of(a).len(), name_of(a)[0], name_of(a)[name_of(a).len() - 1]),
{
    match a {
        Algorithm::LinearRegression => {
            reveal_strlit("linear_regression");
        },
        Algorithm::RidgeRegression => {
            reveal_strlit("ridge_regression");
        },
        Algorithm::ElasticNetRegression => {
            reveal_strlit("elastic_net");
        },
        Algorithm::LogisticRegression => {
            reveal_strlit("logistic_regression");
        },
        Algorithm::MultinomialLogisticRegression => {
            reveal_strlit("multilogistic");
        },
        Algorithm::OrdinalLogisticRegression => {
            reveal_strlit("ordinal");
        },
        Algorithm::RobustRegression => {
            reveal_strlit("robust");
        },
        Algorithm::CoxProportionalHazards => {
            reveal_strlit("cox");
        },
        Algorithm::Arima => {
            reveal_strlit("arima");
        },
        Algorithm::Onnx => {
            reveal_strlit("onnx");
        },
        Algorithm::DecisionTreeRegressor => {
            reveal_strlit("decision_tree");
        },
        Algorithm::RandomForestRegressor => {
            reveal_strlit("random_forest");
        },
        Algorithm::RandomForestClassifier => {
            reveal_strlit("rf_classifier");
        },
        Algorithm::KMeans => {
            reveal_strlit("kmeans");
        },
        Algorithm::XGBoostRegressor => {
            reveal_strlit("xgboost_regressor");
        },
        Algorithm::XGBoostClassifier => {
            reveal_strlit("xgboost_classifier");
        },
        Algorithm::XGBoostRegression => {
            reveal_strlit("xgboost_regression");
        },
        Algorithm::XGBoostBinary => {
            reveal_strlit("xgboost_binary");
        },
        Algorithm::KNNRegressor => {
            reveal_strlit("knn_regressor");
        },
        Algorithm::KNNClassifier => {
            reveal_strlit("knn_classifier");
        },
        Algorithm::NaiveBayes => {
            reveal_strlit("naive_bayes");
        },
        Algorithm::PCA => {
            reveal_strlit("pca");
        },
        Algorithm::LassoRegression => {
            reveal_strlit("lasso_regression");
        },
        Algorithm::MlpRegressor => {
            reveal_strlit("mlp_regressor");
        },
        Algorithm::DBSCAN => {
            reveal_strlit("dbscan");
        },
        Algorithm::SVM => {
            reveal_strlit("svm");
        },
        Algorithm::SVR => {
            reveal_strlit("svr");
        },
        Algorithm::LDA => {
            reveal_strlit("lda");
        },
        Algorithm::PolynomialRegression => {
            reveal_strlit("polynomial_regression");
        },
        Algorithm::FuzzyCMeans => {
            reveal_strlit("fuzzy_cmeans");
        },
        Algorithm::AdaBoost => {
            reveal_strlit("adaboost");
        },
        Algorithm::KaplanMeier => {
            reveal_strlit("kaplan_meier");
        },
        Algorithm::Agglomerative => {
            reveal_strlit("agglomerative");
        },
        Algorithm::TSNE => {
            reveal_strlit("tsne");
        },
    }
}

/// No two algorithms have the same name, so reading a name back gives the
/// algorithm.
pub proof fn law_names_are_distinct(a: Algorithm, b: Algorithm)
    requires
        name_of(a) == name_of(b),
    ensures
        a == b,
{
    lemma_mark(a);
    lemma_mark(b);
}

/// Model metadata; the quality measures are the bits of doubles.
#[derive(Debug, PartialEq, Eq)]
pub struct ModelMetadata {
    pub algorithm: Algorithm,
    pub num_features: usize,
    pub num_samples: usize,
    pub r_squared: Option<u64>,
    pub mse: Option<u64>,
    pub coefficients_count: usize,
    pub hyperparameters_json: String,
}

/// What can go wrong with a model.
#[derive(Debug, PartialEq, Eq)]
pub enum ModelError {
    FeatureCountMismatch { expected: usize, got: usize },
    Serialization(String),
    NotFound(String),
    Training(String),
}

impl ModelError {
    /// The text of the error.
    pub open spec fn text(self) -> Seq<char> {
        match self {
            ModelError::FeatureCountMismatch { expected, got } => "Feature count mismatch: expected "@
                + text::decimal(expected as nat) + ", got "@ + text::decimal(got as nat),
            ModelError::Serialization(s) => "Serialization error: "@ + s@,
            ModelError::NotFound(s) => "Model not found: "@ + s@,
            ModelError::Training(s) => "Training error: "@ + s@,
        }
    }

    /// The text of the error.
    pub fn message(&self) -> (r: String)
        ensures
            r@ == self.text(),
    {
        match self {
            ModelError::FeatureCountMismatch { expected, got } => {
                let mut r: String = "Feature count mismatch: expected ".to_owned();
                push_decimal(&mut r, *expected as u64);
                r.append(", got ");
                push_decimal(&mut r, *got as u64);
                r
            },
            ModelError::Serialization(s) => {
                let mut r: String = "Serialization error: ".to_owned();
                r.append(s.as_str());
                r
            },
            ModelError::NotFound(s) => {
                let mut r: String = "Model not found: ".to_owned();
                r.append(s.as_str());
                r
            },
            ModelError::Training(s) => {
                let mut r: String = "Training error: ".to_owned();
                r.append(s.as_str());
                r
            },
        }
    }
}

/// The error of a model that gives no embeddings.
pub fn no_embedding(algorithm: Algorithm) -> (r: ModelError)
    ensures
        r matches ModelError::Training(s) && s@ == "model type "@ + name_of(algorithm)
            + " does not support embedding (ONNX encoder required)"@,
{
    let mut s: String = "model type ".to_owned();
    let name: String = algorithm.name();
    s.append(name.as_str());
    s.append(" does not support embedding (ONNX encoder required)");
    ModelError::Training(s)
}

/// Checks the length of a feature vector.
pub fn check_features(expected: usize, got: usize) -> (r: Result<(), ModelError>)
    ensures
        r == if expected == got {
            Ok::<(), ModelError>(())
        } else {
            Err(ModelError::FeatureCountMismatch { expected, got })
        },
{
    if expected == got {
        Ok(())
    } else {
        Err(ModelError::FeatureCountMismatch { expected, got })
    }
}

} // verus!
