//! Clustering models: k-means, fuzzy c-means, density-based and merged clusters.
//! Each predicts the number of the nearest cluster.
//!
//! The numbers are the bits of doubles; computing with them is the caller's.

use vstd::prelude::*;
use crate::bits;
use crate::json;
use crate::model::checked;
use crate::model::checked::{find_nearest, predict_nearest};
use crate::model::types::{Algorithm, ModelError, ModelMetadata};
use crate::scalar;
use crate::text;
use crate::text::push_decimal;

verus! {

/// K-means.
#[derive(Debug, PartialEq, Eq)]
pub struct KMeansModel {
    pub metadata: ModelMetadata,
    pub centroids: Vec<Vec<u64>>,
    /// The sum of the squared distances to the nearest centroids.
    pub inertia: u64,
}

/// The JSON of the hyperparameters of k-means.
pub open spec fn kmeans_hyperparameters<W: Fn(u64) -> String>(
    write: W,
    k: nat,
    inertia: u64,
    iterations: nat,
    out: Seq<char>,
) -> bool {
    exists|shown: Seq<char>| #[trigger]
        scalar::writes(write, inertia, shown) && out == "{\"inertia\":"@ + shown + ",\"iterations\":"@ + text::decimal(
            iterations,
        ) + ",\"k\":"@ + text::decimal(k) + "}"@
}

impl KMeansModel {
    /// A model with the given centroids. `write` writes a number as JSON.
    pub fn new<W: Fn(u64) -> String>(
        centroids: Vec<Vec<u64>>,
        num_features: usize,
        num_samples: usize,
        k: usize,
        inertia: u64,
        iterations: usize,
        write: &W,
    ) -> (r: Self)
        requires
            forall|x: u64| call_requires(*write, (x,)),
        ensures
            r.centroids == centroids,
            r.inertia == inertia,
            checked::describes(
                r.metadata,
                Algorithm::KMeans,
                num_features as nat,
                num_samples as nat,
                None,
                Some(inertia),
                k as nat,
            ),
            kmeans_hyperparameters(*write, k as nat, inertia, iterations as nat, r.metadata.hyperparameters_json@),
    {
        let shown: String = write(inertia);
        let mut hyperparameters_json: String = "{\"inertia\":".to_owned();
        hyperparameters_json.append(shown.as_str());
        hyperparameters_json.append(",\"iterations\":");
        push_decimal(&mut hyperparameters_json, iterations as u64);
        hyperparameters_json.append(",\"k\":");
        push_decimal(&mut hyperparameters_json, k as u64);
        hyperparameters_json.append("}");
        proof {
            assert(call_ensures(*write, (inertia,), shown));
            assert(scalar::writes(*write, inertia, shown@));
        }
        let metadata = ModelMetadata {
            algorithm: Algorithm::KMeans,
            num_features,
            num_samples,
            r_squared: None,
            mse: Some(inertia),
            coefficients_count: k,
            hyperparameters_json,
        };
        KMeansModel { metadata, centroids, inertia }
    }

    /// The model of centroids that were kept: nothing else is known of it.
    pub fn restored(centroids: Vec<Vec<u64>>, k: usize, num_features: usize) -> (r: Self)
        ensures
            r.centroids == centroids,
            r.inertia == bits::ZERO,
            checked::describes(r.metadata, Algorithm::KMeans, num_features as nat, 0, None, None, k as nat),
            r.metadata.hyperparameters_json@ == "{}"@,
    {
        let metadata = ModelMetadata {
            algorithm: Algorithm::KMeans,
            num_features,
            num_samples: 0,
            r_squared: None,
            mse: None,
            coefficients_count: k,
            hyperparameters_json: "{}".to_owned(),
        };
        KMeansModel { metadata, centroids, inertia: bits::ZERO }
    }

    /// The number of clusters.
    pub fn k(&self) -> (k: usize)
        ensures
            k == self.centroids@.len(),
    {
        self.centroids.len()
    }

    pub fn centroids(&self) -> (r: &Vec<Vec<u64>>)
        ensures
            *r == self.centroids,
    {
        &self.centroids
    }

    pub fn inertia(&self) -> (r: u64)
        ensures
            r == self.inertia,
    {
        self.inertia
    }

    /// Predicts the number of the nearest cluster.
    pub fn predict<D: Fn(&Vec<u64>, &Vec<u64>) -> u64, L: Fn(usize) -> u64>(
        &self,
        features: &Vec<u64>,
        distance: &D,
        label: &L,
    ) -> (r: Result<u64, ModelError>)
        requires
            forall|a: &Vec<u64>, b: &Vec<u64>| call_requires(*distance, (a, b)),
            forall|c: usize| call_requires(*label, (c,)),
        ensures
            checked::nearest_outcome(
                self.metadata.num_features,
                *distance,
                *label,
                json::rows_of(self.centroids@),
                features@,
                r,
            ),
    {
        predict_nearest(self.metadata.num_features, &self.centroids, features, distance, label)
    }
}

/// Fuzzy c-means.
#[derive(Debug, PartialEq, Eq)]
pub struct FcmModel {
    pub metadata: ModelMetadata,
    pub centroids: Vec<Vec<u64>>,
    pub fuzziness: u64,
}

/// The JSON of the hyperparameters of fuzzy c-means.
pub open spec fn fcm_hyperparameters<W: Fn(u64) -> String>(
    write: W,
    k: nat,
    fuzziness: u64,
    iterations: nat,
    out: Seq<char>,
) -> bool {
    exists|shown: Seq<char>| #[trigger]
        scalar::writes(write, fuzziness, shown) && out == "{\"fuzziness\":"@ + shown + ",\"iterations\":"@
            + text::decimal(iterations) + ",\"k\":"@ + text::decimal(k) + "}"@
}

impl FcmModel {
    /// A model with the given centroids. `write` writes a number as JSON.
    pub fn new<W: Fn(u64) -> String>(
        centroids: Vec<Vec<u64>>,
        num_features: usize,
        num_samples: usize,
        k: usize,
        fuzziness: u64,
        iterations: usize,
        write: &W,
    ) -> (r: Self)
        requires
            forall|x: u64| call_requires(*write, (x,)),
        ensures
            r.centroids == centroids,
            r.fuzziness == fuzziness,
            checked::describes(
                r.metadata,
                Algorithm::FuzzyCMeans,
                num_features as nat,
                num_samples as nat,
                None,
                None,
                k as nat,
            ),
            fcm_hyperparameters(*write, k as nat, fuzziness, iterations as nat, r.metadata.hyperparameters_json@),
    {
        let shown: String = write(fuzziness);
        let mut hyperparameters_json: String = "{\"fuzziness\":".to_owned();
        hyperparameters_json.append(shown.as_str());
        hyperparameters_json.append(",\"iterations\":");
        push_decimal(&mut hyperparameters_json, iterations as u64);
        hyperparameters_json.append(",\"k\":");
        push_decimal(&mut hyperparameters_json, k as u64);
        hyperparameters_json.append("}");
        proof {
            assert(call_ensures(*write, (fuzziness,), shown));
            assert(scalar::writes(*write, fuzziness, shown@));
        }
        let metadata = ModelMetadata {
            algorithm: Algorithm::FuzzyCMeans,
            num_features,
            num_samples,
            r_squared: None,
            mse: None,
            coefficients_count: k,
            hyperparameters_json,
        };
        FcmModel { metadata, centroids, fuzziness }
    }

    /// The number of clusters.
    pub fn k(&self) -> (k: usize)
        ensures
            k == self.centroids@.len(),
    {
        self.centroids.len()
    }

    pub fn centroids(&self) -> (r: &Vec<Vec<u64>>)
        ensures
            *r == self.centroids,
    {
        &self.centroids
    }

    /// Predicts the number of the nearest cluster.
    pub fn predict<D: Fn(&Vec<u64>, &Vec<u64>) -> u64, L: Fn(usize) -> u64>(
        &self,
        features: &Vec<u64>,
        distance: &D,
        label: &L,
    ) -> (r: Result<u64, ModelError>)
        requires
            forall|a: &Vec<u64>, b: &Vec<u64>| call_requires(*distance, (a, b)),
            forall|c: usize| call_requires(*label, (c,)),
        ensures
            checked::nearest_outcome(
                self.metadata.num_features,
                *distance,
                *label,
                json::rows_of(self.centroids@),
                features@,
                r,
            ),
    {
        predict_nearest(self.metadata.num_features, &self.centroids, features, distance, label)
    }
}

/// Density-based clusters, each by its mean.
#[derive(Debug, PartialEq, Eq)]
pub struct DbscanModel {
    pub metadata: ModelMetadata,
    /// The means of the clusters.
    pub clusters: Vec<Vec<u64>>,
    /// The radius of a neighbourhood.
    pub eps: u64,
}

/// The JSON of the hyperparameters of density-based clusters.
pub open spec fn dbscan_hyperparameters<W: Fn(u64) -> String>(
    write: W,
    clusters: nat,
    eps: u64,
    noise: nat,
    out: Seq<char>,
) -> bool {
    exists|shown: Seq<char>| #[trigger]
        scalar::writes(write, eps, shown) && out == "{\"clusters\":"@ + text::decimal(clusters) + ",\"eps\":"@ + shown
            + ",\"noise\":"@ + text::decimal(noise) + "}"@
}

impl DbscanModel {
    /// A model with the given clusters. `write` writes a number as JSON.
    pub fn new<W: Fn(u64) -> String>(
        clusters: Vec<Vec<u64>>,
        num_features: usize,
        num_samples: usize,
        eps: u64,
        noise_count: usize,
        write: &W,
    ) -> (r: Self)
        requires
            forall|x: u64| call_requires(*write, (x,)),
        ensures
            r.clusters == clusters,
            r.eps == eps,
            checked::describes(
                r.metadata,
                Algorithm::DBSCAN,
                num_features as nat,
                num_samples as nat,
                None,
                None,
                clusters@.len(),
            ),
            dbscan_hyperparameters(
                *write,
                clusters@.len(),
                eps,
                noise_count as nat,
                r.metadata.hyperparameters_json@,
            ),
    {
        let shown: String = write(eps);
        let n: usize = clusters.len();
        let mut hyperparameters_json: String = "{\"clusters\":".to_owned();
        push_decimal(&mut hyperparameters_json, n as u64);
        hyperparameters_json.append(",\"eps\":");
        hyperparameters_json.append(shown.as_str());
        hyperparameters_json.append(",\"noise\":");
        push_decimal(&mut hyperparameters_json, noise_count as u64);
        hyperparameters_json.append("}");
        proof {
            assert(call_ensures(*write, (eps,), shown));
            assert(scalar::writes(*write, eps, shown@));
        }
        let metadata = ModelMetadata {
            algorithm: Algorithm::DBSCAN,
            num_features,
            num_samples,
            r_squared: None,
            mse: None,
            coefficients_count: n,
            hyperparameters_json,
        };
        DbscanModel { metadata, clusters, eps }
    }

    /// The model of clusters that were kept.
    pub fn restored(clusters: Vec<Vec<u64>>, num_features: usize, eps: u64) -> (r: Self)
        ensures
            r.clusters == clusters,
            r.eps == eps,
            checked::describes(r.metadata, Algorithm::DBSCAN, num_features as nat, 0, None, None, clusters@.len()),
            r.metadata.hyperparameters_json@ == "{}"@,
    {
        let n: usize = clusters.len();
        let metadata = ModelMetadata {
            algorithm: Algorithm::DBSCAN,
            num_features,
            num_samples: 0,
            r_squared: None,
            mse: None,
            coefficients_count: n,
            hyperparameters_json: "{}".to_owned(),
        };
        DbscanModel { metadata, clusters, eps }
    }

    pub fn clusters(&self) -> (r: &Vec<Vec<u64>>)
        ensures
            *r == self.clusters,
    {
        &self.clusters
    }

    pub fn eps(&self) -> (r: u64)
        ensures
            r == self.eps,
    {
        self.eps
    }

    /// Predicts the number of the nearest cluster.
    pub fn predict<D: Fn(&Vec<u64>, &Vec<u64>) -> u64, L: Fn(usize) -> u64>(
        &self,
        features: &Vec<u64>,
        distance: &D,
        label: &L,
    ) -> (r: Result<u64, ModelError>)
        requires
            forall|a: &Vec<u64>, b: &Vec<u64>| call_requires(*distance, (a, b)),
            forall|c: usize| call_requires(*label, (c,)),
        ensures
            checked::nearest_outcome(
                self.metadata.num_features,
                *distance,
                *label,
                json::rows_of(self.clusters@),
                features@,
                r,
            ),
    {
        predict_nearest(self.metadata.num_features, &self.clusters, features, distance, label)
    }
}

/// How far two clusters that may be merged are apart: by their nearest members, by
/// their farthest, or on average.
#[derive(Debug, Clone, Copy, PartialEq, Eq, Structural)]
pub enum Linkage {
    Single,
    Complete,
    Average,
}

impl Linkage {
    /// The name of the linkage.
    pub open spec fn spelled(self) -> Seq<char> {
        match self {
            Linkage::Single => "single"@,
            Linkage::Complete => "complete"@,
            Linkage::Average => "average"@,
        }
    }

    /// The name of the linkage.
    pub fn name(&self) -> (r: String)
        ensures
            r@ == self.spelled(),
    {
        match self {
            Linkage::Single => "single".to_owned(),
            Linkage::Complete => "complete".to_owned(),
            Linkage::Average => "average".to_owned(),
        }
    }
}

/// Clusters that were merged one by one, each by its center.
#[derive(Debug, PartialEq, Eq)]
pub struct AgglomerativeModel {
    pub metadata: ModelMetadata,
    pub centers: Vec<Vec<u64>>,
    /// The name of the linkage.
    pub linkage: String,
}

impl AgglomerativeModel {
    /// A model with the given centers.
    pub fn new(centers: Vec<Vec<u64>>, n_features: usize, n_samples: usize, linkage: Linkage) -> (r: Self)
        ensures
            r.centers == centers,
            r.linkage@ == linkage.spelled(),
            checked::describes(
                r.metadata,
                Algorithm::Agglomerative,
                n_features as nat,
                n_samples as nat,
                None,
                None,
                centers@.len(),
            ),
            r.metadata.hyperparameters_json@ == "{\"linkage\":\""@ + linkage.spelled() + "\",\"n_clusters\":"@
                + text::decimal(centers@.len()) + "}"@,
    {
        let k: usize = centers.len();
        let name: String = linkage.name();
        let mut hyperparameters_json: String = "{\"linkage\":\"".to_owned();
        hyperparameters_json.append(name.as_str());
        hyperparameters_json.append("\",\"n_clusters\":");
        push_decimal(&mut hyperparameters_json, k as u64);
        hyperparameters_json.append("}");
        let metadata = ModelMetadata {
            algorithm: Algorithm::Agglomerative,
            num_features: n_features,
            num_samples: n_samples,
            r_squared: None,
            mse: None,
            coefficients_count: k,
            hyperparameters_json,
        };
        AgglomerativeModel { metadata, centers, linkage: name }
    }

    /// Predicts the number of the nearest center, whatever the number of features.
    pub fn predict<D: Fn(&Vec<u64>, &Vec<u64>) -> u64, L: Fn(usize) -> u64>(
        &self,
        features: &Vec<u64>,
        distance: &D,
        label: &L,
    ) -> (r: Result<u64, ModelError>)
        requires
            forall|a: &Vec<u64>, b: &Vec<u64>| call_requires(*distance, (a, b)),
            forall|c: usize| call_requires(*label, (c,)),
        ensures
            r matches Ok(p) && checked::labels_nearest(
                *distance,
                *label,
                json::rows_of(self.centers@),
                features@,
                p,
            ),
    {
        let c: usize = find_nearest(&self.centers, features, distance);
        let p: u64 = label(c);
        proof {
            assert(checked::is_nearest(*distance, json::rows_of(self.centers@), features@, c));
            assert(checked::labels_nearest(*distance, *label, json::rows_of(self.centers@), features@, p));
        }
        Ok(p)
    }
}

} // verus!
