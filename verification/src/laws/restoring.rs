//! What models are after they were read back.

use vstd::prelude::*;
use crate::laws::blobs;
use crate::laws::descriptions;
use crate::load::{LBindData, LoadOnnxFn, LoadRequest, LoadXgbFn};
use crate::model::knn::KnnMlModel;
use crate::model::lda::LdaMlModel;
use crate::model::naive_bayes::NbMlModel;
use crate::model::pca::PcaMlModel;
use crate::model::registry;
use crate::model::registry::{CacheEntry, ModelRegistry};
use crate::model::tree;
use crate::model::tree::ForestModel;
use crate::model::types;
use crate::model::types::{check_features, Algorithm, ModelError};
use crate::model::xgboost::XgbModelWrapper;
use crate::text;

verus! {

/// A model of neighbours that was read back is the one in the bytes, and tells its
/// task, its features and its rows.
pub proof fn law_neighbours_are_restored(data: &[u8], m: KnnMlModel)
    requires
        call_ensures(KnnMlModel::deserialize, (data,), Ok(m)),
        m.inner.x_train@.len() > 0,
    ensures
        blobs::is_knn_blob(data@, m.inner),
        descriptions::tells(
            m.metadata,
            if m.inner.task is Regression {
                Algorithm::KNNRegressor
            } else {
                Algorithm::KNNClassifier
            },
            m.inner.x_train@[0]@.len() as int,
            m.inner.x_train@.len() as int,
            None,
            None,
            m.inner.x_train@.len() as int,
        ),
{
    blobs::lemma_knn_blob(data@, m.inner);
    assert(m.inner@.x[0] == m.inner.x_train@[0]@);
}

/// A model of classes that was read back is the one in the bytes.
pub proof fn law_classes_are_restored(data: &[u8], m: NbMlModel)
    requires
        call_ensures(NbMlModel::deserialize, (data,), Ok(m)),
        m.inner.means@.len() > 0,
    ensures
        blobs::is_nb_blob(data@, m.inner),
        descriptions::tells(
            m.metadata,
            Algorithm::NaiveBayes,
            m.inner.means@[0]@.len() as int,
            0,
            None,
            None,
            (m.inner.classes@.len() * m.inner.means@[0]@.len()) as int,
        ),
{
    blobs::lemma_nb_blob(data@, m.inner);
    assert(m.inner@.means[0] == m.inner.means@[0]@);
}

/// Principal directions that were read back are those in the bytes.
pub proof fn law_principal_directions_are_restored<W: Fn(u64) -> String>(data: &[u8], write: &W, m: PcaMlModel)
    requires
        call_ensures(PcaMlModel::deserialize::<W>, (data, write), Ok(m)),
    ensures
        blobs::is_projection_blob(
            data@,
            m.inner.mean@,
            m.inner.components@,
            m.inner.explained_variance_ratio@,
        ),
        descriptions::tells(
            m.metadata,
            Algorithm::PCA,
            m.inner.mean@.len() as int,
            0,
            None,
            None,
            (m.inner.components@.len() * m.inner.mean@.len()) as int,
        ),
{
    blobs::lemma_projection_blob(data@, m.inner.mean@, m.inner.components@, m.inner.explained_variance_ratio@);
}

/// Discriminating directions that were read back are those in the bytes.
pub proof fn law_discriminating_directions_are_restored<W: Fn(u64) -> String>(data: &[u8], write: &W, m: LdaMlModel)
    requires
        call_ensures(LdaMlModel::deserialize::<W>, (data, write), Ok(m)),
    ensures
        blobs::is_projection_blob(data@, m.inner.mean@, m.inner.components@, m.inner.eigenvalues@),
        descriptions::tells(
            m.metadata,
            Algorithm::LDA,
            m.inner.mean@.len() as int,
            0,
            None,
            None,
            (m.inner.components@.len() * m.inner.mean@.len()) as int,
        ),
{
    blobs::lemma_projection_blob(data@, m.inner.mean@, m.inner.components@, m.inner.eigenvalues@);
}

/// The trees start at these places: the first one behind the two numbers, and each
/// other one behind the one before it.
pub open spec fn are_starts(data: Seq<u8>, at: Seq<int>) -> bool {
    &&& at.len() > 0
    &&& at[0] == 8
    &&& forall|i: int|
        #![trigger at[i]]
        0 <= i < at.len() - 1 ==> at[i] + 4 <= data.len() && at[i + 1] == at[i] + 4 + blobs::word_at(data, at[i])
            && at[i + 1] <= data.len()
}

proof fn lemma_starts<T, D: Fn(&[u8]) -> Option<T>>(decode: D, data: Seq<u8>, trees: Seq<T>, n: nat) -> (at: Seq<int>)
    requires
        data.len() >= 8,
        n <= trees.len(),
        forall|i: nat| #![trigger trees[i as int]] i < trees.len() ==> tree::tree_read(decode, data, i, trees[i as int]),
    ensures
        at.len() == n + 1,
        are_starts(data, at),
        n < trees.len() ==> tree::frame_start(data, n) == Some(at[n as int]),
        forall|i: nat| i < n ==> #[trigger] tree::frame_start(data, i) == Some(at[i as int]),
        forall|i: int| 0 <= i < at.len() ==> #[trigger] at[i] >= 8,
    decreases n,
{
    if n == 0 {
        seq![8int]
    } else {
        let m = (n - 1) as nat;
        let before = lemma_starts(decode, data, trees, m);
        assert(tree::tree_read(decode, data, m, trees[m as int]));
        let p = before[m as int];
        assert(p >= 8);
        blobs::lemma_word(data, p);
        let at = before.push(p + 4 + blobs::word_at(data, p));
        assert(tree::frame_start(data, m) == Some(p));
        assert forall|i: int| #![trigger at[i]] 0 <= i < at.len() - 1 implies at[i] + 4 <= data.len() && at[i + 1]
            == at[i] + 4 + blobs::word_at(data, at[i]) && at[i + 1] <= data.len() by {
            if i < m {
                assert(before[i + 1] == before[i] + 4 + blobs::word_at(data, before[i]));
            }
        }
        at
    }
}

/// A forest that was read back has the trees in the bytes, in their order, and tells
/// its features and its trees.
pub proof fn law_forest_is_restored<T, D: Fn(&[u8]) -> Option<T>>(
    data: &[u8],
    decode: &D,
    m: ForestModel<T>,
    reads: spec_fn(Seq<u8>) -> Option<T>,
) -> (at: Seq<int>)
    requires
        call_ensures(ForestModel::<T>::deserialize::<D>, (data, decode), Ok(m)),
        forall|s: &[u8], t: Option<T>| #[trigger] call_ensures(*decode, (s,), t) ==> t == reads(s@),
    ensures
        data@.len() >= 8,
        m.metadata.num_features == blobs::word_at(data@, 0),
        m.trees@.len() == blobs::word_at(data@, 4),
        at.len() == m.trees@.len() + 1,
        are_starts(data@, at),
        forall|i: int|
            #![trigger at[i]]
            0 <= i < m.trees@.len() ==> reads(data@.subrange(at[i] + 4, at[i + 1])) == Some(m.trees@[i]),
{
    blobs::lemma_word(data@, 0);
    blobs::lemma_word(data@, 4);
    let trees = m.trees@;
    let at = lemma_starts(*decode, data@, trees, trees.len());
    assert forall|i: int| #![trigger at[i]] 0 <= i < trees.len() implies reads(data@.subrange(at[i] + 4, at[i + 1]))
        == Some(trees[i]) by {
        let n = i as nat;
        assert(tree::tree_read(*decode, data@, n, trees[n as int]));
        assert(tree::frame_start(data@, n) == Some(at[i]));
        assert(at[i] >= 8);
        blobs::lemma_word(data@, at[i]);
        let own = tree::framed(data@, at[i]);
        assert(own == data@.subrange(at[i] + 4, at[i + 1]));
        assert(tree::decodes(*decode, own, Some(trees[i])));
        let s = choose|s: &[u8]| s@ == own && #[trigger] call_ensures(*decode, (s,), Some(trees[i]));
    }
    at
}

/// Boosted trees keep the bytes of their document, classify where the objective is
/// logistic, and tell their features and their trees.
pub proof fn law_boosted_trees_are_described<F: Fn(&str) -> Option<u64>>(data: Vec<u8>, read: &F, w: XgbModelWrapper)
    requires
        call_ensures(XgbModelWrapper::new::<F>, (data, read), Ok(w)),
    ensures
        w.json_bytes@ == data@,
        descriptions::tells(
            w.metadata,
            if text::occurs("logistic"@, w.model.objective@) {
                Algorithm::XGBoostClassifier
            } else {
                Algorithm::XGBoostRegressor
            },
            w.model.num_features as int,
            0,
            None,
            None,
            w.model.trees@.len() as int,
        ),
{
}

/// A graph that was loaded is cached under its name and shown with its algorithm and
/// its features, and one that was not leaves the registry as it is.
pub proof fn law_loaded_graph_is_shown<M>(
    name: &str,
    loaded: Result<CacheEntry<M>, String>,
    registry: &mut ModelRegistry<M>,
    now: u64,
    r: Result<LBindData, String>,
)
    requires
        call_ensures(LoadOnnxFn::finish::<M>, (name, loaded, registry, now), r),
    ensures
        r is Ok <==> loaded is Ok,
        loaded matches Err(e) ==> r->Err_0 == e && final(registry)@ == old(registry)@,
        loaded matches Ok(entry) ==> {
            &&& r->Ok_0.model_name@ == name@
            &&& r->Ok_0.algorithm@ == types::name_of(entry.metadata.algorithm)
            &&& r->Ok_0.status@ == "loaded"@
            &&& r->Ok_0.num_features == entry.metadata.num_features as i32
            &&& final(registry)@.models.contains_key(name@)
            &&& final(registry)@.models[name@] == entry
        },
{
}

/// The row and the cached model are those of the trees in the bytes.
pub open spec fn is_shown<M>(
    w: XgbModelWrapper,
    data: Seq<u8>,
    name: Seq<char>,
    row: LBindData,
    models: Map<Seq<char>, CacheEntry<M>>,
    made: spec_fn(XgbModelWrapper) -> CacheEntry<M>,
) -> bool {
    &&& w.json_bytes@ == data
    &&& row.model_name@ == name
    &&& row.algorithm@ == types::name_of(w.metadata.algorithm)
    &&& row.num_features == w.metadata.num_features as i32
    &&& models.contains_key(name)
    &&& models[name] == made(w)
}

/// Boosted trees that were loaded are cached under the name in the request, as the
/// caller makes them, and shown with their algorithm and their features. A file that
/// cannot be read leaves the registry as it is.
pub proof fn law_loaded_trees_are_shown<M, F: Fn(&str) -> Option<u64>, K: Fn(XgbModelWrapper) -> CacheEntry<M>>(
    request: &LoadRequest,
    contents: Result<Vec<u8>, String>,
    registry: &mut ModelRegistry<M>,
    now: u64,
    read: &F,
    make: &K,
    r: Result<LBindData, String>,
    made: spec_fn(XgbModelWrapper) -> CacheEntry<M>,
)
    requires
        call_ensures(LoadXgbFn::finish::<M, F, K>, (request, contents, registry, now, read, make), r),
        forall|w: XgbModelWrapper, e: CacheEntry<M>| #[trigger] call_ensures(*make, (w,), e) ==> e == made(w),
    ensures
        contents is Err ==> r is Err,
        r is Err ==> final(registry)@ == old(registry)@,
        r is Ok ==> exists|w: XgbModelWrapper| #[trigger]
            is_shown(w, contents->Ok_0@, request.model_name@, r->Ok_0, final(registry)@.models, made),
{
    if r is Ok {
        let row = r->Ok_0;
        let name = request.model_name@;
        let (w, entry) = choose|w: XgbModelWrapper, entry: CacheEntry<M>| #[trigger]
            w.is_of(*read, contents->Ok_0@) && #[trigger] call_ensures(*make, (w,), entry) && registry::inserts(
                old(registry)@,
                name,
                entry,
                now,
                final(registry)@,
            ) && crate::load::shows_loaded(row, name, w.metadata.algorithm, w.metadata.num_features);
        assert(is_shown(w, contents->Ok_0@, name, row, final(registry)@.models, made));
    }
}

/// Features of another number are refused with both numbers, which the message names.
pub proof fn law_wrong_number_is_told(
    wanted: usize,
    given: usize,
    r: Result<(), ModelError>,
    message: String,
    e: &ModelError,
)
    requires
        call_ensures(check_features, (wanted, given), r),
        call_ensures(ModelError::message, (e,), message),
    ensures
        r is Ok <==> wanted == given,
        r matches Err(problem) && *e == problem ==> message@ == "Feature count mismatch: expected "@ + text::decimal(
            wanted as nat,
        ) + ", got "@ + text::decimal(given as nat),
{
}

} // verus!
