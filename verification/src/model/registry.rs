//! The registry: cached models, deployments, data snapshots and datasets.
//!
//! Time is a number that the caller passes in; it orders the uses of models.

use vstd::prelude::*;
use crate::bits;
use crate::bits::is_less;
use crate::model::types;
use crate::model::types::ModelMetadata;
use crate::name_map::NameMap;
use crate::text;
use crate::text::{has_prefix, text_eq};

verus! {

/// A cached model: the handle by which the caller knows it, and what is known
/// of it.
#[derive(Debug, PartialEq, Eq)]
pub struct CacheEntry<M> {
    pub model: M,
    pub metadata: ModelMetadata,
}

/// Deployment state for a model name
#[derive(Debug, PartialEq, Eq)]
pub struct Deployment {
    pub model_key: String,
    pub strategy: String,
    pub deployed_at: u64,
}

/// A deployment as a mathematical value.
pub struct DeploymentView {
    pub model_key: Seq<char>,
    pub strategy: Seq<char>,
    pub deployed_at: u64,
}

impl View for Deployment {
    type V = DeploymentView;

    open spec fn view(&self) -> DeploymentView {
        DeploymentView { model_key: self.model_key@, strategy: self.strategy@, deployed_at: self.deployed_at }
    }
}

impl Clone for Deployment {
    fn clone(&self) -> (r: Self)
        ensures
            r@ == self@,
    {
        Deployment {
            model_key: self.model_key.clone(),
            strategy: self.strategy.clone(),
            deployed_at: self.deployed_at,
        }
    }
}

/// Metadata about a training data snapshot
#[derive(Debug, PartialEq, Eq)]
pub struct DataSnapshot {
    pub model_name: String,
    pub relation_name: String,
    pub n_features: usize,
    pub n_samples: usize,
    pub target_column: String,
    pub feature_columns: Vec<String>,
    pub data_hash: String,
}

/// A training data snapshot as a mathematical value.
#[verifier::ext_equal]
pub struct SnapshotView {
    pub model_name: Seq<char>,
    pub relation_name: Seq<char>,
    pub n_features: nat,
    pub n_samples: nat,
    pub target_column: Seq<char>,
    pub feature_columns: Seq<Seq<char>>,
    pub data_hash: Seq<char>,
}

impl View for DataSnapshot {
    type V = SnapshotView;

    open spec fn view(&self) -> SnapshotView {
        SnapshotView {
            model_name: self.model_name@,
            relation_name: self.relation_name@,
            n_features: self.n_features as nat,
            n_samples: self.n_samples as nat,
            target_column: self.target_column@,
            feature_columns: text::texts(self.feature_columns@),
            data_hash: self.data_hash@,
        }
    }
}

impl Clone for DataSnapshot {
    fn clone(&self) -> (r: Self)
        ensures
            r@ == self@,
    {
        let feature_columns: Vec<String> = self.feature_columns.clone();
        assert(text::texts(feature_columns@) =~= text::texts(self.feature_columns@));
        DataSnapshot {
            model_name: self.model_name.clone(),
            relation_name: self.relation_name.clone(),
            n_features: self.n_features,
            n_samples: self.n_samples,
            target_column: self.target_column.clone(),
            feature_columns,
            data_hash: self.data_hash.clone(),
        }
    }
}

/// The deployments of a list.
pub open spec fn deployment_views(v: Seq<Deployment>) -> Seq<DeploymentView> {
    Seq::new(v.len(), |i: int| v[i]@)
}

/// The snapshots of a list.
pub open spec fn snapshot_views(v: Seq<DataSnapshot>) -> Seq<SnapshotView> {
    Seq::new(v.len(), |i: int| v[i]@)
}

/// The rows of a dataset.
pub open spec fn table(v: Seq<Vec<u64>>) -> Seq<Seq<u64>> {
    Seq::new(v.len(), |i: int| v[i]@)
}

/// The registry as a mathematical value.
#[verifier::ext_equal]
#[verifier::reject_recursive_types(M)]
pub struct RegistryView<M> {
    /// The cached models by name.
    pub models: Map<Seq<char>, CacheEntry<M>>,
    /// When each cached model was last used.
    pub last_used: Map<Seq<char>, u64>,
    /// What is deployed under a name.
    pub deployed: Map<Seq<char>, DeploymentView>,
    /// What was deployed under a name before, oldest first.
    pub history: Map<Seq<char>, Seq<DeploymentView>>,
    pub snapshots: Seq<SnapshotView>,
    pub datasets: Map<Seq<char>, Seq<Seq<u64>>>,
    /// The class labels of models that were trained on text labels.
    pub labels: Map<Seq<char>, Seq<Seq<char>>>,
    pub max_cached: nat,
}

/// Model registry with least-recently-used caching, deployment tracking, and
/// data snapshots
pub struct ModelRegistry<M> {
    models: NameMap<CacheEntry<M>>,
    last_used: NameMap<u64>,
    deployments: NameMap<Deployment>,
    history: NameMap<Vec<Deployment>>,
    snapshots: Vec<DataSnapshot>,
    datasets: NameMap<Vec<Vec<u64>>>,
    labels: NameMap<Vec<String>>,
    max_cached: usize,
}

impl<M> View for ModelRegistry<M> {
    type V = RegistryView<M>;

    closed spec fn view(&self) -> RegistryView<M> {
        RegistryView {
            models: self.models@,
            last_used: self.last_used@,
            deployed: self.deployments@.map_values(|d: Deployment| d@),
            history: self.history@.map_values(|v: Vec<Deployment>| deployment_views(v@)),
            snapshots: snapshot_views(self.snapshots@),
            datasets: self.datasets@.map_values(|v: Vec<Vec<u64>>| table(v@)),
            labels: self.labels@.map_values(|v: Vec<String>| text::texts(v@)),
            max_cached: self.max_cached as nat,
        }
    }
}

/// Noting the use of a model.
pub open spec fn touched<M>(s: RegistryView<M>, name: Seq<char>, now: u64) -> RegistryView<M> {
    RegistryView { last_used: s.last_used.insert(name, now), ..s }
}

/// `victim` is a cached model that was not used for the longest time.
pub open spec fn is_oldest<M>(s: RegistryView<M>, victim: Seq<char>) -> bool {
    s.last_used.contains_key(victim) && forall|name: Seq<char>| #[trigger]
        s.last_used.contains_key(name) ==> s.last_used[victim] <= s.last_used[name]
}

/// The cache is full and does not hold the name.
pub open spec fn must_evict<M>(s: RegistryView<M>, name: Seq<char>) -> bool {
    s.models.dom().len() >= s.max_cached && !s.models.contains_key(name) && s.models.dom().len() > 0
}

/// How many models the cache may hold: as many as allowed, or one where none is.
pub open spec fn cache_limit(max_cached: nat) -> nat {
    if max_cached == 0 {
        1
    } else {
        max_cached
    }
}

/// Taking a model out of the cache.
pub open spec fn dropped<M>(s: RegistryView<M>, name: Seq<char>) -> RegistryView<M> {
    RegistryView { models: s.models.remove(name), last_used: s.last_used.remove(name), ..s }
}

/// Putting a model into the cache.
pub open spec fn cached<M>(s: RegistryView<M>, name: Seq<char>, entry: CacheEntry<M>, now: u64) -> RegistryView<M> {
    RegistryView { models: s.models.insert(name, entry), last_used: s.last_used.insert(name, now), ..s }
}

/// What putting a model into the cache does: where the cache is full, a model
/// that was not used for the longest time goes first.
pub open spec fn inserts<M>(
    s: RegistryView<M>,
    name: Seq<char>,
    entry: CacheEntry<M>,
    now: u64,
    next: RegistryView<M>,
) -> bool {
    if must_evict(s, name) {
        exists|victim: Seq<char>| #[trigger] is_oldest(s, victim) && next == cached(dropped(s, victim), name, entry, now)
    } else {
        next == cached(s, name, entry, now)
    }
}

/// The key belongs to the family of a model name: it is the name, or starts
/// with the name and an underscore.
pub open spec fn in_family(key: Seq<char>, model_name: Seq<char>) -> bool {
    key == model_name || (model_name + "_"@).is_prefix_of(key)
}

/// The score of a cached model; the lowest one where it has none.
pub open spec fn score_of<M>(s: RegistryView<M>, key: Seq<char>) -> u64 {
    match s.models[key].metadata.r_squared {
        Some(r2) => r2,
        None => bits::NEG_INFINITY,
    }
}

/// The key is a cached model of the family that has a score.
pub open spec fn has_score<M>(s: RegistryView<M>, model_name: Seq<char>, key: Seq<char>) -> bool {
    s.models.contains_key(key) && in_family(key, model_name) && bits::less(bits::NEG_INFINITY, score_of(s, key))
}

/// No model of the family scores higher than the one with this key.
pub open spec fn is_best<M>(s: RegistryView<M>, model_name: Seq<char>, key: Seq<char>) -> bool {
    has_score(s, model_name, key) && forall|other: Seq<char>| #[trigger]
        has_score(s, model_name, other) ==> !bits::less(score_of(s, key), score_of(s, other))
}

/// The key that a strategy picks, or why it picks none: the best score of the
/// family, what was deployed before, or the given key.
pub open spec fn picks<M>(
    s: RegistryView<M>,
    model_name: Seq<char>,
    strategy: Seq<char>,
    model_key: Seq<char>,
    actual: Result<Seq<char>, Seq<char>>,
) -> bool {
    if strategy == "best_score"@ {
        match actual {
            Ok(key) => is_best(s, model_name, key),
            Err(e) => (forall|key: Seq<char>| !#[trigger] has_score(s, model_name, key)) && e == "No model found for '"@
                + model_name + "' with best_score"@,
        }
    } else if strategy == "rollback"@ {
        if s.history.contains_key(model_name) {
            actual == Ok::<Seq<char>, Seq<char>>(s.history[model_name].last().model_key)
        } else {
            actual == Err::<Seq<char>, Seq<char>>("No deployment history for rollback"@)
        }
    } else {
        actual == Ok::<Seq<char>, Seq<char>>(model_key)
    }
}

/// The deployments that are past once something new is deployed under a name.
pub open spec fn past_deployments<M>(s: RegistryView<M>, model_name: Seq<char>) -> Map<
    Seq<char>,
    Seq<DeploymentView>,
> {
    if s.deployed.contains_key(model_name) {
        let before = if s.history.contains_key(model_name) {
            s.history[model_name]
        } else {
            Seq::empty()
        };
        s.history.insert(model_name, before.push(s.deployed[model_name]))
    } else {
        s.history
    }
}

/// Deploying something under a name: what was deployed there becomes history.
pub open spec fn after_deploy<M>(
    s: RegistryView<M>,
    model_name: Seq<char>,
    deployment: DeploymentView,
) -> RegistryView<M> {
    let t = touched(s, deployment.model_key, deployment.deployed_at);
    RegistryView {
        deployed: s.deployed.insert(model_name, deployment),
        history: past_deployments(s, model_name),
        ..t
    }
}

/// What deploying does, given the key that was picked.
pub open spec fn deploys<M>(
    s: RegistryView<M>,
    model_name: Seq<char>,
    strategy: Seq<char>,
    now: u64,
    actual: Result<Seq<char>, Seq<char>>,
    r: Result<Deployment, String>,
    next: RegistryView<M>,
) -> bool {
    match actual {
        Err(message) => next == s && (r matches Err(e) && e@ == message),
        Ok(key) => if s.models.contains_key(key) {
            &&& r matches Ok(d) && d@ == (DeploymentView { model_key: key, strategy, deployed_at: now })
            &&& next == after_deploy(s, model_name, DeploymentView { model_key: key, strategy, deployed_at: now })
        } else {
            next == s && (r matches Err(e) && e@ == "Model '"@ + key + "' not found in registry"@)
        },
    }
}

/// The algorithm name of a cached model; empty where it is not cached.
pub open spec fn algorithm_name<M>(s: RegistryView<M>, key: Seq<char>) -> Seq<char> {
    if s.models.contains_key(key) {
        types::name_of(s.models[key].metadata.algorithm)
    } else {
        Seq::empty()
    }
}

/// The key under which the model for a name is found: the deployed one where
/// it is cached, else the name itself.
pub open spec fn serving_key<M>(s: RegistryView<M>, model_name: Seq<char>) -> Seq<char> {
    if s.deployed.contains_key(model_name) && s.models.contains_key(s.deployed[model_name].model_key) {
        s.deployed[model_name].model_key
    } else {
        model_name
    }
}

/// The snapshots of a model among the first `n`, in order.
pub open spec fn snapshots_of(all: Seq<SnapshotView>, model_name: Seq<char>, n: nat) -> Seq<SnapshotView>
    decreases n,
{
    if n == 0 {
        Seq::empty()
    } else {
        let before = snapshots_of(all, model_name, (n - 1) as nat);
        if all[n - 1].model_name == model_name {
            before.push(all[n - 1])
        } else {
            before
        }
    }
}

impl<M> ModelRegistry<M> {
    /// The parts agree with each other: every cached model has a time of use,
    /// every history holds something, and the cache is within its limit.
    pub closed spec fn well_formed(self) -> bool {
        &&& self.models.well_formed()
        &&& self.last_used.well_formed()
        &&& self.deployments.well_formed()
        &&& self.history.well_formed()
        &&& self.datasets.well_formed()
        &&& self.labels.well_formed()
        &&& self.last_used@.dom() == self.models@.dom()
        &&& forall|name: Seq<char>| #[trigger] self.history@.contains_key(name) ==> self.history@[name]@.len() > 0
        &&& self.models@.dom().len() <= cache_limit(self.max_cached as nat)
    }

    /// What holds of every registry: each cached model has a time of use, the cache
    /// is within its limit, and a name with history has at least one past
    /// deployment.
    pub proof fn law_parts_agree(self)
        requires
            self.well_formed(),
        ensures
            self@.last_used.dom() == self@.models.dom(),
            self@.models.dom().finite(),
            self@.models.dom().len() <= cache_limit(self@.max_cached),
            forall|name: Seq<char>| #[trigger] self@.history.contains_key(name) ==> self@.history[name].len() > 0,
    {
        self.models.lemma_order();
    }

    /// An empty registry for at most `max_cached` models.
    pub fn new(max_cached: usize) -> (r: Self)
        ensures
            r.well_formed(),
            r@.models == Map::<Seq<char>, CacheEntry<M>>::empty(),
            r@.last_used == Map::<Seq<char>, u64>::empty(),
            r@.deployed == Map::<Seq<char>, DeploymentView>::empty(),
            r@.history == Map::<Seq<char>, Seq<DeploymentView>>::empty(),
            r@.snapshots == Seq::<SnapshotView>::empty(),
            r@.datasets == Map::<Seq<char>, Seq<Seq<u64>>>::empty(),
            r@.labels == Map::<Seq<char>, Seq<Seq<char>>>::empty(),
            r@.max_cached == max_cached,
    {
        let r = ModelRegistry {
            models: NameMap::new(),
            last_used: NameMap::new(),
            deployments: NameMap::new(),
            history: NameMap::new(),
            snapshots: Vec::new(),
            datasets: NameMap::new(),
            labels: NameMap::new(),
            max_cached,
        };
        assert(r@.deployed =~= Map::<Seq<char>, DeploymentView>::empty());
        assert(r@.history =~= Map::<Seq<char>, Seq<DeploymentView>>::empty());
        assert(r@.snapshots =~= Seq::<SnapshotView>::empty());
        assert(r@.datasets =~= Map::<Seq<char>, Seq<Seq<u64>>>::empty());
        assert(r@.labels =~= Map::<Seq<char>, Seq<Seq<char>>>::empty());
        assert(r.last_used@.dom() =~= r.models@.dom());
        r
    }

    /// Looks a cached model up and notes its use.
    pub fn get(&mut self, name: &str, now: u64) -> (r: Option<&CacheEntry<M>>)
        requires
            old(self).well_formed(),
        ensures
            final(self).well_formed(),
            match r {
                Some(entry) => old(self)@.models.contains_key(name@) && *entry == old(self)@.models[name@]
                    && final(self)@ == touched(old(self)@, name@, now),
                None => !old(self)@.models.contains_key(name@) && final(self)@ == old(self)@,
            },
    {
        let ghost before = self@;
        if self.models.get(name).is_some() {
            self.last_used.insert(name, now);
            assert(self.last_used@.dom() =~= self.models@.dom());
            assert(self@ =~= touched(before, name@, now));
        }
        self.models.get(name)
    }

    /// A cached model, without noting its use.
    pub fn peek(&self, name: &str) -> (r: Option<&CacheEntry<M>>)
        requires
            self.well_formed(),
        ensures
            match r {
                Some(entry) => self@.models.contains_key(name@) && *entry == self@.models[name@],
                None => !self@.models.contains_key(name@),
            },
    {
        self.models.get(name)
    }

    /// The name of a model that was not used for the longest time.
    fn oldest(&self) -> (r: String)
        requires
            self.well_formed(),
            self@.models.dom().len() > 0,
        ensures
            is_oldest(self@, r@),
    {
        let n: usize = self.last_used.len();
        proof {
            self.last_used.lemma_order();
        }
        let mut best: usize = 0;
        let mut i: usize = 1;
        while i < n
            invariant
                self.well_formed(),
                n == self.last_used.order().len(),
                best < i <= n,
                forall|x: int|
                    0 <= x < i ==> self.last_used@[self.last_used.order()[best as int]]
                        <= self.last_used@[#[trigger] self.last_used.order()[x]],
            decreases n - i,
        {
            let (_a, used_i) = self.last_used.at(i);
            let (_b, used_best) = self.last_used.at(best);
            if *used_i < *used_best {
                best = i;
            }
            i = i + 1;
        }
        let (name, _used) = self.last_used.at(best);
        proof {
            let order = self.last_used.order();
            assert forall|other: Seq<char>| #[trigger] self@.last_used.contains_key(other) implies self@.last_used[name@]
                <= self@.last_used[other] by {
                assert(order.to_set().contains(other));
                let x = choose|x: int| 0 <= x < order.len() && order[x] == other;
                assert(self.last_used@[order[best as int]] <= self.last_used@[order[x]]);
            }
        }
        name.clone()
    }

    /// Puts a model into the cache; where it is full, the model that was not
    /// used for the longest time goes.
    pub fn insert(&mut self, name: &str, entry: CacheEntry<M>, now: u64)
        requires
            old(self).well_formed(),
        ensures
            final(self).well_formed(),
            inserts(old(self)@, name@, entry, now, final(self)@),
            final(self)@.models.contains_key(name@) && final(self)@.models[name@] == entry,
            final(self)@.models.dom().len() <= cache_limit(old(self)@.max_cached),
    {
        let ghost before = self@;
        let count: usize = self.models.len();
        if count >= self.max_cached && count > 0 && self.models.get(name).is_none() {
            let victim: String = self.oldest();
            self.remove(victim.as_str());
            proof {
                assert(is_oldest(before, victim@));
            }
        }
        let ghost middle = self@;
        self.models.insert(name, entry);
        self.last_used.insert(name, now);
        proof {
            assert(self.last_used@.dom() =~= self.models@.dom());
            assert(self@ =~= cached(middle, name@, entry, now));
            old(self).law_parts_agree();
            law_cache_stays_bounded(before, name@, entry, now, self@);
        }
    }

    /// Takes a model out of the cache.
    pub fn remove(&mut self, name: &str)
        requires
            old(self).well_formed(),
        ensures
            final(self).well_formed(),
            final(self)@ == dropped(old(self)@, name@),
    {
        let ghost before = self@;
        self.models.remove(name);
        self.last_used.remove(name);
        proof {
            assert(self.last_used@.dom() =~= self.models@.dom());
            assert(self@ =~= dropped(before, name@));
            old(self).law_parts_agree();
            assert(self.models@.dom() =~= before.models.dom().remove(name@));
        }
    }

    /// The names of all cached models, each once.
    pub fn list(&self) -> (r: Vec<String>)
        requires
            self.well_formed(),
        ensures
            text::texts(r@).no_duplicates(),
            text::texts(r@).to_set() == self@.models.dom(),
            r@.len() == self@.models.dom().len(),
    {
        let n: usize = self.models.len();
        let mut r: Vec<String> = Vec::new();
        let mut i: usize = 0;
        while i < n
            invariant
                self.well_formed(),
                n == self.models.order().len(),
                i <= n,
                r@.len() == i,
                forall|x: int| 0 <= x < i ==> (#[trigger] r@[x])@ == self.models.order()[x],
            decreases n - i,
        {
            let (name, _entry) = self.models.at(i);
            r.push(name.clone());
            i = i + 1;
        }
        proof {
            self.models.lemma_order();
            assert(text::texts(r@) =~= self.models.order());
        }
        r
    }

    /// Number of cached models
    pub fn len(&self) -> (n: usize)
        requires
            self.well_formed(),
        ensures
            n == self@.models.dom().len(),
            n <= cache_limit(self@.max_cached),
    {
        self.models.len()
    }

    /// Check if registry is empty
    pub fn is_empty(&self) -> (r: bool)
        requires
            self.well_formed(),
        ensures
            r == (self@.models.dom().len() == 0),
    {
        self.len() == 0
    }
}

impl<M> ModelRegistry<M> {
    /// The key of the family with the best score.
    fn best_key(&self, model_name: &str) -> (r: Option<String>)
        requires
            self.well_formed(),
        ensures
            match r {
                Some(key) => is_best(self@, model_name@, key@),
                None => forall|key: Seq<char>| !#[trigger] has_score(self@, model_name@, key),
            },
    {
        let mut prefix: String = model_name.to_owned();
        prefix.append("_");
        let n: usize = self.models.len();
        let mut best: Option<usize> = None;
        let mut best_score: u64 = bits::NEG_INFINITY;
        let mut i: usize = 0;
        let ghost order = self.models.order();
        proof {
            self.models.lemma_order();
        }
        while i < n
            invariant
                self.well_formed(),
                order == self.models.order(),
                n == order.len(),
                prefix@ == model_name@ + "_"@,
                i <= n,
                match best {
                    Some(b) => b < i && has_score(self@, model_name@, order[b as int]) && best_score == score_of(
                        self@,
                        order[b as int],
                    ),
                    None => best_score == bits::NEG_INFINITY,
                },
                forall|x: int|
                    0 <= x < i && has_score(self@, model_name@, #[trigger] order[x]) ==> best is Some && !bits::less(
                        best_score,
                        score_of(self@, order[x]),
                    ),
            decreases n - i,
        {
            let (key, entry) = self.models.at(i);
            if text_eq(key.as_str(), model_name) || has_prefix(key.as_str(), prefix.as_str()) {
                let score: u64 = match entry.metadata.r_squared {
                    Some(r2) => r2,
                    None => bits::NEG_INFINITY,
                };
                assert(score == score_of(self@, key@));
                if is_less(best_score, score) {
                    best_score = score;
                    best = Some(i);
                }
            }
            i = i + 1;
        }
        proof {
            assert forall|key: Seq<char>| has_score(self@, model_name@, key) implies exists|x: int|
                0 <= x < order.len() && #[trigger] order[x] == key by {
                assert(order.to_set().contains(key));
                let x = choose|x: int| 0 <= x < order.len() && order[x] == key;
                assert(order[x] == key);
            }
        }
        match best {
            Some(b) => {
                let (key, _entry) = self.models.at(b);
                Some(key.clone())
            },
            None => None,
        }
    }

    /// Deploys a model under a name.
    /// - `best_score`: the key of the family of the name with the highest score
    /// - `rollback`: the previous deployment
    /// - `most_recent` and any other strategy: the given key
    pub fn deploy(&mut self, model_name: &str, strategy: &str, model_key: &str, now: u64) -> (r: Result<
        Deployment,
        String,
    >)
        requires
            old(self).well_formed(),
        ensures
            final(self).well_formed(),
            exists|actual: Result<Seq<char>, Seq<char>>| #[trigger]
                picks(old(self)@, model_name@, strategy@, model_key@, actual) && deploys(
                    old(self)@,
                    model_name@,
                    strategy@,
                    now,
                    actual,
                    r,
                    final(self)@,
                ),
    {
        let ghost before = self@;
        let actual_key: String = if text_eq(strategy, "best_score") {
            match self.best_key(model_name) {
                Some(key) => {
                    assert(picks(before, model_name@, strategy@, model_key@, Ok(key@)));
                    key
                },
                None => {
                    let mut e: String = "No model found for '".to_owned();
                    e.append(model_name);
                    e.append("' with best_score");
                    assert(picks(before, model_name@, strategy@, model_key@, Err(e@)));
                    return Err(e);
                },
            }
        } else if text_eq(strategy, "rollback") {
            match self.history.get(model_name) {
                Some(history) => {
                    let n: usize = history.len();
                    let key: String = history[n - 1].model_key.clone();
                    proof {
                        assert(before.history[model_name@] == deployment_views(history@));
                        assert(before.history[model_name@].last() == history@[n - 1]@);
                        assert(picks(before, model_name@, strategy@, model_key@, Ok(key@)));
                    }
                    key
                },
                None => {
                    let e: String = "No deployment history for rollback".to_owned();
                    assert(!before.history.contains_key(model_name@));
                    assert(picks(before, model_name@, strategy@, model_key@, Err(e@)));
                    return Err(e);
                },
            }
        } else {
            let key: String = model_key.to_owned();
            assert(picks(before, model_name@, strategy@, model_key@, Ok(key@)));
            key
        };
        if self.get(actual_key.as_str(), now).is_none() {
            let mut e: String = "Model '".to_owned();
            e.append(actual_key.as_str());
            e.append("' not found in registry");
            return Err(e);
        }
        let deployment = Deployment {
            model_key: actual_key.clone(),
            strategy: strategy.to_owned(),
            deployed_at: now,
        };
        let ghost shown = deployment@;
        self.push_history(model_name);
        self.deployments.insert(model_name, deployment.clone());
        proof {
            assert(self@.deployed =~= before.deployed.insert(model_name@, shown));
            assert(self@ =~= after_deploy(before, model_name@, shown));
            assert(shown == (DeploymentView { model_key: actual_key@, strategy: strategy@, deployed_at: now }));
        }
        Ok(deployment)
    }

    /// Makes what is deployed under a name a past deployment.
    fn push_history(&mut self, model_name: &str)
        requires
            old(self).well_formed(),
        ensures
            final(self).well_formed(),
            final(self)@ == (RegistryView { history: past_deployments(old(self)@, model_name@), ..old(self)@ }),
            final(self).deployments@ == old(self).deployments@,
    {
        let ghost before = self@;
        let current: Deployment = match self.deployments.get(model_name) {
            Some(d) => d.clone(),
            None => {
                assert(!before.deployed.contains_key(model_name@));
                assert(self@ =~= RegistryView { history: past_deployments(before, model_name@), ..before });
                return;
            },
        };
        assert(before.deployed[model_name@] == current@);
        let mut past: Vec<Deployment> = Vec::new();
        if let Some(history) = self.history.get(model_name) {
            let mut i: usize = 0;
            while i < history.len()
                invariant
                    i <= history@.len(),
                    past@.len() == i,
                    forall|x: int| 0 <= x < i ==> (#[trigger] past@[x])@ == history@[x]@,
                decreases history.len() - i,
            {
                past.push(history[i].clone());
                i = i + 1;
            }
            assert(deployment_views(past@) =~= before.history[model_name@]);
        } else {
            assert(!before.history.contains_key(model_name@));
            assert(deployment_views(past@) =~= Seq::empty());
        }
        let ghost earlier = deployment_views(past@);
        past.push(current);
        proof {
            assert(deployment_views(past@) =~= earlier.push(before.deployed[model_name@]));
        }
        let ghost grown = deployment_views(past@);
        self.history.insert(model_name, past);
        proof {
            assert(self@.history =~= before.history.insert(model_name@, grown));
            assert(self@ =~= RegistryView { history: past_deployments(before, model_name@), ..before });
        }
    }

    /// The key that is deployed under a name.
    pub fn get_deployed(&self, model_name: &str) -> (r: Option<String>)
        requires
            self.well_formed(),
        ensures
            match r {
                Some(key) => self@.deployed.contains_key(model_name@) && self@.deployed[model_name@].model_key == key@,
                None => !self@.deployed.contains_key(model_name@),
            },
    {
        match self.deployments.get(model_name) {
            Some(d) => Some(d.model_key.clone()),
            None => None,
        }
    }

    /// Every deployment: the name, the key, and the algorithm of the model where
    /// it is cached.
    pub fn get_deployment_info(&self) -> (r: Vec<(String, String, String)>)
        requires
            self.well_formed(),
        ensures
            r@.len() == self@.deployed.dom().len(),
            forall|i: int, j: int|
                #![trigger r@[i], r@[j]]
                0 <= i < j < r@.len() ==> r@[i].0@ != r@[j].0@,
            forall|i: int|
                #![trigger r@[i]]
                0 <= i < r@.len() ==> self@.deployed.contains_key(r@[i].0@) && r@[i].1@
                    == self@.deployed[r@[i].0@].model_key && r@[i].2@ == algorithm_name(self@, r@[i].1@),
    {
        let n: usize = self.deployments.len();
        let ghost order = self.deployments.order();
        proof {
            self.deployments.lemma_order();
            assert(self@.deployed.dom() =~= self.deployments@.dom());
        }
        let mut r: Vec<(String, String, String)> = Vec::new();
        let mut i: usize = 0;
        while i < n
            invariant
                self.well_formed(),
                order == self.deployments.order(),
                n == order.len(),
                i <= n,
                r@.len() == i,
                forall|x: int|
                    #![trigger r@[x]]
                    0 <= x < i ==> r@[x].0@ == order[x] && self@.deployed.contains_key(r@[x].0@) && r@[x].1@
                        == self@.deployed[r@[x].0@].model_key && r@[x].2@ == algorithm_name(self@, r@[x].1@),
            decreases n - i,
        {
            let (name, dep) = self.deployments.at(i);
            let algorithm: String = match self.models.get(dep.model_key.as_str()) {
                Some(entry) => entry.metadata.algorithm.name(),
                None => String::new(),
            };
            assert(algorithm@ =~= algorithm_name(self@, dep.model_key@));
            r.push((name.clone(), dep.model_key.clone(), algorithm));
            i = i + 1;
        }
        r
    }

    /// The model that serves a name: the deployed one where it is cached, else
    /// the one of that very name. Its use is noted.
    pub fn get_deployed_model(&mut self, model_name: &str, now: u64) -> (r: Option<&CacheEntry<M>>)
        requires
            old(self).well_formed(),
        ensures
            final(self).well_formed(),
            ({
                let key = serving_key(old(self)@, model_name@);
                match r {
                    Some(entry) => old(self)@.models.contains_key(key) && *entry == old(self)@.models[key]
                        && final(self)@ == touched(old(self)@, key, now),
                    None => !old(self)@.models.contains_key(key) && final(self)@ == old(self)@,
                }
            }),
    {
        if let Some(key) = self.get_deployed(model_name) {
            if self.models.get(key.as_str()).is_some() {
                return self.get(key.as_str(), now);
            }
        }
        self.get(model_name, now)
    }

    /// Registers a data snapshot.
    pub fn add_snapshot(&mut self, snap: DataSnapshot)
        requires
            old(self).well_formed(),
        ensures
            final(self).well_formed(),
            final(self)@ == (RegistryView { snapshots: old(self)@.snapshots.push(snap@), ..old(self)@ }),
    {
        let ghost before = self@;
        self.snapshots.push(snap);
        assert(self@ =~= RegistryView { snapshots: before.snapshots.push(snap@), ..before });
    }

    /// The snapshots of a model, in the order of registration.
    pub fn list_snapshots(&self, model_name: &str) -> (r: Vec<DataSnapshot>)
        requires
            self.well_formed(),
        ensures
            snapshot_views(r@) == snapshots_of(self@.snapshots, model_name@, self@.snapshots.len()),
    {
        let ghost all = self@.snapshots;
        let mut r: Vec<DataSnapshot> = Vec::new();
        let mut i: usize = 0;
        assert(snapshot_views(r@) =~= Seq::empty());
        while i < self.snapshots.len()
            invariant
                all == snapshot_views(self.snapshots@),
                i <= self.snapshots@.len(),
                snapshot_views(r@) == snapshots_of(all, model_name@, i as nat),
            decreases self.snapshots.len() - i,
        {
            assert(all[i as int] == self.snapshots@[i as int]@);
            if text_eq(self.snapshots[i].model_name.as_str(), model_name) {
                let ghost before = snapshot_views(r@);
                r.push(self.snapshots[i].clone());
                assert(snapshot_views(r@) =~= before.push(all[i as int]));
            }
            i = i + 1;
        }
        r
    }

    /// Keeps the training data of a model for later use by its name.
    pub fn cache_dataset(&mut self, name: &str, rows: Vec<Vec<u64>>)
        requires
            old(self).well_formed(),
        ensures
            final(self).well_formed(),
            final(self)@ == (RegistryView {
                datasets: old(self)@.datasets.insert(name@, table(rows@)),
                ..old(self)@
            }),
    {
        let ghost before = self@;
        self.datasets.insert(name, rows);
        assert(self@.datasets =~= before.datasets.insert(name@, table(rows@)));
        assert(self@ =~= RegistryView { datasets: before.datasets.insert(name@, table(rows@)), ..before });
    }

    /// The dataset that was kept under a name.
    pub fn get_dataset(&self, name: &str) -> (r: Option<&Vec<Vec<u64>>>)
        requires
            self.well_formed(),
        ensures
            match r {
                Some(rows) => self@.datasets.contains_key(name@) && self@.datasets[name@] == table(rows@),
                None => !self@.datasets.contains_key(name@),
            },
    {
        self.datasets.get(name)
    }

    /// Keeps the class labels of a model that was trained on text labels.
    pub fn set_label_map(&mut self, name: &str, labels: Vec<String>)
        requires
            old(self).well_formed(),
        ensures
            final(self).well_formed(),
            final(self)@ == (RegistryView {
                labels: old(self)@.labels.insert(name@, text::texts(labels@)),
                ..old(self)@
            }),
    {
        let ghost before = self@;
        self.labels.insert(name, labels);
        assert(self@.labels =~= before.labels.insert(name@, text::texts(labels@)));
        assert(self@ =~= RegistryView { labels: before.labels.insert(name@, text::texts(labels@)), ..before });
    }

    /// The class labels of a model that was trained on text labels.
    pub fn label_map_for(&self, name: &str) -> (r: Option<&Vec<String>>)
        requires
            self.well_formed(),
        ensures
            match r {
                Some(labels) => self@.labels.contains_key(name@) && self@.labels[name@] == text::texts(labels@),
                None => !self@.labels.contains_key(name@),
            },
    {
        self.labels.get(name)
    }
}

/// The cache never holds more models than allowed, or one where none is.
pub proof fn law_cache_stays_bounded<M>(
    s: RegistryView<M>,
    name: Seq<char>,
    entry: CacheEntry<M>,
    now: u64,
    next: RegistryView<M>,
)
    requires
        s.models.dom().finite(),
        s.last_used.dom() == s.models.dom(),
        s.models.dom().len() <= cache_limit(s.max_cached),
        inserts(s, name, entry, now, next),
    ensures
        next.models.dom().len() <= cache_limit(next.max_cached),
{
    if must_evict(s, name) {
        let victim = choose|victim: Seq<char>| #[trigger]
            is_oldest(s, victim) && next == cached(dropped(s, victim), name, entry, now);
        assert(next.models.dom() =~= s.models.dom().remove(victim).insert(name));
    } else {
        assert(next.models.dom() =~= s.models.dom().insert(name));
        if s.models.contains_key(name) {
            assert(s.models.dom().insert(name) =~= s.models.dom());
        }
    }
}

/// The model that goes where a full cache takes a new one: it was not used for the
/// longest time, and it is the only one that goes.
pub open spec fn only_victim<M>(
    s: RegistryView<M>,
    name: Seq<char>,
    next: RegistryView<M>,
    victim: Seq<char>,
) -> bool {
    is_oldest(s, victim) && next.models.dom() == s.models.dom().remove(victim).insert(name)
}

/// What putting a model into the cache comes to: it is there; no other model goes as
/// long as there is room or the name was there before; else exactly one goes, which
/// was not used for the longest time; and whatever stays is unchanged.
pub proof fn law_insert_evicts_one<M>(
    s: RegistryView<M>,
    name: Seq<char>,
    entry: CacheEntry<M>,
    now: u64,
    next: RegistryView<M>,
)
    requires
        s.max_cached >= 1,
        inserts(s, name, entry, now, next),
    ensures
        next.models.contains_key(name) && next.models[name] == entry,
        s.models.contains_key(name) || s.models.dom().len() < s.max_cached ==> next.models.dom()
            == s.models.dom().insert(name),
        !s.models.contains_key(name) && s.models.dom().len() >= s.max_cached ==> exists|victim: Seq<char>| #[trigger]
            only_victim(s, name, next, victim),
        forall|other: Seq<char>|
            other != name && #[trigger] next.models.contains_key(other) ==> s.models.contains_key(other)
                && next.models[other] == s.models[other],
{
    if must_evict(s, name) {
        let victim = choose|victim: Seq<char>| #[trigger]
            is_oldest(s, victim) && next == cached(dropped(s, victim), name, entry, now);
        assert(next.models.dom() =~= s.models.dom().remove(victim).insert(name));
        assert(only_victim(s, name, next, victim));
    } else {
        assert(next.models.dom() =~= s.models.dom().insert(name));
    }
}

/// Where no two models were last used at the same time, there is only one that was
/// not used for the longest time.
pub proof fn law_oldest_is_unique<M>(s: RegistryView<M>, a: Seq<char>, b: Seq<char>)
    requires
        forall|x: Seq<char>, y: Seq<char>|
            #![trigger s.last_used[x], s.last_used[y]]
            s.last_used.contains_key(x) && s.last_used.contains_key(y) && s.last_used[x] == s.last_used[y] ==> x == y,
        is_oldest(s, a),
        is_oldest(s, b),
    ensures
        a == b,
{
}

/// A full cache lets go of no model that was used later than another one.
pub proof fn law_recently_used_model_stays<M>(
    s: RegistryView<M>,
    name: Seq<char>,
    entry: CacheEntry<M>,
    now: u64,
    next: RegistryView<M>,
    used: Seq<char>,
    other: Seq<char>,
)
    requires
        inserts(s, name, entry, now, next),
        s.models.contains_key(used),
        s.last_used.contains_key(used),
        s.last_used.contains_key(other),
        s.last_used[other] < s.last_used[used],
    ensures
        next.models.contains_key(used),
{
}

/// A rollback brings back what was deployed before the last deployment.
pub proof fn law_rollback_restores_previous<M>(
    s: RegistryView<M>,
    model_name: Seq<char>,
    last: DeploymentView,
    model_key: Seq<char>,
)
    requires
        s.deployed.contains_key(model_name),
    ensures
        picks(
            after_deploy(s, model_name, last),
            model_name,
            "rollback"@,
            model_key,
            Ok(s.deployed[model_name].model_key),
        ),
{
    reveal_strlit("rollback");
    reveal_strlit("best_score");
    assert("rollback"@.len() != "best_score"@.len());
}

/// Deploying touches no other name, no cached model, no snapshot and no dataset.
pub proof fn law_deploy_leaves_the_rest<M>(
    s: RegistryView<M>,
    model_name: Seq<char>,
    deployment: DeploymentView,
    other: Seq<char>,
)
    requires
        other != model_name,
    ensures
        ({
            let t = after_deploy(s, model_name, deployment);
            &&& t.deployed.contains_key(other) == s.deployed.contains_key(other)
            &&& s.deployed.contains_key(other) ==> t.deployed[other] == s.deployed[other]
            &&& t.history.contains_key(other) == s.history.contains_key(other)
            &&& s.history.contains_key(other) ==> t.history[other] == s.history[other]
            &&& t.models == s.models
            &&& t.snapshots == s.snapshots
            &&& t.datasets == s.datasets
        }),
{
}

/// What was deployed under a name serves that name, as long as it is cached.
pub proof fn law_deployed_model_serves<M>(s: RegistryView<M>, model_name: Seq<char>, deployment: DeploymentView)
    requires
        s.models.contains_key(deployment.model_key),
    ensures
        serving_key(after_deploy(s, model_name, deployment), model_name) == deployment.model_key,
{
}

/// A snapshot that is registered is listed last among those of its model, and the
/// lists of other models stay as they are.
pub proof fn law_snapshot_is_listed(all: Seq<SnapshotView>, snap: SnapshotView, model_name: Seq<char>)
    ensures
        snapshots_of(all.push(snap), model_name, all.len() + 1) == if snap.model_name == model_name {
            snapshots_of(all, model_name, all.len()).push(snap)
        } else {
            snapshots_of(all, model_name, all.len())
        },
{
    lemma_snapshots_prefix(all, snap, model_name, all.len());
}

proof fn lemma_snapshots_prefix(all: Seq<SnapshotView>, snap: SnapshotView, model_name: Seq<char>, n: nat)
    requires
        n <= all.len(),
    ensures
        snapshots_of(all.push(snap), model_name, n) == snapshots_of(all, model_name, n),
    decreases n,
{
    if n > 0 {
        lemma_snapshots_prefix(all, snap, model_name, (n - 1) as nat);
    }
}

} // verus!
