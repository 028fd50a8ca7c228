//! What a registry keeps and shows.

use vstd::prelude::*;
use crate::api::{LBindData, ListModelsFn};
use crate::load::{LoadOnnxFn, LoadRequest, LoadXgbFn};
use crate::model::registry;
use crate::model::registry::{CacheEntry, ModelRegistry};
use crate::model::types;
use crate::laws::texts;
use crate::table::{chunk_size, take_turn};
use crate::text;

verus! {

/// A dataset is found under its name as it was kept, and others stay as they are.
pub proof fn law_kept_dataset_is_found<M>(
    registry: &mut ModelRegistry<M>,
    after: &ModelRegistry<M>,
    name: &str,
    rows: Vec<Vec<u64>>,
    other: &str,
    r: Option<&Vec<Vec<u64>>>,
    before: Option<&Vec<Vec<u64>>>,
    start: &ModelRegistry<M>,
)
    requires
        call_ensures(ModelRegistry::<M>::cache_dataset, (registry, name, rows), ()),
        *after == *final(registry),
        *start == *old(registry),
        call_ensures(ModelRegistry::<M>::get_dataset, (after, other), r),
        call_ensures(ModelRegistry::<M>::get_dataset, (start, other), before),
    ensures
        other@ == name@ ==> r is Some && r->0@.len() == rows@.len() && forall|i: int|
            0 <= i < rows@.len() ==> (#[trigger] r->0@[i])@ == rows@[i]@,
        other@ != name@ ==> (r is Some <==> before is Some),
        other@ != name@ && r is Some ==> r->0@.len() == before->0@.len() && forall|i: int|
            0 <= i < r->0@.len() ==> (#[trigger] r->0@[i])@ == before->0@[i]@,
        after@.models == start@.models,
        after@.deployed == start@.deployed,
{
    if r is Some {
        let got = registry::table(r->0@);
        assert(got.len() == r->0@.len());
        let want = if other@ == name@ {
            rows@
        } else {
            before->0@
        };
        assert(registry::table(want).len() == want.len());
        assert forall|i: int| 0 <= i < want.len() implies (#[trigger] r->0@[i])@ == want[i]@ by {
            assert(got[i] == registry::table(want)[i]);
        }
    }
}

/// Labels are found under the name of their model as they were kept.
pub proof fn law_kept_labels_are_found<M>(
    registry: &mut ModelRegistry<M>,
    after: &ModelRegistry<M>,
    name: &str,
    labels: Vec<String>,
    r: Option<&Vec<String>>,
)
    requires
        call_ensures(ModelRegistry::<M>::set_label_map, (registry, name, labels), ()),
        *after == *final(registry),
        call_ensures(ModelRegistry::<M>::label_map_for, (after, name), r),
    ensures
        r is Some,
        r->0@.len() == labels@.len(),
        forall|i: int| 0 <= i < labels@.len() ==> (#[trigger] r->0@[i])@ == labels@[i]@,
{
    let got = text::texts(r->0@);
    assert(got.len() == r->0@.len());
    assert(text::texts(labels@).len() == labels@.len());
    assert forall|i: int| 0 <= i < labels@.len() implies (#[trigger] r->0@[i])@ == labels@[i]@ by {
        assert(got[i] == text::texts(labels@)[i]);
    }
}

/// A model that was removed is gone, and the others are there as before.
pub proof fn law_removed_model_is_gone<M>(
    registry: &mut ModelRegistry<M>,
    after: &ModelRegistry<M>,
    start: &ModelRegistry<M>,
    name: &str,
    other: &str,
    before: Option<&CacheEntry<M>>,
    r: Option<&CacheEntry<M>>,
)
    requires
        call_ensures(ModelRegistry::<M>::remove, (registry, name), ()),
        *after == *final(registry),
        *start == *old(registry),
        call_ensures(ModelRegistry::<M>::peek, (start, other), before),
        call_ensures(ModelRegistry::<M>::peek, (after, other), r),
    ensures
        other@ == name@ ==> r is None,
        other@ != name@ ==> (r is Some <==> before is Some),
        other@ != name@ && r is Some ==> *r->0 == *before->0,
        after@.deployed == start@.deployed,
        after@.snapshots == start@.snapshots,
{
}

/// The cached models are listed, each once, and their number is that of the list.
pub proof fn law_list_names_the_models<M>(
    registry: &ModelRegistry<M>,
    names: Vec<String>,
    n: usize,
    empty: bool,
    name: Seq<char>,
)
    requires
        call_ensures(ModelRegistry::<M>::list, (registry,), names),
        call_ensures(ModelRegistry::<M>::len, (registry,), n),
        call_ensures(ModelRegistry::<M>::is_empty, (registry,), empty),
    ensures
        names@.len() == n,
        empty == (n == 0),
        registry@.models.contains_key(name) <==> exists|i: int| 0 <= i < names@.len() && (#[trigger] names@[i])@ == name,
        forall|i: int, j: int|
            #![trigger names@[i], names@[j]]
            0 <= i < j < names@.len() ==> names@[i]@ != names@[j]@,
{
    let listed = text::texts(names@);
    assert(listed.to_set().contains(name) <==> registry@.models.dom().contains(name));
    if listed.contains(name) {
        let i = choose|i: int| 0 <= i < listed.len() && listed[i] == name;
        assert(names@[i]@ == name);
    }
    if exists|i: int| 0 <= i < names@.len() && (#[trigger] names@[i])@ == name {
        let i = choose|i: int| 0 <= i < names@.len() && (#[trigger] names@[i])@ == name;
        assert(listed[i] == name);
    }
    assert forall|i: int, j: int| #![trigger names@[i], names@[j]] 0 <= i < j < names@.len() implies names@[i]@
        != names@[j]@ by {
        assert(listed[i] != listed[j]);
    }
}

/// The list of models shows for each of them its algorithm and its measures, and all
/// count as used now.
pub proof fn law_models_are_shown<M>(registry: &mut ModelRegistry<M>, now: u64, r: LBindData, i: int, name: Seq<char>)
    requires
        call_ensures(ListModelsFn::bind::<M>, (registry, now), r),
        0 <= i < r.names@.len(),
        r.names@[i]@ == name,
    ensures
        old(registry)@.models.contains_key(name),
        r.algorithms@[i]@ == types::name_of(old(registry)@.models[name].metadata.algorithm),
        r.r_squared@[i] == old(registry)@.models[name].metadata.r_squared,
        r.mse@[i] == old(registry)@.models[name].metadata.mse,
        final(registry)@.models == old(registry)@.models,
        final(registry)@.last_used[name] == now,
{
    assert(r.row_shows(old(registry)@, i));
}

/// Each model has a row in the list.
pub proof fn law_every_model_is_shown<M>(registry: &mut ModelRegistry<M>, now: u64, r: LBindData, name: Seq<char>)
    requires
        call_ensures(ListModelsFn::bind::<M>, (registry, now), r),
        old(registry)@.models.contains_key(name),
    ensures
        exists|i: int| 0 <= i < r.names@.len() && (#[trigger] r.names@[i])@ == name,
        r.algorithms@.len() == r.names@.len(),
        r.r_squared@.len() == r.names@.len(),
        r.mse@.len() == r.names@.len(),
{
    let listed = text::texts(r.names@);
    assert(listed.to_set().contains(name));
    let i = choose|i: int| 0 <= i < listed.len() && listed[i] == name;
    assert(r.names@[i]@ == name);
}

/// Each deployment is told once, with its key and with the algorithm of the model
/// where that is cached.
pub proof fn law_deployments_are_told<M>(registry: &ModelRegistry<M>, r: Vec<(String, String, String)>, i: int)
    requires
        call_ensures(ModelRegistry::<M>::get_deployment_info, (registry,), r),
        0 <= i < r@.len(),
    ensures
        r@.len() == registry@.deployed.dom().len(),
        registry@.deployed.contains_key(r@[i].0@),
        r@[i].1@ == registry@.deployed[r@[i].0@].model_key,
        registry@.models.contains_key(r@[i].1@) ==> r@[i].2@ == types::name_of(
            registry@.models[r@[i].1@].metadata.algorithm,
        ),
        !registry@.models.contains_key(r@[i].1@) ==> r@[i].2@.len() == 0,
        forall|j: int| 0 <= j < r@.len() && j != i ==> (#[trigger] r@[j]).0@ != r@[i].0@,
{
    assert(r@[i].1@ == registry@.deployed[r@[i].0@].model_key);
}

/// A chunk holds what is left, but no more than 2048 rows, and something wherever
/// something is left.
pub proof fn law_chunks_move_on(total: usize, cursor: usize, n: usize)
    requires
        call_ensures(chunk_size, (total, cursor), n),
    ensures
        n <= 2048,
        cursor < total ==> 0 < n <= total - cursor,
        cursor < total ==> n == 2048 || n == total - cursor,
        cursor >= total ==> n == 0,
{
}

/// There is one turn.
pub proof fn law_turn_is_taken_once(done: &mut bool, first: bool)
    requires
        call_ensures(take_turn, (done,), first),
    ensures
        first <==> !*old(done),
        *final(done),
{
}

/// A graph is loaded under the first argument from the file in the second, with the
/// number of features in the third, or 0 without one.
pub proof fn law_graph_request_is_read(args: &Vec<String>, r: Result<LoadRequest, String>, n: int)
    requires
        call_ensures(LoadOnnxFn::plan, (args,), r),
    ensures
        args@.len() < 2 ==> r is Err,
        args@.len() == 2 ==> r is Ok && r->Ok_0.num_features == 0,
        args@.len() >= 3 ==> (r is Ok && r->Ok_0.num_features == n <==> texts::is_numeral(args@[2]@, n) && 0 <= n
            <= usize::MAX && args@[2]@[0] != '-'),
        r is Ok ==> r->Ok_0.model_name@ == args@[0]@ && r->Ok_0.file_path@ == args@[1]@,
{
    if args@.len() >= 3 {
        assert(text::texts(args@)[2] == args@[2]@);
        texts::lemma_whole_number(args@[2]@, 0, usize::MAX as int, n);
    }
}

/// Boosted trees are loaded under the first argument from the file in the second.
pub proof fn law_trees_request_is_read(args: &Vec<String>, r: Result<LoadRequest, String>)
    requires
        call_ensures(LoadXgbFn::plan, (args,), r),
    ensures
        r is Ok <==> args@.len() >= 2,
        r is Ok ==> r->Ok_0.model_name@ == args@[0]@ && r->Ok_0.file_path@ == args@[1]@,
{
}

} // verus!
