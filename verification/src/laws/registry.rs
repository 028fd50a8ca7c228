//! What the registry keeps, deploys and lists.

use vstd::prelude::*;
use crate::bits;
use crate::deploy::{DBindData, DeployFn};
use crate::json;
use crate::laws::documents;
use crate::laws::reals;
use crate::load::{LBindData, LoadOnnxFn};
use crate::model::registry;
use crate::model::registry::{CacheEntry, DataSnapshot, Deployment, ModelRegistry};
use crate::model::types;
use crate::numbers;
use crate::snapshot::{SBindData, SnapshotFn};
use crate::text;

verus! {

/// The key is the name itself, or the name, an underscore and more.
pub open spec fn belongs(key: Seq<char>, name: Seq<char>) -> bool {
    key == name || (key.len() > name.len() && key.take(name.len() as int) == name && key[name.len() as int] == '_')
}

proof fn lemma_belongs(key: Seq<char>, name: Seq<char>)
    ensures
        registry::in_family(key, name) == belongs(key, name),
{
    reveal_strlit("_");
    let prefix = name + "_"@;
    if prefix.is_prefix_of(key) {
        assert(key.take(name.len() as int) =~= name);
        assert(prefix[name.len() as int] == '_');
    }
    if belongs(key, name) && key != name {
        assert(prefix =~= key.take(prefix.len() as int)) by {
            assert forall|i: int| 0 <= i < prefix.len() implies prefix[i] == key[i] by {
                if i < name.len() {
                    assert(key.take(name.len() as int)[i] == name[i]);
                }
            }
        }
    }
}

/// A cached model has a score: a number above negative infinity.
pub open spec fn has_score<M>(entry: CacheEntry<M>) -> bool {
    entry.metadata.r_squared matches Some(x) && reals::is_number(x) && reals::value(x) > reals::value(
        bits::NEG_INFINITY,
    )
}

proof fn lemma_has_score<M>(s: registry::RegistryView<M>, name: Seq<char>, key: Seq<char>)
    ensures
        registry::has_score(s, name, key) == (s.models.contains_key(key) && belongs(key, name) && has_score(s.models[key])),
{
    lemma_belongs(key, name);
    reals::law_order_is_of_values(bits::NEG_INFINITY, registry::score_of(s, key));
    reals::law_constants_have_their_values();
}

/// What a deployment by the best score serves is a cached model of the name's family
/// with a score, and no cached model of the family has a higher one.
pub proof fn law_best_score_is_deployed<M>(
    registry: &mut ModelRegistry<M>,
    name: &str,
    key: &str,
    now: u64,
    d: Deployment,
    other: Seq<char>,
)
    requires
        call_ensures(ModelRegistry::<M>::deploy, (registry, name, "best_score", key, now), Ok(d)),
    ensures
        old(registry)@.models.contains_key(d.model_key@),
        belongs(d.model_key@, name@),
        has_score(old(registry)@.models[d.model_key@]),
        old(registry)@.models.contains_key(other) && belongs(other, name@) && has_score(old(registry)@.models[other])
            ==> reals::value(old(registry)@.models[other].metadata.r_squared->0) <= reals::value(
            old(registry)@.models[d.model_key@].metadata.r_squared->0,
        ),
        final(registry)@.deployed.contains_key(name@),
        final(registry)@.deployed[name@].model_key == d.model_key@,
{
    let s = old(registry)@;
    lemma_has_score(s, name@, d.model_key@);
    lemma_has_score(s, name@, other);
    reals::law_order_is_of_values(registry::score_of(s, d.model_key@), registry::score_of(s, other));
}

/// Where some cached model of the family has a score, deploying by the best score
/// succeeds; where none has, it fails and changes nothing.
pub proof fn law_best_score_needs_a_score<M>(
    registry: &mut ModelRegistry<M>,
    name: &str,
    key: &str,
    now: u64,
    r: Result<Deployment, String>,
    other: Seq<char>,
)
    requires
        call_ensures(ModelRegistry::<M>::deploy, (registry, name, "best_score", key, now), r),
    ensures
        old(registry)@.models.contains_key(other) && belongs(other, name@) && has_score(old(registry)@.models[other])
            ==> r is Ok,
        r is Err ==> final(registry)@ == old(registry)@,
{
    lemma_has_score(old(registry)@, name@, other);
}

/// A rollback serves again what was deployed under the name before the last
/// deployment, whatever was deployed last and whichever key is given.
pub proof fn law_rollback_undoes_a_deployment<M>(
    a: &mut ModelRegistry<M>,
    b: &mut ModelRegistry<M>,
    name: &str,
    strategy: &str,
    key: &str,
    other: &str,
    now: u64,
    later: u64,
    last: Deployment,
    r: Result<Deployment, String>,
)
    requires
        call_ensures(ModelRegistry::<M>::deploy, (a, name, strategy, key, now), Ok(last)),
        old(b)@ == final(a)@,
        call_ensures(ModelRegistry::<M>::deploy, (b, name, "rollback", other, later), r),
        old(a)@.deployed.contains_key(name@),
    ensures
        r is Ok <==> old(a)@.models.contains_key(old(a)@.deployed[name@].model_key),
        r matches Ok(d) ==> d.model_key@ == old(a)@.deployed[name@].model_key && final(b)@.deployed[name@].model_key
            == old(a)@.deployed[name@].model_key,
{
    assert("rollback"@ != "best_score"@) by {
        reveal_strlit("rollback");
        reveal_strlit("best_score");
        assert("rollback"@.len() == 8 && "best_score"@.len() == 10);
    }
}

/// Any strategy but the two deploys the given key, where it is cached.
pub proof fn law_given_key_is_deployed<M>(
    registry: &mut ModelRegistry<M>,
    name: &str,
    strategy: &str,
    key: &str,
    now: u64,
    r: Result<Deployment, String>,
)
    requires
        call_ensures(ModelRegistry::<M>::deploy, (registry, name, strategy, key, now), r),
        strategy@ != "best_score"@,
        strategy@ != "rollback"@,
    ensures
        r is Ok <==> old(registry)@.models.contains_key(key@),
        r matches Ok(d) ==> d.model_key@ == key@ && d.strategy@ == strategy@ && d.deployed_at == now
            && final(registry)@.deployed[name@].model_key == key@,
        r is Err ==> final(registry)@ == old(registry)@,
{
}

/// The deployment function deploys by its arguments: the name, the strategy and the
/// key, which is the name where none is given; its row tells the key and the algorithm
/// of what is deployed, or what went wrong.
pub proof fn law_deploy_row_tells_what_is_deployed<M>(
    args: Vec<String>,
    registry: &mut ModelRegistry<M>,
    now: u64,
    row: DBindData,
)
    requires
        call_ensures(DeployFn::bind::<M>, (&args, registry, now), Ok(row)),
    ensures
        args@.len() >= 2,
        row.model_name@ == args@[0]@,
        row.strategy@ == args@[1]@,
        row.success ==> {
            &&& old(registry)@.models.contains_key(row.model_key@)
            &&& row.algorithm@ == types::name_of(old(registry)@.models[row.model_key@].metadata.algorithm)
            &&& row.error_msg@.len() == 0
            &&& final(registry)@.deployed.contains_key(args@[0]@)
            &&& final(registry)@.deployed[args@[0]@].model_key == row.model_key@
            &&& args@[1]@ != "best_score"@ && args@[1]@ != "rollback"@ ==> row.model_key@ == if args@.len() >= 3 {
                args@[2]@
            } else {
                args@[0]@
            }
            &&& args@[1]@ == "best_score"@ ==> belongs(row.model_key@, args@[0]@) && has_score(
                old(registry)@.models[row.model_key@],
            )
            &&& args@[1]@ == "rollback"@ ==> old(registry)@.history.contains_key(args@[0]@) && row.model_key@ == old(registry)@.history[args@[0]@].last().model_key
        },
        !row.success ==> final(registry)@ == old(registry)@ && row.model_key@.len() == 0,
{
    let given = text::texts(args@);
    let s = old(registry)@;
    assert(given[0] == args@[0]@ && given[1] == args@[1]@);
    if args@.len() >= 3 {
        assert(given[2] == args@[2]@);
    }
    lemma_has_score(s, args@[0]@, row.model_key@);
    assert("rollback"@ != "best_score"@) by {
        reveal_strlit("rollback");
        reveal_strlit("best_score");
        assert("rollback"@.len() == 8 && "best_score"@.len() == 10);
    }
}

/// Looking a model up gives what is cached under the name, and makes it the one that
/// was used last; nothing else changes.
pub proof fn law_lookup_notes_the_use<M>(
    registry: &mut ModelRegistry<M>,
    name: &str,
    now: u64,
    r: Option<&CacheEntry<M>>,
    other: Seq<char>,
)
    requires
        call_ensures(ModelRegistry::<M>::get, (registry, name, now), r),
    ensures
        r is Some <==> old(registry)@.models.contains_key(name@),
        r matches Some(entry) ==> *entry == old(registry)@.models[name@] && final(registry)@.last_used[name@] == now,
        final(registry)@.models == old(registry)@.models,
        other != name@ && old(registry)@.last_used.contains_key(other) ==> final(registry)@.last_used[other]
            == old(registry)@.last_used[other],
{
}

/// The model that serves a name is the deployed one as long as it is cached, else the
/// one of that very name.
pub proof fn law_deployed_model_serves_its_name<M>(
    registry: &mut ModelRegistry<M>,
    name: &str,
    now: u64,
    r: Option<&CacheEntry<M>>,
)
    requires
        call_ensures(ModelRegistry::<M>::get_deployed_model, (registry, name, now), r),
    ensures
        old(registry)@.deployed.contains_key(name@) && old(registry)@.models.contains_key(
            old(registry)@.deployed[name@].model_key,
        ) ==> r is Some && *(r->0) == old(registry)@.models[old(registry)@.deployed[name@].model_key],
        !old(registry)@.deployed.contains_key(name@) || !old(registry)@.models.contains_key(
            old(registry)@.deployed[name@].model_key,
        ) ==> (r is Some <==> old(registry)@.models.contains_key(name@)) && (r is Some ==> *(r->0)
            == old(registry)@.models[name@]),
{
}

/// What is put into the cache is there under its name; no other name gets another
/// model; a model goes only where the cache is full and the name is new, and then none
/// that was used later than another one.
pub proof fn law_cached_model_is_there<M>(
    registry: &mut ModelRegistry<M>,
    name: &str,
    entry: CacheEntry<M>,
    now: u64,
    r: (),
    used: Seq<char>,
    older: Seq<char>,
)
    requires
        call_ensures(ModelRegistry::<M>::insert, (registry, name, entry, now), r),
        old(registry).well_formed(),
        old(registry)@.max_cached >= 1,
    ensures
        final(registry)@.models.contains_key(name@),
        final(registry)@.models[name@] == entry,
        final(registry)@.last_used[name@] == now,
        final(registry)@.models.dom().len() <= final(registry)@.max_cached,
        used != name@ && final(registry)@.models.contains_key(used) ==> old(registry)@.models.contains_key(used)
            && final(registry)@.models[used] == old(registry)@.models[used],
        old(registry)@.models.contains_key(used) && (old(registry)@.models.contains_key(name@)
            || old(registry)@.models.dom().len() < old(registry)@.max_cached) ==> final(registry)@.models.contains_key(
            used,
        ),
        old(registry)@.models.contains_key(used) && old(registry)@.models.contains_key(older)
            && old(registry)@.last_used[older] < old(registry)@.last_used[used]
            ==> final(registry)@.models.contains_key(used),
{
    old(registry).law_parts_agree();
    let s = old(registry)@;
    let next = final(registry)@;
    registry::law_cache_stays_bounded(s, name@, entry, now, next);
    registry::law_insert_evicts_one(s, name@, entry, now, next);
    if s.models.contains_key(used) && s.models.contains_key(older) && s.last_used[older] < s.last_used[used] {
        assert(s.last_used.dom().contains(used) && s.last_used.dom().contains(older));
        registry::law_recently_used_model_stays(s, name@, entry, now, next, used, older);
    }
}

/// The snapshots that are listed for a model are those that were registered for it, all
/// of them and in that order.
pub proof fn law_snapshots_are_listed_by_model<M>(registry: &ModelRegistry<M>, name: &str, r: Vec<DataSnapshot>)
    requires
        call_ensures(ModelRegistry::<M>::list_snapshots, (registry, name), r),
    ensures
        r@.map_values(|d: DataSnapshot| d@) == registry@.snapshots.filter(
            |d: registry::SnapshotView| d.model_name == name@,
        ),
{
    let all = registry@.snapshots;
    lemma_listed(all, name@, all.len());
    assert(all.take(all.len() as int) =~= all);
    assert(r@.map_values(|d: DataSnapshot| d@) =~= registry::snapshot_views(r@));
}

proof fn lemma_listed(all: Seq<registry::SnapshotView>, name: Seq<char>, n: nat)
    requires
        n <= all.len(),
    ensures
        registry::snapshots_of(all, name, n) == all.take(n as int).filter(
            |d: registry::SnapshotView| d.model_name == name,
        ),
    decreases n,
{
    reveal(Seq::filter);
    if n > 0 {
        lemma_listed(all, name, (n - 1) as nat);
        assert(all.take(n as int).drop_last() =~= all.take(n - 1));
        assert(all.take(n as int).last() == all[n - 1]);
    }
}

proof fn lemma_digits_bound(digits: Seq<char>, max: nat, beyond: Seq<char>, n: nat)
    ensures
        numbers::digits_value(digits, max, beyond, n) matches Ok(v) ==> v <= max,
    decreases n,
{
    if n > 0 {
        lemma_digits_bound(digits, max, beyond, (n - 1) as nat);
    }
}

proof fn lemma_number_fits(text: Seq<char>)
    ensures
        numbers::whole_number(text, i32::MIN as int, i32::MAX as int) matches Ok(v) ==> i32::MIN <= v <= i32::MAX,
{
    let rest = text.subrange(1, text.len() as int);
    let low = (-(i32::MIN as int)) as nat;
    let high = i32::MAX as nat;
    lemma_digits_bound(rest, low, "number too small to fit in target type"@, rest.len());
    lemma_digits_bound(rest, high, "number too large to fit in target type"@, rest.len());
    lemma_digits_bound(text, high, "number too large to fit in target type"@, text.len());
}

/// A snapshot is registered behind the others, with what its arguments say, each in its
/// place; and its row repeats them.
pub proof fn law_snapshot_keeps_its_arguments<M>(
    args: Vec<String>,
    registry: &mut ModelRegistry<M>,
    row: SBindData,
    columns: Seq<Seq<char>>,
)
    requires
        call_ensures(SnapshotFn::bind::<M>, (&args, registry), Ok(row)),
        args@.len() >= 7,
        json::json_document(args@[5]@) matches Ok(doc) && documents::is_texts(doc, columns),
    ensures
        final(registry)@.snapshots.len() == old(registry)@.snapshots.len() + 1,
        final(registry)@.snapshots.drop_last() == old(registry)@.snapshots,
        ({
            let snap = final(registry)@.snapshots.last();
            &&& snap.model_name == args@[0]@
            &&& snap.relation_name == args@[1]@
            &&& row.n_features >= 0 ==> snap.n_features == row.n_features
            &&& row.n_samples >= 0 ==> snap.n_samples == row.n_samples
            &&& snap.target_column == args@[4]@
            &&& snap.feature_columns == columns
            &&& snap.data_hash == args@[6]@
        }),
        row.model_name@ == args@[0]@,
        row.relation_name@ == args@[1]@,
        numbers::whole_number(args@[2]@, i32::MIN as int, i32::MAX as int) == Ok::<int, Seq<char>>(row.n_features as int),
        numbers::whole_number(args@[3]@, i32::MIN as int, i32::MAX as int) == Ok::<int, Seq<char>>(row.n_samples as int),
        row.target_column@ == args@[4]@,
        row.feature_columns@ == args@[5]@,
        row.data_hash@ == args@[6]@,
        row.success,
        final(registry)@.models == old(registry)@.models,
        final(registry)@.deployed == old(registry)@.deployed,
{
    let given = text::texts(args@);
    assert(given[0] == args@[0]@ && given[1] == args@[1]@ && given[2] == args@[2]@ && given[3] == args@[3]@ && given[4]
        == args@[4]@ && given[5] == args@[5]@ && given[6] == args@[6]@);
    documents::lemma_texts_text(args@[5]@, columns);
    assert(final(registry)@.snapshots.drop_last() =~= old(registry)@.snapshots);
    lemma_number_fits(args@[2]@);
    lemma_number_fits(args@[3]@);
}

/// A loaded model is cached under the given name, and its row tells its algorithm.
pub proof fn law_loaded_model_is_cached<M>(
    name: &str,
    entry: CacheEntry<M>,
    registry: &mut ModelRegistry<M>,
    now: u64,
    r: Result<LBindData, String>,
)
    requires
        call_ensures(LoadOnnxFn::finish::<M>, (name, Ok(entry), registry, now), r),
        old(registry)@.max_cached >= 1,
    ensures
        final(registry)@.models.contains_key(name@),
        final(registry)@.models[name@] == entry,
        r matches Ok(row) && row.model_name@ == name@ && row.algorithm@ == types::name_of(entry.metadata.algorithm)
            && row.status@ == "loaded"@ && row.num_features == entry.metadata.num_features as i32,
{
    registry::law_insert_evicts_one(old(registry)@, name@, entry, now, final(registry)@);
}

} // verus!
