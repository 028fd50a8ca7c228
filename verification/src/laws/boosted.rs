//! What boosted trees predict, and how they are read.

use vstd::prelude::*;
use crate::json;
use crate::json::JsonView;
use crate::laws::documents;
use crate::laws::reals;
use crate::laws::texts;
use crate::model::types::ModelError;
use crate::model::xgboost;
use crate::model::xgboost::{XgbModel, XgbModelWrapper, XgbTree};

verus! {

/// The node is a leaf of the tree.
pub open spec fn is_leaf(t: XgbTree, node: int) -> bool {
    &&& 0 <= node < t.left_children@.len()
    &&& t.left_children@[node] == -1
    &&& t.right_children@[node] == -1
}

/// The node asks for a feature that is there.
pub open spec fn asks(t: XgbTree, node: int, features: Seq<u64>) -> bool {
    0 <= t.split_indices@[node] < features.len()
}

/// Where the features send a walk from an inner node: to the left where the feature
/// that the node names is there and is smaller than its condition, else to the right.
pub open spec fn child(t: XgbTree, node: int, features: Seq<u64>) -> int {
    if asks(t, node, features) && reals::is_number(features[t.split_indices@[node] as int]) && reals::is_number(
        t.split_conditions@[node],
    ) && reals::value(features[t.split_indices@[node] as int]) < reals::value(t.split_conditions@[node]) {
        t.left_children@[node] as int
    } else {
        t.right_children@[node] as int
    }
}

/// The way of some features from the root to a leaf.
pub open spec fn is_way(t: XgbTree, features: Seq<u64>, way: Seq<int>) -> bool {
    &&& way.len() > 0
    &&& way[0] == 0
    &&& is_leaf(t, way.last())
    &&& forall|j: int|
        #![trigger way[j]]
        0 <= j < way.len() - 1 ==> 0 <= way[j] < t.left_children@.len() && !is_leaf(t, way[j]) && way[j + 1] == child(
            t,
            way[j],
            features,
        )
}

proof fn lemma_child(t: XgbTree, node: int, features: Seq<u64>)
    requires
        t@.consistent(),
        0 <= node < t.left_children@.len(),
    ensures
        t@.next(features, node) == child(t, node, features),
{
    if asks(t, node, features) {
        reals::law_order_is_of_values(features[t.split_indices@[node] as int], t.split_conditions@[node]);
    }
}

proof fn lemma_way(t: XgbTree, features: Seq<u64>, way: Seq<int>, j: int)
    requires
        t@.consistent(),
        is_way(t, features, way),
        0 <= j < way.len(),
    ensures
        t@.walk(features, way[j], (way.len() - 1 - j) as nat) == Some(t.base_weights@[way.last()]),
    decreases way.len() - j,
{
    if j < way.len() - 1 {
        lemma_child(t, way[j], features);
        assert(way[j + 1] == child(t, way[j], features));
        lemma_way(t, features, way, j + 1);
    }
}

/// The answer of a tree is the weight of the leaf to which the way of the features
/// leads, each node asking for the feature that it names.
pub proof fn law_leaf_is_at_the_end_of_the_way(t: XgbTree, features: &[u64], way: Seq<int>, r: Option<u64>)
    requires
        call_ensures(XgbTree::find_leaf, (&t, features), r),
        t@.consistent(),
        is_way(t, features@, way),
    ensures
        r == Some(t.base_weights@[way.last()]),
{
    lemma_way(t, features@, way, 0);
    t@.law_node_count_is_enough(features@, (way.len() - 1) as nat);
}

/// Whatever a tree answers is the weight of a leaf at the end of a way.
pub proof fn law_answer_is_reached(t: XgbTree, features: &[u64], w: u64)
    requires
        call_ensures(XgbTree::find_leaf, (&t, features), Some(w)),
        t@.consistent(),
    ensures
        exists|way: Seq<int>| #[trigger] is_way(t, features@, way) && w == t.base_weights@[way.last()],
{
    lemma_reached(t, features@, 0, t@.left.len(), w);
    let rest = choose|rest: Seq<int>| #[trigger] leads_on(t, features@, 0, rest, w);
    assert(is_way(t, features@, rest));
}

spec fn leads_on(t: XgbTree, features: Seq<u64>, node: int, rest: Seq<int>, w: u64) -> bool {
    &&& rest.len() > 0
    &&& rest[0] == node
    &&& is_leaf(t, rest.last())
    &&& w == t.base_weights@[rest.last()]
    &&& forall|j: int|
        #![trigger rest[j]]
        0 <= j < rest.len() - 1 ==> 0 <= rest[j] < t.left_children@.len() && !is_leaf(t, rest[j]) && rest[j + 1]
            == child(t, rest[j], features)
}

proof fn lemma_reached(t: XgbTree, features: Seq<u64>, node: int, steps: nat, w: u64)
    requires
        t@.consistent(),
        t@.walk(features, node, steps) == Some(w),
    ensures
        exists|rest: Seq<int>| #[trigger] leads_on(t, features, node, rest, w),
    decreases steps,
{
    if is_leaf(t, node) {
        assert(leads_on(t, features, node, seq![node], w));
    } else {
        let next = t@.next(features, node);
        lemma_child(t, node, features);
        lemma_reached(t, features, next, (steps - 1) as nat, w);
        let tail = choose|rest: Seq<int>| #[trigger] leads_on(t, features, next, rest, w);
        let rest = seq![node] + tail;
        assert(rest.last() == tail.last());
        assert forall|j: int| #![trigger rest[j]] 0 <= j < rest.len() - 1 implies 0 <= rest[j] < t.left_children@.len()
            && !is_leaf(t, rest[j]) && rest[j + 1] == child(t, rest[j], features) by {
            if j > 0 {
                assert(rest[j] == tail[j - 1]);
                assert(rest[j + 1] == tail[j]);
            } else {
                assert(rest[1] == tail[0]);
            }
        }
        assert(leads_on(t, features, node, rest, w));
    }
}

/// A tree of one inner node answers the weight of its left leaf exactly where the
/// named feature is below the condition, else that of its right leaf.
pub proof fn law_one_split_asks_its_feature(t: XgbTree, features: &[u64], r: Option<u64>)
    requires
        call_ensures(XgbTree::find_leaf, (&t, features), r),
        t@.consistent(),
        t.left_children@.len() > 0,
        !is_leaf(t, 0),
        is_leaf(t, t.left_children@[0] as int),
        is_leaf(t, t.right_children@[0] as int),
        0 <= t.split_indices@[0] < features@.len(),
        reals::is_number(features@[t.split_indices@[0] as int]),
        reals::is_number(t.split_conditions@[0]),
    ensures
        reals::value(features@[t.split_indices@[0] as int]) < reals::value(t.split_conditions@[0]) ==> r == Some(
            t.base_weights@[t.left_children@[0] as int],
        ),
        reals::value(features@[t.split_indices@[0] as int]) >= reals::value(t.split_conditions@[0]) ==> r == Some(
            t.base_weights@[t.right_children@[0] as int],
        ),
{
    let next = child(t, 0, features@);
    let way = seq![0int, next];
    assert(is_way(t, features@, way)) by {
        assert(way[0] == 0 && way[1] == next && way.last() == next);
    }
    law_leaf_is_at_the_end_of_the_way(t, features, way, r);
}

/// Features that no node on the way names do not change the answer.
pub proof fn law_other_features_do_not_matter(
    t: XgbTree,
    f: &[u64],
    g: &[u64],
    way: Seq<int>,
    a: Option<u64>,
    b: Option<u64>,
)
    requires
        call_ensures(XgbTree::find_leaf, (&t, f), a),
        call_ensures(XgbTree::find_leaf, (&t, g), b),
        t@.consistent(),
        is_way(t, f@, way),
        f@.len() == g@.len(),
        forall|j: int|
            #![trigger way[j]]
            0 <= j < way.len() - 1 && asks(t, way[j], f@) ==> f@[t.split_indices@[way[j]] as int]
                == g@[t.split_indices@[way[j]] as int],
    ensures
        a == b,
{
    assert(is_way(t, g@, way)) by {
        assert forall|j: int|
            #![trigger way[j]]
            0 <= j < way.len() - 1 implies way[j + 1] == child(t, way[j], g@) by {
            assert(way[j + 1] == child(t, way[j], f@));
        }
    }
    law_leaf_is_at_the_end_of_the_way(t, f, way, a);
    law_leaf_is_at_the_end_of_the_way(t, g, way, b);
}

/// The leaves of the trees, each at the end of its way, in the order of the trees.
pub open spec fn are_leaves(m: XgbModel, features: Seq<u64>, leaves: Seq<u64>) -> bool {
    &&& leaves.len() == m.trees@.len()
    &&& forall|i: int| 0 <= i < leaves.len() ==> at_leaf(m.trees@[i], features, #[trigger] leaves[i])
}

/// The weight is that of the leaf at the end of the way of the features.
pub open spec fn at_leaf(t: XgbTree, features: Seq<u64>, w: u64) -> bool {
    exists|way: Seq<int>| #[trigger] is_way(t, features, way) && w == t.base_weights@[way.last()]
}

/// The sum that the caller makes of the base score and the leaves.
pub open spec fn adds<S: Fn(u64, &Vec<u64>) -> u64>(sum: S, base: u64, v: &Vec<u64>, score: u64) -> bool {
    call_ensures(sum, (base, v), score)
}

proof fn lemma_leaves(m: XgbModel, features: Seq<u64>)
    requires
        m.well_formed(),
        m.leads(features),
    ensures
        are_leaves(m, features, m.leaves(features)),
{
    let leaves = m.leaves(features);
    assert forall|i: int| 0 <= i < leaves.len() implies at_leaf(m.trees@[i], features, #[trigger] leaves[i]) by {
        let t = m.trees@[i];
        assert(t@.consistent() && t@.leaf_value(features) is Some);
        lemma_reached(t, features, 0, t@.left.len(), leaves[i]);
        let rest = choose|rest: Seq<int>| #[trigger] leads_on(t, features, 0, rest, leaves[i]);
        assert(is_way(t, features, rest));
    }
}

/// A model adds its base score and one leaf of each tree. A regression answers the
/// sum itself, a logistic objective what the logistic function makes of it; any other
/// objective, and any other number of features, is refused.
pub proof fn law_boosted_prediction<S: Fn(u64, &Vec<u64>) -> u64, L: Fn(u64) -> u64>(
    m: XgbModel,
    features: Vec<u64>,
    sum: S,
    logistic: L,
    r: Result<u64, String>,
)
    requires
        call_ensures(XgbModel::predict::<S, L>, (&m, &features, &sum, &logistic), r),
        m.well_formed(),
        m.leads(features@),
    ensures
        features@.len() != m.num_features ==> r is Err,
        features@.len() == m.num_features && (m.objective@ == "reg:squarederror"@ || m.objective@
            == "reg:squaredlogerror"@ || m.objective@ == "reg:absoluteerror"@ || m.objective@
            == "reg:pseudohubererror"@) ==> (r matches Ok(p) && exists|v: &Vec<u64>| #[trigger]
            adds(sum, m.base_score, v, p) && are_leaves(m, features@, v@)),
        features@.len() == m.num_features && (m.objective@ == "binary:logistic"@ || m.objective@ == "reg:logistic"@)
            ==> (r matches Ok(p) && exists|v: &Vec<u64>, score: u64| #[trigger]
            adds(sum, m.base_score, v, score) && are_leaves(m, features@, v@) && call_ensures(logistic, (score,), p)),
{
    lemma_leaves(m, features@);
    if features@.len() == m.num_features {
        assert("binary:logistic"@.len() == 15 && "reg:logistic"@.len() == 12 && "reg:squarederror"@.len() == 16
            && "reg:squaredlogerror"@.len() == 19 && "reg:absoluteerror"@.len() == 17
            && "reg:pseudohubererror"@.len() == 20) by {
            reveal_strlit("binary:logistic");
            reveal_strlit("reg:logistic");
            reveal_strlit("reg:squarederror");
            reveal_strlit("reg:squaredlogerror");
            reveal_strlit("reg:absoluteerror");
            reveal_strlit("reg:pseudohubererror");
        }
        if XgbModel::is_plain(m.objective@) {
            let p = r->Ok_0;
            let v = choose|v: &Vec<u64>|
                v@ == m.leaves(features@) && #[trigger] call_ensures(sum, (m.base_score, v), p);
            assert(adds(sum, m.base_score, v, p));
        } else if XgbModel::is_logistic(m.objective@) {
            let p = r->Ok_0;
            let score = choose|score: u64| #[trigger]
                m.raw_score(sum, features@, score) && call_ensures(logistic, (score,), p);
            let v = choose|v: &Vec<u64>|
                v@ == m.leaves(features@) && #[trigger] call_ensures(sum, (m.base_score, v), score);
            assert(adds(sum, m.base_score, v, score));
        }
    }
}

/// A document is an array of integers with these values.
pub open spec fn is_ints(doc: JsonView, v: Seq<i32>) -> bool {
    doc matches JsonView::Array(a) && a.len() == v.len() && forall|i: int|
        #![trigger a[i]]
        #![trigger v[i]]
        0 <= i < v.len() ==> (a[i] matches JsonView::Number(n) && n.signed == Some(v[i] as i64))
}

/// The document of a tree has these columns under their names.
pub open spec fn describes_tree(
    doc: JsonView,
    left: Seq<i32>,
    right: Seq<i32>,
    split: Seq<i32>,
    conditions: Seq<u64>,
    weights: Seq<u64>,
) -> bool {
    &&& exists|v: JsonView| #[trigger] documents::has(doc, "left_children"@, v) && is_ints(v, left)
    &&& exists|v: JsonView| #[trigger] documents::has(doc, "right_children"@, v) && is_ints(v, right)
    &&& exists|v: JsonView| #[trigger] documents::has(doc, "split_indices"@, v) && is_ints(v, split)
    &&& exists|v: JsonView| #[trigger]
        documents::has(doc, "split_conditions"@, v) && documents::is_numbers(v, conditions)
    &&& exists|v: JsonView| #[trigger] documents::has(doc, "base_weights"@, v) && documents::is_numbers(v, weights)
}

proof fn lemma_ints(a: Seq<JsonView>, v: Seq<i32>, n: nat)
    requires
        is_ints(JsonView::Array(a), v),
        n <= v.len(),
    ensures
        xgboost::int_elements(a, n) == Ok::<Seq<i32>, Seq<char>>(v.take(n as int)),
    decreases n,
{
    if n == 0 {
        assert(v.take(0) =~= Seq::empty());
    } else {
        lemma_ints(a, v, (n - 1) as nat);
        assert(a[n - 1] is Number);
        assert(v.take(n as int) =~= v.take(n - 1).push(v[n - 1]));
    }
}

proof fn lemma_ints_at(doc: JsonView, key: Seq<char>, v: Seq<i32>)
    requires
        exists|x: JsonView| #[trigger] documents::has(doc, key, x) && is_ints(x, v),
    ensures
        xgboost::ints_at(doc, key) == Ok::<Seq<i32>, Seq<char>>(v),
{
    let x = choose|x: JsonView| #[trigger] documents::has(doc, key, x) && is_ints(x, v);
    documents::law_member_is_found(doc, key, x);
    lemma_ints(x->Array_0, v, v.len());
    assert(v.take(v.len() as int) =~= v);
}

proof fn lemma_reals_at<F: Fn(&str) -> Option<u64>>(read: F, doc: JsonView, key: Seq<char>, v: Seq<u64>, got: Seq<u64>)
    requires
        exists|x: JsonView| #[trigger] documents::has(doc, key, x) && documents::is_numbers(x, v),
        xgboost::values_read(read, xgboost::array_at(doc, key)->Ok_0, got),
    ensures
        got == v,
{
    let x = choose|x: JsonView| #[trigger] documents::has(doc, key, x) && documents::is_numbers(x, v);
    documents::law_member_is_found(doc, key, x);
    let a = x->Array_0;
    assert forall|i: int| 0 <= i < v.len() implies got[i] == v[i] by {
        assert(a[i] is Number);
        assert(xgboost::value_read(read, a[i], got[i]));
    }
    assert(got =~= v);
}

/// The document of a model has its trees in an array under the booster, its base
/// score under the parameters, and its objective by name.
pub open spec fn describes_model(doc: JsonView, base: u64, objective: Seq<char>, trees: Seq<JsonView>) -> bool {
    exists|learner: JsonView, param: JsonView, booster: JsonView, block: JsonView, o: JsonView, b: JsonView| #[trigger]
        describes_parts(doc, learner, param, booster, block, o, b) && documents::has(
            block,
            "trees"@,
            JsonView::Array(trees),
        ) && documents::has(o, "name"@, JsonView::Text(objective)) && (b matches JsonView::Number(n) && n.real == Some(
            base,
        ))
}

/// The parts of the document of a model stand under their names.
pub open spec fn describes_parts(
    doc: JsonView,
    learner: JsonView,
    param: JsonView,
    booster: JsonView,
    block: JsonView,
    o: JsonView,
    b: JsonView,
) -> bool {
    &&& documents::has(doc, "learner"@, learner)
    &&& documents::has(learner, "learner_model_param"@, param)
    &&& documents::has(learner, "gradient_booster"@, booster)
    &&& documents::has(booster, "model"@, block)
    &&& documents::has(learner, "objective"@, o)
    &&& documents::has(param, "base_score"@, b)
}

/// A model that is read has the base score, the objective and the trees that its
/// document names, each column of a tree from under its own name.
pub proof fn law_model_is_read_by_names<F: Fn(&str) -> Option<u64>>(
    data: &[u8],
    read: F,
    doc: JsonView,
    base: u64,
    objective: Seq<char>,
    trees: Seq<JsonView>,
    m: XgbModel,
    i: int,
    left: Seq<i32>,
    right: Seq<i32>,
    split: Seq<i32>,
    conditions: Seq<u64>,
    weights: Seq<u64>,
)
    requires
        call_ensures(XgbModel::from_json::<F>, (data, &read), Ok(m)),
        json::json_bytes_document(data@) == Ok::<JsonView, Seq<char>>(doc),
        describes_model(doc, base, objective, trees),
        0 <= i < trees.len(),
        describes_tree(trees[i], left, right, split, conditions, weights),
    ensures
        m.base_score == base,
        m.objective@ == objective,
        m.trees@.len() == trees.len(),
        m.trees@[i].left_children@ == left,
        m.trees@[i].right_children@ == right,
        m.trees@[i].split_indices@ == split,
        m.trees@[i].split_conditions@ == conditions,
        m.trees@[i].base_weights@ == weights,
{
    let (learner, param, booster, block, o, b) =
        choose|learner: JsonView, param: JsonView, booster: JsonView, block: JsonView, o: JsonView, b: JsonView| #[trigger]
        describes_parts(doc, learner, param, booster, block, o, b) && documents::has(
            block,
            "trees"@,
            JsonView::Array(trees),
        ) && documents::has(o, "name"@, JsonView::Text(objective)) && (b matches JsonView::Number(n) && n.real == Some(
            base,
        ));
    documents::law_member_is_found(doc, "learner"@, learner);
    documents::law_member_is_found(learner, "learner_model_param"@, param);
    documents::law_member_is_found(learner, "gradient_booster"@, booster);
    documents::law_member_is_found(booster, "model"@, block);
    documents::law_member_is_found(block, "trees"@, JsonView::Array(trees));
    documents::law_member_is_found(learner, "objective"@, o);
    documents::law_member_is_found(o, "name"@, JsonView::Text(objective));
    documents::law_member_is_found(param, "base_score"@, b);
    let t = trees[i];
    assert(xgboost::tree_read(read, t, m.trees@[i]@));
    lemma_ints_at(t, "left_children"@, left);
    lemma_ints_at(t, "right_children"@, right);
    lemma_ints_at(t, "split_indices"@, split);
    lemma_reals_at(read, t, "split_conditions"@, conditions, m.trees@[i]@.conditions);
    lemma_reals_at(read, t, "base_weights"@, weights, m.trees@[i]@.weights);
}

/// A model has as many features as its document says in a text, and none where it
/// has no text for that.
pub proof fn law_features_are_counted<F: Fn(&str) -> Option<u64>>(
    data: &[u8],
    read: F,
    doc: JsonView,
    learner: JsonView,
    param: JsonView,
    v: JsonView,
    n: int,
    m: XgbModel,
)
    requires
        call_ensures(XgbModel::from_json::<F>, (data, &read), Ok(m)),
        json::json_bytes_document(data@) == Ok::<JsonView, Seq<char>>(doc),
        documents::has(doc, "learner"@, learner),
        documents::has(learner, "learner_model_param"@, param),
        0 <= n <= usize::MAX,
    ensures
        documents::has(param, "num_feature"@, v) && (v matches JsonView::Text(s) && texts::is_numeral(s, n) && s[0]
            != '-') ==> m.num_features == n,
        documents::has(param, "num_feature"@, v) && !(v is Text) ==> m.num_features == 0,
        documents::lacks(param, "num_feature"@) ==> m.num_features == 0,
{
    documents::law_member_is_found(doc, "learner"@, learner);
    documents::law_member_is_found(learner, "learner_model_param"@, param);
    documents::law_member_is_found(param, "num_feature"@, v);
    if v is Text {
        texts::lemma_whole_number(v->Text_0, 0, usize::MAX as int, n);
    }
}

/// The objective is one whose predictions are the sums themselves.
pub open spec fn is_sum(objective: Seq<char>) -> bool {
    ||| objective == "reg:squarederror"@
    ||| objective == "reg:squaredlogerror"@
    ||| objective == "reg:absoluteerror"@
    ||| objective == "reg:pseudohubererror"@
}

/// The objective is one whose predictions are probabilities.
pub open spec fn is_probability(objective: Seq<char>) -> bool {
    objective == "binary:logistic"@ || objective == "reg:logistic"@
}

/// Features of another number, and objectives that are neither sums nor
/// probabilities, give no prediction; all others give one.
pub proof fn law_other_objectives_are_refused<S: Fn(u64, &Vec<u64>) -> u64, L: Fn(u64) -> u64>(
    m: XgbModel,
    features: Vec<u64>,
    sum: S,
    logistic: L,
    r: Result<u64, String>,
    raw: Result<u64, String>,
)
    requires
        call_ensures(XgbModel::predict::<S, L>, (&m, &features, &sum, &logistic), r),
        call_ensures(XgbModel::predict_raw::<S>, (&m, &features, &sum), raw),
    ensures
        raw is Ok <==> features@.len() == m.num_features,
        r is Ok <==> features@.len() == m.num_features && (is_sum(m.objective@) || is_probability(m.objective@)),
{
}

/// A kept model predicts as its trees do, and refuses features of another number with
/// both numbers.
pub proof fn law_kept_trees_predict<S: Fn(u64, &Vec<u64>) -> u64, L: Fn(u64) -> u64>(
    w: &XgbModelWrapper,
    features: &Vec<u64>,
    sum: &S,
    logistic: &L,
    r: Result<u64, ModelError>,
)
    requires
        call_ensures(XgbModelWrapper::predict::<S, L>, (w, features, sum, logistic), r),
        w.model.well_formed(),
        w.model.leads(features@),
    ensures
        r is Ok <==> features@.len() == w.model.num_features && (is_sum(w.model.objective@) || is_probability(
            w.model.objective@,
        )),
        r is Ok && is_sum(w.model.objective@) ==> exists|v: &Vec<u64>| #[trigger]
            adds(*sum, w.model.base_score, v, r->Ok_0) && are_leaves(w.model, features@, v@),
        r is Ok && !is_sum(w.model.objective@) ==> exists|v: &Vec<u64>, score: u64| #[trigger]
            adds(*sum, w.model.base_score, v, score) && are_leaves(w.model, features@, v@) && call_ensures(
                *logistic,
                (score,),
                r->Ok_0,
            ),
{
    let m = w.model;
    lemma_leaves(m, features@);
    if r is Ok {
        let p = r->Ok_0;
        if is_sum(m.objective@) {
            let v = choose|v: &Vec<u64>|
                v@ == m.leaves(features@) && #[trigger] call_ensures(*sum, (m.base_score, v), p);
            assert(adds(*sum, m.base_score, v, p));
        } else {
            let score = choose|score: u64| #[trigger]
                m.raw_score(*sum, features@, score) && call_ensures(*logistic, (score,), p);
            let v = choose|v: &Vec<u64>|
                v@ == m.leaves(features@) && #[trigger] call_ensures(*sum, (m.base_score, v), score);
            assert(adds(*sum, m.base_score, v, score));
        }
    }
}

/// A model that names no objective is one of squared errors.
pub proof fn law_objective_is_squared_error_by_default<F: Fn(&str) -> Option<u64>>(
    data: &[u8],
    read: F,
    doc: JsonView,
    learner: JsonView,
    o: JsonView,
    m: XgbModel,
)
    requires
        call_ensures(XgbModel::from_json::<F>, (data, &read), Ok(m)),
        json::json_bytes_document(data@) == Ok::<JsonView, Seq<char>>(doc),
        documents::has(doc, "learner"@, learner),
        documents::lacks(learner, "objective"@) || (documents::has(learner, "objective"@, o) && documents::lacks(
            o,
            "name"@,
        )),
    ensures
        m.objective@ == "reg:squarederror"@,
{
    documents::law_member_is_found(doc, "learner"@, learner);
    documents::law_member_is_found(learner, "objective"@, o);
    documents::law_member_is_found(o, "name"@, JsonView::Null);
}

} // verus!
