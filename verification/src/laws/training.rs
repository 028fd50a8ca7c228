//! What training makes of its samples.

use vstd::prelude::*;
use crate::bits;
use crate::json;
use crate::laws::counting;
use crate::laws::neighbours;
use crate::laws::reals;
use crate::laws::validation;
use crate::model::checked;
use crate::model::classes;
use crate::model::lda;
use crate::model::lda::{plan_lda, LdaModel, LdaPlan};
use crate::model::naive_bayes;
use crate::model::naive_bayes::NaiveBayesModel;
use crate::model::pca;
use crate::model::pca::PcaModel;
use crate::model::tsne::TsneModel;
use crate::model::types::ModelError;

verus! {

/// The key of a label and whether two labels are close are the given functions.
pub open spec fn are_label_tests<K: Fn(u64) -> i64, C: Fn(u64, u64) -> bool>(
    key: K,
    close: C,
    id: spec_fn(u64) -> i64,
    near: spec_fn(u64, u64) -> bool,
) -> bool {
    &&& forall|a: u64, r: i64| #[trigger] call_ensures(key, (a,), r) ==> r == id(a)
    &&& forall|a: u64, b: u64, r: bool| #[trigger] call_ensures(close, (a, b), r) ==> r == near(a, b)
}

/// The label is close to that of class `c` and to that of none before it.
pub open spec fn is_of_class(near: spec_fn(u64, u64) -> bool, labels: Seq<u64>, label: u64, c: int) -> bool {
    &&& 0 <= c < labels.len()
    &&& near(label, labels[c])
    &&& forall|d: int| 0 <= d < c ==> !near(label, #[trigger] labels[d])
}

/// The positions are, in order, those of the samples of the class.
pub open spec fn are_members(
    near: spec_fn(u64, u64) -> bool,
    labels: Seq<u64>,
    y: Seq<u64>,
    n: nat,
    c: int,
    at: Seq<int>,
) -> bool {
    &&& forall|j: int| 0 <= j < at.len() ==> 0 <= #[trigger] at[j] < n && is_of_class(near, labels, y[at[j]], c)
    &&& forall|i: int, j: int| #![trigger at[i], at[j]] 0 <= i < j < at.len() ==> at[i] < at[j]
    &&& forall|p: int| 0 <= p < n && is_of_class(near, labels, y[p], c) ==> #[trigger] at.contains(p)
}

proof fn lemma_members(
    near: spec_fn(u64, u64) -> bool,
    labels: Seq<u64>,
    x: Seq<Seq<u64>>,
    y: Seq<u64>,
    ids: Seq<Option<usize>>,
    c: usize,
    n: nat,
) -> (at: Seq<int>)
    requires
        n <= y.len(),
        forall|i: int|
            0 <= i < y.len() ==> ((#[trigger] ids[i] == Some(c)) <==> is_of_class(near, labels, y[i], c as int)),
    ensures
        are_members(near, labels, y, n, c as int, at),
        naive_bayes::class_rows(x, ids, c, n) == validation::part(x, at),
    decreases n,
{
    if n == 0 {
        let at = Seq::<int>::empty();
        assert(validation::part(x, at) =~= Seq::empty());
        at
    } else {
        let m = (n - 1) as nat;
        let before = lemma_members(near, labels, x, y, ids, c, m);
        if ids[m as int] == Some(c) {
            let at = before.push(m as int);
            assert(validation::part(x, at) =~= validation::part(x, before).push(x[m as int]));
            assert forall|p: int| 0 <= p < n && is_of_class(near, labels, y[p], c as int) implies #[trigger] at.contains(
                p,
            ) by {
                if p < m {
                    assert(before.contains(p));
                    let j = choose|j: int| 0 <= j < before.len() && before[j] == p;
                    assert(at[j] == p);
                } else {
                    assert(at[before.len() as int] == p);
                }
            }
            at
        } else {
            assert(ids[m as int] != Some(c));
            before
        }
    }
}

/// The class is made of its samples: its prior is their share, and its means and
/// variances are those of their rows. A class without samples has means of 0.
pub open spec fn is_class<R: Fn(usize, usize) -> u64, O: Fn(&Vec<Vec<u64>>, usize) -> (Vec<u64>, Vec<u64>)>(
    near: spec_fn(u64, u64) -> bool,
    ratio: R,
    moments: O,
    x: Seq<Vec<u64>>,
    y: Seq<u64>,
    m: NaiveBayesModel,
    c: int,
    at: Seq<int>,
) -> bool {
    &&& are_members(near, m.classes@, y, y.len(), c, at)
    &&& call_ensures(ratio, (at.len() as usize, x.len() as usize), m.priors@[c])
    &&& at.len() == 0 ==> m.means@[c]@.len() == x[0]@.len() && m.vars@[c]@.len() == x[0]@.len() && forall|j: int|
        #![trigger m.means@[c]@[j]]
        #![trigger m.vars@[c]@[j]]
        0 <= j < x[0]@.len() ==> reals::value(m.means@[c]@[j]) == 0 && m.vars@[c]@[j] == naive_bayes::EPSILON
    &&& at.len() > 0 ==> has_moments(moments, x, at, m.means@[c]@, m.vars@[c]@)
}

/// The means and the variances are those of the rows at the positions.
pub open spec fn has_moments<O: Fn(&Vec<Vec<u64>>, usize) -> (Vec<u64>, Vec<u64>)>(
    moments: O,
    x: Seq<Vec<u64>>,
    at: Seq<int>,
    means: Seq<u64>,
    vars: Seq<u64>,
) -> bool {
    exists|a: &Vec<Vec<u64>>, r: (Vec<u64>, Vec<u64>)| #[trigger]
        call_ensures(moments, (a, x[0]@.len() as usize), r) && validation::are_rows(a@, x, at) && r.0@ == means && r.1@
            == vars
}

/// See [`is_class`].
pub open spec fn class_is_right<R: Fn(usize, usize) -> u64, O: Fn(&Vec<Vec<u64>>, usize) -> (Vec<u64>, Vec<u64>)>(
    near: spec_fn(u64, u64) -> bool,
    ratio: R,
    moments: O,
    x: Seq<Vec<u64>>,
    y: Seq<u64>,
    m: NaiveBayesModel,
    c: int,
) -> bool {
    exists|at: Seq<int>| #[trigger] is_class(near, ratio, moments, x, y, m, c, at)
}

/// Training by classes: there is one class for each key, in the order of the keys,
/// with the label of the first sample that has the key. Each is made of its samples.
#[verifier::rlimit(40)]
pub proof fn law_classes_are_made_of_samples<
    K: Fn(u64) -> i64,
    C: Fn(u64, u64) -> bool,
    R: Fn(usize, usize) -> u64,
    O: Fn(&Vec<Vec<u64>>, usize) -> (Vec<u64>, Vec<u64>),
>(
    x: &Vec<Vec<u64>>,
    y: &Vec<u64>,
    key: &K,
    close: &C,
    ratio: &R,
    moments: &O,
    m: NaiveBayesModel,
    id: spec_fn(u64) -> i64,
    near: spec_fn(u64, u64) -> bool,
)
    requires
        call_ensures(NaiveBayesModel::train::<K, C, R, O>, (x, y, key, close, ratio, moments), m),
        are_label_tests(*key, *close, id, near),
        x@.len() > 0,
        y@.len() <= x@.len(),
    ensures
        forall|c: int, d: int|
            #![trigger m.classes@[c], m.classes@[d]]
            0 <= c < d < m.classes@.len() ==> id(m.classes@[c]) < id(m.classes@[d]),
        forall|i: int| 0 <= i < y@.len() ==> has_key(m.classes@, id, id(#[trigger] y@[i])),
        forall|c: int| 0 <= c < m.classes@.len() ==> is_first_of_key(y@, id, #[trigger] m.classes@[c]),
        forall|c: int| 0 <= c < m.classes@.len() ==> #[trigger] class_is_right(
            near,
            *ratio,
            *moments,
            x@,
            y@,
            m,
            c,
        ),
{
    let rows = json::rows_of(x@);
    let labels = y@;
    let (keys, at, ids) = choose|keys: Seq<i128>, at: Seq<usize>, ids: Seq<Option<usize>>| #[trigger]
        naive_bayes::trained_by(*key, *close, *ratio, *moments, rows, labels, keys, at, ids, m@);
    let made = m.classes@;
    assert forall|i: int| 0 <= i < labels.len() implies #[trigger] keys[i] == id(labels[i]) by {
        assert(call_ensures(*key, (labels[i],), keys[i] as i64));
    }
    assert(made.len() == at.len());
    assert forall|c: int| 0 <= c < made.len() implies #[trigger] made[c] == labels[at[c] as int] && id(made[c])
        == keys[at[c] as int] by {
        assert(made == Seq::new(at.len(), |c: int| labels[at[c] as int]));
    }
    assert forall|c: int, d: int| #![trigger made[c], made[d]] 0 <= c < d < made.len() implies id(made[c]) < id(
        made[d],
    ) by {
        assert(keys[at[c] as int] < keys[at[d] as int]);
    }
    assert forall|i: int| 0 <= i < labels.len() implies has_key(made, id, id(#[trigger] labels[i])) by {
        assert(classes::has_class(keys, at, keys[i]));
        let c = choose|c: int| 0 <= c < at.len() && keys[#[trigger] at[c] as int] == keys[i];
        assert(id(made[c]) == id(labels[i]));
    }
    assert forall|c: int| 0 <= c < made.len() implies is_first_of_key(labels, id, #[trigger] made[c]) by {
        let p = at[c] as int;
        assert(classes::is_first(keys, p));
        assert forall|i: int| 0 <= i < p implies id(#[trigger] labels[i]) != id(made[c]) by {
            assert(keys[i] != keys[p]);
        }
        assert(stands_first(labels, id, made[c], p));
    }
    assert forall|c: int| 0 <= c < made.len() implies #[trigger] class_is_right(
        near,
        *ratio,
        *moments,
        x@,
        labels,
        m,
        c,
    ) by {
        lemma_class(*key, *close, *ratio, *moments, x@, labels, keys, at, ids, m, id, near, c);
    }
}

proof fn lemma_class<
    K: Fn(u64) -> i64,
    C: Fn(u64, u64) -> bool,
    R: Fn(usize, usize) -> u64,
    O: Fn(&Vec<Vec<u64>>, usize) -> (Vec<u64>, Vec<u64>),
>(
    key: K,
    close: C,
    ratio: R,
    moments: O,
    x: Seq<Vec<u64>>,
    y: Seq<u64>,
    keys: Seq<i128>,
    at: Seq<usize>,
    ids: Seq<Option<usize>>,
    m: NaiveBayesModel,
    id: spec_fn(u64) -> i64,
    near: spec_fn(u64, u64) -> bool,
    c: int,
)
    requires
        naive_bayes::trained_by(key, close, ratio, moments, json::rows_of(x), y, keys, at, ids, m@),
        are_label_tests(key, close, id, near),
        0 <= c < m.classes@.len(),
        x.len() > 0,
        y.len() <= x.len(),
    ensures
        class_is_right(near, ratio, moments, x, y, m, c),
{
    let rows = json::rows_of(x);
    let made = m.classes@;
    assert(made.len() == at.len());
    assert(m.classes.len() == made.len());
    assert(x[0].len() == rows[0].len());
    assert forall|i: int| 0 <= i < y.len() implies ((#[trigger] ids[i] == Some(c as usize)) <==> is_of_class(
        near,
        made,
        y[i],
        c,
    )) by {
        assert(naive_bayes::assigned(close, made, y[i], ids[i]));
        if ids[i] is Some {
            let b = ids[i]->0 as int;
            assert(near(y[i], made[b]));
            assert forall|d: int| 0 <= d < b implies !near(y[i], #[trigger] made[d]) by {
                assert(call_ensures(close, (y[i], made[d]), false));
            }
        } else {
            assert(call_ensures(close, (y[i], made[c]), false));
        }
    }
    let members = lemma_members(near, made, rows, y, ids, c as usize, y.len());
    assert(m@.priors[c] == m.priors@[c]);
    assert(m@.means[c] == m.means@[c]@ && m@.vars[c] == m.vars@[c]@);
    let own = naive_bayes::class_rows(rows, ids, c as usize, y.len());
    assert(own.len() == members.len());
    assert(rows[0] == x[0]@);
    assert(naive_bayes::moments_of(moments, own, rows[0].len() as usize, m@.means[c], m@.vars[c]));
    reals::law_constants_have_their_values();
    if members.len() > 0 {
        let (a, r) = choose|a: &Vec<Vec<u64>>, r: (Vec<u64>, Vec<u64>)|
            json::rows_of(a@) == own && r.0@ == m@.means[c] && r.1@ == m@.vars[c] && #[trigger] call_ensures(
                moments,
                (a, rows[0].len() as usize),
                r,
            );
        assert(json::rows_of(a@).len() == own.len());
        assert forall|j: int| 0 <= j < members.len() implies (#[trigger] a@[j])@ == x[members[j]]@ by {
            assert(json::rows_of(a@)[j] == validation::part(rows, members)[j]);
        }
        assert(validation::are_rows(a@, x, members));
        assert(has_moments(moments, x, members, m.means@[c]@, m.vars@[c]@));
    } else {
        let nf = rows[0].len() as usize as nat;
        assert(m.means@[c]@ == Seq::new(nf, |j: int| bits::ZERO));
        assert(m.vars@[c]@ == Seq::new(nf, |j: int| naive_bayes::EPSILON));
    }
    assert(is_class(near, ratio, moments, x, y, m, c, members));
}

/// A class has the key.
pub open spec fn has_key(labels: Seq<u64>, id: spec_fn(u64) -> i64, key: i64) -> bool {
    exists|c: int| 0 <= c < labels.len() && id(#[trigger] labels[c]) == key
}

/// The label is at the position, and none before it has its key.
pub open spec fn stands_first(y: Seq<u64>, id: spec_fn(u64) -> i64, label: u64, p: int) -> bool {
    0 <= p < y.len() && y[p] == label && forall|i: int| 0 <= i < p ==> id(#[trigger] y[i]) != id(label)
}

/// The label is the first of its key.
pub open spec fn is_first_of_key(y: Seq<u64>, id: spec_fn(u64) -> i64, label: u64) -> bool {
    exists|p: int| #[trigger] stands_first(y, id, label, p)
}

/// The sample is of class `c`.
pub open spec fn of_class(ids: Seq<usize>, c: int) -> spec_fn(int) -> bool {
    |i: int| ids[i] == c
}

proof fn lemma_class_size(ids: Seq<usize>, c: usize, n: nat)
    ensures
        lda::class_size(ids, c, n) == counting::places(n, of_class(ids, c as int)).len(),
    decreases n,
{
    if n == 0 {
        counting::lemma_no_place(of_class(ids, c as int));
    } else {
        lemma_class_size(ids, c, (n - 1) as nat);
        counting::lemma_one_more((n - 1) as nat, of_class(ids, c as int));
    }
}

/// A search for discriminating directions knows the classes, one for each number
/// among the labels, from the lowest to the highest, the class and the number of the
/// samples of each, and looks for as many directions as asked for, but for fewer
/// than classes and for no more than features.
pub proof fn law_classes_are_planned(n: usize, nf: usize, y: &Vec<u64>, n_components: usize, plan: LdaPlan)
    requires
        call_ensures(plan_lda, (n, nf, y, n_components), Some(plan)),
        forall|i: int| 0 <= i < y@.len() ==> reals::is_number(#[trigger] y@[i]),
    ensures
        n >= 2 && nf > 0 && n_components > 0,
        plan.classes@.len() >= 2,
        plan.k <= n_components && plan.k < plan.classes@.len() && plan.k <= nf,
        plan.k == n_components || plan.k == plan.classes@.len() - 1 || plan.k == nf,
        forall|c: int, d: int|
            #![trigger plan.classes@[c], plan.classes@[d]]
            0 <= c < d < plan.classes@.len() ==> reals::value(plan.classes@[c]) < reals::value(plan.classes@[d]),
        forall|c: int| 0 <= c < plan.classes@.len() ==> y@.contains(#[trigger] plan.classes@[c]),
        plan.class_id@.len() == y@.len(),
        forall|i: int|
            #![trigger plan.class_id@[i]]
            0 <= i < y@.len() ==> plan.class_id@[i] < plan.classes@.len() && reals::value(
                plan.classes@[plan.class_id@[i] as int],
            ) == reals::value(y@[i]),
        plan.class_sizes@.len() == plan.classes@.len(),
        forall|c: int|
            0 <= c < plan.classes@.len() ==> #[trigger] plan.class_sizes@[c] == counting::places(
                y@.len(),
                of_class(plan.class_id@, c),
            ).len(),
{
    let keys = lda::label_keys(y@);
    let at = choose|at: Seq<usize>| #[trigger]
        classes::distinct_positions(keys, at) && lda::is_plan(
            n as nat,
            nf as nat,
            y@,
            n_components as nat,
            at,
            Some(plan),
        );
    let made = plan.classes@;
    assert forall|c: int| 0 <= c < made.len() implies at[c] < y@.len() && #[trigger] made[c] == y@[at[c] as int]
        && y@.contains(made[c]) by {
        assert(at[c] < keys.len());
        assert(made == Seq::new(at.len(), |c: int| y@[at[c] as int]));
        assert(y@[at[c] as int] == made[c]);
    }
    assert forall|c: int, d: int| #![trigger made[c], made[d]] 0 <= c < d < made.len() implies reals::value(made[c])
        < reals::value(made[d]) by {
        assert(keys[at[c] as int] < keys[at[d] as int]);
        lda::lemma_rank_fits(made[c]);
        lda::lemma_rank_fits(made[d]);
        reals::law_order_is_of_values(made[c], made[d]);
    }
    assert forall|i: int| #![trigger plan.class_id@[i]] 0 <= i < y@.len() implies plan.class_id@[i] < made.len()
        && reals::value(made[plan.class_id@[i] as int]) == reals::value(y@[i]) by {
        reals::law_order_is_of_values(made[plan.class_id@[i] as int], y@[i]);
    }
    assert forall|c: int| 0 <= c < made.len() implies #[trigger] plan.class_sizes@[c] == counting::places(
        y@.len(),
        of_class(plan.class_id@, c),
    ).len() by {
        assert(plan.classes.len() == made.len());
        lemma_class_size(plan.class_id@, c as usize, y@.len());
    }
}

/// A map predicts the first coordinate of the first of the nearest rows.
pub proof fn law_nearest_row_is_on_the_map<D: Fn(&Vec<u64>, &Vec<u64>) -> u64>(
    model: &TsneModel,
    features: &Vec<u64>,
    distance: &D,
    r: Result<u64, ModelError>,
    d: spec_fn(Seq<u64>, Seq<u64>) -> u64,
) -> (c: usize)
    requires
        call_ensures(TsneModel::predict::<D>, (model, features, distance), r),
        neighbours::is_distance(*distance, d),
        model.x@.len() > 0,
        neighbours::all_finite(d, model.x@, features@),
    ensures
        features@.len() != model.metadata.num_features ==> (r matches Err(
            ModelError::FeatureCountMismatch { expected, got },
        ) && expected == model.metadata.num_features && got == features@.len()),
        features@.len() == model.metadata.num_features ==> {
            &&& neighbours::is_first_nearest(d, model.x@, features@, c)
            &&& r == Ok::<u64, ModelError>(model.embedding@[c as int].0)
        },
{
    if features@.len() == model.metadata.num_features {
        let p = r->Ok_0;
        let c = choose|c: usize| #[trigger]
            checked::is_nearest(*distance, json::rows_of(model.x@), features@, c) && p == model.embedding@[c as int].0;
        neighbours::lemma_first_nearest(*distance, d, model.x@, features@, c);
        c
    } else {
        0
    }
}

/// A direction was found with those before it known.
pub open spec fn found_next<S, E: Fn(&S, &Vec<Vec<u64>>, &Vec<u64>) -> (Vec<u64>, u64, u64)>(
    next: E,
    state: S,
    m: PcaModel,
    i: int,
    a: &Vec<Vec<u64>>,
    b: &Vec<u64>,
    r: (Vec<u64>, u64, u64),
) -> bool {
    &&& call_ensures(next, (&state, a, b), r)
    &&& a@.len() == i
    &&& b@.len() == i
    &&& forall|j: int| 0 <= j < i ==> (#[trigger] a@[j])@ == m.components@[j]@
    &&& r.0@ == m.components@[i]@
    &&& r.2 == m.explained_variance_ratio@[i]
}

/// See [`found_next`].
pub open spec fn is_found<S, E: Fn(&S, &Vec<Vec<u64>>, &Vec<u64>) -> (Vec<u64>, u64, u64)>(
    next: E,
    state: S,
    m: PcaModel,
    i: int,
) -> bool {
    exists|a: &Vec<Vec<u64>>, b: &Vec<u64>, r: (Vec<u64>, u64, u64)| #[trigger] found_next(next, state, m, i, a, b, r)
}

/// Principal directions are found one after the other, each with those before it
/// known, until there are as many as asked for or one, not the first, explains too
/// little beside the first.
pub proof fn law_directions_are_found_in_turn<
    S,
    A: Fn(&Vec<Vec<u64>>) -> (Vec<u64>, S),
    E: Fn(&S, &Vec<Vec<u64>>, &Vec<u64>) -> (Vec<u64>, u64, u64),
    G: Fn(u64, u64) -> bool,
>(
    x: &Vec<Vec<u64>>,
    k: usize,
    prepare: &A,
    next: &E,
    negligible: &G,
    m: PcaModel,
    little: spec_fn(u64, u64) -> bool,
) -> (state: S)
    requires
        call_ensures(PcaModel::fit::<S, A, E, G>, (x, k, prepare, next, negligible), m),
        forall|a: u64, b: u64, r: bool| #[trigger] call_ensures(*negligible, (a, b), r) ==> r == little(a, b),
    ensures
        m.components@.len() <= k,
        m.explained_variance_ratio@.len() == m.components@.len(),
        forall|i: int| 0 <= i < m.components@.len() ==> #[trigger] is_found(*next, state, m, i),
        forall|i: int|
            #![trigger m.explained_variance_ratio@[i]]
            1 <= i < m.components@.len() - 1 ==> !little(
                m.explained_variance_ratio@[i],
                m.explained_variance_ratio@[0],
            ),
        m.components@.len() < k ==> m.components@.len() >= 2 && little(
            m.explained_variance_ratio@[m.components@.len() - 1],
            m.explained_variance_ratio@[0],
        ),
{
    let p = m@;
    let rows = json::rows_of(x@);
    let (a, prepared, eigenvalues) = choose|a: &Vec<Vec<u64>>, prepared: (Vec<u64>, S), eigenvalues: Seq<u64>|
        json::rows_of(a@) == rows && #[trigger] call_ensures(*prepare, (a,), prepared) && prepared.0@ == p.mean
            && #[trigger] pca::finds_all(*next, *negligible, prepared.1, eigenvalues, k as nat, p);
    let state = prepared.1;
    assert(p.components.len() == m.components@.len());
    assert forall|i: int| 0 <= i < m.components@.len() implies #[trigger] is_found(
        *next,
        state,
        m,
        i,
    ) by {
        assert(pca::finds_next(*next, state, p.components, eigenvalues, p.weights, i));
        let (s, a, b, r) = choose|s: &S, a: &Vec<Vec<u64>>, b: &Vec<u64>, r: (Vec<u64>, u64, u64)|
            *s == state && json::rows_of(a@) == p.components.take(i) && b@ == eigenvalues.take(i) && r.0@
                == p.components[i] && r.1 == eigenvalues[i] && r.2 == p.weights[i] && #[trigger] call_ensures(
                *next,
                (s, a, b),
                r,
            );
        assert(json::rows_of(a@).len() == i);
        assert forall|j: int| 0 <= j < i implies (#[trigger] a@[j])@ == m.components@[j]@ by {
            assert(json::rows_of(a@)[j] == p.components.take(i)[j]);
        }
        assert(found_next(*next, state, m, i, a, b, r));
    }
    state
}

/// A discriminating direction was found with those before it known.
pub open spec fn discriminated_next<
    S,
    E: Fn(&S, &Vec<Vec<u64>>, &Vec<Vec<u64>>, &Vec<u64>) -> Option<(Vec<u64>, Vec<u64>, u64)>,
>(
    next: E,
    state: S,
    m: LdaModel,
    i: int,
    a: &Vec<Vec<u64>>,
    u: &Vec<Vec<u64>>,
    b: &Vec<u64>,
    r: (Vec<u64>, Vec<u64>, u64),
) -> bool {
    &&& call_ensures(next, (&state, a, u, b), Some(r))
    &&& a@.len() == i
    &&& u@.len() == i
    &&& b@ == m.eigenvalues@.take(i)
    &&& forall|j: int| 0 <= j < i ==> (#[trigger] a@[j])@ == m.components@[j]@
    &&& r.0@ == m.components@[i]@
    &&& r.2 == m.eigenvalues@[i]
}

/// See [`discriminated_next`].
pub open spec fn is_discriminated<
    S,
    E: Fn(&S, &Vec<Vec<u64>>, &Vec<Vec<u64>>, &Vec<u64>) -> Option<(Vec<u64>, Vec<u64>, u64)>,
>(next: E, state: S, m: LdaModel, i: int) -> bool {
    exists|a: &Vec<Vec<u64>>, u: &Vec<Vec<u64>>, b: &Vec<u64>, r: (Vec<u64>, Vec<u64>, u64)| #[trigger]
        discriminated_next(next, state, m, i, a, u, b, r)
}

/// Discriminating directions are found one after the other, each with those before
/// it known, and no more of them than asked for, than features, or than one fewer
/// than classes.
pub proof fn law_discriminating_directions_are_found_in_turn<
    S,
    A: Fn(&Vec<Vec<u64>>, &LdaPlan) -> Option<(Vec<u64>, S)>,
    E: Fn(&S, &Vec<Vec<u64>>, &Vec<Vec<u64>>, &Vec<u64>) -> Option<(Vec<u64>, Vec<u64>, u64)>,
>(x: &Vec<Vec<u64>>, y: &Vec<u64>, n_components: usize, prepare: &A, next: &E, m: LdaModel) -> (state: S)
    requires
        call_ensures(LdaModel::fit::<S, A, E>, (x, y, n_components, prepare, next), Some(m)),
        x@.len() > 0,
    ensures
        m.components@.len() <= n_components,
        m.components@.len() <= x@[0]@.len(),
        m.eigenvalues@.len() == m.components@.len(),
        forall|i: int| 0 <= i < m.components@.len() ==> #[trigger] is_discriminated(*next, state, m, i),
{
    let rows = json::rows_of(x@);
    assert(rows[0] == x@[0]@);
    let p = m@;
    let (at, plan) = choose|at: Seq<usize>, plan: Option<LdaPlan>| #[trigger]
        classes::distinct_positions(lda::label_keys(y@), at) && #[trigger] lda::is_plan(
            rows.len(),
            rows[0].len(),
            y@,
            n_components as nat,
            at,
            plan,
        ) && match plan {
            None => Some(m) is None,
            Some(plan) => lda::is_fitted(*prepare, *next, rows, plan, Some(m)),
        };
    let plan = plan->0;
    assert(lda::prepares_and_finds(*prepare, *next, rows, plan, m));
    let (a, q, prepared, inner) = choose|
        a: &Vec<Vec<u64>>,
        q: &LdaPlan,
        prepared: (Vec<u64>, S),
        inner: Seq<Seq<u64>>,
    |
        json::rows_of(a@) == rows && *q == plan && #[trigger] call_ensures(*prepare, (a, q), Some(prepared))
            && prepared.0@ == p.mean && #[trigger] lda::finds_all(*next, prepared.1, inner, plan.k as nat, p);
    let state = prepared.1;
    assert(p.components.len() == m.components@.len());
    assert forall|i: int| 0 <= i < m.components@.len() implies #[trigger] is_discriminated(*next, state, m, i) by {
        assert(lda::finds_next(*next, state, p.components, inner, p.weights, i));
        let (s, a, u, b, r) = choose|
            s: &S,
            a: &Vec<Vec<u64>>,
            u: &Vec<Vec<u64>>,
            b: &Vec<u64>,
            r: (Vec<u64>, Vec<u64>, u64),
        |
            *s == state && json::rows_of(a@) == p.components.take(i) && json::rows_of(u@) == inner.take(i) && b@
                == p.weights.take(i) && r.0@ == p.components[i] && r.1@ == inner[i] && r.2 == p.weights[i]
                && #[trigger] call_ensures(*next, (s, a, u, b), Some(r));
        assert(json::rows_of(a@).len() == i);
        assert(json::rows_of(u@).len() == i);
        assert forall|j: int| 0 <= j < i implies (#[trigger] a@[j])@ == m.components@[j]@ by {
            assert(json::rows_of(a@)[j] == p.components.take(i)[j]);
        }
        assert(discriminated_next(*next, state, m, i, a, u, b, r));
    }
    state
}

} // verus!
