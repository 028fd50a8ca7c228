//! What predictions by distance are.

use vstd::prelude::*;
use crate::bits;
use crate::json;
use crate::laws::counting;
use crate::laws::reals;
use crate::model::checked;
use crate::model::choice;
use crate::model::clusters::{AgglomerativeModel, DbscanModel, FcmModel, KMeansModel};
use crate::model::knn;
use crate::model::knn::{KnnMlModel, KnnModel, KnnTask};
use crate::model::types::ModelError;

verus! {

/// The distance of two vectors is the given function of them.
pub open spec fn is_distance<D: Fn(&Vec<u64>, &Vec<u64>) -> u64>(
    distance: D,
    d: spec_fn(Seq<u64>, Seq<u64>) -> u64,
) -> bool {
    forall|a: &Vec<u64>, b: &Vec<u64>, r: u64| #[trigger] call_ensures(distance, (a, b), r) ==> r == d(a@, b@)
}

/// The average of some numbers is the given function of them.
pub open spec fn is_average<A: Fn(&Vec<u64>) -> u64>(average: A, mean: spec_fn(Seq<u64>) -> u64) -> bool {
    forall|v: &Vec<u64>, r: u64| #[trigger] call_ensures(average, (v,), r) ==> r == mean(v@)
}

/// The class of a target, and the number that stands for a class.
pub open spec fn are_labels<B: Fn(u64) -> i64, L: Fn(i64) -> u64>(
    bucket: B,
    label: L,
    class: spec_fn(u64) -> i64,
    number: spec_fn(i64) -> u64,
) -> bool {
    &&& forall|y: u64, c: i64| #[trigger] call_ensures(bucket, (y,), c) ==> c == class(y)
    &&& forall|c: i64, r: u64| #[trigger] call_ensures(label, (c,), r) ==> r == number(c)
}

/// How far a row is from the features.
pub open spec fn away(d: spec_fn(Seq<u64>, Seq<u64>) -> u64, rows: Seq<Vec<u64>>, features: Seq<u64>, i: int) -> int {
    reals::value(d(rows[i]@, features))
}

/// The positions are those of the rows nearest to the features, the nearest one
/// first, and of rows as near the earlier one.
pub open spec fn are_nearest(
    d: spec_fn(Seq<u64>, Seq<u64>) -> u64,
    rows: Seq<Vec<u64>>,
    features: Seq<u64>,
    near: Seq<usize>,
) -> bool {
    &&& near.no_duplicates()
    &&& forall|i: int| 0 <= i < near.len() ==> #[trigger] near[i] < rows.len()
    &&& forall|i: int, j: int|
        #![trigger near[i], near[j]]
        0 <= i < j < near.len() ==> away(d, rows, features, near[i] as int) <= away(d, rows, features, near[j] as int)
    &&& forall|i: int, j: int|
        #![trigger near[i], near[j]]
        0 <= i < j < near.len() && away(d, rows, features, near[i] as int) == away(d, rows, features, near[j] as int)
            ==> near[i] < near[j]
    &&& forall|i: int, x: usize|
        #![trigger near[i], near.contains(x)]
        0 <= i < near.len() && x < rows.len() && !near.contains(x) ==> away(d, rows, features, near[i] as int) <= away(
            d,
            rows,
            features,
            x as int,
        )
}

/// The target at the position is of the class.
pub open spec fn of_class(class: spec_fn(u64) -> i64, y: Seq<u64>, near: Seq<usize>, c: i64) -> spec_fn(int) -> bool {
    |i: int| class(y[near[i] as int]) == c
}

/// How many of the positions hold a target of the class.
pub open spec fn count_of(class: spec_fn(u64) -> i64, y: Seq<u64>, near: Seq<usize>, c: i64) -> nat {
    counting::places(near.len(), of_class(class, y, near, c)).len()
}

/// No class has more of the targets, and one of them is of this class.
pub open spec fn leads(class: spec_fn(u64) -> i64, y: Seq<u64>, near: Seq<usize>, c: i64) -> bool {
    &&& count_of(class, y, near, c) > 0
    &&& forall|other: i64| #[trigger] count_of(class, y, near, other) <= count_of(class, y, near, c)
}

/// The number stands for a class that leads.
pub open spec fn names_leader(
    class: spec_fn(u64) -> i64,
    number: spec_fn(i64) -> u64,
    y: Seq<u64>,
    near: Seq<usize>,
    r: u64,
) -> bool {
    exists|c: i64| #[trigger] leads(class, y, near, c) && r == number(c)
}

proof fn lemma_votes_are_counted(
    class: spec_fn(u64) -> i64,
    y: Seq<u64>,
    near: Seq<usize>,
    votes: Seq<i64>,
    c: i64,
    n: nat,
)
    requires
        n <= near.len(),
        votes.len() == near.len(),
        forall|i: int| 0 <= i < votes.len() ==> #[trigger] votes[i] == class(y[near[i] as int]),
    ensures
        knn::votes_for(votes, c, n) == counting::places(n, of_class(class, y, near, c)).len(),
    decreases n,
{
    let f = of_class(class, y, near, c);
    if n == 0 {
        counting::lemma_no_place(f);
    } else {
        lemma_votes_are_counted(class, y, near, votes, c, (n - 1) as nat);
        counting::lemma_one_more((n - 1) as nat, f);
        assert(votes[n - 1] == class(y[near[n - 1] as int]));
    }
}

proof fn lemma_measured<D: Fn(&Vec<u64>, &Vec<u64>) -> u64>(
    distance: D,
    d: spec_fn(Seq<u64>, Seq<u64>) -> u64,
    rows: Seq<Vec<u64>>,
    features: Seq<u64>,
    ds: Seq<u64>,
)
    requires
        is_distance(distance, d),
        knn::measures_all(distance, json::rows_of(rows), features, ds),
    ensures
        ds.len() == rows.len(),
        forall|i: int| 0 <= i < rows.len() ==> #[trigger] ds[i] == d(rows[i]@, features),
{
    assert forall|i: int| 0 <= i < rows.len() implies #[trigger] ds[i] == d(rows[i]@, features) by {
        assert(knn::measures(distance, json::rows_of(rows)[i], features, ds[i]));
        let (a, b) = choose|a: &Vec<u64>, b: &Vec<u64>|
            a@ == json::rows_of(rows)[i] && b@ == features && #[trigger] call_ensures(distance, (a, b), ds[i]);
        assert(ds[i] == d(a@, b@));
    }
}

proof fn lemma_nearest<D: Fn(&Vec<u64>, &Vec<u64>) -> u64>(
    distance: D,
    d: spec_fn(Seq<u64>, Seq<u64>) -> u64,
    rows: Seq<Vec<u64>>,
    features: Seq<u64>,
    ds: Seq<u64>,
    m: nat,
    near: Seq<usize>,
)
    requires
        is_distance(distance, d),
        knn::measures_all(distance, json::rows_of(rows), features, ds),
        knn::closest(ds, m, near),
    ensures
        are_nearest(d, rows, features, near),
        near.len() == m,
{
    lemma_measured(distance, d, rows, features, ds);
    assert forall|a: int, b: int|
        0 <= a < rows.len() && 0 <= b < rows.len() && #[trigger] knn::nearer(ds, a, b) implies away(
        d,
        rows,
        features,
        a,
    ) <= away(d, rows, features, b) && (away(d, rows, features, a) == away(d, rows, features, b) ==> a < b) by {
        reals::law_order_is_of_values(ds[a], ds[b]);
    }
    assert forall|i: int, j: int| 0 <= i < j < near.len() implies near[i] != near[j] by {
        assert(knn::nearer(ds, near[i] as int, near[j] as int));
    }
}

/// The neighbours decide: of the rows nearest to the features, as many as asked for
/// or all of them, a regression gives the average of the targets, the nearest one
/// first, and a classification a class that no other one outnumbers.
pub proof fn law_neighbours_decide<
    D: Fn(&Vec<u64>, &Vec<u64>) -> u64,
    A: Fn(&Vec<u64>) -> u64,
    B: Fn(u64) -> i64,
    L: Fn(i64) -> u64,
>(
    model: &KnnModel,
    features: &Vec<u64>,
    distance: &D,
    average: &A,
    bucket: &B,
    label: &L,
    r: u64,
    d: spec_fn(Seq<u64>, Seq<u64>) -> u64,
    mean: spec_fn(Seq<u64>) -> u64,
    class: spec_fn(u64) -> i64,
    number: spec_fn(i64) -> u64,
) -> (near: Seq<usize>)
    requires
        call_ensures(KnnModel::predict::<D, A, B, L>, (model, features, distance, average, bucket, label), r),
        is_distance(*distance, d),
        is_average(*average, mean),
        are_labels(*bucket, *label, class, number),
    ensures
        are_nearest(d, model.x_train@, features@, near),
        near.len() == if model.k < model.x_train@.len() {
            model.k as nat
        } else {
            model.x_train@.len()
        },
        model.task is Regression ==> r == mean(Seq::new(near.len(), |i: int| model.y_train@[near[i] as int])),
        model.task is Classification ==> names_leader(class, number, model.y_train@, near, r),
{
    let m = model@;
    assert(knn::knn_predicts(m, *distance, *average, *bucket, *label, features@, r));
    lemma_decision(m, model.x_train@, features@, *distance, *average, *bucket, *label, r, d, mean, class, number)
}

proof fn lemma_decision<
    D: Fn(&Vec<u64>, &Vec<u64>) -> u64,
    A: Fn(&Vec<u64>) -> u64,
    B: Fn(u64) -> i64,
    L: Fn(i64) -> u64,
>(
    m: knn::KnnView,
    rows: Seq<Vec<u64>>,
    features: Seq<u64>,
    distance: D,
    average: A,
    bucket: B,
    label: L,
    r: u64,
    d: spec_fn(Seq<u64>, Seq<u64>) -> u64,
    mean: spec_fn(Seq<u64>) -> u64,
    class: spec_fn(u64) -> i64,
    number: spec_fn(i64) -> u64,
) -> (near: Seq<usize>)
    requires
        knn::knn_predicts(m, distance, average, bucket, label, features, r),
        m.x == json::rows_of(rows),
        is_distance(distance, d),
        is_average(average, mean),
        are_labels(bucket, label, class, number),
    ensures
        are_nearest(d, rows, features, near),
        near.len() == if m.k < rows.len() {
            m.k
        } else {
            rows.len()
        },
        m.task is Regression ==> r == mean(Seq::new(near.len(), |i: int| m.y[near[i] as int])),
        m.task is Classification ==> names_leader(class, number, m.y, near, r),
{
    let (ds, near) = choose|ds: Seq<u64>, near: Seq<usize>| #[trigger]
        knn::measures_all(distance, m.x, features, ds) && #[trigger] knn::closest(ds, m.asked(), near)
            && knn::is_made_of(average, bucket, label, m.task, knn::near_targets(m.y, near), r);
    lemma_nearest(distance, d, rows, features, ds, m.asked(), near);
    let targets = knn::near_targets(m.y, near);
    if m.task is Classification {
        let (votes, winner) = choose|votes: Seq<i64>, winner: i64| #[trigger]
            knn::are_buckets(bucket, targets, votes) && #[trigger] knn::wins(votes, winner) && call_ensures(
                label,
                (winner,),
                r,
            );
        assert forall|i: int| 0 <= i < votes.len() implies #[trigger] votes[i] == class(m.y[near[i] as int]) by {
            assert(call_ensures(bucket, (targets[i],), votes[i]));
        }
        assert forall|other: i64| #[trigger]
            count_of(class, m.y, near, other) <= count_of(class, m.y, near, winner) by {
            lemma_votes_are_counted(class, m.y, near, votes, other, near.len());
            lemma_votes_are_counted(class, m.y, near, votes, winner, near.len());
            assert(knn::votes_for(votes, other, votes.len()) <= knn::votes_for(votes, winner, votes.len()));
        }
        let f = of_class(class, m.y, near, winner);
        let p = choose|p: int| 0 <= p < votes.len() && votes[p] == winner;
        counting::lemma_places_bound(near.len(), f);
        assert(counting::places(near.len(), f).contains(p));
        assert(leads(class, m.y, near, winner));
    } else {
        assert(targets =~= Seq::new(near.len(), |i: int| m.y[near[i] as int]));
    }
    near
}

/// A registered model of neighbours always answers, as its neighbours decide.
pub proof fn law_neighbours_always_answer<
    D: Fn(&Vec<u64>, &Vec<u64>) -> u64,
    A: Fn(&Vec<u64>) -> u64,
    B: Fn(u64) -> i64,
    L: Fn(i64) -> u64,
>(
    model: &KnnMlModel,
    features: &Vec<u64>,
    distance: &D,
    average: &A,
    bucket: &B,
    label: &L,
    r: Result<u64, ModelError>,
    d: spec_fn(Seq<u64>, Seq<u64>) -> u64,
    mean: spec_fn(Seq<u64>) -> u64,
    class: spec_fn(u64) -> i64,
    number: spec_fn(i64) -> u64,
) -> (near: Seq<usize>)
    requires
        call_ensures(KnnMlModel::predict::<D, A, B, L>, (model, features, distance, average, bucket, label), r),
        is_distance(*distance, d),
        is_average(*average, mean),
        are_labels(*bucket, *label, class, number),
    ensures
        r is Ok,
        are_nearest(d, model.inner.x_train@, features@, near),
        near.len() == if model.inner.k < model.inner.x_train@.len() {
            model.inner.k as nat
        } else {
            model.inner.x_train@.len()
        },
        model.inner.task is Regression ==> r->Ok_0 == mean(
            Seq::new(near.len(), |i: int| model.inner.y_train@[near[i] as int]),
        ),
        model.inner.task is Classification ==> names_leader(class, number, model.inner.y_train@, near, r->Ok_0),
{
    lemma_decision(
        model.inner@,
        model.inner.x_train@,
        features@,
        *distance,
        *average,
        *bucket,
        *label,
        r->Ok_0,
        d,
        mean,
        class,
        number,
    )
}

/// The number that stands for a cluster is the given function of its position.
pub open spec fn is_numbering<L: Fn(usize) -> u64>(label: L, number: spec_fn(usize) -> u64) -> bool {
    forall|c: usize, r: u64| #[trigger] call_ensures(label, (c,), r) ==> r == number(c)
}

/// Every distance from the features is a finite number.
pub open spec fn all_finite(d: spec_fn(Seq<u64>, Seq<u64>) -> u64, rows: Seq<Vec<u64>>, features: Seq<u64>) -> bool {
    forall|i: int|
        #![trigger away(d, rows, features, i)]
        0 <= i < rows.len() ==> reals::is_number(d(rows[i]@, features)) && away(d, rows, features, i) < reals::value(
            bits::INFINITY,
        )
}

/// The number stands for the first of the rows nearest to the features.
pub open spec fn names_nearest(
    d: spec_fn(Seq<u64>, Seq<u64>) -> u64,
    number: spec_fn(usize) -> u64,
    rows: Seq<Vec<u64>>,
    features: Seq<u64>,
    r: u64,
) -> bool {
    exists|c: usize| #[trigger] is_first_nearest(d, rows, features, c) && r == number(c)
}

/// No row is nearer to the features, and no earlier one as near.
pub open spec fn is_first_nearest(
    d: spec_fn(Seq<u64>, Seq<u64>) -> u64,
    rows: Seq<Vec<u64>>,
    features: Seq<u64>,
    c: usize,
) -> bool {
    &&& c < rows.len()
    &&& forall|i: int|
        #![trigger away(d, rows, features, i)]
        0 <= i < rows.len() ==> away(d, rows, features, c as int) <= away(d, rows, features, i)
    &&& forall|i: int|
        #![trigger away(d, rows, features, i)]
        0 <= i < c ==> away(d, rows, features, c as int) < away(d, rows, features, i)
}

/// The least distance belongs to the first of the nearest rows.
pub proof fn lemma_first_nearest<D: Fn(&Vec<u64>, &Vec<u64>) -> u64>(
    distance: D,
    d: spec_fn(Seq<u64>, Seq<u64>) -> u64,
    rows: Seq<Vec<u64>>,
    features: Seq<u64>,
    c: usize,
)
    requires
        is_distance(distance, d),
        checked::is_nearest(distance, json::rows_of(rows), features, c),
        rows.len() > 0,
        all_finite(d, rows, features),
    ensures
        is_first_nearest(d, rows, features, c),
{
    let (ds, best) = choose|ds: Seq<u64>, best: Option<usize>| #[trigger]
        knn::measures_all(distance, json::rows_of(rows), features, ds) && #[trigger] choice::first_least(ds, best)
            && c == (match best {
            Some(p) => p,
            None => 0,
        });
    lemma_measured(distance, d, rows, features, ds);
    reals::law_constants_have_their_values();
    assert(away(d, rows, features, 0) < reals::value(bits::INFINITY));
    reals::law_order_is_of_values(ds[0], bits::INFINITY);
    assert(best is Some);
    assert forall|i: int| 0 <= i < rows.len() implies away(d, rows, features, c as int) <= #[trigger] away(
        d,
        rows,
        features,
        i,
    ) && (i < c ==> away(d, rows, features, c as int) < away(d, rows, features, i)) by {
        assert(away(d, rows, features, c as int) == reals::value(ds[c as int]));
        reals::law_order_is_of_values(ds[i], ds[c as int]);
        assert(!bits::less(ds[i], ds[c as int]));
        assert(i < c ==> !bits::less_eq(ds[i], ds[c as int]));
    }
}

proof fn lemma_labels_nearest<D: Fn(&Vec<u64>, &Vec<u64>) -> u64, L: Fn(usize) -> u64>(
    distance: D,
    label: L,
    d: spec_fn(Seq<u64>, Seq<u64>) -> u64,
    number: spec_fn(usize) -> u64,
    rows: Seq<Vec<u64>>,
    features: Seq<u64>,
    p: u64,
)
    requires
        is_distance(distance, d),
        is_numbering(label, number),
        checked::labels_nearest(distance, label, json::rows_of(rows), features, p),
    ensures
        rows.len() > 0 && all_finite(d, rows, features) ==> names_nearest(d, number, rows, features, p),
        rows.len() == 0 ==> p == number(0),
{
    let c = choose|c: usize| #[trigger]
        checked::is_nearest(distance, json::rows_of(rows), features, c) && call_ensures(label, (c,), p);
    if rows.len() > 0 && all_finite(d, rows, features) {
        lemma_first_nearest(distance, d, rows, features, c);
    }
}

/// What a model of clusters owes: features of another number are refused with the
/// two numbers, and others belong to the first of the nearest clusters.
pub open spec fn clusters_answer(
    d: spec_fn(Seq<u64>, Seq<u64>) -> u64,
    number: spec_fn(usize) -> u64,
    rows: Seq<Vec<u64>>,
    wanted: usize,
    features: Seq<u64>,
    r: Result<u64, ModelError>,
) -> bool {
    &&& features.len() != wanted ==> (r matches Err(ModelError::FeatureCountMismatch { expected, got }) && expected
        == wanted && got == features.len())
    &&& features.len() == wanted ==> r is Ok
    &&& features.len() == wanted && rows.len() == 0 ==> r->Ok_0 == number(0)
    &&& features.len() == wanted && rows.len() > 0 && all_finite(d, rows, features) ==> names_nearest(
        d,
        number,
        rows,
        features,
        r->Ok_0,
    )
}

/// Features belong to the nearest centroid of a model of means.
pub proof fn law_means_answer<D: Fn(&Vec<u64>, &Vec<u64>) -> u64, L: Fn(usize) -> u64>(
    model: &KMeansModel,
    features: &Vec<u64>,
    distance: &D,
    label: &L,
    r: Result<u64, ModelError>,
    d: spec_fn(Seq<u64>, Seq<u64>) -> u64,
    number: spec_fn(usize) -> u64,
)
    requires
        call_ensures(KMeansModel::predict::<D, L>, (model, features, distance, label), r),
        is_distance(*distance, d),
        is_numbering(*label, number),
    ensures
        clusters_answer(d, number, model.centroids@, model.metadata.num_features, features@, r),
{
    if features@.len() == model.metadata.num_features {
        lemma_labels_nearest(*distance, *label, d, number, model.centroids@, features@, r->Ok_0);
    }
}

/// Features belong to the nearest centroid of a fuzzy model.
pub proof fn law_fuzzy_means_answer<D: Fn(&Vec<u64>, &Vec<u64>) -> u64, L: Fn(usize) -> u64>(
    model: &FcmModel,
    features: &Vec<u64>,
    distance: &D,
    label: &L,
    r: Result<u64, ModelError>,
    d: spec_fn(Seq<u64>, Seq<u64>) -> u64,
    number: spec_fn(usize) -> u64,
)
    requires
        call_ensures(FcmModel::predict::<D, L>, (model, features, distance, label), r),
        is_distance(*distance, d),
        is_numbering(*label, number),
    ensures
        clusters_answer(d, number, model.centroids@, model.metadata.num_features, features@, r),
{
    if features@.len() == model.metadata.num_features {
        lemma_labels_nearest(*distance, *label, d, number, model.centroids@, features@, r->Ok_0);
    }
}

/// Features belong to the nearest mean of a model by density.
pub proof fn law_dense_clusters_answer<D: Fn(&Vec<u64>, &Vec<u64>) -> u64, L: Fn(usize) -> u64>(
    model: &DbscanModel,
    features: &Vec<u64>,
    distance: &D,
    label: &L,
    r: Result<u64, ModelError>,
    d: spec_fn(Seq<u64>, Seq<u64>) -> u64,
    number: spec_fn(usize) -> u64,
)
    requires
        call_ensures(DbscanModel::predict::<D, L>, (model, features, distance, label), r),
        is_distance(*distance, d),
        is_numbering(*label, number),
    ensures
        clusters_answer(d, number, model.clusters@, model.metadata.num_features, features@, r),
{
    if features@.len() == model.metadata.num_features {
        lemma_labels_nearest(*distance, *label, d, number, model.clusters@, features@, r->Ok_0);
    }
}

/// Features of any number belong to the nearest center of an agglomerative model.
pub proof fn law_merged_clusters_answer<D: Fn(&Vec<u64>, &Vec<u64>) -> u64, L: Fn(usize) -> u64>(
    model: &AgglomerativeModel,
    features: &Vec<u64>,
    distance: &D,
    label: &L,
    r: Result<u64, ModelError>,
    d: spec_fn(Seq<u64>, Seq<u64>) -> u64,
    number: spec_fn(usize) -> u64,
)
    requires
        call_ensures(AgglomerativeModel::predict::<D, L>, (model, features, distance, label), r),
        is_distance(*distance, d),
        is_numbering(*label, number),
        model.centers@.len() > 0,
        all_finite(d, model.centers@, features@),
    ensures
        r matches Ok(p) && names_nearest(d, number, model.centers@, features@, p),
{
    lemma_labels_nearest(*distance, *label, d, number, model.centers@, features@, r->Ok_0);
}

/// A new model of neighbours keeps its rows, its targets, its number of neighbours
/// and its task.
pub proof fn law_new_neighbours_are_kept(x: Vec<Vec<u64>>, y: Vec<u64>, k: usize, task: KnnTask, m: KnnModel)
    requires
        call_ensures(KnnModel::new, (x, y, k, task), m),
    ensures
        m.x_train@.len() == x@.len(),
        forall|i: int| 0 <= i < x@.len() ==> (#[trigger] m.x_train@[i])@ == x@[i]@,
        m.y_train@ == y@,
        m.k == k,
        m.task == task,
{
    assert(json::rows_of(m.x_train@).len() == m.x_train@.len());
    assert(m@.x == json::rows_of(x@));
    assert forall|i: int| 0 <= i < x@.len() implies (#[trigger] m.x_train@[i])@ == x@[i]@ by {
        assert(json::rows_of(m.x_train@)[i] == json::rows_of(x@)[i]);
    }
}

} // verus!
