//! What the metrics say of a prediction, counted over the labels and the scores.

use vstd::prelude::*;
use crate::bits;
use crate::json;
use crate::json::{Json, JsonView};
use crate::laws::counting;
use crate::laws::reals;
use crate::metrics;
use crate::metrics::{
    binary_counts, explained, metrics_of, rate_counts, Auc, BinaryCounts, BinaryRates, MetricsFn, MetricsResult,
    RegressionSums,
};
use crate::text;

verus! {

/// A label or a score above one half.
pub open spec fn is_yes(b: u64) -> bool {
    reals::is_number(b) && 2 * reals::value(b) > reals::value(bits::ONE)
}

/// How many entries are above one half.
pub open spec fn yes_count(v: Seq<u64>) -> nat {
    counting::places(v.len(), |i: int| is_yes(v[i])).len()
}

/// How many positions have both a label and a score above one half.
pub open spec fn hit_count(actual: Seq<u64>, predicted: Seq<u64>) -> nat {
    counting::places(actual.len(), |i: int| is_yes(actual[i]) && is_yes(predicted[i])).len()
}

/// How many positions have a label and a score on the same side of one half.
pub open spec fn right_count(actual: Seq<u64>, predicted: Seq<u64>) -> nat {
    counting::places(actual.len(), |i: int| is_yes(actual[i]) == is_yes(predicted[i])).len()
}

proof fn lemma_yes_is_positive(b: u64)
    ensures
        metrics::positive(b) == is_yes(b),
{
    reals::law_constants_have_their_values();
    reals::law_order_is_of_values(bits::HALF, b);
}

proof fn lemma_counts(actual: Seq<u64>, predicted: Seq<u64>, n: nat)
    requires
        n <= actual.len(),
        actual.len() == predicted.len(),
    ensures
        metrics::count_of(actual, predicted, n, true, true) == counting::places(
            n,
            |i: int| is_yes(actual[i]) && is_yes(predicted[i]),
        ).len(),
        metrics::count_of(actual, predicted, n, true, true) + metrics::count_of(actual, predicted, n, false, true)
            == counting::places(n, |i: int| is_yes(predicted[i])).len(),
        metrics::count_of(actual, predicted, n, true, true) + metrics::count_of(actual, predicted, n, true, false)
            == counting::places(n, |i: int| is_yes(actual[i])).len(),
        metrics::count_of(actual, predicted, n, true, true) + metrics::count_of(actual, predicted, n, false, false)
            == counting::places(n, |i: int| is_yes(actual[i]) == is_yes(predicted[i])).len(),
        metrics::count_of(actual, predicted, n, true, true) + metrics::count_of(actual, predicted, n, false, true)
            + metrics::count_of(actual, predicted, n, true, false) + metrics::count_of(
            actual,
            predicted,
            n,
            false,
            false,
        ) == n,
    decreases n,
{
    let f = |i: int| is_yes(actual[i]) && is_yes(predicted[i]);
    let g = |i: int| is_yes(predicted[i]);
    let h = |i: int| is_yes(actual[i]);
    let k = |i: int| is_yes(actual[i]) == is_yes(predicted[i]);
    if n == 0 {
        counting::lemma_no_place(f);
        counting::lemma_no_place(g);
        counting::lemma_no_place(h);
        counting::lemma_no_place(k);
    } else {
        let m = (n - 1) as nat;
        lemma_counts(actual, predicted, m);
        lemma_yes_is_positive(actual[n - 1]);
        lemma_yes_is_positive(predicted[n - 1]);
        counting::lemma_one_more(m, f);
        counting::lemma_one_more(m, g);
        counting::lemma_one_more(m, h);
        counting::lemma_one_more(m, k);
    }
}

/// The four counts divide the positions: by the label on one side and by the score
/// on the other.
pub proof fn law_counts_divide_positions(actual: Vec<u64>, predicted: Vec<u64>, c: BinaryCounts)
    requires
        actual@.len() == predicted@.len(),
        call_ensures(binary_counts, (&actual, &predicted), c),
    ensures
        c.tp == hit_count(actual@, predicted@),
        c.tp + c.fp == yes_count(predicted@),
        c.tp + c.fn_ == yes_count(actual@),
        c.tp + c.tn == right_count(actual@, predicted@),
        c.tp + c.fp + c.tn + c.fn_ == actual@.len(),
{
    lemma_counts(actual@, predicted@, actual@.len());
}

/// Precision is the share of the hits among the positions that are predicted
/// positive, recall that among the positions that are positive, accuracy that of the
/// right answers among all; and the F1 score is the harmonic mean of the first two.
/// Without anything to divide by a share is 0, and without a hit the F1 score.
pub proof fn law_rates_are_shares<R: Fn(usize, usize) -> u64, H: Fn(u64, u64) -> u64, A: Fn(Auc) -> u64>(
    actual: Vec<u64>,
    predicted: Vec<u64>,
    c: BinaryCounts,
    ratio: R,
    harmonic: H,
    area: A,
    r: BinaryRates,
)
    requires
        actual@.len() == predicted@.len(),
        0 < actual@.len() <= usize::MAX,
        call_ensures(binary_counts, (&actual, &predicted), c),
        call_ensures(rate_counts::<R, H, A>, (&c, &ratio, &harmonic, &area), r),
    ensures
        yes_count(predicted@) > 0 ==> call_ensures(
            ratio,
            (hit_count(actual@, predicted@) as usize, yes_count(predicted@) as usize),
            r.precision,
        ),
        yes_count(predicted@) == 0 ==> r.precision == bits::ZERO,
        yes_count(actual@) > 0 ==> call_ensures(
            ratio,
            (hit_count(actual@, predicted@) as usize, yes_count(actual@) as usize),
            r.recall,
        ),
        yes_count(actual@) == 0 ==> r.recall == bits::ZERO,
        call_ensures(ratio, (right_count(actual@, predicted@) as usize, actual@.len() as usize), r.accuracy),
        hit_count(actual@, predicted@) > 0 ==> call_ensures(harmonic, (r.precision, r.recall), r.f1),
        hit_count(actual@, predicted@) == 0 ==> r.f1 == bits::ZERO,
{
    law_counts_divide_positions(actual, predicted, c);
}

/// Two predictions differ at one position.
pub open spec fn differ_at(p: Seq<u64>, q: Seq<u64>, i: int) -> bool {
    &&& p.len() == q.len()
    &&& 0 <= i < p.len()
    &&& forall|j: int| 0 <= j < p.len() && j != i ==> p[j] == q[j]
}

proof fn lemma_one_place_more(n: nat, f: spec_fn(int) -> bool, g: spec_fn(int) -> bool, i: int)
    requires
        0 <= i < n,
        !f(i),
        g(i),
        forall|j: int| 0 <= j < n && j != i ==> #[trigger] f(j) == g(j),
    ensures
        counting::places(n, g).len() == counting::places(n, f).len() + 1,
{
    counting::lemma_places_bound(n, f);
    assert(counting::places(n, g) =~= counting::places(n, f).insert(i));
}

/// One negative more that is predicted positive enlarges what precision divides by
/// and the false positives, and leaves the hits and what recall divides by; one
/// positive less that is predicted leaves what recall divides by.
pub proof fn law_one_answer_more(actual: Vec<u64>, p: Vec<u64>, q: Vec<u64>, i: int, a: BinaryCounts, b: BinaryCounts)
    requires
        actual@.len() == p@.len(),
        differ_at(p@, q@, i),
        !is_yes(p@[i]),
        is_yes(q@[i]),
        call_ensures(binary_counts, (&actual, &p), a),
        call_ensures(binary_counts, (&actual, &q), b),
    ensures
        b.tp + b.fp == a.tp + a.fp + 1,
        b.tp + b.fn_ == a.tp + a.fn_,
        is_yes(actual@[i]) ==> b.tp == a.tp + 1 && b.fp == a.fp && b.fn_ + 1 == a.fn_ && b.tn == a.tn,
        !is_yes(actual@[i]) ==> b.fp == a.fp + 1 && b.tp == a.tp && b.fn_ == a.fn_ && b.tn + 1 == a.tn,
{
    law_counts_divide_positions(actual, p, a);
    law_counts_divide_positions(actual, q, b);
    let n = actual@.len();
    lemma_one_place_more(n, |x: int| is_yes(p@[x]), |x: int| is_yes(q@[x]), i);
    let f = |x: int| is_yes(actual@[x]) && is_yes(p@[x]);
    let g = |x: int| is_yes(actual@[x]) && is_yes(q@[x]);
    if is_yes(actual@[i]) {
        lemma_one_place_more(n, f, g, i);
    } else {
        assert(counting::places(n, f) =~= counting::places(n, g));
    }
}

/// The pairs of a positive and a negative position of which the negative scores
/// higher (`tied`: the same), with the positive one below `m` and the other below `n`.
pub open spec fn pairs(actual: Seq<u64>, scores: Seq<u64>, m: nat, n: nat, tied: bool) -> Set<(int, int)> {
    Set::new(
        |x: (int, int)|
            0 <= x.0 < m && 0 <= x.1 < n && is_yes(actual[x.0]) && !is_yes(actual[x.1]) && if tied {
                reals::value(scores[x.0]) == reals::value(scores[x.1])
            } else {
                reals::value(scores[x.0]) < reals::value(scores[x.1])
            },
    )
}

/// The pairs below `m`, and those of the position `m` below `n`.
spec fn pairs_upto(actual: Seq<u64>, scores: Seq<u64>, m: nat, n: nat, tied: bool) -> Set<(int, int)> {
    Set::new(
        |x: (int, int)|
            pairs(actual, scores, m, actual.len(), tied).contains(x) || pairs(
                actual,
                scores,
                m + 1,
                n,
                tied,
            ).contains(x),
    )
}

proof fn lemma_pairs_row(actual: Seq<u64>, scores: Seq<u64>, m: nat, n: nat)
    requires
        m < actual.len(),
        n <= actual.len(),
        actual.len() == scores.len(),
        pairs(actual, scores, m, actual.len(), true).finite(),
        pairs(actual, scores, m, actual.len(), false).finite(),
    ensures
        pairs_upto(actual, scores, m, n, true).finite(),
        pairs_upto(actual, scores, m, n, false).finite(),
        2 * pairs_upto(actual, scores, m, n, false).len() + pairs_upto(actual, scores, m, n, true).len() == 2 * pairs(
            actual,
            scores,
            m,
            actual.len(),
            false,
        ).len() + pairs(actual, scores, m, actual.len(), true).len() + metrics::row_loss(
            actual,
            scores,
            m as int,
            n,
        ),
    decreases n,
{
    if n == 0 {
        assert(pairs_upto(actual, scores, m, 0, true) =~= pairs(actual, scores, m, actual.len(), true));
        assert(pairs_upto(actual, scores, m, 0, false) =~= pairs(actual, scores, m, actual.len(), false));
    } else {
        let q = n - 1;
        lemma_pairs_row(actual, scores, m, q as nat);
        lemma_yes_is_positive(actual[m as int]);
        lemma_yes_is_positive(actual[q]);
        reals::law_order_is_of_values(scores[m as int], scores[q]);
        let x = (m as int, q);
        let low = pairs_upto(actual, scores, m, q as nat, false);
        let same = pairs_upto(actual, scores, m, q as nat, true);
        let next_low = pairs_upto(actual, scores, m, n, false);
        let next_same = pairs_upto(actual, scores, m, n, true);
        if is_yes(actual[m as int]) && !is_yes(actual[q]) && reals::value(scores[m as int]) < reals::value(scores[q]) {
            assert(next_low =~= low.insert(x));
            assert(!low.contains(x));
        } else {
            assert(next_low =~= low);
        }
        if is_yes(actual[m as int]) && !is_yes(actual[q]) && reals::value(scores[m as int]) == reals::value(scores[q]) {
            assert(next_same =~= same.insert(x));
            assert(!same.contains(x));
        } else {
            assert(next_same =~= same);
        }
    }
}

proof fn lemma_pairs(actual: Seq<u64>, scores: Seq<u64>, m: nat)
    requires
        m <= actual.len(),
        actual.len() == scores.len(),
    ensures
        pairs(actual, scores, m, actual.len(), true).finite(),
        pairs(actual, scores, m, actual.len(), false).finite(),
        2 * pairs(actual, scores, m, actual.len(), false).len() + pairs(actual, scores, m, actual.len(), true).len()
            == metrics::total_loss(actual, scores, m),
    decreases m,
{
    if m == 0 {
        assert(pairs(actual, scores, 0, actual.len(), true) =~= Set::empty());
        assert(pairs(actual, scores, 0, actual.len(), false) =~= Set::empty());
    } else {
        let l = (m - 1) as nat;
        lemma_pairs(actual, scores, l);
        lemma_pairs_row(actual, scores, l, actual.len());
        assert(pairs_upto(actual, scores, l, actual.len(), true) =~= pairs(actual, scores, m, actual.len(), true));
        assert(pairs_upto(actual, scores, l, actual.len(), false) =~= pairs(actual, scores, m, actual.len(), false));
    }
}

proof fn lemma_labels(actual: Seq<u64>, n: nat)
    requires
        n <= actual.len(),
    ensures
        metrics::label_count(actual, n, true) == counting::places(n, |i: int| is_yes(actual[i])).len(),
        metrics::label_count(actual, n, false) + metrics::label_count(actual, n, true) == n,
    decreases n,
{
    let f = |i: int| is_yes(actual[i]);
    if n == 0 {
        counting::lemma_no_place(f);
    } else {
        lemma_labels(actual, (n - 1) as nat);
        counting::lemma_one_more((n - 1) as nat, f);
        lemma_yes_is_positive(actual[n - 1]);
    }
}

/// The area under the curve is there exactly where both labels occur. It is made of
/// the pairs of a positive and a negative position: those in which the negative one
/// scores higher are lost, those that score the same are lost by half.
pub proof fn law_area_counts_lost_pairs(actual: Vec<u64>, predicted: Vec<u64>, c: BinaryCounts)
    requires
        actual@.len() == predicted@.len(),
        call_ensures(binary_counts, (&actual, &predicted), c),
    ensures
        c.roc_auc is Some <==> 0 < yes_count(actual@) < actual@.len(),
        c.roc_auc matches Some(auc) ==> {
            let n = actual@.len();
            &&& auc.positives == yes_count(actual@)
            &&& auc.negatives == n - yes_count(actual@)
            &&& auc.losses_doubled == 2 * pairs(actual@, predicted@, n, n, false).len() + pairs(
                actual@,
                predicted@,
                n,
                n,
                true,
            ).len()
        },
{
    lemma_labels(actual@, actual@.len());
    lemma_pairs(actual@, predicted@, actual@.len());
}

/// A perfect prediction explains everything, also where there is nothing to explain.
/// Any other one explains, of a total above 0, what the caller makes of the residual
/// and the total, and of nothing the least there is.
pub proof fn law_explained_share<X: Fn(u64, u64) -> u64>(sums: RegressionSums, explain: X, r2: u64)
    requires
        call_ensures(explained::<X>, (&sums, &explain), r2),
        reals::is_number(sums.total),
        reals::is_number(sums.residual),
    ensures
        reals::value(sums.total) > 0 ==> call_ensures(explain, (sums.residual, sums.total), r2),
        reals::value(sums.total) <= 0 && reals::value(sums.residual) == 0 ==> r2 == bits::ONE,
        reals::value(sums.total) <= 0 && reals::value(sums.residual) != 0 ==> r2 == bits::NEG_INFINITY,
{
    reals::law_constants_have_their_values();
    reals::law_order_is_of_values(bits::ZERO, sums.total);
    reals::law_order_is_of_values(sums.residual, bits::ZERO);
}

/// A document is an array of these numbers.
pub open spec fn holds_numbers(doc: JsonView, v: Seq<u64>) -> bool {
    doc matches JsonView::Array(a) && a.len() == v.len() && forall|i: int|
        #![trigger a[i]]
        #![trigger v[i]]
        0 <= i < v.len() ==> (a[i] matches JsonView::Number(n) && n.real == Some(v[i])) && reals::is_number(v[i])
}

proof fn lemma_numbers_held(a: Seq<JsonView>, name: Seq<char>, v: Seq<u64>, n: nat)
    requires
        holds_numbers(JsonView::Array(a), v),
        n <= v.len(),
    ensures
        metrics::numbers_upto(a, name, n) == Ok::<Seq<u64>, Seq<char>>(v.take(n as int)),
    decreases n,
{
    if n > 0 {
        lemma_numbers_held(a, name, v, (n - 1) as nat);
        assert(a[n - 1] is Number);
        reals::law_order_is_of_values(v[n - 1], v[n - 1]);
        assert(v.take(n as int) =~= v.take(n - 1).push(v[n - 1]));
    } else {
        assert(v.take(0) =~= Seq::empty());
    }
}

/// Every label is 0 or 1.
pub open spec fn zeros_and_ones(v: Seq<u64>) -> bool {
    forall|i: int|
        0 <= i < v.len() ==> reals::value(#[trigger] v[i]) == 0 || reals::value(v[i]) == reals::value(bits::ONE)
}

/// What is measured of labels and scores for a task: the counts of a classification
/// where that is asked for or, with nothing asked, the labels are 0 and 1; else the
/// numbers as they stand.
pub open spec fn measured(task: Seq<char>, a: Seq<u64>, p: Seq<u64>, r: MetricsResult) -> bool {
    &&& task == "binary"@ || (task == "auto"@ && zeros_and_ones(a)) ==> (r matches MetricsResult::Binary(c) && c.tp
        == hit_count(a, p) && c.tp + c.fp == yes_count(p) && c.tp + c.fn_ == yes_count(a) && c.tp + c.fp + c.tn + c.fn_
        == a.len())
    &&& task == "regression"@ || (task == "auto"@ && !zeros_and_ones(a)) ==> (r matches MetricsResult::Regression {
        actual,
        predicted,
    } && actual@ == a && predicted@ == p)
}

proof fn lemma_measured(
    actual: JsonView,
    predicted: JsonView,
    task: Seq<char>,
    a: Seq<u64>,
    p: Seq<u64>,
    r: Result<MetricsResult, String>,
)
    requires
        metrics::metrics_outcome(Ok(actual), Ok(predicted), task, r),
        holds_numbers(actual, a),
        holds_numbers(predicted, p),
        a.len() == p.len(),
        a.len() > 0,
    ensures
        r matches Ok(result) ==> measured(task, a, p, result),
        r is Ok <==> task == "binary"@ || task == "regression"@ || task == "auto"@,
{
    lemma_numbers_held(actual->Array_0, "actual"@, a, a.len());
    lemma_numbers_held(predicted->Array_0, "predicted"@, p, p.len());
    assert(a.take(a.len() as int) =~= a);
    assert(p.take(p.len() as int) =~= p);
    lemma_counts(a, p, a.len());
    reals::law_constants_have_their_values();
    assert forall|i: int| 0 <= i < a.len() implies (bits::same(#[trigger] a[i], bits::ZERO) || bits::same(
        a[i],
        bits::ONE,
    )) == (reals::value(a[i]) == 0 || reals::value(a[i]) == reals::value(bits::ONE)) by {
        reals::law_order_is_of_values(a[i], bits::ZERO);
        reals::law_order_is_of_values(a[i], bits::ONE);
        assert(reals::is_number(a[i]));
    }
    assert(metrics::all_binary(a) == zeros_and_ones(a));
    assert("binary"@ != "regression"@ && "auto"@ != "regression"@ && "auto"@ != "binary"@) by {
        reveal_strlit("binary");
        reveal_strlit("auto");
        reveal_strlit("regression");
        assert("binary"@.len() == 6 && "auto"@.len() == 4 && "regression"@.len() == 10);
    }
}

/// Two arrays of as many numbers are measured for each of the three tasks, and for
/// no other.
pub proof fn law_task_decides_metrics(
    actual: Json,
    predicted: Json,
    task: &str,
    a: Seq<u64>,
    p: Seq<u64>,
    r: Result<MetricsResult, String>,
)
    requires
        call_ensures(metrics_of, (&actual, &predicted, task), r),
        holds_numbers(actual@, a),
        holds_numbers(predicted@, p),
        a.len() == p.len(),
        a.len() > 0,
    ensures
        r matches Ok(result) ==> measured(task@, a, p, result),
        r is Ok <==> task@ == "binary"@ || task@ == "regression"@ || task@ == "auto"@,
{
    lemma_measured(actual@, predicted@, task@, a, p, r);
}

/// Arrays of different lengths, and arrays without elements, are not measured.
pub proof fn law_unequal_arrays_are_refused(
    actual: Json,
    predicted: Json,
    task: &str,
    a: Seq<u64>,
    p: Seq<u64>,
    r: Result<MetricsResult, String>,
)
    requires
        call_ensures(metrics_of, (&actual, &predicted, task), r),
        holds_numbers(actual@, a),
        holds_numbers(predicted@, p),
        a.len() != p.len() || a.len() == 0,
    ensures
        r is Err,
{
    lemma_numbers_held(actual@->Array_0, "actual"@, a, a.len());
    lemma_numbers_held(predicted@->Array_0, "predicted"@, p, p.len());
    assert(a.take(a.len() as int) =~= a);
    assert(p.take(p.len() as int) =~= p);
}

/// Each row of a call is measured for the task that the third argument asks for, in
/// whatever case, and for the automatic one where there is no third argument or a
/// null.
pub proof fn law_rows_are_measured(
    columns: usize,
    rows: Vec<(Option<String>, Option<String>)>,
    task: Option<String>,
    out: Vec<Option<MetricsResult>>,
    i: int,
    a: Seq<u64>,
    p: Seq<u64>,
)
    requires
        call_ensures(MetricsFn::invoke, (columns, &rows, &task), Ok(out)),
        0 <= i < rows@.len(),
        rows@[i].0 is Some,
        rows@[i].1 is Some,
        json::json_document(rows@[i].0->0@) is Ok,
        json::json_document(rows@[i].1->0@) is Ok,
        holds_numbers(json::json_document(rows@[i].0->0@)->Ok_0, a),
        holds_numbers(json::json_document(rows@[i].1->0@)->Ok_0, p),
        a.len() == p.len(),
        a.len() > 0,
    ensures
        columns == 2 || columns == 3,
        out@.len() == rows@.len(),
        out@[i] is Some,
        columns == 3 && task is Some ==> measured(text::lower_case(task->0@), a, p, out@[i]->0),
        columns == 2 || task is None ==> measured("auto"@, a, p, out@[i]->0),
{
    let r: Result<MetricsResult, String> = Ok(out@[i]->0);
    lemma_measured(
        json::json_document(rows@[i].0->0@)->Ok_0,
        json::json_document(rows@[i].1->0@)->Ok_0,
        metrics::task_of(columns as int, task),
        a,
        p,
        r,
    );
}

} // verus!
