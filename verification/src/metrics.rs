//! Prediction-quality metrics.
//!
//! The library reads the arrays, picks the task and counts; the quotients of
//! the counts are the caller's to compute.

use vstd::prelude::*;
use crate::bits;
use crate::bits::{is_less, is_same, not_a_number, rank_of};
use crate::json;
use crate::json::{parse_json, Json, JsonView};
use crate::sorting;
use crate::sorting::{sorted_positions, RowOrder};
use crate::text;
use crate::text::{push_decimal, text_eq, to_lower_case};

verus! {

/// A label or a score above one half counts as positive.
pub open spec fn positive(b: u64) -> bool {
    bits::less(bits::HALF, b)
}

/// How many positions before `n` have the given truth and the given prediction.
pub open spec fn count_of(actual: Seq<u64>, predicted: Seq<u64>, n: nat, truth: bool, said: bool) -> nat
    decreases n,
{
    if n == 0 {
        0
    } else {
        count_of(actual, predicted, (n - 1) as nat, truth, said) + if positive(actual[n - 1]) == truth && positive(
            predicted[n - 1],
        ) == said {
            1nat
        } else {
            0nat
        }
    }
}

/// How many of the first `n` labels are positive (`truth`) or negative.
pub open spec fn label_count(actual: Seq<u64>, n: nat, truth: bool) -> nat
    decreases n,
{
    if n == 0 {
        0
    } else {
        label_count(actual, (n - 1) as nat, truth) + if positive(actual[n - 1]) == truth {
            1nat
        } else {
            0nat
        }
    }
}

/// What a pair costs: 2 where `p` is positive, `q` negative, and `q` scores
/// higher; 1 where they score the same; 0 otherwise.
pub open spec fn pair_loss(actual: Seq<u64>, scores: Seq<u64>, p: int, q: int) -> nat {
    if positive(actual[p]) && !positive(actual[q]) {
        if bits::rank(scores[q]) > bits::rank(scores[p]) {
            2
        } else if bits::rank(scores[q]) == bits::rank(scores[p]) {
            1
        } else {
            0
        }
    } else {
        0
    }
}

/// What `p` costs against the first `n` positions.
pub open spec fn row_loss(actual: Seq<u64>, scores: Seq<u64>, p: int, n: nat) -> nat
    decreases n,
{
    if n == 0 {
        0
    } else {
        row_loss(actual, scores, p, (n - 1) as nat) + pair_loss(actual, scores, p, n - 1)
    }
}

/// What the first `m` positions cost against all: twice the number of pairs in
/// which the negative scores higher, plus the number of ties.
pub open spec fn total_loss(actual: Seq<u64>, scores: Seq<u64>, m: nat) -> nat
    decreases m,
{
    if m == 0 {
        0
    } else {
        total_loss(actual, scores, (m - 1) as nat) + row_loss(actual, scores, m - 1, actual.len())
    }
}

/// The area under the ROC curve as whole numbers: it is
/// `1 - (losses_doubled / 2) / (positives * negatives)`.
#[derive(Debug, Clone, Copy, PartialEq, Eq)]
pub struct Auc {
    /// Twice the number of pairs of a positive and a higher scoring negative,
    /// plus the number of pairs that score the same.
    pub losses_doubled: u128,
    pub positives: usize,
    pub negatives: usize,
}

/// A sum over a list of positions.
spec fn sum_over(order: Seq<usize>, f: spec_fn(int) -> nat) -> nat
    decreases order.len(),
{
    if order.len() == 0 {
        0
    } else {
        sum_over(order.drop_last(), f) + f(order.last() as int)
    }
}

/// A sum over the first `n` positions.
spec fn sum_upto(n: nat, f: spec_fn(int) -> nat) -> nat
    decreases n,
{
    if n == 0 {
        0
    } else {
        sum_upto((n - 1) as nat, f) + f(n - 1)
    }
}

proof fn lemma_sum_remove(order: Seq<usize>, f: spec_fn(int) -> nat, k: int)
    requires
        0 <= k < order.len(),
    ensures
        sum_over(order, f) == sum_over(order.remove(k), f) + f(order[k] as int),
    decreases order.len(),
{
    if k == order.len() - 1 {
        assert(order.remove(k) =~= order.drop_last());
    } else {
        lemma_sum_remove(order.drop_last(), f, k);
        assert(order.remove(k).drop_last() =~= order.drop_last().remove(k));
        assert(order.remove(k).last() == order.last());
    }
}

/// A sum does not depend on the order of the positions.
proof fn lemma_sum_permuted(order: Seq<usize>, n: nat, f: spec_fn(int) -> nat)
    requires
        order.len() == n,
        n <= usize::MAX,
        order.no_duplicates(),
        forall|x: usize| #[trigger] order.contains(x) <==> x < n,
    ensures
        sum_over(order, f) == sum_upto(n, f),
    decreases n,
{
    if n > 0 {
        let top = (n - 1) as usize;
        assert(order.contains(top));
        let k = choose|k: int| 0 <= k < order.len() && order[k] == top;
        let rest = order.remove(k);
        lemma_sum_remove(order, f, k);
        assert(rest.no_duplicates()) by {
            assert forall|i: int, j: int| 0 <= i < rest.len() && 0 <= j < rest.len() && i != j implies rest[i]
                != rest[j] by {
                let a = if i < k { i } else { i + 1 };
                let b = if j < k { j } else { j + 1 };
                assert(rest[i] == order[a] && rest[j] == order[b]);
            }
        }
        assert forall|x: usize| #[trigger] rest.contains(x) <==> x < n - 1 by {
            if rest.contains(x) {
                let i = choose|i: int| 0 <= i < rest.len() && rest[i] == x;
                let a = if i < k { i } else { i + 1 };
                assert(order[a] == x);
                assert(order.contains(x));
                assert(order[a] != order[k]);
            }
            if x < n - 1 {
                assert(order.contains(x));
                let a = choose|a: int| 0 <= a < order.len() && order[a] == x;
                let i = if a < k { a } else { a - 1 };
                assert(rest[i] == x);
            }
        }
        lemma_sum_permuted(rest, (n - 1) as nat, f);
    }
}

proof fn lemma_row_is_sum(actual: Seq<u64>, scores: Seq<u64>, p: int, n: nat)
    ensures
        row_loss(actual, scores, p, n) == sum_upto(n, |q: int| pair_loss(actual, scores, p, q)),
    decreases n,
{
    if n > 0 {
        lemma_row_is_sum(actual, scores, p, (n - 1) as nat);
    }
}

proof fn lemma_total_is_sum(actual: Seq<u64>, scores: Seq<u64>, m: nat)
    ensures
        total_loss(actual, scores, m) == sum_upto(m, |p: int| row_loss(actual, scores, p, actual.len())),
    decreases m,
{
    if m > 0 {
        lemma_total_is_sum(actual, scores, (m - 1) as nat);
    }
}

/// Negatives among the positions `order[lo..hi]`.
spec fn negatives_in(actual: Seq<u64>, order: Seq<usize>, lo: int, hi: int) -> nat
    decreases hi - lo,
{
    if hi <= lo {
        0
    } else {
        negatives_in(actual, order, lo, hi - 1) + if positive(actual[order[hi - 1] as int]) {
            0nat
        } else {
            1nat
        }
    }
}

proof fn lemma_negatives_split(actual: Seq<u64>, order: Seq<usize>, lo: int, mid: int, hi: int)
    requires
        lo <= mid <= hi,
    ensures
        negatives_in(actual, order, lo, hi) == negatives_in(actual, order, lo, mid) + negatives_in(
            actual,
            order,
            mid,
            hi,
        ),
    decreases hi - mid,
{
    if mid < hi {
        lemma_negatives_split(actual, order, lo, mid, hi - 1);
    }
}

/// What `p` costs against the first `m` positions of a falling order, where
/// the positions from `lo` to `hi` score the same as `p`.
proof fn lemma_row_in_order(
    actual: Seq<u64>,
    scores: Seq<u64>,
    order: Seq<usize>,
    p: int,
    lo: int,
    hi: int,
    m: int,
)
    requires
        positive(actual[p]),
        0 <= lo <= hi <= order.len(),
        0 <= m <= order.len(),
        forall|i: int| 0 <= i < lo ==> bits::rank(scores[#[trigger] order[i] as int]) > bits::rank(scores[p]),
        forall|i: int| lo <= i < hi ==> bits::rank(scores[#[trigger] order[i] as int]) == bits::rank(scores[p]),
        forall|i: int|
            hi <= i < order.len() ==> bits::rank(scores[#[trigger] order[i] as int]) < bits::rank(scores[p]),
    ensures
        sum_over(order.take(m), |q: int| pair_loss(actual, scores, p, q)) == if m <= lo {
            2 * negatives_in(actual, order, 0, m)
        } else if m <= hi {
            2 * negatives_in(actual, order, 0, lo) + negatives_in(actual, order, lo, m)
        } else {
            2 * negatives_in(actual, order, 0, lo) + negatives_in(actual, order, lo, hi)
        },
    decreases m,
{
    let f = |q: int| pair_loss(actual, scores, p, q);
    if m > 0 {
        lemma_row_in_order(actual, scores, order, p, lo, hi, m - 1);
        assert(order.take(m).drop_last() =~= order.take(m - 1));
        assert(order.take(m).last() == order[m - 1]);
        if m <= lo {
        } else if m <= hi {
            if m - 1 == lo {
                assert(negatives_in(actual, order, lo, lo) == 0);
            }
        } else if m - 1 == hi {
            if hi == lo {
                assert(negatives_in(actual, order, lo, lo) == 0);
            }
        }
    }
}

struct ScoreTable<'a> {
    scores: &'a Vec<u64>,
}

impl<'a> RowOrder for ScoreTable<'a> {
    closed spec fn size(&self) -> nat {
        self.scores@.len()
    }

    closed spec fn comparable(&self) -> bool {
        true
    }

    closed spec fn rows_le(&self, a: int, b: int) -> bool {
        bits::rank(self.scores@[a]) >= bits::rank(self.scores@[b])
    }

    proof fn total(&self, a: int, b: int) {
    }

    proof fn transitive(&self, a: int, b: int, c: int) {
    }

    fn check_le(&self, a: usize, b: usize) -> (r: bool) {
        rank_of(self.scores[a]) >= rank_of(self.scores[b])
    }
}

proof fn lemma_label_counts(actual: Seq<u64>, n: nat)
    requires
        n <= actual.len(),
    ensures
        label_count(actual, n, true) + label_count(actual, n, false) == n,
    decreases n,
{
    if n > 0 {
        lemma_label_counts(actual, (n - 1) as nat);
    }
}

fn count_labels(actual: &Vec<u64>, truth: bool) -> (r: usize)
    ensures
        r == label_count(actual@, actual@.len(), truth),
{
    let mut r: usize = 0;
    let mut i: usize = 0;
    while i < actual.len()
        invariant
            i <= actual@.len(),
            r <= i,
            r == label_count(actual@, i as nat, truth),
        decreases actual.len() - i,
    {
        if is_less(bits::HALF, actual[i]) == truth {
            r = r + 1;
        }
        i = i + 1;
    }
    r
}

/// The labels along an order are the labels.
proof fn lemma_negatives_in_order(actual: Seq<u64>, order: Seq<usize>, m: int)
    requires
        0 <= m <= order.len(),
    ensures
        negatives_in(actual, order, 0, m) == sum_over(
            order.take(m),
            |x: int|
                if positive(actual[x]) {
                    0nat
                } else {
                    1nat
                },
        ),
    decreases m,
{
    if m > 0 {
        lemma_negatives_in_order(actual, order, m - 1);
        assert(order.take(m).drop_last() =~= order.take(m - 1));
        assert(order.take(m).last() == order[m - 1]);
    } else {
        assert(order.take(0) =~= Seq::empty());
    }
}

proof fn lemma_label_sum(actual: Seq<u64>, n: nat)
    ensures
        label_count(actual, n, false) == sum_upto(
            n,
            |x: int|
                if positive(actual[x]) {
                    0nat
                } else {
                    1nat
                },
        ),
    decreases n,
{
    if n > 0 {
        lemma_label_sum(actual, (n - 1) as nat);
    }
}

spec fn positives_in(actual: Seq<u64>, order: Seq<usize>, m: int) -> nat
    decreases m,
{
    if m <= 0 {
        0
    } else {
        positives_in(actual, order, m - 1) + if positive(actual[order[m - 1] as int]) {
            1nat
        } else {
            0nat
        }
    }
}

proof fn lemma_parts_in_order(actual: Seq<u64>, order: Seq<usize>, m: int)
    requires
        0 <= m <= order.len(),
    ensures
        positives_in(actual, order, m) + negatives_in(actual, order, 0, m) == m,
    decreases m,
{
    if m > 0 {
        lemma_parts_in_order(actual, order, m - 1);
    }
}

/// A negative costs nothing.
proof fn lemma_negative_row(actual: Seq<u64>, scores: Seq<u64>, p: int, n: nat)
    requires
        !positive(actual[p]),
    ensures
        row_loss(actual, scores, p, n) == 0,
    decreases n,
{
    if n > 0 {
        lemma_negative_row(actual, scores, p, (n - 1) as nat);
    }
}

/// The positions of a table in falling order of their scores.
spec fn falling(scores: Seq<u64>, order: Seq<usize>) -> bool {
    &&& order.len() == scores.len()
    &&& order.no_duplicates()
    &&& forall|x: usize| #[trigger] order.contains(x) <==> x < scores.len()
    &&& forall|i: int| 0 <= i < order.len() ==> #[trigger] order[i] < scores.len()
    &&& forall|i: int, j: int|
        #![trigger order[i], order[j]]
        0 <= i < j < order.len() ==> bits::rank(scores[order[i] as int]) >= bits::rank(scores[order[j] as int])
}

fn falling_order(scores: &Vec<u64>) -> (order: Vec<usize>)
    ensures
        falling(scores@, order@),
{
    let t = ScoreTable { scores };
    let order: Vec<usize> = sorted_positions(&t, scores.len());
    proof {
        let le = |a: int, b: int| t.rows_le(a, b);
        assert forall|i: int| 0 <= i < order@.len() implies #[trigger] order@[i] < scores@.len() by {
            assert(order@.contains(order@[i]));
        }
        assert(order@.no_duplicates()) by {
            assert forall|i: int, j: int|
                0 <= i < order@.len() && 0 <= j < order@.len() && i != j implies order@[i] != order@[j] by {
                if i < j {
                    assert(sorting::comes_first(le, order@[i] as int, order@[j] as int));
                } else {
                    assert(sorting::comes_first(le, order@[j] as int, order@[i] as int));
                }
            }
        }
        assert forall|i: int, j: int|
            #![trigger order@[i], order@[j]]
            0 <= i < j < order@.len() implies bits::rank(scores@[order@[i] as int]) >= bits::rank(
            scores@[order@[j] as int],
        ) by {
            assert(sorting::comes_first(le, order@[i] as int, order@[j] as int));
        }
    }
    order
}

/// What a positive costs that scores the same as the positions from `lo` to
/// `hi` of the order.
proof fn lemma_group_row(actual: Seq<u64>, scores: Seq<u64>, order: Seq<usize>, x: int, lo: int, hi: int)
    requires
        actual.len() == scores.len(),
        scores.len() <= usize::MAX,
        falling(scores, order),
        0 <= lo <= x < hi <= order.len(),
        positive(actual[order[x] as int]),
        lo > 0 ==> bits::rank(scores[order[lo - 1] as int]) > bits::rank(scores[order[lo] as int]),
        hi < order.len() ==> bits::rank(scores[order[hi] as int]) < bits::rank(scores[order[lo] as int]),
        forall|i: int|
            lo <= i < hi ==> bits::rank(scores[#[trigger] order[i] as int]) == bits::rank(scores[order[lo] as int]),
    ensures
        row_loss(actual, scores, order[x] as int, actual.len()) == 2 * negatives_in(actual, order, 0, lo)
            + negatives_in(actual, order, lo, hi),
{
    let p = order[x] as int;
    let n = actual.len();
    assert(bits::rank(scores[p]) == bits::rank(scores[order[lo] as int]));
    assert forall|i: int| 0 <= i < lo implies bits::rank(scores[#[trigger] order[i] as int]) > bits::rank(scores[p]) by {
        if i < lo - 1 {
            assert(bits::rank(scores[order[i] as int]) >= bits::rank(scores[order[lo - 1] as int]));
        }
    }
    assert forall|i: int| hi <= i < order.len() implies bits::rank(scores[#[trigger] order[i] as int]) < bits::rank(
        scores[p],
    ) by {
        if i > hi {
            assert(bits::rank(scores[order[hi] as int]) >= bits::rank(scores[order[i] as int]));
        }
    }
    lemma_row_in_order(actual, scores, order, p, lo, hi, n as int);
    assert(order.take(n as int) =~= order);
    lemma_sum_permuted(order, n, |q: int| pair_loss(actual, scores, p, q));
    lemma_row_is_sum(actual, scores, p, n);
}

/// The area under the ROC curve, as whole numbers; `None` where it is
/// undefined for want of a positive or a negative label.
pub fn roc_auc(actual: &Vec<u64>, scores: &Vec<u64>) -> (r: Option<Auc>)
    requires
        actual@.len() == scores@.len(),
        forall|i: int| 0 <= i < scores@.len() ==> !bits::is_nan(#[trigger] scores@[i]),
    ensures
        match r {
            Some(auc) => auc.positives == label_count(actual@, actual@.len(), true) && auc.negatives == label_count(
                actual@,
                actual@.len(),
                false,
            ) && auc.positives > 0 && auc.negatives > 0 && auc.losses_doubled == total_loss(
                actual@,
                scores@,
                actual@.len(),
            ),
            None => label_count(actual@, actual@.len(), true) == 0 || label_count(
                actual@,
                actual@.len(),
                false,
            ) == 0,
        },
{
    let n: usize = actual.len();
    let positives: usize = count_labels(actual, true);
    let negatives: usize = count_labels(actual, false);
    proof {
        lemma_label_counts(actual@, n as nat);
    }
    if positives == 0 || negatives == 0 {
        return None;
    }
    let order: Vec<usize> = falling_order(scores);
    let ghost row = |p: int| row_loss(actual@, scores@, p, actual@.len());
    proof {
        lemma_negatives_in_order(actual@, order@, n as int);
        lemma_label_sum(actual@, n as nat);
        assert(order@.take(n as int) =~= order@);
        lemma_sum_permuted(
            order@,
            n as nat,
            |x: int|
                if positive(actual@[x]) {
                    0nat
                } else {
                    1nat
                },
        );
        assert(negatives_in(actual@, order@, 0, n as int) == negatives);
        assert(order@.take(0) =~= Seq::empty());
    }
    let mut losses: u128 = 0;
    let mut above: usize = 0;
    let mut i: usize = 0;
    while i < n
        invariant
            n == actual@.len(),
            n == scores@.len(),
            falling(scores@, order@),
            row == (|p: int| row_loss(actual@, scores@, p, actual@.len())),
            negatives_in(actual@, order@, 0, n as int) == negatives,
            i <= n,
            above == negatives_in(actual@, order@, 0, i as int),
            losses == sum_over(order@.take(i as int), row),
            losses <= positives_in(actual@, order@, i as int) * (2 * negatives),
            0 < i < n ==> bits::rank(scores@[order@[i - 1] as int]) > bits::rank(scores@[order@[i as int] as int]),
        decreases n - i,
    {
        let here: i128 = rank_of(scores[order[i]]);
        let mut j: usize = i;
        let mut level: usize = 0;
        while j < n && rank_of_at(scores, &order, j) == here
            invariant
                n == actual@.len(),
                n == scores@.len(),
                falling(scores@, order@),
                i <= j <= n,
                i < n,
                here == bits::rank(scores@[order@[i as int] as int]),
                level == negatives_in(actual@, order@, i as int, j as int),
                level <= j - i,
                forall|x: int| i <= x < j ==> bits::rank(scores@[#[trigger] order@[x] as int]) == here,
            decreases n - j,
        {
            if !is_less(bits::HALF, actual[order[j]]) {
                level = level + 1;
            }
            j = j + 1;
        }
        proof {
            lemma_negatives_split(actual@, order@, 0, i as int, j as int);
            lemma_negatives_split(actual@, order@, 0, j as int, n as int);
            lemma_parts_in_order(actual@, order@, n as int);
        }
        let cost: u128 = 2 * (above as u128) + level as u128;
        assert(cost <= 2 * negatives);
        let mut x: usize = i;
        while x < j
            invariant
                n == actual@.len(),
                n == scores@.len(),
                falling(scores@, order@),
                row == (|p: int| row_loss(actual@, scores@, p, actual@.len())),
                i <= x <= j <= n,
                i < j,
                above == negatives_in(actual@, order@, 0, i as int),
                level == negatives_in(actual@, order@, i as int, j as int),
                negatives_in(actual@, order@, 0, n as int) == negatives,
                cost == 2 * above + level,
                cost <= 2 * negatives,
                here == bits::rank(scores@[order@[i as int] as int]),
                forall|y: int| i <= y < j ==> bits::rank(scores@[#[trigger] order@[y] as int]) == here,
                0 < i ==> bits::rank(scores@[order@[i - 1] as int]) > here,
                j < n ==> bits::rank(scores@[order@[j as int] as int]) < here,
                losses == sum_over(order@.take(x as int), row),
                losses <= positives_in(actual@, order@, x as int) * (2 * negatives),
            decreases j - x,
        {
            proof {
                assert(order@.take(x + 1).drop_last() =~= order@.take(x as int));
                assert(order@.take(x + 1).last() == order@[x as int]);
                if positive(actual@[order@[x as int] as int]) {
                    lemma_group_row(actual@, scores@, order@, x as int, i as int, j as int);
                } else {
                    lemma_negative_row(actual@, scores@, order@[x as int] as int, actual@.len());
                }
                lemma_parts_in_order(actual@, order@, x + 1);
                lemma_parts_in_order(actual@, order@, n as int);
                lemma_negatives_split(actual@, order@, 0, x + 1, n as int);
                lemma_positives_grow(actual@, order@, x + 1, n as int);
                let k = positives_in(actual@, order@, x as int);
                let m = negatives as nat;
                lemma_loss_bound(k, m, n as nat);
            }
            if is_less(bits::HALF, actual[order[x]]) {
                losses = losses + cost;
            }
            x = x + 1;
        }
        above = above + level;
        i = j;
    }
    proof {
        lemma_sum_permuted(order@, n as nat, row);
        lemma_total_is_sum(actual@, scores@, n as nat);
        assert(order@.take(n as int) =~= order@);
    }
    Some(Auc { losses_doubled: losses, positives, negatives })
}

fn rank_of_at(scores: &Vec<u64>, order: &Vec<usize>, j: usize) -> (r: i128)
    requires
        j < order@.len(),
        order@[j as int] < scores@.len(),
    ensures
        r == bits::rank(scores@[order@[j as int] as int]),
{
    rank_of(scores[order[j]])
}

proof fn lemma_positives_grow(actual: Seq<u64>, order: Seq<usize>, a: int, b: int)
    requires
        0 <= a <= b,
    ensures
        positives_in(actual, order, a) <= positives_in(actual, order, b),
    decreases b,
{
    if a < b {
        lemma_positives_grow(actual, order, a, b - 1);
    }
}

/// The loss grows by at most twice the negatives, and stays in range.
proof fn lemma_loss_bound(k: nat, m: nat, n: nat)
    requires
        k + 1 + m <= n + 1,
        n <= 0xffff_ffff_ffff_ffff,
    ensures
        k * (2 * m) + 2 * m == (k + 1) * (2 * m),
        (k + 1) * (2 * m) <= 0xffff_ffff_ffff_ffff_ffff_ffff_ffff_ffff,
        k * (2 * m) <= (k + 1) * (2 * m),
{
    assert(k * (2 * m) + 2 * m == (k + 1) * (2 * m)) by (nonlinear_arith);
    assert(4 * ((k + 1) * m) <= (k + 1 + m) * (k + 1 + m)) by (nonlinear_arith);
    assert((k + 1 + m) * (k + 1 + m) <= (n + 1) * (n + 1)) by (nonlinear_arith)
        requires
            k + 1 + m <= n + 1,
    ;
    assert((n + 1) * (n + 1) <= 0x1_0000_0000_0000_0000 * 0x1_0000_0000_0000_0000) by (nonlinear_arith)
        requires
            n <= 0xffff_ffff_ffff_ffff,
    ;
    assert((k + 1) * (2 * m) == 2 * ((k + 1) * m)) by (nonlinear_arith);
}

/// What a pair gains: 2 where `p` is positive, `q` negative, and `p` scores
/// higher; 1 where they score the same; 0 otherwise.
pub open spec fn pair_gain(actual: Seq<u64>, scores: Seq<u64>, p: int, q: int) -> nat {
    if positive(actual[p]) && !positive(actual[q]) {
        if bits::rank(scores[p]) > bits::rank(scores[q]) {
            2
        } else if bits::rank(scores[p]) == bits::rank(scores[q]) {
            1
        } else {
            0
        }
    } else {
        0
    }
}

/// What `p` gains against the first `n` positions.
pub open spec fn row_gain(actual: Seq<u64>, scores: Seq<u64>, p: int, n: nat) -> nat
    decreases n,
{
    if n == 0 {
        0
    } else {
        row_gain(actual, scores, p, (n - 1) as nat) + pair_gain(actual, scores, p, n - 1)
    }
}

/// What the first `m` positions gain against all.
pub open spec fn total_gain(actual: Seq<u64>, scores: Seq<u64>, m: nat) -> nat
    decreases m,
{
    if m == 0 {
        0
    } else {
        total_gain(actual, scores, (m - 1) as nat) + row_gain(actual, scores, m - 1, actual.len())
    }
}

proof fn lemma_row_balance(actual: Seq<u64>, scores: Seq<u64>, p: int, n: nat)
    ensures
        row_gain(actual, scores, p, n) + row_loss(actual, scores, p, n) == if positive(actual[p]) {
            2 * label_count(actual, n, false)
        } else {
            0
        },
    decreases n,
{
    if n > 0 {
        lemma_row_balance(actual, scores, p, (n - 1) as nat);
    }
}

proof fn lemma_total_balance(actual: Seq<u64>, scores: Seq<u64>, m: nat)
    ensures
        total_gain(actual, scores, m) + total_loss(actual, scores, m) == label_count(actual, m, true) * (2
            * label_count(actual, actual.len(), false)),
    decreases m,
{
    let neg = 2 * label_count(actual, actual.len(), false);
    if m == 0 {
        assert(0 * neg == 0);
    } else {
        lemma_total_balance(actual, scores, (m - 1) as nat);
        lemma_row_balance(actual, scores, m - 1, actual.len());
        let k = label_count(actual, (m - 1) as nat, true);
        assert((k + 1) * neg == k * neg + neg) by (nonlinear_arith);
    }
}

/// Every pair of a positive and a negative is won, lost or tied: what is gained
/// and what is lost make up twice the number of such pairs. So the area under
/// the curve is the share of the pairs in which the positive scores higher,
/// ties counting half.
pub proof fn law_auc_counts_pairs(actual: Seq<u64>, scores: Seq<u64>)
    ensures
        total_gain(actual, scores, actual.len()) + total_loss(actual, scores, actual.len()) == label_count(
            actual,
            actual.len(),
            true,
        ) * (2 * label_count(actual, actual.len(), false)),
{
    lemma_total_balance(actual, scores, actual.len());
}

/// The counts of a binary prediction.
#[derive(Debug, Clone, Copy, PartialEq, Eq)]
pub struct BinaryCounts {
    pub tp: usize,
    pub fp: usize,
    pub tn: usize,
    pub fn_: usize,
    /// `None` where there is no positive or no negative label.
    pub roc_auc: Option<Auc>,
}

/// The area under the curve that the counts of a prediction hold.
pub open spec fn auc_of(actual: Seq<u64>, predicted: Seq<u64>, auc: Option<Auc>) -> bool {
    match auc {
        Some(a) => a.positives == label_count(actual, actual.len(), true) && a.negatives == label_count(
            actual,
            actual.len(),
            false,
        ) && a.positives > 0 && a.negatives > 0 && a.losses_doubled == total_loss(actual, predicted, actual.len()),
        None => label_count(actual, actual.len(), true) == 0 || label_count(actual, actual.len(), false) == 0,
    }
}

/// Counts hits and misses of a binary prediction; probabilities count as
/// positive above one half.
pub fn binary_counts(actual: &Vec<u64>, predicted: &Vec<u64>) -> (r: BinaryCounts)
    requires
        actual@.len() == predicted@.len(),
        forall|i: int| 0 <= i < predicted@.len() ==> !bits::is_nan(#[trigger] predicted@[i]),
    ensures
        r.tp == count_of(actual@, predicted@, actual@.len(), true, true),
        r.fp == count_of(actual@, predicted@, actual@.len(), false, true),
        r.tn == count_of(actual@, predicted@, actual@.len(), false, false),
        r.fn_ == count_of(actual@, predicted@, actual@.len(), true, false),
        auc_of(actual@, predicted@, r.roc_auc),
        r.tp + r.fp + r.tn + r.fn_ == actual@.len(),
{
    let mut tp: usize = 0;
    let mut fp: usize = 0;
    let mut tn: usize = 0;
    let mut fn_: usize = 0;
    let mut i: usize = 0;
    while i < actual.len()
        invariant
            actual@.len() == predicted@.len(),
            i <= actual@.len(),
            tp == count_of(actual@, predicted@, i as nat, true, true),
            fp == count_of(actual@, predicted@, i as nat, false, true),
            tn == count_of(actual@, predicted@, i as nat, false, false),
            fn_ == count_of(actual@, predicted@, i as nat, true, false),
            tp + fp + tn + fn_ == i,
        decreases actual.len() - i,
    {
        let y: bool = is_less(bits::HALF, actual[i]);
        let pred: bool = is_less(bits::HALF, predicted[i]);
        if y {
            if pred {
                tp = tp + 1;
            } else {
                fn_ = fn_ + 1;
            }
        } else {
            if pred {
                fp = fp + 1;
            } else {
                tn = tn + 1;
            }
        }
        i = i + 1;
    }
    let auc: Option<Auc> = roc_auc(actual, predicted);
    BinaryCounts { tp, fp, tn, fn_, roc_auc: auc }
}

/// The rates of a binary prediction; the bits of doubles.
#[derive(Debug, Clone, Copy, PartialEq, Eq)]
pub struct BinaryRates {
    /// The share of the predictions that hit.
    pub accuracy: u64,
    /// The share of the predicted positives that are positive; 0 where none is
    /// predicted.
    pub precision: u64,
    /// The share of the positives that are predicted; 0 where there is none.
    pub recall: u64,
    /// The harmonic mean of precision and recall; 0 where nothing was hit.
    pub f1: u64,
    /// The area under the curve.
    pub roc_auc: Option<u64>,
}

/// `x` is the quotient of two counts, 0 where the second is 0.
pub open spec fn is_ratio<R: Fn(usize, usize) -> u64>(ratio: R, part: usize, whole: int, x: u64) -> bool {
    if whole == 0 {
        x == bits::ZERO
    } else {
        call_ensures(ratio, (part, whole as usize), x)
    }
}

/// The area that the caller computes from the pairs.
pub open spec fn is_area<A: Fn(Auc) -> u64>(area: A, auc: Option<Auc>, x: Option<u64>) -> bool {
    match (auc, x) {
        (Some(a), Some(x)) => call_ensures(area, (a,), x),
        (None, None) => true,
        _ => false,
    }
}

/// The rates belong to the counts.
pub open spec fn are_rates<R: Fn(usize, usize) -> u64, H: Fn(u64, u64) -> u64, A: Fn(Auc) -> u64>(
    ratio: R,
    harmonic: H,
    area: A,
    c: BinaryCounts,
    r: BinaryRates,
) -> bool {
    &&& is_ratio(ratio, (c.tp + c.tn) as usize, c.tp + c.fp + c.tn + c.fn_, r.accuracy)
    &&& is_ratio(ratio, c.tp, c.tp + c.fp, r.precision)
    &&& is_ratio(ratio, c.tp, c.tp + c.fn_, r.recall)
    &&& if c.tp > 0 {
        call_ensures(harmonic, (r.precision, r.recall), r.f1)
    } else {
        r.f1 == bits::ZERO
    }
    &&& is_area(area, c.roc_auc, r.roc_auc)
}

fn divide<R: Fn(usize, usize) -> u64>(part: usize, whole: usize, ratio: &R) -> (x: u64)
    requires
        forall|a: usize, b: usize| b > 0 ==> call_requires(*ratio, (a, b)),
    ensures
        is_ratio(*ratio, part, whole as int, x),
{
    if whole == 0 {
        bits::ZERO
    } else {
        ratio(part, whole)
    }
}

/// Rates a binary prediction by its counts. `ratio` divides two counts,
/// `harmonic` gives the harmonic mean of two numbers, and `area` turns lost pairs
/// into an area.
pub fn rate_counts<R: Fn(usize, usize) -> u64, H: Fn(u64, u64) -> u64, A: Fn(Auc) -> u64>(
    c: &BinaryCounts,
    ratio: &R,
    harmonic: &H,
    area: &A,
) -> (r: BinaryRates)
    requires
        c.tp + c.fp + c.tn + c.fn_ <= usize::MAX,
        forall|a: usize, b: usize| b > 0 ==> call_requires(*ratio, (a, b)),
        forall|a: u64, b: u64| call_requires(*harmonic, (a, b)),
        forall|a: Auc| call_requires(*area, (a,)),
    ensures
        are_rates(*ratio, *harmonic, *area, *c, r),
{
    let accuracy: u64 = divide(c.tp + c.tn, c.tp + c.fp + c.tn + c.fn_, ratio);
    let precision: u64 = divide(c.tp, c.tp + c.fp, ratio);
    let recall: u64 = divide(c.tp, c.tp + c.fn_, ratio);
    let f1: u64 = if c.tp > 0 {
        harmonic(precision, recall)
    } else {
        bits::ZERO
    };
    let roc_auc: Option<u64> = match c.roc_auc {
        Some(a) => Some(area(a)),
        None => None,
    };
    BinaryRates { accuracy, precision, recall, f1, roc_auc }
}

/// The sums over the errors of a regression; the bits of doubles.
#[derive(Debug, Clone, Copy, PartialEq, Eq)]
pub struct RegressionSums {
    pub mse: u64,
    pub rmse: u64,
    pub mae: u64,
    /// The sum of the squared errors.
    pub residual: u64,
    /// The sum of the squared distances from the mean.
    pub total: u64,
}

/// The sums as the caller computes them.
pub open spec fn are_sums<S: Fn(&Vec<u64>, &Vec<u64>) -> RegressionSums>(
    sum: S,
    actual: Seq<u64>,
    predicted: Seq<u64>,
    sums: RegressionSums,
) -> bool {
    exists|a: &Vec<u64>, p: &Vec<u64>|
        a@ == actual && p@ == predicted && #[trigger] call_ensures(sum, (a, p), sums)
}

/// The share of the variance that is explained. Where there is no variance it is
/// 1 for a fit without error, else negative infinity.
pub open spec fn is_explained<X: Fn(u64, u64) -> u64>(explain: X, sums: RegressionSums, r2: u64) -> bool {
    if bits::less(bits::ZERO, sums.total) {
        call_ensures(explain, (sums.residual, sums.total), r2)
    } else if bits::same(sums.residual, bits::ZERO) {
        r2 == bits::ONE
    } else {
        r2 == bits::NEG_INFINITY
    }
}

/// Computes the share of the variance that is explained. `explain` subtracts the
/// quotient of its arguments from 1.
pub fn explained<X: Fn(u64, u64) -> u64>(sums: &RegressionSums, explain: &X) -> (r2: u64)
    requires
        forall|a: u64, b: u64| call_requires(*explain, (a, b)),
    ensures
        is_explained(*explain, *sums, r2),
{
    if is_less(bits::ZERO, sums.total) {
        explain(sums.residual, sums.total)
    } else if is_same(sums.residual, bits::ZERO) {
        bits::ONE
    } else {
        bits::NEG_INFINITY
    }
}

/// An element that is a number.
pub open spec fn number_of(v: JsonView) -> Option<u64> {
    match json::real_of(v) {
        Some(b) => if bits::is_nan(b) {
            None
        } else {
            Some(b)
        },
        None => None,
    }
}

/// The numbers of an array among the first `n` elements; the message names the
/// first element that is no number.
pub open spec fn numbers_upto(a: Seq<JsonView>, name: Seq<char>, n: nat) -> Result<Seq<u64>, Seq<char>>
    decreases n,
{
    if n == 0 {
        Ok(Seq::empty())
    } else {
        match numbers_upto(a, name, (n - 1) as nat) {
            Err(e) => Err(e),
            Ok(v) => match number_of(a[n - 1]) {
                Some(b) => Ok(v.push(b)),
                None => Err(
                    "ml_metrics: "@ + name + "["@ + text::decimal((n - 1) as nat) + "] is not a number"@,
                ),
            },
        }
    }
}

/// The numbers of a document that is an array of numbers.
pub open spec fn metric_numbers(v: JsonView, name: Seq<char>) -> Result<Seq<u64>, Seq<char>> {
    match v {
        JsonView::Array(a) => numbers_upto(a, name, a.len()),
        _ => Err("ml_metrics: "@ + name + " must be a JSON array"@),
    }
}

proof fn lemma_numbers_error(a: Seq<JsonView>, name: Seq<char>, n: nat, end: nat)
    requires
        n <= end,
        numbers_upto(a, name, n) is Err,
    ensures
        numbers_upto(a, name, end) == numbers_upto(a, name, n),
    decreases end,
{
    if n < end {
        lemma_numbers_error(a, name, n, (end - 1) as nat);
    }
}

/// Every entry is a number.
pub open spec fn no_nan(v: Seq<u64>) -> bool {
    forall|i: int| 0 <= i < v.len() ==> !bits::is_nan(#[trigger] v[i])
}

/// Reads a document as an array of numbers; `name` is what messages call it.
pub fn to_f64_array(v: &Json, name: &str) -> (r: Result<Vec<u64>, String>)
    ensures
        match r {
            Ok(out) => metric_numbers(v@, name@) == Ok::<Seq<u64>, Seq<char>>(out@) && no_nan(out@),
            Err(e) => metric_numbers(v@, name@) == Err::<Seq<u64>, Seq<char>>(e@),
        },
{
    let arr: &Vec<Json> = match v.as_array() {
        Some(arr) => arr,
        None => {
            let mut e: String = "ml_metrics: ".to_owned();
            e.append(name);
            e.append(" must be a JSON array");
            return Err(e);
        },
    };
    let ghost all = json::views(arr@);
    let mut out: Vec<u64> = Vec::new();
    let mut i: usize = 0;
    assert(out@ =~= Seq::empty());
    while i < arr.len()
        invariant
            v@ == JsonView::Array(all),
            all == json::views(arr@),
            i <= arr@.len(),
            numbers_upto(all, name@, i as nat) == Ok::<Seq<u64>, Seq<char>>(out@),
            no_nan(out@),
        decreases arr.len() - i,
    {
        assert(all[i as int] == arr@[i as int]@);
        let number: Option<u64> = match arr[i].as_real() {
            Some(b) => {
                if not_a_number(b) {
                    None
                } else {
                    Some(b)
                }
            },
            None => None,
        };
        match number {
            Some(b) => {
                out.push(b);
            },
            None => {
                let mut e: String = "ml_metrics: ".to_owned();
                e.append(name);
                e.append("[");
                push_decimal(&mut e, i as u64);
                e.append("] is not a number");
                proof {
                    lemma_numbers_error(all, name@, (i + 1) as nat, all.len());
                }
                return Err(e);
            },
        }
        i = i + 1;
    }
    Ok(out)
}

/// What the metrics of a prediction are computed from.
#[derive(Debug, PartialEq, Eq)]
pub enum MetricsResult {
    /// A binary prediction, by its counts.
    Binary(BinaryCounts),
    /// A regression, by the numbers themselves (the bits of doubles).
    Regression { actual: Vec<u64>, predicted: Vec<u64> },
}

/// Every label is 0 or 1.
pub open spec fn all_binary(a: Seq<u64>) -> bool {
    forall|i: int| 0 <= i < a.len() ==> bits::same(#[trigger] a[i], bits::ZERO) || bits::same(a[i], bits::ONE)
}

/// The result for a binary prediction.
pub open spec fn is_binary_result(a: Seq<u64>, p: Seq<u64>, r: MetricsResult) -> bool {
    r matches MetricsResult::Binary(c) && c.tp == count_of(a, p, a.len(), true, true) && c.fp == count_of(
        a,
        p,
        a.len(),
        false,
        true,
    ) && c.tn == count_of(a, p, a.len(), false, false) && c.fn_ == count_of(a, p, a.len(), true, false) && auc_of(
        a,
        p,
        c.roc_auc,
    )
}

/// The result for a regression.
pub open spec fn is_regression_result(a: Seq<u64>, p: Seq<u64>, r: MetricsResult) -> bool {
    r matches MetricsResult::Regression { actual, predicted } && actual@ == a && predicted@ == p
}

/// What [`metrics_from_json`] gives for two documents.
pub open spec fn metrics_outcome(
    actual: Result<JsonView, Seq<char>>,
    predicted: Result<JsonView, Seq<char>>,
    task: Seq<char>,
    r: Result<MetricsResult, String>,
) -> bool {
    match (actual, predicted) {
        (Err(e), _) => r matches Err(m) && m@ == "ml_metrics: bad actual array: "@ + e,
        (Ok(_), Err(e)) => r matches Err(m) && m@ == "ml_metrics: bad predicted array: "@ + e,
        (Ok(x), Ok(y)) => match (metric_numbers(x, "actual"@), metric_numbers(y, "predicted"@)) {
            (Err(e), _) => r matches Err(m) && m@ == e,
            (Ok(_), Err(e)) => r matches Err(m) && m@ == e,
            (Ok(a), Ok(p)) => if a.len() == 0 {
                r matches Err(m) && m@ == "ml_metrics: empty arrays"@
            } else if a.len() != p.len() {
                r matches Err(m) && m@ == "ml_metrics: length mismatch: actual "@ + text::decimal(a.len())
                    + ", predicted "@ + text::decimal(p.len())
            } else if task == "regression"@ {
                r matches Ok(result) && is_regression_result(a, p, result)
            } else if task == "binary"@ || (task == "auto"@ && all_binary(a)) {
                r matches Ok(result) && is_binary_result(a, p, result)
            } else if task == "auto"@ {
                r matches Ok(result) && is_regression_result(a, p, result)
            } else {
                r matches Err(m) && m@ == "ml_metrics: unknown task '"@ + task + "' (auto|binary|regression)"@
            },
        },
    }
}

fn check_binary(a: &Vec<u64>) -> (r: bool)
    ensures
        r == all_binary(a@),
{
    let mut i: usize = 0;
    while i < a.len()
        invariant
            i <= a@.len(),
            forall|x: int| 0 <= x < i ==> bits::same(#[trigger] a@[x], bits::ZERO) || bits::same(a@[x], bits::ONE),
        decreases a.len() - i,
    {
        if !is_same(a[i], bits::ZERO) && !is_same(a[i], bits::ONE) {
            return false;
        }
        i = i + 1;
    }
    true
}

/// Reads two JSON arrays of numbers and counts what the metrics of the task
/// need: `binary`, `regression`, or `auto`, which takes labels 0 and 1 for
/// binary.
pub fn metrics_from_json(actual_json: &str, predicted_json: &str, task: &str) -> (r: Result<
    MetricsResult,
    String,
>)
    ensures
        metrics_outcome(json::json_document(actual_json@), json::json_document(predicted_json@), task@, r),
{
    let actual: Json = match parse_json(actual_json) {
        Ok(v) => v,
        Err(message) => {
            let mut e: String = "ml_metrics: bad actual array: ".to_owned();
            e.append(message.as_str());
            return Err(e);
        },
    };
    let predicted: Json = match parse_json(predicted_json) {
        Ok(v) => v,
        Err(message) => {
            let mut e: String = "ml_metrics: bad predicted array: ".to_owned();
            e.append(message.as_str());
            return Err(e);
        },
    };
    metrics_of(&actual, &predicted, task)
}

/// Counts what the metrics of two documents need; see [`metrics_from_json`].
pub fn metrics_of(actual: &Json, predicted: &Json, task: &str) -> (r: Result<MetricsResult, String>)
    ensures
        metrics_outcome(Ok(actual@), Ok(predicted@), task@, r),
{
    let a: Vec<u64> = match to_f64_array(actual, "actual") {
        Ok(a) => a,
        Err(e) => {
            return Err(e);
        },
    };
    let p: Vec<u64> = match to_f64_array(predicted, "predicted") {
        Ok(p) => p,
        Err(e) => {
            return Err(e);
        },
    };
    if a.len() == 0 {
        return Err("ml_metrics: empty arrays".to_owned());
    }
    if a.len() != p.len() {
        let mut e: String = "ml_metrics: length mismatch: actual ".to_owned();
        push_decimal(&mut e, a.len() as u64);
        e.append(", predicted ");
        push_decimal(&mut e, p.len() as u64);
        return Err(e);
    }
    if text_eq(task, "regression") {
        Ok(MetricsResult::Regression { actual: a, predicted: p })
    } else if text_eq(task, "binary") || (text_eq(task, "auto") && check_binary(&a)) {
        Ok(MetricsResult::Binary(binary_counts(&a, &p)))
    } else if text_eq(task, "auto") {
        Ok(MetricsResult::Regression { actual: a, predicted: p })
    } else {
        let mut e: String = "ml_metrics: unknown task '".to_owned();
        e.append(task);
        e.append("' (auto|binary|regression)");
        Err(e)
    }
}

/// The `ml_metrics` function.
pub struct MetricsFn;

/// The task that the third argument of the first row asks for: in lower case,
/// `auto` where there is none.
pub open spec fn task_of(columns: int, task: Option<String>) -> Seq<char> {
    if columns < 3 {
        "auto"@
    } else {
        match task {
            Some(t) => text::lower_case(t@),
            None => "auto"@,
        }
    }
}

/// A row does not fail: it has a null, or it gives a result.
pub open spec fn metrics_row_passes(row: (Option<String>, Option<String>), task: Seq<char>) -> bool {
    match row {
        (Some(a), Some(p)) => exists|result: MetricsResult| #[trigger]
            metrics_outcome(json::json_document(a@), json::json_document(p@), task, Ok(result)),
        _ => true,
    }
}

impl MetricsFn {
    /// Computes each row of actual and predicted arrays. A row with a null gives
    /// a null; the first row that fails fails the call; two or three arguments
    /// are wanted.
    pub fn invoke(columns: usize, rows: &Vec<(Option<String>, Option<String>)>, task: &Option<String>) -> (r: Result<
        Vec<Option<MetricsResult>>,
        String,
    >)
        ensures
            !(2 <= columns <= 3) ==> (r matches Err(e) && e@
                == "ml_metrics requires 2..3 args: actual_json, predicted_json[, task]"@),
            2 <= columns <= 3 ==> match r {
                Ok(out) => out@.len() == rows@.len() && forall|i: int|
                    #![trigger out@[i]]
                    0 <= i < out@.len() ==> match (rows@[i], out@[i]) {
                        ((Some(a), Some(p)), Some(result)) => metrics_outcome(
                            json::json_document(a@),
                            json::json_document(p@),
                            task_of(columns as int, *task),
                            Ok(result),
                        ),
                        ((Some(a), Some(p)), None) => false,
                        (_, result) => result is None,
                    },
                Err(e) => exists|i: int|
                    0 <= i < rows@.len() && (#[trigger] rows@[i]).0 is Some && rows@[i].1 is Some && metrics_outcome(
                        json::json_document(rows@[i].0->0@),
                        json::json_document(rows@[i].1->0@),
                        task_of(columns as int, *task),
                        Err(e),
                    ) && forall|j: int|
                        0 <= j < i ==> #[trigger] metrics_row_passes(rows@[j], task_of(columns as int, *task)),
            },
    {
        if columns < 2 || columns > 3 {
            return Err("ml_metrics requires 2..3 args: actual_json, predicted_json[, task]".to_owned());
        }
        let wanted: String = if columns >= 3 {
            match task {
                Some(t) => to_lower_case(t.as_str()),
                None => "auto".to_owned(),
            }
        } else {
            "auto".to_owned()
        };
        let mut out: Vec<Option<MetricsResult>> = Vec::new();
        let mut i: usize = 0;
        while i < rows.len()
            invariant
                2 <= columns <= 3,
                wanted@ == task_of(columns as int, *task),
                i <= rows@.len(),
                out@.len() == i,
                forall|x: int|
                    #![trigger out@[x]]
                    0 <= x < i ==> match (rows@[x], out@[x]) {
                        ((Some(a), Some(p)), Some(result)) => metrics_outcome(
                            json::json_document(a@),
                            json::json_document(p@),
                            task_of(columns as int, *task),
                            Ok(result),
                        ),
                        ((Some(a), Some(p)), None) => false,
                        (_, result) => result is None,
                    },
            decreases rows.len() - i,
        {
            match (&rows[i].0, &rows[i].1) {
                (Some(a), Some(p)) => {
                    assert(rows@[i as int].0 is Some);
                    assert forall|j: int| 0 <= j < i implies #[trigger] metrics_row_passes(
                        rows@[j],
                        task_of(columns as int, *task),
                    ) by {
                        assert(out@[j] is None || out@[j] is Some);
                    }
                    match metrics_from_json(a.as_str(), p.as_str(), wanted.as_str()) {
                        Ok(result) => {
                            out.push(Some(result));
                        },
                        Err(e) => {
                            return Err(e);
                        },
                    }
                },
                _ => {
                    out.push(None);
                },
            }
            i = i + 1;
        }
        Ok(out)
    }
}

} // verus!
