//! Linear discriminant analysis: the directions that separate classes best.

use vstd::prelude::*;
use crate::bits;
use crate::bits::{is_same, rank_of};
use crate::json;
use crate::model::classes;
use crate::model::classes::find_distinct;
use crate::model::projection;
use crate::model::projection::{read_projection, score_of, transform_by, write_projection, ProjectionView};
use crate::model::types::{Algorithm, ModelError, ModelMetadata};
use crate::scalar;
use crate::scalar::write_number_array;
use crate::text;
use crate::text::push_decimal;

verus! {

/// The model. The numbers are the bits of doubles.
#[derive(Debug, PartialEq, Eq)]
pub struct LdaModel {
    /// The mean of the training data.
    pub mean: Vec<u64>,
    /// The directions.
    pub components: Vec<Vec<u64>>,
    /// The eigenvalue of each direction.
    pub eigenvalues: Vec<u64>,
}

impl View for LdaModel {
    type V = ProjectionView;

    open spec fn view(&self) -> ProjectionView {
        ProjectionView {
            mean: self.mean@,
            components: json::rows_of(self.components@),
            weights: self.eigenvalues@,
        }
    }
}

/// The classes of the samples, and how many directions to look for.
#[derive(Debug, PartialEq, Eq)]
pub struct LdaPlan {
    /// The labels of the classes, in ascending order.
    pub classes: Vec<u64>,
    /// The class of each sample.
    pub class_id: Vec<usize>,
    /// The number of samples of each class.
    pub class_sizes: Vec<usize>,
    /// How many directions to look for.
    pub k: usize,
}

/// The places of the labels among the numbers.
pub open spec fn label_keys(y: Seq<u64>) -> Seq<i128> {
    Seq::new(y.len(), |i: int| bits::rank(y[i]) as i128)
}

/// The least of three numbers.
pub open spec fn least(a: nat, b: nat, c: nat) -> nat {
    if a <= b && a <= c {
        a
    } else if b <= c {
        b
    } else {
        c
    }
}

/// How many of the first `n` samples belong to class `c`.
pub open spec fn class_size(ids: Seq<usize>, c: usize, n: nat) -> nat
    decreases n,
{
    if n == 0 {
        0
    } else {
        class_size(ids, c, (n - 1) as nat) + if ids[n - 1] == c {
            1nat
        } else {
            0nat
        }
    }
}

/// How many of the first `n` samples belong to one of the first `m` classes.
pub open spec fn sizes_total(ids: Seq<usize>, m: nat, n: nat) -> nat
    decreases m,
{
    if m == 0 {
        0
    } else {
        sizes_total(ids, (m - 1) as nat, n) + class_size(ids, (m - 1) as usize, n)
    }
}

/// The classes share the samples out: their sizes add up to the number of
/// samples.
pub proof fn law_class_sizes_add_up(ids: Seq<usize>, m: nat, n: nat)
    requires
        n <= ids.len(),
        m <= usize::MAX,
        forall|i: int| 0 <= i < n ==> #[trigger] ids[i] < m,
    ensures
        sizes_total(ids, m, n) == n,
    decreases n,
{
    if n > 0 {
        assert(ids[n - 1] < m);
        law_class_sizes_add_up(ids, m, (n - 1) as nat);
        lemma_one_more_sample(ids, m, n);
    } else {
        lemma_no_samples(ids, m);
    }
}

proof fn lemma_one_more_sample(ids: Seq<usize>, m: nat, n: nat)
    requires
        0 < n,
        m <= usize::MAX,
    ensures
        sizes_total(ids, m, n) == sizes_total(ids, m, (n - 1) as nat) + if ids[n - 1] < m {
            1nat
        } else {
            0nat
        },
    decreases m,
{
    if m > 0 {
        lemma_one_more_sample(ids, (m - 1) as nat, n);
    }
}

proof fn lemma_no_samples(ids: Seq<usize>, m: nat)
    ensures
        sizes_total(ids, m, 0) == 0,
    decreases m,
{
    if m > 0 {
        lemma_no_samples(ids, (m - 1) as nat);
    }
}

/// The plan for some labels, given where the distinct labels come first; there is
/// none for fewer than two samples or classes, or where no direction is wanted.
pub open spec fn is_plan(
    n: nat,
    nf: nat,
    y: Seq<u64>,
    n_components: nat,
    at: Seq<usize>,
    r: Option<LdaPlan>,
) -> bool {
    let k = least(n_components, (at.len() - 1) as nat, nf);
    if n < 2 || nf == 0 || at.len() < 2 || k == 0 {
        r is None
    } else {
        match r {
            Some(plan) => {
                &&& plan.k == k
                &&& plan.classes@ == Seq::new(at.len(), |c: int| y[at[c] as int])
                &&& plan.class_id@.len() == y.len()
                &&& forall|i: int|
                    #![trigger plan.class_id@[i]]
                    0 <= i < y.len() ==> plan.class_id@[i] < at.len() && bits::same(
                        plan.classes@[plan.class_id@[i] as int],
                        y[i],
                    )
                &&& plan.class_sizes@.len() == at.len()
                &&& forall|c: int|
                    0 <= c < at.len() ==> #[trigger] plan.class_sizes@[c] == class_size(
                        plan.class_id@,
                        c as usize,
                        y.len(),
                    )
            },
            None => false,
        }
    }
}

/// The labels can be put in order: no label is a not-a-number, unless it is the
/// only one.
pub open spec fn orderable(y: Seq<u64>) -> bool {
    y.len() > 1 ==> forall|i: int| 0 <= i < y.len() ==> !bits::is_nan(#[trigger] y[i])
}

/// Two of the labels differ.
pub open spec fn has_two_classes(y: Seq<u64>) -> bool {
    exists|i: int, j: int|
        #![trigger y[i], y[j]]
        0 <= i < y.len() && 0 <= j < y.len() && !bits::same(y[i], y[j])
}

/// Each label has a row, and each row a number for each feature.
pub open spec fn covers(x: Seq<Seq<u64>>, y: Seq<u64>) -> bool {
    y.len() <= x.len() && forall|i: int| 0 <= i < x.len() ==> (#[trigger] x[i]).len() >= x[0].len()
}

/// The data can be worked on: the labels can be put in order and, where there is
/// a direction to look for, there are rows for them.
pub open spec fn workable(x: Seq<Seq<u64>>, y: Seq<u64>, n_components: nat) -> bool {
    x.len() >= 2 && x[0].len() > 0 ==> orderable(y) && (has_two_classes(y) && n_components > 0 ==> covers(x, y))
}

/// The number of the class of a label.
fn class_of(labels: &Vec<u64>, v: u64) -> (c: usize)
    requires
        exists|c: int| 0 <= c < labels@.len() && bits::same(#[trigger] labels@[c], v),
    ensures
        c < labels@.len(),
        bits::same(labels@[c as int], v),
{
    let mut c: usize = 0;
    while c < labels.len()
        invariant
            c <= labels@.len(),
            forall|d: int| 0 <= d < c ==> !bits::same(#[trigger] labels@[d], v),
            exists|c: int| 0 <= c < labels@.len() && bits::same(#[trigger] labels@[c], v),
        decreases labels.len() - c,
    {
        if is_same(labels[c], v) {
            return c;
        }
        c = c + 1;
    }
    0
}

fn count_class(ids: &Vec<usize>, c: usize) -> (n: usize)
    ensures
        n == class_size(ids@, c, ids@.len()),
{
    let mut n: usize = 0;
    let mut i: usize = 0;
    while i < ids.len()
        invariant
            i <= ids@.len(),
            n <= i,
            n == class_size(ids@, c, i as nat),
        decreases ids.len() - i,
    {
        if ids[i] == c {
            n = n + 1;
        }
        i = i + 1;
    }
    n
}

/// Groups the samples by their labels and decides how many directions to look
/// for: at most one fewer than there are classes, and at most one for each
/// feature.
pub fn plan_lda(n: usize, nf: usize, y: &Vec<u64>, n_components: usize) -> (r: Option<LdaPlan>)
    requires
        n >= 2 && nf > 0 ==> orderable(y@),
    ensures
        exists|at: Seq<usize>| #[trigger]
            classes::distinct_positions(label_keys(y@), at) && is_plan(
                n as nat,
                nf as nat,
                y@,
                n_components as nat,
                at,
                r,
            ),
{
    let mut keys: Vec<i128> = Vec::new();
    let mut i: usize = 0;
    while i < y.len()
        invariant
            i <= y@.len(),
            keys@.len() == i,
            forall|j: int| 0 <= j < i ==> #[trigger] keys@[j] == bits::rank(y@[j]),
        decreases y.len() - i,
    {
        keys.push(rank_of(y[i]));
        i = i + 1;
    }
    assert(keys@ =~= label_keys(y@));
    let at: Vec<usize> = find_distinct(&keys);
    assert(classes::distinct_positions(label_keys(y@), at@));
    if n < 2 || nf == 0 {
        assert(is_plan(n as nat, nf as nat, y@, n_components as nat, at@, None));
        return None;
    }
    let count: usize = at.len();
    if count < 2 {
        assert(is_plan(n as nat, nf as nat, y@, n_components as nat, at@, None));
        return None;
    }
    let mut k: usize = n_components;
    if count - 1 < k {
        k = count - 1;
    }
    if nf < k {
        k = nf;
    }
    if k == 0 {
        assert(is_plan(n as nat, nf as nat, y@, n_components as nat, at@, None));
        return None;
    }
    let mut labels: Vec<u64> = Vec::new();
    let mut c: usize = 0;
    while c < count
        invariant
            keys@ == label_keys(y@),
            classes::distinct_positions(keys@, at@),
            count == at@.len(),
            c <= count,
            labels@.len() == c,
            forall|d: int| 0 <= d < c ==> #[trigger] labels@[d] == y@[at@[d] as int],
        decreases count - c,
    {
        assert(at@[c as int] < keys@.len());
        labels.push(y[at[c]]);
        c = c + 1;
    }
    proof {
        assert(y@.len() > 1) by {
            assert(at@[0] < keys@.len() && at@[1] < keys@.len());
            assert(keys@[at@[0] as int] < keys@[at@[1] as int]);
        }
    }
    let mut class_id: Vec<usize> = Vec::new();
    let mut s: usize = 0;
    while s < y.len()
        invariant
            orderable(y@),
            y@.len() > 1,
            keys@ == label_keys(y@),
            classes::distinct_positions(keys@, at@),
            count == at@.len(),
            labels@.len() == count,
            forall|d: int| 0 <= d < count ==> #[trigger] labels@[d] == y@[at@[d] as int],
            s <= y@.len(),
            class_id@.len() == s,
            forall|j: int|
                #![trigger class_id@[j]]
                0 <= j < s ==> class_id@[j] < count && bits::same(labels@[class_id@[j] as int], y@[j]),
        decreases y.len() - s,
    {
        proof {
            assert(classes::has_class(keys@, at@, keys@[s as int]));
            let c = choose|c: int| 0 <= c < at@.len() && keys@[#[trigger] at@[c] as int] == keys@[s as int];
            assert(at@[c] < keys@.len());
            assert(!bits::is_nan(y@[s as int]) && !bits::is_nan(y@[at@[c] as int]));
            assert(labels@[c] == y@[at@[c] as int]);
            assert(keys@[at@[c] as int] == bits::rank(y@[at@[c] as int]) as i128);
            lemma_rank_fits(y@[at@[c] as int]);
            lemma_rank_fits(y@[s as int]);
            assert(bits::same(labels@[c], y@[s as int]));
        }
        let id: usize = class_of(&labels, y[s]);
        class_id.push(id);
        s = s + 1;
    }
    let mut class_sizes: Vec<usize> = Vec::new();
    let mut d: usize = 0;
    while d < count
        invariant
            class_id@.len() == y@.len(),
            d <= count,
            class_sizes@.len() == d,
            forall|c: int|
                0 <= c < d ==> #[trigger] class_sizes@[c] == class_size(class_id@, c as usize, y@.len()),
        decreases count - d,
    {
        class_sizes.push(count_class(&class_id, d));
        d = d + 1;
    }
    assert(labels@ =~= Seq::new(at@.len(), |c: int| y@[at@[c] as int]));
    let plan = LdaPlan { classes: labels, class_id, class_sizes, k };
    assert(is_plan(n as nat, nf as nat, y@, n_components as nat, at@, Some(plan)));
    Some(plan)
}

/// The rank of a double is a small number.
pub proof fn lemma_rank_fits(b: u64)
    ensures
        i128::MIN <= bits::rank(b) <= i128::MAX,
{
}

/// The next direction, as the caller finds it from those before it.
pub open spec fn finds_next<
    S,
    E: Fn(&S, &Vec<Vec<u64>>, &Vec<Vec<u64>>, &Vec<u64>) -> Option<(Vec<u64>, Vec<u64>, u64)>,
>(next: E, state: S, components: Seq<Seq<u64>>, inner: Seq<Seq<u64>>, eigenvalues: Seq<u64>, i: int) -> bool {
    exists|s: &S, a: &Vec<Vec<u64>>, u: &Vec<Vec<u64>>, b: &Vec<u64>, r: (Vec<u64>, Vec<u64>, u64)|
        *s == state && json::rows_of(a@) == components.take(i) && json::rows_of(u@) == inner.take(i) && b@
            == eigenvalues.take(i) && r.0@ == components[i] && r.1@ == inner[i] && r.2 == eigenvalues[i]
            && #[trigger] call_ensures(next, (s, a, u, b), Some(r))
}

/// The caller finds no further direction.
pub open spec fn finds_no_more<
    S,
    E: Fn(&S, &Vec<Vec<u64>>, &Vec<Vec<u64>>, &Vec<u64>) -> Option<(Vec<u64>, Vec<u64>, u64)>,
>(next: E, state: S, components: Seq<Seq<u64>>, inner: Seq<Seq<u64>>, eigenvalues: Seq<u64>) -> bool {
    exists|s: &S, a: &Vec<Vec<u64>>, u: &Vec<Vec<u64>>, b: &Vec<u64>|
        *s == state && json::rows_of(a@) == components && json::rows_of(u@) == inner && b@ == eigenvalues
            && #[trigger] call_ensures(next, (s, a, u, b), None)
}

/// The directions are found one after the other, `k` of them unless the caller
/// finds no further one.
pub open spec fn finds_all<
    S,
    E: Fn(&S, &Vec<Vec<u64>>, &Vec<Vec<u64>>, &Vec<u64>) -> Option<(Vec<u64>, Vec<u64>, u64)>,
>(next: E, state: S, inner: Seq<Seq<u64>>, k: nat, p: ProjectionView) -> bool {
    let n = p.components.len();
    &&& n <= k
    &&& p.weights.len() == n
    &&& inner.len() == n
    &&& forall|i: int| 0 <= i < n ==> #[trigger] finds_next(next, state, p.components, inner, p.weights, i)
    &&& n < k ==> finds_no_more(next, state, p.components, inner, p.weights)
}

/// The model is what the caller's steps make of the data by a plan.
pub open spec fn is_fitted<
    S,
    A: Fn(&Vec<Vec<u64>>, &LdaPlan) -> Option<(Vec<u64>, S)>,
    E: Fn(&S, &Vec<Vec<u64>>, &Vec<Vec<u64>>, &Vec<u64>) -> Option<(Vec<u64>, Vec<u64>, u64)>,
>(prepare: A, next: E, x: Seq<Seq<u64>>, plan: LdaPlan, r: Option<LdaModel>) -> bool {
    match r {
        None => prepares_none(prepare, x, plan),
        Some(m) => prepares_and_finds(prepare, next, x, plan, m),
    }
}

/// The caller cannot prepare the search: the scatter within the classes is
/// degenerate.
pub open spec fn prepares_none<S, A: Fn(&Vec<Vec<u64>>, &LdaPlan) -> Option<(Vec<u64>, S)>>(
    prepare: A,
    x: Seq<Seq<u64>>,
    plan: LdaPlan,
) -> bool {
    exists|a: &Vec<Vec<u64>>, p: &LdaPlan|
        json::rows_of(a@) == x && *p == plan && #[trigger] call_ensures(prepare, (a, p), None)
}

/// The caller prepares the search, and the directions are those it finds.
pub open spec fn prepares_and_finds<
    S,
    A: Fn(&Vec<Vec<u64>>, &LdaPlan) -> Option<(Vec<u64>, S)>,
    E: Fn(&S, &Vec<Vec<u64>>, &Vec<Vec<u64>>, &Vec<u64>) -> Option<(Vec<u64>, Vec<u64>, u64)>,
>(prepare: A, next: E, x: Seq<Seq<u64>>, plan: LdaPlan, m: LdaModel) -> bool {
    exists|a: &Vec<Vec<u64>>, p: &LdaPlan, prepared: (Vec<u64>, S), inner: Seq<Seq<u64>>|
        json::rows_of(a@) == x && *p == plan && #[trigger] call_ensures(prepare, (a, p), Some(prepared))
            && prepared.0@ == m@.mean && #[trigger] finds_all(next, prepared.1, inner, plan.k as nat, m@)
}

/// What fitting gives: nothing where there is no plan, else what the caller's
/// steps make of the data by the plan.
pub open spec fn fit_outcome<
    S,
    A: Fn(&Vec<Vec<u64>>, &LdaPlan) -> Option<(Vec<u64>, S)>,
    E: Fn(&S, &Vec<Vec<u64>>, &Vec<Vec<u64>>, &Vec<u64>) -> Option<(Vec<u64>, Vec<u64>, u64)>,
>(prepare: A, next: E, x: Seq<Seq<u64>>, y: Seq<u64>, n_components: nat, r: Option<LdaModel>) -> bool {
    exists|at: Seq<usize>, plan: Option<LdaPlan>| #[trigger]
        classes::distinct_positions(label_keys(y), at) && #[trigger] is_plan(
            x.len(),
            x[0].len(),
            y,
            n_components,
            at,
            plan,
        ) && match plan {
            None => r is None,
            Some(plan) => is_fitted(prepare, next, x, plan, r),
        }
}

/// A model never has more directions than asked for, than features, or than one
/// fewer than there are classes.
pub proof fn law_components_are_capped<
    S,
    A: Fn(&Vec<Vec<u64>>, &LdaPlan) -> Option<(Vec<u64>, S)>,
    E: Fn(&S, &Vec<Vec<u64>>, &Vec<Vec<u64>>, &Vec<u64>) -> Option<(Vec<u64>, Vec<u64>, u64)>,
>(prepare: A, next: E, x: Seq<Seq<u64>>, y: Seq<u64>, n_components: nat, m: LdaModel) -> (at: Seq<usize>)
    requires
        fit_outcome(prepare, next, x, y, n_components, Some(m)),
    ensures
        classes::distinct_positions(label_keys(y), at),
        m@.components.len() <= n_components,
        m@.components.len() <= x[0].len(),
        m@.components.len() < at.len(),
{
    let (at, plan) = choose|at: Seq<usize>, plan: Option<LdaPlan>| #[trigger]
        classes::distinct_positions(label_keys(y), at) && #[trigger] is_plan(
            x.len(),
            x[0].len(),
            y,
            n_components,
            at,
            plan,
        ) && match plan {
            None => Some(m) is None,
            Some(plan) => is_fitted(prepare, next, x, plan, Some(m)),
        };
    assert(prepares_and_finds(prepare, next, x, plan->0, m));
    at
}

impl LdaModel {
    /// Fits a model with up to `n_components` directions; gives none for fewer
    /// than two classes or a degenerate scatter. `prepare` gives the mean and what
    /// the search works on, or tells that the scatter is degenerate; `next` gives
    /// the next direction, the eigenvector that it comes from, and the eigenvalue.
    pub fn fit<
        S,
        A: Fn(&Vec<Vec<u64>>, &LdaPlan) -> Option<(Vec<u64>, S)>,
        E: Fn(&S, &Vec<Vec<u64>>, &Vec<Vec<u64>>, &Vec<u64>) -> Option<(Vec<u64>, Vec<u64>, u64)>,
    >(x: &Vec<Vec<u64>>, y: &Vec<u64>, n_components: usize, prepare: &A, next: &E) -> (r: Option<LdaModel>)
        requires
            x@.len() > 0,
            workable(json::rows_of(x@), y@, n_components as nat),
            forall|p: &LdaPlan| call_requires(*prepare, (x, p)),
            forall|s: &S, a: &Vec<Vec<u64>>, u: &Vec<Vec<u64>>, b: &Vec<u64>| call_requires(*next, (s, a, u, b)),
        ensures
            fit_outcome(*prepare, *next, json::rows_of(x@), y@, n_components as nat, r),
    {
        let ghost shown = json::rows_of(x@);
        assert(shown[0] == x@[0]@);
        let plan: LdaPlan = match plan_lda(x.len(), x[0].len(), y, n_components) {
            Some(plan) => plan,
            None => {
                proof {
                    let none: Option<LdaPlan> = None;
                    let at = choose|at: Seq<usize>| #[trigger]
                        classes::distinct_positions(label_keys(y@), at) && is_plan(
                            x@.len(),
                            x@[0]@.len(),
                            y@,
                            n_components as nat,
                            at,
                            none,
                        );
                    assert(is_plan(shown.len(), shown[0].len(), y@, n_components as nat, at, none));
                }
                return None;
            },
        };
        let ghost at = choose|at: Seq<usize>| #[trigger]
            classes::distinct_positions(label_keys(y@), at) && is_plan(
                x@.len(),
                x@[0]@.len(),
                y@,
                n_components as nat,
                at,
                Some(plan),
            );
        assert(is_plan(shown.len(), shown[0].len(), y@, n_components as nat, at, Some(plan)));
        let p = &plan;
        let prepared: Option<(Vec<u64>, S)> = prepare(x, p);
        assert(call_ensures(*prepare, (x, p), prepared));
        let r: Option<LdaModel> = match prepared {
            Some((mean, state)) => {
                let ghost ready = (mean, state);
                assert(prepared == Some(ready));
                let (components, eigenvalues, Ghost(inner)) = Self::search(&state, plan.k, next);
                let m = LdaModel { mean, components, eigenvalues };
                proof {
                    assert(finds_all(*next, ready.1, inner, plan.k as nat, m@));
                    assert(call_ensures(*prepare, (x, p), Some(ready)));
                    assert(prepares_and_finds(*prepare, *next, shown, plan, m));
                }
                Some(m)
            },
            None => {
                assert(prepares_none(*prepare, shown, plan));
                None
            },
        };
        assert(is_fitted(*prepare, *next, shown, plan, r));
        r
    }

    fn search<
        S,
        E: Fn(&S, &Vec<Vec<u64>>, &Vec<Vec<u64>>, &Vec<u64>) -> Option<(Vec<u64>, Vec<u64>, u64)>,
    >(state: &S, k: usize, next: &E) -> (r: (Vec<Vec<u64>>, Vec<u64>, Ghost<Seq<Seq<u64>>>))
        requires
            forall|s: &S, a: &Vec<Vec<u64>>, u: &Vec<Vec<u64>>, b: &Vec<u64>| call_requires(*next, (s, a, u, b)),
        ensures
            forall|mean: Seq<u64>| #[trigger]
                finds_all(
                    *next,
                    *state,
                    r.2@,
                    k as nat,
                    ProjectionView { mean, components: json::rows_of(r.0@), weights: r.1@ },
                ),
    {
        let mut components: Vec<Vec<u64>> = Vec::new();
        let mut inner: Vec<Vec<u64>> = Vec::new();
        let mut eigenvalues: Vec<u64> = Vec::new();
        let mut done: bool = k == 0;
        while !done
            invariant
                forall|s: &S, a: &Vec<Vec<u64>>, u: &Vec<Vec<u64>>, b: &Vec<u64>| call_requires(*next, (s, a, u, b)),
                components@.len() <= k,
                !done ==> components@.len() < k,
                components@.len() == inner@.len(),
                components@.len() == eigenvalues@.len(),
                forall|i: int|
                    0 <= i < components@.len() ==> #[trigger] finds_next(
                        *next,
                        *state,
                        json::rows_of(components@),
                        json::rows_of(inner@),
                        eigenvalues@,
                        i,
                    ),
                done && components@.len() < k ==> finds_no_more(
                    *next,
                    *state,
                    json::rows_of(components@),
                    json::rows_of(inner@),
                    eigenvalues@,
                ),
            decreases k - components@.len(), (if done {
                0int
            } else {
                1int
            }),
        {
            let ghost shown = json::rows_of(components@);
            let ghost sources = json::rows_of(inner@);
            let ghost values = eigenvalues@;
            let ghost n = components@.len() as int;
            let a = &components;
            let u = &inner;
            let b = &eigenvalues;
            let found: Option<(Vec<u64>, Vec<u64>, u64)> = next(state, a, u, b);
            assert(call_ensures(*next, (state, a, u, b), found));
            match found {
                Some((v, source, ev)) => {
                    proof {
                        let r = (v, source, ev);
                        assert(found == Some(r));
                        let more = shown.push(v@);
                        let deeper = sources.push(source@);
                        let longer = values.push(ev);
                        assert(more.take(n) =~= shown);
                        assert(deeper.take(n) =~= sources);
                        assert(longer.take(n) =~= values);
                        assert(call_ensures(*next, (state, a, u, b), Some(r)));
                        assert(finds_next(*next, *state, more, deeper, longer, n));
                        assert forall|i: int| 0 <= i < n implies #[trigger] finds_next(
                            *next,
                            *state,
                            more,
                            deeper,
                            longer,
                            i,
                        ) by {
                            assert(finds_next(*next, *state, shown, sources, values, i));
                            assert(more.take(i) =~= shown.take(i));
                            assert(deeper.take(i) =~= sources.take(i));
                            assert(longer.take(i) =~= values.take(i));
                            assert(more[i] == shown[i] && deeper[i] == sources[i] && longer[i] == values[i]);
                        }
                    }
                    components.push(v);
                    inner.push(source);
                    eigenvalues.push(ev);
                    proof {
                        assert(json::rows_of(components@) =~= shown.push(v@));
                        assert(json::rows_of(inner@) =~= sources.push(source@));
                        assert(eigenvalues@ =~= values.push(ev));
                    }
                    done = components.len() == k;
                },
                None => {
                    assert(finds_no_more(*next, *state, shown, sources, values));
                    done = true;
                },
            }
        }
        let ghost kept = json::rows_of(inner@);
        (components, eigenvalues, Ghost(kept))
    }

    /// The coordinates of some features along all directions.
    pub fn transform<P: Fn(&Vec<u64>, &Vec<u64>, &Vec<u64>) -> u64>(&self, features: &Vec<u64>, project: &P) -> (values: Vec<
        u64,
    >)
        requires
            forall|a: &Vec<u64>, f: &Vec<u64>, m: &Vec<u64>| call_requires(*project, (a, f, m)),
        ensures
            projection::projects_all(*project, self@.mean, self@.components, features@, values@),
    {
        transform_by(&self.mean, &self.components, features, project)
    }

    /// The coordinate along the first direction.
    pub fn score<P: Fn(&Vec<u64>, &Vec<u64>, &Vec<u64>) -> u64>(&self, features: &Vec<u64>, project: &P) -> (r: u64)
        requires
            forall|a: &Vec<u64>, f: &Vec<u64>, m: &Vec<u64>| call_requires(*project, (a, f, m)),
        ensures
            projection::scores(*project, self@, features@, r),
    {
        score_of(&self.transform(features, project))
    }

    pub fn n_components(&self) -> (n: usize)
        ensures
            n == self@.components.len(),
    {
        self.components.len()
    }

    pub fn n_features(&self) -> (n: usize)
        ensures
            n == self@.mean.len(),
    {
        self.mean.len()
    }

    pub fn eigenvalues(&self) -> (r: &Vec<u64>)
        ensures
            r@ == self@.weights,
    {
        &self.eigenvalues
    }

    /// The bytes that keep the model.
    pub fn to_bytes(&self) -> (r: Vec<u8>)
        ensures
            r@ == projection::projection_bytes(self@),
    {
        write_projection(&self.mean, &self.components, &self.eigenvalues)
    }

    /// Reads a model back from the bytes that keep it.
    pub fn from_bytes(data: &[u8]) -> (r: Option<Self>)
        ensures
            match r {
                Some(m) => projection::projection_read(data@) == Some(m@),
                None => projection::projection_read(data@) is None,
            },
    {
        match read_projection(data) {
            Some(p) => Some(
                LdaModel { mean: p.mean, components: p.components, eigenvalues: p.weights },
            ),
            None => None,
        }
    }
}

/// A model with its metadata.
#[derive(Debug, PartialEq, Eq)]
pub struct LdaMlModel {
    pub metadata: ModelMetadata,
    pub inner: LdaModel,
}

/// The text is the JSON of the hyperparameters of a model that was read back.
pub open spec fn lda_hyperparameters<W: Fn(u64) -> String>(write: W, p: ProjectionView, out: Seq<char>) -> bool {
    exists|values: Seq<char>| #[trigger]
        scalar::numbers_json(write, p.weights, values) && out == "{\"eigenvalues\":"@ + values
            + ",\"n_components\":"@ + text::decimal(p.components.len()) + "}"@
}

/// The metadata of a model that was read back. The number of samples is not kept.
pub open spec fn is_lda_metadata<W: Fn(u64) -> String>(write: W, meta: ModelMetadata, p: ProjectionView) -> bool {
    &&& meta.algorithm == Algorithm::LDA
    &&& meta.num_features == p.mean.len()
    &&& meta.num_samples == 0
    &&& meta.r_squared is None
    &&& meta.mse is None
    &&& meta.coefficients_count == p.components.len() * p.mean.len()
    &&& lda_hyperparameters(write, p, meta.hyperparameters_json@)
}

impl LdaMlModel {
    /// The coordinate along the first direction.
    pub fn predict<P: Fn(&Vec<u64>, &Vec<u64>, &Vec<u64>) -> u64>(&self, features: &Vec<u64>, project: &P) -> (r: Result<
        u64,
        ModelError,
    >)
        requires
            forall|a: &Vec<u64>, f: &Vec<u64>, m: &Vec<u64>| call_requires(*project, (a, f, m)),
        ensures
            r matches Ok(v) && projection::scores(*project, self.inner@, features@, v),
    {
        Ok(self.inner.score(features, project))
    }

    /// The bytes that keep the model.
    pub fn serialize(&self) -> (r: Vec<u8>)
        ensures
            r@ == projection::projection_bytes(self.inner@),
    {
        self.inner.to_bytes()
    }

    /// Reads a model back from the bytes that keep it. `write` writes a number as
    /// JSON.
    pub fn deserialize<W: Fn(u64) -> String>(blob: &[u8], write: &W) -> (r: Result<Self, ModelError>)
        requires
            forall|x: u64| call_requires(*write, (x,)),
        ensures
            match projection::projection_read(blob@) {
                Some(p) => r matches Ok(model) && model.inner@ == p && is_lda_metadata(*write, model.metadata, p),
                None => r matches Err(ModelError::Serialization(e)) && e@ == "Failed to decode LDA model"@,
            },
    {
        let inner: LdaModel = match LdaModel::from_bytes(blob) {
            Some(inner) => inner,
            None => {
                return Err(ModelError::Serialization("Failed to decode LDA model".to_owned()));
            },
        };
        let listed: String = write_number_array(&inner.eigenvalues, write);
        let mut hyperparameters_json: String = "{\"eigenvalues\":".to_owned();
        hyperparameters_json.append(listed.as_str());
        hyperparameters_json.append(",\"n_components\":");
        push_decimal(&mut hyperparameters_json, inner.n_components() as u64);
        hyperparameters_json.append("}");
        let total: usize = blob.len();
        proof {
            projection::lemma_projection_count(blob@);
            assert(scalar::numbers_json(*write, inner@.weights, listed@));
            assert(lda_hyperparameters(*write, inner@, hyperparameters_json@));
            assert(inner@.components.len() * inner@.mean.len() <= total);
        }
        let metadata = ModelMetadata {
            algorithm: Algorithm::LDA,
            num_features: inner.n_features(),
            num_samples: 0,
            r_squared: None,
            mse: None,
            coefficients_count: inner.n_components() * inner.n_features(),
            hyperparameters_json,
        };
        Ok(LdaMlModel { metadata, inner })
    }
}

} // verus!
