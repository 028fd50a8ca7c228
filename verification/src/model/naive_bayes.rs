//! Gaussian naive Bayes: a prior for each class, and a mean and a variance for
//! each class and feature.
//!
//! The numbers are the bits of doubles; computing with them is the caller's.

use vstd::prelude::*;
use crate::bits;
use crate::blob;
use crate::blob::{push_doubles, push_rows, read_doubles, read_rows};
use crate::bytes;
use crate::bytes::{push_le, read_le};
use crate::json;
use crate::model::choice;
use crate::model::choice::find_greatest;
use crate::model::classes;
use crate::model::classes::find_distinct;
use crate::model::knn;
use crate::model::types::{Algorithm, ModelError, ModelMetadata};
use crate::text;
use crate::text::push_decimal;

verus! {

/// The least variance, 1e-9.
pub const EPSILON: u64 = 0x3e11_2e0b_e826_d695;

/// The model.
#[derive(Debug, PartialEq, Eq)]
pub struct NaiveBayesModel {
    /// The prior of each class.
    pub priors: Vec<u64>,
    /// The label of each class.
    pub classes: Vec<u64>,
    /// The mean of each feature, class by class.
    pub means: Vec<Vec<u64>>,
    /// The variance of each feature, class by class.
    pub vars: Vec<Vec<u64>>,
}

/// The model as a mathematical value.
#[verifier::ext_equal]
pub struct NbView {
    pub priors: Seq<u64>,
    pub classes: Seq<u64>,
    pub means: Seq<Seq<u64>>,
    pub vars: Seq<Seq<u64>>,
}

impl View for NaiveBayesModel {
    type V = NbView;

    open spec fn view(&self) -> NbView {
        NbView {
            priors: self.priors@,
            classes: self.classes@,
            means: json::rows_of(self.means@),
            vars: json::rows_of(self.vars@),
        }
    }
}

impl NbView {
    /// Every class has a prior, means and variances.
    pub open spec fn complete(self) -> bool {
        &&& self.priors.len() == self.classes.len()
        &&& self.means.len() == self.classes.len()
        &&& self.vars.len() == self.classes.len()
    }
}

/// The class of a label: the first one that the caller finds close to it.
pub open spec fn assigned<C: Fn(u64, u64) -> bool>(close: C, labels: Seq<u64>, label: u64, id: Option<usize>) -> bool {
    match id {
        Some(c) => c < labels.len() && call_ensures(close, (label, labels[c as int]), true) && forall|d: int|
            0 <= d < c ==> call_ensures(close, (label, #[trigger] labels[d]), false),
        None => forall|d: int| 0 <= d < labels.len() ==> call_ensures(close, (label, #[trigger] labels[d]), false),
    }
}

/// The rows of the samples of class `c` among the first `n`, in order.
pub open spec fn class_rows(x: Seq<Seq<u64>>, ids: Seq<Option<usize>>, c: usize, n: nat) -> Seq<Seq<u64>>
    decreases n,
{
    if n == 0 {
        Seq::empty()
    } else if ids[n - 1] == Some(c) {
        class_rows(x, ids, c, (n - 1) as nat).push(x[n - 1])
    } else {
        class_rows(x, ids, c, (n - 1) as nat)
    }
}

/// The means and variances of a class are what the caller computes from its rows;
/// zero and the least variance where it has no rows.
pub open spec fn moments_of<O: Fn(&Vec<Vec<u64>>, usize) -> (Vec<u64>, Vec<u64>)>(
    moments: O,
    rows: Seq<Seq<u64>>,
    nf: usize,
    means: Seq<u64>,
    vars: Seq<u64>,
) -> bool {
    if rows.len() == 0 {
        means == Seq::new(nf as nat, |j: int| bits::ZERO) && vars == Seq::new(nf as nat, |j: int| EPSILON)
    } else {
        exists|a: &Vec<Vec<u64>>, r: (Vec<u64>, Vec<u64>)|
            json::rows_of(a@) == rows && r.0@ == means && r.1@ == vars && #[trigger] call_ensures(moments, (a, nf), r)
    }
}

/// The caller's moments have a mean and a variance for each feature.
pub open spec fn wide_moments<O: Fn(&Vec<Vec<u64>>, usize) -> (Vec<u64>, Vec<u64>)>(moments: O) -> bool {
    forall|a: &Vec<Vec<u64>>, nf: usize, r: (Vec<u64>, Vec<u64>)| #[trigger]
        call_ensures(moments, (a, nf), r) ==> r.0@.len() == nf && r.1@.len() == nf
}

/// How a model comes from its training data: the classes are the distinct keys of
/// the labels in ascending order, each sample belongs to the first class that is
/// close to its label, and each class has its share of the samples as its prior.
pub open spec fn trained_by<
    K: Fn(u64) -> i64,
    C: Fn(u64, u64) -> bool,
    R: Fn(usize, usize) -> u64,
    O: Fn(&Vec<Vec<u64>>, usize) -> (Vec<u64>, Vec<u64>),
>(
    key: K,
    close: C,
    ratio: R,
    moments: O,
    x: Seq<Seq<u64>>,
    y: Seq<u64>,
    keys: Seq<i128>,
    at: Seq<usize>,
    ids: Seq<Option<usize>>,
    m: NbView,
) -> bool {
    &&& keys.len() == y.len()
    &&& forall|i: int| 0 <= i < y.len() ==> i64::MIN <= #[trigger] keys[i] <= i64::MAX && call_ensures(key, (y[i],), keys[i] as i64)
    &&& classes::distinct_positions(keys, at)
    &&& m.classes == Seq::new(at.len(), |c: int| y[at[c] as int])
    &&& ids.len() == y.len()
    &&& forall|i: int| 0 <= i < y.len() ==> assigned(close, m.classes, y[i], #[trigger] ids[i])
    &&& m.complete()
    &&& forall|c: int|
        #![trigger m.priors[c]]
        0 <= c < at.len() ==> call_ensures(
            ratio,
            (class_rows(x, ids, c as usize, y.len()).len() as usize, x.len() as usize),
            m.priors[c],
        )
    &&& forall|c: int|
        #![trigger m.means[c]]
        0 <= c < at.len() ==> moments_of(
            moments,
            class_rows(x, ids, c as usize, y.len()),
            x[0].len() as usize,
            m.means[c],
            m.vars[c],
        )
}

/// The model comes from the training data.
pub open spec fn is_trained<
    K: Fn(u64) -> i64,
    C: Fn(u64, u64) -> bool,
    R: Fn(usize, usize) -> u64,
    O: Fn(&Vec<Vec<u64>>, usize) -> (Vec<u64>, Vec<u64>),
>(key: K, close: C, ratio: R, moments: O, x: Seq<Seq<u64>>, y: Seq<u64>, m: NbView) -> bool {
    exists|keys: Seq<i128>, at: Seq<usize>, ids: Seq<Option<usize>>| #[trigger]
        trained_by(key, close, ratio, moments, x, y, keys, at, ids, m)
}

fn assign<C: Fn(u64, u64) -> bool>(labels: &Vec<u64>, label: u64, close: &C) -> (id: Option<usize>)
    requires
        forall|a: u64, b: u64| call_requires(*close, (a, b)),
    ensures
        assigned(*close, labels@, label, id),
{
    let mut c: usize = 0;
    while c < labels.len()
        invariant
            forall|a: u64, b: u64| call_requires(*close, (a, b)),
            c <= labels@.len(),
            forall|d: int| 0 <= d < c ==> call_ensures(*close, (label, #[trigger] labels@[d]), false),
        decreases labels.len() - c,
    {
        if close(label, labels[c]) {
            return Some(c);
        }
        c = c + 1;
    }
    None
}

fn gather(x: &Vec<Vec<u64>>, ids: &Vec<Option<usize>>, c: usize) -> (rows: Vec<Vec<u64>>)
    requires
        ids@.len() <= x@.len(),
    ensures
        json::rows_of(rows@) == class_rows(json::rows_of(x@), ids@, c, ids@.len()),
{
    let ghost shown = json::rows_of(x@);
    let mut rows: Vec<Vec<u64>> = Vec::new();
    let mut i: usize = 0;
    assert(json::rows_of(rows@) =~= Seq::empty());
    while i < ids.len()
        invariant
            ids@.len() <= x@.len(),
            shown == json::rows_of(x@),
            i <= ids@.len(),
            json::rows_of(rows@) == class_rows(shown, ids@, c, i as nat),
        decreases ids.len() - i,
    {
        let mine: bool = match ids[i] {
            Some(d) => d == c,
            None => false,
        };
        if mine {
            let ghost before = json::rows_of(rows@);
            let row: Vec<u64> = x[i].clone();
            assert(row@ =~= shown[i as int]);
            rows.push(row);
            assert(json::rows_of(rows@) =~= before.push(shown[i as int]));
        }
        i = i + 1;
    }
    rows
}

fn filled(value: u64, n: usize) -> (r: Vec<u64>)
    ensures
        r@ == Seq::new(n as nat, |j: int| value),
{
    let mut r: Vec<u64> = Vec::new();
    let mut i: usize = 0;
    while i < n
        invariant
            i <= n,
            r@.len() == i,
            forall|j: int| 0 <= j < i ==> #[trigger] r@[j] == value,
        decreases n - i,
    {
        r.push(value);
        i = i + 1;
    }
    assert(r@ =~= Seq::new(n as nat, |j: int| value));
    r
}

impl NaiveBayesModel {
    /// Trains a model. `key` rounds a label so that equal labels have one key,
    /// `close` tells whether two labels are the same, `ratio` divides two counts,
    /// and `moments` computes the means and variances of some rows.
    pub fn train<
        K: Fn(u64) -> i64,
        C: Fn(u64, u64) -> bool,
        R: Fn(usize, usize) -> u64,
        O: Fn(&Vec<Vec<u64>>, usize) -> (Vec<u64>, Vec<u64>),
    >(x: &Vec<Vec<u64>>, y: &Vec<u64>, key: &K, close: &C, ratio: &R, moments: &O) -> (m: Self)
        requires
            x@.len() > 0,
            y@.len() <= x@.len(),
            forall|i: int| 0 <= i < y@.len() ==> (#[trigger] x@[i])@.len() >= x@[0]@.len(),
            forall|a: u64| call_requires(*key, (a,)),
            forall|a: u64, b: u64| call_requires(*close, (a, b)),
            forall|a: usize, b: usize| call_requires(*ratio, (a, b)),
            forall|a: &Vec<Vec<u64>>, nf: usize|
                (forall|i: int| 0 <= i < a@.len() ==> (#[trigger] a@[i])@.len() >= nf) ==> call_requires(
                    *moments,
                    (a, nf),
                ),
            wide_moments(*moments),
        ensures
            is_trained(*key, *close, *ratio, *moments, json::rows_of(x@), y@, m@),
            m@.complete(),
            blob::all_wide(m@.means, x@[0]@.len()),
            blob::all_wide(m@.vars, x@[0]@.len()),
    {
        let ghost shown = json::rows_of(x@);
        let n: usize = x.len();
        let nf: usize = x[0].len();
        let mut keys: Vec<i128> = Vec::new();
        let mut i: usize = 0;
        while i < y.len()
            invariant
                forall|a: u64| call_requires(*key, (a,)),
                i <= y@.len(),
                keys@.len() == i,
                forall|j: int|
                    0 <= j < i ==> i64::MIN <= #[trigger] keys@[j] <= i64::MAX && call_ensures(
                        *key,
                        (y@[j],),
                        keys@[j] as i64,
                    ),
            decreases y.len() - i,
        {
            let k: i64 = key(y[i]);
            keys.push(k as i128);
            i = i + 1;
        }
        let at: Vec<usize> = find_distinct(&keys);
        let mut labels: Vec<u64> = Vec::new();
        let mut c: usize = 0;
        while c < at.len()
            invariant
                keys@.len() == y@.len(),
                classes::distinct_positions(keys@, at@),
                c <= at@.len(),
                labels@.len() == c,
                forall|d: int| 0 <= d < c ==> #[trigger] labels@[d] == y@[at@[d] as int],
            decreases at.len() - c,
        {
            assert(at@[c as int] < keys@.len());
            labels.push(y[at[c]]);
            c = c + 1;
        }
        assert(labels@ =~= Seq::new(at@.len(), |c: int| y@[at@[c] as int]));
        let mut ids: Vec<Option<usize>> = Vec::new();
        let mut s: usize = 0;
        while s < y.len()
            invariant
                forall|a: u64, b: u64| call_requires(*close, (a, b)),
                s <= y@.len(),
                ids@.len() == s,
                forall|j: int| 0 <= j < s ==> assigned(*close, labels@, y@[j], #[trigger] ids@[j]),
            decreases y.len() - s,
        {
            let id: Option<usize> = assign(&labels, y[s], close);
            ids.push(id);
            s = s + 1;
        }
        let mut priors: Vec<u64> = Vec::new();
        let mut means: Vec<Vec<u64>> = Vec::new();
        let mut vars: Vec<Vec<u64>> = Vec::new();
        let mut d: usize = 0;
        while d < labels.len()
            invariant
                shown == json::rows_of(x@),
                n == x@.len(),
                n > 0,
                nf == shown[0].len(),
                ids@.len() == y@.len() <= x@.len(),
                forall|i: int| 0 <= i < y@.len() ==> (#[trigger] x@[i])@.len() >= x@[0]@.len(),
                forall|a: usize, b: usize| call_requires(*ratio, (a, b)),
                forall|a: &Vec<Vec<u64>>, nf: usize|
                    (forall|i: int| 0 <= i < a@.len() ==> (#[trigger] a@[i])@.len() >= nf) ==> call_requires(
                        *moments,
                        (a, nf),
                    ),
                d <= labels@.len(),
                priors@.len() == d,
                means@.len() == d,
                vars@.len() == d,
                forall|c: int|
                    #![trigger priors@[c]]
                    0 <= c < d ==> call_ensures(
                        *ratio,
                        (class_rows(shown, ids@, c as usize, y@.len()).len() as usize, shown.len() as usize),
                        priors@[c],
                    ),
                forall|c: int|
                    #![trigger means@[c]]
                    0 <= c < d ==> moments_of(
                        *moments,
                        class_rows(shown, ids@, c as usize, y@.len()),
                        shown[0].len() as usize,
                        means@[c]@,
                        vars@[c]@,
                    ),
            decreases labels.len() - d,
        {
            let rows: Vec<Vec<u64>> = gather(x, &ids, d);
            let ghost mine = class_rows(shown, ids@, d, y@.len());
            assert(json::rows_of(rows@) == mine);
            assert(rows@.len() == mine.len());
            let share: u64 = ratio(rows.len(), n);
            priors.push(share);
            if rows.len() == 0 {
                means.push(filled(bits::ZERO, nf));
                vars.push(filled(EPSILON, nf));
            } else {
                proof {
                    assert forall|i: int| 0 <= i < rows@.len() implies (#[trigger] rows@[i])@.len() >= nf by {
                        assert(json::rows_of(rows@)[i] == rows@[i]@);
                        lemma_class_rows_wide(shown, ids@, d, y@.len(), nf as nat, i);
                    }
                }
                let a = &rows;
                let (mean, var) = moments(a, nf);
                proof {
                    let r = (mean, var);
                    assert(call_ensures(*moments, (a, nf), r));
                    assert(moments_of(*moments, mine, nf, mean@, var@));
                }
                means.push(mean);
                vars.push(var);
            }
            d = d + 1;
        }
        let m = NaiveBayesModel { priors, classes: labels, means, vars };
        proof {
            assert(m@.means.len() == at@.len() && m@.vars.len() == at@.len());
            assert forall|c: int|
                #![trigger m@.means[c]]
                0 <= c < at@.len() implies moments_of(
                *moments,
                class_rows(shown, ids@, c as usize, y@.len()),
                shown[0].len() as usize,
                m@.means[c],
                m@.vars[c],
            ) by {
                assert(m@.means[c] == means@[c]@ && m@.vars[c] == vars@[c]@);
            }
            assert(trained_by(*key, *close, *ratio, *moments, shown, y@, keys@, at@, ids@, m@));
            lemma_trained_is_wide(*key, *close, *ratio, *moments, shown, y@, m@);
        }
        m
    }
}

/// A trained model has a mean and a variance for each class and feature.
proof fn lemma_trained_is_wide<
    K: Fn(u64) -> i64,
    C: Fn(u64, u64) -> bool,
    R: Fn(usize, usize) -> u64,
    O: Fn(&Vec<Vec<u64>>, usize) -> (Vec<u64>, Vec<u64>),
>(key: K, close: C, ratio: R, moments: O, x: Seq<Seq<u64>>, y: Seq<u64>, m: NbView)
    requires
        wide_moments(moments),
        is_trained(key, close, ratio, moments, x, y, m),
    ensures
        m.complete(),
        blob::all_wide(m.means, (x[0].len() as usize) as nat),
        blob::all_wide(m.vars, (x[0].len() as usize) as nat),
{
    let nf = x[0].len() as usize;
    let (keys, at, ids) = choose|keys: Seq<i128>, at: Seq<usize>, ids: Seq<Option<usize>>| #[trigger]
        trained_by(key, close, ratio, moments, x, y, keys, at, ids, m);
    assert forall|c: int| 0 <= c < at.len() implies (#[trigger] m.means[c]).len() == nf && m.vars[c].len() == nf by {
        let rows = class_rows(x, ids, c as usize, y.len());
        assert(moments_of(moments, rows, nf, m.means[c], m.vars[c]));
    }
    assert forall|c: int| 0 <= c < m.vars.len() implies (#[trigger] m.vars[c]).len() == nf by {
        assert(m.means[c].len() == nf);
    }
}

proof fn lemma_class_rows_wide(x: Seq<Seq<u64>>, ids: Seq<Option<usize>>, c: usize, n: nat, nf: nat, r: int)
    requires
        n <= x.len(),
        forall|i: int| 0 <= i < n ==> (#[trigger] x[i]).len() >= nf,
        0 <= r < class_rows(x, ids, c, n).len(),
    ensures
        class_rows(x, ids, c, n)[r].len() >= nf,
    decreases n,
{
    if n > 0 {
        if ids[n - 1] != Some(c) || r < class_rows(x, ids, c, (n - 1) as nat).len() {
            lemma_class_rows_wide(x, ids, c, (n - 1) as nat, nf, r);
        }
    }
}

/// The caller's scores of the classes for some features.
pub open spec fn scores_all<S: Fn(u64, &Vec<u64>, &Vec<u64>, &Vec<u64>) -> u64>(
    score: S,
    m: NbView,
    features: Seq<u64>,
    scores: Seq<u64>,
) -> bool {
    &&& scores.len() == m.classes.len()
    &&& forall|c: int| 0 <= c < m.classes.len() ==> scores_class(score, m, features, c, #[trigger] scores[c])
}

/// The caller's score of one class: from its prior, means and variances.
pub open spec fn scores_class<S: Fn(u64, &Vec<u64>, &Vec<u64>, &Vec<u64>) -> u64>(
    score: S,
    m: NbView,
    features: Seq<u64>,
    c: int,
    value: u64,
) -> bool {
    exists|a: &Vec<u64>, b: &Vec<u64>, f: &Vec<u64>|
        a@ == m.means[c] && b@ == m.vars[c] && f@ == features && #[trigger] call_ensures(
            score,
            (m.priors[c], a, b, f),
            value,
        )
}

/// The prediction: the class with the highest score, the first of them where
/// several have it; zero where no class has a score.
pub open spec fn nb_predicts<S: Fn(u64, &Vec<u64>, &Vec<u64>, &Vec<u64>) -> u64>(
    score: S,
    m: NbView,
    features: Seq<u64>,
    r: u64,
) -> bool {
    exists|scores: Seq<u64>, best: Option<usize>| #[trigger]
        scores_all(score, m, features, scores) && #[trigger] choice::first_greatest(scores, best) && r == (match best {
            Some(c) => m.classes[c as int],
            None => bits::ZERO,
        })
}

impl NaiveBayesModel {
    /// Predicts the most likely class. `score` gives the logarithm of a class's
    /// probability from its prior, its means, its variances and the features.
    pub fn predict<S: Fn(u64, &Vec<u64>, &Vec<u64>, &Vec<u64>) -> u64>(&self, features: &Vec<u64>, score: &S) -> (r: u64)
        requires
            self@.complete(),
            forall|p: u64, a: &Vec<u64>, b: &Vec<u64>, f: &Vec<u64>| call_requires(*score, (p, a, b, f)),
        ensures
            nb_predicts(*score, self@, features@, r),
    {
        let ghost m = self@;
        let mut scores: Vec<u64> = Vec::new();
        let mut c: usize = 0;
        while c < self.classes.len()
            invariant
                m == self@,
                m.complete(),
                forall|p: u64, a: &Vec<u64>, b: &Vec<u64>, f: &Vec<u64>| call_requires(*score, (p, a, b, f)),
                c <= self.classes@.len(),
                scores@.len() == c,
                forall|d: int| 0 <= d < c ==> scores_class(*score, m, features@, d, #[trigger] scores@[d]),
            decreases self.classes.len() - c,
        {
            let a = &self.means[c];
            let b = &self.vars[c];
            let value: u64 = score(self.priors[c], a, b, features);
            proof {
                assert(m.means[c as int] == a@ && m.vars[c as int] == b@);
                assert(call_ensures(*score, (m.priors[c as int], a, b, features), value));
                assert(scores_class(*score, m, features@, c as int, value));
            }
            scores.push(value);
            c = c + 1;
        }
        let best: Option<usize> = find_greatest(&scores);
        assert(scores_all(*score, m, features@, scores@));
        match best {
            Some(c) => self.classes[c],
            None => bits::ZERO,
        }
    }

    pub fn n_classes(&self) -> (n: usize)
        ensures
            n == self@.classes.len(),
    {
        self.classes.len()
    }

    pub fn n_features(&self) -> (n: usize)
        ensures
            n == knn::width(self@.means),
    {
        if self.means.len() > 0 {
            assert(self@.means[0] == self.means@[0]@);
            self.means[0].len()
        } else {
            0
        }
    }
}

/// The bytes that keep a model: the sizes, the classes, the priors, the means
/// and the variances.
pub open spec fn nb_bytes(m: NbView) -> Seq<u8> {
    bytes::le_bytes(m.classes.len(), 4) + bytes::le_bytes(knn::width(m.means), 4) + blob::doubles_bytes(
        m.classes,
        m.classes.len(),
    ) + blob::doubles_bytes(m.priors, m.priors.len()) + blob::rows_bytes(m.means, m.means.len())
        + blob::rows_bytes(m.vars, m.vars.len())
}

/// The model that some bytes keep; nothing where they keep none.
pub open spec fn nb_read(data: Seq<u8>) -> Option<NbView> {
    let n = bytes::le_value(data.subrange(0, 4));
    let nf = bytes::le_value(data.subrange(4, 8));
    let table = n * (8 * nf);
    if data.len() < 8 || data.len() < 8 + 16 * n + 2 * table {
        None
    } else {
        Some(
            NbView {
                classes: blob::doubles_at(data, 8, n),
                priors: blob::doubles_at(data, (8 + 8 * n) as int, n),
                means: blob::rows_at(data, (8 + 16 * n) as int, n, nf),
                vars: blob::rows_at(data, (8 + 16 * n + table) as int, n, nf),
            },
        )
    }
}

impl NaiveBayesModel {
    /// The bytes that keep the model.
    pub fn to_bytes(&self) -> (r: Vec<u8>)
        ensures
            r@ == nb_bytes(self@),
    {
        let mut out: Vec<u8> = Vec::new();
        push_le(&mut out, self.classes.len() as u64, 4);
        push_le(&mut out, self.n_features() as u64, 4);
        push_doubles(&mut out, &self.classes);
        push_doubles(&mut out, &self.priors);
        push_rows(&mut out, &self.means);
        push_rows(&mut out, &self.vars);
        assert(out@ =~= nb_bytes(self@));
        out
    }

    /// Reads a model back from the bytes that keep it.
    pub fn from_bytes(data: &[u8]) -> (r: Option<Self>)
        ensures
            match r {
                Some(m) => nb_read(data@) == Some(m@) && m@.complete(),
                None => nb_read(data@) is None,
            },
    {
        let total: usize = data.len();
        if total < 8 {
            return None;
        }
        let n: u64 = read_le(data, 0, 4);
        let nf: u64 = read_le(data, 4, 4);
        proof {
            bytes::lemma_word_ranges();
            bytes::lemma_le_value_bound(data@.subrange(0, 4));
            bytes::lemma_le_value_bound(data@.subrange(4, 8));
            assert(n * (8 * nf) <= 0xffff_ffff * (8 * 0xffff_ffff) && 0 <= n * (8 * nf)) by (nonlinear_arith)
                requires
                    0 <= n <= 0xffff_ffff,
                    0 <= nf <= 0xffff_ffff,
            ;
        }
        let table: u128 = (n as u128) * (8 * (nf as u128));
        if (total as u128) < 8 + 16 * (n as u128) + 2 * table {
            return None;
        }
        proof {
            assert(nf > 0 && n > 0 ==> 8 * nf <= n * (8 * nf)) by (nonlinear_arith)
                requires
                    0 <= n,
                    0 <= nf,
            ;
        }
        let rows: usize = n as usize;
        let cols: usize = if rows == 0 {
            0
        } else {
            nf as usize
        };
        proof {
            assert(rows == n);
            assert(rows > 0 ==> cols == nf);
            assert(rows * (8 * cols) == table) by {
                if rows == 0 {
                    assert(0 * (8 * cols) == 0 && 0 * (8 * nf) == 0) by (nonlinear_arith);
                }
            }
        }
        let classes: Vec<u64> = read_doubles(data, 8, rows);
        let priors: Vec<u64> = read_doubles(data, 8 + 8 * rows, rows);
        let means: Vec<Vec<u64>> = read_rows(data, 8 + 16 * rows, rows, cols);
        let vars: Vec<Vec<u64>> = read_rows(data, 8 + 16 * rows + (table as usize), rows, cols);
        let m = NaiveBayesModel { priors, classes, means, vars };
        proof {
            if rows == 0 {
                assert(m@.means =~= blob::rows_at(data@, 8, 0, nf as nat));
                assert(m@.vars =~= blob::rows_at(data@, 8, 0, nf as nat));
            }
            assert(m@ =~= nb_read(data@)->0);
        }
        Some(m)
    }
}

/// A model whose sizes fit the format.
pub open spec fn nb_fits_format(m: NbView) -> bool {
    &&& m.complete()
    &&& m.classes.len() < 0x1_0000_0000
    &&& knn::width(m.means) < 0x1_0000_0000
    &&& blob::all_wide(m.means, knn::width(m.means))
    &&& blob::all_wide(m.vars, knn::width(m.means))
}

/// Keeping a model and reading it back gives the same model.
pub proof fn law_nb_reads_back(m: NbView)
    requires
        nb_fits_format(m),
    ensures
        nb_read(nb_bytes(m)) == Some(m),
{
    let data = nb_bytes(m);
    let n = m.classes.len();
    let nf = knn::width(m.means);
    let table = n * (8 * nf);
    bytes::lemma_word_ranges();
    bytes::lemma_le_bytes_len(n, 4);
    bytes::lemma_le_bytes_len(nf, 4);
    bytes::lemma_le_value_of_bytes(n, 4);
    bytes::lemma_le_value_of_bytes(nf, 4);
    blob::lemma_doubles_len(m.classes, n);
    blob::lemma_doubles_len(m.priors, n);
    blob::lemma_rows_len(m.means, nf, n);
    blob::lemma_rows_len(m.vars, nf, n);
    assert(data.subrange(0, 4) =~= bytes::le_bytes(n, 4));
    assert(data.subrange(4, 8) =~= bytes::le_bytes(nf, 4));
    assert(data.subrange(8, (8 + 8 * n) as int) =~= blob::doubles_bytes(m.classes, n));
    blob::lemma_doubles_read_back(data, 8, m.classes);
    assert(data.subrange((8 + 8 * n) as int, (8 + 8 * n + 8 * n) as int) =~= blob::doubles_bytes(m.priors, n));
    blob::lemma_doubles_read_back(data, (8 + 8 * n) as int, m.priors);
    assert(data.subrange((8 + 16 * n) as int, 8 + 16 * n + table as int) =~= blob::rows_bytes(m.means, n));
    blob::lemma_rows_read_back(data, (8 + 16 * n) as int, m.means, nf);
    assert(data.subrange((8 + 16 * n + table) as int, 8 + 16 * n + table + table as int) =~= blob::rows_bytes(m.vars, n));
    blob::lemma_rows_read_back(data, (8 + 16 * n + table) as int, m.vars, nf);
    assert(nb_read(data)->0 =~= m);
}

/// No beginning of the bytes that keep a model is read as a model.
pub proof fn law_cut_nb_is_refused(m: NbView, j: int)
    requires
        nb_fits_format(m),
        0 <= j < nb_bytes(m).len(),
    ensures
        nb_read(nb_bytes(m).take(j)) is None,
{
    let data = nb_bytes(m);
    let part = data.take(j);
    let n = m.classes.len();
    let nf = knn::width(m.means);
    bytes::lemma_word_ranges();
    bytes::lemma_le_bytes_len(n, 4);
    bytes::lemma_le_bytes_len(nf, 4);
    bytes::lemma_le_value_of_bytes(n, 4);
    bytes::lemma_le_value_of_bytes(nf, 4);
    blob::lemma_doubles_len(m.classes, n);
    blob::lemma_doubles_len(m.priors, n);
    blob::lemma_rows_len(m.means, nf, n);
    blob::lemma_rows_len(m.vars, nf, n);
    if j >= 8 {
        assert(part.subrange(0, 4) =~= bytes::le_bytes(n, 4));
        assert(part.subrange(4, 8) =~= bytes::le_bytes(nf, 4));
    }
}

/// A trained model whose sizes fit the format is read back as it was kept, and no
/// beginning of its bytes is read as a model.
pub proof fn law_trained_nb_reads_back<
    K: Fn(u64) -> i64,
    C: Fn(u64, u64) -> bool,
    R: Fn(usize, usize) -> u64,
    O: Fn(&Vec<Vec<u64>>, usize) -> (Vec<u64>, Vec<u64>),
>(key: K, close: C, ratio: R, moments: O, x: Seq<Seq<u64>>, y: Seq<u64>, m: NbView)
    requires
        wide_moments(moments),
        is_trained(key, close, ratio, moments, x, y, m),
        m.classes.len() < 0x1_0000_0000,
        knn::width(m.means) < 0x1_0000_0000,
    ensures
        nb_read(nb_bytes(m)) == Some(m),
        forall|j: int| 0 <= j < nb_bytes(m).len() ==> nb_read(#[trigger] nb_bytes(m).take(j)) is None,
{
    lemma_trained_is_wide(key, close, ratio, moments, x, y, m);
    if m.means.len() == 0 {
        assert(blob::all_wide(m.means, knn::width(m.means)));
        assert(blob::all_wide(m.vars, knn::width(m.means)));
    }
    law_nb_reads_back(m);
    assert forall|j: int| 0 <= j < nb_bytes(m).len() implies nb_read(#[trigger] nb_bytes(m).take(j)) is None by {
        law_cut_nb_is_refused(m, j);
    }
}

/// A model with its metadata.
#[derive(Debug, PartialEq, Eq)]
pub struct NbMlModel {
    pub metadata: ModelMetadata,
    pub inner: NaiveBayesModel,
}

/// The metadata of a model that was read back. The number of samples is not kept.
pub open spec fn is_nb_metadata(meta: ModelMetadata, m: NbView) -> bool {
    &&& meta.algorithm == Algorithm::NaiveBayes
    &&& meta.num_features == knn::width(m.means)
    &&& meta.num_samples == 0
    &&& meta.r_squared is None
    &&& meta.mse is None
    &&& meta.coefficients_count == m.classes.len() * knn::width(m.means)
    &&& meta.hyperparameters_json@ == "{\"n_classes\":"@ + text::decimal(m.classes.len()) + ",\"n_features\":"@
        + text::decimal(knn::width(m.means)) + "}"@
}

impl NbMlModel {
    /// Predicts by the model.
    pub fn predict<S: Fn(u64, &Vec<u64>, &Vec<u64>, &Vec<u64>) -> u64>(&self, features: &Vec<u64>, score: &S) -> (r: Result<
        u64,
        ModelError,
    >)
        requires
            self.inner@.complete(),
            forall|p: u64, a: &Vec<u64>, b: &Vec<u64>, f: &Vec<u64>| call_requires(*score, (p, a, b, f)),
        ensures
            r matches Ok(p) && nb_predicts(*score, self.inner@, features@, p),
    {
        Ok(self.inner.predict(features, score))
    }

    /// The bytes that keep the model.
    pub fn serialize(&self) -> (r: Vec<u8>)
        ensures
            r@ == nb_bytes(self.inner@),
    {
        self.inner.to_bytes()
    }

    /// Reads a model back from the bytes that keep it.
    pub fn deserialize(blob: &[u8]) -> (r: Result<Self, ModelError>)
        ensures
            match nb_read(blob@) {
                Some(m) => r matches Ok(model) && model.inner@ == m && is_nb_metadata(model.metadata, m),
                None => r matches Err(ModelError::Serialization(e)) && e@ == "Failed to decode NaiveBayes model"@,
            },
    {
        let inner: NaiveBayesModel = match NaiveBayesModel::from_bytes(blob) {
            Some(inner) => inner,
            None => {
                return Err(ModelError::Serialization("Failed to decode NaiveBayes model".to_owned()));
            },
        };
        let n: usize = inner.n_classes();
        let nf: usize = inner.n_features();
        proof {
            lemma_count_fits(blob@);
        }
        let mut hyperparameters_json: String = "{\"n_classes\":".to_owned();
        push_decimal(&mut hyperparameters_json, n as u64);
        hyperparameters_json.append(",\"n_features\":");
        push_decimal(&mut hyperparameters_json, nf as u64);
        hyperparameters_json.append("}");
        let total: usize = blob.len();
        assert(n * nf <= total);
        let metadata = ModelMetadata {
            algorithm: Algorithm::NaiveBayes,
            num_features: nf,
            num_samples: 0,
            r_squared: None,
            mse: None,
            coefficients_count: n * nf,
            hyperparameters_json,
        };
        Ok(NbMlModel { metadata, inner })
    }
}

/// A kept model has no more numbers than bytes.
proof fn lemma_count_fits(data: Seq<u8>)
    requires
        nb_read(data) is Some,
    ensures
        ({
            let m = nb_read(data)->0;
            m.classes.len() * knn::width(m.means) <= data.len()
        }),
{
    let n = bytes::le_value(data.subrange(0, 4));
    let nf = bytes::le_value(data.subrange(4, 8));
    let m = nb_read(data)->0;
    if n > 0 {
        assert(m.means[0].len() == nf);
        assert(n * nf <= n * (8 * nf)) by (nonlinear_arith);
    } else {
        assert(0 * knn::width(m.means) == 0) by (nonlinear_arith);
    }
}

} // verus!
