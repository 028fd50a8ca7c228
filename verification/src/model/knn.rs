//! K-nearest neighbours: the model is the training data, and a prediction is made
//! from the nearest samples.

use vstd::prelude::*;
use crate::bits;
use crate::bits::rank_of;
use crate::blob;
use crate::blob::{push_doubles, push_rows, read_doubles, read_rows};
use crate::bytes;
use crate::bytes::{push_le, read_le};
use crate::json;
use crate::model::types::{Algorithm, ModelError, ModelMetadata};
use crate::sorting;
use crate::sorting::{sorted_positions, RowOrder};
use crate::text;
use crate::text::push_decimal;

verus! {

/// What a prediction is made of the nearest samples.
#[derive(Debug, Clone, Copy, PartialEq, Eq, Structural)]
pub enum KnnTask {
    Regression,
    Classification,
}

/// The model: the training data. The numbers are the bits of doubles.
#[derive(Debug, PartialEq, Eq)]
pub struct KnnModel {
    pub x_train: Vec<Vec<u64>>,
    pub y_train: Vec<u64>,
    pub k: usize,
    pub task: KnnTask,
}

/// The model as a mathematical value.
#[verifier::ext_equal]
pub struct KnnView {
    pub x: Seq<Seq<u64>>,
    pub y: Seq<u64>,
    pub k: nat,
    pub task: KnnTask,
}

impl View for KnnModel {
    type V = KnnView;

    open spec fn view(&self) -> KnnView {
        KnnView { x: json::rows_of(self.x_train@), y: self.y_train@, k: self.k as nat, task: self.task }
    }
}

/// `d` is a distance that the caller measures.
pub open spec fn measures<D: Fn(&Vec<u64>, &Vec<u64>) -> u64>(
    distance: D,
    row: Seq<u64>,
    features: Seq<u64>,
    d: u64,
) -> bool {
    exists|a: &Vec<u64>, b: &Vec<u64>| a@ == row && b@ == features && #[trigger] call_ensures(distance, (a, b), d)
}

/// The distances of all rows, as the caller measures them.
pub open spec fn measures_all<D: Fn(&Vec<u64>, &Vec<u64>) -> u64>(
    distance: D,
    x: Seq<Seq<u64>>,
    features: Seq<u64>,
    ds: Seq<u64>,
) -> bool {
    &&& ds.len() == x.len()
    &&& forall|i: int| 0 <= i < x.len() ==> measures(distance, x[i], features, #[trigger] ds[i])
}

/// Sample `a` is nearer than sample `b`, or as near and earlier.
pub open spec fn nearer(ds: Seq<u64>, a: int, b: int) -> bool {
    bits::rank(ds[a]) < bits::rank(ds[b]) || (bits::rank(ds[a]) == bits::rank(ds[b]) && a < b)
}

/// The `m` nearest samples, nearest first.
pub open spec fn closest(ds: Seq<u64>, m: nat, near: Seq<usize>) -> bool {
    &&& near.len() == m
    &&& forall|i: int| 0 <= i < m ==> #[trigger] near[i] < ds.len()
    &&& forall|i: int, j: int| #![trigger near[i], near[j]] 0 <= i < j < m ==> nearer(ds, near[i] as int, near[j] as int)
    &&& forall|i: int, x: usize|
        #![trigger near[i], near.contains(x)]
        0 <= i < m && x < ds.len() && !near.contains(x) ==> nearer(ds, near[i] as int, x as int)
}

struct DistanceTable<'a> {
    ds: &'a Vec<u64>,
}

impl<'a> RowOrder for DistanceTable<'a> {
    closed spec fn size(&self) -> nat {
        self.ds@.len()
    }

    closed spec fn comparable(&self) -> bool {
        true
    }

    closed spec fn rows_le(&self, a: int, b: int) -> bool {
        bits::rank(self.ds@[a]) <= bits::rank(self.ds@[b])
    }

    proof fn total(&self, a: int, b: int) {
    }

    proof fn transitive(&self, a: int, b: int, c: int) {
    }

    fn check_le(&self, a: usize, b: usize) -> (r: bool) {
        rank_of(self.ds[a]) <= rank_of(self.ds[b])
    }
}

/// The `m` nearest samples.
pub fn find_closest(ds: &Vec<u64>, m: usize) -> (near: Vec<usize>)
    requires
        m <= ds@.len(),
    ensures
        closest(ds@, m as nat, near@),
{
    let table = DistanceTable { ds };
    let order: Vec<usize> = sorted_positions(&table, ds.len());
    let ghost le = |a: int, b: int| table.rows_le(a, b);
    let mut near: Vec<usize> = Vec::new();
    let mut i: usize = 0;
    while i < m
        invariant
            m <= order@.len(),
            i <= m,
            near@ == order@.take(i as int),
        decreases m - i,
    {
        near.push(order[i]);
        i = i + 1;
        assert(near@ =~= order@.take(i as int));
    }
    proof {
        assert forall|i: int| 0 <= i < m implies #[trigger] near@[i] < ds@.len() by {
            assert(order@.contains(order@[i]));
        }
        assert forall|i: int, j: int|
            #![trigger near@[i], near@[j]]
            0 <= i < j < m implies nearer(ds@, near@[i] as int, near@[j] as int) by {
            assert(sorting::comes_first(le, order@[i] as int, order@[j] as int));
        }
        assert forall|i: int, x: usize|
            #![trigger near@[i], near@.contains(x)]
            0 <= i < m && x < ds@.len() && !near@.contains(x) implies nearer(ds@, near@[i] as int, x as int) by {
            assert(order@.contains(x));
            let j = choose|j: int| 0 <= j < order@.len() && order@[j] == x;
            if j < m {
                assert(near@[j] == x);
                assert(false);
            }
            assert(sorting::comes_first(le, order@[i] as int, order@[j] as int));
        }
    }
    near
}

/// How many of the first `n` votes are for one bucket.
pub open spec fn votes_for(votes: Seq<i64>, bucket: i64, n: nat) -> nat
    decreases n,
{
    if n == 0 {
        0
    } else {
        votes_for(votes, bucket, (n - 1) as nat) + if votes[n - 1] == bucket {
            1nat
        } else {
            0nat
        }
    }
}

/// No bucket has more votes.
pub open spec fn wins(votes: Seq<i64>, bucket: i64) -> bool {
    &&& votes.contains(bucket)
    &&& forall|other: i64| #[trigger] votes_for(votes, other, votes.len()) <= votes_for(votes, bucket, votes.len())
}

fn count_votes(votes: &Vec<i64>, bucket: i64) -> (n: usize)
    ensures
        n == votes_for(votes@, bucket, votes@.len()),
{
    let mut n: usize = 0;
    let mut i: usize = 0;
    while i < votes.len()
        invariant
            i <= votes@.len(),
            n <= i,
            n == votes_for(votes@, bucket, i as nat),
        decreases votes.len() - i,
    {
        if votes[i] == bucket {
            n = n + 1;
        }
        i = i + 1;
    }
    n
}

proof fn lemma_no_votes(votes: Seq<i64>, bucket: i64, n: nat)
    requires
        n <= votes.len(),
        !votes.contains(bucket),
    ensures
        votes_for(votes, bucket, n) == 0,
    decreases n,
{
    if n > 0 {
        assert(votes.contains(votes[n - 1]));
        lemma_no_votes(votes, bucket, (n - 1) as nat);
    }
}

/// A bucket with the most votes.
pub fn majority(votes: &Vec<i64>) -> (bucket: i64)
    requires
        votes@.len() > 0,
    ensures
        wins(votes@, bucket),
{
    let mut best: i64 = votes[0];
    let mut count: usize = count_votes(votes, best);
    let mut i: usize = 1;
    assert(votes@.contains(votes@[0]));
    while i < votes.len()
        invariant
            1 <= i <= votes@.len(),
            votes@.contains(best),
            count == votes_for(votes@, best, votes@.len()),
            forall|j: int| 0 <= j < i ==> votes_for(votes@, #[trigger] votes@[j], votes@.len()) <= count,
        decreases votes.len() - i,
    {
        let n: usize = count_votes(votes, votes[i]);
        if n > count {
            best = votes[i];
            count = n;
            assert(votes@.contains(votes@[i as int]));
        }
        i = i + 1;
    }
    proof {
        assert forall|other: i64| #[trigger] votes_for(votes@, other, votes@.len()) <= votes_for(
            votes@,
            best,
            votes@.len(),
        ) by {
            if votes@.contains(other) {
                let j = choose|j: int| 0 <= j < votes@.len() && votes@[j] == other;
                assert(votes_for(votes@, votes@[j], votes@.len()) <= count);
            } else {
                lemma_no_votes(votes@, other, votes@.len());
            }
        }
    }
    best
}

/// The targets of the nearest samples, nearest first.
pub open spec fn near_targets(y: Seq<u64>, near: Seq<usize>) -> Seq<u64> {
    Seq::new(near.len(), |i: int| y[near[i] as int])
}

impl KnnView {
    /// There are samples, each with a target, and at least one is asked.
    pub open spec fn can_predict(self) -> bool {
        self.k > 0 && self.x.len() > 0 && self.x.len() <= self.y.len()
    }

    /// How many samples a prediction is made of.
    pub open spec fn asked(self) -> nat {
        if self.k < self.x.len() {
            self.k
        } else {
            self.x.len()
        }
    }
}

/// The prediction is made of these targets: their average, or the label of a
/// bucket with the most votes.
pub open spec fn is_made_of<A: Fn(&Vec<u64>) -> u64, B: Fn(u64) -> i64, L: Fn(i64) -> u64>(
    average: A,
    bucket: B,
    label: L,
    task: KnnTask,
    targets: Seq<u64>,
    r: u64,
) -> bool {
    match task {
        KnnTask::Regression => exists|v: &Vec<u64>| v@ == targets && #[trigger] call_ensures(average, (v,), r),
        KnnTask::Classification => exists|votes: Seq<i64>, winner: i64| #[trigger]
            are_buckets(bucket, targets, votes) && #[trigger] wins(votes, winner) && call_ensures(label, (winner,), r),
    }
}

/// The buckets of the targets, as the caller rounds them.
pub open spec fn are_buckets<B: Fn(u64) -> i64>(bucket: B, targets: Seq<u64>, votes: Seq<i64>) -> bool {
    &&& votes.len() == targets.len()
    &&& forall|i: int| 0 <= i < targets.len() ==> call_ensures(bucket, (targets[i],), #[trigger] votes[i])
}

/// The prediction of a model: made of the targets of the nearest samples.
pub open spec fn knn_predicts<
    D: Fn(&Vec<u64>, &Vec<u64>) -> u64,
    A: Fn(&Vec<u64>) -> u64,
    B: Fn(u64) -> i64,
    L: Fn(i64) -> u64,
>(m: KnnView, distance: D, average: A, bucket: B, label: L, features: Seq<u64>, r: u64) -> bool {
    exists|ds: Seq<u64>, near: Seq<usize>| #[trigger]
        measures_all(distance, m.x, features, ds) && #[trigger] closest(ds, m.asked(), near) && is_made_of(
            average,
            bucket,
            label,
            m.task,
            near_targets(m.y, near),
            r,
        )
}

impl KnnModel {
    /// A model over some training data that asks `k` samples.
    pub fn new(x_train: Vec<Vec<u64>>, y_train: Vec<u64>, k: usize, task: KnnTask) -> (r: Self)
        requires
            0 < k <= x_train@.len(),
        ensures
            r@ == (KnnView { x: json::rows_of(x_train@), y: y_train@, k: k as nat, task }),
    {
        KnnModel { x_train, y_train, k, task }
    }

    fn distances<D: Fn(&Vec<u64>, &Vec<u64>) -> u64>(&self, features: &Vec<u64>, distance: &D) -> (ds: Vec<u64>)
        requires
            forall|a: &Vec<u64>, b: &Vec<u64>| call_requires(*distance, (a, b)),
        ensures
            measures_all(*distance, self@.x, features@, ds@),
    {
        let ghost x = self@.x;
        let mut ds: Vec<u64> = Vec::new();
        let mut i: usize = 0;
        while i < self.x_train.len()
            invariant
                forall|a: &Vec<u64>, b: &Vec<u64>| call_requires(*distance, (a, b)),
                x == json::rows_of(self.x_train@),
                i <= self.x_train@.len(),
                ds@.len() == i,
                forall|j: int| 0 <= j < i ==> measures(*distance, x[j], features@, #[trigger] ds@[j]),
            decreases self.x_train.len() - i,
        {
            let row = &self.x_train[i];
            let d: u64 = distance(row, features);
            proof {
                assert(x[i as int] == row@);
                assert(call_ensures(*distance, (row, features), d));
            }
            ds.push(d);
            i = i + 1;
        }
        ds
    }

    /// Predicts. `distance` measures, `average` averages targets; for a
    /// classification `bucket` rounds a target and `label` turns the bucket back
    /// into a target.
    pub fn predict<
        D: Fn(&Vec<u64>, &Vec<u64>) -> u64,
        A: Fn(&Vec<u64>) -> u64,
        B: Fn(u64) -> i64,
        L: Fn(i64) -> u64,
    >(&self, features: &Vec<u64>, distance: &D, average: &A, bucket: &B, label: &L) -> (r: u64)
        requires
            self@.can_predict(),
            forall|a: &Vec<u64>, b: &Vec<u64>| call_requires(*distance, (a, b)),
            forall|a: &Vec<u64>, b: &Vec<u64>, d: u64| #[trigger]
                call_ensures(*distance, (a, b), d) && self@.x.len() > 1 ==> !bits::is_nan(d),
            forall|v: &Vec<u64>| call_requires(*average, (v,)),
            forall|y: u64| call_requires(*bucket, (y,)),
            forall|b: i64| call_requires(*label, (b,)),
        ensures
            knn_predicts(self@, *distance, *average, *bucket, *label, features@, r),
    {
        let ds: Vec<u64> = self.distances(features, distance);
        let n: usize = self.x_train.len();
        let m: usize = if self.k < n {
            self.k
        } else {
            n
        };
        let near: Vec<usize> = find_closest(&ds, m);
        let mut targets: Vec<u64> = Vec::new();
        let mut i: usize = 0;
        while i < m
            invariant
                self@.can_predict(),
                closest(ds@, m as nat, near@),
                ds@.len() == self@.x.len(),
                i <= m,
                targets@.len() == i,
                forall|j: int| 0 <= j < i ==> #[trigger] targets@[j] == self@.y[near@[j] as int],
            decreases m - i,
        {
            assert(near@[i as int] < ds@.len());
            targets.push(self.y_train[near[i]]);
            i = i + 1;
        }
        proof {
            assert(targets@ =~= near_targets(self@.y, near@));
            assert(measures_all(*distance, self@.x, features@, ds@));
            assert(closest(ds@, self@.asked(), near@));
        }
        match self.task {
            KnnTask::Regression => {
                let v = &targets;
                let r: u64 = average(v);
                assert(call_ensures(*average, (v,), r));
                assert(is_made_of(*average, *bucket, *label, self.task, targets@, r));
                r
            },
            KnnTask::Classification => {
                let mut votes: Vec<i64> = Vec::new();
                let mut j: usize = 0;
                while j < targets.len()
                    invariant
                        forall|y: u64| call_requires(*bucket, (y,)),
                        j <= targets@.len(),
                        votes@.len() == j,
                        forall|x: int| 0 <= x < j ==> call_ensures(*bucket, (targets@[x],), #[trigger] votes@[x]),
                    decreases targets.len() - j,
                {
                    votes.push(bucket(targets[j]));
                    j = j + 1;
                }
                let winner: i64 = majority(&votes);
                let r: u64 = label(winner);
                proof {
                    assert(are_buckets(*bucket, targets@, votes@));
                    assert(wins(votes@, winner));
                    assert(is_made_of(*average, *bucket, *label, self.task, targets@, r));
                }
                r
            },
        }
    }

    pub fn k(&self) -> (k: usize)
        ensures
            k == self@.k,
    {
        self.k
    }

    pub fn n_samples(&self) -> (n: usize)
        ensures
            n == self@.x.len(),
    {
        self.x_train.len()
    }

    pub fn n_features(&self) -> (n: usize)
        ensures
            n == width(self@.x),
    {
        if self.x_train.len() > 0 {
            assert(self@.x[0] == self.x_train@[0]@);
            self.x_train[0].len()
        } else {
            0
        }
    }
}

/// The length of the first row; zero where there is none.
pub open spec fn width(x: Seq<Seq<u64>>) -> nat {
    if x.len() > 0 {
        x[0].len()
    } else {
        0
    }
}

/// The byte that stands for a task.
pub open spec fn task_byte(task: KnnTask) -> u8 {
    match task {
        KnnTask::Regression => 0,
        KnnTask::Classification => 1,
    }
}

/// The bytes that keep a model: the number of samples asked, the task, the sizes,
/// the features row by row, and the targets.
pub open spec fn knn_bytes(m: KnnView) -> Seq<u8> {
    bytes::le_bytes(m.k, 4) + seq![task_byte(m.task)] + bytes::le_bytes(m.x.len(), 4) + bytes::le_bytes(
        width(m.x),
        4,
    ) + blob::rows_bytes(m.x, m.x.len()) + blob::doubles_bytes(m.y, m.y.len())
}

/// The model that some bytes keep; nothing where they keep none.
pub open spec fn knn_read(data: Seq<u8>) -> Option<KnnView> {
    let k = bytes::le_value(data.subrange(0, 4));
    let n = bytes::le_value(data.subrange(5, 9));
    let nf = bytes::le_value(data.subrange(9, 13));
    if data.len() < 13 || data[4] > 1 || data.len() < 13 + n * (8 * nf) + 8 * n {
        None
    } else {
        Some(
            KnnView {
                x: blob::rows_at(data, 13, n, nf),
                y: blob::doubles_at(data, (13 + n * (8 * nf)) as int, n),
                k,
                task: if data[4] == 0 {
                    KnnTask::Regression
                } else {
                    KnnTask::Classification
                },
            },
        )
    }
}

impl KnnModel {
    /// The bytes that keep the model.
    pub fn to_bytes(&self) -> (r: Vec<u8>)
        ensures
            r@ == knn_bytes(self@),
    {
        let mut out: Vec<u8> = Vec::new();
        push_le(&mut out, self.k as u64, 4);
        let task: u8 = match self.task {
            KnnTask::Regression => 0,
            KnnTask::Classification => 1,
        };
        out.push(task);
        push_le(&mut out, self.x_train.len() as u64, 4);
        push_le(&mut out, self.n_features() as u64, 4);
        push_rows(&mut out, &self.x_train);
        push_doubles(&mut out, &self.y_train);
        assert(out@ =~= knn_bytes(self@));
        out
    }

    /// Reads a model back from the bytes that keep it.
    pub fn from_bytes(data: &[u8]) -> (r: Option<Self>)
        ensures
            match r {
                Some(m) => knn_read(data@) == Some(m@),
                None => knn_read(data@) is None,
            },
    {
        let total: usize = data.len();
        if total < 13 {
            return None;
        }
        let k: u64 = read_le(data, 0, 4);
        let task: KnnTask = match data[4] {
            0 => KnnTask::Regression,
            1 => KnnTask::Classification,
            _ => {
                return None;
            },
        };
        let n: u64 = read_le(data, 5, 4);
        let nf: u64 = read_le(data, 9, 4);
        proof {
            bytes::lemma_word_ranges();
            bytes::lemma_le_value_bound(data@.subrange(0, 4));
            bytes::lemma_le_value_bound(data@.subrange(5, 9));
            bytes::lemma_le_value_bound(data@.subrange(9, 13));
        }
        proof {
            assert(n * (8 * nf) <= 0xffff_ffff * (8 * 0xffff_ffff) && 0 <= n * (8 * nf)) by (nonlinear_arith)
                requires
                    0 <= n <= 0xffff_ffff,
                    0 <= nf <= 0xffff_ffff,
            ;
        }
        let table: u128 = (n as u128) * (8 * (nf as u128));
        if (total as u128) < 13 + table + 8 * (n as u128) {
            return None;
        }
        let rows: usize = n as usize;
        let cols: usize = nf as usize;
        proof {
            assert(nf > 0 && n > 0 ==> 8 * nf <= n * (8 * nf)) by (nonlinear_arith)
                requires
                    0 <= n,
                    0 <= nf,
            ;
            assert(rows == n);
        }
        if rows == 0 {
            assert(0 * (8 * nf) == 0) by (nonlinear_arith);
            let x_train: Vec<Vec<u64>> = Vec::new();
            let y_train: Vec<u64> = Vec::new();
            let m = KnnModel { x_train, y_train, k: k as usize, task };
            proof {
                assert(json::rows_of(m.x_train@) =~= blob::rows_at(data@, 13, 0, nf as nat));
                assert(m.y_train@ =~= blob::doubles_at(data@, 13, 0));
                assert(m@ =~= knn_read(data@)->0);
            }
            return Some(m);
        }
        assert(cols == nf);
        let x_train: Vec<Vec<u64>> = read_rows(data, 13, rows, cols);
        let y_train: Vec<u64> = read_doubles(data, 13 + (table as usize), rows);
        let m = KnnModel { x_train, y_train, k: k as usize, task };
        assert(m@ =~= knn_read(data@)->0);
        Some(m)
    }
}

/// A model whose sizes fit the format: every row has the same length, every
/// sample has a target, and the sizes fit four bytes.
pub open spec fn fits_format(m: KnnView) -> bool {
    &&& m.k < 0x1_0000_0000
    &&& m.x.len() < 0x1_0000_0000
    &&& width(m.x) < 0x1_0000_0000
    &&& blob::all_wide(m.x, width(m.x))
    &&& m.y.len() == m.x.len()
}

/// Keeping a model and reading it back gives the same model.
pub proof fn law_knn_reads_back(m: KnnView)
    requires
        fits_format(m),
    ensures
        knn_read(knn_bytes(m)) == Some(m),
{
    let data = knn_bytes(m);
    let n = m.x.len();
    let nf = width(m.x);
    bytes::lemma_word_ranges();
    bytes::lemma_le_bytes_len(m.k, 4);
    bytes::lemma_le_bytes_len(n, 4);
    bytes::lemma_le_bytes_len(nf, 4);
    bytes::lemma_le_value_of_bytes(m.k, 4);
    bytes::lemma_le_value_of_bytes(n, 4);
    bytes::lemma_le_value_of_bytes(nf, 4);
    blob::lemma_rows_len(m.x, nf, n);
    blob::lemma_doubles_len(m.y, n);
    assert(data.subrange(0, 4) =~= bytes::le_bytes(m.k, 4));
    assert(data.subrange(5, 9) =~= bytes::le_bytes(n, 4));
    assert(data.subrange(9, 13) =~= bytes::le_bytes(nf, 4));
    assert(data[4] == task_byte(m.task));
    let table = n * (8 * nf);
    assert(data.subrange(13, 13 + table as int) =~= blob::rows_bytes(m.x, n));
    blob::lemma_rows_read_back(data, 13, m.x, nf);
    assert(data.subrange(13 + table as int, 13 + table as int + 8 * n) =~= blob::doubles_bytes(m.y, n));
    blob::lemma_doubles_read_back(data, 13 + table as int, m.y);
    assert(knn_read(data)->0 =~= m);
}

/// A model with its metadata.
#[derive(Debug, PartialEq, Eq)]
pub struct KnnMlModel {
    pub metadata: ModelMetadata,
    pub inner: KnnModel,
}

/// The name of a task.
pub open spec fn task_name(task: KnnTask) -> Seq<char> {
    match task {
        KnnTask::Regression => "regression"@,
        KnnTask::Classification => "classification"@,
    }
}

/// The metadata of a model that was read back.
pub open spec fn is_knn_metadata(meta: ModelMetadata, m: KnnView) -> bool {
    &&& meta.algorithm == (match m.task {
        KnnTask::Regression => Algorithm::KNNRegressor,
        KnnTask::Classification => Algorithm::KNNClassifier,
    })
    &&& meta.num_features == width(m.x)
    &&& meta.num_samples == m.x.len()
    &&& meta.r_squared is None
    &&& meta.mse is None
    &&& meta.coefficients_count == m.x.len()
    &&& meta.hyperparameters_json@ == "{\"k\":"@ + text::decimal(m.k) + ",\"task\":\""@ + task_name(m.task) + "\"}"@
}

impl KnnMlModel {
    /// Predicts by the model.
    pub fn predict<
        D: Fn(&Vec<u64>, &Vec<u64>) -> u64,
        A: Fn(&Vec<u64>) -> u64,
        B: Fn(u64) -> i64,
        L: Fn(i64) -> u64,
    >(&self, features: &Vec<u64>, distance: &D, average: &A, bucket: &B, label: &L) -> (r: Result<u64, ModelError>)
        requires
            self.inner@.can_predict(),
            forall|a: &Vec<u64>, b: &Vec<u64>| call_requires(*distance, (a, b)),
            forall|a: &Vec<u64>, b: &Vec<u64>, d: u64| #[trigger]
                call_ensures(*distance, (a, b), d) && self.inner@.x.len() > 1 ==> !bits::is_nan(d),
            forall|v: &Vec<u64>| call_requires(*average, (v,)),
            forall|y: u64| call_requires(*bucket, (y,)),
            forall|b: i64| call_requires(*label, (b,)),
        ensures
            r matches Ok(p) && knn_predicts(self.inner@, *distance, *average, *bucket, *label, features@, p),
    {
        Ok(self.inner.predict(features, distance, average, bucket, label))
    }

    /// The bytes that keep the model.
    pub fn serialize(&self) -> (r: Vec<u8>)
        ensures
            r@ == knn_bytes(self.inner@),
    {
        self.inner.to_bytes()
    }

    /// Reads a model back from the bytes that keep it.
    pub fn deserialize(blob: &[u8]) -> (r: Result<Self, ModelError>)
        ensures
            match knn_read(blob@) {
                Some(m) => r matches Ok(model) && model.inner@ == m && is_knn_metadata(model.metadata, m),
                None => r matches Err(ModelError::Serialization(e)) && e@ == "Failed to decode KNN model"@,
            },
    {
        let inner: KnnModel = match KnnModel::from_bytes(blob) {
            Some(inner) => inner,
            None => {
                return Err(ModelError::Serialization("Failed to decode KNN model".to_owned()));
            },
        };
        let algorithm: Algorithm = match inner.task {
            KnnTask::Regression => Algorithm::KNNRegressor,
            KnnTask::Classification => Algorithm::KNNClassifier,
        };
        let mut hyperparameters_json: String = "{\"k\":".to_owned();
        push_decimal(&mut hyperparameters_json, inner.k as u64);
        hyperparameters_json.append(",\"task\":\"");
        match inner.task {
            KnnTask::Regression => {
                hyperparameters_json.append("regression");
            },
            KnnTask::Classification => {
                hyperparameters_json.append("classification");
            },
        }
        hyperparameters_json.append("\"}");
        let metadata = ModelMetadata {
            algorithm,
            num_features: inner.n_features(),
            num_samples: inner.n_samples(),
            r_squared: None,
            mse: None,
            coefficients_count: inner.n_samples(),
            hyperparameters_json,
        };
        Ok(KnnMlModel { metadata, inner })
    }
}

} // verus!
