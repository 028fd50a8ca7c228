//! Where things stand in byte strings.

use vstd::prelude::*;
use crate::blob;
use crate::bytes;
use crate::footer::build_footer;
use crate::json;
use crate::model::knn;
use crate::model::knn::KnnModel;
use crate::model::lda::LdaModel;
use crate::model::naive_bayes;
use crate::model::naive_bayes::NaiveBayesModel;
use crate::model::pca::PcaModel;
use crate::model::projection;
use crate::model::tree;
use crate::model::tree::{serialize_forest, TreeModel};
use crate::snapshot;
use crate::snapshot::{hash_training_data, to_hex};

verus! {

/// The number in four bytes, the lowest one first.
pub open spec fn word_at(data: Seq<u8>, at: int) -> int {
    data[at] + 0x100 * data[at + 1] + 0x1_0000 * data[at + 2] + 0x100_0000 * data[at + 3]
}

/// The number in eight bytes, the lowest one first.
pub open spec fn long_at(data: Seq<u8>, at: int) -> int {
    word_at(data, at) + 0x1_0000_0000 * word_at(data, at + 4)
}

/// The numbers stand from a place on, eight bytes each.
pub open spec fn holds_doubles(data: Seq<u8>, at: int, v: Seq<u64>) -> bool {
    &&& 0 <= at
    &&& at + 8 * v.len() <= data.len()
    &&& forall|i: int| 0 <= i < v.len() ==> long_at(data, at + 8 * i) == #[trigger] v[i]
}

/// The rows stand from a place on, one after the other, all of the same width.
pub open spec fn holds_table(data: Seq<u8>, at: int, rows: Seq<Vec<u64>>, cols: nat) -> bool {
    forall|r: int|
        0 <= r < rows.len() ==> (#[trigger] rows[r])@.len() == cols && holds_doubles(data, at + r * (8 * cols), rows[r]@)
}

/// Four bytes are read as the number that they hold.
pub proof fn lemma_word(data: Seq<u8>, at: int)
    requires
        0 <= at,
        at + 4 <= data.len(),
    ensures
        bytes::le_value(data.subrange(at, at + 4)) == word_at(data, at),
{
    let s = data.subrange(at, at + 4);
    reveal_with_fuel(bytes::le_value, 5);
    assert(s.skip(1).skip(1).skip(1).skip(1).len() == 0);
    assert(s.skip(1).skip(1).skip(1)[0] == data[at + 3]);
    assert(s.skip(1).skip(1)[0] == data[at + 2]);
    assert(s.skip(1)[0] == data[at + 1]);
    assert(s[0] == data[at]);
}

proof fn lemma_long(data: Seq<u8>, at: int)
    requires
        0 <= at,
        at + 8 <= data.len(),
    ensures
        bytes::le_value(data.subrange(at, at + 8)) == long_at(data, at),
        blob::double_at(data, at) == long_at(data, at),
{
    let s = data.subrange(at, at + 8);
    let high = data.subrange(at + 4, at + 8);
    lemma_word(data, at + 4);
    reveal_with_fuel(bytes::le_value, 5);
    assert(s.skip(1).skip(1).skip(1).skip(1) =~= high);
    assert(s.skip(1).skip(1).skip(1)[0] == data[at + 3]);
    assert(s.skip(1).skip(1)[0] == data[at + 2]);
    assert(s.skip(1)[0] == data[at + 1]);
    assert(s[0] == data[at]);
    bytes::lemma_le_value_bound(s);
    bytes::lemma_word_ranges();
}

proof fn lemma_doubles(data: Seq<u8>, at: int, v: Seq<u64>)
    requires
        0 <= at,
        at + 8 * v.len() <= data.len(),
        v == blob::doubles_at(data, at, v.len()),
    ensures
        holds_doubles(data, at, v),
{
    assert forall|i: int| 0 <= i < v.len() implies long_at(data, at + 8 * i) == #[trigger] v[i] by {
        lemma_long(data, at + 8 * i);
        assert(v[i] == blob::doubles_at(data, at, v.len())[i]);
    }
}

proof fn lemma_table(data: Seq<u8>, at: int, rows: Seq<Vec<u64>>, cols: nat)
    requires
        0 <= at,
        at + rows.len() * (8 * cols) <= data.len(),
        json::rows_of(rows) == blob::rows_at(data, at, rows.len(), cols),
    ensures
        holds_table(data, at, rows, cols),
{
    assert forall|r: int| 0 <= r < rows.len() implies (#[trigger] rows[r])@.len() == cols && holds_doubles(
        data,
        at + r * (8 * cols),
        rows[r]@,
    ) by {
        assert(json::rows_of(rows)[r] == blob::rows_at(data, at, rows.len(), cols)[r]);
        assert(0 <= r * (8 * cols) && r * (8 * cols) + 8 * cols <= rows.len() * (8 * cols)) by (nonlinear_arith)
            requires
                0 <= r < rows.len(),
        ;
        lemma_doubles(data, at + r * (8 * cols), rows[r]@);
    }
}

/// A model of neighbours in bytes: the number of neighbours, the task, the number of
/// rows and of columns, the rows and the targets.
pub open spec fn is_knn_blob(data: Seq<u8>, m: KnnModel) -> bool {
    let n = m.x_train@.len();
    let nf = word_at(data, 9);
    &&& data.len() >= 13
    &&& word_at(data, 0) == m.k
    &&& data[4] == (if m.task is Regression {
        0
    } else {
        1int
    })
    &&& word_at(data, 5) == n
    &&& nf >= 0
    &&& holds_table(data, 13, m.x_train@, nf as nat)
    &&& m.y_train@.len() == n
    &&& holds_doubles(data, 13 + n * (8 * nf), m.y_train@)
}

/// The parts of a model of neighbours are read from their places.
pub proof fn lemma_knn_blob(data: Seq<u8>, m: KnnModel)
    requires
        knn::knn_read(data) == Some(m@),
    ensures
        is_knn_blob(data, m),
{
    lemma_word(data, 0);
    lemma_word(data, 5);
    lemma_word(data, 9);
    let n = m.x_train@.len();
    let nf = word_at(data, 9) as nat;
    assert(m@.x.len() == n);
    assert(0 <= n * (8 * nf)) by (nonlinear_arith);
    lemma_table(data, 13, m.x_train@, nf);
    lemma_doubles(data, 13 + n * (8 * nf) as int, m.y_train@);
}

/// A model of neighbours is read from where its parts stand.
pub proof fn law_neighbours_are_read(data: &[u8], m: KnnModel)
    requires
        call_ensures(KnnModel::from_bytes, (data,), Some(m)),
    ensures
        is_knn_blob(data@, m),
{
    lemma_knn_blob(data@, m);
}

/// A model of neighbours is written so that its parts stand in their places.
pub proof fn law_neighbours_are_written(m: &KnnModel, r: Vec<u8>)
    requires
        call_ensures(KnnModel::to_bytes, (m,), r),
        knn::fits_format(m@),
    ensures
        is_knn_blob(r@, *m),
{
    knn::law_knn_reads_back(m@);
    lemma_knn_blob(r@, *m);
}

/// A model of classes in bytes: the number of classes and of features, the labels,
/// the priors, the means and the variances.
pub open spec fn is_nb_blob(data: Seq<u8>, m: NaiveBayesModel) -> bool {
    let n = m.classes@.len();
    let nf = word_at(data, 4);
    let table = n * (8 * nf);
    &&& data.len() >= 8
    &&& word_at(data, 0) == n
    &&& nf >= 0
    &&& holds_doubles(data, 8, m.classes@)
    &&& m.priors@.len() == n
    &&& holds_doubles(data, (8 + 8 * n) as int, m.priors@)
    &&& m.means@.len() == n
    &&& holds_table(data, (8 + 16 * n) as int, m.means@, nf as nat)
    &&& m.vars@.len() == n
    &&& holds_table(data, 8 + 16 * n + table, m.vars@, nf as nat)
}

/// The parts of a model of classes are read from their places.
pub proof fn lemma_nb_blob(data: Seq<u8>, m: NaiveBayesModel)
    requires
        naive_bayes::nb_read(data) == Some(m@),
    ensures
        is_nb_blob(data, m),
{
    lemma_word(data, 0);
    lemma_word(data, 4);
    let n = m.classes@.len();
    let nf = word_at(data, 4) as nat;
    let table = n * (8 * nf);
    assert(0 <= table) by (nonlinear_arith)
        requires
            table == n * (8 * nf),
    ;
    assert(m@.means.len() == m.means@.len() && m@.vars.len() == m.vars@.len());
    lemma_doubles(data, 8, m.classes@);
    lemma_doubles(data, 8 + 8 * n as int, m.priors@);
    lemma_table(data, 8 + 16 * n as int, m.means@, nf);
    lemma_table(data, 8 + 16 * n as int + table, m.vars@, nf);
}

/// A model of classes is read from where its parts stand.
pub proof fn law_classes_are_read(data: &[u8], m: NaiveBayesModel)
    requires
        call_ensures(NaiveBayesModel::from_bytes, (data,), Some(m)),
    ensures
        is_nb_blob(data@, m),
{
    lemma_nb_blob(data@, m);
}

/// A model of classes is written so that its parts stand in their places.
pub proof fn law_classes_are_written(m: &NaiveBayesModel, r: Vec<u8>)
    requires
        call_ensures(NaiveBayesModel::to_bytes, (m,), r),
        naive_bayes::nb_fits_format(m@),
    ensures
        is_nb_blob(r@, *m),
{
    naive_bayes::law_nb_reads_back(m@);
    lemma_nb_blob(r@, *m);
}

/// Directions in bytes: the number of features and of directions, the mean, the
/// directions and a number for each of them.
pub open spec fn is_projection_blob(data: Seq<u8>, mean: Seq<u64>, components: Seq<Vec<u64>>, weights: Seq<u64>) -> bool {
    let nf = mean.len();
    let nc = components.len();
    &&& data.len() >= 8
    &&& word_at(data, 0) == nf
    &&& word_at(data, 4) == nc
    &&& holds_doubles(data, 8, mean)
    &&& holds_table(data, (8 + 8 * nf) as int, components, nf)
    &&& weights.len() == nc
    &&& holds_doubles(data, (8 + 8 * nf + nc * (8 * nf)) as int, weights)
}

/// Directions are read from their places.
pub proof fn lemma_projection_blob(data: Seq<u8>, mean: Seq<u64>, components: Seq<Vec<u64>>, weights: Seq<u64>)
    requires
        projection::projection_read(data) == Some(
            projection::ProjectionView { mean, components: json::rows_of(components), weights },
        ),
    ensures
        is_projection_blob(data, mean, components, weights),
{
    lemma_word(data, 0);
    lemma_word(data, 4);
    let nf = mean.len();
    let nc = components.len();
    assert(json::rows_of(components).len() == nc);
    assert(0 <= nc * (8 * nf)) by (nonlinear_arith);
    lemma_doubles(data, 8, mean);
    lemma_table(data, 8 + 8 * nf as int, components, nf);
    lemma_doubles(data, 8 + 8 * nf as int + nc * (8 * nf), weights);
}

/// Principal directions are read from where they stand.
pub proof fn law_principal_directions_are_read(data: &[u8], m: PcaModel)
    requires
        call_ensures(PcaModel::from_bytes, (data,), Some(m)),
    ensures
        is_projection_blob(data@, m.mean@, m.components@, m.explained_variance_ratio@),
{
    lemma_projection_blob(data@, m.mean@, m.components@, m.explained_variance_ratio@);
}

/// Principal directions are written so that they stand in their places.
pub proof fn law_principal_directions_are_written(m: &PcaModel, r: Vec<u8>)
    requires
        call_ensures(PcaModel::to_bytes, (m,), r),
        projection::projection_fits(m@),
    ensures
        is_projection_blob(r@, m.mean@, m.components@, m.explained_variance_ratio@),
{
    projection::law_projection_reads_back(m@);
    lemma_projection_blob(r@, m.mean@, m.components@, m.explained_variance_ratio@);
}

/// Discriminating directions are read from where they stand.
pub proof fn law_discriminating_directions_are_read(data: &[u8], m: LdaModel)
    requires
        call_ensures(LdaModel::from_bytes, (data,), Some(m)),
    ensures
        is_projection_blob(data@, m.mean@, m.components@, m.eigenvalues@),
{
    lemma_projection_blob(data@, m.mean@, m.components@, m.eigenvalues@);
}

/// Discriminating directions are written so that they stand in their places.
pub proof fn law_discriminating_directions_are_written(m: &LdaModel, r: Vec<u8>)
    requires
        call_ensures(LdaModel::to_bytes, (m,), r),
        projection::projection_fits(m@),
    ensures
        is_projection_blob(r@, m.mean@, m.components@, m.eigenvalues@),
{
    projection::law_projection_reads_back(m@);
    lemma_projection_blob(r@, m.mean@, m.components@, m.eigenvalues@);
}

/// A tree is the number of its features and then its own bytes, and is read so.
pub proof fn law_tree_follows_its_width<T, D: Fn(&[u8]) -> Option<T>>(
    model: &TreeModel<T>,
    own: &Vec<u8>,
    r: Vec<u8>,
    data: &[u8],
    decode: &D,
    m: TreeModel<T>,
    reads: spec_fn(Seq<u8>) -> Option<T>,
)
    requires
        call_ensures(TreeModel::<T>::serialize, (model, own), r),
        model.metadata.num_features < 0x1_0000_0000,
        call_ensures(TreeModel::<T>::deserialize::<D>, (data, decode), Ok(m)),
        forall|s: &[u8], t: Option<T>| #[trigger] call_ensures(*decode, (s,), t) ==> t == reads(s@),
    ensures
        word_at(r@, 0) == model.metadata.num_features,
        r@.skip(4) == own@,
        word_at(data@, 0) == m.metadata.num_features,
        reads(data@.skip(4)) == Some(m.tree),
{
    let nf = model.metadata.num_features as nat;
    bytes::lemma_le_bytes_len(nf, 4);
    bytes::lemma_word_ranges();
    bytes::lemma_le_value_of_bytes(nf, 4);
    lemma_word(r@, 0);
    assert(r@.subrange(0, 4) =~= bytes::le_bytes(nf, 4));
    assert(r@.skip(4) =~= own@);
    lemma_word(data@, 0);
    let rest = data@.subrange(4, data@.len() as int);
    assert(rest =~= data@.skip(4));
    assert(tree::decodes(*decode, rest, Some(m.tree)));
    let s = choose|s: &[u8]| s@ == rest && #[trigger] call_ensures(*decode, (s,), Some(m.tree));
}

/// Tree `i` of a forest starts at `at`: a length and then its bytes.
pub open spec fn stands_at(data: Seq<u8>, at: int, own: Seq<u8>) -> bool {
    &&& 0 <= at
    &&& at + 4 + own.len() <= data.len()
    &&& word_at(data, at) == own.len()
    &&& data.subrange(at + 4, at + 4 + own.len()) == own
}

proof fn lemma_frames(trees: Seq<Vec<u8>>, n: nat) -> (at: Seq<int>)
    requires
        n <= trees.len(),
        forall|i: int| 0 <= i < trees.len() ==> (#[trigger] trees[i])@.len() < 0x1_0000_0000,
    ensures
        at.len() == n + 1,
        at[0] == 0,
        at[n as int] == tree::frames_bytes(tree::tree_blobs(trees), n).len(),
        forall|i: int|
            #![trigger at[i]]
            0 <= i < n ==> stands_at(tree::frames_bytes(tree::tree_blobs(trees), n), at[i], trees[i]@) && at[i + 1]
                == at[i] + 4 + trees[i]@.len(),
    decreases n,
{
    let blobs = tree::tree_blobs(trees);
    if n == 0 {
        seq![0int]
    } else {
        let m = (n - 1) as nat;
        let before = lemma_frames(trees, m);
        let old_data = tree::frames_bytes(blobs, m);
        let data = tree::frames_bytes(blobs, n);
        let own = trees[m as int]@;
        assert(blobs[m as int] == own);
        let head = bytes::le_bytes(own.len(), 4);
        bytes::lemma_le_bytes_len(own.len(), 4);
        bytes::lemma_word_ranges();
        bytes::lemma_le_value_of_bytes(own.len(), 4);
        assert(data == old_data + head + own);
        let start = old_data.len() as int;
        assert(data.subrange(start, start + 4) =~= head);
        lemma_word(data, start);
        assert(data.subrange(start + 4, start + 4 + own.len()) =~= own);
        let at = before.push(data.len() as int);
        assert forall|i: int| #![trigger at[i]] 0 <= i < n implies stands_at(data, at[i], trees[i]@) && at[i + 1]
            == at[i] + 4 + trees[i]@.len() by {
            if i < m {
                let p = before[i];
                let own_i = trees[i]@;
                assert(stands_at(old_data, p, own_i));
                assert(data.subrange(p + 4, p + 4 + own_i.len()) =~= old_data.subrange(p + 4, p + 4 + own_i.len()));
            }
        }
        at
    }
}

/// A forest is the number of its features and of its trees, and then the trees, one
/// after the other, each behind its length.
pub proof fn law_forest_is_its_trees(num_features: usize, trees: &Vec<Vec<u8>>, r: Vec<u8>) -> (at: Seq<int>)
    requires
        call_ensures(serialize_forest, (num_features, trees), r),
        num_features < 0x1_0000_0000,
        trees@.len() < 0x1_0000_0000,
        forall|i: int| 0 <= i < trees@.len() ==> (#[trigger] trees@[i])@.len() < 0x1_0000_0000,
    ensures
        word_at(r@, 0) == num_features,
        word_at(r@, 4) == trees@.len(),
        at.len() == trees@.len() + 1,
        at[0] == 8,
        at[trees@.len() as int] == r@.len(),
        forall|i: int|
            #![trigger at[i]]
            0 <= i < trees@.len() ==> stands_at(r@, at[i], trees@[i]@) && at[i + 1] == at[i] + 4 + trees@[i]@.len(),
{
    let nf = num_features as nat;
    let n = trees@.len();
    let frames = tree::frames_bytes(tree::tree_blobs(trees@), n);
    let inner = lemma_frames(trees@, n);
    bytes::lemma_le_bytes_len(nf, 4);
    bytes::lemma_le_bytes_len(n, 4);
    bytes::lemma_word_ranges();
    bytes::lemma_le_value_of_bytes(nf, 4);
    bytes::lemma_le_value_of_bytes(n, 4);
    assert(r@ == bytes::le_bytes(nf, 4) + bytes::le_bytes(n, 4) + frames);
    assert(r@.subrange(0, 4) =~= bytes::le_bytes(nf, 4));
    assert(r@.subrange(4, 8) =~= bytes::le_bytes(n, 4));
    lemma_word(r@, 0);
    lemma_word(r@, 4);
    let at = Seq::new(n + 1, |i: int| inner[i] + 8);
    assert forall|i: int| #![trigger at[i]] 0 <= i < n implies stands_at(r@, at[i], trees@[i]@) && at[i + 1] == at[i] + 4
        + trees@[i]@.len() by {
        let p = inner[i];
        let own = trees@[i]@;
        assert(stands_at(frames, p, own));
        assert(r@.subrange(p + 12, p + 12 + own.len()) =~= frames.subrange(p + 4, p + 4 + own.len()));
    }
    at
}

/// The value of a digit of a byte in hexadecimal.
pub open spec fn hex_value(c: char) -> int {
    if '0' <= c && c <= '9' {
        c as int - '0' as int
    } else {
        c as int - 'a' as int + 10
    }
}

/// The character is a small hexadecimal digit.
pub open spec fn is_hex(c: char) -> bool {
    ('0' <= c && c <= '9') || ('a' <= c && c <= 'f')
}

/// The text has two hexadecimal digits for each byte, the higher one first.
pub open spec fn spells(s: Seq<char>, data: Seq<u8>) -> bool {
    &&& s.len() == 2 * data.len()
    &&& forall|i: int|
        #![trigger data[i]]
        0 <= i < data.len() ==> is_hex(s[2 * i]) && is_hex(s[2 * i + 1]) && data[i] == 16 * hex_value(s[2 * i])
            + hex_value(s[2 * i + 1])
}

proof fn lemma_hex(data: Seq<u8>)
    ensures
        spells(snapshot::hex_text(data), data),
{
    let s = snapshot::hex_text(data);
    assert forall|i: int| #![trigger data[i]] 0 <= i < data.len() implies is_hex(s[2 * i]) && is_hex(s[2 * i + 1])
        && data[i] == 16 * hex_value(s[2 * i]) + hex_value(s[2 * i + 1]) by {
        assert((2 * i) / 2 == i && (2 * i) % 2 == 0);
        assert((2 * i + 1) / 2 == i && (2 * i + 1) % 2 == 1);
        let b = data[i];
        assert(b == 16 * (b / 16) + b % 16);
    }
}

/// Bytes are spelled in hexadecimal.
pub proof fn law_bytes_are_spelled(data: &Vec<u8>, r: String)
    requires
        call_ensures(to_hex, (data,), r),
    ensures
        spells(r@, data@),
{
    lemma_hex(data@);
}

/// The hash of training data is that of the rows and then the targets, eight bytes
/// for each number.
pub proof fn law_hash_is_of_rows_and_targets(x: &Vec<Vec<u64>>, y: &Vec<u64>, r: String, cols: nat) -> (data: Seq<u8>)
    requires
        call_ensures(hash_training_data, (x, y), r),
        forall|i: int| 0 <= i < x@.len() ==> (#[trigger] x@[i])@.len() == cols,
    ensures
        spells(r@, snapshot::sha256_digest(data)),
        data.len() == x@.len() * (8 * cols) + 8 * y@.len(),
        holds_table(data, 0, x@, cols),
        holds_doubles(data, (x@.len() * (8 * cols)) as int, y@),
{
    let rows = json::rows_of(x@);
    let n = x@.len();
    let data = snapshot::training_bytes(rows, y@);
    lemma_hex(snapshot::sha256_digest(data));
    assert(blob::all_wide(rows, cols));
    blob::lemma_rows_len(rows, cols, n);
    blob::lemma_doubles_len(y@, y@.len());
    let first = blob::rows_bytes(rows, n);
    let second = blob::doubles_bytes(y@, y@.len());
    let at = first.len() as int;
    assert(data.subrange(0, at) =~= first);
    assert(data.subrange(at, at + 8 * y@.len()) =~= second);
    blob::lemma_rows_read_back(data, 0, rows, cols);
    blob::lemma_doubles_read_back(data, at, y@);
    lemma_table(data, 0, x@, cols);
    lemma_doubles(data, at, y@);
    data
}

/// A footer has the beginning of the version in its first 31 bytes, that of the
/// platform in the 31 bytes from 32 on, and zeros elsewhere.
pub proof fn law_footer_has_two_fields(version: &[u8], platform: &[u8], footer: Vec<u8>)
    requires
        call_ensures(build_footer, (version, platform), footer),
    ensures
        footer@.len() == 352,
        forall|i: int|
            #![trigger footer@[i]]
            0 <= i < 352 ==> footer@[i] == (if i < 31 && i < version@.len() {
                version@[i]
            } else if 32 <= i < 63 && i - 32 < platform@.len() {
                platform@[i - 32]
            } else {
                0u8
            }),
{
}

} // verus!
