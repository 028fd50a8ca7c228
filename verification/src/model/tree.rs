//! Decision trees and forests: how they are kept. A tree itself is the trainer's;
//! the library frames the bytes of the trees.

use vstd::prelude::*;
use vstd::slice::slice_subrange;
use crate::bytes;
use crate::bytes::{push_le, read_le};
use crate::model::checked;
use crate::model::checked::predict_checked;
use crate::model::types::{Algorithm, ModelError, ModelMetadata};
use crate::text;
use crate::text::push_decimal;

verus! {

/// A decision tree.
#[derive(Debug, PartialEq, Eq)]
pub struct TreeModel<T> {
    pub metadata: ModelMetadata,
    pub tree: T,
}

/// The bytes that keep a tree: the number of features, then the trainer's bytes.
pub open spec fn tree_bytes(num_features: nat, tree: Seq<u8>) -> Seq<u8> {
    bytes::le_bytes(num_features, 4) + tree
}

/// `answer` is what the trainer makes of some bytes.
pub open spec fn decodes<T, D: Fn(&[u8]) -> Option<T>>(decode: D, data: Seq<u8>, answer: Option<T>) -> bool {
    exists|s: &[u8]| s@ == data && #[trigger] call_ensures(decode, (s,), answer)
}

/// Writes the trainer's bytes behind others.
fn push_bytes(out: &mut Vec<u8>, data: &Vec<u8>)
    ensures
        final(out)@ == old(out)@ + data@,
{
    let ghost before = out@;
    let mut i: usize = 0;
    assert(out@ =~= before + data@.take(0));
    while i < data.len()
        invariant
            i <= data@.len(),
            out@ == before + data@.take(i as int),
        decreases data.len() - i,
    {
        out.push(data[i]);
        i = i + 1;
        assert(out@ =~= before + data@.take(i as int));
    }
    assert(data@.take(i as int) =~= data@);
}

impl<T> TreeModel<T> {
    /// The model of a tree.
    pub fn new(tree: T, num_features: usize, num_samples: usize, max_depth: usize) -> (r: Self)
        ensures
            r.tree == tree,
            checked::describes(
                r.metadata,
                Algorithm::DecisionTreeRegressor,
                num_features as nat,
                num_samples as nat,
                None,
                None,
                0,
            ),
            r.metadata.hyperparameters_json@ == "{\"max_depth\":"@ + text::decimal(max_depth as nat) + "}"@,
    {
        let mut hyperparameters_json: String = "{\"max_depth\":".to_owned();
        push_decimal(&mut hyperparameters_json, max_depth as u64);
        hyperparameters_json.append("}");
        let metadata = ModelMetadata {
            algorithm: Algorithm::DecisionTreeRegressor,
            num_features,
            num_samples,
            r_squared: None,
            mse: None,
            coefficients_count: 0,
            hyperparameters_json,
        };
        TreeModel { metadata, tree }
    }

    /// Predicts. `ask` asks the tree.
    pub fn predict<P: Fn(&Vec<u64>) -> u64>(&self, features: &Vec<u64>, ask: &P) -> (r: Result<u64, ModelError>)
        requires
            forall|f: &Vec<u64>| f@.len() == self.metadata.num_features ==> call_requires(*ask, (f,)),
        ensures
            checked::checked_outcome(self.metadata.num_features, *ask, features@, r),
    {
        predict_checked(self.metadata.num_features, features, ask)
    }

    /// The bytes that keep the model, given the trainer's bytes of the tree.
    pub fn serialize(&self, tree: &Vec<u8>) -> (r: Vec<u8>)
        ensures
            r@ == tree_bytes(self.metadata.num_features as nat, tree@),
    {
        let mut out: Vec<u8> = Vec::new();
        push_le(&mut out, self.metadata.num_features as u64, 4);
        push_bytes(&mut out, tree);
        assert(out@ =~= tree_bytes(self.metadata.num_features as nat, tree@));
        out
    }

    /// Reads a model back from the bytes that keep it. `decode` reads the tree.
    pub fn deserialize<D: Fn(&[u8]) -> Option<T>>(blob: &[u8], decode: &D) -> (r: Result<Self, ModelError>)
        requires
            forall|s: &[u8]| call_requires(*decode, (s,)),
        ensures
            tree_outcome(*decode, blob@, r),
    {
        let total: usize = blob.len();
        if total < 4 {
            return Err(ModelError::Serialization("Tree blob too short".to_owned()));
        }
        let num_features: u64 = read_le(blob, 0, 4);
        proof {
            bytes::lemma_word_ranges();
            bytes::lemma_le_value_bound(blob@.subrange(0, 4));
        }
        let s: &[u8] = slice_subrange(blob, 4, total);
        let answer: Option<T> = decode(s);
        proof {
            assert(call_ensures(*decode, (s,), answer));
            assert(decodes(*decode, blob@.subrange(4, blob@.len() as int), answer));
        }
        match answer {
            Some(tree) => {
                let metadata = ModelMetadata {
                    algorithm: Algorithm::DecisionTreeRegressor,
                    num_features: num_features as usize,
                    num_samples: 0,
                    r_squared: None,
                    mse: None,
                    coefficients_count: 0,
                    hyperparameters_json: "{}".to_owned(),
                };
                Ok(TreeModel { metadata, tree })
            },
            None => Err(ModelError::Serialization("Failed to decode decision tree".to_owned())),
        }
    }
}

/// What reading a tree back gives.
pub open spec fn tree_outcome<T, D: Fn(&[u8]) -> Option<T>>(
    decode: D,
    data: Seq<u8>,
    r: Result<TreeModel<T>, ModelError>,
) -> bool {
    if data.len() < 4 {
        r matches Err(ModelError::Serialization(e)) && e@ == "Tree blob too short"@
    } else {
        let rest = data.subrange(4, data.len() as int);
        match r {
            Ok(m) => decodes(decode, rest, Some(m.tree)) && checked::describes(
                m.metadata,
                Algorithm::DecisionTreeRegressor,
                bytes::le_value(data.subrange(0, 4)),
                0,
                None,
                None,
                0,
            ) && m.metadata.hyperparameters_json@ == "{}"@,
            Err(e) => decodes(decode, rest, None::<T>) && (e matches ModelError::Serialization(message) && message@
                == "Failed to decode decision tree"@),
        }
    }
}

/// The frame of a tree that was written is read back: the number of features and
/// the trainer's bytes.
pub proof fn law_tree_frame_reads_back(num_features: nat, tree: Seq<u8>)
    requires
        num_features < 0x1_0000_0000,
    ensures
        ({
            let data = tree_bytes(num_features, tree);
            &&& data.len() >= 4
            &&& bytes::le_value(data.subrange(0, 4)) == num_features
            &&& data.subrange(4, data.len() as int) == tree
        }),
{
    let data = tree_bytes(num_features, tree);
    bytes::lemma_word_ranges();
    bytes::lemma_le_bytes_len(num_features, 4);
    bytes::lemma_le_value_of_bytes(num_features, 4);
    assert(data.subrange(0, 4) =~= bytes::le_bytes(num_features, 4));
    assert(data.subrange(4, data.len() as int) =~= tree);
}

/// A random forest.
#[derive(Debug, PartialEq, Eq)]
pub struct ForestModel<T> {
    pub metadata: ModelMetadata,
    pub trees: Vec<T>,
}

/// The frames of the first `n` trees: the length of each, then its bytes.
pub open spec fn frames_bytes(trees: Seq<Seq<u8>>, n: nat) -> Seq<u8>
    decreases n,
{
    if n == 0 {
        Seq::empty()
    } else {
        frames_bytes(trees, (n - 1) as nat) + bytes::le_bytes(trees[n - 1].len(), 4) + trees[n - 1]
    }
}

/// The bytes that keep a forest: the number of features, the number of trees, and
/// a frame for each tree.
pub open spec fn forest_bytes(num_features: nat, trees: Seq<Seq<u8>>) -> Seq<u8> {
    bytes::le_bytes(num_features, 4) + bytes::le_bytes(trees.len(), 4) + frames_bytes(trees, trees.len())
}

/// The length that the frame at a position gives.
pub open spec fn frame_len(data: Seq<u8>, at: int) -> nat {
    bytes::le_value(data.subrange(at, at + 4))
}

/// Where the frame of tree `i` starts, as far as all frames before it are whole.
pub open spec fn frame_start(data: Seq<u8>, i: nat) -> Option<int>
    decreases i,
{
    if i == 0 {
        Some(8)
    } else {
        match frame_start(data, (i - 1) as nat) {
            Some(at) => if frame_problem(data, at) is None {
                Some(at + 4 + frame_len(data, at))
            } else {
                None
            },
            None => None,
        }
    }
}

/// What is wrong with the frame at a position, if anything.
pub open spec fn frame_problem(data: Seq<u8>, at: int) -> Option<Seq<char>> {
    if at + 4 > data.len() {
        Some("Forest blob truncated"@)
    } else if at + 4 + frame_len(data, at) > data.len() {
        Some("Forest tree data truncated"@)
    } else {
        None
    }
}

/// The trainer's bytes in the frame at a position.
pub open spec fn framed(data: Seq<u8>, at: int) -> Seq<u8> {
    data.subrange(at + 4, at + 4 + frame_len(data, at))
}

/// Tree `i` was read from its frame.
pub open spec fn tree_read<T, D: Fn(&[u8]) -> Option<T>>(decode: D, data: Seq<u8>, i: nat, tree: T) -> bool {
    match frame_start(data, i) {
        Some(at) => frame_problem(data, at) is None && decodes(decode, framed(data, at), Some(tree)),
        None => false,
    }
}

/// Tree `i` can be read from its frame.
pub open spec fn is_readable<T, D: Fn(&[u8]) -> Option<T>>(decode: D, data: Seq<u8>, i: nat) -> bool {
    exists|tree: T| #[trigger] tree_read(decode, data, i, tree)
}

/// The message tells what is wrong with tree `i`: its frame is not whole, or the
/// trainer cannot read it.
pub open spec fn tree_fails<T, D: Fn(&[u8]) -> Option<T>>(decode: D, data: Seq<u8>, i: nat, e: Seq<char>) -> bool {
    match frame_start(data, i) {
        Some(at) => match frame_problem(data, at) {
            Some(message) => e == message,
            None => decodes(decode, framed(data, at), None::<T>) && e == "Failed to decode forest tree"@,
        },
        None => false,
    }
}

/// What reading a forest back gives: all its trees, or what is wrong with the
/// first tree with which anything is.
pub open spec fn forest_outcome<T, D: Fn(&[u8]) -> Option<T>>(
    decode: D,
    data: Seq<u8>,
    r: Result<ForestModel<T>, ModelError>,
) -> bool {
    if data.len() < 8 {
        r matches Err(ModelError::Serialization(e)) && e@ == "Forest blob too short"@
    } else {
        let count = bytes::le_value(data.subrange(4, 8));
        match r {
            Ok(m) => {
                &&& m.trees@.len() == count
                &&& forall|i: nat| #![trigger m.trees@[i as int]] i < count ==> tree_read(decode, data, i, m.trees@[i as int])
                &&& checked::describes(
                    m.metadata,
                    Algorithm::RandomForestRegressor,
                    bytes::le_value(data.subrange(0, 4)),
                    0,
                    None,
                    None,
                    count,
                )
                &&& m.metadata.hyperparameters_json@ == "{}"@
            },
            Err(e) => e matches ModelError::Serialization(message) && forest_fails::<T, D>(decode, data, count, message@),
        }
    }
}

/// The message tells what is wrong with the first tree with which anything is.
pub open spec fn forest_fails<T, D: Fn(&[u8]) -> Option<T>>(
    decode: D,
    data: Seq<u8>,
    count: nat,
    message: Seq<char>,
) -> bool {
    exists|i: nat|
        i < count && #[trigger] tree_fails::<T, D>(decode, data, i, message) && forall|j: nat|
            j < i ==> #[trigger] is_readable::<T, D>(decode, data, j)
}

impl<T> ForestModel<T> {
    /// The model of some trees.
    pub fn new(
        trees: Vec<T>,
        num_features: usize,
        num_samples: usize,
        n_estimators: usize,
        max_depth: usize,
    ) -> (r: Self)
        ensures
            r.trees == trees,
            checked::describes(
                r.metadata,
                Algorithm::RandomForestRegressor,
                num_features as nat,
                num_samples as nat,
                None,
                None,
                n_estimators as nat,
            ),
            r.metadata.hyperparameters_json@ == "{\"max_depth\":"@ + text::decimal(max_depth as nat)
                + ",\"n_estimators\":"@ + text::decimal(n_estimators as nat) + "}"@,
    {
        let mut hyperparameters_json: String = "{\"max_depth\":".to_owned();
        push_decimal(&mut hyperparameters_json, max_depth as u64);
        hyperparameters_json.append(",\"n_estimators\":");
        push_decimal(&mut hyperparameters_json, n_estimators as u64);
        hyperparameters_json.append("}");
        let metadata = ModelMetadata {
            algorithm: Algorithm::RandomForestRegressor,
            num_features,
            num_samples,
            r_squared: None,
            mse: None,
            coefficients_count: n_estimators,
            hyperparameters_json,
        };
        ForestModel { metadata, trees }
    }

    /// Predicts. `ask` asks the trees.
    pub fn predict<P: Fn(&Vec<u64>) -> u64>(&self, features: &Vec<u64>, ask: &P) -> (r: Result<u64, ModelError>)
        requires
            forall|f: &Vec<u64>| f@.len() == self.metadata.num_features ==> call_requires(*ask, (f,)),
        ensures
            checked::checked_outcome(self.metadata.num_features, *ask, features@, r),
    {
        predict_checked(self.metadata.num_features, features, ask)
    }

    /// Reads a model back from the bytes that keep it. `decode` reads one tree.
    pub fn deserialize<D: Fn(&[u8]) -> Option<T>>(blob: &[u8], decode: &D) -> (r: Result<Self, ModelError>)
        requires
            forall|s: &[u8]| call_requires(*decode, (s,)),
        ensures
            forest_outcome(*decode, blob@, r),
    {
        let total: usize = blob.len();
        if total < 8 {
            return Err(ModelError::Serialization("Forest blob too short".to_owned()));
        }
        let num_features: u64 = read_le(blob, 0, 4);
        let count: u64 = read_le(blob, 4, 4);
        proof {
            bytes::lemma_word_ranges();
            bytes::lemma_le_value_bound(blob@.subrange(0, 4));
            bytes::lemma_le_value_bound(blob@.subrange(4, 8));
        }
        let mut trees: Vec<T> = Vec::new();
        let mut pos: usize = 8;
        let mut i: u64 = 0;
        while i < count
            invariant
                forall|s: &[u8]| call_requires(*decode, (s,)),
                total == blob@.len(),
                8 <= total,
                count == bytes::le_value(blob@.subrange(4, 8)),
                count <= 0xffff_ffff,
                i <= count,
                8 <= pos <= total,
                frame_start(blob@, i as nat) == Some(pos as int),
                trees@.len() == i,
                forall|j: nat|
                    #![trigger trees@[j as int]]
                    j < i ==> tree_read(*decode, blob@, j, trees@[j as int]),
            decreases count - i,
        {
            proof {
                assert forall|j: nat| j < i implies #[trigger] is_readable::<T, D>(*decode, blob@, j) by {
                    assert(tree_read(*decode, blob@, j, trees@[j as int]));
                }
            }
            if total - pos < 4 {
                let e: String = "Forest blob truncated".to_owned();
                assert(tree_fails::<T, D>(*decode, blob@, i as nat, e@));
                return Err(ModelError::Serialization(e));
            }
            let len: u64 = read_le(blob, pos, 4);
            if ((total - pos - 4) as u64) < len {
                let e: String = "Forest tree data truncated".to_owned();
                assert(tree_fails::<T, D>(*decode, blob@, i as nat, e@));
                return Err(ModelError::Serialization(e));
            }
            let size: usize = len as usize;
            let s: &[u8] = slice_subrange(blob, pos + 4, pos + 4 + size);
            let answer: Option<T> = decode(s);
            proof {
                assert(call_ensures(*decode, (s,), answer));
                assert(s@ == framed(blob@, pos as int));
                assert(decodes(*decode, framed(blob@, pos as int), answer));
            }
            match answer {
                Some(tree) => {
                    assert(tree_read(*decode, blob@, i as nat, tree));
                    trees.push(tree);
                },
                None => {
                    let e: String = "Failed to decode forest tree".to_owned();
                    assert(tree_fails::<T, D>(*decode, blob@, i as nat, e@));
                    return Err(ModelError::Serialization(e));
                },
            }
            pos = pos + 4 + size;
            i = i + 1;
        }
        let metadata = ModelMetadata {
            algorithm: Algorithm::RandomForestRegressor,
            num_features: num_features as usize,
            num_samples: 0,
            r_squared: None,
            mse: None,
            coefficients_count: trees.len(),
            hyperparameters_json: "{}".to_owned(),
        };
        Ok(ForestModel { metadata, trees })
    }
}

/// The bytes of some trees.
pub open spec fn tree_blobs(v: Seq<Vec<u8>>) -> Seq<Seq<u8>> {
    Seq::new(v.len(), |i: int| v[i]@)
}

/// Writes the bytes that keep a forest, given the trainer's bytes of its trees.
pub fn serialize_forest(num_features: usize, trees: &Vec<Vec<u8>>) -> (r: Vec<u8>)
    ensures
        r@ == forest_bytes(num_features as nat, tree_blobs(trees@)),
{
    let ghost all = tree_blobs(trees@);
    let mut out: Vec<u8> = Vec::new();
    push_le(&mut out, num_features as u64, 4);
    push_le(&mut out, trees.len() as u64, 4);
    let ghost head = out@;
    let mut i: usize = 0;
    assert(out@ =~= head + frames_bytes(all, 0));
    while i < trees.len()
        invariant
            all == tree_blobs(trees@),
            i <= trees@.len(),
            out@ == head + frames_bytes(all, i as nat),
        decreases trees.len() - i,
    {
        assert(all[i as int] == trees@[i as int]@);
        push_le(&mut out, trees[i].len() as u64, 4);
        push_bytes(&mut out, &trees[i]);
        i = i + 1;
        assert(out@ =~= head + frames_bytes(all, i as nat));
    }
    assert(out@ =~= forest_bytes(num_features as nat, all));
    out
}

/// A forest whose sizes fit the format.
pub open spec fn forest_fits(num_features: nat, trees: Seq<Seq<u8>>) -> bool {
    &&& num_features < 0x1_0000_0000
    &&& trees.len() < 0x1_0000_0000
    &&& forall|i: int| 0 <= i < trees.len() ==> (#[trigger] trees[i]).len() < 0x1_0000_0000
}

proof fn lemma_frames_prefix(trees: Seq<Seq<u8>>, m: nat, n: nat)
    requires
        m <= n <= trees.len(),
    ensures
        frames_bytes(trees, m).len() <= frames_bytes(trees, n).len(),
        frames_bytes(trees, n).subrange(0, frames_bytes(trees, m).len() as int) == frames_bytes(trees, m),
    decreases n,
{
    if m < n {
        lemma_frames_prefix(trees, m, (n - 1) as nat);
        let before = frames_bytes(trees, (n - 1) as nat);
        let len = frames_bytes(trees, m).len() as int;
        assert(frames_bytes(trees, n).subrange(0, len) =~= before.subrange(0, len));
    } else {
        assert(frames_bytes(trees, n).subrange(0, frames_bytes(trees, m).len() as int) =~= frames_bytes(trees, m));
    }
}

/// Every frame of a forest that was written is read back from where it was put.
pub proof fn law_forest_frames_read_back(num_features: nat, trees: Seq<Seq<u8>>, i: nat)
    requires
        forest_fits(num_features, trees),
        i <= trees.len(),
    ensures
        ({
            let data = forest_bytes(num_features, trees);
            &&& data.len() >= 8
            &&& bytes::le_value(data.subrange(0, 4)) == num_features
            &&& bytes::le_value(data.subrange(4, 8)) == trees.len()
            &&& frame_start(data, i) == Some((8 + frames_bytes(trees, i).len()) as int)
            &&& i < trees.len() ==> {
                let at = frame_start(data, i)->0;
                frame_problem(data, at) is None && framed(data, at) == trees[i as int]
            }
        }),
    decreases i,
{
    let data = forest_bytes(num_features, trees);
    let all = frames_bytes(trees, trees.len());
    bytes::lemma_word_ranges();
    bytes::lemma_le_bytes_len(num_features, 4);
    bytes::lemma_le_bytes_len(trees.len(), 4);
    bytes::lemma_le_value_of_bytes(num_features, 4);
    bytes::lemma_le_value_of_bytes(trees.len(), 4);
    assert(data.subrange(0, 4) =~= bytes::le_bytes(num_features, 4));
    assert(data.subrange(4, 8) =~= bytes::le_bytes(trees.len(), 4));
    if i > 0 {
        let j = (i - 1) as nat;
        law_forest_frames_read_back(num_features, trees, j);
        bytes::lemma_le_bytes_len(trees[j as int].len(), 4);
        assert(framed(data, frame_start(data, j)->0) == trees[j as int]);
    }
    if i < trees.len() {
        let at = (8 + frames_bytes(trees, i).len()) as int;
        let tree = trees[i as int];
        let head = bytes::le_bytes(tree.len(), 4);
        lemma_frames_prefix(trees, i, trees.len());
        lemma_frames_prefix(trees, i + 1, trees.len());
        bytes::lemma_le_bytes_len(tree.len(), 4);
        bytes::lemma_le_value_of_bytes(tree.len(), 4);
        let upto = frames_bytes(trees, i + 1);
        assert(all.subrange(0, upto.len() as int) == upto);
        assert(data.subrange(at, at + 4) =~= head) by {
            assert forall|x: int| 0 <= x < 4 implies data.subrange(at, at + 4)[x] == head[x] by {
                assert(data[at + x] == all[at + x - 8]);
                assert(all[at + x - 8] == all.subrange(0, upto.len() as int)[at + x - 8]);
            }
        }
        assert(framed(data, at) =~= tree) by {
            assert forall|x: int| 0 <= x < tree.len() implies framed(data, at)[x] == tree[x] by {
                assert(data[at + 4 + x] == all[at + 4 + x - 8]);
                assert(all[at + 4 + x - 8] == all.subrange(0, upto.len() as int)[at + 4 + x - 8]);
            }
        }
    }
}

} // verus!
