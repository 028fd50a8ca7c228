//! `ml_snapshot`: registers what data a model was trained on.

use vstd::prelude::*;
use sha2::{Digest, Sha256};
use crate::blob;
use crate::blob::{push_doubles, push_rows};
use crate::json;
use crate::json::parse_strings;
use crate::model::registry::{DataSnapshot, ModelRegistry, RegistryView, SnapshotView};
use crate::numbers;
use crate::numbers::parse_i32;
use crate::table::take_turn;
use crate::text;

verus! {

/// Whether the row was handed out.
pub struct SInitData {
    pub done: bool,
}

impl SInitData {
    pub fn init() -> (r: Self)
        ensures
            !r.done,
    {
        SInitData { done: false }
    }

    /// Tells whether the row is still to be handed out, and notes that it is.
    pub fn take(&mut self) -> (first: bool)
        ensures
            first == !old(self).done,
            final(self).done,
    {
        take_turn(&mut self.done)
    }
}

/// The row of a snapshot.
#[derive(Debug, PartialEq, Eq)]
pub struct SBindData {
    pub model_name: String,
    pub relation_name: String,
    pub n_features: i32,
    pub n_samples: i32,
    pub target_column: String,
    pub feature_columns: String,
    pub data_hash: String,
    pub success: bool,
    pub error_msg: String,
}

/// The row of a snapshot, as a mathematical value.
pub struct SnapshotRow {
    pub model_name: Seq<char>,
    pub relation_name: Seq<char>,
    pub n_features: i32,
    pub n_samples: i32,
    pub target_column: Seq<char>,
    pub feature_columns: Seq<char>,
    pub data_hash: Seq<char>,
    pub success: bool,
    pub error_msg: Seq<char>,
}

impl View for SBindData {
    type V = SnapshotRow;

    open spec fn view(&self) -> SnapshotRow {
        SnapshotRow {
            model_name: self.model_name@,
            relation_name: self.relation_name@,
            n_features: self.n_features,
            n_samples: self.n_samples,
            target_column: self.target_column@,
            feature_columns: self.feature_columns@,
            data_hash: self.data_hash@,
            success: self.success,
            error_msg: self.error_msg@,
        }
    }
}

/// The number of 32 bits in a text.
pub open spec fn small_number(text: Seq<char>) -> Result<int, Seq<char>> {
    numbers::whole_number(text, i32::MIN as int, i32::MAX as int)
}

/// What is wrong with the arguments of a snapshot, if anything.
pub open spec fn snapshot_problem(args: Seq<Seq<char>>) -> Option<Seq<char>> {
    if args.len() < 7 {
        Some(
            "ml_snapshot requires: model_name, relation_name, n_features, n_samples, target_column, feature_columns_json, data_hash"@,
        )
    } else {
        match small_number(args[2]) {
            Err(e) => Some(e),
            Ok(_) => match small_number(args[3]) {
                Err(e) => Some(e),
                Ok(_) => match json::strings_read(args[5]) {
                    Err(e) => Some("Invalid feature_columns JSON: "@ + e),
                    Ok(_) => None,
                },
            },
        }
    }
}

/// The snapshot that the arguments describe.
pub open spec fn described(args: Seq<Seq<char>>) -> SnapshotView {
    SnapshotView {
        model_name: args[0],
        relation_name: args[1],
        n_features: ((small_number(args[2])->Ok_0 as i32) as usize) as nat,
        n_samples: ((small_number(args[3])->Ok_0 as i32) as usize) as nat,
        target_column: args[4],
        feature_columns: json::strings_read(args[5])->Ok_0,
        data_hash: args[6],
    }
}

/// The row of the snapshot that the arguments describe.
pub open spec fn described_row(args: Seq<Seq<char>>) -> SnapshotRow {
    SnapshotRow {
        model_name: args[0],
        relation_name: args[1],
        n_features: small_number(args[2])->Ok_0 as i32,
        n_samples: small_number(args[3])->Ok_0 as i32,
        target_column: args[4],
        feature_columns: args[5],
        data_hash: args[6],
        success: true,
        error_msg: Seq::empty(),
    }
}

/// The `ml_snapshot` function.
pub struct SnapshotFn;

impl SnapshotFn {
    /// Registers the snapshot that the arguments describe: the model, the
    /// relation, the numbers of features and samples, the target column, the
    /// feature columns as a JSON array, and the hash of the data. A negative
    /// number is kept as the size with the same low bits.
    pub fn bind<M>(args: &Vec<String>, registry: &mut ModelRegistry<M>) -> (r: Result<SBindData, String>)
        requires
            old(registry).well_formed(),
        ensures
            final(registry).well_formed(),
            match snapshot_problem(text::texts(args@)) {
                Some(message) => r matches Err(e) && e@ == message && final(registry)@ == old(registry)@,
                None => r matches Ok(row) && row@ == described_row(text::texts(args@)) && final(registry)@ == (
                RegistryView {
                    snapshots: old(registry)@.snapshots.push(described(text::texts(args@))),
                    ..old(registry)@
                }),
            },
    {
        let ghost given = text::texts(args@);
        if args.len() < 7 {
            return Err(
                "ml_snapshot requires: model_name, relation_name, n_features, n_samples, target_column, feature_columns_json, data_hash".to_owned(),
            );
        }
        let n_features: i32 = match parse_i32(args[2].as_str()) {
            Ok(n) => n,
            Err(e) => {
                return Err(e);
            },
        };
        let n_samples: i32 = match parse_i32(args[3].as_str()) {
            Ok(n) => n,
            Err(e) => {
                return Err(e);
            },
        };
        let feature_columns: Vec<String> = match parse_strings(args[5].as_str()) {
            Ok(columns) => columns,
            Err(message) => {
                let mut e: String = "Invalid feature_columns JSON: ".to_owned();
                e.append(message.as_str());
                return Err(e);
            },
        };
        let snap = DataSnapshot {
            model_name: args[0].clone(),
            relation_name: args[1].clone(),
            n_features: n_features as usize,
            n_samples: n_samples as usize,
            target_column: args[4].clone(),
            feature_columns,
            data_hash: args[6].clone(),
        };
        assert(snap@ == described(given));
        registry.add_snapshot(snap);
        Ok(
            SBindData {
                model_name: args[0].clone(),
                relation_name: args[1].clone(),
                n_features,
                n_samples,
                target_column: args[4].clone(),
                feature_columns: args[5].clone(),
                data_hash: args[6].clone(),
                success: true,
                error_msg: String::new(),
            },
        )
    }
}

/// The SHA-256 digest of some bytes.
pub uninterp spec fn sha256_digest(data: Seq<u8>) -> Seq<u8>;

/// Calls `sha2::Sha256::digest`, which hashes the bytes. The digest depends on
/// the bytes alone and has 32 bytes.
#[verifier::external_body]
fn sha256(data: &[u8]) -> (r: Vec<u8>)
    ensures
        r@ == sha256_digest(data@),
        r@.len() == 32,
{
    Sha256::digest(data).to_vec()
}

/// Every number of the training data as bytes: the features row by row, then the
/// targets.
pub open spec fn training_bytes(x: Seq<Seq<u64>>, y: Seq<u64>) -> Seq<u8> {
    blob::rows_bytes(x, x.len()) + blob::doubles_bytes(y, y.len())
}

/// A number below 16 as a hexadecimal digit in lower case.
pub open spec fn hex_digit(d: nat) -> char {
    if d < 10 {
        ('0' as nat + d) as char
    } else {
        ('a' as nat + (d - 10)) as char
    }
}

/// Bytes in hexadecimal, two digits for each.
pub open spec fn hex_text(data: Seq<u8>) -> Seq<char> {
    Seq::new(
        2 * data.len(),
        |i: int|
            if i % 2 == 0 {
                hex_digit((data[i / 2] / 16) as nat)
            } else {
                hex_digit((data[i / 2] % 16) as nat)
            },
    )
}

fn hex_char(d: u8) -> (c: char)
    requires
        d < 16,
    ensures
        c == hex_digit(d as nat),
{
    match d {
        0 => '0',
        1 => '1',
        2 => '2',
        3 => '3',
        4 => '4',
        5 => '5',
        6 => '6',
        7 => '7',
        8 => '8',
        9 => '9',
        10 => 'a',
        11 => 'b',
        12 => 'c',
        13 => 'd',
        14 => 'e',
        _ => 'f',
    }
}

/// Writes bytes in hexadecimal.
pub fn to_hex(data: &Vec<u8>) -> (r: String)
    ensures
        r@ == hex_text(data@),
{
    let mut r: String = String::new();
    let mut i: usize = 0;
    while i < data.len()
        invariant
            i <= data@.len(),
            r@ == hex_text(data@.take(i as int)),
        decreases data.len() - i,
    {
        r.push(hex_char(data[i] / 16));
        r.push(hex_char(data[i] % 16));
        i = i + 1;
        assert(r@ =~= hex_text(data@.take(i as int)));
    }
    assert(data@.take(i as int) =~= data@);
    r
}

/// A hash of training data, to tell snapshots apart: the SHA-256 digest of all
/// its numbers, in hexadecimal.
pub fn hash_training_data(x: &Vec<Vec<u64>>, y: &Vec<u64>) -> (r: String)
    ensures
        r@ == hex_text(sha256_digest(training_bytes(json::rows_of(x@), y@))),
        r@.len() == 64,
{
    let mut data: Vec<u8> = Vec::new();
    push_rows(&mut data, x);
    push_doubles(&mut data, y);
    assert(data@ =~= training_bytes(json::rows_of(x@), y@));
    to_hex(&sha256(data.as_slice()))
}

/// Bytes can be told from their hexadecimal text.
pub proof fn law_hex_text_is_unique(a: Seq<u8>, b: Seq<u8>)
    requires
        hex_text(a) == hex_text(b),
    ensures
        a == b,
{
    assert(hex_text(a).len() == 2 * a.len() && hex_text(b).len() == 2 * b.len());
    assert forall|i: int| 0 <= i < a.len() implies a[i] == b[i] by {
        assert((2 * i) / 2 == i && (2 * i) % 2 == 0 && (2 * i + 1) / 2 == i && (2 * i + 1) % 2 == 1);
        assert(hex_text(a)[2 * i] == hex_digit((a[i] / 16) as nat));
        assert(hex_text(b)[2 * i] == hex_digit((b[i] / 16) as nat));
        assert(hex_text(a)[2 * i + 1] == hex_digit((a[i] % 16) as nat));
        assert(hex_text(b)[2 * i + 1] == hex_digit((b[i] % 16) as nat));
        lemma_hex_digit((a[i] / 16) as nat, (b[i] / 16) as nat);
        lemma_hex_digit((a[i] % 16) as nat, (b[i] % 16) as nat);
    }
    assert(a =~= b);
}

proof fn lemma_hex_digit(a: nat, b: nat)
    requires
        a < 16,
        b < 16,
        hex_digit(a) == hex_digit(b),
    ensures
        a == b,
{
}

} // verus!
