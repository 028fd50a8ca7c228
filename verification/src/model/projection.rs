//! Projections: a mean, some directions, and a number for each direction. This is
//! how principal components and discriminants are kept.
//!
//! The numbers are the bits of doubles; computing with them is the caller's.

use vstd::prelude::*;
use crate::bits;
use crate::blob;
use crate::blob::{push_doubles, push_rows, read_doubles, read_rows};
use crate::bytes;
use crate::bytes::{push_le, read_le};
use crate::json;

verus! {

/// A projection as a mathematical value.
#[verifier::ext_equal]
pub struct ProjectionView {
    pub mean: Seq<u64>,
    /// The directions.
    pub components: Seq<Seq<u64>>,
    /// The number of each direction.
    pub weights: Seq<u64>,
}

/// The bytes that keep a projection: the sizes, the mean, the directions, and
/// their numbers.
pub open spec fn projection_bytes(p: ProjectionView) -> Seq<u8> {
    bytes::le_bytes(p.mean.len(), 4) + bytes::le_bytes(p.components.len(), 4) + blob::doubles_bytes(
        p.mean,
        p.mean.len(),
    ) + blob::rows_bytes(p.components, p.components.len()) + blob::doubles_bytes(p.weights, p.weights.len())
}

/// The projection that some bytes keep; nothing where they keep none.
pub open spec fn projection_read(data: Seq<u8>) -> Option<ProjectionView> {
    let nf = bytes::le_value(data.subrange(0, 4));
    let nc = bytes::le_value(data.subrange(4, 8));
    let table = nc * (8 * nf);
    if data.len() < 8 || data.len() < 8 + 8 * nf + table + 8 * nc {
        None
    } else {
        Some(
            ProjectionView {
                mean: blob::doubles_at(data, 8, nf),
                components: blob::rows_at(data, (8 + 8 * nf) as int, nc, nf),
                weights: blob::doubles_at(data, (8 + 8 * nf + table) as int, nc),
            },
        )
    }
}

/// Writes the bytes that keep a projection.
pub fn write_projection(mean: &Vec<u64>, components: &Vec<Vec<u64>>, weights: &Vec<u64>) -> (r: Vec<u8>)
    ensures
        r@ == projection_bytes(
            ProjectionView { mean: mean@, components: json::rows_of(components@), weights: weights@ },
        ),
{
    let mut out: Vec<u8> = Vec::new();
    push_le(&mut out, mean.len() as u64, 4);
    push_le(&mut out, components.len() as u64, 4);
    push_doubles(&mut out, mean);
    push_rows(&mut out, components);
    push_doubles(&mut out, weights);
    assert(out@ =~= projection_bytes(
        ProjectionView { mean: mean@, components: json::rows_of(components@), weights: weights@ },
    ));
    out
}

/// A projection that was read.
#[derive(Debug, PartialEq, Eq)]
pub struct Projection {
    pub mean: Vec<u64>,
    pub components: Vec<Vec<u64>>,
    pub weights: Vec<u64>,
}

impl View for Projection {
    type V = ProjectionView;

    open spec fn view(&self) -> ProjectionView {
        ProjectionView { mean: self.mean@, components: json::rows_of(self.components@), weights: self.weights@ }
    }
}

/// Reads a projection back from the bytes that keep it.
pub fn read_projection(data: &[u8]) -> (r: Option<Projection>)
    ensures
        match r {
            Some(p) => projection_read(data@) == Some(p@),
            None => projection_read(data@) is None,
        },
{
    let total: usize = data.len();
    if total < 8 {
        return None;
    }
    let nf: u64 = read_le(data, 0, 4);
    let nc: u64 = read_le(data, 4, 4);
    proof {
        bytes::lemma_word_ranges();
        bytes::lemma_le_value_bound(data@.subrange(0, 4));
        bytes::lemma_le_value_bound(data@.subrange(4, 8));
        assert(nc * (8 * nf) <= 0xffff_ffff * (8 * 0xffff_ffff) && 0 <= nc * (8 * nf)) by (nonlinear_arith)
            requires
                0 <= nc <= 0xffff_ffff,
                0 <= nf <= 0xffff_ffff,
        ;
    }
    let table: u128 = (nc as u128) * (8 * (nf as u128));
    if (total as u128) < 8 + 8 * (nf as u128) + table + 8 * (nc as u128) {
        return None;
    }
    let cols: usize = nf as usize;
    let rows: usize = nc as usize;
    assert(cols == nf && rows == nc);
    let mean: Vec<u64> = read_doubles(data, 8, cols);
    let components: Vec<Vec<u64>> = read_rows(data, 8 + 8 * cols, rows, cols);
    let weights: Vec<u64> = read_doubles(data, 8 + 8 * cols + (table as usize), rows);
    let p = Projection { mean, components, weights };
    assert(p@ =~= projection_read(data@)->0);
    Some(p)
}

/// A projection whose sizes fit the format.
pub open spec fn projection_fits(p: ProjectionView) -> bool {
    &&& p.mean.len() < 0x1_0000_0000
    &&& p.components.len() < 0x1_0000_0000
    &&& blob::all_wide(p.components, p.mean.len())
    &&& p.weights.len() == p.components.len()
}

/// Keeping a projection and reading it back gives the same projection.
pub proof fn law_projection_reads_back(p: ProjectionView)
    requires
        projection_fits(p),
    ensures
        projection_read(projection_bytes(p)) == Some(p),
{
    let data = projection_bytes(p);
    let nf = p.mean.len();
    let nc = p.components.len();
    let table = nc * (8 * nf);
    bytes::lemma_word_ranges();
    bytes::lemma_le_bytes_len(nf, 4);
    bytes::lemma_le_bytes_len(nc, 4);
    bytes::lemma_le_value_of_bytes(nf, 4);
    bytes::lemma_le_value_of_bytes(nc, 4);
    blob::lemma_doubles_len(p.mean, nf);
    blob::lemma_rows_len(p.components, nf, nc);
    blob::lemma_doubles_len(p.weights, nc);
    assert(data.subrange(0, 4) =~= bytes::le_bytes(nf, 4));
    assert(data.subrange(4, 8) =~= bytes::le_bytes(nc, 4));
    assert(data.subrange(8, (8 + 8 * nf) as int) =~= blob::doubles_bytes(p.mean, nf));
    blob::lemma_doubles_read_back(data, 8, p.mean);
    assert(data.subrange((8 + 8 * nf) as int, (8 + 8 * nf + table) as int) =~= blob::rows_bytes(p.components, nc));
    blob::lemma_rows_read_back(data, (8 + 8 * nf) as int, p.components, nf);
    assert(data.subrange((8 + 8 * nf + table) as int, (8 + 8 * nf + table + 8 * nc) as int) =~= blob::doubles_bytes(
        p.weights,
        nc,
    ));
    blob::lemma_doubles_read_back(data, (8 + 8 * nf + table) as int, p.weights);
    assert(projection_read(data)->0 =~= p);
}

/// A kept projection has no more numbers than bytes.
pub proof fn lemma_projection_count(data: Seq<u8>)
    requires
        projection_read(data) is Some,
    ensures
        projection_read(data)->0.components.len() * projection_read(data)->0.mean.len() <= data.len(),
{
    let nf = bytes::le_value(data.subrange(0, 4));
    let nc = bytes::le_value(data.subrange(4, 8));
    assert(nc * nf <= nc * (8 * nf)) by (nonlinear_arith);
}

/// The caller's coordinate of some features along one direction.
pub open spec fn projects<P: Fn(&Vec<u64>, &Vec<u64>, &Vec<u64>) -> u64>(
    project: P,
    component: Seq<u64>,
    features: Seq<u64>,
    mean: Seq<u64>,
    value: u64,
) -> bool {
    exists|a: &Vec<u64>, f: &Vec<u64>, m: &Vec<u64>|
        a@ == component && f@ == features && m@ == mean && #[trigger] call_ensures(project, (a, f, m), value)
}

/// The coordinates of some features along all directions.
pub open spec fn projects_all<P: Fn(&Vec<u64>, &Vec<u64>, &Vec<u64>) -> u64>(
    project: P,
    mean: Seq<u64>,
    components: Seq<Seq<u64>>,
    features: Seq<u64>,
    values: Seq<u64>,
) -> bool {
    &&& values.len() == components.len()
    &&& forall|i: int|
        0 <= i < values.len() ==> projects(project, components[i], features, mean, #[trigger] values[i])
}

/// The coordinate along the first direction; zero where there is no direction.
pub open spec fn scores<P: Fn(&Vec<u64>, &Vec<u64>, &Vec<u64>) -> u64>(
    project: P,
    p: ProjectionView,
    features: Seq<u64>,
    value: u64,
) -> bool {
    if p.components.len() == 0 {
        value == bits::ZERO
    } else {
        projects(project, p.components[0], features, p.mean, value)
    }
}

/// The coordinates of some features along all directions.
pub fn transform_by<P: Fn(&Vec<u64>, &Vec<u64>, &Vec<u64>) -> u64>(
    mean: &Vec<u64>,
    components: &Vec<Vec<u64>>,
    features: &Vec<u64>,
    project: &P,
) -> (values: Vec<u64>)
    requires
        forall|a: &Vec<u64>, f: &Vec<u64>, m: &Vec<u64>| call_requires(*project, (a, f, m)),
    ensures
        projects_all(*project, mean@, json::rows_of(components@), features@, values@),
{
    let ghost shown = json::rows_of(components@);
    let mut values: Vec<u64> = Vec::new();
    let mut i: usize = 0;
    while i < components.len()
        invariant
            forall|a: &Vec<u64>, f: &Vec<u64>, m: &Vec<u64>| call_requires(*project, (a, f, m)),
            shown == json::rows_of(components@),
            i <= components@.len(),
            values@.len() == i,
            forall|x: int|
                0 <= x < i ==> projects(*project, shown[x], features@, mean@, #[trigger] values@[x]),
        decreases components.len() - i,
    {
        let a = &components[i];
        let value: u64 = project(a, features, mean);
        proof {
            assert(shown[i as int] == a@);
            assert(call_ensures(*project, (a, features, mean), value));
            assert(projects(*project, shown[i as int], features@, mean@, value));
        }
        values.push(value);
        i = i + 1;
    }
    values
}

/// The coordinate along the first direction.
pub fn score_of(values: &Vec<u64>) -> (r: u64)
    ensures
        r == if values@.len() == 0 {
            bits::ZERO
        } else {
            values@[0]
        },
{
    if values.len() == 0 {
        bits::ZERO
    } else {
        values[0]
    }
}

} // verus!
