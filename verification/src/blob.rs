//! Tables of doubles in byte strings: eight bytes for each number, lowest byte
//! first, row by row.

use vstd::prelude::*;
use crate::bytes;
use crate::bytes::{push_le, read_le};
use crate::json;

verus! {

/// The bytes of some doubles, one after the other, lowest byte first.
pub open spec fn doubles_bytes(v: Seq<u64>, n: nat) -> Seq<u8>
    decreases n,
{
    if n == 0 {
        Seq::empty()
    } else {
        doubles_bytes(v, (n - 1) as nat) + bytes::le_bytes(v[n - 1] as nat, 8)
    }
}

/// The bytes of the first `n` rows, one after the other.
pub open spec fn rows_bytes(x: Seq<Seq<u64>>, n: nat) -> Seq<u8>
    decreases n,
{
    if n == 0 {
        Seq::empty()
    } else {
        rows_bytes(x, (n - 1) as nat) + doubles_bytes(x[n - 1], x[n - 1].len())
    }
}

/// The number whose bytes start at a position.
pub open spec fn double_at(data: Seq<u8>, at: int) -> u64 {
    bytes::le_value(data.subrange(at, at + 8)) as u64
}

/// The `n` numbers whose bytes start at a position.
pub open spec fn doubles_at(data: Seq<u8>, at: int, n: nat) -> Seq<u64> {
    Seq::new(n, |i: int| double_at(data, at + 8 * i))
}

/// The rows, of `cols` numbers each, whose bytes start at a position.
pub open spec fn rows_at(data: Seq<u8>, at: int, rows: nat, cols: nat) -> Seq<Seq<u64>> {
    Seq::new(rows, |r: int| doubles_at(data, at + r * (8 * cols), cols))
}

/// Every row has so many numbers.
pub open spec fn all_wide(x: Seq<Seq<u64>>, cols: nat) -> bool {
    forall|r: int| 0 <= r < x.len() ==> (#[trigger] x[r]).len() == cols
}

/// Each number takes eight bytes.
pub proof fn lemma_doubles_len(v: Seq<u64>, n: nat)
    ensures
        doubles_bytes(v, n).len() == 8 * n,
    decreases n,
{
    if n > 0 {
        lemma_doubles_len(v, (n - 1) as nat);
        bytes::lemma_le_bytes_len(v[n - 1] as nat, 8);
    }
}

/// The bytes of each number stand at its place.
proof fn lemma_double_in_place(v: Seq<u64>, n: nat, i: int)
    requires
        0 <= i < n <= v.len(),
    ensures
        doubles_bytes(v, n).subrange(8 * i, 8 * i + 8) == bytes::le_bytes(v[i] as nat, 8),
    decreases n,
{
    lemma_doubles_len(v, n);
    lemma_doubles_len(v, (n - 1) as nat);
    bytes::lemma_le_bytes_len(v[n - 1] as nat, 8);
    let before = doubles_bytes(v, (n - 1) as nat);
    if i < n - 1 {
        lemma_double_in_place(v, (n - 1) as nat, i);
        assert(doubles_bytes(v, n).subrange(8 * i, 8 * i + 8) =~= before.subrange(8 * i, 8 * i + 8));
    } else {
        assert(doubles_bytes(v, n).subrange(8 * i, 8 * i + 8) =~= bytes::le_bytes(v[i] as nat, 8));
    }
}

/// Numbers that were written into a byte string are read back from there.
pub proof fn lemma_doubles_read_back(data: Seq<u8>, at: int, v: Seq<u64>)
    requires
        0 <= at,
        at + 8 * v.len() <= data.len(),
        data.subrange(at, at + 8 * v.len()) == doubles_bytes(v, v.len()),
    ensures
        doubles_at(data, at, v.len()) == v,
{
    let part = data.subrange(at, at + 8 * v.len());
    assert forall|i: int| 0 <= i < v.len() implies doubles_at(data, at, v.len())[i] == v[i] by {
        lemma_double_in_place(v, v.len(), i);
        assert(part.subrange(8 * i, 8 * i + 8) =~= data.subrange(at + 8 * i, at + 8 * i + 8));
        bytes::lemma_word_ranges();
        bytes::lemma_le_value_of_bytes(v[i] as nat, 8);
    }
    assert(doubles_at(data, at, v.len()) =~= v);
}

/// The rows of a table take eight bytes for each number.
pub proof fn lemma_rows_len(x: Seq<Seq<u64>>, cols: nat, n: nat)
    requires
        n <= x.len(),
        all_wide(x, cols),
    ensures
        rows_bytes(x, n).len() == n * (8 * cols),
    decreases n,
{
    if n > 0 {
        let m = (n - 1) as nat;
        lemma_rows_len(x, cols, m);
        assert(x[n - 1].len() == cols);
        lemma_doubles_len(x[n - 1], cols);
        assert(n * (8 * cols) == m * (8 * cols) + 8 * cols) by (nonlinear_arith)
            requires
                n == m + 1,
        ;
    } else {
        assert(0 * (8 * cols) == 0) by (nonlinear_arith);
    }
}

/// The bytes of each row stand at its place.
proof fn lemma_row_in_place(x: Seq<Seq<u64>>, cols: nat, n: nat, r: int)
    requires
        0 <= r < n <= x.len(),
        all_wide(x, cols),
    ensures
        0 <= r * (8 * cols),
        r * (8 * cols) + 8 * cols <= rows_bytes(x, n).len(),
        rows_bytes(x, n).subrange(r * (8 * cols), r * (8 * cols) + 8 * cols) == doubles_bytes(x[r], cols),
    decreases n,
{
    let m = (n - 1) as nat;
    let w = 8 * cols;
    lemma_rows_len(x, cols, n);
    lemma_rows_len(x, cols, m);
    assert(x[n - 1].len() == cols);
    lemma_doubles_len(x[n - 1], cols);
    let before = rows_bytes(x, m);
    assert(r * w + w <= n * w && 0 <= r * w) by (nonlinear_arith)
        requires
            0 <= r < n,
            0 <= w,
    ;
    if r < m {
        lemma_row_in_place(x, cols, m, r);
        assert(rows_bytes(x, n).subrange(r * w, r * w + w) =~= before.subrange(r * w, r * w + w));
    } else {
        assert(rows_bytes(x, n).subrange(r * w, r * w + w) =~= doubles_bytes(x[r], cols));
    }
}

/// A table that was written into a byte string is read back from there.
pub proof fn lemma_rows_read_back(data: Seq<u8>, at: int, x: Seq<Seq<u64>>, cols: nat)
    requires
        0 <= at,
        all_wide(x, cols),
        at + rows_bytes(x, x.len()).len() <= data.len(),
        data.subrange(at, at + rows_bytes(x, x.len()).len()) == rows_bytes(x, x.len()),
    ensures
        rows_at(data, at, x.len(), cols) == x,
{
    let all = rows_bytes(x, x.len());
    let part = data.subrange(at, at + all.len());
    let w = 8 * cols;
    assert forall|r: int| 0 <= r < x.len() implies rows_at(data, at, x.len(), cols)[r] == x[r] by {
        lemma_row_in_place(x, cols, x.len(), r);
        assert(x[r].len() == cols);
        assert(part.subrange(r * w, r * w + w) =~= data.subrange(at + r * w, at + r * w + w));
        lemma_doubles_read_back(data, at + r * w, x[r]);
    }
    assert(rows_at(data, at, x.len(), cols) =~= x);
}

/// Writes numbers behind a byte string.
pub fn push_doubles(out: &mut Vec<u8>, v: &Vec<u64>)
    ensures
        final(out)@ == old(out)@ + doubles_bytes(v@, v@.len()),
{
    let ghost before = out@;
    let mut i: usize = 0;
    assert(out@ =~= before + doubles_bytes(v@, 0));
    while i < v.len()
        invariant
            i <= v@.len(),
            out@ == before + doubles_bytes(v@, i as nat),
        decreases v.len() - i,
    {
        push_le(out, v[i], 8);
        i = i + 1;
        assert(out@ =~= before + doubles_bytes(v@, i as nat));
    }
}

/// Writes a table behind a byte string.
pub fn push_rows(out: &mut Vec<u8>, x: &Vec<Vec<u64>>)
    ensures
        final(out)@ == old(out)@ + rows_bytes(json::rows_of(x@), x@.len()),
{
    let ghost before = out@;
    let ghost rows = json::rows_of(x@);
    let mut i: usize = 0;
    assert(out@ =~= before + rows_bytes(rows, 0));
    while i < x.len()
        invariant
            rows == json::rows_of(x@),
            i <= x@.len(),
            out@ == before + rows_bytes(rows, i as nat),
        decreases x.len() - i,
    {
        assert(rows[i as int] == x@[i as int]@);
        push_doubles(out, &x[i]);
        i = i + 1;
        assert(out@ =~= before + rows_bytes(rows, i as nat));
    }
}

/// Reads `n` numbers.
pub fn read_doubles(data: &[u8], at: usize, n: usize) -> (r: Vec<u64>)
    requires
        at + 8 * n <= data@.len(),
    ensures
        r@ == doubles_at(data@, at as int, n as nat),
{
    let total: usize = data.len();
    let mut r: Vec<u64> = Vec::new();
    let mut i: usize = 0;
    while i < n
        invariant
            at + 8 * n <= total == data@.len(),
            i <= n,
            r@.len() == i,
            forall|x: int| 0 <= x < i ==> #[trigger] r@[x] == double_at(data@, at + 8 * x),
        decreases n - i,
    {
        r.push(read_le(data, at + 8 * i, 8));
        i = i + 1;
    }
    assert(r@ =~= doubles_at(data@, at as int, n as nat));
    r
}

/// Reads a table.
pub fn read_rows(data: &[u8], at: usize, rows: usize, cols: usize) -> (r: Vec<Vec<u64>>)
    requires
        at + rows * (8 * cols) <= data@.len(),
    ensures
        json::rows_of(r@) == rows_at(data@, at as int, rows as nat, cols as nat),
{
    let total: usize = data.len();
    let mut r: Vec<Vec<u64>> = Vec::new();
    let mut pos: usize = at;
    let mut i: usize = 0;
    assert(0 * (8 * cols) == 0) by (nonlinear_arith);
    while i < rows
        invariant
            at + rows * (8 * cols) <= total == data@.len(),
            i <= rows,
            pos == at + i * (8 * cols),
            r@.len() == i,
            forall|x: int|
                0 <= x < i ==> (#[trigger] r@[x])@ == doubles_at(data@, at + x * (8 * cols), cols as nat),
        decreases rows - i,
    {
        proof {
            let w = 8 * cols;
            assert(i * w + w <= rows * w && (i + 1) * w == i * w + w) by (nonlinear_arith)
                requires
                    0 <= i < rows,
                    0 <= w,
            ;
        }
        r.push(read_doubles(data, pos, cols));
        pos = pos + 8 * cols;
        i = i + 1;
    }
    assert(json::rows_of(r@) =~= rows_at(data@, at as int, rows as nat, cols as nat));
    r
}

} // verus!
