//! Embedding storage and similarity retrieval.
//!
//! An embedding is a vector of single precision numbers, carried as their bit
//! patterns. It is stored as a little-endian blob.

use vstd::prelude::*;
use crate::bytes;
use crate::bytes::{push_le, read_le};
use crate::cosine;
use crate::cosine::{cosine_similarity, l2_normalize, VectorMath};
use crate::json;
use crate::bits;
use crate::bits::{clamp_unit, is_less_eq_single, total_rank_of};
use crate::json::{get_field, numbers_of, parse_json, parse_numbers, render_json, Json, JsonView};
use crate::model::registry;
use crate::model::registry::ModelRegistry;
use crate::predict;
use crate::predict::{bad_features_message, not_loaded_message};
use crate::sorting;
use crate::text;
use crate::text::{chars_of, text_place, trim, Placed};

verus! {

/// The blob of an embedding: four bytes for each number, lowest byte first.
pub open spec fn packed(v: Seq<u32>) -> Seq<u8>
    decreases v.len(),
{
    if v.len() == 0 {
        Seq::empty()
    } else {
        packed(v.drop_last()) + bytes::le_bytes(v.last() as nat, 4)
    }
}

/// The embedding of a blob: one number for each four bytes; none where the
/// length is not a multiple of four.
pub open spec fn unpacked(b: Seq<u8>) -> Option<Seq<u32>> {
    if b.len() % 4 != 0 {
        None
    } else {
        Some(Seq::new(b.len() / 4, |i: int| bytes::le_value(b.subrange(4 * i, 4 * i + 4)) as u32))
    }
}

/// Packs an embedding as little-endian bytes.
pub fn pack_f32_le(v: &[u32]) -> (out: Vec<u8>)
    ensures
        out@ == packed(v@),
        out@.len() == 4 * v@.len(),
{
    let mut out: Vec<u8> = Vec::new();
    let mut i: usize = 0;
    assert(v@.take(0) =~= Seq::empty());
    while i < v.len()
        invariant
            i <= v@.len(),
            out@ == packed(v@.take(i as int)),
            out@.len() == 4 * i,
        decreases v.len() - i,
    {
        proof {
            bytes::lemma_le_bytes_len(v@[i as int] as nat, 4);
            assert(v@.take(i + 1).drop_last() =~= v@.take(i as int));
        }
        push_le(&mut out, v[i] as u64, 4);
        i = i + 1;
    }
    assert(v@.take(v@.len() as int) =~= v@);
    out
}

/// Unpacks little-endian bytes; `None` when the length is not a multiple of 4.
pub fn unpack_f32_le(data: &[u8]) -> (r: Option<Vec<u32>>)
    ensures
        match r {
            Some(v) => unpacked(data@) == Some(v@),
            None => unpacked(data@) is None,
        },
{
    if data.len() % 4 != 0 {
        return None;
    }
    let n: usize = data.len() / 4;
    let mut out: Vec<u32> = Vec::new();
    let mut i: usize = 0;
    while i < n
        invariant
            n == data@.len() / 4,
            data@.len() == 4 * n,
            data@.len() <= usize::MAX,
            i <= n,
            out@.len() == i,
            forall|x: int|
                0 <= x < i ==> #[trigger] out@[x] == bytes::le_value(data@.subrange(4 * x, 4 * x + 4)) as u32,
        decreases n - i,
    {
        let x: u64 = read_le(data, 4 * i, 4);
        proof {
            bytes::lemma_le_value_bound(data@.subrange(4 * i, 4 * i + 4));
            bytes::lemma_word_ranges();
        }
        out.push(x as u32);
        i = i + 1;
    }
    assert(unpacked(data@)->0 =~= out@);
    Some(out)
}

/// Each number takes four bytes.
pub proof fn lemma_packed_len(v: Seq<u32>)
    ensures
        packed(v).len() == 4 * v.len(),
    decreases v.len(),
{
    if v.len() > 0 {
        lemma_packed_len(v.drop_last());
        bytes::lemma_le_bytes_len(v.last() as nat, 4);
    }
}

/// The bytes of each number stand at its place.
pub proof fn lemma_packed_at(v: Seq<u32>, i: int)
    requires
        0 <= i < v.len(),
    ensures
        packed(v).subrange(4 * i, 4 * i + 4) == bytes::le_bytes(v[i] as nat, 4),
    decreases v.len(),
{
    let w = v.drop_last();
    lemma_packed_len(v);
    lemma_packed_len(w);
    bytes::lemma_le_bytes_len(v.last() as nat, 4);
    if i < w.len() {
        lemma_packed_at(w, i);
        assert(packed(v).subrange(4 * i, 4 * i + 4) =~= packed(w).subrange(4 * i, 4 * i + 4));
    } else {
        assert(packed(v).subrange(4 * i, 4 * i + 4) =~= bytes::le_bytes(v[i] as nat, 4));
    }
}

/// Unpacking a packed embedding gives the embedding back.
pub proof fn law_unpack_undoes_pack(v: Seq<u32>)
    ensures
        unpacked(packed(v)) == Some(v),
{
    lemma_packed_len(v);
    let b = packed(v);
    bytes::lemma_word_ranges();
    let w = Seq::new(b.len() / 4, |i: int| bytes::le_value(b.subrange(4 * i, 4 * i + 4)) as u32);
    assert forall|i: int| 0 <= i < v.len() implies w[i] == v[i] by {
        lemma_packed_at(v, i);
        bytes::lemma_le_value_of_bytes(v[i] as nat, 4);
    }
    assert(w =~= v);
}

/// Packing what was unpacked gives the blob back.
pub proof fn law_pack_undoes_unpack(b: Seq<u8>)
    requires
        b.len() % 4 == 0,
    ensures
        unpacked(b) matches Some(v) && packed(v) == b,
{
    let v = unpacked(b)->0;
    lemma_packed_len(v);
    bytes::lemma_word_ranges();
    assert forall|j: int| 0 <= j < b.len() implies packed(v)[j] == b[j] by {
        let i = j / 4;
        lemma_packed_at(v, i);
        let four = b.subrange(4 * i, 4 * i + 4);
        bytes::lemma_le_value_bound(four);
        bytes::lemma_le_bytes_of_value(four);
        assert(packed(v).subrange(4 * i, 4 * i + 4)[j - 4 * i] == packed(v)[j]);
        assert(four[j - 4 * i] == b[j]);
    }
    assert(packed(v) =~= b);
}

/// The value of a hexadecimal digit, upper or lower case.
pub open spec fn hex_value(c: char) -> Option<u8> {
    if '0' <= c <= '9' {
        Some((c as u32 - '0' as u32) as u8)
    } else if 'a' <= c <= 'f' {
        Some((c as u32 - 'a' as u32 + 10) as u8)
    } else if 'A' <= c <= 'F' {
        Some((c as u32 - 'A' as u32 + 10) as u8)
    } else {
        None
    }
}

/// The bytes whose hexadecimal digits are the given characters, two for each.
pub open spec fn hex_bytes(s: Seq<char>) -> Option<Seq<u8>>
    decreases s.len(),
{
    if s.len() == 0 {
        Some(Seq::empty())
    } else if s.len() == 1 {
        None
    } else {
        match (hex_value(s[0]), hex_value(s[1])) {
            (Some(hi), Some(lo)) => in_front(seq![(16 * hi + lo) as u8], hex_bytes(s.skip(2))),
            _ => None,
        }
    }
}

/// Some bytes in front of others, where there are others.
pub open spec fn in_front(head: Seq<u8>, tail: Option<Seq<u8>>) -> Option<Seq<u8>> {
    match tail {
        Some(t) => Some(head + t),
        None => None,
    }
}

proof fn lemma_in_front(a: Seq<u8>, b: Seq<u8>, tail: Option<Seq<u8>>)
    ensures
        in_front(a, in_front(b, tail)) == in_front(a + b, tail),
{
    if let Some(t) = tail {
        assert(a + (b + t) =~= (a + b) + t);
    }
}

fn hex_digit(c: char) -> (r: Option<u8>)
    ensures
        r == hex_value(c),
        r matches Some(v) ==> v < 16,
{
    if '0' <= c && c <= '9' {
        Some((c as u32 - '0' as u32) as u8)
    } else if 'a' <= c && c <= 'f' {
        Some((c as u32 - 'a' as u32 + 10) as u8)
    } else if 'A' <= c && c <= 'F' {
        Some((c as u32 - 'A' as u32 + 10) as u8)
    } else {
        None
    }
}

/// Decodes a string of hexadecimal digits (`"0102"` gives `[1, 2]`); `None`
/// where a character is no such digit or their number is odd.
pub fn hex_decode(s: &str) -> (r: Option<Vec<u8>>)
    ensures
        match r {
            Some(v) => hex_bytes(s@) == Some(v@),
            None => hex_bytes(s@) is None,
        },
{
    let chars: Vec<char> = chars_of(s);
    let mut out: Vec<u8> = Vec::new();
    let mut i: usize = 0;
    assert(s@.skip(0) =~= s@);
    assert(in_front(out@, hex_bytes(s@)) == hex_bytes(s@)) by {
        if let Some(t) = hex_bytes(s@) {
            assert(out@ + t =~= t);
        }
    }
    while i < chars.len()
        invariant
            chars@ == s@,
            i <= chars@.len(),
            hex_bytes(s@) == in_front(out@, hex_bytes(s@.skip(i as int))),
        decreases chars.len() - i,
    {
        let ghost tail = s@.skip(i as int);
        if chars.len() - i == 1 {
            return None;
        }
        match (hex_digit(chars[i]), hex_digit(chars[i + 1])) {
            (Some(hi), Some(lo)) => {
                proof {
                    assert(tail.skip(2) =~= s@.skip(i + 2));
                    lemma_in_front(out@, seq![(16 * hi + lo) as u8], hex_bytes(tail.skip(2)));
                    assert(out@.push((16 * hi + lo) as u8) =~= out@ + seq![(16 * hi + lo) as u8]);
                }
                out.push(16 * hi + lo);
            },
            _ => {
                return None;
            },
        }
        i = i + 2;
    }
    assert(out@ + Seq::<u8>::empty() =~= out@);
    Some(out)
}

/// The bytes of a binary string as DuckDB writes it into JSON: `\xNN` stands
/// for a byte, a backslash before any other character for that character, and
/// every other ASCII character for itself.
pub open spec fn binary_bytes(s: Seq<char>) -> Option<Seq<u8>>
    decreases s.len(),
{
    if s.len() == 0 {
        Some(Seq::empty())
    } else if s[0] == '\\' {
        if s.len() == 1 {
            None
        } else if s[1] == 'x' {
            if s.len() < 4 {
                None
            } else {
                match (hex_value(s[2]), hex_value(s[3])) {
                    (Some(hi), Some(lo)) => in_front(seq![(16 * hi + lo) as u8], binary_bytes(s.skip(4))),
                    _ => None,
                }
            }
        } else {
            in_front(seq![(s[1] as u32 % 256) as u8], binary_bytes(s.skip(2)))
        }
    } else if (s[0] as u32) < 128 {
        in_front(seq![(s[0] as u32) as u8], binary_bytes(s.skip(1)))
    } else {
        None
    }
}

/// Decodes a binary string as DuckDB writes it into JSON.
pub fn decode_duckdb_binary(s: &str) -> (r: Option<Vec<u8>>)
    ensures
        match r {
            Some(v) => binary_bytes(s@) == Some(v@),
            None => binary_bytes(s@) is None,
        },
{
    let chars: Vec<char> = chars_of(s);
    let mut out: Vec<u8> = Vec::new();
    let mut i: usize = 0;
    assert(s@.skip(0) =~= s@);
    assert(in_front(out@, binary_bytes(s@)) == binary_bytes(s@)) by {
        if let Some(t) = binary_bytes(s@) {
            assert(out@ + t =~= t);
        }
    }
    while i < chars.len()
        invariant
            chars@ == s@,
            i <= chars@.len(),
            binary_bytes(s@) == in_front(out@, binary_bytes(s@.skip(i as int))),
        decreases chars.len() - i,
    {
        let ghost tail = s@.skip(i as int);
        let left: usize = chars.len() - i;
        let c: char = chars[i];
        if c == '\\' {
            if left == 1 {
                return None;
            }
            let c2: char = chars[i + 1];
            if c2 == 'x' {
                if left < 4 {
                    return None;
                }
                match (hex_digit(chars[i + 2]), hex_digit(chars[i + 3])) {
                    (Some(hi), Some(lo)) => {
                        let b: u8 = 16 * hi + lo;
                        proof {
                            assert(tail.skip(4) =~= s@.skip(i + 4));
                            lemma_in_front(out@, seq![b], binary_bytes(tail.skip(4)));
                            assert(out@.push(b) =~= out@ + seq![b]);
                        }
                        out.push(b);
                    },
                    _ => {
                        return None;
                    },
                }
                i = i + 4;
            } else {
                let b: u8 = (c2 as u32 % 256) as u8;
                proof {
                    assert(tail.skip(2) =~= s@.skip(i + 2));
                    lemma_in_front(out@, seq![b], binary_bytes(tail.skip(2)));
                    assert(out@.push(b) =~= out@ + seq![b]);
                }
                out.push(b);
                i = i + 2;
            }
        } else if (c as u32) < 128 {
            let b: u8 = c as u32 as u8;
            proof {
                assert(tail.skip(1) =~= s@.skip(i + 1));
                lemma_in_front(out@, seq![b], binary_bytes(tail.skip(1)));
                assert(out@.push(b) =~= out@ + seq![b]);
            }
            out.push(b);
            i = i + 1;
        } else {
            return None;
        }
    }
    assert(out@ + Seq::<u8>::empty() =~= out@);
    Some(out)
}

/// Every character is a hexadecimal digit.
pub open spec fn all_hex(s: Seq<char>) -> bool {
    forall|i: int| 0 <= i < s.len() ==> hex_value(#[trigger] s[i]) is Some
}

/// The bytes of a blob string: hexadecimal where it is an even number of such
/// digits, else a binary string.
pub open spec fn blob_bytes(s: Seq<char>) -> Option<Seq<u8>> {
    if s.len() % 2 == 0 && all_hex(s) {
        hex_bytes(s)
    } else {
        binary_bytes(s)
    }
}

/// Decodes a blob string: hexadecimal (`"0000803F"`), a binary string as DuckDB
/// writes it into JSON (`"\\x00\\x00\\x80?"`), or plain printable bytes.
pub fn blob_from_string(s: &str) -> (r: Option<Vec<u8>>)
    ensures
        match r {
            Some(v) => blob_bytes(s@) == Some(v@),
            None => blob_bytes(s@) is None,
        },
{
    let chars: Vec<char> = chars_of(s);
    let mut i: usize = 0;
    while i < chars.len()
        invariant
            chars@ == s@,
            i <= chars@.len(),
            forall|x: int| 0 <= x < i ==> hex_value(#[trigger] s@[x]) is Some,
        decreases chars.len() - i,
    {
        if hex_digit(chars[i]).is_none() {
            return decode_duckdb_binary(s);
        }
        i = i + 1;
    }
    if chars.len() % 2 == 0 {
        hex_decode(s)
    } else {
        decode_duckdb_binary(s)
    }
}

/// The rounding function gives one answer for one double.
pub open spec fn one_rounding<N: Fn(u64) -> u32>(narrow: N) -> bool {
    forall|x: u64, a: u32, b: u32|
        #![trigger call_ensures(narrow, (x,), a), call_ensures(narrow, (x,), b)]
        call_ensures(narrow, (x,), a) && call_ensures(narrow, (x,), b) ==> a == b
}

/// A double rounded to single precision by the rounding function.
pub open spec fn rounded<N: Fn(u64) -> u32>(narrow: N, x: u64) -> u32 {
    choose|y: u32| call_ensures(narrow, (x,), y)
}

/// A list of doubles rounded to single precision.
pub open spec fn all_rounded<N: Fn(u64) -> u32>(narrow: N, v: Seq<u64>) -> Seq<u32> {
    Seq::new(v.len(), |i: int| rounded(narrow, v[i]))
}

fn round_all<N: Fn(u64) -> u32>(narrow: &N, v: &Vec<u64>) -> (r: Vec<u32>)
    requires
        forall|x: u64| call_requires(*narrow, (x,)),
        one_rounding(*narrow),
    ensures
        r@ == all_rounded(*narrow, v@),
        forall|i: int| 0 <= i < v@.len() ==> call_ensures(*narrow, (#[trigger] v@[i],), r@[i]),
{
    let mut r: Vec<u32> = Vec::new();
    let mut i: usize = 0;
    while i < v.len()
        invariant
            forall|x: u64| call_requires(*narrow, (x,)),
            one_rounding(*narrow),
            i <= v@.len(),
            r@.len() == i,
            forall|x: int|
                #![trigger r@[x]]
                #![trigger v@[x]]
                0 <= x < i ==> r@[x] == rounded(*narrow, v@[x]) && call_ensures(*narrow, (v@[x],), r@[x]),
        decreases v.len() - i,
    {
        let y: u32 = narrow(v[i]);
        assert(y == rounded(*narrow, v@[i as int]));
        r.push(y);
        i = i + 1;
    }
    assert(r@ =~= all_rounded(*narrow, v@));
    r
}

/// The query embedding that a text stands for, given what its trimmed form is
/// as a JSON array of numbers.
pub open spec fn query_of<N: Fn(u64) -> u32>(
    q: Seq<char>,
    numbers: Result<Seq<u64>, Seq<char>>,
    narrow: N,
) -> Result<Seq<u32>, Seq<char>> {
    if q.len() == 0 {
        Err("query embedding is empty"@)
    } else if q[0] == '[' {
        match numbers {
            Err(e) => Err("invalid query embedding JSON '"@ + q + "': "@ + e),
            Ok(v) => if v.len() == 0 {
                Err("query embedding is empty"@)
            } else {
                Ok(all_rounded(narrow, v))
            },
        }
    } else {
        match blob_bytes(q) {
            None => Err("query embedding blob is malformed"@),
            Some(b) => match unpacked(b) {
                None => Err("query embedding blob length is not a multiple of 4"@),
                Some(v) => if v.len() == 0 {
                    Err("query embedding is empty"@)
                } else {
                    Ok(v)
                },
            },
        }
    }
}

/// The query embedding that a text stands for: a JSON array of numbers, each
/// rounded to single precision, or a blob string.
pub open spec fn query_in<N: Fn(u64) -> u32>(query: Seq<char>, narrow: N) -> Result<Seq<u32>, Seq<char>> {
    let q = text::trimmed(query);
    query_of(q, json::numbers_read(q), narrow)
}

/// Reads a query embedding; see [`query_in`].
pub fn parse_query_vec<N: Fn(u64) -> u32>(query: &str, narrow: &N) -> (r: Result<Vec<u32>, String>)
    requires
        forall|x: u64| call_requires(*narrow, (x,)),
        one_rounding(*narrow),
    ensures
        match r {
            Ok(v) => query_in(query@, *narrow) == Ok::<Seq<u32>, Seq<char>>(v@) && v@.len() > 0,
            Err(e) => query_in(query@, *narrow) == Err::<Seq<u32>, Seq<char>>(e@),
        },
{
    let q: String = trim(query);
    let chars: Vec<char> = chars_of(q.as_str());
    if chars.len() == 0 {
        return Err("query embedding is empty".to_owned());
    }
    if chars[0] == '[' {
        match parse_numbers(q.as_str()) {
            Ok(v) => {
                if v.len() == 0 {
                    return Err("query embedding is empty".to_owned());
                }
                return Ok(round_all(narrow, &v));
            },
            Err(message) => {
                let mut e: String = "invalid query embedding JSON '".to_owned();
                e.append(q.as_str());
                e.append("': ");
                e.append(message.as_str());
                return Err(e);
            },
        }
    }
    let data: Vec<u8> = match blob_from_string(q.as_str()) {
        Some(data) => data,
        None => {
            return Err("query embedding blob is malformed".to_owned());
        },
    };
    match unpack_f32_le(data.as_slice()) {
        Some(v) => {
            if v.len() == 0 {
                Err("query embedding is empty".to_owned())
            } else {
                Ok(v)
            }
        },
        None => Err("query embedding blob length is not a multiple of 4".to_owned()),
    }
}

/// What a candidate carries besides its row id.
#[derive(Debug, PartialEq, Eq)]
pub enum Payload {
    /// A null in place of an embedding.
    Missing,
    /// An embedding.
    Vector(Vec<u32>),
}

/// What a candidate carries, as a mathematical value.
pub enum PayloadView {
    Missing,
    Vector(Seq<u32>),
}

/// The row id of a candidate: the first of a pair, or the member `row_id`.
pub open spec fn row_id_of(el: JsonView) -> Option<JsonView> {
    match el {
        JsonView::Array(pair) => if pair.len() == 2 {
            Some(pair[0])
        } else {
            None
        },
        JsonView::Object(o) => json::field(o, "row_id"@),
        _ => None,
    }
}

/// Where a candidate keeps its embedding: the second of a pair, or the member
/// `embeds`.
pub open spec fn embeds_of(el: JsonView) -> Option<JsonView> {
    match el {
        JsonView::Array(pair) => if pair.len() == 2 {
            Some(pair[1])
        } else {
            None
        },
        JsonView::Object(o) => json::field(o, "embeds"@),
        _ => None,
    }
}

/// What a candidate carries; none where it is malformed.
pub open spec fn payload_of<N: Fn(u64) -> u32>(el: JsonView, narrow: N) -> Option<PayloadView> {
    match embeds_of(el) {
        Some(JsonView::Null) => Some(PayloadView::Missing),
        Some(JsonView::Text(s)) => match blob_bytes(s) {
            Some(b) => match unpacked(b) {
                Some(v) => Some(PayloadView::Vector(v)),
                None => None,
            },
            None => None,
        },
        Some(JsonView::Array(a)) => if json::all_numbers(a) {
            Some(PayloadView::Vector(all_rounded(narrow, json::reals(a))))
        } else {
            None
        },
        _ => None,
    }
}

fn candidate_part<'a>(el: &'a Json, first: bool) -> (r: Option<&'a Json>)
    ensures
        match r {
            Some(v) => (if first {
                row_id_of(el@)
            } else {
                embeds_of(el@)
            }) == Some(v@),
            None => (if first {
                row_id_of(el@)
            } else {
                embeds_of(el@)
            }) is None,
        },
{
    if let Some(pair) = el.as_array() {
        if pair.len() == 2 {
            let at: usize = if first { 0 } else { 1 };
            assert(json::views(pair@)[at as int] == pair@[at as int]@);
            return Some(&pair[at]);
        }
        return None;
    }
    if let Some(o) = el.as_object() {
        return get_field(o, if first { "row_id" } else { "embeds" });
    }
    None
}

/// The row id of one candidate.
pub fn candidate_row_id(el: &Json) -> (r: Option<&Json>)
    ensures
        match r {
            Some(v) => row_id_of(el@) == Some(v@),
            None => row_id_of(el@) is None,
        },
{
    candidate_part(el, true)
}

/// What one candidate carries; `None` marks a malformed one.
pub fn candidate_embed<N: Fn(u64) -> u32>(el: &Json, narrow: &N) -> (r: Option<Payload>)
    requires
        forall|x: u64| call_requires(*narrow, (x,)),
        one_rounding(*narrow),
    ensures
        match r {
            Some(Payload::Missing) => payload_of(el@, *narrow) == Some(PayloadView::Missing),
            Some(Payload::Vector(v)) => payload_of(el@, *narrow) == Some(PayloadView::Vector(v@)),
            None => payload_of(el@, *narrow) is None,
        },
{
    let embeds: &Json = match candidate_part(el, false) {
        Some(embeds) => embeds,
        None => {
            return None;
        },
    };
    match embeds {
        Json::Null => Some(Payload::Missing),
        Json::Text(s) => match blob_from_string(s.as_str()) {
            Some(data) => match unpack_f32_le(data.as_slice()) {
                Some(v) => Some(Payload::Vector(v)),
                None => None,
            },
            None => None,
        },
        Json::Array(_) => match embeds.as_array() {
            Some(a) => match numbers_of(a) {
                Some(v) => Some(Payload::Vector(round_all(narrow, &v))),
                None => None,
            },
            None => None,
        },
        _ => None,
    }
}

/// The value of a number that is an unsigned integer.
pub open spec fn unsigned_of(v: JsonView) -> Option<u64> {
    match v {
        JsonView::Number(n) => n.unsigned,
        _ => None,
    }
}

/// The order of row ids: unsigned integers by their value, others by their
/// JSON text.
pub open spec fn id_before(a: JsonView, b: JsonView) -> bool {
    match (unsigned_of(a), unsigned_of(b)) {
        (Some(x), Some(y)) => x < y,
        _ => text::text_before(json::json_text(a), json::json_text(b)),
    }
}

/// Row id `a` does not come after `b`.
pub open spec fn id_le(a: JsonView, b: JsonView) -> bool {
    !id_before(b, a)
}

/// One row with its score.
#[derive(Debug, PartialEq)]
pub struct ScoredRow {
    pub row_id: Json,
    /// Bits of a single precision number.
    pub score: u32,
}

/// One row with its score, as a mathematical value.
pub struct RowView {
    pub row_id: JsonView,
    pub score: u32,
}

impl View for ScoredRow {
    type V = RowView;

    open spec fn view(&self) -> RowView {
        RowView { row_id: self.row_id@, score: self.score }
    }
}

/// The rows of a list.
pub open spec fn row_views(v: Seq<ScoredRow>) -> Seq<RowView> {
    Seq::new(v.len(), |i: int| v[i]@)
}

/// Row `a` may stand before row `b` in the results: higher scores first, equal
/// scores by row id.
pub open spec fn listed_le(a: RowView, b: RowView) -> bool {
    ||| bits::total_rank(a.score) > bits::total_rank(b.score)
    ||| bits::total_rank(a.score) == bits::total_rank(b.score) && id_le(a.row_id, b.row_id)
}

/// Row `a` is dropped before row `b`: lower scores first, equal scores by row id.
pub open spec fn weaker_le(a: RowView, b: RowView) -> bool {
    ||| bits::total_rank(a.score) < bits::total_rank(b.score)
    ||| bits::total_rank(a.score) == bits::total_rank(b.score) && id_le(a.row_id, b.row_id)
}

/// The row ids can be put in one order. (Ids of which some are unsigned
/// integers and some are not may go round in a circle.)
#[verifier::opaque]
pub open spec fn ids_in_line(rows: Seq<RowView>) -> bool {
    forall|i: int, j: int, k: int|
        #![trigger rows[i], rows[j], rows[k]]
        0 <= i < rows.len() && 0 <= j < rows.len() && 0 <= k < rows.len() && id_le(rows[i].row_id, rows[j].row_id)
            && id_le(rows[j].row_id, rows[k].row_id) ==> id_le(rows[i].row_id, rows[k].row_id)
}

/// `out` holds the rows of `rows` at the positions `at`.
pub open spec fn taken_from(rows: Seq<RowView>, out: Seq<RowView>, at: Seq<int>) -> bool {
    &&& at.len() == out.len()
    &&& at.no_duplicates()
    &&& forall|i: int| #![trigger at[i]] 0 <= i < at.len() ==> 0 <= at[i] < rows.len() && out[i] == rows[at[i]]
}

/// `out` holds the `k` best of `rows` (all of them where there are no more),
/// taken from the positions `at`: highest scores first, nothing dropped that
/// scores higher than something kept; and, where the ids can be put in one
/// order, equal scores by growing id, of which the largest are kept.
pub open spec fn kept_at(rows: Seq<RowView>, k: nat, out: Seq<RowView>, at: Seq<int>) -> bool {
    &&& taken_from(rows, out, at)
    &&& out.len() == if rows.len() <= k {
        rows.len()
    } else {
        k
    }
    &&& forall|i: int, j: int|
        #![trigger out[i], out[j]]
        0 <= i < j < out.len() ==> bits::total_rank(out[i].score) >= bits::total_rank(out[j].score)
    &&& forall|x: int, i: int|
        #![trigger rows[x], out[i]]
        0 <= x < rows.len() && !at.contains(x) && 0 <= i < out.len() ==> bits::total_rank(rows[x].score)
            <= bits::total_rank(out[i].score)
    &&& ids_in_line(rows) ==> {
        &&& forall|i: int, j: int|
            #![trigger out[i], out[j]]
            0 <= i < j < out.len() ==> listed_le(out[i], out[j])
        &&& forall|x: int, i: int|
            #![trigger rows[x], out[i]]
            0 <= x < rows.len() && !at.contains(x) && 0 <= i < out.len() ==> weaker_le(rows[x], out[i])
    }
}

/// `out` holds the `k` best of `rows`; see [`kept_at`].
pub open spec fn best_of(rows: Seq<RowView>, k: nat, out: Seq<RowView>) -> bool {
    exists|at: Seq<int>| #[trigger] kept_at(rows, k, out, at)
}

/// Compares two row ids, given their JSON texts.
fn row_id_place(a: &Json, a_text: &str, b: &Json, b_text: &str) -> (r: Placed)
    requires
        a_text@ == json::json_text(a@),
        b_text@ == json::json_text(b@),
    ensures
        r == Placed::Before <==> id_before(a@, b@),
        r == Placed::After <==> id_before(b@, a@),
{
    if let (Json::Number(x), Json::Number(y)) = (a, b) {
        if let (Some(m), Some(n)) = (x.unsigned, y.unsigned) {
            return if m < n {
                Placed::Before
            } else if n < m {
                Placed::After
            } else {
                Placed::Same
            };
        }
    }
    text_place(a_text, b_text)
}

/// Which of two row ids comes first: unsigned integers by their value, others
/// by their JSON text.
pub fn row_id_cmp(a: &Json, b: &Json) -> (r: Placed)
    ensures
        r == Placed::Before <==> id_before(a@, b@),
        r == Placed::After <==> id_before(b@, a@),
{
    let a_text: String = render_json(a);
    let b_text: String = render_json(b);
    row_id_place(a, a_text.as_str(), b, b_text.as_str())
}

/// A row that is kept for now, with the JSON text of its id.
struct KeptRow {
    row_id: Json,
    score: u32,
    text: String,
}

impl KeptRow {
    spec fn row(self) -> RowView {
        RowView { row_id: self.row_id@, score: self.score }
    }

    spec fn well_formed(self) -> bool {
        self.text@ == json::json_text(self.row_id@)
    }
}

spec fn kept_rows(v: Seq<KeptRow>) -> Seq<RowView> {
    Seq::new(v.len(), |i: int| v[i].row())
}

spec fn all_formed(v: Seq<KeptRow>) -> bool {
    forall|i: int| 0 <= i < v.len() ==> (#[trigger] v[i]).well_formed()
}

/// Tells whether row `a` has to stand before row `b`.
fn stands_before(a: &KeptRow, b: &KeptRow) -> (r: bool)
    requires
        a.well_formed(),
        b.well_formed(),
    ensures
        r == !listed_le(b.row(), a.row()),
{
    let x: i64 = total_rank_of(a.score);
    let y: i64 = total_rank_of(b.score);
    if x != y {
        x > y
    } else {
        let placed: Placed = row_id_place(&a.row_id, a.text.as_str(), &b.row_id, b.text.as_str());
        placed == Placed::Before
    }
}

/// Where the ids can be put in one order, so can the rows.
proof fn lemma_listed_trans(rows: Seq<RowView>, i: int, j: int, k: int)
    requires
        ids_in_line(rows),
        0 <= i < rows.len(),
        0 <= j < rows.len(),
        0 <= k < rows.len(),
    ensures
        listed_le(rows[i], rows[j]) && listed_le(rows[j], rows[k]) ==> listed_le(rows[i], rows[k]),
        weaker_le(rows[i], rows[j]) && weaker_le(rows[j], rows[k]) ==> weaker_le(rows[i], rows[k]),
{
    reveal(ids_in_line);
}

/// Two row ids never come before each other.
pub proof fn lemma_id_asym(a: JsonView, b: JsonView)
    ensures
        !(id_before(a, b) && id_before(b, a)),
{
    if text::text_before(json::json_text(a), json::json_text(b)) {
        text::lemma_text_before_asym(json::json_text(a), json::json_text(b));
    }
}

/// Putting a new row where it belongs keeps the order.
proof fn lemma_insert_keeps(
    rows: Seq<RowView>,
    out: Seq<RowView>,
    at: Seq<int>,
    k: nat,
    new: RowView,
    p: int,
)
    requires
        kept_at(rows, k, out, at),
        0 <= p <= out.len(),
        p > 0 ==> listed_le(out[p - 1], new),
        forall|i: int| p <= i < out.len() ==> !listed_le(#[trigger] out[i], new),
    ensures
        taken_from(rows.push(new), out.insert(p, new), at.insert(p, rows.len() as int)),
        forall|i: int, j: int|
            #![trigger out.insert(p, new)[i], out.insert(p, new)[j]]
            0 <= i < j < out.len() + 1 ==> bits::total_rank(out.insert(p, new)[i].score) >= bits::total_rank(
                out.insert(p, new)[j].score,
            ),
        ids_in_line(rows.push(new)) ==> forall|i: int, j: int|
            #![trigger out.insert(p, new)[i], out.insert(p, new)[j]]
            0 <= i < j < out.len() + 1 ==> listed_le(out.insert(p, new)[i], out.insert(p, new)[j]),
{
    let more = rows.push(new);
    let with = out.insert(p, new);
    let places = at.insert(p, rows.len() as int);
    let n = rows.len() as int;
    assert forall|i: int| #![trigger places[i]] 0 <= i < places.len() implies 0 <= places[i] < more.len() && with[i]
        == more[places[i]] by {
        if i < p {
            assert(places[i] == at[i] && with[i] == out[i]);
            assert(more[at[i]] == rows[at[i]]);
        } else if i > p {
            assert(places[i] == at[i - 1] && with[i] == out[i - 1]);
            assert(more[at[i - 1]] == rows[at[i - 1]]);
        }
    }
    assert(places.no_duplicates()) by {
        assert forall|i: int, j: int|
            0 <= i < places.len() && 0 <= j < places.len() && i != j implies places[i] != places[j] by {
            let a = if i < p { i } else { i - 1 };
            let b = if j < p { j } else { j - 1 };
            if i == p {
                assert(places[j] == at[b]);
            } else if j == p {
                assert(places[i] == at[a]);
            } else {
                assert(places[i] == at[a] && places[j] == at[b]);
            }
        }
    }
    assert forall|i: int, j: int|
        #![trigger with[i], with[j]]
        0 <= i < j < with.len() implies bits::total_rank(with[i].score) >= bits::total_rank(with[j].score) by {
        let a = if i < p { i } else { i - 1 };
        let b = if j < p { j } else { j - 1 };
        if i == p {
            assert(with[j] == out[b]);
            assert(!listed_le(out[b], new));
        } else if j == p {
            assert(with[i] == out[a]);
            if a < p - 1 {
                assert(bits::total_rank(out[a].score) >= bits::total_rank(out[p - 1].score));
            }
        } else {
            assert(with[i] == out[a] && with[j] == out[b]);
        }
    }
    if ids_in_line(more) {
        lemma_in_line_prefix(rows, new);
        assert forall|i: int, j: int|
            #![trigger with[i], with[j]]
            0 <= i < j < with.len() implies listed_le(with[i], with[j]) by {
            let a = if i < p { i } else { i - 1 };
            let b = if j < p { j } else { j - 1 };
            if i == p {
                assert(with[j] == out[b]);
                assert(!listed_le(out[b], new));
                lemma_id_asym(out[b].row_id, new.row_id);
            } else if j == p {
                assert(with[i] == out[a]);
                if a < p - 1 {
                    assert(listed_le(out[a], out[p - 1]));
                    assert(more[at[a]] == out[a] && more[at[p - 1]] == out[p - 1] && more[n] == new);
                    lemma_listed_trans(more, at[a], at[p - 1], n);
                }
            } else {
                assert(with[i] == out[a] && with[j] == out[b]);
            }
        }
    }
}

proof fn lemma_in_line_prefix(rows: Seq<RowView>, new: RowView)
    requires
        ids_in_line(rows.push(new)),
    ensures
        ids_in_line(rows),
{
    reveal(ids_in_line);
    let more = rows.push(new);
    assert forall|i: int, j: int, k: int|
        #![trigger rows[i], rows[j], rows[k]]
        0 <= i < rows.len() && 0 <= j < rows.len() && 0 <= k < rows.len() && id_le(rows[i].row_id, rows[j].row_id)
            && id_le(rows[j].row_id, rows[k].row_id) implies id_le(rows[i].row_id, rows[k].row_id) by {
        assert(more[i] == rows[i] && more[j] == rows[j] && more[k] == rows[k]);
    }
}

/// A position that is left out of the longer list was left out of the shorter one.
proof fn lemma_insert_excludes(at: Seq<int>, p: int, n: int, x: int)
    requires
        0 <= p <= at.len(),
        !at.insert(p, n).contains(x),
    ensures
        x != n,
        !at.contains(x),
{
    let places = at.insert(p, n);
    assert(places[p] == n);
    if at.contains(x) {
        let i = choose|i: int| 0 <= i < at.len() && at[i] == x;
        assert(places[if i < p { i } else { i + 1 }] == x);
    }
}

/// A position left out of the shorter list was left out of the longer one, or
/// is the one that was removed.
proof fn lemma_remove_excludes(places: Seq<int>, j: int, x: int)
    requires
        0 <= j < places.len(),
        !places.remove(j).contains(x),
    ensures
        x == places[j] || !places.contains(x),
{
    let fewer = places.remove(j);
    if places.contains(x) && x != places[j] {
        let i = choose|i: int| 0 <= i < places.len() && places[i] == x;
        assert(fewer[if i < j { i } else { i - 1 }] == x);
    }
}

/// Where nothing has been dropped yet, every position is taken.
proof fn lemma_all_taken(rows: Seq<RowView>, out: Seq<RowView>, at: Seq<int>, x: int)
    requires
        taken_from(rows, out, at),
        out.len() == rows.len(),
        0 <= x < rows.len(),
    ensures
        at.contains(x),
{
    at.unique_seq_to_set();
    let all = vstd::set_lib::set_int_range(0, rows.len() as int);
    vstd::set_lib::lemma_int_range(0, rows.len() as int);
    assert(at.to_set().subset_of(all)) by {
        assert forall|y: int| at.to_set().contains(y) implies all.contains(y) by {
            let i = choose|i: int| 0 <= i < at.len() && at[i] == y;
            assert(0 <= at[i] < rows.len());
        }
    }
    vstd::set_lib::lemma_subset_equality(at.to_set(), all);
    assert(all.contains(x));
}

/// Dropping the weakest of one too many keeps the best.
proof fn lemma_drop_keeps(
    rows: Seq<RowView>,
    before: Seq<RowView>,
    at: Seq<int>,
    k: nat,
    added: RowView,
    p: int,
    j: int,
)
    requires
        kept_at(rows, k, before, at),
        before.len() == k,
        0 <= p <= before.len(),
        0 <= j <= before.len(),
        taken_from(rows.push(added), before.insert(p, added), at.insert(p, rows.len() as int)),
        forall|a: int, b: int|
            #![trigger before.insert(p, added)[a], before.insert(p, added)[b]]
            0 <= a < b < before.len() + 1 ==> bits::total_rank(before.insert(p, added)[a].score)
                >= bits::total_rank(before.insert(p, added)[b].score),
        ids_in_line(rows.push(added)) ==> forall|a: int, b: int|
            #![trigger before.insert(p, added)[a], before.insert(p, added)[b]]
            0 <= a < b < before.len() + 1 ==> listed_le(
                before.insert(p, added)[a],
                before.insert(p, added)[b],
            ),
        forall|i: int|
            #![trigger before.insert(p, added)[i]]
            0 <= i < before.len() + 1 ==> bits::total_rank(before.insert(p, added)[j].score) <= bits::total_rank(
                before.insert(p, added)[i].score,
            ),
        forall|i: int|
            #![trigger before.insert(p, added)[i]]
            0 <= i < j ==> bits::total_rank(before.insert(p, added)[j].score) < bits::total_rank(
                before.insert(p, added)[i].score,
            ),
    ensures
        kept_at(
            rows.push(added),
            k,
            before.insert(p, added).remove(j),
            at.insert(p, rows.len() as int).remove(j),
        ),
{
    let more = rows.push(added);
    let n = rows.len() as int;
    let with = before.insert(p, added);
    let places = at.insert(p, n);
    let dropped = with[j];
    let fewer = with.remove(j);
    let rest = places.remove(j);
    assert(with[j] == more[places[j]]);
    assert(rest.no_duplicates()) by {
        assert forall|a: int, b: int| 0 <= a < rest.len() && 0 <= b < rest.len() && a != b implies rest[a]
            != rest[b] by {
            let x = if a < j { a } else { a + 1 };
            let y = if b < j { b } else { b + 1 };
            assert(rest[a] == places[x] && rest[b] == places[y]);
        }
    }
    assert forall|i: int| #![trigger rest[i]] 0 <= i < rest.len() implies 0 <= rest[i] < more.len() && fewer[i]
        == more[rest[i]] by {
        let x = if i < j { i } else { i + 1 };
        assert(rest[i] == places[x] && fewer[i] == with[x]);
    }
    assert forall|a: int, b: int|
        #![trigger fewer[a], fewer[b]]
        0 <= a < b < fewer.len() implies bits::total_rank(fewer[a].score) >= bits::total_rank(fewer[b].score) by {
        let x = if a < j { a } else { a + 1 };
        let y = if b < j { b } else { b + 1 };
        assert(fewer[a] == with[x] && fewer[b] == with[y]);
    }
    assert forall|x: int, i: int|
        #![trigger more[x], fewer[i]]
        0 <= x < more.len() && !rest.contains(x) && 0 <= i < fewer.len() implies bits::total_rank(more[x].score)
        <= bits::total_rank(fewer[i].score) by {
        let y = if i < j { i } else { i + 1 };
        assert(fewer[i] == with[y]);
        lemma_remove_excludes(places, j, x);
        if x != places[j] {
            lemma_insert_excludes(at, p, n, x);
            assert(more[x] == rows[x]);
            lemma_weak_score(rows, before, at, k, x, p, added, j);
        }
    }
    if ids_in_line(more) {
        assert forall|a: int, b: int| #![trigger fewer[a], fewer[b]] 0 <= a < b < fewer.len() implies listed_le(
            fewer[a],
            fewer[b],
        ) by {
            let x = if a < j { a } else { a + 1 };
            let y = if b < j { b } else { b + 1 };
            assert(fewer[a] == with[x] && fewer[b] == with[y]);
        }
        assert forall|x: int, i: int|
            #![trigger more[x], fewer[i]]
            0 <= x < more.len() && !rest.contains(x) && 0 <= i < fewer.len() implies weaker_le(more[x], fewer[i]) by {
            let y = if i < j { i } else { i + 1 };
            assert(fewer[i] == with[y]);
            lemma_weaker_than_kept(rows, before, at, k, added, p, j, x, y);
        }
    }
}

/// Where the ids can be put in one order, what is dropped is weaker than each
/// row that stays.
proof fn lemma_weaker_than_kept(
    rows: Seq<RowView>,
    before: Seq<RowView>,
    at: Seq<int>,
    k: nat,
    added: RowView,
    p: int,
    j: int,
    x: int,
    y: int,
)
    requires
        kept_at(rows, k, before, at),
        0 <= p <= before.len(),
        0 <= j <= before.len(),
        0 <= y <= before.len(),
        y != j,
        0 <= x <= rows.len(),
        !at.insert(p, rows.len() as int).remove(j).contains(x),
        taken_from(rows.push(added), before.insert(p, added), at.insert(p, rows.len() as int)),
        ids_in_line(rows.push(added)),
        j < y ==> listed_le(before.insert(p, added)[j], before.insert(p, added)[y]),
        j < y ==> bits::total_rank(before.insert(p, added)[j].score) <= bits::total_rank(
            before.insert(p, added)[y].score,
        ),
        y < j ==> bits::total_rank(before.insert(p, added)[j].score) < bits::total_rank(
            before.insert(p, added)[y].score,
        ),
    ensures
        weaker_le(rows.push(added)[x], before.insert(p, added)[y]),
{
    let more = rows.push(added);
    let n = rows.len() as int;
    let with = before.insert(p, added);
    let places = at.insert(p, n);
    let dropped = with[j];
    assert(weaker_le(dropped, with[y]));
    assert(0 <= places[j] < more.len() && with[j] == more[places[j]]);
    assert(0 <= places[p] < more.len() && with[p] == more[places[p]]);
    lemma_in_line_prefix(rows, added);
    lemma_remove_excludes(places, j, x);
    if x != places[j] {
        lemma_insert_excludes(at, p, n, x);
        assert(more[x] == rows[x]);
        if y != p {
            let o = if y < p { y } else { y - 1 };
            assert(with[y] == before[o]);
            assert(weaker_le(rows[x], before[o]));
        } else {
            let o = if j < p { j } else { j - 1 };
            assert(with[j] == before[o]);
            assert(weaker_le(rows[x], before[o]));
            lemma_listed_trans(more, x, places[j], places[p]);
        }
    }
}

/// The place of a new row: behind every row that it does not stand before.
fn find_place(out: &Vec<KeptRow>, new: &KeptRow) -> (p: usize)
    requires
        all_formed(out@),
        new.well_formed(),
    ensures
        p <= out@.len(),
        p > 0 ==> listed_le(kept_rows(out@)[p - 1], new.row()),
        forall|i: int| p <= i < out@.len() ==> !listed_le(#[trigger] kept_rows(out@)[i], new.row()),
{
    let ghost before = kept_rows(out@);
    let ghost added = new.row();
    let mut p: usize = out.len();
    while p > 0 && stands_before(new, &out[p - 1])
        invariant
            all_formed(out@),
            new.well_formed(),
            added == new.row(),
            before == kept_rows(out@),
            p <= out@.len(),
            forall|i: int| p <= i < before.len() ==> !listed_le(#[trigger] before[i], added),
        decreases p,
    {
        assert(before[p - 1] == out@[p - 1].row());
        p = p - 1;
    }
    proof {
        if p > 0 {
            assert(before[p - 1] == out@[p - 1].row());
        }
    }
    p
}

/// The first of the rows at the end that score as low as the last one.
fn find_weakest(out: &Vec<KeptRow>) -> (j: usize)
    requires
        out@.len() > 0,
    ensures
        j < out@.len(),
        forall|i: int|
            j <= i < out@.len() ==> bits::total_rank(#[trigger] kept_rows(out@)[i].score) == bits::total_rank(
                kept_rows(out@)[j as int].score,
            ),
        j > 0 ==> bits::total_rank(kept_rows(out@)[j - 1].score) != bits::total_rank(
            kept_rows(out@)[j as int].score,
        ),
{
    let ghost with = kept_rows(out@);
    let len: usize = out.len();
    let last: i64 = total_rank_of(out[len - 1].score);
    let mut j: usize = len - 1;
    assert(with[len - 1] == out@[len - 1].row());
    while j > 0 && total_rank_of(out[j - 1].score) == last
        invariant
            with == kept_rows(out@),
            len == out@.len(),
            j < len,
            last == bits::total_rank(with[len - 1].score),
            forall|i: int| j <= i < len ==> bits::total_rank(#[trigger] with[i].score) == last,
        decreases j,
    {
        assert(with[j - 1] == out@[j - 1].row());
        j = j - 1;
    }
    proof {
        if j > 0 {
            assert(with[j - 1] == out@[j - 1].row());
        }
    }
    j
}

/// Puts a new row where it belongs and, where that makes one too many, drops
/// the weakest.
fn keep_row(
    out: &mut Vec<KeptRow>,
    new: KeptRow,
    k: usize,
    Ghost(rows): Ghost<Seq<RowView>>,
    Ghost(at): Ghost<Seq<int>>,
) -> (next: Ghost<Seq<int>>)
    requires
        k >= 1,
        all_formed(old(out)@),
        new.well_formed(),
        kept_at(rows, k as nat, kept_rows(old(out)@), at),
    ensures
        all_formed(final(out)@),
        kept_at(rows.push(new.row()), k as nat, kept_rows(final(out)@), next@),
{
    let ghost before = kept_rows(out@);
    let ghost added = new.row();
    let ghost more = rows.push(added);
    let ghost n = rows.len() as int;
    let p: usize = find_place(out, &new);
    proof {
        lemma_insert_keeps(rows, before, at, k as nat, added, p as int);
    }
    let ghost places = at.insert(p as int, n);
    out.insert(p, new);
    let ghost with = before.insert(p as int, added);
    proof {
        assert(kept_rows(out@) =~= with);
        assert(all_formed(out@));
    }
    let len: usize = out.len();
    if len <= k {
        proof {
            assert forall|x: int, i: int|
                #![trigger more[x], with[i]]
                0 <= x < more.len() && !places.contains(x) && 0 <= i < with.len() implies false by {
                lemma_insert_excludes(at, p as int, n, x);
                lemma_all_taken(rows, before, at, x);
            }
        }
        return Ghost(places);
    }
    let j: usize = find_weakest(out);
    proof {
        lemma_drop_keeps(rows, before, at, k as nat, added, p as int, j as int);
    }
    out.remove(j);
    proof {
        assert(kept_rows(out@) =~= with.remove(j as int));
    }
    Ghost(places.remove(j as int))
}

/// What was dropped before scores no higher than what the longer list holds
/// apart from the row that is dropped now.
proof fn lemma_weak_score(
    rows: Seq<RowView>,
    before: Seq<RowView>,
    at: Seq<int>,
    k: nat,
    x: int,
    p: int,
    added: RowView,
    j: int,
)
    requires
        kept_at(rows, k, before, at),
        0 <= x < rows.len(),
        !at.contains(x),
        0 <= p <= before.len(),
        0 <= j <= before.len(),
        forall|i: int|
            0 <= i < before.len() + 1 ==> bits::total_rank(before.insert(p, added)[j].score) <= bits::total_rank(
                #[trigger] before.insert(p, added)[i].score,
            ),
    ensures
        forall|i: int|
            #![trigger before.insert(p, added)[i]]
            0 <= i < before.len() + 1 && i != j ==> bits::total_rank(rows[x].score) <= bits::total_rank(
                before.insert(p, added)[i].score,
            ),
{
    let with = before.insert(p, added);
    assert forall|i: int| #![trigger with[i]] 0 <= i < with.len() && i != j implies bits::total_rank(rows[x].score)
        <= bits::total_rank(with[i].score) by {
        if i != p {
            let o = if i < p { i } else { i - 1 };
            assert(with[i] == before[o]);
        } else {
            let o = if j < p { j } else { j - 1 };
            assert(with[j] == before[o]);
        }
    }
}

/// Most results of one retrieval.
pub const K_CAP: usize = 10_000;

/// Rows between two looks at the cancellation flag.
pub const CANCEL_CHECK_INTERVAL: usize = 4096;

/// Sets or resets the flag by which a running similarity scan is asked to stop.
pub fn set_similarity_cancel(flag: &mut bool, cancel: bool)
    ensures
        *final(flag) == cancel,
{
    *flag = cancel;
}

/// `s` is the cosine similarity of two embeddings.
pub open spec fn score_answer<
    L: Fn(&Vec<u32>) -> u32,
    D: Fn(u32, u32) -> u32,
    T: Fn(&Vec<u32>, &Vec<u32>) -> u32,
>(math: VectorMath<L, D, T>, q: Seq<u32>, v: Seq<u32>, s: u32) -> bool {
    cosine::is_cosine(math.norm, math.divide, math.dot, q, v, s)
}

/// The score of two embeddings.
pub open spec fn scored<
    L: Fn(&Vec<u32>) -> u32,
    D: Fn(u32, u32) -> u32,
    T: Fn(&Vec<u32>, &Vec<u32>) -> u32,
>(math: VectorMath<L, D, T>, q: Seq<u32>, v: Seq<u32>) -> u32 {
    choose|s: u32| score_answer(math, q, v, s)
}

/// Whether an embedding has a direction: it can be brought to length 1.
pub open spec fn usable_answer<
    L: Fn(&Vec<u32>) -> u32,
    D: Fn(u32, u32) -> u32,
    T: Fn(&Vec<u32>, &Vec<u32>) -> u32,
>(math: VectorMath<L, D, T>, q: Seq<u32>, usable: bool) -> bool {
    exists|r: Option<Seq<u32>>| #[trigger]
        cosine::normalizes(math.norm, math.divide, q, r) && usable == (r is Some)
}

/// What a scan makes of one candidate.
pub enum ElementView {
    /// It has no row id or no readable embedding.
    Malformed,
    /// Its embedding is null.
    Missing,
    /// It has a score, 0 where its embedding has the wrong length.
    Scored { row: RowView, mismatch: bool },
}

/// What a scan makes of one candidate.
pub open spec fn element_of<
    N: Fn(u64) -> u32,
    L: Fn(&Vec<u32>) -> u32,
    D: Fn(u32, u32) -> u32,
    T: Fn(&Vec<u32>, &Vec<u32>) -> u32,
>(
    el: JsonView,
    q: Seq<u32>,
    narrow: N,
    math: VectorMath<L, D, T>,
) -> ElementView {
    match (row_id_of(el), payload_of(el, narrow)) {
        (Some(row_id), Some(PayloadView::Vector(v))) => if v.len() != q.len() {
            ElementView::Scored { row: RowView { row_id, score: 0 }, mismatch: true }
        } else {
            ElementView::Scored { row: RowView { row_id, score: scored(math, q, v) }, mismatch: false }
        },
        (Some(row_id), Some(PayloadView::Missing)) => ElementView::Missing,
        _ => ElementView::Malformed,
    }
}

/// The score of a candidate is an answer of the scoring function.
pub open spec fn element_answered<
    N: Fn(u64) -> u32,
    L: Fn(&Vec<u32>) -> u32,
    D: Fn(u32, u32) -> u32,
    T: Fn(&Vec<u32>, &Vec<u32>) -> u32,
>(
    el: JsonView,
    q: Seq<u32>,
    narrow: N,
    math: VectorMath<L, D, T>,
) -> bool {
    match (row_id_of(el), payload_of(el, narrow)) {
        (Some(row_id), Some(PayloadView::Vector(v))) => v.len() == q.len() ==> score_answer(
            math,
            q,
            v,
            scored(math, q, v),
        ),
        _ => true,
    }
}

/// What a scan has seen: the rows that reach the threshold, and the counts.
pub struct Tally {
    pub accepted: Seq<RowView>,
    pub missing: nat,
    pub malformed: nat,
    pub mismatched: nat,
}

/// What a scan has seen after the first `n` candidates.
pub open spec fn tally<
    N: Fn(u64) -> u32,
    L: Fn(&Vec<u32>) -> u32,
    D: Fn(u32, u32) -> u32,
    T: Fn(&Vec<u32>, &Vec<u32>) -> u32,
>(
    els: Seq<JsonView>,
    n: nat,
    q: Seq<u32>,
    threshold: u32,
    narrow: N,
    math: VectorMath<L, D, T>,
) -> Tally
    decreases n,
{
    if n == 0 {
        Tally { accepted: Seq::empty(), missing: 0, malformed: 0, mismatched: 0 }
    } else {
        let t = tally(els, (n - 1) as nat, q, threshold, narrow, math);
        match element_of(els[n - 1], q, narrow, math) {
            ElementView::Malformed => Tally { malformed: t.malformed + 1, ..t },
            ElementView::Missing => Tally { missing: t.missing + 1, ..t },
            ElementView::Scored { row, mismatch } => Tally {
                accepted: if bits::less_eq_single(threshold, row.score) {
                    t.accepted.push(row)
                } else {
                    t.accepted
                },
                mismatched: if mismatch {
                    t.mismatched + 1
                } else {
                    t.mismatched
                },
                ..t
            },
        }
    }
}

/// What a similarity scan hands back.
#[derive(Debug, PartialEq)]
pub struct SimilarityResult {
    /// The best rows, highest score first.
    pub results: Vec<ScoredRow>,
    /// How many candidates were looked at.
    pub scanned: usize,
    /// How many of them had a null embedding.
    pub skipped_null: usize,
    /// How many of them were malformed.
    pub skipped_bad_len: usize,
    /// How many of them had an embedding of the wrong length.
    pub skipped_dim: usize,
    /// The caller asked for a stop.
    pub cancelled: bool,
}

/// What a scan over `els` hands back: the best `k` of the candidates looked at
/// that reach the threshold, and the counts. Every candidate is looked at,
/// unless the scan was asked to stop after a multiple of
/// [`CANCEL_CHECK_INTERVAL`] of them.
pub open spec fn scan_result<
    N: Fn(u64) -> u32,
    L: Fn(&Vec<u32>) -> u32,
    D: Fn(u32, u32) -> u32,
    T: Fn(&Vec<u32>, &Vec<u32>) -> u32,
    F: Fn() -> bool,
>(
    els: Seq<JsonView>,
    q: Seq<u32>,
    k: nat,
    threshold: u32,
    narrow: N,
    math: VectorMath<L, D, T>,
    requested: F,
    r: SimilarityResult,
) -> bool {
    let t = tally(els, r.scanned as nat, q, threshold, narrow, math);
    &&& r.scanned <= els.len()
    &&& best_of(t.accepted, k, row_views(r.results@))
    &&& r.skipped_null == t.missing
    &&& r.skipped_bad_len == t.malformed
    &&& r.skipped_dim == t.mismatched
    &&& !r.cancelled ==> r.scanned == els.len()
    &&& r.cancelled ==> {
        &&& 0 < r.scanned < els.len()
        &&& r.scanned % CANCEL_CHECK_INTERVAL == 0
        &&& call_ensures(requested, (), true)
    }
    &&& r.scanned > CANCEL_CHECK_INTERVAL ==> call_ensures(requested, (), false)
    &&& forall|i: int| 0 <= i < r.scanned ==> element_answered(#[trigger] els[i], q, narrow, math)
}

/// The functions that compute with single precision numbers on behalf of the
/// library can be called, and give one answer each.
pub open spec fn sound_vectors<
    N: Fn(u64) -> u32,
    L: Fn(&Vec<u32>) -> u32,
    D: Fn(u32, u32) -> u32,
    T: Fn(&Vec<u32>, &Vec<u32>) -> u32,
>(narrow: N, math: VectorMath<L, D, T>) -> bool {
    &&& forall|x: u64| call_requires(narrow, (x,))
    &&& one_rounding(narrow)
    &&& cosine::sound_math(math)
}

/// Scans candidates for the ones closest to the query.
pub fn scan_candidates<
    N: Fn(u64) -> u32,
    L: Fn(&Vec<u32>) -> u32,
    D: Fn(u32, u32) -> u32,
    T: Fn(&Vec<u32>, &Vec<u32>) -> u32,
    F: Fn() -> bool,
>(
    els: &Vec<Json>,
    q: &Vec<u32>,
    k: usize,
    threshold: u32,
    narrow: &N,
    math: &VectorMath<L, D, T>,
    requested: &F,
) -> (r: SimilarityResult)
    requires
        k >= 1,
        call_requires(*requested, ()),
        forall|x: u64| call_requires(*narrow, (x,)),
        one_rounding(*narrow),
        cosine::sound_math(*math),
    ensures
        scan_result(json::views(els@), q@, k as nat, threshold, *narrow, *math, *requested, r),
{
    let ghost all = json::views(els@);
    let mut kept: Vec<KeptRow> = Vec::new();
    let ghost mut at: Seq<int> = Seq::empty();
    let mut skipped_null: usize = 0;
    let mut skipped_bad_len: usize = 0;
    let mut skipped_dim: usize = 0;
    let mut cancelled: bool = false;
    let mut i: usize = 0;
    assert(kept_at(Seq::empty(), k as nat, kept_rows(kept@), at));
    while i < els.len() && !cancelled
        invariant
            k >= 1,
            call_requires(*requested, ()),
            forall|x: u64| call_requires(*narrow, (x,)),
            one_rounding(*narrow),
            cosine::sound_math(*math),
            all == json::views(els@),
            i <= els@.len(),
            all_formed(kept@),
            kept_at(
                tally(all, i as nat, q@, threshold, *narrow, *math).accepted,
                k as nat,
                kept_rows(kept@),
                at,
            ),
            skipped_null == tally(all, i as nat, q@, threshold, *narrow, *math).missing,
            skipped_bad_len == tally(all, i as nat, q@, threshold, *narrow, *math).malformed,
            skipped_dim == tally(all, i as nat, q@, threshold, *narrow, *math).mismatched,
            skipped_null <= i,
            skipped_bad_len <= i,
            skipped_dim <= i,
            cancelled ==> 0 < i < els@.len() && i % CANCEL_CHECK_INTERVAL == 0 && call_ensures(
                *requested,
                (),
                true,
            ),
            i > CANCEL_CHECK_INTERVAL ==> call_ensures(*requested, (), false),
            forall|x: int| 0 <= x < i ==> element_answered(#[trigger] all[x], q@, *narrow, *math),
        decreases els.len() - i, if cancelled { 0int } else { 1int },
    {
        if i > 0 && i % CANCEL_CHECK_INTERVAL == 0 && requested() {
            cancelled = true;
        } else {
            let ghost seen = tally(all, i as nat, q@, threshold, *narrow, *math);
            let el: &Json = &els[i];
            assert(all[i as int] == el@);
            match (candidate_row_id(el), candidate_embed(el, narrow)) {
                (Some(row_id), Some(Payload::Vector(v))) => {
                    let s: u32 = if v.len() != q.len() {
                        skipped_dim = skipped_dim + 1;
                        0
                    } else {
                        let s: u32 = cosine_similarity(q, &v, &math.norm, &math.divide, &math.dot);
                        assert(score_answer(*math, q@, v@, s));
                        assert(score_answer(*math, q@, v@, scored(*math, q@, v@)));
                        proof {
                            cosine::lemma_one_cosine(*math, q@, v@, s, scored(*math, q@, v@));
                        }
                        s
                    };
                    if is_less_eq_single(threshold, s) {
                        let text: String = render_json(row_id);
                        let new = KeptRow { row_id: row_id.copy(), score: s, text };
                        let ghost row = new.row();
                        let next = keep_row(&mut kept, new, k, Ghost(seen.accepted), Ghost(at));
                        proof {
                            at = next@;
                            assert(row == RowView { row_id: row_id@, score: s });
                        }
                    }
                },
                (Some(_), Some(Payload::Missing)) => {
                    skipped_null = skipped_null + 1;
                },
                _ => {
                    skipped_bad_len = skipped_bad_len + 1;
                },
            }
            i = i + 1;
        }
    }
    let ghost before = kept_rows(kept@);
    let mut results: Vec<ScoredRow> = Vec::new();
    let mut j: usize = 0;
    while j < kept.len()
        invariant
            before == kept_rows(kept@),
            j <= kept@.len(),
            results@.len() == j,
            forall|x: int| 0 <= x < j ==> (#[trigger] results@[x])@ == before[x],
        decreases kept.len() - j,
    {
        results.push(ScoredRow { row_id: kept[j].row_id.copy(), score: kept[j].score });
        j = j + 1;
    }
    assert(row_views(results@) =~= before);
    SimilarityResult { results, scanned: i, skipped_null, skipped_bad_len, skipped_dim, cancelled }
}

/// The candidates of a text: none where it is blank, else those of a JSON array.
pub open spec fn candidates_in(text: Seq<char>, doc: Result<JsonView, Seq<char>>) -> Result<
    Seq<JsonView>,
    Seq<char>,
> {
    if text::trimmed(text).len() == 0 {
        Ok(Seq::empty())
    } else {
        match doc {
            Err(e) => Err("invalid candidates JSON: "@ + e),
            Ok(JsonView::Array(a)) => Ok(a),
            Ok(_) => Err("candidates must be a JSON array"@),
        }
    }
}

/// What [`similarity_from_json`] gives for a query and candidates.
pub open spec fn similarity_outcome<
    N: Fn(u64) -> u32,
    L: Fn(&Vec<u32>) -> u32,
    D: Fn(u32, u32) -> u32,
    T: Fn(&Vec<u32>, &Vec<u32>) -> u32,
    F: Fn() -> bool,
>(
    query: Result<Seq<u32>, Seq<char>>,
    els: Result<Seq<JsonView>, Seq<char>>,
    k: nat,
    threshold: u64,
    narrow: N,
    math: VectorMath<L, D, T>,
    requested: F,
    r: Result<SimilarityResult, String>,
) -> bool {
    if k == 0 {
        r matches Err(e) && e@ == "k must be >= 1"@
    } else {
        match query {
            Err(message) => r matches Err(e) && e@ == message,
            Ok(q) => {
                ||| usable_answer(math, q, false) && (r matches Err(e) && e@
                    == "query embedding is not normalizable (zero norm or NaN)"@)
                ||| usable_answer(math, q, true) && match els {
                    Err(message) => r matches Err(e) && e@ == message,
                    Ok(a) => r matches Ok(result) && scan_result(
                        a,
                        q,
                        if k <= K_CAP {
                            k
                        } else {
                            K_CAP as nat
                        },
                        rounded(narrow, bits::clamped(threshold)),
                        narrow,
                        math,
                        requested,
                        result,
                    ),
                }
            },
        }
    }
}

/// Full scan of JSON candidates for the `k` rows most similar to the query, at
/// most [`K_CAP`], whose score is at least `threshold` (the bits of a double,
/// brought into the range from -1 to 1 and rounded to single precision).
///
/// A score is the cosine similarity of two embeddings of the same length; the
/// arithmetic on vectors is the caller's.
pub fn similarity_from_json<
    N: Fn(u64) -> u32,
    L: Fn(&Vec<u32>) -> u32,
    D: Fn(u32, u32) -> u32,
    T: Fn(&Vec<u32>, &Vec<u32>) -> u32,
    F: Fn() -> bool,
>(
    query: &str,
    candidates: &str,
    k: usize,
    threshold: u64,
    narrow: &N,
    math: &VectorMath<L, D, T>,
    requested: &F,
) -> (r: Result<SimilarityResult, String>)
    requires
        call_requires(*requested, ()),
        sound_vectors(*narrow, *math),
    ensures
        similarity_outcome(
            query_in(query@, *narrow),
            candidates_in(candidates@, json::json_document(candidates@)),
            k as nat,
            threshold,
            *narrow,
            *math,
            *requested,
            r,
        ),
{
    if k == 0 {
        return Err("k must be >= 1".to_owned());
    }
    let most: usize = if k <= K_CAP { k } else { K_CAP };
    let floor: u32 = narrow(clamp_unit(threshold));
    assert(floor == rounded(*narrow, bits::clamped(threshold)));
    let q: Vec<u32> = match parse_query_vec(query, narrow) {
        Ok(q) => q,
        Err(e) => {
            return Err(e);
        },
    };
    let direction: Option<Vec<u32>> = l2_normalize(&q, &math.norm, &math.divide);
    assert(usable_answer(*math, q@, direction is Some)) by {
        assert(cosine::normalizes(math.norm, math.divide, q@, cosine::vector_of(direction)));
    }
    if direction.is_none() {
        return Err("query embedding is not normalizable (zero norm or NaN)".to_owned());
    }
    let blank: String = trim(candidates);
    let blank_chars: Vec<char> = chars_of(blank.as_str());
    if blank_chars.len() == 0 {
        let none: Vec<Json> = Vec::new();
        assert(json::views(none@) =~= Seq::empty());
        return Ok(scan_candidates(&none, &q, most, floor, narrow, math, requested));
    }
    let parsed: Json = match parse_json(candidates) {
        Ok(doc) => doc,
        Err(message) => {
            let mut e: String = "invalid candidates JSON: ".to_owned();
            e.append(message.as_str());
            return Err(e);
        },
    };
    match parsed.as_array() {
        Some(els) => Ok(scan_candidates(els, &q, most, floor, narrow, math, requested)),
        None => Err("candidates must be a JSON array".to_owned()),
    }
}

/// Row ids that are all unsigned integers can be put in one order.
pub proof fn law_numbered_ids_are_in_line(rows: Seq<RowView>)
    requires
        forall|i: int| 0 <= i < rows.len() ==> unsigned_of((#[trigger] rows[i]).row_id) is Some,
    ensures
        ids_in_line(rows),
{
    reveal(ids_in_line);
}

/// Row ids of which none is an unsigned integer can be put in one order.
pub proof fn law_textual_ids_are_in_line(rows: Seq<RowView>)
    requires
        forall|i: int| 0 <= i < rows.len() ==> unsigned_of((#[trigger] rows[i]).row_id) is None,
    ensures
        ids_in_line(rows),
{
    reveal(ids_in_line);
    assert forall|i: int, j: int, k: int|
        #![trigger rows[i], rows[j], rows[k]]
        0 <= i < rows.len() && 0 <= j < rows.len() && 0 <= k < rows.len() && id_le(rows[i].row_id, rows[j].row_id)
            && id_le(rows[j].row_id, rows[k].row_id) implies id_le(rows[i].row_id, rows[k].row_id) by {
        let a = json::json_text(rows[i].row_id);
        let b = json::json_text(rows[j].row_id);
        let c = json::json_text(rows[k].row_id);
        if text::text_before(c, a) {
            text::lemma_text_before_total(a, b);
            text::lemma_text_before_total(b, c);
            if text::text_before(a, b) {
                text::lemma_text_before_trans(c, a, b);
            }
        }
    }
}

proof fn lemma_accepted_reach<
    N: Fn(u64) -> u32,
    L: Fn(&Vec<u32>) -> u32,
    D: Fn(u32, u32) -> u32,
    T: Fn(&Vec<u32>, &Vec<u32>) -> u32,
>(
    els: Seq<JsonView>,
    n: nat,
    q: Seq<u32>,
    threshold: u32,
    narrow: N,
    math: VectorMath<L, D, T>,
    i: int,
)
    requires
        0 <= i < tally(els, n, q, threshold, narrow, math).accepted.len(),
    ensures
        bits::less_eq_single(threshold, tally(els, n, q, threshold, narrow, math).accepted[i].score),
    decreases n,
{
    if n > 0 {
        let t = tally(els, (n - 1) as nat, q, threshold, narrow, math);
        if i < t.accepted.len() {
            lemma_accepted_reach(els, (n - 1) as nat, q, threshold, narrow, math, i);
        }
    }
}

/// Every result reaches the threshold.
pub proof fn law_results_reach_threshold<
    N: Fn(u64) -> u32,
    L: Fn(&Vec<u32>) -> u32,
    D: Fn(u32, u32) -> u32,
    T: Fn(&Vec<u32>, &Vec<u32>) -> u32,
    F: Fn() -> bool,
>(
    els: Seq<JsonView>,
    q: Seq<u32>,
    k: nat,
    threshold: u32,
    narrow: N,
    math: VectorMath<L, D, T>,
    requested: F,
    r: SimilarityResult,
    i: int,
)
    requires
        scan_result(els, q, k, threshold, narrow, math, requested, r),
        0 <= i < r.results@.len(),
    ensures
        bits::less_eq_single(threshold, r.results@[i].score),
{
    let rows = tally(els, r.scanned as nat, q, threshold, narrow, math).accepted;
    let out = row_views(r.results@);
    let at = choose|at: Seq<int>| #[trigger] kept_at(rows, k, out, at);
    assert(out[i] == rows[at[i]]);
    lemma_accepted_reach(els, r.scanned as nat, q, threshold, narrow, math, at[i]);
}

proof fn lemma_accepted_in_range<
    N: Fn(u64) -> u32,
    L: Fn(&Vec<u32>) -> u32,
    D: Fn(u32, u32) -> u32,
    T: Fn(&Vec<u32>, &Vec<u32>) -> u32,
>(els: Seq<JsonView>, n: nat, q: Seq<u32>, threshold: u32, narrow: N, math: VectorMath<L, D, T>, i: int)
    requires
        forall|x: int| 0 <= x < n ==> element_answered(#[trigger] els[x], q, narrow, math),
        0 <= i < tally(els, n, q, threshold, narrow, math).accepted.len(),
    ensures
        ({
            let score = tally(els, n, q, threshold, narrow, math).accepted[i].score;
            bits::less_eq_single(cosine::MINUS_ONE, score) && bits::less_eq_single(score, cosine::ONE)
        }),
    decreases n,
{
    if n > 0 {
        let t = tally(els, (n - 1) as nat, q, threshold, narrow, math);
        if i < t.accepted.len() {
            lemma_accepted_in_range(els, (n - 1) as nat, q, threshold, narrow, math, i);
        } else {
            assert(element_answered(els[n - 1], q, narrow, math));
            if let Some(PayloadView::Vector(v)) = payload_of(els[n - 1], narrow) {
                if v.len() == q.len() {
                    cosine::law_cosine_is_in_range(math.norm, math.divide, math.dot, q, v, scored(math, q, v));
                }
            }
        }
    }
}

/// Every reported score lies between -1 and 1.
pub proof fn law_scores_are_in_range<
    N: Fn(u64) -> u32,
    L: Fn(&Vec<u32>) -> u32,
    D: Fn(u32, u32) -> u32,
    T: Fn(&Vec<u32>, &Vec<u32>) -> u32,
    F: Fn() -> bool,
>(
    els: Seq<JsonView>,
    q: Seq<u32>,
    k: nat,
    threshold: u32,
    narrow: N,
    math: VectorMath<L, D, T>,
    requested: F,
    r: SimilarityResult,
    i: int,
)
    requires
        scan_result(els, q, k, threshold, narrow, math, requested, r),
        0 <= i < r.results@.len(),
    ensures
        bits::less_eq_single(cosine::MINUS_ONE, r.results@[i].score),
        bits::less_eq_single(r.results@[i].score, cosine::ONE),
{
    let rows = tally(els, r.scanned as nat, q, threshold, narrow, math).accepted;
    let at = choose|at: Seq<int>| #[trigger] kept_at(rows, k, row_views(r.results@), at);
    assert(row_views(r.results@)[i] == r.results@[i]@);
    assert(row_views(r.results@)[i] == rows[at[i]]);
    lemma_accepted_in_range(els, r.scanned as nat, q, threshold, narrow, math, at[i]);
}

/// No two rows tie: equal places mean equal rows, and no row stands twice.
pub open spec fn rows_differ(rows: Seq<RowView>) -> bool {
    &&& rows.no_duplicates()
    &&& forall|i: int, j: int|
        #![trigger rows[i], rows[j]]
        0 <= i < rows.len() && 0 <= j < rows.len() && rows[i].score == rows[j].score && id_le(
            rows[i].row_id,
            rows[j].row_id,
        ) && id_le(rows[j].row_id, rows[i].row_id) ==> rows[i] == rows[j]
}

/// Every position that one choice of the best rows takes the other one takes.
proof fn lemma_same_places(
    rows: Seq<RowView>,
    k: nat,
    a: Seq<RowView>,
    a_at: Seq<int>,
    b: Seq<RowView>,
    b_at: Seq<int>,
    x: int,
)
    requires
        ids_in_line(rows),
        rows_differ(rows),
        kept_at(rows, k, a, a_at),
        kept_at(rows, k, b, b_at),
        a_at.contains(x),
    ensures
        b_at.contains(x),
{
    if !b_at.contains(x) {
        let all = a_at.to_set();
        let others = b_at.to_set();
        a_at.unique_seq_to_set();
        b_at.unique_seq_to_set();
        if others.subset_of(all) {
            assert(others.subset_of(all.remove(x)));
            vstd::set_lib::lemma_len_subset(others, all.remove(x));
        }
        let y = choose|y: int| others.contains(y) && !all.contains(y);
        let i = choose|i: int| 0 <= i < a_at.len() && a_at[i] == x;
        let j = choose|j: int| 0 <= j < b_at.len() && b_at[j] == y;
        assert(a[i] == rows[x] && b[j] == rows[y]);
        assert(weaker_le(rows[x], b[j]));
        assert(weaker_le(rows[y], a[i]));
    }
}

/// The best rows are determined, as long as their ids can be put in one order
/// and no two rows tie.
pub proof fn law_best_rows_are_determined(rows: Seq<RowView>, k: nat, a: Seq<RowView>, b: Seq<RowView>)
    requires
        ids_in_line(rows),
        rows_differ(rows),
        best_of(rows, k, a),
        best_of(rows, k, b),
    ensures
        a == b,
{
    let a_at = choose|at: Seq<int>| #[trigger] kept_at(rows, k, a, at);
    let b_at = choose|at: Seq<int>| #[trigger] kept_at(rows, k, b, at);
    let before = |x: RowView, y: RowView| listed_le(x, y) && !listed_le(y, x);
    lemma_listed_strictly(rows, k, a, a_at);
    lemma_listed_strictly(rows, k, b, b_at);
    assert forall|row: RowView| #[trigger] a.contains(row) <==> b.contains(row) by {
        if a.contains(row) {
            let i = choose|i: int| 0 <= i < a.len() && a[i] == row;
            assert(a_at.contains(a_at[i]));
            lemma_same_places(rows, k, a, a_at, b, b_at, a_at[i]);
            let j = choose|j: int| 0 <= j < b_at.len() && b_at[j] == a_at[i];
            assert(b[j] == row);
        }
        if b.contains(row) {
            let j = choose|j: int| 0 <= j < b.len() && b[j] == row;
            assert(b_at.contains(b_at[j]));
            lemma_same_places(rows, k, b, b_at, a, a_at, b_at[j]);
            let i = choose|i: int| 0 <= i < a_at.len() && a_at[i] == b_at[j];
            assert(a[i] == row);
        }
    }
    sorting::lemma_order_is_unique(a, b, before);
}

/// Where no two rows tie, the best rows are listed strictly.
proof fn lemma_listed_strictly(rows: Seq<RowView>, k: nat, out: Seq<RowView>, at: Seq<int>)
    requires
        ids_in_line(rows),
        rows_differ(rows),
        kept_at(rows, k, out, at),
    ensures
        sorting::in_order(out, |x: RowView, y: RowView| listed_le(x, y) && !listed_le(y, x)),
{
    assert forall|i: int, j: int| #![trigger out[i], out[j]] 0 <= i < j < out.len() implies listed_le(
        out[i],
        out[j],
    ) && !listed_le(out[j], out[i]) by {
        assert(out[i] == rows[at[i]] && out[j] == rows[at[j]]);
        assert(at[i] != at[j]);
    }
}

/// A scan of no more candidates than the check interval is never cancelled, and
/// looks at all of them.
pub proof fn law_small_similarity_scan_is_complete<
    N: Fn(u64) -> u32,
    L: Fn(&Vec<u32>) -> u32,
    D: Fn(u32, u32) -> u32,
    T: Fn(&Vec<u32>, &Vec<u32>) -> u32,
    F: Fn() -> bool,
>(
    els: Seq<JsonView>,
    q: Seq<u32>,
    k: nat,
    threshold: u32,
    narrow: N,
    math: VectorMath<L, D, T>,
    requested: F,
    r: SimilarityResult,
)
    requires
        scan_result(els, q, k, threshold, narrow, math, requested, r),
        els.len() <= CANCEL_CHECK_INTERVAL,
    ensures
        !r.cancelled,
        r.scanned == els.len(),
{
}

/// The `ml_similarity_value` function.
pub struct SimilarityFn;

/// One row of arguments of [`SimilarityFn`]; a missing value is a null, the
/// threshold is the bits of a double.
#[derive(Debug, PartialEq, Eq)]
pub struct SimilarityRow {
    pub query: Option<String>,
    pub candidates: Option<String>,
    pub k: Option<u64>,
    pub threshold: Option<u64>,
}

impl SimilarityRow {
    /// A required argument is null.
    pub open spec fn has_null(self) -> bool {
        self.query is None || self.candidates is None
    }
}

/// How many results are wanted: the third argument of the first row, else 10.
pub open spec fn wanted(columns: int, rows: Seq<SimilarityRow>) -> usize {
    if columns < 3 {
        10
    } else {
        match rows[0].k {
            Some(v) => v as usize,
            None => 10,
        }
    }
}

/// The threshold: the fourth argument of the first row, else 0.
pub open spec fn wanted_floor(columns: int, rows: Seq<SimilarityRow>) -> u64 {
    if columns < 4 {
        bits::ZERO
    } else {
        match rows[0].threshold {
            Some(v) => v,
            None => bits::ZERO,
        }
    }
}

/// What one row without nulls gives.
pub open spec fn similarity_row_outcome<
    N: Fn(u64) -> u32,
    L: Fn(&Vec<u32>) -> u32,
    D: Fn(u32, u32) -> u32,
    T: Fn(&Vec<u32>, &Vec<u32>) -> u32,
    F: Fn() -> bool,
>(
    row: SimilarityRow,
    k: usize,
    threshold: u64,
    narrow: N,
    math: VectorMath<L, D, T>,
    requested: F,
    r: Result<SimilarityResult, String>,
) -> bool {
    similarity_outcome(
        query_in(row.query->0@, narrow),
        candidates_in(row.candidates->0@, json::json_document(row.candidates->0@)),
        k as nat,
        threshold,
        narrow,
        math,
        requested,
        r,
    )
}

/// A row does not fail: it has a null, or it gives a result.
pub open spec fn similarity_row_passes<
    N: Fn(u64) -> u32,
    L: Fn(&Vec<u32>) -> u32,
    D: Fn(u32, u32) -> u32,
    T: Fn(&Vec<u32>, &Vec<u32>) -> u32,
    F: Fn() -> bool,
>(row: SimilarityRow, k: usize, threshold: u64, narrow: N, math: VectorMath<L, D, T>, requested: F) -> bool {
    row.has_null() || exists|result: SimilarityResult| #[trigger]
        similarity_row_outcome(row, k, threshold, narrow, math, requested, Ok(result))
}

impl SimilarityFn {
    /// Searches for each row. A row with a null gives a null; the first row that
    /// fails fails the call; two to four arguments are wanted.
    pub fn invoke<
        N: Fn(u64) -> u32,
        L: Fn(&Vec<u32>) -> u32,
        D: Fn(u32, u32) -> u32,
        T: Fn(&Vec<u32>, &Vec<u32>) -> u32,
        F: Fn() -> bool,
    >(
        columns: usize,
        rows: &Vec<SimilarityRow>,
        narrow: &N,
        math: &VectorMath<L, D, T>,
        requested: &F,
    ) -> (r: Result<Vec<Option<SimilarityResult>>, String>)
        requires
            call_requires(*requested, ()),
            sound_vectors(*narrow, *math),
            3 <= columns <= 4 ==> rows@.len() >= 1,
        ensures
            !(2 <= columns <= 4) ==> (r matches Err(e) && e@
                == "ml_similarity_value requires 2..4 args: query, candidates[, k[, threshold]]"@),
            2 <= columns <= 4 ==> match r {
                Ok(out) => out@.len() == rows@.len() && forall|i: int|
                    #![trigger out@[i]]
                    0 <= i < out@.len() ==> match out@[i] {
                        None => rows@[i].has_null(),
                        Some(result) => !rows@[i].has_null() && similarity_row_outcome(
                            rows@[i],
                            wanted(columns as int, rows@),
                            wanted_floor(columns as int, rows@),
                            *narrow,
                            *math,
                            *requested,
                            Ok(result),
                        ),
                    },
                Err(e) => exists|i: int|
                    0 <= i < rows@.len() && !(#[trigger] rows@[i]).has_null() && similarity_row_outcome(
                        rows@[i],
                        wanted(columns as int, rows@),
                        wanted_floor(columns as int, rows@),
                        *narrow,
                        *math,
                        *requested,
                        Err(e),
                    ) && forall|j: int|
                        0 <= j < i ==> #[trigger] similarity_row_passes(
                            rows@[j],
                            wanted(columns as int, rows@),
                            wanted_floor(columns as int, rows@),
                            *narrow,
                            *math,
                            *requested,
                        ),
            },
    {
        if columns < 2 || columns > 4 {
            return Err("ml_similarity_value requires 2..4 args: query, candidates[, k[, threshold]]".to_owned());
        }
        let k: usize = if columns >= 3 {
            match rows[0].k {
                Some(v) => v as usize,
                None => 10,
            }
        } else {
            10
        };
        let threshold: u64 = if columns >= 4 {
            match rows[0].threshold {
                Some(v) => v,
                None => bits::ZERO,
            }
        } else {
            bits::ZERO
        };
        let mut out: Vec<Option<SimilarityResult>> = Vec::new();
        let mut i: usize = 0;
        while i < rows.len()
            invariant
                call_requires(*requested, ()),
                sound_vectors(*narrow, *math),
                2 <= columns <= 4,
                k == wanted(columns as int, rows@),
                threshold == wanted_floor(columns as int, rows@),
                i <= rows@.len(),
                out@.len() == i,
                forall|x: int|
                    #![trigger out@[x]]
                    0 <= x < i ==> match out@[x] {
                        None => rows@[x].has_null(),
                        Some(result) => !rows@[x].has_null() && similarity_row_outcome(
                            rows@[x],
                            k,
                            threshold,
                            *narrow,
                            *math,
                            *requested,
                            Ok(result),
                        ),
                    },
            decreases rows.len() - i,
        {
            let row: &SimilarityRow = &rows[i];
            match (&row.query, &row.candidates) {
                (Some(query), Some(candidates)) => {
                    match similarity_from_json(
                        query.as_str(),
                        candidates.as_str(),
                        k,
                        threshold,
                        narrow,
                        math,
                        requested,
                    ) {
                        Ok(result) => {
                            out.push(Some(result));
                        },
                        Err(e) => {
                            proof {
                                assert forall|j: int| 0 <= j < i implies #[trigger] similarity_row_passes(
                                    rows@[j],
                                    k,
                                    threshold,
                                    *narrow,
                                    *math,
                                    *requested,
                                ) by {
                                    assert(out@[j] is None || out@[j] is Some);
                                }
                                assert(!rows@[i as int].has_null());
                            }
                            return Err(e);
                        },
                    }
                },
                _ => {
                    out.push(None);
                },
            }
            i = i + 1;
        }
        Ok(out)
    }
}

/// The `ml_embed` function.
pub struct EmbedFn;

/// `answer` is an answer of the model for a feature vector.
pub open spec fn embed_answer<M, E: Fn(&M, &Vec<u64>) -> Result<Vec<u32>, String>>(
    embed: E,
    model: M,
    x: Seq<u64>,
    answer: Result<Vec<u32>, String>,
) -> bool {
    exists|m: &M, a: &Vec<u64>| *m == model && a@ == x && #[trigger] call_ensures(embed, (m, a), answer)
}

/// The blob of one row: that of the embedding of its features.
pub open spec fn embeds_row<M, E: Fn(&M, &Vec<u64>) -> Result<Vec<u32>, String>>(
    features: Seq<char>,
    embed: E,
    model: M,
    blob: Seq<u8>,
) -> bool {
    exists|v: Vec<u32>|
        packed(v@) == blob && json::numbers_read(features) is Ok && #[trigger] embed_answer(
            embed,
            model,
            json::numbers_read(features)->Ok_0,
            Ok(v),
        )
}

/// Why one row fails: its features are no list of numbers, or the model says so.
pub open spec fn embed_fails<M, E: Fn(&M, &Vec<u64>) -> Result<Vec<u32>, String>>(
    features: Seq<char>,
    embed: E,
    model: M,
    e: String,
) -> bool {
    match json::numbers_read(features) {
        Err(detail) => e@ == "Invalid features JSON '"@ + features + "': "@ + detail,
        Ok(x) => embed_answer(embed, model, x, Err(e)),
    }
}

/// A row does not fail: it is null, or its embedding is packed.
pub open spec fn embed_passes<M, E: Fn(&M, &Vec<u64>) -> Result<Vec<u32>, String>>(
    row: Option<String>,
    embed: E,
    model: M,
) -> bool {
    match row {
        None => true,
        Some(features) => exists|blob: Seq<u8>| #[trigger] embeds_row(features@, embed, model, blob),
    }
}

/// What a model makes of the rows: a null of a null, a blob of any other; or the
/// error of the first row that fails.
pub open spec fn embeds_rows<M, E: Fn(&M, &Vec<u64>) -> Result<Vec<u32>, String>>(
    rows: Seq<Option<String>>,
    embed: E,
    model: M,
    r: Result<Vec<Option<Vec<u8>>>, String>,
) -> bool {
    match r {
        Ok(out) => out@.len() == rows.len() && forall|i: int|
            #![trigger out@[i]]
            0 <= i < out@.len() ==> match (rows[i], out@[i]) {
                (None, None) => true,
                (Some(features), Some(blob)) => embeds_row(features@, embed, model, blob@),
                _ => false,
            },
        Err(e) => exists|i: int|
            0 <= i < rows.len() && (#[trigger] rows[i]) is Some && embed_fails(rows[i]->0@, embed, model, e)
                && forall|j: int| 0 <= j < i ==> #[trigger] embed_passes(rows[j], embed, model),
    }
}

/// Embeds each row of features with a model; see [`embeds_rows`].
pub fn embed_rows<M, E: Fn(&M, &Vec<u64>) -> Result<Vec<u32>, String>>(
    rows: &Vec<Option<String>>,
    model: &M,
    embed: &E,
) -> (r: Result<Vec<Option<Vec<u8>>>, String>)
    requires
        forall|m: &M, a: &Vec<u64>| call_requires(*embed, (m, a)),
    ensures
        embeds_rows(rows@, *embed, *model, r),
{
    let mut out: Vec<Option<Vec<u8>>> = Vec::new();
    let mut i: usize = 0;
    while i < rows.len()
        invariant
            forall|m: &M, a: &Vec<u64>| call_requires(*embed, (m, a)),
            i <= rows@.len(),
            out@.len() == i,
            forall|x: int|
                #![trigger out@[x]]
                0 <= x < i ==> match (rows@[x], out@[x]) {
                    (None, None) => true,
                    (Some(features), Some(blob)) => embeds_row(features@, *embed, *model, blob@),
                    _ => false,
                },
        decreases rows.len() - i,
    {
        match &rows[i] {
            None => {
                out.push(None);
            },
            Some(features) => {
                assert(rows@[i as int] is Some);
                assert forall|j: int| 0 <= j < i implies #[trigger] embed_passes(rows@[j], *embed, *model) by {
                    if let (Some(x), Some(blob)) = (rows@[j], out@[j]) {
                        assert(embeds_row(x@, *embed, *model, blob@));
                    }
                }
                let x: Vec<u64> = match parse_numbers(features.as_str()) {
                    Ok(x) => x,
                    Err(detail) => {
                        return Err(bad_features_message(features.as_str(), detail.as_str()));
                    },
                };
                let answer: Result<Vec<u32>, String> = embed(model, &x);
                assert(embed_answer(*embed, *model, x@, answer)) by {
                    let a = &x;
                    assert(a@ == x@ && call_ensures(*embed, (model, a), answer));
                }
                match answer {
                    Ok(v) => {
                        let blob: Vec<u8> = pack_f32_le(v.as_slice());
                        assert(embed_answer(
                            *embed,
                            *model,
                            json::numbers_read(features@)->Ok_0,
                            Ok(v),
                        ));
                        assert(embeds_row(features@, *embed, *model, blob@));
                        out.push(Some(blob));
                    },
                    Err(e) => {
                        return Err(e);
                    },
                }
            },
        }
        i = i + 1;
    }
    Ok(out)
}

impl EmbedFn {
    /// Embeds each row of features with the model that serves `name`, the model
    /// argument of the first row. A null row gives a null; the first row that
    /// fails fails the call. `embed` asks the model.
    pub fn invoke<M, E: Fn(&M, &Vec<u64>) -> Result<Vec<u32>, String>>(
        name: Option<&String>,
        rows: &Vec<Option<String>>,
        registry: &mut ModelRegistry<M>,
        now: u64,
        embed: &E,
    ) -> (r: Result<Vec<Option<Vec<u8>>>, String>)
        requires
            old(registry).well_formed(),
            forall|m: &M, a: &Vec<u64>| call_requires(*embed, (m, a)),
        ensures
            final(registry).well_formed(),
            match name {
                None => (r matches Err(e) && e@ == "NULL model name"@) && final(registry)@ == old(registry)@,
                Some(model) => {
                    let key = registry::serving_key(old(registry)@, model@);
                    if old(registry)@.models.contains_key(key) {
                        &&& final(registry)@ == registry::touched(old(registry)@, key, now)
                        &&& embeds_rows(rows@, *embed, old(registry)@.models[key].model, r)
                    } else {
                        (r matches Err(e) && e@ == predict::not_loaded(model@)) && final(registry)@ == old(registry)@
                    }
                },
            },
    {
        match name {
            None => Err("NULL model name".to_owned()),
            Some(model) => match registry.get_deployed_model(model.as_str(), now) {
                Some(entry) => embed_rows(rows, &entry.model, embed),
                None => Err(not_loaded_message(model.as_str())),
            },
        }
    }
}

} // verus!
