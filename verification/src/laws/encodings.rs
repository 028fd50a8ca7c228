//! What encoded byte strings stand for.

use vstd::prelude::*;
use crate::embed;
use crate::embed::{blob_from_string, decode_duckdb_binary, hex_decode, row_id_cmp};
use crate::json::{Json, JsonView};
use crate::text::Placed;

verus! {

/// The character is a hexadecimal digit, small or large, of this value.
pub open spec fn is_hex(c: char, v: int) -> bool {
    ||| '0' <= c && c <= '9' && v == c as int - '0' as int
    ||| 'a' <= c && c <= 'f' && v == c as int - 'a' as int + 10
    ||| 'A' <= c && c <= 'F' && v == c as int - 'A' as int + 10
}

/// The two characters are the hexadecimal digits of the byte, the higher one first.
pub open spec fn is_byte(high: char, low: char, b: u8) -> bool {
    is_hex(high, b as int / 16) && is_hex(low, b as int % 16)
}

/// The text has two hexadecimal digits for each byte.
pub open spec fn is_spelled(s: Seq<char>, data: Seq<u8>) -> bool {
    &&& s.len() == 2 * data.len()
    &&& forall|i: int| 0 <= i < data.len() ==> is_byte(s[2 * i], s[2 * i + 1], #[trigger] data[i])
}

proof fn lemma_hex_bytes(s: Seq<char>)
    ensures
        match embed::hex_bytes(s) {
            Some(data) => is_spelled(s, data),
            None => forall|data: Seq<u8>| !#[trigger] is_spelled(s, data),
        },
    decreases s.len(),
{
    if s.len() >= 2 {
        let rest = s.skip(2);
        lemma_hex_bytes(rest);
        match embed::hex_bytes(s) {
            Some(data) => {
                let tail = embed::hex_bytes(rest)->0;
                assert forall|i: int| 0 <= i < data.len() implies is_byte(s[2 * i], s[2 * i + 1], #[trigger] data[i]) by {
                    if i > 0 {
                        assert(data[i] == tail[i - 1]);
                        assert(rest[2 * (i - 1)] == s[2 * i] && rest[2 * (i - 1) + 1] == s[2 * i + 1]);
                    }
                }
            },
            None => {
                assert forall|data: Seq<u8>| !#[trigger] is_spelled(s, data) by {
                    if is_spelled(s, data) {
                        assert(is_byte(s[0], s[1], data[0]));
                        let tail = data.skip(1);
                        assert forall|i: int| 0 <= i < tail.len() implies is_byte(
                            rest[2 * i],
                            rest[2 * i + 1],
                            #[trigger] tail[i],
                        ) by {
                            assert(data[i + 1] == tail[i]);
                            assert(is_byte(s[2 * (i + 1)], s[2 * (i + 1) + 1], data[i + 1]));
                        }
                        assert(is_spelled(rest, tail));
                    }
                }
            },
        }
    }
}

/// Hexadecimal digits are read as the bytes that they spell, and a text that spells
/// no bytes is refused.
pub proof fn law_spelled_bytes_are_read(s: &str, r: Option<Vec<u8>>)
    requires
        call_ensures(hex_decode, (s,), r),
    ensures
        r matches Some(v) ==> is_spelled(s@, v@),
        r is None ==> forall|data: Seq<u8>| !#[trigger] is_spelled(s@, data),
{
    lemma_hex_bytes(s@);
}

/// The second text gives the bytes of the first one behind its first byte.
pub open spec fn starts_with(first: Option<Vec<u8>>, b: u8, rest: Option<Vec<u8>>) -> bool {
    match (first, rest) {
        (Some(v), Some(w)) => v@ == seq![b] + w@,
        (None, None) => true,
        _ => false,
    }
}

/// An escaped text gives a byte for each character of plain text and for each
/// escape, one after the other: the byte that two digits behind an `x` spell, or
/// that of the escaped character.
pub proof fn law_escapes_are_read(
    s: &str,
    rest: &str,
    r: Option<Vec<u8>>,
    r_rest: Option<Vec<u8>>,
    b: u8,
)
    requires
        call_ensures(decode_duckdb_binary, (s,), r),
        call_ensures(decode_duckdb_binary, (rest,), r_rest),
    ensures
        s@.len() == 0 ==> r is Some && r->0@.len() == 0,
        s@.len() == rest@.len() + 1 && s@.skip(1) == rest@ && s@[0] != '\\' && s@[0] as int == b && b < 128
            ==> starts_with(r, b, r_rest),
        s@.len() > 0 && s@[0] != '\\' && s@[0] as u32 >= 128 ==> r is None,
        s@.len() == rest@.len() + 4 && s@.skip(4) == rest@ && s@[0] == '\\' && s@[1] == 'x' && is_byte(s@[2], s@[3], b)
            ==> starts_with(r, b, r_rest),
        s@.len() == rest@.len() + 2 && s@.skip(2) == rest@ && s@[0] == '\\' && s@[1] != 'x' && s@[1] as int == b
            ==> starts_with(r, b, r_rest),
        s@.len() == 1 && s@[0] == '\\' ==> r is None,
{
}

/// A text is read as hexadecimal digits where it can be, and else as escaped text.
pub proof fn law_blob_text_is_either(s: &str, r: Option<Vec<u8>>, hex: Option<Vec<u8>>, escaped: Option<Vec<u8>>)
    requires
        call_ensures(blob_from_string, (s,), r),
        call_ensures(hex_decode, (s,), hex),
        call_ensures(decode_duckdb_binary, (s,), escaped),
    ensures
        hex is Some ==> r is Some && r->0@ == hex->0@,
        hex is None ==> (r is Some <==> escaped is Some),
        hex is None && r is Some ==> r->0@ == escaped->0@,
{
    lemma_hex_total(s@);
}

proof fn lemma_hex_total(s: Seq<char>)
    ensures
        embed::hex_bytes(s) is Some <==> s.len() % 2 == 0 && embed::all_hex(s),
    decreases s.len(),
{
    if s.len() >= 2 {
        let rest = s.skip(2);
        lemma_hex_total(rest);
        if embed::all_hex(s) {
            assert forall|i: int| 0 <= i < rest.len() implies embed::hex_value(#[trigger] rest[i]) is Some by {
                assert(rest[i] == s[i + 2]);
            }
            assert(embed::hex_value(s[0]) is Some && embed::hex_value(s[1]) is Some);
        }
        if embed::hex_bytes(s) is Some {
            assert forall|i: int| 0 <= i < s.len() implies embed::hex_value(#[trigger] s[i]) is Some by {
                if i >= 2 {
                    assert(rest[i - 2] == s[i]);
                }
            }
        }
    } else if s.len() == 0 {
        assert(embed::all_hex(s));
    }
}

/// Row ids that are counts are ordered by their values, and any two row ids are
/// ordered the same way from both sides.
pub proof fn law_row_ids_are_ordered(a: &Json, b: &Json, r: Placed, back: Placed)
    requires
        call_ensures(row_id_cmp, (a, b), r),
        call_ensures(row_id_cmp, (b, a), back),
    ensures
        r == Placed::Before <==> back == Placed::After,
        r == Placed::After <==> back == Placed::Before,
        a@ == b@ ==> r == Placed::Same,
        (a@ matches JsonView::Number(x) && x.unsigned is Some) && (b@ matches JsonView::Number(y) && y.unsigned is Some)
            ==> {
            let m = a@->Number_0.unsigned->0;
            let n = b@->Number_0.unsigned->0;
            (r == Placed::Before <==> m < n) && (r == Placed::After <==> m > n)
        },
{
    if a@ == b@ && embed::id_before(a@, a@) {
        embed::lemma_id_asym(a@, a@);
    }
}

} // verus!
