//! What is written in texts and read of them.

use vstd::prelude::*;
use crate::numbers;
use crate::numbers::{parse_i32, parse_i64, parse_usize};
use crate::text;
use crate::text::{
    contains_text, has_prefix, is_empty_text, is_whitespace, push_decimal, push_signed_decimal, strip_brackets, text_eq,
    text_place, trim, Placed,
};

verus! {

/// The character is a decimal digit.
pub open spec fn is_digit(c: char) -> bool {
    '0' <= c && c <= '9'
}

/// All characters are decimal digits.
pub open spec fn are_digits(s: Seq<char>) -> bool {
    forall|i: int| 0 <= i < s.len() ==> is_digit(#[trigger] s[i])
}

/// What some digits amount to, each place worth ten times the next one.
pub open spec fn amount(s: Seq<char>) -> nat
    decreases s.len(),
{
    if s.len() == 0 {
        0
    } else {
        (10 * amount(s.drop_last()) + (s.last() as nat - '0' as nat)) as nat
    }
}

/// The text is a whole number: digits, with or without a sign before them.
pub open spec fn is_numeral(s: Seq<char>, v: int) -> bool {
    let rest = s.skip(1);
    if s.len() == 0 {
        false
    } else if s[0] == '-' {
        rest.len() > 0 && are_digits(rest) && v == -amount(rest)
    } else if s[0] == '+' {
        rest.len() > 0 && are_digits(rest) && v == amount(rest)
    } else {
        are_digits(s) && v == amount(s)
    }
}

proof fn lemma_decimal(n: nat)
    ensures
        text::decimal(n).len() > 0,
        are_digits(text::decimal(n)),
        amount(text::decimal(n)) == n,
        text::decimal(n)[0] == '0' ==> n == 0,
    decreases n,
{
    let s = text::decimal(n);
    reveal_with_fuel(amount, 2);
    if n >= 10 {
        lemma_decimal(n / 10);
        assert(n == 10 * (n / 10) + n % 10);
        assert(s.drop_last() =~= text::decimal(n / 10));
        assert(s.last() == text::digit(n % 10));
    } else {
        assert(s.drop_last() =~= Seq::empty());
        assert(s.last() == text::digit(n));
    }
}

/// A number is written behind a text in the digits that amount to it, with no 0
/// before them.
pub proof fn law_numbers_are_written(out: &mut String, n: u64) -> (digits: Seq<char>)
    requires
        call_ensures(push_decimal, (out, n), ()),
    ensures
        final(out)@ == old(out)@ + digits,
        digits.len() > 0,
        are_digits(digits),
        amount(digits) == n,
        digits[0] == '0' ==> n == 0,
{
    lemma_decimal(n as nat);
    text::decimal(n as nat)
}

/// A signed number is written behind a text as a numeral of it.
pub proof fn law_signed_numbers_are_written(out: &mut String, n: i64) -> (numeral: Seq<char>)
    requires
        call_ensures(push_signed_decimal, (out, n), ()),
    ensures
        final(out)@ == old(out)@ + numeral,
        is_numeral(numeral, n as int),
        numeral[0] == '-' <==> n < 0,
        numeral[0] != '+',
{
    lemma_signed(n as int);
    text::signed_decimal(n as int)
}

/// A signed decimal is a numeral of its number.
pub proof fn lemma_signed(n: int)
    ensures
        is_numeral(text::signed_decimal(n), n),
        text::signed_decimal(n)[0] == '-' <==> n < 0,
        text::signed_decimal(n)[0] != '+',
{
    let s = text::signed_decimal(n);
    if n < 0 {
        lemma_decimal((-n) as nat);
        assert(s.skip(1) =~= text::decimal((-n) as nat));
    } else {
        lemma_decimal(n as nat);
        assert(is_digit(s[0]));
    }
}

proof fn lemma_digits(s: Seq<char>, max: nat, beyond: Seq<char>, n: nat)
    requires
        n <= s.len(),
    ensures
        match numbers::digits_value(s, max, beyond, n) {
            Ok(v) => are_digits(s.take(n as int)) && v == amount(s.take(n as int)) && (n > 0 ==> v <= max),
            Err(_) => !are_digits(s.take(n as int)) || amount(s.take(n as int)) > max,
        },
    decreases n,
{
    if n > 0 {
        lemma_digits(s, max, beyond, (n - 1) as nat);
        let all = s.take(n as int);
        let before = s.take(n - 1);
        assert(all.drop_last() =~= before);
        assert(all.last() == s[n - 1]);
        if are_digits(all) {
            assert forall|i: int| 0 <= i < before.len() implies is_digit(#[trigger] before[i]) by {
                assert(all[i] == before[i]);
            }
            assert(is_digit(all[n - 1]));
        }
        if are_digits(before) && is_digit(s[n - 1]) {
            assert forall|i: int| 0 <= i < all.len() implies is_digit(#[trigger] all[i]) by {
                if i < n - 1 {
                    assert(before[i] == all[i]);
                }
            }
        }
    }
}

/// A text is read as the number whose numeral it is, within the limits.
pub proof fn lemma_whole_number(s: Seq<char>, lowest: int, highest: int, v: int)
    requires
        lowest <= 0 <= highest,
    ensures
        numbers::whole_number(s, lowest, highest) == Ok::<int, Seq<char>>(v) <==> is_numeral(s, v) && lowest <= v
            <= highest && (lowest == 0 ==> s[0] != '-'),
{
    if s.len() > 0 {
        let rest = s.subrange(1, s.len() as int);
        assert(rest =~= s.skip(1));
        assert(rest.take(rest.len() as int) =~= rest);
        assert(s.take(s.len() as int) =~= s);
        lemma_digits(rest, (-lowest) as nat, "number too small to fit in target type"@, rest.len());
        lemma_digits(rest, highest as nat, "number too large to fit in target type"@, rest.len());
        lemma_digits(s, highest as nat, "number too large to fit in target type"@, s.len());
        if s[0] == '-' || s[0] == '+' {
            if are_digits(s) {
                assert(is_digit(s[0]));
            }
        }
    }
}

/// A text is read as the number whose numeral it is, and any other text, and one of
/// a number beyond 64 bits, is refused.
pub proof fn law_long_numbers_are_read(s: &str, r: Result<i64, String>, v: i64)
    requires
        call_ensures(parse_i64, (s,), r),
    ensures
        r == Ok::<i64, String>(v) <==> is_numeral(s@, v as int),
{
    lemma_whole_number(s@, i64::MIN as int, i64::MAX as int, v as int);
}

/// A text is read as the number whose numeral it is, and any other text, and one of
/// a number beyond 32 bits, is refused.
pub proof fn law_numbers_are_read(s: &str, r: Result<i32, String>, v: i32)
    requires
        call_ensures(parse_i32, (s,), r),
    ensures
        r == Ok::<i32, String>(v) <==> is_numeral(s@, v as int),
{
    lemma_whole_number(s@, i32::MIN as int, i32::MAX as int, v as int);
}

/// A text without a minus is read as the count whose numeral it is.
pub proof fn law_counts_are_read(s: &str, r: Result<usize, String>, v: usize)
    requires
        call_ensures(parse_usize, (s,), r),
    ensures
        r == Ok::<usize, String>(v) <==> is_numeral(s@, v as int) && s@[0] != '-',
{
    lemma_whole_number(s@, 0, usize::MAX as int, v as int);
}

/// All characters are white space.
pub open spec fn is_blank(s: Seq<char>) -> bool {
    forall|i: int| 0 <= i < s.len() ==> text::whitespace(#[trigger] s[i])
}

/// Blanks, tabs and line ends are white space, and nothing that is printed is.
pub proof fn law_white_space(c: char, r: bool)
    requires
        call_ensures(is_whitespace, (c,), r),
    ensures
        r == text::whitespace(c),
        c == ' ' || c == '\t' || c == '\n' || c == '\r' ==> r,
        '!' <= c && c <= '~' ==> !r,
{
}

proof fn lemma_trimmed_start(s: Seq<char>) -> (before: Seq<char>)
    ensures
        is_blank(before),
        s == before + text::trimmed_start(s),
        text::trimmed_start(s).len() > 0 ==> !text::whitespace(text::trimmed_start(s)[0]),
    decreases s.len(),
{
    if s.len() > 0 && text::whitespace(s[0]) {
        let rest = lemma_trimmed_start(s.skip(1));
        let before = seq![s[0]] + rest;
        assert forall|i: int| 0 <= i < before.len() implies text::whitespace(#[trigger] before[i]) by {
            if i > 0 {
                assert(before[i] == rest[i - 1]);
            }
        }
        assert(s =~= seq![s[0]] + s.skip(1));
        assert(s =~= before + text::trimmed_start(s));
        before
    } else {
        assert(s =~= Seq::<char>::empty() + s);
        Seq::empty()
    }
}

proof fn lemma_trimmed_end(s: Seq<char>) -> (after: Seq<char>)
    ensures
        is_blank(after),
        s == text::trimmed_end(s) + after,
        text::trimmed_end(s).len() > 0 ==> !text::whitespace(text::trimmed_end(s).last()),
    decreases s.len(),
{
    if s.len() > 0 && text::whitespace(s.last()) {
        let rest = lemma_trimmed_end(s.drop_last());
        let after = rest.push(s.last());
        assert forall|i: int| 0 <= i < after.len() implies text::whitespace(#[trigger] after[i]) by {
            if i < rest.len() {
                assert(after[i] == rest[i]);
            }
        }
        assert(s =~= s.drop_last().push(s.last()));
        assert(s =~= text::trimmed_end(s) + after);
        after
    } else {
        assert(s =~= s + Seq::<char>::empty());
        Seq::empty()
    }
}

/// Trimming takes white space away from both ends and nothing else, until none is
/// left there.
pub proof fn law_trimming_takes_ends_away(s: &str, r: String) -> (ends: (Seq<char>, Seq<char>))
    requires
        call_ensures(trim, (s,), r),
    ensures
        s@ == ends.0 + r@ + ends.1,
        is_blank(ends.0),
        is_blank(ends.1),
        r@.len() > 0 ==> !text::whitespace(r@[0]) && !text::whitespace(r@.last()),
{
    let before = lemma_trimmed_start(s@);
    let start = text::trimmed_start(s@);
    let after = lemma_trimmed_end(start);
    assert(s@ =~= before + r@ + after);
    if r@.len() > 0 {
        assert(start[0] == r@[0]);
    }
    (before, after)
}

/// A text is equal to another one with the same characters only.
pub proof fn law_texts_are_compared(a: &str, b: &str, same: bool, empty: bool)
    requires
        call_ensures(text_eq, (a, b), same),
        call_ensures(is_empty_text, (a,), empty),
    ensures
        same <==> a@.len() == b@.len() && forall|i: int| 0 <= i < a@.len() ==> #[trigger] a@[i] == b@[i],
        empty <==> a@.len() == 0,
{
    if a@.len() == b@.len() && forall|i: int| 0 <= i < a@.len() ==> #[trigger] a@[i] == b@[i] {
        assert(a@ =~= b@);
    }
}

/// The pattern stands at a place of the text.
pub open spec fn stands_at(s: Seq<char>, pattern: Seq<char>, p: int) -> bool {
    0 <= p && p + pattern.len() <= s.len() && s.subrange(p, p + pattern.len()) == pattern
}

/// A prefix stands at the beginning, and a text contains what stands at some place.
pub proof fn law_patterns_are_found(s: &str, pattern: &str, first: bool, somewhere: bool)
    requires
        call_ensures(has_prefix, (s, pattern), first),
        call_ensures(contains_text, (s, pattern), somewhere),
    ensures
        first <==> stands_at(s@, pattern@, 0),
        somewhere <==> exists|p: int| #[trigger] stands_at(s@, pattern@, p),
{
    let n = s@.len() as int;
    let m = pattern@.len() as int;
    if first {
        assert(s@.subrange(0, m) =~= pattern@);
    }
    if stands_at(s@, pattern@, 0) {
        assert(pattern@ =~= s@.take(m));
    }
    if somewhere {
        let i = choose|i: int| 0 <= i <= n && #[trigger] pattern@.is_prefix_of(s@.subrange(i, n));
        assert(s@.subrange(i, i + m) =~= s@.subrange(i, n).subrange(0, m));
        assert(stands_at(s@, pattern@, i));
    }
    if exists|p: int| #[trigger] stands_at(s@, pattern@, p) {
        let p = choose|p: int| #[trigger] stands_at(s@, pattern@, p);
        let tail = s@.subrange(p, n);
        assert(tail.subrange(0, m) =~= s@.subrange(p, p + m));
        assert(pattern@.is_prefix_of(tail));
    }
}

/// All characters are square brackets.
pub open spec fn are_brackets(s: Seq<char>) -> bool {
    forall|i: int| 0 <= i < s.len() ==> (#[trigger] s[i] == '[' || s[i] == ']')
}

proof fn lemma_stripped_start(s: Seq<char>, out: spec_fn(char) -> bool) -> (before: Seq<char>)
    requires
        out == (|c: char| c == '[' || c == ']'),
    ensures
        are_brackets(before),
        s == before + text::stripped_start(s, out),
        text::stripped_start(s, out).len() > 0 ==> text::stripped_start(s, out)[0] != '[' && text::stripped_start(
            s,
            out,
        )[0] != ']',
    decreases s.len(),
{
    if s.len() > 0 && out(s[0]) {
        let tail = s.subrange(1, s.len() as int);
        let rest = lemma_stripped_start(tail, out);
        let before = seq![s[0]] + rest;
        assert forall|i: int| 0 <= i < before.len() implies (#[trigger] before[i] == '[' || before[i] == ']') by {
            if i > 0 {
                assert(before[i] == rest[i - 1]);
            }
        }
        assert(s =~= seq![s[0]] + tail);
        assert(s =~= before + text::stripped_start(s, out));
        before
    } else {
        assert(s =~= Seq::<char>::empty() + s);
        Seq::empty()
    }
}

proof fn lemma_stripped_end(s: Seq<char>, out: spec_fn(char) -> bool) -> (after: Seq<char>)
    requires
        out == (|c: char| c == '[' || c == ']'),
    ensures
        are_brackets(after),
        s == text::stripped_end(s, out) + after,
        text::stripped_end(s, out).len() > 0 ==> text::stripped_end(s, out).last() != '[' && text::stripped_end(
            s,
            out,
        ).last() != ']',
    decreases s.len(),
{
    if s.len() > 0 && out(s.last()) {
        let rest = lemma_stripped_end(s.drop_last(), out);
        let after = rest.push(s.last());
        assert forall|i: int| 0 <= i < after.len() implies (#[trigger] after[i] == '[' || after[i] == ']') by {
            if i < rest.len() {
                assert(after[i] == rest[i]);
            }
        }
        assert(s =~= s.drop_last().push(s.last()));
        assert(s =~= text::stripped_end(s, out) + after);
        after
    } else {
        assert(s =~= s + Seq::<char>::empty());
        Seq::empty()
    }
}

/// Square brackets are taken away from both ends, and nothing else, until none is
/// left there.
pub proof fn law_brackets_are_taken_away(s: &str, r: String) -> (ends: (Seq<char>, Seq<char>))
    requires
        call_ensures(strip_brackets, (s,), r),
    ensures
        s@ == ends.0 + r@ + ends.1,
        are_brackets(ends.0),
        are_brackets(ends.1),
        r@.len() > 0 ==> r@[0] != '[' && r@[0] != ']' && r@.last() != '[' && r@.last() != ']',
{
    let out = |c: char| c == '[' || c == ']';
    let before = lemma_stripped_start(s@, out);
    let start = text::stripped_start(s@, out);
    let after = lemma_stripped_end(start, out);
    assert(s@ =~= before + r@ + after);
    if r@.len() > 0 {
        assert(start[0] == r@[0]);
    }
    (before, after)
}

/// Texts are in one order: of two different texts one comes before the other, the
/// other way round from the other side, and the order is passed on.
pub proof fn law_texts_are_in_one_order(a: &str, b: &str, c: &str, ab: Placed, ba: Placed, bc: Placed, ac: Placed)
    requires
        call_ensures(text_place, (a, b), ab),
        call_ensures(text_place, (b, a), ba),
        call_ensures(text_place, (b, c), bc),
        call_ensures(text_place, (a, c), ac),
    ensures
        ab == Placed::Same <==> a@ == b@,
        ab == Placed::Before <==> ba == Placed::After,
        ab == Placed::Before && bc == Placed::Before ==> ac == Placed::Before,
{
    text::lemma_text_before_total(a@, b@);
    if text::text_before(a@, b@) {
        text::lemma_text_before_asym(a@, b@);
    }
    if text::text_before(b@, a@) {
        text::lemma_text_before_asym(b@, a@);
    }
    if text::text_before(a@, b@) && text::text_before(b@, c@) {
        text::lemma_text_before_trans(a@, b@, c@);
    }
}

} // verus!
