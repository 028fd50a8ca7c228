//! Whole numbers in text.

use vstd::prelude::*;
use crate::text;
use crate::text::chars_of;

verus! {

/// The value of a decimal digit.
pub open spec fn digit_value(c: char) -> Option<nat> {
    if '0' <= c && c <= '9' {
        Some((c as nat - '0' as nat) as nat)
    } else {
        None
    }
}

/// The number that the first `n` of some digits give, as far as it stays within
/// `max`; else what is wrong with the first digit where it goes wrong.
pub open spec fn digits_value(digits: Seq<char>, max: nat, beyond: Seq<char>, n: nat) -> Result<nat, Seq<char>>
    decreases n,
{
    if n == 0 {
        Ok(0)
    } else {
        match digits_value(digits, max, beyond, (n - 1) as nat) {
            Err(e) => Err(e),
            Ok(v) => match digit_value(digits[n - 1]) {
                None => Err("invalid digit found in string"@),
                Some(d) => if v * 10 + d > max {
                    Err(beyond)
                } else {
                    Ok(v * 10 + d)
                },
            },
        }
    }
}

/// The whole number of a text: an optional sign, then digits. A minus sign is
/// one only where `lowest` lets a number be negative.
pub open spec fn whole_number(text: Seq<char>, lowest: int, highest: int) -> Result<int, Seq<char>> {
    let too_large = "number too large to fit in target type"@;
    let too_small = "number too small to fit in target type"@;
    let rest = text.subrange(1, text.len() as int);
    if text.len() == 0 {
        Err("cannot parse integer from empty string"@)
    } else if text.len() == 1 && (text[0] == '+' || text[0] == '-') {
        Err("invalid digit found in string"@)
    } else if text[0] == '-' && lowest < 0 {
        match digits_value(rest, (-lowest) as nat, too_small, rest.len()) {
            Ok(v) => Ok(-v),
            Err(e) => Err(e),
        }
    } else if text[0] == '+' {
        match digits_value(rest, highest as nat, too_large, rest.len()) {
            Ok(v) => Ok(v as int),
            Err(e) => Err(e),
        }
    } else {
        match digits_value(text, highest as nat, too_large, text.len()) {
            Ok(v) => Ok(v as int),
            Err(e) => Err(e),
        }
    }
}

/// Reads the digits of a text from a position on.
fn read_digits(chars: &Vec<char>, from: usize, max: u64, beyond: &str) -> (r: Result<u64, String>)
    requires
        from <= chars@.len(),
    ensures
        ({
            let rest = chars@.subrange(from as int, chars@.len() as int);
            match r {
                Ok(v) => digits_value(rest, max as nat, beyond@, rest.len()) == Ok::<nat, Seq<char>>(v as nat),
                Err(e) => digits_value(rest, max as nat, beyond@, rest.len()) == Err::<nat, Seq<char>>(e@),
            }
        }),
{
    let ghost rest = chars@.subrange(from as int, chars@.len() as int);
    let mut v: u64 = 0;
    let mut i: usize = from;
    while i < chars.len()
        invariant
            rest == chars@.subrange(from as int, chars@.len() as int),
            from <= i <= chars@.len(),
            digits_value(rest, max as nat, beyond@, (i - from) as nat) == Ok::<nat, Seq<char>>(v as nat),
        decreases chars.len() - i,
    {
        let c: char = chars[i];
        assert(rest[i - from] == c);
        if c < '0' || '9' < c {
            proof {
                lemma_stays_wrong(rest, max as nat, beyond@, (i - from + 1) as nat, rest.len());
            }
            return Err("invalid digit found in string".to_owned());
        }
        let d: u64 = c as u64 - '0' as u64;
        if v > max / 10 || (v == max / 10 && d > max % 10) {
            proof {
                lemma_stays_wrong(rest, max as nat, beyond@, (i - from + 1) as nat, rest.len());
            }
            return Err(beyond.to_owned());
        }
        v = v * 10 + d;
        i = i + 1;
    }
    Ok(v)
}

proof fn lemma_stays_wrong(digits: Seq<char>, max: nat, beyond: Seq<char>, m: nat, n: nat)
    requires
        m <= n,
        digits_value(digits, max, beyond, m) is Err,
    ensures
        digits_value(digits, max, beyond, n) == digits_value(digits, max, beyond, m),
    decreases n,
{
    if m < n {
        lemma_stays_wrong(digits, max, beyond, m, (n - 1) as nat);
    }
}

/// Reads a signed number of 32 bits.
pub fn parse_i32(text: &str) -> (r: Result<i32, String>)
    ensures
        match r {
            Ok(v) => whole_number(text@, i32::MIN as int, i32::MAX as int) == Ok::<int, Seq<char>>(v as int),
            Err(e) => whole_number(text@, i32::MIN as int, i32::MAX as int) == Err::<int, Seq<char>>(e@),
        },
{
    let chars: Vec<char> = chars_of(text);
    let n: usize = chars.len();
    if n == 0 {
        return Err("cannot parse integer from empty string".to_owned());
    }
    if n == 1 && (chars[0] == '+' || chars[0] == '-') {
        return Err("invalid digit found in string".to_owned());
    }
    if chars[0] == '-' {
        match read_digits(&chars, 1, 0x8000_0000, "number too small to fit in target type") {
            Ok(v) => {
                proof {
                    lemma_within(text@.subrange(1, n as int), 0x8000_0000, "number too small to fit in target type"@, (n - 1) as nat);
                }
                let w: i64 = -(v as i64);
                Ok(w as i32)
            },
            Err(e) => Err(e),
        }
    } else {
        let from: usize = if chars[0] == '+' {
            1
        } else {
            0
        };
        assert(text@.subrange(0, n as int) =~= text@);
        match read_digits(&chars, from, 0x7fff_ffff, "number too large to fit in target type") {
            Ok(v) => {
                proof {
                    lemma_within(text@.subrange(from as int, n as int), 0x7fff_ffff, "number too large to fit in target type"@, (n - from) as nat);
                }
                Ok(v as i32)
            },
            Err(e) => Err(e),
        }
    }
}

/// Reads a signed number of 64 bits.
pub fn parse_i64(text: &str) -> (r: Result<i64, String>)
    ensures
        match r {
            Ok(v) => whole_number(text@, i64::MIN as int, i64::MAX as int) == Ok::<int, Seq<char>>(v as int),
            Err(e) => whole_number(text@, i64::MIN as int, i64::MAX as int) == Err::<int, Seq<char>>(e@),
        },
{
    let chars: Vec<char> = chars_of(text);
    let n: usize = chars.len();
    if n == 0 {
        return Err("cannot parse integer from empty string".to_owned());
    }
    if n == 1 && (chars[0] == '+' || chars[0] == '-') {
        return Err("invalid digit found in string".to_owned());
    }
    if chars[0] == '-' {
        match read_digits(&chars, 1, 0x8000_0000_0000_0000, "number too small to fit in target type") {
            Ok(v) => {
                proof {
                    lemma_within(text@.subrange(1, n as int), 0x8000_0000_0000_0000, "number too small to fit in target type"@, (n - 1) as nat);
                }
                let w: i128 = -(v as i128);
                Ok(w as i64)
            },
            Err(e) => Err(e),
        }
    } else {
        let from: usize = if chars[0] == '+' {
            1
        } else {
            0
        };
        assert(text@.subrange(0, n as int) =~= text@);
        match read_digits(&chars, from, 0x7fff_ffff_ffff_ffff, "number too large to fit in target type") {
            Ok(v) => {
                proof {
                    lemma_within(text@.subrange(from as int, n as int), 0x7fff_ffff_ffff_ffff, "number too large to fit in target type"@, (n - from) as nat);
                }
                Ok(v as i64)
            },
            Err(e) => Err(e),
        }
    }
}

proof fn lemma_within(digits: Seq<char>, max: nat, beyond: Seq<char>, n: nat)
    ensures
        digits_value(digits, max, beyond, n) matches Ok(v) ==> v <= max,
    decreases n,
{
}

/// Reads a size.
pub fn parse_usize(text: &str) -> (r: Result<usize, String>)
    ensures
        match r {
            Ok(v) => whole_number(text@, 0, usize::MAX as int) == Ok::<int, Seq<char>>(v as int),
            Err(e) => whole_number(text@, 0, usize::MAX as int) == Err::<int, Seq<char>>(e@),
        },
{
    let chars: Vec<char> = chars_of(text);
    let n: usize = chars.len();
    if n == 0 {
        return Err("cannot parse integer from empty string".to_owned());
    }
    if n == 1 && (chars[0] == '+' || chars[0] == '-') {
        return Err("invalid digit found in string".to_owned());
    }
    let from: usize = if chars[0] == '+' {
        1
    } else {
        0
    };
    assert(text@.subrange(0, n as int) =~= text@);
    match read_digits(&chars, from, usize::MAX as u64, "number too large to fit in target type") {
        Ok(v) => {
            proof {
                lemma_within(text@.subrange(from as int, n as int), usize::MAX as nat, "number too large to fit in target type"@, (n - from) as nat);
            }
            Ok(v as usize)
        },
        Err(e) => Err(e),
    }
}

/// A number that was written in decimal is read back.
pub proof fn law_decimal_reads_back(n: nat, lowest: int, highest: int)
    requires
        n <= highest,
    ensures
        whole_number(text::decimal(n), lowest, highest) == Ok::<int, Seq<char>>(n as int),
{
    let s = text::decimal(n);
    lemma_decimal_digits(n, highest as nat, "number too large to fit in target type"@);
    assert(digit_value(s[0]) is Some);
}

proof fn lemma_decimal_digits(n: nat, max: nat, beyond: Seq<char>)
    requires
        n <= max,
    ensures
        text::decimal(n).len() > 0,
        forall|i: int| 0 <= i < text::decimal(n).len() ==> digit_value(#[trigger] text::decimal(n)[i]) is Some,
        digits_value(text::decimal(n), max, beyond, text::decimal(n).len()) == Ok::<nat, Seq<char>>(n),
    decreases n,
{
    let s = text::decimal(n);
    assert(digit_value(text::digit(n % 10)) == Some(n % 10));
    if n >= 10 {
        let before = text::decimal(n / 10);
        lemma_decimal_digits(n / 10, max, beyond);
        assert(s =~= before.push(text::digit(n % 10)));
        lemma_digits_prefix(before, s, max, beyond, before.len());
        assert(s[s.len() - 1] == text::digit(n % 10));
        assert(s.len() - 1 == before.len());
    } else {
        assert(s =~= seq![text::digit(n)]);
        assert(n % 10 == n);
        reveal_with_fuel(digits_value, 2);
    }
}

proof fn lemma_digits_prefix(a: Seq<char>, b: Seq<char>, max: nat, beyond: Seq<char>, n: nat)
    requires
        n <= a.len(),
        n <= b.len(),
        forall|i: int| 0 <= i < n ==> a[i] == b[i],
    ensures
        digits_value(a, max, beyond, n) == digits_value(b, max, beyond, n),
    decreases n,
{
    if n > 0 {
        lemma_digits_prefix(a, b, max, beyond, (n - 1) as nat);
    }
}

} // verus!
