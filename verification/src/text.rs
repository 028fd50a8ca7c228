//! Text helpers: equality, the order of strings, and decimal numerals.

use vstd::prelude::*;
use vstd::utf8::*;
use vstd::string::*;

verus! {

/// How one text stands to another in the order of strings.
#[derive(Debug, Clone, Copy, PartialEq, Eq, Structural)]
pub enum Placed {
    Before,
    Same,
    After,
}

/// Byte strings in dictionary order: at the first difference the smaller byte
/// comes first, and a proper prefix comes before what extends it.
pub open spec fn bytes_before(a: Seq<u8>, b: Seq<u8>) -> bool {
    exists|p: int| #[trigger] differ_at(a, b, p) && p < b.len() && (p == a.len() || a[p] < b[p])
}

/// `a` and `b` agree before position `p`, and `p` lies inside or just behind both.
pub open spec fn differ_at(a: Seq<u8>, b: Seq<u8>, p: int) -> bool {
    0 <= p <= a.len() && p <= b.len() && forall|q: int| 0 <= q < p ==> a[q] == b[q]
}

/// Strings are ordered by their UTF-8 bytes.
pub open spec fn text_before(a: Seq<char>, b: Seq<char>) -> bool {
    bytes_before(encode_utf8(a), encode_utf8(b))
}

/// Two texts with the same UTF-8 bytes are the same text.
pub proof fn lemma_utf8_injective(a: Seq<char>, b: Seq<char>)
    requires
        encode_utf8(a) == encode_utf8(b),
    ensures
        a == b,
{
    encode_utf8_decode_utf8(a);
    encode_utf8_decode_utf8(b);
}

proof fn lemma_bytes_before_asym(a: Seq<u8>, b: Seq<u8>)
    requires
        bytes_before(a, b),
    ensures
        !bytes_before(b, a),
        a != b,
{
    let p = choose|p: int| #[trigger] differ_at(a, b, p) && p < b.len() && (p == a.len() || a[p] < b[p]);
    if bytes_before(b, a) {
        let q = choose|q: int| #[trigger] differ_at(b, a, q) && q < a.len() && (q == b.len() || b[q] < a[q]);
        if p < q {
            assert(b[p] == a[p]);
        }
    }
}

proof fn lemma_bytes_before_trans(a: Seq<u8>, b: Seq<u8>, c: Seq<u8>)
    requires
        bytes_before(a, b),
        bytes_before(b, c),
    ensures
        bytes_before(a, c),
{
    let p = choose|p: int| #[trigger] differ_at(a, b, p) && p < b.len() && (p == a.len() || a[p] < b[p]);
    let q = choose|q: int| #[trigger] differ_at(b, c, q) && q < c.len() && (q == b.len() || b[q] < c[q]);
    let r = if p <= q { p } else { q };
    assert(differ_at(a, c, r)) by {
        assert forall|i: int| 0 <= i < r implies a[i] == c[i] by {
            assert(a[i] == b[i] && b[i] == c[i]);
        }
    }
}

/// No text comes before itself, and of two texts at most one comes first.
pub proof fn lemma_text_before_asym(a: Seq<char>, b: Seq<char>)
    requires
        text_before(a, b),
    ensures
        !text_before(b, a),
        a != b,
{
    lemma_bytes_before_asym(encode_utf8(a), encode_utf8(b));
}

/// The order of texts is transitive.
pub proof fn lemma_text_before_trans(a: Seq<char>, b: Seq<char>, c: Seq<char>)
    requires
        text_before(a, b),
        text_before(b, c),
    ensures
        text_before(a, c),
{
    lemma_bytes_before_trans(encode_utf8(a), encode_utf8(b), encode_utf8(c));
}

proof fn lemma_bytes_before_total(a: Seq<u8>, b: Seq<u8>, p: int)
    requires
        differ_at(a, b, p),
    ensures
        a == b || bytes_before(a, b) || bytes_before(b, a),
    decreases a.len() - p,
{
    assert(differ_at(b, a, p));
    if p == a.len() && p == b.len() {
        assert(a =~= b);
    } else if p < a.len() && p < b.len() && a[p] == b[p] {
        lemma_bytes_before_total(a, b, p + 1);
    }
}

/// Of two different texts one comes first.
pub proof fn lemma_text_before_total(a: Seq<char>, b: Seq<char>)
    ensures
        a == b || text_before(a, b) || text_before(b, a),
{
    assert(differ_at(encode_utf8(a), encode_utf8(b), 0));
    lemma_bytes_before_total(encode_utf8(a), encode_utf8(b), 0);
    if encode_utf8(a) == encode_utf8(b) {
        lemma_utf8_injective(a, b);
    }
}

/// Compares two texts by their bytes.
pub fn text_place(a: &str, b: &str) -> (r: Placed)
    ensures
        r == Placed::Before <==> text_before(a@, b@),
        r == Placed::Same <==> a@ == b@,
        r == Placed::After <==> text_before(b@, a@),
{
    let x: &[u8] = a.as_bytes();
    let y: &[u8] = b.as_bytes();
    let mut p: usize = 0;
    while p < x.len() && p < y.len() && x[p] == y[p]
        invariant
            x@ == encode_utf8(a@),
            y@ == encode_utf8(b@),
            p <= x.len(),
            p <= y.len(),
            forall|q: int| 0 <= q < p ==> x@[q] == y@[q],
        decreases x.len() - p,
    {
        p = p + 1;
    }
    assert(differ_at(x@, y@, p as int));
    assert(differ_at(y@, x@, p as int));
    proof {
        if bytes_before(x@, y@) {
            lemma_bytes_before_asym(x@, y@);
        }
        if bytes_before(y@, x@) {
            lemma_bytes_before_asym(y@, x@);
        }
    }
    if p == x.len() {
        if p == y.len() {
            proof {
                assert(x@ =~= y@);
                lemma_utf8_injective(a@, b@);
            }
            Placed::Same
        } else {
            Placed::Before
        }
    } else if p == y.len() {
        Placed::After
    } else if x[p] < y[p] {
        Placed::Before
    } else {
        Placed::After
    }
}

/// Tells whether two texts are equal.
pub fn text_eq(a: &str, b: &str) -> (r: bool)
    ensures
        r == (a@ == b@),
{
    text_place(a, b) == Placed::Same
}

/// The texts of a list of strings.
pub open spec fn texts(v: Seq<String>) -> Seq<Seq<char>> {
    Seq::new(v.len(), |i: int| v[i]@)
}

/// The characters of a text, as a vector.
pub fn chars_of(s: &str) -> (v: Vec<char>)
    ensures
        v@ == s@,
{
    let mut out: Vec<char> = Vec::new();
    for c in it: s.chars()
        invariant
            it.seq() == s@,
            out@ == s@.take(it.index() as int),
    {
        out.push(c);
        assert(s@.take(it.index() as int + 1) == s@.take(it.index() as int).push(c));
    }
    assert(s@.take(s@.len() as int) == s@);
    out
}

/// The decimal numeral of a number, without leading zeros.
pub open spec fn decimal(n: nat) -> Seq<char>
    decreases n,
{
    if n < 10 {
        seq![digit(n)]
    } else {
        decimal(n / 10).push(digit(n % 10))
    }
}

/// The character of one decimal digit.
pub open spec fn digit(d: nat) -> char {
    (('0' as u32) + d) as char
}

/// The decimal numeral of a signed number.
pub open spec fn signed_decimal(n: int) -> Seq<char> {
    if n < 0 {
        seq!['-'] + decimal((-n) as nat)
    } else {
        decimal(n as nat)
    }
}

/// `String::push` puts one character behind the text.
pub assume_specification[ String::push ](s: &mut String, ch: char)
    ensures
        final(s)@ == old(s)@.push(ch),
;

fn push_digit(out: &mut String, d: u64)
    requires
        d < 10,
    ensures
        final(out)@ == old(out)@.push(digit(d as nat)),
{
    let c: char = if d == 0 {
        '0'
    } else if d == 1 {
        '1'
    } else if d == 2 {
        '2'
    } else if d == 3 {
        '3'
    } else if d == 4 {
        '4'
    } else if d == 5 {
        '5'
    } else if d == 6 {
        '6'
    } else if d == 7 {
        '7'
    } else if d == 8 {
        '8'
    } else {
        '9'
    };
    out.push(c);
}

/// Writes a number in decimal behind a text.
pub fn push_decimal(out: &mut String, n: u64)
    ensures
        final(out)@ == old(out)@ + decimal(n as nat),
    decreases n,
{
    if n >= 10 {
        push_decimal(out, n / 10);
    }
    push_digit(out, n % 10);
    assert(out@ =~= old(out)@ + decimal(n as nat));
}

/// Writes a signed number in decimal behind a text.
pub fn push_signed_decimal(out: &mut String, n: i64)
    ensures
        final(out)@ == old(out)@ + signed_decimal(n as int),
{
    if n < 0 {
        out.push('-');
        let m: i128 = -(n as i128);
        push_decimal(out, m as u64);
        assert(out@ =~= old(out)@ + signed_decimal(n as int));
    } else {
        push_decimal(out, n as u64);
    }
}

/// White space in the sense of Unicode.
pub open spec fn whitespace(c: char) -> bool {
    let u = c as u32;
    ||| 0x9 <= u <= 0xd
    ||| u == 0x20
    ||| u == 0x85
    ||| u == 0xa0
    ||| u == 0x1680
    ||| 0x2000 <= u <= 0x200a
    ||| u == 0x2028
    ||| u == 0x2029
    ||| u == 0x202f
    ||| u == 0x205f
    ||| u == 0x3000
}

/// A text without the white space at its beginning.
pub open spec fn trimmed_start(s: Seq<char>) -> Seq<char>
    decreases s.len(),
{
    if s.len() > 0 && whitespace(s[0]) {
        trimmed_start(s.skip(1))
    } else {
        s
    }
}

/// A text without the white space at its end.
pub open spec fn trimmed_end(s: Seq<char>) -> Seq<char>
    decreases s.len(),
{
    if s.len() > 0 && whitespace(s.last()) {
        trimmed_end(s.drop_last())
    } else {
        s
    }
}

/// A text without the white space around it.
pub open spec fn trimmed(s: Seq<char>) -> Seq<char> {
    trimmed_end(trimmed_start(s))
}

/// Tells whether a character is white space.
pub fn is_whitespace(c: char) -> (r: bool)
    ensures
        r == whitespace(c),
{
    let u: u32 = c as u32;
    (0x9 <= u && u <= 0xd) || u == 0x20 || u == 0x85 || u == 0xa0 || u == 0x1680 || (0x2000 <= u && u
        <= 0x200a) || u == 0x2028 || u == 0x2029 || u == 0x202f || u == 0x205f || u == 0x3000
}

/// The text of the characters from `from` up to, but without, `to`.
pub fn text_range(chars: &Vec<char>, from: usize, to: usize) -> (r: String)
    requires
        from <= to <= chars@.len(),
    ensures
        r@ == chars@.subrange(from as int, to as int),
{
    let mut r: String = String::new();
    let mut i: usize = from;
    assert(r@ =~= chars@.subrange(from as int, from as int));
    while i < to
        invariant
            from <= i <= to <= chars@.len(),
            r@ == chars@.subrange(from as int, i as int),
        decreases to - i,
    {
        r.push(chars[i]);
        assert(r@ =~= chars@.subrange(from as int, i + 1));
        i = i + 1;
    }
    r
}

/// Takes the white space around a text away.
pub fn trim(s: &str) -> (r: String)
    ensures
        r@ == trimmed(s@),
{
    let chars: Vec<char> = chars_of(s);
    let n: usize = chars.len();
    let mut from: usize = 0;
    assert(s@.skip(0) =~= s@);
    while from < n && is_whitespace(chars[from])
        invariant
            chars@ == s@,
            n == chars@.len(),
            from <= n,
            trimmed_start(s@) == trimmed_start(s@.skip(from as int)),
        decreases n - from,
    {
        assert(s@.skip(from as int).skip(1) =~= s@.skip(from + 1));
        from = from + 1;
    }
    let ghost start = s@.skip(from as int);
    assert(trimmed_start(s@) == start);
    let mut to: usize = n;
    assert(s@.subrange(from as int, n as int) =~= start);
    while from < to && is_whitespace(chars[to - 1])
        invariant
            chars@ == s@,
            n == chars@.len(),
            from <= to <= n,
            trimmed_end(start) == trimmed_end(s@.subrange(from as int, to as int)),
        decreases to,
    {
        assert(s@.subrange(from as int, to as int).drop_last() =~= s@.subrange(from as int, to - 1));
        to = to - 1;
    }
    text_range(&chars, from, to)
}

/// Tells whether a text starts with another.
pub fn has_prefix(s: &str, prefix: &str) -> (r: bool)
    ensures
        r == prefix@.is_prefix_of(s@),
{
    let a: Vec<char> = chars_of(s);
    let b: Vec<char> = chars_of(prefix);
    if b.len() > a.len() {
        return false;
    }
    let mut i: usize = 0;
    while i < b.len()
        invariant
            a@ == s@,
            b@ == prefix@,
            b@.len() <= a@.len(),
            i <= b@.len(),
            forall|x: int| 0 <= x < i ==> a@[x] == b@[x],
        decreases b.len() - i,
    {
        if a[i] != b[i] {
            assert(s@.subrange(0, prefix@.len() as int)[i as int] != prefix@[i as int]);
            return false;
        }
        i = i + 1;
    }
    assert(prefix@ =~= s@.subrange(0, prefix@.len() as int));
    true
}

/// A text in lower case, as Unicode has it.
pub uninterp spec fn lower_case(text: Seq<char>) -> Seq<char>;

/// Calls `str::to_lowercase`, which gives the lower case of a text by the
/// Unicode tables. It depends on the text alone.
#[verifier::external_body]
pub(crate) fn to_lower_case(s: &str) -> (r: String)
    ensures
        r@ == lower_case(s@),
{
    s.to_lowercase()
}

/// Tells whether a text has no characters.
pub fn is_empty_text(s: &str) -> (r: bool)
    ensures
        r == (s@.len() == 0),
{
    let empty: bool = text_eq(s, "");
    proof {
        reveal_strlit("");
        if s@.len() == 0 {
            assert(s@ =~= ""@);
        }
    }
    empty
}

/// A text stands somewhere in another.
pub open spec fn occurs(pattern: Seq<char>, s: Seq<char>) -> bool {
    exists|i: int| 0 <= i <= s.len() && #[trigger] pattern.is_prefix_of(s.subrange(i, s.len() as int))
}

/// Tells whether a text stands somewhere in another.
pub fn contains_text(s: &str, pattern: &str) -> (r: bool)
    ensures
        r == occurs(pattern@, s@),
{
    let chars: Vec<char> = chars_of(s);
    let n: usize = chars.len();
    let mut i: usize = 0;
    while i <= n
        invariant
            chars@ == s@,
            n == s@.len(),
            i <= n + 1,
            forall|x: int|
                0 <= x < i ==> !(#[trigger] pattern@.is_prefix_of(s@.subrange(x, s@.len() as int))),
        decreases n + 1 - i,
    {
        let tail: String = text_range(&chars, i, n);
        if has_prefix(tail.as_str(), pattern) {
            assert(pattern@.is_prefix_of(s@.subrange(i as int, s@.len() as int)));
            return true;
        }
        if i == n {
            return false;
        }
        i = i + 1;
    }
    false
}

/// A text without the given characters at its end.
pub open spec fn stripped_end(s: Seq<char>, out: spec_fn(char) -> bool) -> Seq<char>
    decreases s.len(),
{
    if s.len() > 0 && out(s.last()) {
        stripped_end(s.drop_last(), out)
    } else {
        s
    }
}

/// A text without the given characters at its start.
pub open spec fn stripped_start(s: Seq<char>, out: spec_fn(char) -> bool) -> Seq<char>
    decreases s.len(),
{
    if s.len() > 0 && out(s[0]) {
        stripped_start(s.subrange(1, s.len() as int), out)
    } else {
        s
    }
}

/// A text without square brackets at its ends.
pub open spec fn without_brackets(s: Seq<char>) -> Seq<char> {
    stripped_end(stripped_start(s, |c: char| c == '[' || c == ']'), |c: char| c == '[' || c == ']')
}

/// Takes square brackets off both ends of a text.
pub fn strip_brackets(s: &str) -> (r: String)
    ensures
        r@ == without_brackets(s@),
{
    let ghost out = |c: char| c == '[' || c == ']';
    let chars: Vec<char> = chars_of(s);
    let mut from: usize = 0;
    let mut to: usize = chars.len();
    assert(chars@.subrange(0, to as int) =~= s@);
    while from < to && (chars[from] == '[' || chars[from] == ']')
        invariant
            from <= to,
            to == chars@.len(),
            out == (|c: char| c == '[' || c == ']'),
            stripped_start(s@, out) == stripped_start(chars@.subrange(from as int, to as int), out),
        decreases to - from,
    {
        let ghost rest = chars@.subrange(from as int, to as int);
        assert(rest.subrange(1, rest.len() as int) =~= chars@.subrange(from + 1, to as int));
        from = from + 1;
    }
    let ghost middle = stripped_start(s@, out);
    assert(middle == chars@.subrange(from as int, to as int));
    while from < to && (chars[to - 1] == '[' || chars[to - 1] == ']')
        invariant
            from <= to <= chars@.len(),
            out == (|c: char| c == '[' || c == ']'),
            stripped_end(middle, out) == stripped_end(chars@.subrange(from as int, to as int), out),
        decreases to - from,
    {
        let ghost rest = chars@.subrange(from as int, to as int);
        assert(rest.drop_last() =~= chars@.subrange(from as int, to - 1));
        to = to - 1;
    }
    text_range(&chars, from, to)
}

} // verus!
