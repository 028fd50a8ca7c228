//! Little-endian numbers in byte strings.

use vstd::prelude::*;

verus! {

/// The `n` lowest base 256 digits of a number, lowest first.
pub open spec fn le_bytes(x: nat, n: nat) -> Seq<u8>
    decreases n,
{
    if n == 0 {
        Seq::empty()
    } else {
        seq![(x % 256) as u8] + le_bytes(x / 256, (n - 1) as nat)
    }
}

/// The number with the given base 256 digits, lowest first.
pub open spec fn le_value(s: Seq<u8>) -> nat
    decreases s.len(),
{
    if s.len() == 0 {
        0
    } else {
        s[0] as nat + 256 * le_value(s.skip(1))
    }
}

/// 256 to the power `n`.
pub open spec fn base_to(n: nat) -> nat
    decreases n,
{
    if n == 0 {
        1
    } else {
        256 * base_to((n - 1) as nat)
    }
}

/// There are as many digits as asked for.
pub proof fn lemma_le_bytes_len(x: nat, n: nat)
    ensures
        le_bytes(x, n).len() == n,
    decreases n,
{
    if n > 0 {
        lemma_le_bytes_len(x / 256, (n - 1) as nat);
    }
}

/// A number of `n` digits lies below `256^n`.
pub proof fn lemma_le_value_bound(s: Seq<u8>)
    ensures
        le_value(s) < base_to(s.len()),
    decreases s.len(),
{
    if s.len() > 0 {
        lemma_le_value_bound(s.skip(1));
    }
}

/// Reading the digits of a number gives the number back.
pub proof fn lemma_le_value_of_bytes(x: nat, n: nat)
    requires
        x < base_to(n),
    ensures
        le_value(le_bytes(x, n)) == x,
    decreases n,
{
    if n > 0 {
        assert(x / 256 < base_to((n - 1) as nat));
        lemma_le_value_of_bytes(x / 256, (n - 1) as nat);
        lemma_le_bytes_len(x, n);
        let s = le_bytes(x, n);
        assert(s.skip(1) =~= le_bytes(x / 256, (n - 1) as nat));
    }
}

/// The digits of the number that a byte string gives are the byte string.
pub proof fn lemma_le_bytes_of_value(s: Seq<u8>)
    ensures
        le_bytes(le_value(s), s.len()) == s,
    decreases s.len(),
{
    if s.len() > 0 {
        lemma_le_bytes_of_value(s.skip(1));
        let x = le_value(s);
        assert(x % 256 == s[0] as nat && x / 256 == le_value(s.skip(1)));
        assert(le_bytes(x, s.len()) =~= s);
    } else {
        assert(le_bytes(le_value(s), s.len()) =~= s);
    }
}

/// Four digits reach over the 32-bit numbers, eight over the 64-bit numbers.
pub proof fn lemma_word_ranges()
    ensures
        base_to(4) == 0x1_0000_0000,
        base_to(8) == 0x1_0000_0000_0000_0000,
{
    reveal_with_fuel(base_to, 9);
}

/// Writes the `n` lowest digits of a number behind a byte string.
pub fn push_le(out: &mut Vec<u8>, x: u64, n: usize)
    ensures
        final(out)@ == old(out)@ + le_bytes(x as nat, n as nat),
{
    let mut rest: u64 = x;
    let mut i: usize = 0;
    assert(out@ + le_bytes(x as nat, n as nat) =~= old(out)@ + le_bytes(x as nat, n as nat));
    while i < n
        invariant
            i <= n,
            out@ + le_bytes(rest as nat, (n - i) as nat) == old(out)@ + le_bytes(x as nat, n as nat),
        decreases n - i,
    {
        let ghost before = out@;
        let ghost tail = le_bytes((rest / 256) as nat, (n - i - 1) as nat);
        out.push((rest % 256) as u8);
        assert(out@ + tail =~= before + (seq![(rest % 256) as u8] + tail));
        rest = rest / 256;
        i = i + 1;
    }
    assert(out@ + le_bytes(rest as nat, 0) =~= out@);
}

/// Reads a number of `n` digits, at most eight, that starts at position `at`.
pub fn read_le(bytes: &[u8], at: usize, n: usize) -> (x: u64)
    requires
        n <= 8,
        at + n <= bytes@.len(),
    ensures
        x == le_value(bytes@.subrange(at as int, at + n)),
{
    let ghost s = bytes@.subrange(at as int, at + n);
    let total: usize = bytes.len();
    let mut x: u64 = 0;
    let mut i: usize = n;
    assert(s.skip(n as int) =~= Seq::empty());
    while i > 0
        invariant
            n <= 8,
            at + n <= total == bytes@.len(),
            s == bytes@.subrange(at as int, at + n),
            i <= n,
            x == le_value(s.skip(i as int)),
        decreases i,
    {
        i = i - 1;
        proof {
            let tail = s.skip(i + 1);
            assert(s.skip(i as int).skip(1) =~= tail);
            lemma_le_value_bound(s.skip(i as int));
            lemma_base_monotone((n - i) as nat, 8);
            lemma_word_ranges();
        }
        x = x * 256 + bytes[at + i] as u64;
    }
    assert(s.skip(0) =~= s);
    x
}

/// Powers of 256 grow with the exponent.
pub proof fn lemma_base_monotone(a: nat, b: nat)
    requires
        a <= b,
    ensures
        1 <= base_to(a) <= base_to(b),
    decreases b,
{
    if a < b {
        lemma_base_monotone(a, (b - 1) as nat);
    } else if b > 0 {
        lemma_base_monotone((a - 1) as nat, (b - 1) as nat);
    }
}

/// Copies some bytes.
pub fn copy_bytes(data: &[u8]) -> (r: Vec<u8>)
    ensures
        r@ == data@,
{
    let mut r: Vec<u8> = Vec::new();
    let mut i: usize = 0;
    while i < data.len()
        invariant
            i <= data@.len(),
            r@ == data@.take(i as int),
        decreases data.len() - i,
    {
        r.push(data[i]);
        i = i + 1;
        assert(r@ =~= data@.take(i as int));
    }
    assert(data@.take(i as int) =~= data@);
    r
}

} // verus!
