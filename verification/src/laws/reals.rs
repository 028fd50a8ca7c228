//! What the bit patterns stand for: each comparison is that of the values.

use vstd::arithmetic::power2::*;
use vstd::prelude::*;
use crate::bits;
use crate::bits::{clamp_unit, is_less, is_less_eq, is_less_eq_single, is_same, not_a_number};

verus! {

/// The size of a pattern without its sign, as a multiple of the smallest one, where
/// the fraction takes the values below `unit`: the fraction itself, or, with an
/// exponent, the fraction and a leading one, shifted.
pub open spec fn size(m: nat, unit: nat) -> nat {
    if m / unit == 0 {
        m % unit
    } else {
        (unit + m % unit) * pow2((m / unit - 1) as nat)
    }
}

/// The value of a double as a multiple of the smallest positive one.
pub open spec fn value(b: u64) -> int {
    if b < 0x8000_0000_0000_0000 {
        size(b as nat, 0x10_0000_0000_0000) as int
    } else {
        -size((b - 0x8000_0000_0000_0000) as nat, 0x10_0000_0000_0000)
    }
}

/// The double is a number or infinite: its exponent is not the largest, or its
/// fraction is 0.
pub open spec fn is_number(b: u64) -> bool {
    let m = b as nat % 0x8000_0000_0000_0000;
    m / 0x10_0000_0000_0000 < 0x7ff || m % 0x10_0000_0000_0000 == 0
}

/// The value of a single precision number as a multiple of the smallest positive
/// one.
pub open spec fn value_single(b: u32) -> int {
    if b < 0x8000_0000 {
        size(b as nat, 0x80_0000) as int
    } else {
        -size((b - 0x8000_0000) as nat, 0x80_0000)
    }
}

/// The single precision pattern is a number or infinite.
pub open spec fn is_number_single(b: u32) -> bool {
    let m = b as nat % 0x8000_0000;
    m / 0x80_0000 < 0xff || m % 0x80_0000 == 0
}

proof fn lemma_next_size(m: nat, unit: nat)
    requires
        unit > 1,
    ensures
        size(m, unit) < size(m + 1, unit),
{
    let e = m / unit;
    let f = m % unit;
    let p = pow2((e - 1) as nat);
    vstd::arithmetic::div_mod::lemma_fundamental_div_mod(m as int, unit as int);
    if f + 1 < unit {
        vstd::arithmetic::div_mod::lemma_fundamental_div_mod_converse(
            (m + 1) as int,
            unit as int,
            e as int,
            (f + 1) as int,
        );
        if e > 0 {
            lemma_pow2_pos((e - 1) as nat);
            assert((unit + f) * p < (unit + f + 1) * p) by (nonlinear_arith)
                requires
                    p > 0,
            ;
        }
    } else {
        assert(m + 1 == (e + 1) * unit + 0) by (nonlinear_arith)
            requires
                m == unit * e + f,
                f + 1 == unit,
        ;
        vstd::arithmetic::div_mod::lemma_fundamental_div_mod_converse((m + 1) as int, unit as int, (e + 1) as int, 0);
        lemma_pow2_pos(e);
        if e > 0 {
            lemma_pow2_unfold(e);
            lemma_pow2_pos((e - 1) as nat);
            assert((unit + f) * p < unit * (2 * p)) by (nonlinear_arith)
                requires
                    p > 0,
                    f + 1 == unit,
            ;
        } else {
            lemma2_to64();
            assert(size(m + 1, unit) == unit * 1);
        }
    }
}

proof fn lemma_size_grows(m: nat, n: nat, unit: nat)
    requires
        unit > 1,
        m < n,
    ensures
        size(m, unit) < size(n, unit),
    decreases n - m,
{
    lemma_next_size((n - 1) as nat, unit);
    if m + 1 < n {
        lemma_size_grows(m, (n - 1) as nat, unit);
    }
}

proof fn lemma_size_zero(m: nat, unit: nat)
    requires
        unit > 1,
    ensures
        size(m, unit) == 0 <==> m == 0,
{
    vstd::arithmetic::div_mod::lemma_fundamental_div_mod_converse(0, unit as int, 0, 0);
    assert(size(0, unit) == 0);
    if m > 0 {
        lemma_size_grows(0, m, unit);
    }
}

proof fn lemma_rank_is_value(a: u64, b: u64)
    ensures
        bits::rank(a) < bits::rank(b) <==> value(a) < value(b),
        bits::rank(a) == bits::rank(b) <==> value(a) == value(b),
        bits::is_nan(a) <==> !is_number(a),
{
    let unit: nat = 0x10_0000_0000_0000;
    let x = bits::magnitude(a) as nat;
    let y = bits::magnitude(b) as nat;
    lemma_size_zero(x, unit);
    lemma_size_zero(y, unit);
    if x < y {
        lemma_size_grows(x, y, unit);
    } else if y < x {
        lemma_size_grows(y, x, unit);
    }
}

proof fn lemma_rank_is_value_single(a: u32, b: u32)
    ensures
        bits::rank_single(a) < bits::rank_single(b) <==> value_single(a) < value_single(b),
        bits::rank_single(a) == bits::rank_single(b) <==> value_single(a) == value_single(b),
        bits::is_nan_single(a) <==> !is_number_single(a),
{
    let unit: nat = 0x80_0000;
    let x = if a < 0x8000_0000 { a as nat } else { (a - 0x8000_0000) as nat };
    let y = if b < 0x8000_0000 { b as nat } else { (b - 0x8000_0000) as nat };
    lemma_size_zero(x, unit);
    lemma_size_zero(y, unit);
    if x < y {
        lemma_size_grows(x, y, unit);
    } else if y < x {
        lemma_size_grows(y, x, unit);
    }
}

/// Doubles compare as their values do; what is no number compares with nothing.
pub proof fn law_doubles_compare_by_value(a: u64, b: u64, lt: bool, le: bool, eq: bool, nan: bool)
    requires
        call_ensures(is_less, (a, b), lt),
        call_ensures(is_less_eq, (a, b), le),
        call_ensures(is_same, (a, b), eq),
        call_ensures(not_a_number, (a,), nan),
    ensures
        nan == !is_number(a),
        lt == (is_number(a) && is_number(b) && value(a) < value(b)),
        le == (is_number(a) && is_number(b) && value(a) <= value(b)),
        eq == (is_number(a) && is_number(b) && value(a) == value(b)),
{
    lemma_rank_is_value(a, b);
    lemma_rank_is_value(b, a);
}

/// The orders of doubles in contracts are those of the values.
pub proof fn law_order_is_of_values(a: u64, b: u64)
    ensures
        bits::is_nan(a) == !is_number(a),
        bits::less(a, b) == (is_number(a) && is_number(b) && value(a) < value(b)),
        bits::less_eq(a, b) == (is_number(a) && is_number(b) && value(a) <= value(b)),
        bits::same(a, b) == (is_number(a) && is_number(b) && value(a) == value(b)),
        bits::rank(a) < bits::rank(b) <==> value(a) < value(b),
        bits::rank(a) == bits::rank(b) <==> value(a) == value(b),
{
    lemma_rank_is_value(a, b);
    lemma_rank_is_value(b, a);
}

/// Single precision numbers compare as their values do.
pub proof fn law_singles_compare_by_value(a: u32, b: u32, le: bool)
    requires
        call_ensures(is_less_eq_single, (a, b), le),
    ensures
        le == (is_number_single(a) && is_number_single(b) && value_single(a) <= value_single(b)),
{
    lemma_rank_is_value_single(a, b);
    lemma_rank_is_value_single(b, a);
}

/// The order of single precision numbers in contracts is that of the values.
pub proof fn law_single_order_is_of_values(a: u32, b: u32)
    ensures
        bits::less_eq_single(a, b) == (is_number_single(a) && is_number_single(b) && value_single(a) <= value_single(
            b,
        )),
{
    lemma_rank_is_value_single(a, b);
    lemma_rank_is_value_single(b, a);
}

/// The order in which scores are ranked follows their values: of two numbers the
/// larger one ranks higher, and the same number ranks the same unless the sign of a
/// zero differs.
pub proof fn law_total_order_follows_values(a: u32, b: u32)
    requires
        is_number_single(a),
        is_number_single(b),
    ensures
        value_single(a) < value_single(b) ==> bits::total_rank(a) < bits::total_rank(b),
        bits::total_rank(a) == bits::total_rank(b) <==> a == b,
{
    lemma_rank_is_value_single(a, b);
    lemma_rank_is_value_single(b, a);
}

proof fn lemma_power_value(b: u64, e: nat)
    requires
        b == e * 0x10_0000_0000_0000,
        1 <= e < 0x7ff,
    ensures
        value(b) == 0x10_0000_0000_0000 * pow2((e - 1) as nat),
{
    assert(b as nat / 0x10_0000_0000_0000 == e);
    assert(b as nat % 0x10_0000_0000_0000 == 0);
}

/// The constants are what they are called.
pub proof fn law_constants_have_their_values()
    ensures
        value(bits::ZERO) == 0,
        value(bits::ONE) > 0,
        value(bits::ONE) == pow2(1074),
        2 * value(bits::HALF) == value(bits::ONE),
        value(bits::MINUS_ONE) == -value(bits::ONE),
        is_number(bits::ZERO) && is_number(bits::HALF) && is_number(bits::ONE) && is_number(bits::MINUS_ONE),
        forall|b: u64| is_number(b) ==> #[trigger] value(b) <= value(bits::INFINITY),
        forall|b: u64| is_number(b) ==> #[trigger] value(b) >= value(bits::NEG_INFINITY),
        is_number(bits::INFINITY) && is_number(bits::NEG_INFINITY),
{
    lemma_power_value(bits::ONE, 0x3ff);
    lemma_power_value(bits::HALF, 0x3fe);
    lemma_pow2_unfold(0x3fe);
    lemma_pow2_pos(0x3fe);
    lemma_pow2_adds(52, 0x3fe);
    lemma2_to64_rest();
    assert forall|b: u64| is_number(b) implies #[trigger] value(b) <= value(bits::INFINITY) && value(b) >= value(
        bits::NEG_INFINITY,
    ) by {
        law_order_is_of_values(b, bits::INFINITY);
        law_order_is_of_values(bits::NEG_INFINITY, b);
        law_order_is_of_values(bits::INFINITY, b);
        law_order_is_of_values(b, bits::NEG_INFINITY);
    }
}

/// What is brought into the range from -1 to 1 lies there, and what lies there
/// already stays as it is.
pub proof fn law_clamping_keeps_the_range(b: u64, r: u64)
    requires
        call_ensures(clamp_unit, (b,), r),
        is_number(b),
    ensures
        is_number(r),
        -value(bits::ONE) <= value(r) <= value(bits::ONE),
        -value(bits::ONE) <= value(b) <= value(bits::ONE) ==> r == b,
        value(b) > value(bits::ONE) ==> r == bits::ONE,
        value(b) < -value(bits::ONE) ==> r == bits::MINUS_ONE,
        r == bits::clamped(b),
{
    law_constants_have_their_values();
    law_order_is_of_values(b, bits::MINUS_ONE);
    law_order_is_of_values(bits::ONE, b);
}

} // verus!
