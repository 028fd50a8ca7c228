//! Cosine similarity of vectors of single precision numbers, which are held as bit
//! patterns. The caller computes; the library decides when a vector has a direction
//! and what a similarity may be.

use vstd::prelude::*;
use crate::bits::is_less_eq_single;
use crate::bits;

verus! {

/// The bits of the single precision number 0.
pub const ZERO: u32 = 0;

/// The bits of the single precision number 1.
pub const ONE: u32 = 0x3f80_0000;

/// The bits of the single precision number -1.
pub const MINUS_ONE: u32 = 0xbf80_0000;

/// The bits of the distance between 1 and the next single precision number.
pub const EPSILON: u32 = 0x3400_0000;

/// The single precision pattern stands for a finite number.
pub open spec fn finite(b: u32) -> bool {
    if b < 0x8000_0000 {
        b < 0x7f80_0000
    } else {
        b - 0x8000_0000 < 0x7f80_0000
    }
}

/// Tells whether a single precision pattern stands for a finite number.
pub fn is_finite(b: u32) -> (r: bool)
    ensures
        r == finite(b),
{
    if b < 0x8000_0000 {
        b < 0x7f80_0000
    } else {
        b - 0x8000_0000 < 0x7f80_0000
    }
}

/// The length of a vector, as the caller computes it.
pub open spec fn has_norm<N: Fn(&Vec<u32>) -> u32>(norm: N, v: Seq<u32>, n: u32) -> bool {
    exists|a: &Vec<u32>| a@ == v && #[trigger] call_ensures(norm, (a,), n)
}

/// A vector of that length has a direction.
pub open spec fn long_enough(n: u32) -> bool {
    finite(n) && !bits::less_eq_single(n, EPSILON)
}

/// The elements of a vector, each divided by its length.
pub open spec fn scaled<D: Fn(u32, u32) -> u32>(divide: D, v: Seq<u32>, n: u32, out: Seq<u32>) -> bool {
    &&& out.len() == v.len()
    &&& forall|i: int| 0 <= i < v.len() ==> call_ensures(divide, (v[i], n), #[trigger] out[i])
}

/// What bringing a vector to length 1 gives: nothing for a vector that is too short
/// or not finite.
pub open spec fn normalizes<N: Fn(&Vec<u32>) -> u32, D: Fn(u32, u32) -> u32>(
    norm: N,
    divide: D,
    v: Seq<u32>,
    r: Option<Seq<u32>>,
) -> bool {
    exists|n: u32| #[trigger]
        has_norm(norm, v, n) && match r {
            Some(out) => long_enough(n) && scaled(divide, v, n, out),
            None => !long_enough(n),
        }
}

/// A vector that may be missing, as a mathematical value.
pub open spec fn vector_of(v: Option<Vec<u32>>) -> Option<Seq<u32>> {
    match v {
        Some(v) => Some(v@),
        None => None,
    }
}

/// Brings a vector to length 1. `norm` computes the length of a vector and `divide`
/// a quotient.
pub fn l2_normalize<N: Fn(&Vec<u32>) -> u32, D: Fn(u32, u32) -> u32>(v: &Vec<u32>, norm: &N, divide: &D) -> (r: Option<
    Vec<u32>,
>)
    requires
        forall|a: &Vec<u32>| call_requires(*norm, (a,)),
        forall|a: u32, b: u32| call_requires(*divide, (a, b)),
    ensures
        normalizes(*norm, *divide, v@, vector_of(r)),
{
    let n: u32 = norm(v);
    assert(has_norm(*norm, v@, n)) by {
        assert(v@ == v@ && call_ensures(*norm, (v,), n));
    }
    if !is_finite(n) || is_less_eq_single(n, EPSILON) {
        assert(normalizes(*norm, *divide, v@, None));
        return None;
    }
    let mut out: Vec<u32> = Vec::new();
    let mut i: usize = 0;
    while i < v.len()
        invariant
            forall|a: u32, b: u32| call_requires(*divide, (a, b)),
            i <= v@.len(),
            out@.len() == i,
            forall|x: int| 0 <= x < i ==> call_ensures(*divide, (v@[x], n), #[trigger] out@[x]),
        decreases v.len() - i,
    {
        let x: u32 = v[i];
        let q: u32 = divide(x, n);
        assert(call_ensures(*divide, (v@[i as int], n), q));
        out.push(q);
        i = i + 1;
    }
    assert(scaled(*divide, v@, n, out@));
    assert(normalizes(*norm, *divide, v@, Some(out@)));
    Some(out)
}

/// A similarity brought into the range from -1 to 1.
pub open spec fn clamped(b: u32) -> u32 {
    if !bits::less_eq_single(MINUS_ONE, b) {
        MINUS_ONE
    } else if !bits::less_eq_single(b, ONE) {
        ONE
    } else {
        b
    }
}

/// The product of two vectors, as the caller computes it.
pub open spec fn has_dot<P: Fn(&Vec<u32>, &Vec<u32>) -> u32>(dot: P, a: Seq<u32>, b: Seq<u32>, d: u32) -> bool {
    exists|x: &Vec<u32>, y: &Vec<u32>| x@ == a && y@ == b && #[trigger] call_ensures(dot, (x, y), d)
}

/// The similarity of two directions: their product brought into range, 0 where it
/// is not finite.
pub open spec fn compares<P: Fn(&Vec<u32>, &Vec<u32>) -> u32>(dot: P, a: Seq<u32>, b: Seq<u32>, r: u32) -> bool {
    exists|d: u32| #[trigger]
        has_dot(dot, a, b, d) && r == if finite(d) {
            clamped(d)
        } else {
            ZERO
        }
}

/// What comparing two vectors gives: 0 where they differ in length, are empty, or
/// one of them has no direction, else the similarity of their directions.
pub open spec fn is_cosine<N: Fn(&Vec<u32>) -> u32, D: Fn(u32, u32) -> u32, P: Fn(&Vec<u32>, &Vec<u32>) -> u32>(
    norm: N,
    divide: D,
    dot: P,
    a: Seq<u32>,
    b: Seq<u32>,
    r: u32,
) -> bool {
    if a.len() != b.len() || a.len() == 0 {
        r == ZERO
    } else {
        exists|x: Option<Seq<u32>>, y: Option<Seq<u32>>| #[trigger]
            normalizes(norm, divide, a, x) && #[trigger] normalizes(norm, divide, b, y) && match (x, y) {
                (Some(x), Some(y)) => compares(dot, x, y, r),
                _ => r == ZERO,
            }
    }
}

/// Computes the cosine similarity of two vectors; it lies between -1 and 1.
pub fn cosine_similarity<N: Fn(&Vec<u32>) -> u32, D: Fn(u32, u32) -> u32, P: Fn(&Vec<u32>, &Vec<u32>) -> u32>(
    a: &Vec<u32>,
    b: &Vec<u32>,
    norm: &N,
    divide: &D,
    dot: &P,
) -> (r: u32)
    requires
        forall|x: &Vec<u32>| call_requires(*norm, (x,)),
        forall|x: u32, y: u32| call_requires(*divide, (x, y)),
        forall|x: &Vec<u32>, y: &Vec<u32>| call_requires(*dot, (x, y)),
    ensures
        is_cosine(*norm, *divide, *dot, a@, b@, r),
        bits::less_eq_single(MINUS_ONE, r),
        bits::less_eq_single(r, ONE),
{
    if a.len() != b.len() || a.len() == 0 {
        return ZERO;
    }
    let x: Option<Vec<u32>> = l2_normalize(a, norm, divide);
    let y: Option<Vec<u32>> = l2_normalize(b, norm, divide);
    assert(normalizes(*norm, *divide, a@, vector_of(x)));
    assert(normalizes(*norm, *divide, b@, vector_of(y)));
    match (&x, &y) {
        (Some(an), Some(bn)) => {
            let d: u32 = dot(an, bn);
            assert(has_dot(*dot, an@, bn@, d)) by {
                assert(call_ensures(*dot, (an, bn), d));
            }
            let r: u32 = if !is_finite(d) {
                ZERO
            } else if !is_less_eq_single(MINUS_ONE, d) {
                MINUS_ONE
            } else if !is_less_eq_single(d, ONE) {
                ONE
            } else {
                d
            };
            assert(compares(*dot, an@, bn@, r));
            r
        },
        _ => ZERO,
    }
}

/// A similarity lies between -1 and 1.
pub proof fn law_cosine_is_in_range<
    N: Fn(&Vec<u32>) -> u32,
    D: Fn(u32, u32) -> u32,
    P: Fn(&Vec<u32>, &Vec<u32>) -> u32,
>(norm: N, divide: D, dot: P, a: Seq<u32>, b: Seq<u32>, r: u32)
    requires
        is_cosine(norm, divide, dot, a, b, r),
    ensures
        bits::less_eq_single(MINUS_ONE, r),
        bits::less_eq_single(r, ONE),
{
}

/// What the caller computes with vectors: `norm` the length of one, `divide` a
/// quotient of two numbers, and `dot` the product of two vectors.
pub struct VectorMath<L, D, T> {
    pub norm: L,
    pub divide: D,
    pub dot: T,
}

/// Each function of the caller can be called, and gives one answer.
pub open spec fn sound_math<
    L: Fn(&Vec<u32>) -> u32,
    D: Fn(u32, u32) -> u32,
    T: Fn(&Vec<u32>, &Vec<u32>) -> u32,
>(math: VectorMath<L, D, T>) -> bool {
    &&& forall|x: &Vec<u32>| call_requires(math.norm, (x,))
    &&& forall|x: u32, y: u32| call_requires(math.divide, (x, y))
    &&& forall|x: &Vec<u32>, y: &Vec<u32>| call_requires(math.dot, (x, y))
    &&& forall|v: Seq<u32>, m: u32, n: u32|
        #![trigger has_norm(math.norm, v, m), has_norm(math.norm, v, n)]
        has_norm(math.norm, v, m) && has_norm(math.norm, v, n) ==> m == n
    &&& forall|x: u32, y: u32, m: u32, n: u32|
        #![trigger call_ensures(math.divide, (x, y), m), call_ensures(math.divide, (x, y), n)]
        call_ensures(math.divide, (x, y), m) && call_ensures(math.divide, (x, y), n) ==> m == n
    &&& forall|a: Seq<u32>, b: Seq<u32>, m: u32, n: u32|
        #![trigger has_dot(math.dot, a, b, m), has_dot(math.dot, a, b, n)]
        has_dot(math.dot, a, b, m) && has_dot(math.dot, a, b, n) ==> m == n
}

/// A vector is brought to length 1 in one way.
pub proof fn lemma_one_direction<
    L: Fn(&Vec<u32>) -> u32,
    D: Fn(u32, u32) -> u32,
    T: Fn(&Vec<u32>, &Vec<u32>) -> u32,
>(math: VectorMath<L, D, T>, v: Seq<u32>, x: Option<Seq<u32>>, y: Option<Seq<u32>>)
    requires
        sound_math(math),
        normalizes(math.norm, math.divide, v, x),
        normalizes(math.norm, math.divide, v, y),
    ensures
        x == y,
{
    if let (Some(a), Some(b)) = (x, y) {
        assert(a =~= b);
    }
}

/// Two vectors have one similarity.
pub proof fn lemma_one_cosine<
    L: Fn(&Vec<u32>) -> u32,
    D: Fn(u32, u32) -> u32,
    T: Fn(&Vec<u32>, &Vec<u32>) -> u32,
>(math: VectorMath<L, D, T>, a: Seq<u32>, b: Seq<u32>, r: u32, s: u32)
    requires
        sound_math(math),
        is_cosine(math.norm, math.divide, math.dot, a, b, r),
        is_cosine(math.norm, math.divide, math.dot, a, b, s),
    ensures
        r == s,
{
    if a.len() == b.len() && a.len() > 0 {
        let (x, y) = choose|x: Option<Seq<u32>>, y: Option<Seq<u32>>| #[trigger]
            normalizes(math.norm, math.divide, a, x) && #[trigger] normalizes(math.norm, math.divide, b, y) && match (
                x,
                y,
            ) {
                (Some(x), Some(y)) => compares(math.dot, x, y, r),
                _ => r == ZERO,
            };
        let (u, v) = choose|x: Option<Seq<u32>>, y: Option<Seq<u32>>| #[trigger]
            normalizes(math.norm, math.divide, a, x) && #[trigger] normalizes(math.norm, math.divide, b, y) && match (
                x,
                y,
            ) {
                (Some(x), Some(y)) => compares(math.dot, x, y, s),
                _ => s == ZERO,
            };
        lemma_one_direction(math, a, x, u);
        lemma_one_direction(math, b, y, v);
    }
}

} // verus!
