//! Choosing the least or the greatest of some numbers, which are the bits of
//! doubles.

use vstd::prelude::*;
use crate::bits;
use crate::bits::is_less;

verus! {

/// The first of the least numbers below infinity, by its position; nothing where
/// no number lies below infinity.
pub open spec fn first_least(v: Seq<u64>, r: Option<usize>) -> bool {
    match r {
        Some(p) => {
            &&& p < v.len()
            &&& bits::less(v[p as int], bits::INFINITY)
            &&& forall|i: int| 0 <= i < v.len() ==> !bits::less(#[trigger] v[i], v[p as int])
            &&& forall|i: int| 0 <= i < p ==> !bits::less_eq(#[trigger] v[i], v[p as int])
        },
        None => forall|i: int| 0 <= i < v.len() ==> !bits::less(#[trigger] v[i], bits::INFINITY),
    }
}

/// The first of the greatest numbers above negative infinity, by its position;
/// nothing where no number lies above negative infinity.
pub open spec fn first_greatest(v: Seq<u64>, r: Option<usize>) -> bool {
    match r {
        Some(p) => {
            &&& p < v.len()
            &&& bits::less(bits::NEG_INFINITY, v[p as int])
            &&& forall|i: int| 0 <= i < v.len() ==> !bits::less(v[p as int], #[trigger] v[i])
            &&& forall|i: int| 0 <= i < p ==> !bits::less_eq(v[p as int], #[trigger] v[i])
        },
        None => forall|i: int| 0 <= i < v.len() ==> !bits::less(bits::NEG_INFINITY, #[trigger] v[i]),
    }
}

/// Finds the first of the least numbers.
pub fn find_least(v: &Vec<u64>) -> (r: Option<usize>)
    ensures
        first_least(v@, r),
{
    let mut best: Option<usize> = None;
    let mut least: u64 = bits::INFINITY;
    let mut i: usize = 0;
    while i < v.len()
        invariant
            i <= v@.len(),
            match best {
                Some(p) => p < i && least == v@[p as int] && bits::less(least, bits::INFINITY) && forall|j: int|
                    0 <= j < p ==> !bits::less_eq(#[trigger] v@[j], least),
                None => least == bits::INFINITY,
            },
            forall|j: int| 0 <= j < i ==> !bits::less(#[trigger] v@[j], least),
        decreases v.len() - i,
    {
        if is_less(v[i], least) {
            least = v[i];
            best = Some(i);
        }
        i = i + 1;
    }
    best
}

/// Finds the first of the greatest numbers.
pub fn find_greatest(v: &Vec<u64>) -> (r: Option<usize>)
    ensures
        first_greatest(v@, r),
{
    let mut best: Option<usize> = None;
    let mut greatest: u64 = bits::NEG_INFINITY;
    let mut i: usize = 0;
    while i < v.len()
        invariant
            i <= v@.len(),
            match best {
                Some(p) => p < i && greatest == v@[p as int] && bits::less(bits::NEG_INFINITY, greatest) && forall|j: int|
                    0 <= j < p ==> !bits::less_eq(greatest, #[trigger] v@[j]),
                None => greatest == bits::NEG_INFINITY,
            },
            forall|j: int| 0 <= j < i ==> !bits::less(greatest, #[trigger] v@[j]),
        decreases v.len() - i,
    {
        if is_less(greatest, v[i]) {
            greatest = v[i];
            best = Some(i);
        }
        i = i + 1;
    }
    best
}

/// The choice is unique: no two positions are both the first of the least.
pub proof fn law_least_is_unique(v: Seq<u64>, a: Option<usize>, b: Option<usize>)
    requires
        first_least(v, a),
        first_least(v, b),
    ensures
        a == b,
{
    if let (Some(p), Some(q)) = (a, b) {
        assert(!bits::less(v[p as int], v[q as int]) && !bits::less(v[q as int], v[p as int]));
        if p < q {
            assert(!bits::less_eq(v[p as int], v[q as int]));
        } else if q < p {
            assert(!bits::less_eq(v[q as int], v[p as int]));
        }
    } else if let Some(p) = a {
        assert(!bits::less(v[p as int], bits::INFINITY));
    } else if let Some(q) = b {
        assert(!bits::less(v[q as int], bits::INFINITY));
    }
}

} // verus!
