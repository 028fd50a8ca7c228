//! The distinct classes among labels.

use vstd::prelude::*;
use crate::sorting;
use crate::sorting::{sorted_positions, RowOrder};

verus! {

/// The distinct keys among some keys, in ascending order, each by the position
/// where it comes first.
pub open spec fn distinct_positions(keys: Seq<i128>, at: Seq<usize>) -> bool {
    &&& forall|c: int|
        #![trigger at[c]]
        0 <= c < at.len() ==> at[c] < keys.len() && is_first(keys, at[c] as int)
    &&& forall|c: int, d: int| #![trigger at[c], at[d]] 0 <= c < d < at.len() ==> keys[at[c] as int] < keys[at[d] as int]
    &&& forall|i: int| 0 <= i < keys.len() ==> has_class(keys, at, #[trigger] keys[i])
}

/// The key at a position does not come earlier.
pub open spec fn is_first(keys: Seq<i128>, p: int) -> bool {
    forall|i: int| 0 <= i < p ==> #[trigger] keys[i] != keys[p]
}

/// One of the positions has the key.
pub open spec fn has_class(keys: Seq<i128>, at: Seq<usize>, key: i128) -> bool {
    exists|c: int| 0 <= c < at.len() && keys[#[trigger] at[c] as int] == key
}

struct KeyTable<'a> {
    keys: &'a Vec<i128>,
}

impl<'a> RowOrder for KeyTable<'a> {
    closed spec fn size(&self) -> nat {
        self.keys@.len()
    }

    closed spec fn comparable(&self) -> bool {
        true
    }

    closed spec fn rows_le(&self, a: int, b: int) -> bool {
        self.keys@[a] <= self.keys@[b]
    }

    proof fn total(&self, a: int, b: int) {
    }

    proof fn transitive(&self, a: int, b: int, c: int) {
    }

    fn check_le(&self, a: usize, b: usize) -> (r: bool) {
        self.keys[a] <= self.keys[b]
    }
}

/// Finds the distinct keys.
pub fn find_distinct(keys: &Vec<i128>) -> (at: Vec<usize>)
    ensures
        distinct_positions(keys@, at@),
        at@.len() <= keys@.len(),
{
    let table = KeyTable { keys };
    let n: usize = keys.len();
    let order: Vec<usize> = sorted_positions(&table, n);
    let ghost le = |a: int, b: int| table.rows_le(a, b);
    let mut at: Vec<usize> = Vec::new();
    let mut i: usize = 0;
    proof {
        assert forall|x: int| 0 <= x < order@.len() implies #[trigger] order@[x] < n by {
            assert(order@.contains(order@[x]));
        }
    }
    while i < n
        invariant
            n == keys@.len(),
            order@.len() == n,
            le == (|a: int, b: int| table.rows_le(a, b)),
            table.keys == keys,
            sorting::stable_order(le, 0, n as int, order@),
            forall|x: int| 0 <= x < order@.len() ==> #[trigger] order@[x] < n,
            i <= n,
            at@.len() <= i,
            i > 0 ==> at@.len() > 0 && keys@[at@.last() as int] == keys@[order@[i - 1] as int],
            forall|c: int|
                #![trigger at@[c]]
                0 <= c < at@.len() ==> at@[c] < n && is_first(keys@, at@[c] as int),
            forall|c: int, d: int|
                #![trigger at@[c], at@[d]]
                0 <= c < d < at@.len() ==> keys@[at@[c] as int] < keys@[at@[d] as int],
            forall|x: int| 0 <= x < i ==> has_class(keys@, at@, keys@[#[trigger] order@[x] as int]),
        decreases n - i,
    {
        let p: usize = order[i];
        let ghost before = at@;
        if i == 0 || keys[p] != keys[order[i - 1]] {
            proof {
                lemma_first_of_run(keys@, order@, le, i as int);
                if i > 0 {
                    assert(sorting::comes_first(le, order@[i - 1] as int, order@[i as int] as int));
                }
                assert forall|c: int| 0 <= c < at@.len() implies keys@[#[trigger] at@[c] as int] < keys@[p as int] by {
                    if c < at@.len() - 1 {
                        assert(keys@[at@[c] as int] < keys@[at@[at@.len() - 1] as int]);
                    }
                }
            }
            at.push(p);
        }
        proof {
            assert forall|x: int| 0 <= x < i + 1 implies has_class(keys@, at@, keys@[#[trigger] order@[x] as int]) by {
                if x < i {
                    let c = choose|c: int| 0 <= c < before.len() && keys@[#[trigger] before[c] as int] == keys@[order@[x] as int];
                    assert(at@[c] == before[c]);
                } else {
                    assert(keys@[at@[at@.len() - 1] as int] == keys@[p as int]);
                }
            }
        }
        i = i + 1;
    }
    proof {
        assert forall|x: int| 0 <= x < keys@.len() implies has_class(keys@, at@, #[trigger] keys@[x]) by {
            assert(order@.contains(x as usize));
            let j = choose|j: int| 0 <= j < order@.len() && order@[j] == x;
            assert(has_class(keys@, at@, keys@[order@[j] as int]));
        }
    }
    at
}

/// A position that starts a run of equal keys in stable order is where its key
/// comes first.
proof fn lemma_first_of_run(keys: Seq<i128>, order: Seq<usize>, le: spec_fn(int, int) -> bool, i: int)
    requires
        sorting::stable_order(le, 0, keys.len() as int, order),
        forall|a: int, b: int| #[trigger] le(a, b) == (keys[a] <= keys[b]),
        keys.len() <= usize::MAX,
        0 <= i < order.len(),
        forall|x: int| 0 <= x < order.len() ==> #[trigger] order[x] < keys.len(),
        i > 0 ==> keys[order[i] as int] != keys[order[i - 1] as int],
    ensures
        is_first(keys, order[i] as int),
{
    let p = order[i] as int;
    assert forall|q: int| 0 <= q < p implies #[trigger] keys[q] != keys[p] by {
        if keys[q] == keys[p] {
            assert(order.contains(q as usize));
            let j = choose|j: int| 0 <= j < order.len() && order[j] == q;
            if j > i {
                assert(sorting::comes_first(le, order[i] as int, order[j] as int));
                assert(false);
            } else {
                assert(j < i);
                if j < i - 1 {
                    assert(sorting::comes_first(le, order[j] as int, order[i - 1] as int));
                }
                assert(sorting::comes_first(le, order[i - 1] as int, order[i] as int));
                assert(false);
            }
        }
    }
}

} // verus!
