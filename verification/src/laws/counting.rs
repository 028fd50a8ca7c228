//! Counting positions.

use vstd::prelude::*;

verus! {

/// The positions below `n` at which something holds.
pub open spec fn places(n: nat, f: spec_fn(int) -> bool) -> Set<int> {
    Set::new(|i: int| 0 <= i < n && f(i))
}

/// One position more either holds or does not.
pub proof fn lemma_one_more(n: nat, f: spec_fn(int) -> bool)
    ensures
        places(n, f).finite(),
        places(n + 1, f).finite(),
        places(n + 1, f).len() == places(n, f).len() + if f(n as int) {
            1nat
        } else {
            0nat
        },
    decreases n,
{
    if n == 0 {
        assert(places(0, f) =~= Set::empty());
    } else {
        lemma_one_more((n - 1) as nat, f);
    }
    if f(n as int) {
        assert(places(n + 1, f) =~= places(n, f).insert(n as int));
    } else {
        assert(places(n + 1, f) =~= places(n, f));
    }
}

/// Below 0 there is no position.
pub proof fn lemma_no_place(f: spec_fn(int) -> bool)
    ensures
        places(0, f).len() == 0,
        places(0, f).finite(),
{
    assert(places(0, f) =~= Set::empty());
}

/// There are no more such positions than positions.
pub proof fn lemma_places_bound(n: nat, f: spec_fn(int) -> bool)
    ensures
        places(n, f).finite(),
        places(n, f).len() <= n,
    decreases n,
{
    if n == 0 {
        lemma_no_place(f);
    } else {
        lemma_one_more((n - 1) as nat, f);
        lemma_places_bound((n - 1) as nat, f);
    }
}

} // verus!
