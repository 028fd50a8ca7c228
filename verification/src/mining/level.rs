//! Level-wise search for frequent itemsets over numbered items.

use vstd::prelude::*;
use crate::assoc_rules::{cancel_check, CANCEL_CHECK_INTERVAL, MAX_CANDIDATES};
use crate::mining::itemset;
use crate::text::Placed;

verus! {

/// The item lists of a table, one for each row.
pub open spec fn rows(v: Seq<Vec<usize>>) -> Seq<Seq<usize>> {
    Seq::new(v.len(), |i: int| v[i]@)
}

/// Itemsets stand in strict dictionary order.
pub open spec fn dict_sorted(level: Seq<Seq<usize>>) -> bool {
    forall|i: int, j: int|
        #![trigger level[i], level[j]]
        0 <= i < j < level.len() ==> itemset::dict_before(level[i], level[j], itemset::by_number())
}

/// `level` lists exactly the frequent itemsets of `k` items, in dictionary order.
pub open spec fn is_level(txns: Seq<Seq<usize>>, min: nat, level: Seq<Seq<usize>>, k: nat) -> bool {
    &&& dict_sorted(level)
    &&& forall|s: Seq<usize>| #[trigger]
        level.contains(s) <==> (s.len() == k && itemset::frequent(txns, min, itemset::by_number(), s))
}

/// Every transaction is an itemset of numbers below `m`, and every such number occurs.
pub open spec fn numbered(txns: Seq<Seq<usize>>, m: nat) -> bool {
    &&& forall|t: int| 0 <= t < txns.len() ==> itemset::ascending(#[trigger] txns[t], itemset::by_number())
    &&& forall|x: usize| #[trigger] itemset::occurs(txns, x) <==> x < m
}

/// `index[x]` lists, in ascending order, the transactions that hold item `x`.
pub open spec fn is_index(txns: Seq<Seq<usize>>, index: Seq<Seq<usize>>) -> bool {
    &&& forall|x: int| 0 <= x < index.len() ==> itemset::ascending(#[trigger] index[x], itemset::by_number())
    &&& forall|x: int, t: usize|
        0 <= x < index.len() ==> (#[trigger] index[x].contains(t) <==> t < txns.len() && txns[t as int].contains(
            x as usize,
        ))
}

/// A dictionary comparison goes one way only.
proof fn lemma_dict_asym(a: Seq<usize>, b: Seq<usize>)
    requires
        itemset::dict_before(a, b, itemset::by_number()),
    ensures
        !itemset::dict_before(b, a, itemset::by_number()),
        a != b,
{
    let lt = itemset::by_number();
    let p = choose|p: int| #[trigger] itemset::agree(a, b, p) && p < a.len() && p < b.len() && lt(a[p], b[p]);
    if itemset::dict_before(b, a, lt) {
        let q = choose|q: int| #[trigger]
            itemset::agree(b, a, q) && q < a.len() && q < b.len() && lt(b[q], a[q]);
        if p < q {
            assert(b[p] == a[p]);
        } else if q < p {
            assert(a[q] == b[q]);
        }
    }
}

fn dict_place(a: &Vec<usize>, b: &Vec<usize>) -> (r: Placed)
    requires
        a@.len() == b@.len(),
    ensures
        r == Placed::Before <==> itemset::dict_before(a@, b@, itemset::by_number()),
        r == Placed::Same <==> a@ == b@,
        r == Placed::After <==> itemset::dict_before(b@, a@, itemset::by_number()),
{
    let mut p: usize = 0;
    while p < a.len() && a[p] == b[p]
        invariant
            a@.len() == b@.len(),
            p <= a.len(),
            forall|q: int| 0 <= q < p ==> a@[q] == b@[q],
        decreases a.len() - p,
    {
        p = p + 1;
    }
    assert(itemset::agree(a@, b@, p as int));
    assert(itemset::agree(b@, a@, p as int));
    proof {
        if itemset::dict_before(a@, b@, itemset::by_number()) {
            lemma_dict_asym(a@, b@);
        }
        if itemset::dict_before(b@, a@, itemset::by_number()) {
            lemma_dict_asym(b@, a@);
        }
    }
    if p == a.len() {
        assert(a@ =~= b@);
        Placed::Same
    } else if a[p] < b[p] {
        Placed::Before
    } else {
        Placed::After
    }
}

/// Looks an itemset up in a sorted level by halving the range.
fn level_contains(level: &Vec<Vec<usize>>, s: &Vec<usize>) -> (r: bool)
    requires
        dict_sorted(rows(level@)),
        forall|i: int| 0 <= i < level@.len() ==> (#[trigger] level@[i])@.len() == s@.len(),
    ensures
        r == rows(level@).contains(s@),
{
    let ghost view = rows(level@);
    let mut lo: usize = 0;
    let mut hi: usize = level.len();
    while lo < hi
        invariant
            view == rows(level@),
            dict_sorted(view),
            forall|i: int| 0 <= i < level@.len() ==> (#[trigger] level@[i])@.len() == s@.len(),
            lo <= hi <= level.len(),
            forall|i: int| 0 <= i < lo ==> #[trigger] view[i] != s@,
            forall|i: int| hi <= i < level@.len() ==> #[trigger] view[i] != s@,
        decreases hi - lo,
    {
        let mid: usize = lo + (hi - lo) / 2;
        assert(view[mid as int] == level@[mid as int]@);
        match dict_place(&level[mid], s) {
            Placed::Same => {
                return true;
            },
            Placed::Before => {
                proof {
                    lemma_dict_asym(view[mid as int], s@);
                    assert forall|i: int| 0 <= i < mid + 1 implies #[trigger] view[i] != s@ by {
                        if i < mid {
                            assert(itemset::dict_before(view[i], view[mid as int], itemset::by_number()));
                        }
                    }
                }
                lo = mid + 1;
            },
            Placed::After => {
                proof {
                    lemma_dict_asym(s@, view[mid as int]);
                    assert forall|i: int| mid <= i < level@.len() implies #[trigger] view[i] != s@ by {
                        if i > mid {
                            assert(itemset::dict_before(view[mid as int], view[i], itemset::by_number()));
                        }
                    }
                }
                hi = mid;
            },
        }
    }
    false
}

/// Looks a number up in an ascending list by halving the range.
fn list_contains(list: &Vec<usize>, x: usize) -> (r: bool)
    requires
        itemset::ascending(list@, itemset::by_number()),
    ensures
        r == list@.contains(x),
{
    let mut lo: usize = 0;
    let mut hi: usize = list.len();
    while lo < hi
        invariant
            itemset::ascending(list@, itemset::by_number()),
            lo <= hi <= list.len(),
            forall|i: int| 0 <= i < lo ==> #[trigger] list@[i] < x,
            forall|i: int| hi <= i < list@.len() ==> #[trigger] list@[i] > x,
        decreases hi - lo,
    {
        let mid: usize = lo + (hi - lo) / 2;
        if list[mid] == x {
            return true;
        } else if list[mid] < x {
            proof {
                assert forall|i: int| 0 <= i < mid + 1 implies #[trigger] list@[i] < x by {
                    if i < mid {
                        assert(itemset::by_number()(list@[i], list@[mid as int]));
                    }
                }
            }
            lo = mid + 1;
        } else {
            proof {
                assert forall|i: int| mid <= i < list@.len() implies #[trigger] list@[i] > x by {
                    if i > mid {
                        assert(itemset::by_number()(list@[mid as int], list@[i]));
                    }
                }
            }
            hi = mid;
        }
    }
    false
}

/// A candidate of `k + 1` items over a level of itemsets of `k` items: each way
/// of leaving one item out gives a member of the level.
pub open spec fn over_level(level: Seq<Seq<usize>>, k: nat, s: Seq<usize>) -> bool {
    &&& s.len() == k + 1
    &&& itemset::ascending(s, itemset::by_number())
    &&& forall|d: int| 0 <= d < s.len() ==> level.contains(#[trigger] s.remove(d))
}

/// `s` arises by joining the members `p` and `q` of a level: they are what is
/// left of `s` without its last item and without the last but one.
pub open spec fn joins(level: Seq<Seq<usize>>, s: Seq<usize>, p: int, q: int) -> bool {
    &&& 0 <= p < q < level.len()
    &&& s.len() >= 2
    &&& level[p] == s.remove(s.len() - 1)
    &&& level[q] == s.remove(s.len() - 2)
}

/// The pair `(p, q)` comes before the pair `(i, j)`.
pub open spec fn pair_before(p: int, q: int, i: int, j: int) -> bool {
    p < i || (p == i && q < j)
}

/// `out` lists, in dictionary order, the candidates that arise from the pairs
/// before `(i, j)`.
spec fn joined_upto(level: Seq<Seq<usize>>, k: nat, out: Seq<Seq<usize>>, i: int, j: int) -> bool {
    &&& dict_sorted(out)
    &&& forall|c: int|
        #![trigger out[c]]
        0 <= c < out.len() ==> over_level(level, k, out[c]) && exists|p: int, q: int|
            #[trigger] joins(level, out[c], p, q) && pair_before(p, q, i, j)
    &&& forall|s: Seq<usize>, p: int, q: int|
        #![trigger joins(level, s, p, q)]
        over_level(level, k, s) && joins(level, s, p, q) && pair_before(p, q, i, j) ==> out.contains(s)
}

/// Candidates that arise from earlier pairs come first in dictionary order.
proof fn lemma_pair_order(
    level: Seq<Seq<usize>>,
    k: nat,
    a: Seq<usize>,
    p: int,
    q: int,
    b: Seq<usize>,
    i: int,
    j: int,
)
    requires
        dict_sorted(level),
        a.len() == k + 1,
        b.len() == k + 1,
        joins(level, a, p, q),
        joins(level, b, i, j),
        pair_before(p, q, i, j),
    ensures
        itemset::dict_before(a, b, itemset::by_number()),
{
    let lt = itemset::by_number();
    if p < i {
        assert(itemset::dict_before(level[p], level[i], lt));
        let r = choose|r: int| #[trigger]
            itemset::agree(level[p], level[i], r) && r < level[p].len() && r < level[i].len() && lt(
                level[p][r],
                level[i][r],
            );
        assert(itemset::agree(a, b, r)) by {
            assert forall|x: int| 0 <= x < r implies a[x] == b[x] by {
                assert(a[x] == level[p][x] && b[x] == level[i][x]);
            }
        }
        assert(a[r] == level[p][r] && b[r] == level[i][r]);
    } else {
        assert(itemset::dict_before(level[q], level[j], lt));
        let r = choose|r: int| #[trigger]
            itemset::agree(level[q], level[j], r) && r < level[q].len() && r < level[j].len() && lt(
                level[q][r],
                level[j][r],
            );
        assert forall|x: int| 0 <= x < k implies a[x] == b[x] by {
            assert(a[x] == level[p][x] && b[x] == level[i][x]);
        }
        if r < k - 1 {
            assert(level[q][r] == a[r] && level[j][r] == b[r]);
            assert(false);
        }
        assert(level[q][k - 1] == a[k as int] && level[j][k - 1] == b[k as int]);
        assert(itemset::agree(a, b, k as int));
    }
}

/// Every candidate arises from exactly the pair of its two parents.
proof fn lemma_candidate_pair(level: Seq<Seq<usize>>, k: nat, s: Seq<usize>) -> (pair: (int, int))
    requires
        k >= 1,
        dict_sorted(level),
        over_level(level, k, s),
    ensures
        joins(level, s, pair.0, pair.1),
{
    let lt = itemset::by_number();
    let a = s.remove(k as int);
    let b = s.remove(k - 1);
    assert(level.contains(a) && level.contains(b));
    let p = choose|p: int| 0 <= p < level.len() && level[p] == a;
    let q = choose|q: int| 0 <= q < level.len() && level[q] == b;
    assert(itemset::agree(a, b, k - 1));
    assert(a[k - 1] == s[k - 1] && b[k - 1] == s[k as int]);
    assert(lt(s[k - 1], s[k as int]));
    assert(itemset::dict_before(a, b, lt));
    lemma_dict_asym(a, b);
    if q < p {
        assert(itemset::dict_before(level[q], level[p], lt));
    }
    (p, q)
}

/// Tells whether each way of leaving one item out gives a member of the level.
fn all_parents_listed(level: &Vec<Vec<usize>>, cand: &Vec<usize>) -> (r: bool)
    requires
        dict_sorted(rows(level@)),
        cand@.len() >= 1,
        forall|i: int| 0 <= i < level@.len() ==> (#[trigger] level@[i])@.len() == cand@.len() - 1,
    ensures
        r == (forall|d: int| 0 <= d < cand@.len() ==> rows(level@).contains(#[trigger] cand@.remove(d))),
{
    let mut d: usize = 0;
    while d < cand.len()
        invariant
            dict_sorted(rows(level@)),
            cand@.len() >= 1,
            forall|i: int| 0 <= i < level@.len() ==> (#[trigger] level@[i])@.len() == cand@.len() - 1,
            d <= cand.len(),
            forall|e: int| 0 <= e < d ==> rows(level@).contains(#[trigger] cand@.remove(e)),
        decreases cand.len() - d,
    {
        let mut sub: Vec<usize> = cand.clone();
        assert(sub@ =~= cand@);
        sub.remove(d);
        assert(sub@ == cand@.remove(d as int));
        if !level_contains(level, &sub) {
            return false;
        }
        d = d + 1;
    }
    true
}

/// Tells whether two lists agree on their first `n` items.
fn same_prefix(a: &Vec<usize>, b: &Vec<usize>, n: usize) -> (r: bool)
    requires
        n <= a@.len(),
        n <= b@.len(),
    ensures
        r == itemset::agree(a@, b@, n as int),
{
    let mut p: usize = 0;
    while p < n
        invariant
            n <= a@.len(),
            n <= b@.len(),
            p <= n,
            forall|q: int| 0 <= q < p ==> a@[q] == b@[q],
        decreases n - p,
    {
        if a[p] != b[p] {
            return false;
        }
        p = p + 1;
    }
    true
}

/// Joins member `i` of a level with every later member and appends the
/// candidates; stops early, and says so, where there are too many.
fn join_row(level: &Vec<Vec<usize>>, k: usize, i: usize, out: &mut Vec<Vec<usize>>) -> (full: bool)
    requires
        k >= 1,
        i < level@.len(),
        old(out)@.len() < MAX_CANDIDATES,
        dict_sorted(rows(level@)),
        forall|x: int| 0 <= x < level@.len() ==> (#[trigger] level@[x])@.len() == k,
        forall|x: int|
            0 <= x < level@.len() ==> itemset::ascending((#[trigger] level@[x])@, itemset::by_number()),
        joined_upto(rows(level@), k as nat, rows(old(out)@), i as int, i + 1),
    ensures
        !full ==> joined_upto(rows(level@), k as nat, rows(final(out)@), i + 1, i + 2),
        !full ==> final(out)@.len() < MAX_CANDIDATES,
        full ==> {
            &&& final(out)@.len() == MAX_CANDIDATES
            &&& dict_sorted(rows(final(out)@))
            &&& forall|c: int|
                0 <= c < final(out)@.len() ==> over_level(rows(level@), k as nat, (#[trigger] final(out)@[c])@)
        },
{
    let ghost view = rows(level@);
    let ghost kk = k as nat;
    let n: usize = level.len();
    let mut j: usize = i + 1;
    while j < n
        invariant
            view == rows(level@),
            kk == k,
            k >= 1,
            i < level@.len(),
            n == level@.len(),
            i < j <= n,
            out@.len() < MAX_CANDIDATES,
            dict_sorted(view),
            forall|x: int| 0 <= x < level@.len() ==> (#[trigger] level@[x])@.len() == k,
            forall|x: int|
                0 <= x < level@.len() ==> itemset::ascending((#[trigger] level@[x])@, itemset::by_number()),
            joined_upto(view, kk, rows(out@), i as int, j as int),
        decreases n - j,
    {
        let ghost before = rows(out@);
        let ghost a = level@[i as int]@;
        let ghost b = level@[j as int]@;
        assert(view[i as int] == a && view[j as int] == b);
        if same_prefix(&level[i], &level[j], k - 1) {
            let last: usize = level[j][k - 1];
            let mut cand: Vec<usize> = level[i].clone();
            assert(cand@ =~= a);
            cand.push(last);
            let ghost s = cand@;
            proof {
                assert(s == a.push(b[k - 1]));
                assert(s.remove(s.len() - 1) =~= a);
                assert(s.remove(s.len() - 2) =~= b) by {
                    assert forall|x: int| 0 <= x < k implies s.remove(s.len() - 2)[x] == b[x] by {
                        if x < k - 1 {
                            assert(a[x] == b[x]);
                        }
                    }
                }
                assert(joins(view, s, i as int, j as int));
                assert(itemset::dict_before(view[i as int], view[j as int], itemset::by_number()));
                let r = choose|r: int| #[trigger]
                    itemset::agree(a, b, r) && r < a.len() && r < b.len() && itemset::by_number()(a[r], b[r]);
                assert(r == k - 1);
                assert(a[k - 1] < b[k - 1]);
                assert forall|x: int, y: int| #![trigger s[x], s[y]] 0 <= x < y < s.len() implies itemset::by_number()(
                    s[x],
                    s[y],
                ) by {
                    if y < k {
                        assert(s[x] == a[x] && s[y] == a[y]);
                    } else if x < k - 1 {
                        assert(s[x] == a[x]);
                        assert(itemset::by_number()(a[x], a[k - 1]));
                    }
                }
            }
            if all_parents_listed(level, &cand) {
                assert(over_level(view, kk, s));
                out.push(cand);
                proof {
                    let after = rows(out@);
                    assert(after =~= before.push(s));
                    assert forall|x: int, y: int|
                        #![trigger after[x], after[y]]
                        0 <= x < y < after.len() implies itemset::dict_before(
                        after[x],
                        after[y],
                        itemset::by_number(),
                    ) by {
                        if y < before.len() {
                            assert(after[x] == before[x] && after[y] == before[y]);
                        } else {
                            assert(after[x] == before[x]);
                            let (p, q) = choose|p: int, q: int| #[trigger]
                                joins(view, before[x], p, q) && pair_before(p, q, i as int, j as int);
                            lemma_pair_order(view, kk, before[x], p, q, s, i as int, j as int);
                        }
                    }
                    assert forall|c: int|
                        #![trigger after[c]]
                        0 <= c < after.len() implies over_level(view, kk, after[c]) && exists|p: int, q: int|
                        #[trigger] joins(view, after[c], p, q) && pair_before(p, q, i as int, j + 1) by {
                        if c < before.len() {
                            assert(after[c] == before[c]);
                            let (p, q) = choose|p: int, q: int| #[trigger]
                                joins(view, before[c], p, q) && pair_before(p, q, i as int, j as int);
                            assert(joins(view, after[c], p, q) && pair_before(p, q, i as int, j + 1));
                        } else {
                            assert(joins(view, after[c], i as int, j as int));
                            assert(pair_before(i as int, j as int, i as int, j + 1));
                        }
                    }
                    assert forall|t: Seq<usize>, p: int, q: int|
                        #![trigger joins(view, t, p, q)]
                        over_level(view, kk, t) && joins(view, t, p, q) && pair_before(
                            p,
                            q,
                            i as int,
                            j + 1,
                        ) implies after.contains(t) by {
                        if pair_before(p, q, i as int, j as int) {
                            assert(before.contains(t));
                            let c = choose|c: int| 0 <= c < before.len() && before[c] == t;
                            assert(after[c] == t);
                        } else {
                            lemma_same_join(view, kk, s, t, i as int, j as int);
                            assert(after[before.len() as int] == t);
                        }
                    }
                }
                if out.len() >= MAX_CANDIDATES {
                    proof {
                        let after = rows(out@);
                        assert forall|c: int| 0 <= c < out@.len() implies over_level(
                            view,
                            kk,
                            (#[trigger] out@[c])@,
                        ) by {
                            assert(after[c] == out@[c]@);
                        }
                    }
                    return true;
                }
            } else {
                proof {
                    assert(!over_level(view, kk, s));
                    lemma_skip_pair(view, kk, rows(out@), i as int, j as int, s);
                }
            }
        } else {
            proof {
                assert forall|t: Seq<usize>| over_level(view, kk, t) implies !#[trigger] joins(
                    view,
                    t,
                    i as int,
                    j as int,
                ) by {
                    if joins(view, t, i as int, j as int) {
                        assert forall|x: int| 0 <= x < k - 1 implies a[x] == b[x] by {
                            assert(a[x] == t[x] && b[x] == t[x]);
                        }
                        assert(itemset::agree(a, b, k - 1));
                    }
                }
                lemma_no_pair(view, kk, rows(out@), i as int, j as int);
            }
        }
        j = j + 1;
    }
    proof {
        lemma_row_done(view, kk, rows(out@), i as int);
    }
    false
}

/// A pair of members joins to one list at most.
proof fn lemma_same_join(level: Seq<Seq<usize>>, k: nat, s: Seq<usize>, t: Seq<usize>, i: int, j: int)
    requires
        k >= 1,
        s.len() == k + 1,
        t.len() == k + 1,
        joins(level, s, i, j),
        joins(level, t, i, j),
    ensures
        s == t,
{
    assert forall|x: int| 0 <= x < s.len() implies s[x] == t[x] by {
        if x < k {
            assert(level[i][x] == s[x] && level[i][x] == t[x]);
        } else {
            assert(level[j][k - 1] == s[k as int] && level[j][k - 1] == t[k as int]);
        }
    }
    assert(s =~= t);
}

proof fn lemma_no_pair(level: Seq<Seq<usize>>, k: nat, out: Seq<Seq<usize>>, i: int, j: int)
    requires
        joined_upto(level, k, out, i, j),
        forall|t: Seq<usize>| over_level(level, k, t) ==> !#[trigger] joins(level, t, i, j),
    ensures
        joined_upto(level, k, out, i, j + 1),
{
    assert forall|c: int|
        #![trigger out[c]]
        0 <= c < out.len() implies over_level(level, k, out[c]) && exists|p: int, q: int|
        #[trigger] joins(level, out[c], p, q) && pair_before(p, q, i, j + 1) by {
        let (p, q) = choose|p: int, q: int| #[trigger] joins(level, out[c], p, q) && pair_before(p, q, i, j);
        assert(joins(level, out[c], p, q) && pair_before(p, q, i, j + 1));
    }
    assert forall|s: Seq<usize>, p: int, q: int|
        #![trigger joins(level, s, p, q)]
        over_level(level, k, s) && joins(level, s, p, q) && pair_before(p, q, i, j + 1) implies out.contains(s) by {
        if !pair_before(p, q, i, j) {
            assert(p == i && q == j);
        }
    }
}

proof fn lemma_skip_pair(level: Seq<Seq<usize>>, k: nat, out: Seq<Seq<usize>>, i: int, j: int, s: Seq<usize>)
    requires
        k >= 1,
        joined_upto(level, k, out, i, j),
        s.len() == k + 1,
        joins(level, s, i, j),
        !over_level(level, k, s),
    ensures
        joined_upto(level, k, out, i, j + 1),
{
    assert forall|t: Seq<usize>| over_level(level, k, t) implies !#[trigger] joins(level, t, i, j) by {
        if joins(level, t, i, j) {
            lemma_same_join(level, k, s, t, i, j);
        }
    }
    lemma_no_pair(level, k, out, i, j);
}

proof fn lemma_row_done(level: Seq<Seq<usize>>, k: nat, out: Seq<Seq<usize>>, i: int)
    requires
        joined_upto(level, k, out, i, level.len() as int),
    ensures
        joined_upto(level, k, out, i + 1, i + 2),
{
    assert forall|c: int|
        #![trigger out[c]]
        0 <= c < out.len() implies over_level(level, k, out[c]) && exists|p: int, q: int|
        #[trigger] joins(level, out[c], p, q) && pair_before(p, q, i + 1, i + 2) by {
        let (p, q) = choose|p: int, q: int| #[trigger]
            joins(level, out[c], p, q) && pair_before(p, q, i, level.len() as int);
        assert(joins(level, out[c], p, q) && pair_before(p, q, i + 1, i + 2));
    }
    assert forall|s: Seq<usize>, p: int, q: int|
        #![trigger joins(level, s, p, q)]
        over_level(level, k, s) && joins(level, s, p, q) && pair_before(p, q, i + 1, i + 2) implies out.contains(
        s,
    ) by {
        assert(pair_before(p, q, i, level.len() as int));
    }
}

/// How a stretch of a scan ended.
#[derive(Debug, Clone, Copy, PartialEq, Eq, Structural)]
pub enum ScanEnd {
    /// It ran to its end.
    Done,
    /// Too many candidates piled up.
    Full,
    /// The caller asked for it to stop.
    Stopped,
}

/// `work` counts `polls` units, and nobody asked for a stop so far.
pub open spec fn polled<F: Fn() -> bool>(poll: F, work: u64, polls: nat) -> bool {
    &&& work == polls % 0x1_0000_0000_0000_0000
    &&& polls >= CANCEL_CHECK_INTERVAL ==> call_ensures(poll, (), false)
}

/// The caller was asked at `unit`, one of every [`CANCEL_CHECK_INTERVAL`] units
/// of work, and wants a stop; where there was an earlier time, it did not then.
pub open spec fn stops_on<F: Fn() -> bool>(poll: F, unit: nat) -> bool {
    &&& unit >= CANCEL_CHECK_INTERVAL
    &&& unit % (CANCEL_CHECK_INTERVAL as nat) == 0
    &&& call_ensures(poll, (), true)
    &&& unit > CANCEL_CHECK_INTERVAL ==> call_ensures(poll, (), false)
}

/// What the caller answered in the course of a scan: to stop, where it stopped at
/// the unit `stop`; else not to, where it was asked at all in a scan of `work`
/// units that was not cut.
pub open spec fn asked<F: Fn() -> bool>(poll: F, stop: Option<nat>, cut: bool, work: nat) -> bool {
    match stop {
        Some(unit) => stops_on(poll, unit),
        None => !cut && work >= CANCEL_CHECK_INTERVAL ==> call_ensures(poll, (), false),
    }
}

/// A unit of work at which the caller answers that it wants a stop is one of
/// every [`CANCEL_CHECK_INTERVAL`].
pub proof fn lemma_stop_unit<F: Fn() -> bool>(poll: F, before: u64, work: u64, polls: nat)
    requires
        polled(poll, before, polls),
        work == (before + 1) % 0x1_0000_0000_0000_0000,
        work % CANCEL_CHECK_INTERVAL == 0,
        call_ensures(poll, (), true),
    ensures
        stops_on(poll, polls + 1),
{
    let unit = (polls + 1) as int;
    assert(unit % 0x1_0000_0000_0000_0000 == work);
    assert(unit % 4096 == work % 4096);
}

/// `out` lists the candidates over a level, in dictionary order.
spec fn candidates_over(level: Seq<Seq<usize>>, k: nat, out: Seq<Seq<usize>>) -> bool {
    &&& dict_sorted(out)
    &&& forall|s: Seq<usize>| #[trigger] out.contains(s) <==> over_level(level, k, s)
}

/// The caller wants a stop at a unit after `from`, and at `to` at the latest.
spec fn stops_within<F: Fn() -> bool>(poll: F, from: nat, to: nat) -> bool {
    exists|unit: nat| from < unit <= to && #[trigger] stops_on(poll, unit)
}

/// Joins each pair of members of a level and keeps the candidates.
fn join_level<F: Fn() -> bool>(
    level: &Vec<Vec<usize>>,
    k: usize,
    work: &mut u64,
    poll: &F,
    Ghost(polls): Ghost<nat>,
) -> (r: (Vec<Vec<usize>>, ScanEnd))
    requires
        k >= 1,
        call_requires(*poll, ()),
        polled(*poll, *old(work), polls),
        dict_sorted(rows(level@)),
        forall|x: int| 0 <= x < level@.len() ==> (#[trigger] level@[x])@.len() == k,
        forall|x: int|
            0 <= x < level@.len() ==> itemset::ascending((#[trigger] level@[x])@, itemset::by_number()),
    ensures
        r.1 == ScanEnd::Done ==> {
            &&& candidates_over(rows(level@), k as nat, rows(r.0@))
            &&& r.0@.len() < MAX_CANDIDATES
            &&& polled(*poll, *final(work), polls + level@.len())
        },
        r.1 == ScanEnd::Stopped ==> stops_within(*poll, polls, polls + level@.len()),
        r.1 == ScanEnd::Full ==> {
            &&& r.0@.len() == MAX_CANDIDATES
            &&& dict_sorted(rows(r.0@))
            &&& forall|c: int| 0 <= c < r.0@.len() ==> over_level(rows(level@), k as nat, (#[trigger] r.0@[c])@)
        },
{
    let ghost view = rows(level@);
    let mut out: Vec<Vec<usize>> = Vec::new();
    let mut i: usize = 0;
    while i < level.len()
        invariant
            view == rows(level@),
            k >= 1,
            i <= level@.len(),
            call_requires(*poll, ()),
            polled(*poll, *work, polls + i as nat),
            out@.len() < MAX_CANDIDATES,
            dict_sorted(view),
            forall|x: int| 0 <= x < level@.len() ==> (#[trigger] level@[x])@.len() == k,
            forall|x: int|
                0 <= x < level@.len() ==> itemset::ascending((#[trigger] level@[x])@, itemset::by_number()),
            joined_upto(view, k as nat, rows(out@), i as int, i + 1),
        decreases level.len() - i,
    {
        let ghost before = *work;
        if cancel_check(work, poll) {
            proof {
                lemma_stop_unit(*poll, before, *work, polls + i as nat);
            }
            return (out, ScanEnd::Stopped);
        }
        if join_row(level, k, i, &mut out) {
            return (out, ScanEnd::Full);
        }
        i = i + 1;
    }
    proof {
        let found = rows(out@);
        assert forall|s: Seq<usize>| #[trigger] found.contains(s) <==> over_level(view, k as nat, s) by {
            if over_level(view, k as nat, s) {
                let (p, q) = lemma_candidate_pair(view, k as nat, s);
                assert(joins(view, s, p, q) && pair_before(p, q, i as int, i + 1));
            }
            if found.contains(s) {
                let c = choose|c: int| 0 <= c < found.len() && found[c] == s;
                assert(over_level(view, k as nat, found[c]));
            }
        }
    }
    (out, ScanEnd::Done)
}

/// How many of the listed transactions hold every item.
spec fn support_in(txns: Seq<Seq<usize>>, list: Seq<usize>, s: Seq<usize>) -> nat
    decreases list.len(),
{
    if list.len() == 0 {
        0
    } else {
        support_in(txns, list.drop_last(), s) + if itemset::holds_all(txns[list.last() as int], s) {
            1nat
        } else {
            0nat
        }
    }
}

/// Counting over a list that names every supporting transaction gives the support.
proof fn lemma_support_in(txns: Seq<Seq<usize>>, list: Seq<usize>, s: Seq<usize>)
    requires
        itemset::ascending(list, itemset::by_number()),
        forall|i: int| 0 <= i < list.len() ==> #[trigger] list[i] < txns.len(),
        forall|t: int|
            0 <= t < txns.len() && t <= usize::MAX && itemset::holds_all(#[trigger] txns[t], s) ==> list.contains(
                t as usize,
            ),
        txns.len() <= usize::MAX,
    ensures
        support_in(txns, list, s) == itemset::support(txns, s),
    decreases txns.len(),
{
    if txns.len() == 0 {
        if list.len() > 0 {
            assert(list[0] < txns.len());
        }
    } else {
        let shorter = txns.drop_last();
        let n = shorter.len();
        if list.len() > 0 && list.last() == n {
            let rest = list.drop_last();
            assert forall|i: int| 0 <= i < rest.len() implies #[trigger] rest[i] < shorter.len() by {
                assert(itemset::by_number()(list[i], list[list.len() - 1]));
            }
            assert forall|t: int|
                0 <= t < shorter.len() && t <= usize::MAX && itemset::holds_all(#[trigger] shorter[t], s) implies rest.contains(
                t as usize,
            ) by {
                assert(shorter[t] == txns[t]);
                let i = choose|i: int| 0 <= i < list.len() && list[i] == t as usize;
                assert(rest[i] == t as usize);
            }
            lemma_support_in(shorter, rest, s);
            lemma_support_in_prefix(txns, rest, s);
            assert(txns[n as int] == txns.last());
        } else {
            assert forall|i: int| 0 <= i < list.len() implies #[trigger] list[i] < shorter.len() by {
                if i < list.len() - 1 {
                    assert(itemset::by_number()(list[i], list[list.len() - 1]));
                }
            }
            if itemset::holds_all(txns.last(), s) {
                assert(itemset::holds_all(txns[n as int], s));
                let i = choose|i: int| 0 <= i < list.len() && list[i] == n as usize;
                assert(list[i] < shorter.len());
            }
            assert forall|t: int|
                0 <= t < shorter.len() && t <= usize::MAX && itemset::holds_all(#[trigger] shorter[t], s) implies list.contains(
                t as usize,
            ) by {
                assert(shorter[t] == txns[t]);
            }
            lemma_support_in(shorter, list, s);
            lemma_support_in_prefix(txns, list, s);
        }
    }
}

proof fn lemma_support_in_prefix(txns: Seq<Seq<usize>>, list: Seq<usize>, s: Seq<usize>)
    requires
        txns.len() > 0,
        forall|i: int| 0 <= i < list.len() ==> #[trigger] list[i] < txns.len() - 1,
    ensures
        support_in(txns, list, s) == support_in(txns.drop_last(), list, s),
    decreases list.len(),
{
    if list.len() > 0 {
        assert(list.last() == list[list.len() - 1]);
        assert forall|i: int| 0 <= i < list.drop_last().len() implies #[trigger] list.drop_last()[i] < txns.len()
            - 1 by {
            assert(list.drop_last()[i] == list[i]);
        }
        lemma_support_in_prefix(txns, list.drop_last(), s);
        assert(txns.drop_last()[list.last() as int] == txns[list.last() as int]);
    }
}

fn holds_every(txn: &Vec<usize>, items: &Vec<usize>) -> (r: bool)
    requires
        itemset::ascending(txn@, itemset::by_number()),
    ensures
        r == itemset::holds_all(txn@, items@),
{
    let mut i: usize = 0;
    while i < items.len()
        invariant
            itemset::ascending(txn@, itemset::by_number()),
            i <= items.len(),
            forall|x: int| 0 <= x < i ==> txn@.contains(#[trigger] items@[x]),
        decreases items.len() - i,
    {
        if !list_contains(txn, items[i]) {
            return false;
        }
        i = i + 1;
    }
    true
}

/// Counts the transactions that hold every item, looking only at those that
/// hold the rarest one.
fn count_support(txns: &Vec<Vec<usize>>, index: &Vec<Vec<usize>>, items: &Vec<usize>) -> (count: u64)
    requires
        forall|t: int|
            0 <= t < txns@.len() ==> itemset::ascending((#[trigger] txns@[t])@, itemset::by_number()),
        is_index(rows(txns@), rows(index@)),
        items@.len() >= 1,
        forall|i: int| 0 <= i < items@.len() ==> #[trigger] items@[i] < index@.len(),
    ensures
        count == itemset::support(rows(txns@), items@),
{
    let n: usize = txns.len();
    let mut best: usize = items[0];
    let mut i: usize = 1;
    while i < items.len()
        invariant
            1 <= i <= items@.len(),
            best < index@.len(),
            items@.contains(best),
            forall|x: int| 0 <= x < items@.len() ==> #[trigger] items@[x] < index@.len(),
        decreases items.len() - i,
    {
        let other: usize = items[i];
        if index[other].len() < index[best].len() {
            best = other;
        }
        i = i + 1;
    }
    let base: &Vec<usize> = &index[best];
    let ghost view = rows(txns@);
    proof {
        assert(rows(index@)[best as int] == base@);
        assert forall|j: int| 0 <= j < base@.len() implies #[trigger] base@[j] < view.len() by {
            assert(rows(index@)[best as int].contains(base@[j]));
        }
        assert forall|t: int|
            0 <= t < view.len() && t <= usize::MAX && itemset::holds_all(#[trigger] view[t], items@) implies base@.contains(
            t as usize,
        ) by {
            let x = choose|x: int| 0 <= x < items@.len() && items@[x] == best;
            assert(view[t].contains(items@[x]));
            assert(view[t as usize as int].contains(best as int as usize));
            assert(rows(index@)[best as int].contains(t as usize));
        }
        lemma_support_in(view, base@, items@);
        itemset::lemma_support_bound(view, items@);
    }
    let mut count: u64 = 0;
    let mut j: usize = 0;
    while j < base.len()
        invariant
            n == txns@.len(),
            view == rows(txns@),
            forall|t: int|
                0 <= t < txns@.len() ==> itemset::ascending((#[trigger] txns@[t])@, itemset::by_number()),
            forall|x: int| 0 <= x < base@.len() ==> #[trigger] base@[x] < view.len(),
            j <= base@.len(),
            count == support_in(view, base@.take(j as int), items@),
            count <= j,
        decreases base.len() - j,
    {
        assert(base@.take(j + 1).drop_last() =~= base@.take(j as int));
        assert(base@.take(j + 1).last() == base@[j as int]);
        let t: usize = base[j];
        assert(view[t as int] == txns@[t as int]@);
        if holds_every(&txns[t], items) {
            count = count + 1;
        }
        j = j + 1;
    }
    assert(base@.take(base@.len() as int) =~= base@);
    count
}

/// A listing of itemsets with their counts.
pub open spec fn listing(v: Seq<(Vec<usize>, u64)>) -> Seq<(Seq<usize>, u64)> {
    Seq::new(v.len(), |i: int| (v[i].0@, v[i].1))
}

/// `out` lists those of the candidates `cands` that enough transactions hold,
/// in the same order, each with its support.
spec fn counted(txns: Seq<Seq<usize>>, min: nat, cands: Seq<Seq<usize>>, out: Seq<(Seq<usize>, u64)>) -> bool {
    &&& forall|i: int, j: int|
        #![trigger out[i], out[j]]
        0 <= i < j < out.len() ==> itemset::dict_before(out[i].0, out[j].0, itemset::by_number())
    &&& forall|i: int|
        #![trigger out[i]]
        0 <= i < out.len() ==> cands.contains(out[i].0) && out[i].1 == itemset::support(txns, out[i].0)
            && out[i].1 >= min
    &&& forall|c: int|
        0 <= c < cands.len() && itemset::support(txns, #[trigger] cands[c]) >= min ==> itemset::is_listed(
            out,
            cands[c],
        )
}

fn count_level<F: Fn() -> bool>(
    txns: &Vec<Vec<usize>>,
    index: &Vec<Vec<usize>>,
    cands: &Vec<Vec<usize>>,
    min: u64,
    work: &mut u64,
    poll: &F,
    Ghost(polls): Ghost<nat>,
) -> (r: Option<Vec<(Vec<usize>, u64)>>)
    requires
        call_requires(*poll, ()),
        polled(*poll, *old(work), polls),
        forall|t: int|
            0 <= t < txns@.len() ==> itemset::ascending((#[trigger] txns@[t])@, itemset::by_number()),
        is_index(rows(txns@), rows(index@)),
        dict_sorted(rows(cands@)),
        forall|c: int| 0 <= c < cands@.len() ==> (#[trigger] cands@[c])@.len() >= 1,
        forall|c: int, i: int|
            #![trigger cands@[c]@[i]]
            0 <= c < cands@.len() && 0 <= i < cands@[c]@.len() ==> cands@[c]@[i] < index@.len(),
    ensures
        match r {
            Some(out) => counted(rows(txns@), min as nat, rows(cands@), listing(out@)) && polled(
                *poll,
                *final(work),
                polls + cands@.len(),
            ),
            None => stops_within(*poll, polls, polls + cands@.len()),
        },
{
    let ghost view = rows(txns@);
    let ghost all = rows(cands@);
    let mut out: Vec<(Vec<usize>, u64)> = Vec::new();
    let mut c: usize = 0;
    assert(all.take(0) =~= Seq::<Seq<usize>>::empty());
    while c < cands.len()
        invariant
            view == rows(txns@),
            all == rows(cands@),
            c <= cands@.len(),
            call_requires(*poll, ()),
            polled(*poll, *work, polls + c as nat),
            forall|t: int|
                0 <= t < txns@.len() ==> itemset::ascending((#[trigger] txns@[t])@, itemset::by_number()),
            is_index(rows(txns@), rows(index@)),
            dict_sorted(all),
            forall|x: int| 0 <= x < cands@.len() ==> (#[trigger] cands@[x])@.len() >= 1,
            forall|x: int, i: int|
                #![trigger cands@[x]@[i]]
                0 <= x < cands@.len() && 0 <= i < cands@[x]@.len() ==> cands@[x]@[i] < index@.len(),
            counted(view, min as nat, all.take(c as int), listing(out@)),
        decreases cands.len() - c,
    {
        let ghost units = *work;
        if cancel_check(work, poll) {
            proof {
                lemma_stop_unit(*poll, units, *work, polls + c as nat);
            }
            return None;
        }
        let ghost before = listing(out@);
        let ghost s = cands@[c as int]@;
        assert(all[c as int] == s);
        let count: u64 = count_support(txns, index, &cands[c]);
        let ghost done = all.take(c as int);
        let ghost next = all.take(c + 1);
        assert(next =~= done.push(s));
        if count >= min {
            let copy: Vec<usize> = cands[c].clone();
            assert(copy@ =~= s);
            out.push((copy, count));
            proof {
                let after = listing(out@);
                assert(after =~= before.push((s, count)));
                assert forall|i: int, j: int|
                    #![trigger after[i], after[j]]
                    0 <= i < j < after.len() implies itemset::dict_before(
                    after[i].0,
                    after[j].0,
                    itemset::by_number(),
                ) by {
                    if j < before.len() {
                        assert(after[i] == before[i] && after[j] == before[j]);
                    } else {
                        assert(after[i] == before[i]);
                        assert(done.contains(before[i].0));
                        let x = choose|x: int| 0 <= x < done.len() && done[x] == before[i].0;
                        assert(all[x] == done[x]);
                        assert(itemset::dict_before(all[x], all[c as int], itemset::by_number()));
                    }
                }
                assert forall|i: int|
                    #![trigger after[i]]
                    0 <= i < after.len() implies next.contains(after[i].0) && after[i].1 == itemset::support(
                    view,
                    after[i].0,
                ) && after[i].1 >= min by {
                    if i < before.len() {
                        assert(after[i] == before[i]);
                        assert(done.contains(before[i].0));
                        let x = choose|x: int| 0 <= x < done.len() && done[x] == before[i].0;
                        assert(next[x] == before[i].0);
                    } else {
                        assert(next[c as int] == s);
                    }
                }
                assert forall|x: int|
                    0 <= x < next.len() && itemset::support(view, #[trigger] next[x]) >= min implies itemset::is_listed(
                    after,
                    next[x],
                ) by {
                    if x < c {
                        assert(next[x] == done[x]);
                        assert(itemset::is_listed(before, done[x]));
                        let i = choose|i: int| 0 <= i < before.len() && (#[trigger] before[i]).0 == done[x];
                        assert(after[i] == before[i]);
                    } else {
                        assert(after[before.len() as int].0 == s);
                    }
                }
            }
        } else {
            proof {
                assert forall|i: int|
                    #![trigger before[i]]
                    0 <= i < before.len() implies next.contains(before[i].0) by {
                    assert(done.contains(before[i].0));
                    let x = choose|x: int| 0 <= x < done.len() && done[x] == before[i].0;
                    assert(next[x] == before[i].0);
                }
                assert forall|x: int|
                    0 <= x < next.len() && itemset::support(view, #[trigger] next[x]) >= min implies itemset::is_listed(
                    before,
                    next[x],
                ) by {
                    if x < c {
                        assert(next[x] == done[x]);
                    }
                }
            }
        }
        c = c + 1;
    }
    assert(all.take(cands@.len() as int) =~= all);
    Some(out)
}

/// Builds, for each item below `m`, the list of the transactions that hold it.
fn build_index(txns: &Vec<Vec<usize>>, m: usize) -> (index: Vec<Vec<usize>>)
    requires
        numbered(rows(txns@), m as nat),
    ensures
        index@.len() == m,
        is_index(rows(txns@), rows(index@)),
{
    let ghost view = rows(txns@);
    let mut index: Vec<Vec<usize>> = Vec::new();
    let mut x: usize = 0;
    while x < m
        invariant
            x <= m,
            index@.len() == x,
            forall|y: int| 0 <= y < x ==> (#[trigger] index@[y])@.len() == 0,
        decreases m - x,
    {
        index.push(Vec::new());
        x = x + 1;
    }
    let mut t: usize = 0;
    while t < txns.len()
        invariant
            view == rows(txns@),
            numbered(view, m as nat),
            t <= txns@.len(),
            index@.len() == m,
            forall|y: int| 0 <= y < m ==> itemset::ascending((#[trigger] index@[y])@, itemset::by_number()),
            forall|y: int, u: usize|
                0 <= y < m ==> (#[trigger] index@[y]@.contains(u) <==> u < t && view[u as int].contains(y as usize)),
        decreases txns.len() - t,
    {
        let txn: &Vec<usize> = &txns[t];
        assert(view[t as int] == txn@);
        let mut j: usize = 0;
        while j < txn.len()
            invariant
                view == rows(txns@),
                numbered(view, m as nat),
                t < txns@.len(),
                txn@ == view[t as int],
                j <= txn@.len(),
                index@.len() == m,
                forall|y: int| 0 <= y < m ==> itemset::ascending((#[trigger] index@[y])@, itemset::by_number()),
                forall|y: int, u: usize|
                    0 <= y < m ==> (#[trigger] index@[y]@.contains(u) <==> (u < t && view[u as int].contains(
                        y as usize,
                    )) || (u == t && txn@.take(j as int).contains(y as usize))),
            decreases txn.len() - j,
        {
            let item: usize = txn[j];
            proof {
                assert(view[t as int].contains(item));
                assert(itemset::occurs(view, item));
                assert(!txn@.take(j as int).contains(item)) by {
                    if txn@.take(j as int).contains(item) {
                        let e = choose|e: int| 0 <= e < j && txn@.take(j as int)[e] == item;
                        assert(itemset::by_number()(txn@[e], txn@[j as int]));
                    }
                }
            }
            let ghost old_index = index@;
            let ghost old_list = index@[item as int]@;
            index[item].push(t);
            proof {
                let new_list = old_list.push(t);
                assert(index@[item as int]@ == new_list);
                assert forall|a: int, b: int|
                    #![trigger new_list[a], new_list[b]]
                    0 <= a < b < new_list.len() implies itemset::by_number()(new_list[a], new_list[b]) by {
                    if b < old_list.len() {
                        assert(new_list[a] == old_list[a] && new_list[b] == old_list[b]);
                    } else {
                        assert(old_index[item as int]@.contains(old_list[a]));
                    }
                }
                assert forall|y: int, u: usize| 0 <= y < m implies (#[trigger] index@[y]@.contains(u) <==> (u < t
                    && view[u as int].contains(y as usize)) || (u == t && txn@.take(j + 1).contains(y as usize))) by {
                    let shorter = txn@.take(j as int);
                    let longer = txn@.take(j + 1);
                    assert(longer =~= shorter.push(item));
                    assert(old_index[y]@.contains(u) <==> (u < t && view[u as int].contains(y as usize)) || (u == t
                        && shorter.contains(y as usize)));
                    if y != item {
                        assert(index@[y] == old_index[y]);
                        if longer.contains(y as usize) {
                            let e = choose|e: int| 0 <= e < longer.len() && longer[e] == y as usize;
                            assert(shorter[e] == y as usize);
                        }
                        if shorter.contains(y as usize) {
                            let e = choose|e: int| 0 <= e < shorter.len() && shorter[e] == y as usize;
                            assert(longer[e] == y as usize);
                        }
                    } else {
                        assert(longer[j as int] == item);
                        if u == t {
                            assert(new_list[old_list.len() as int] == t);
                        } else {
                            if new_list.contains(u) {
                                let e = choose|e: int| 0 <= e < new_list.len() && new_list[e] == u;
                                assert(old_list[e] == u);
                            }
                            if old_list.contains(u) {
                                let e = choose|e: int| 0 <= e < old_list.len() && old_list[e] == u;
                                assert(new_list[e] == u);
                            }
                        }
                    }
                }
            }
            j = j + 1;
        }
        assert(txn@.take(txn@.len() as int) =~= txn@);
        t = t + 1;
    }
    proof {
        let full = rows(index@);
        assert forall|y: int, u: usize| 0 <= y < full.len() implies (#[trigger] full[y].contains(u) <==> u
            < view.len() && view[u as int].contains(y as usize)) by {
            assert(full[y] == index@[y]@);
            assert(index@[y]@.contains(u) <==> u < t && view[u as int].contains(y as usize));
        }
    }
    index
}

/// What a scan over numbered items hands back.
pub struct Scan {
    /// The frequent itemsets with their support.
    pub frequent: Vec<(Vec<usize>, u64)>,
    /// How many candidates had their support counted.
    pub candidates: u64,
    /// The caller asked for a stop.
    pub cancelled: bool,
    /// Too many candidates piled up.
    pub truncated: bool,
}

/// A level has as many members as there are frequent itemsets of its size.
proof fn lemma_level_size(txns: Seq<Seq<usize>>, min: nat, level: Seq<Seq<usize>>, k: nat)
    requires
        is_level(txns, min, level, k),
    ensures
        itemset::level_set(txns, min, itemset::by_number(), k).len() == level.len(),
{
    lemma_sorted_distinct(level);
    level.unique_seq_to_set();
    assert(level.to_set() =~= itemset::level_set(txns, min, itemset::by_number(), k));
}

proof fn lemma_sorted_distinct(level: Seq<Seq<usize>>)
    requires
        dict_sorted(level),
    ensures
        level.no_duplicates(),
{
    assert forall|i: int, j: int| 0 <= i < level.len() && 0 <= j < level.len() && i != j implies level[i]
        != level[j] by {
        if i < j {
            lemma_dict_asym(level[i], level[j]);
        } else {
            lemma_dict_asym(level[j], level[i]);
        }
    }
}

/// Over a level of frequent itemsets, the joined lists are the candidates.
proof fn lemma_over_level(txns: Seq<Seq<usize>>, min: nat, level: Seq<Seq<usize>>, k: nat, s: Seq<usize>)
    requires
        k >= 1,
        is_level(txns, min, level, k),
    ensures
        over_level(level, k, s) <==> s.len() == k + 1 && itemset::candidate(txns, min, itemset::by_number(), s),
{
    let lt = itemset::by_number();
    if over_level(level, k, s) {
        assert forall|d: int| 0 <= d < s.len() implies itemset::frequent(txns, min, lt, #[trigger] s.remove(d)) by {
            assert(level.contains(s.remove(d)));
        }
    }
    if s.len() == k + 1 && itemset::candidate(txns, min, lt, s) {
        assert forall|d: int| 0 <= d < s.len() implies level.contains(#[trigger] s.remove(d)) by {
            assert(itemset::frequent(txns, min, lt, s.remove(d)));
            assert(s.remove(d).len() == k);
        }
    }
}

proof fn lemma_candidate_count(
    txns: Seq<Seq<usize>>,
    min: nat,
    level: Seq<Seq<usize>>,
    k: nat,
    cands: Seq<Seq<usize>>,
)
    requires
        k >= 1,
        is_level(txns, min, level, k),
        candidates_over(level, k, cands),
    ensures
        itemset::candidate_set(txns, min, itemset::by_number(), k + 1) == cands.to_set(),
        itemset::candidate_set(txns, min, itemset::by_number(), k + 1).len() == cands.len(),
        itemset::candidate_set(txns, min, itemset::by_number(), k + 1).finite(),
{
    lemma_sorted_distinct(cands);
    cands.unique_seq_to_set();
    let set = itemset::candidate_set(txns, min, itemset::by_number(), k + 1);
    assert forall|s: Seq<usize>| cands.to_set().contains(s) <==> #[trigger] set.contains(s) by {
        lemma_over_level(txns, min, level, k, s);
        assert(cands.contains(s) <==> over_level(level, k, s));
    }
    assert(cands.to_set() =~= set);
}

/// The counted candidates are the next level.
proof fn lemma_next_level(
    txns: Seq<Seq<usize>>,
    min: nat,
    level: Seq<Seq<usize>>,
    k: nat,
    cands: Seq<Seq<usize>>,
    out: Seq<(Seq<usize>, u64)>,
    next: Seq<Seq<usize>>,
)
    requires
        k >= 1,
        is_level(txns, min, level, k),
        candidates_over(level, k, cands),
        counted(txns, min, cands, out),
        next.len() == out.len(),
        forall|i: int| 0 <= i < out.len() ==> #[trigger] next[i] == out[i].0,
    ensures
        is_level(txns, min, next, k + 1),
{
    let lt = itemset::by_number();
    assert forall|i: int, j: int| #![trigger next[i], next[j]] 0 <= i < j < next.len() implies itemset::dict_before(
        next[i],
        next[j],
        lt,
    ) by {
        assert(next[i] == out[i].0 && next[j] == out[j].0);
    }
    assert forall|s: Seq<usize>| #[trigger]
        next.contains(s) <==> (s.len() == k + 1 && itemset::frequent(txns, min, lt, s)) by {
        lemma_over_level(txns, min, level, k, s);
        assert(cands.contains(s) <==> over_level(level, k, s));
        if next.contains(s) {
            let i = choose|i: int| 0 <= i < next.len() && next[i] == s;
            assert(cands.contains(out[i].0));
            itemset::lemma_candidate_is_frequent(txns, min, lt, s);
        }
        if s.len() == k + 1 && itemset::frequent(txns, min, lt, s) {
            itemset::lemma_frequent_is_candidate(txns, min, lt, s);
            let c = choose|c: int| 0 <= c < cands.len() && cands[c] == s;
            assert(itemset::is_listed(out, cands[c]));
            let i = choose|i: int| 0 <= i < out.len() && (#[trigger] out[i]).0 == s;
            assert(next[i] == s);
        }
    }
}

/// Appending a level to a listing extends it by one size.
proof fn lemma_extend_listing(
    txns: Seq<Seq<usize>>,
    min: nat,
    listed: Seq<(Seq<usize>, u64)>,
    k: nat,
    level: Seq<Seq<usize>>,
    out: Seq<(Seq<usize>, u64)>,
)
    requires
        itemset::lists_upto(txns, min, itemset::by_number(), listed, k),
        is_level(txns, min, level, k + 1),
        level.len() == out.len(),
        forall|i: int|
            0 <= i < out.len() ==> (#[trigger] out[i]).0 == level[i] && out[i].1 == itemset::support(txns, out[i].0),
    ensures
        itemset::lists_upto(txns, min, itemset::by_number(), listed + out, k + 1),
{
    let lt = itemset::by_number();
    let all = listed + out;
    let n = listed.len();
    assert forall|i: int| #![trigger out[i]] 0 <= i < out.len() implies out[i].0.len() == k + 1
        && itemset::frequent(txns, min, lt, out[i].0) by {
        assert(level.contains(level[i]));
    }
    assert forall|i: int, j: int| #![trigger all[i], all[j]] 0 <= i < j < all.len() implies itemset::listed_before(
        all[i].0,
        all[j].0,
        lt,
    ) by {
        if j < n {
            assert(all[i] == listed[i] && all[j] == listed[j]);
        } else {
            assert(all[j] == out[j - n]);
            if i < n {
                assert(all[i] == listed[i]);
            } else {
                assert(all[i] == out[i - n]);
                assert(itemset::dict_before(level[i - n], level[j - n], lt));
            }
        }
    }
    assert forall|i: int|
        #![trigger all[i]]
        0 <= i < all.len() implies itemset::frequent(txns, min, lt, all[i].0) && all[i].0.len() <= k + 1
        && all[i].1 == itemset::support(txns, all[i].0) by {
        if i < n {
            assert(all[i] == listed[i]);
        } else {
            assert(all[i] == out[i - n]);
        }
    }
    assert forall|s: Seq<usize>| #[trigger]
        itemset::frequent(txns, min, lt, s) && s.len() <= k + 1 implies itemset::is_listed(all, s) by {
        if s.len() <= k {
            assert(itemset::is_listed(listed, s));
            let i = choose|i: int| 0 <= i < listed.len() && (#[trigger] listed[i]).0 == s;
            assert(all[i] == listed[i]);
        } else {
            assert(level.contains(s));
            let i = choose|i: int| 0 <= i < level.len() && level[i] == s;
            assert(all[n + i] == out[i]);
        }
    }
}

/// The first level: the single items that enough transactions hold.
fn first_level(index: &Vec<Vec<usize>>, min: u64, Ghost(txns): Ghost<Seq<Seq<usize>>>) -> (r: (
    Vec<(Vec<usize>, u64)>,
    Vec<Vec<usize>>,
))
    requires
        txns.len() <= usize::MAX,
        numbered(txns, index@.len() as nat),
        is_index(txns, rows(index@)),
    ensures
        is_level(txns, min as nat, rows(r.1@), 1),
        itemset::lists_upto(txns, min as nat, itemset::by_number(), listing(r.0@), 1),
{
    let ghost lt = itemset::by_number();
    let ghost full = rows(index@);
    let mut out: Vec<(Vec<usize>, u64)> = Vec::new();
    let mut level: Vec<Vec<usize>> = Vec::new();
    let mut x: usize = 0;
    while x < index.len()
        invariant
            lt == itemset::by_number(),
            full == rows(index@),
            txns.len() <= usize::MAX,
            numbered(txns, index@.len() as nat),
            is_index(txns, full),
            x <= index@.len(),
            out@.len() == level@.len(),
            forall|i: int|
                #![trigger level@[i]]
                #![trigger out@[i]]
                0 <= i < level@.len() ==> level@[i]@.len() == 1 && out@[i].0@ == level@[i]@ && level@[i]@[0] < x
                    && out@[i].1 == itemset::support(txns, level@[i]@) && out@[i].1 >= min,
            forall|i: int, j: int|
                #![trigger level@[i], level@[j]]
                0 <= i < j < level@.len() ==> level@[i]@[0] < level@[j]@[0],
            forall|y: usize|
                y < x && #[trigger] itemset::support(txns, seq![y]) >= min ==> rows(level@).contains(seq![y]),
        decreases index.len() - x,
    {
        let ghost single = seq![x];
        let count: u64 = index[x].len() as u64;
        proof {
            let list = full[x as int];
            assert(list == index@[x as int]@);
            assert forall|j: int| 0 <= j < list.len() implies #[trigger] list[j] < txns.len() by {
                assert(full[x as int].contains(list[j]));
            }
            assert forall|t: int|
                0 <= t < txns.len() && t <= usize::MAX && itemset::holds_all(#[trigger] txns[t], single) implies list.contains(
                t as usize,
            ) by {
                assert(single[0] == x);
                assert(txns[t].contains(single[0]));
                assert(full[x as int].contains(t as usize));
            }
            lemma_support_in(txns, list, single);
            assert forall|i: int| 0 <= i < list.len() implies itemset::holds_all(
                txns[#[trigger] list[i] as int],
                single,
            ) by {
                assert(full[x as int].contains(list[i]));
                assert(txns[list[i] as int].contains(x));
            }
            lemma_support_in_all(txns, list, single);
        }
        let ghost old_level = rows(level@);
        if count >= min {
            let mut a: Vec<usize> = Vec::new();
            a.push(x);
            let mut b: Vec<usize> = Vec::new();
            b.push(x);
            assert(a@ =~= single);
            assert(b@ =~= single);
            out.push((a, count));
            level.push(b);
        }
        proof {
            let new_level = rows(level@);
            assert forall|y: usize| y < x + 1 && #[trigger] itemset::support(txns, seq![y]) >= min implies new_level.contains(
                seq![y],
            ) by {
                if y < x {
                    assert(old_level.contains(seq![y]));
                    let i = choose|i: int| 0 <= i < old_level.len() && old_level[i] == seq![y];
                    assert(new_level[i] == seq![y]);
                } else {
                    assert(new_level[old_level.len() as int] == seq![y]);
                }
            }
        }
        x = x + 1;
    }
    proof {
        let view = rows(level@);
        let listed = listing(out@);
        assert forall|i: int, j: int|
            #![trigger view[i], view[j]]
            0 <= i < j < view.len() implies itemset::dict_before(view[i], view[j], lt) by {
            assert(view[i] == level@[i]@ && view[j] == level@[j]@);
            assert(itemset::agree(view[i], view[j], 0));
        }
        assert forall|s: Seq<usize>| #[trigger]
            view.contains(s) <==> (s.len() == 1 && itemset::frequent(txns, min as nat, lt, s)) by {
            if view.contains(s) {
                let i = choose|i: int| 0 <= i < view.len() && view[i] == s;
                assert(view[i] == level@[i]@);
                assert(itemset::occurs(txns, s[0]));
            }
            if s.len() == 1 && itemset::frequent(txns, min as nat, lt, s) {
                assert(itemset::occurs(txns, s[0]));
                assert(s =~= seq![s[0]]);
                assert(itemset::support(txns, seq![s[0]]) >= min);
            }
        }
        assert(itemset::lists_upto(txns, min as nat, lt, Seq::<(Seq<usize>, u64)>::empty(), 0)) by {
            assert forall|s: Seq<usize>| #[trigger]
                itemset::frequent(txns, min as nat, lt, s) && s.len() <= 0 implies itemset::is_listed(
                Seq::<(Seq<usize>, u64)>::empty(),
                s,
            ) by {
                assert(s.len() >= 1);
            }
        }
        assert forall|i: int| 0 <= i < listed.len() implies (#[trigger] listed[i]).0 == view[i] && listed[i].1
            == itemset::support(txns, listed[i].0) by {
            assert(listed[i] == (out@[i].0@, out@[i].1));
            assert(view[i] == level@[i]@);
        }
        lemma_extend_listing(txns, min as nat, Seq::empty(), 0, view, listed);
        assert(Seq::<(Seq<usize>, u64)>::empty() + listed =~= listed);
    }
    (out, level)
}

/// Where every listed transaction holds the items, the count is the length.
proof fn lemma_support_in_all(txns: Seq<Seq<usize>>, list: Seq<usize>, s: Seq<usize>)
    requires
        forall|i: int| 0 <= i < list.len() ==> itemset::holds_all(txns[#[trigger] list[i] as int], s),
    ensures
        support_in(txns, list, s) == list.len(),
    decreases list.len(),
{
    if list.len() > 0 {
        assert(list.last() == list[list.len() - 1]);
        assert forall|i: int| 0 <= i < list.drop_last().len() implies itemset::holds_all(
            txns[#[trigger] list.drop_last()[i] as int],
            s,
        ) by {
            assert(list.drop_last()[i] == list[i]);
        }
        lemma_support_in_all(txns, list.drop_last(), s);
    }
}

/// Numbers below `m` are `m` distinct items.
proof fn lemma_distinct_count(txns: Seq<Seq<usize>>, m: nat)
    requires
        m <= usize::MAX,
        numbered(txns, m),
    ensures
        Set::new(|x: usize| itemset::occurs(txns, x)).len() == m,
{
    let all = Seq::new(m, |i: int| i as usize);
    let set = Set::new(|x: usize| itemset::occurs(txns, x));
    assert(all.no_duplicates());
    all.unique_seq_to_set();
    assert forall|x: usize| all.to_set().contains(x) <==> #[trigger] set.contains(x) by {
        if x < m {
            assert(all[x as int] == x);
        }
        assert(itemset::occurs(txns, x) <==> x < m);
    }
    assert(all.to_set() =~= set);
}

/// An ascending list of numbers below `m` has at most `m` members.
proof fn lemma_pigeonhole(s: Seq<usize>, m: nat)
    requires
        itemset::ascending(s, itemset::by_number()),
        forall|i: int| 0 <= i < s.len() ==> #[trigger] s[i] < m,
    ensures
        s.len() <= m,
    decreases s.len(),
{
    if s.len() > 0 {
        let rest = s.drop_last();
        assert forall|i: int| 0 <= i < rest.len() implies #[trigger] rest[i] < s.last() by {
            assert(rest[i] == s[i]);
            assert(itemset::by_number()(s[i], s[s.len() - 1]));
        }
        assert forall|i: int, j: int|
            #![trigger rest[i], rest[j]]
            0 <= i < j < rest.len() implies itemset::by_number()(rest[i], rest[j]) by {
            assert(rest[i] == s[i] && rest[j] == s[j]);
        }
        lemma_pigeonhole(rest, s.last() as nat);
        assert(s.last() == s[s.len() - 1]);
    }
}

/// The state of a scan after the itemsets of up to `k` items.
spec fn scan_state(
    txns: Seq<Seq<usize>>,
    min: nat,
    k: nat,
    out: Seq<(Seq<usize>, u64)>,
    candidates: nat,
) -> bool {
    &&& itemset::lists_upto(txns, min, itemset::by_number(), out, k)
    &&& candidates == itemset::total_candidates(txns, min, itemset::by_number(), k)
    &&& itemset::few_candidates(txns, min, itemset::by_number(), k, MAX_CANDIDATES as nat)
}

/// A scan that meets an empty level has seen everything.
proof fn lemma_scan_complete(
    txns: Seq<Seq<usize>>,
    min: nat,
    k: nat,
    limit: nat,
    out: Seq<(Seq<usize>, u64)>,
    candidates: nat,
)
    requires
        1 <= k <= limit,
        scan_state(txns, min, k, out, candidates),
        forall|x: Seq<usize>| #[trigger]
            itemset::frequent(txns, min, itemset::by_number(), x) ==> x.len() != k,
    ensures
        scan_state(txns, min, limit, out, candidates),
        itemset::scan_work(txns, min, itemset::by_number(), limit) == itemset::scan_work(
            txns,
            min,
            itemset::by_number(),
            k,
        ),
{
    let lt = itemset::by_number();
    itemset::lemma_totals_past_empty_level(txns, min, lt, k, limit);
    assert forall|s: Seq<usize>| #[trigger]
        itemset::frequent(txns, min, lt, s) && s.len() <= limit implies itemset::is_listed(out, s) by {
        if s.len() > k {
            itemset::lemma_empty_level(txns, min, lt, k, s);
        }
    }
    assert forall|j: nat| 2 <= j <= limit implies (#[trigger] itemset::candidate_set(txns, min, lt, j)).finite()
        && itemset::candidate_set(txns, min, lt, j).len() < MAX_CANDIDATES by {
        if j > k {
            let set = itemset::candidate_set(txns, min, lt, j);
            assert forall|s: Seq<usize>| !#[trigger] set.contains(s) by {
                if s.len() == j {
                    itemset::lemma_empty_level(txns, min, lt, k, s);
                }
            }
            assert(set =~= Set::empty());
        }
    }
}

/// What a scan hands back that was cancelled at the work unit `stop`, if at all.
pub open spec fn ended<F: Fn() -> bool>(
    txns: Seq<Seq<usize>>,
    min: nat,
    max_itemset_size: nat,
    poll: F,
    r: Scan,
    stop: Option<nat>,
) -> bool {
    &&& r.cancelled == (stop is Some)
    &&& itemset::scanned(
        txns,
        min,
        max_itemset_size,
        itemset::by_number(),
        MAX_CANDIDATES as nat,
        CANCEL_CHECK_INTERVAL as nat,
        listing(r.frequent@),
        r.candidates as nat,
        stop,
        r.truncated,
    )
    &&& asked(
        poll,
        stop,
        r.truncated,
        itemset::scan_work(txns, min, itemset::by_number(), itemset::size_limit(txns, max_itemset_size)),
    )
}

/// Searches the frequent itemsets of numbered items, level by level.
pub fn scan_numbered<F: Fn() -> bool>(
    txns: &Vec<Vec<usize>>,
    m: usize,
    min: u64,
    max_itemset_size: usize,
    poll: &F,
) -> (r: Scan)
    requires
        call_requires(*poll, ()),
        numbered(rows(txns@), m as nat),
    ensures
        exists|stop: Option<nat>| #[trigger]
            ended(rows(txns@), min as nat, max_itemset_size as nat, *poll, r, stop),
{
    let ghost view = rows(txns@);
    let ghost lt = itemset::by_number();
    let ghost least = min as nat;
    let ghost limit = itemset::size_limit(view, max_itemset_size as nat);
    proof {
        lemma_distinct_count(view, m as nat);
    }
    let txn_count: usize = txns.len();
    assert(view.len() == txn_count);
    let index: Vec<Vec<usize>> = build_index(txns, m);
    let (first, singles) = first_level(&index, min, Ghost(view));
    let mut out: Vec<(Vec<usize>, u64)> = first;
    let mut level: Vec<Vec<usize>> = singles;
    let mut candidates: u64 = 0;
    let mut work: u64 = 0;
    let mut k: usize = 1;
    while level.len() > 0 && (max_itemset_size == 0 || k < max_itemset_size)
        invariant
            call_requires(*poll, ()),
            view == rows(txns@),
            lt == itemset::by_number(),
            least == min,
            limit == itemset::size_limit(view, max_itemset_size as nat),
            limit == if max_itemset_size != 0 {
                max_itemset_size as nat
            } else {
                (m + 1) as nat
            },
            numbered(view, m as nat),
            index@.len() == m,
            is_index(view, rows(index@)),
            1 <= k <= limit,
            is_level(view, least, rows(level@), k as nat),
            scan_state(view, least, k as nat, listing(out@), candidates as nat),
            polled(*poll, work, itemset::scan_work(view, least, lt, k as nat)),
            candidates <= (k - 1) * 2_000_000,
        decreases limit - k,
    {
        let ghost members = rows(level@);
        let ghost kk = k as nat;
        let ghost polls = itemset::scan_work(view, least, lt, kk);
        proof {
            assert forall|x: int| 0 <= x < level@.len() implies (#[trigger] level@[x])@.len() == k
                && itemset::ascending(level@[x]@, lt) && itemset::frequent(view, least, lt, level@[x]@) by {
                assert(members[x] == level@[x]@);
                assert(members.contains(members[x]));
            }
            lemma_level_size(view, least, members, kk);
            let s = level@[0]@;
            assert(itemset::frequent(view, least, lt, s));
            assert forall|i: int| 0 <= i < s.len() implies #[trigger] s[i] < m by {
                assert(itemset::occurs(view, s[i]));
            }
            lemma_pigeonhole(s, m as nat);
            if k >= 2 {
                itemset::lemma_pairs_bound_size(view, least, lt, s);
                assert(itemset::candidate_set(view, least, lt, 2).len() < MAX_CANDIDATES);
            }
            assert(k <= 2_000_000);
            assert(k + 1 <= limit);
            itemset::lemma_scan_work_monotone(view, least, lt, kk + 1, limit);
        }
        let (cands, end) = join_level(&level, k, &mut work, poll, Ghost(polls));
        let ghost joined = rows(cands@);
        match end {
            ScanEnd::Stopped => {
                let r = Scan { frequent: out, candidates, cancelled: true, truncated: false };
                proof {
                    let unit = choose|unit: nat|
                        polls < unit <= polls + level@.len() && #[trigger] stops_on(*poll, unit);
                    assert(itemset::stopped_at(
                        view,
                        least,
                        lt,
                        MAX_CANDIDATES as nat,
                        listing(r.frequent@),
                        candidates as nat,
                        kk,
                        unit,
                    ));
                    assert(ended(view, least, max_itemset_size as nat, *poll, r, Some(unit)));
                }
                return r;
            },
            ScanEnd::Full => {
                proof {
                    lemma_sorted_distinct(joined);
                    assert forall|c: int| 0 <= c < joined.len() implies itemset::candidate(
                        view,
                        least,
                        lt,
                        #[trigger] joined[c],
                    ) && joined[c].len() == kk + 1 by {
                        assert(joined[c] == cands@[c]@);
                        lemma_over_level(view, least, members, kk, joined[c]);
                    }
                    assert(itemset::many_candidates(view, least, lt, kk + 1, MAX_CANDIDATES as nat));
                    assert(itemset::lists_upto(view, least, lt, listing(out@), kk));
                }
                let r = Scan { frequent: out, candidates, cancelled: false, truncated: true };
                assert(ended(view, least, max_itemset_size as nat, *poll, r, None));
                return r;
            },
            ScanEnd::Done => {},
        }
        proof {
            lemma_candidate_count(view, least, members, kk, joined);
            assert(itemset::scan_work(view, least, lt, kk + 1) == polls + members.len() + joined.len());
            assert(itemset::total_candidates(view, least, lt, kk + 1) == candidates + joined.len());
        }
        if cands.len() == 0 {
            proof {
                assert forall|x: Seq<usize>| #[trigger] itemset::frequent(view, least, lt, x) implies x.len()
                    != kk + 1 by {
                    if x.len() == kk + 1 {
                        itemset::lemma_frequent_is_candidate(view, least, lt, x);
                        lemma_over_level(view, least, members, kk, x);
                        assert(joined.contains(x));
                    }
                }
                assert forall|s: Seq<usize>| #[trigger]
                    itemset::frequent(view, least, lt, s) && s.len() <= kk + 1 implies itemset::is_listed(
                    listing(out@),
                    s,
                ) by {}
                assert(scan_state(view, least, kk + 1, listing(out@), candidates as nat));
                lemma_scan_complete(view, least, kk + 1, limit, listing(out@), candidates as nat);
            }
            let r = Scan { frequent: out, candidates, cancelled: false, truncated: false };
            assert(ended(view, least, max_itemset_size as nat, *poll, r, None));
            return r;
        }
        candidates = candidates + cands.len() as u64;
        proof {
            assert forall|c: int| 0 <= c < cands@.len() implies (#[trigger] cands@[c])@.len() == kk + 1
                && itemset::candidate(view, least, lt, cands@[c]@) by {
                assert(joined[c] == cands@[c]@);
                assert(joined.contains(joined[c]));
                lemma_over_level(view, least, members, kk, joined[c]);
            }
            assert forall|c: int, i: int|
                #![trigger cands@[c]@[i]]
                0 <= c < cands@.len() && 0 <= i < cands@[c]@.len() implies cands@[c]@[i] < index@.len() by {
                let s = cands@[c]@;
                let d = if i == 0 { 1int } else { 0int };
                let r = s.remove(d);
                assert(itemset::frequent(view, least, lt, r));
                let e = if i == 0 { 0int } else { i - 1 };
                assert(r[e] == s[i]);
                assert(itemset::occurs(view, r[e]));
            }
            assert forall|t: int| 0 <= t < txns@.len() implies itemset::ascending((#[trigger] txns@[t])@, lt) by {
                assert(view[t] == txns@[t]@);
            }
        }
        let counts = match count_level(
            txns,
            &index,
            &cands,
            min,
            &mut work,
            poll,
            Ghost(polls + level@.len()),
        ) {
            Some(counts) => counts,
            None => {
                let r = Scan { frequent: out, candidates, cancelled: true, truncated: false };
                proof {
                    let from = polls + level@.len();
                    let unit = choose|unit: nat|
                        from < unit <= from + cands@.len() && #[trigger] stops_on(*poll, unit);
                    assert(itemset::few_candidates(view, least, lt, kk + 1, MAX_CANDIDATES as nat));
                    assert(itemset::stopped_at(
                        view,
                        least,
                        lt,
                        MAX_CANDIDATES as nat,
                        listing(r.frequent@),
                        candidates as nat,
                        kk,
                        unit,
                    ));
                    assert(ended(view, least, max_itemset_size as nat, *poll, r, Some(unit)));
                }
                return r;
            },
        };
        let ghost listed = listing(out@);
        let ghost fresh = listing(counts@);
        let mut next: Vec<Vec<usize>> = Vec::new();
        let mut i: usize = 0;
        while i < counts.len()
            invariant
                i <= counts@.len(),
                fresh == listing(counts@),
                next@.len() == i,
                forall|x: int| 0 <= x < i ==> (#[trigger] next@[x])@ == counts@[x].0@,
                listing(out@) == listed + fresh.take(i as int),
            decreases counts.len() - i,
        {
            let a: Vec<usize> = counts[i].0.clone();
            let b: Vec<usize> = counts[i].0.clone();
            assert(a@ =~= counts@[i as int].0@);
            assert(b@ =~= counts@[i as int].0@);
            let ghost before = listing(out@);
            next.push(a);
            out.push((b, counts[i].1));
            assert(listing(out@) =~= before.push(fresh[i as int]));
            assert(fresh.take(i + 1) =~= fresh.take(i as int).push(fresh[i as int]));
            assert(listing(out@) =~= listed + fresh.take(i + 1));
            i = i + 1;
        }
        proof {
            assert(fresh.take(counts@.len() as int) =~= fresh);
            let view_next = rows(next@);
            assert forall|x: int| 0 <= x < fresh.len() implies #[trigger] view_next[x] == fresh[x].0 by {
                assert(next@[x]@ == counts@[x].0@);
            }
            lemma_next_level(view, least, members, kk, joined, fresh, view_next);
            lemma_extend_listing(view, least, listed, kk, view_next, fresh);
        }
        level = next;
        k = k + 1;
    }
    proof {
        let members = rows(level@);
        if level@.len() == 0 {
            assert forall|x: Seq<usize>| #[trigger] itemset::frequent(view, least, lt, x) implies x.len() != k by {
                if x.len() == k {
                    assert(members.contains(x));
                }
            }
            lemma_scan_complete(view, least, k as nat, limit, listing(out@), candidates as nat);
        }
    }
    let r = Scan { frequent: out, candidates, cancelled: false, truncated: false };
    assert(ended(view, least, max_itemset_size as nat, *poll, r, None));
    r
}

} // verus!
