//! Looking counts up in a listing of itemsets, whatever its order.

use vstd::prelude::*;
use crate::mining::itemset;
use crate::mining::names;
use crate::sorting;
use crate::sorting::{sorted_positions, RowOrder};
use crate::text;
use crate::text::{text_place, Placed};

verus! {

/// The count that a listing gives an itemset, where it lists it.
pub open spec fn listed_count(frequent: Seq<(Seq<Seq<char>>, u64)>, items: Seq<Seq<char>>) -> Option<u64> {
    if itemset::is_listed(frequent, items) {
        Some(frequent[listed_at(frequent, items)].1)
    } else {
        None
    }
}

/// The last place of a listed itemset.
pub open spec fn listed_at(frequent: Seq<(Seq<Seq<char>>, u64)>, items: Seq<Seq<char>>) -> int {
    choose|i: int| is_last_place(frequent, items, i)
}

/// The itemset stands at `i` and nowhere behind.
pub open spec fn is_last_place(frequent: Seq<(Seq<Seq<char>>, u64)>, items: Seq<Seq<char>>, i: int) -> bool {
    &&& 0 <= i < frequent.len()
    &&& frequent[i].0 == items
    &&& forall|j: int| i < j < frequent.len() ==> (#[trigger] frequent[j]).0 != items
}

/// A listed itemset has a last place.
pub proof fn lemma_last_place(frequent: Seq<(Seq<Seq<char>>, u64)>, items: Seq<Seq<char>>)
    requires
        itemset::is_listed(frequent, items),
    ensures
        is_last_place(frequent, items, listed_at(frequent, items)),
{
    let i = choose|i: int| 0 <= i < frequent.len() && (#[trigger] frequent[i]).0 == items;
    lemma_place_behind(frequent, items, i);
}

proof fn lemma_place_behind(frequent: Seq<(Seq<Seq<char>>, u64)>, items: Seq<Seq<char>>, i: int)
    requires
        0 <= i < frequent.len(),
        frequent[i].0 == items,
    ensures
        exists|last: int| is_last_place(frequent, items, last),
    decreases frequent.len() - i,
{
    if !is_last_place(frequent, items, i) {
        let j = choose|j: int| i < j < frequent.len() && (#[trigger] frequent[j]).0 == items;
        lemma_place_behind(frequent, items, j);
    }
}

/// A listing comparison goes one way only.
pub proof fn lemma_listed_before_asym(a: Seq<Seq<char>>, b: Seq<Seq<char>>)
    requires
        itemset::listed_before(a, b, names::by_text()),
    ensures
        !itemset::listed_before(b, a, names::by_text()),
        a != b,
{
    let lt = names::by_text();
    if a.len() == b.len() {
        let p = choose|p: int| #[trigger] itemset::agree(a, b, p) && p < a.len() && p < b.len() && lt(a[p], b[p]);
        text::lemma_text_before_asym(a[p], b[p]);
        if itemset::dict_before(b, a, lt) {
            let q = choose|q: int| #[trigger]
                itemset::agree(b, a, q) && q < a.len() && q < b.len() && lt(b[q], a[q]);
            text::lemma_text_before_asym(b[q], a[q]);
            if p < q {
                assert(b[p] == a[p]);
            } else if q < p {
                assert(a[q] == b[q]);
            }
        }
    }
}

/// Two different itemsets are listed one before the other.
proof fn lemma_listed_before_total(a: Seq<Seq<char>>, b: Seq<Seq<char>>, p: int)
    requires
        itemset::agree(a, b, p),
    ensures
        a == b || itemset::listed_before(a, b, names::by_text()) || itemset::listed_before(b, a, names::by_text()),
    decreases a.len() - p,
{
    let lt = names::by_text();
    if a.len() == b.len() {
        if p == a.len() {
            assert(a =~= b);
        } else {
            text::lemma_text_before_total(a[p], b[p]);
            if a[p] == b[p] {
                assert(itemset::agree(a, b, p + 1));
                lemma_listed_before_total(a, b, p + 1);
            } else {
                assert(itemset::agree(b, a, p));
                assert(lt(a[p], b[p]) || lt(b[p], a[p]));
            }
        }
    }
}

proof fn lemma_listed_before_trans(a: Seq<Seq<char>>, b: Seq<Seq<char>>, c: Seq<Seq<char>>)
    requires
        itemset::listed_before(a, b, names::by_text()),
        itemset::listed_before(b, c, names::by_text()),
    ensures
        itemset::listed_before(a, c, names::by_text()),
{
    let lt = names::by_text();
    if a.len() == b.len() && b.len() == c.len() {
        let p = choose|p: int| #[trigger] itemset::agree(a, b, p) && p < a.len() && p < b.len() && lt(a[p], b[p]);
        let q = choose|q: int| #[trigger] itemset::agree(b, c, q) && q < b.len() && q < c.len() && lt(b[q], c[q]);
        let r = if p <= q {
            p
        } else {
            q
        };
        assert(itemset::agree(a, c, r)) by {
            assert forall|i: int| 0 <= i < r implies a[i] == c[i] by {
                assert(a[i] == b[i] && b[i] == c[i]);
            }
        }
        if p == q {
            text::lemma_text_before_trans(a[p], b[p], c[p]);
        } else if p < q {
            assert(b[p] == c[p]);
        } else {
            assert(a[q] == b[q]);
        }
        assert(lt(a[r], c[r]));
    }
}

/// Where `b` is not listed before `a`, nor `c` before `b`, `c` is not listed before
/// `a`.
proof fn lemma_not_before_trans(a: Seq<Seq<char>>, b: Seq<Seq<char>>, c: Seq<Seq<char>>)
    requires
        !itemset::listed_before(b, a, names::by_text()),
        !itemset::listed_before(c, b, names::by_text()),
    ensures
        !itemset::listed_before(c, a, names::by_text()),
{
    assert(itemset::agree(a, b, 0));
    lemma_listed_before_total(a, b, 0);
    if itemset::listed_before(c, a, names::by_text()) && a != b {
        lemma_listed_before_trans(c, a, b);
    }
}

/// Compares two itemsets by the order of a listing.
fn listing_place(a: &Vec<String>, b: &Vec<String>) -> (r: Placed)
    ensures
        r == Placed::Before <==> itemset::listed_before(
            text::texts(a@),
            text::texts(b@),
            names::by_text(),
        ),
        r == Placed::Same <==> text::texts(a@) == text::texts(b@),
        r == Placed::After <==> itemset::listed_before(
            text::texts(b@),
            text::texts(a@),
            names::by_text(),
        ),
{
    let ghost x = text::texts(a@);
    let ghost y = text::texts(b@);
    proof {
        if itemset::listed_before(x, y, names::by_text()) {
            lemma_listed_before_asym(x, y);
        }
        if itemset::listed_before(y, x, names::by_text()) {
            lemma_listed_before_asym(y, x);
        }
    }
    if a.len() < b.len() {
        return Placed::Before;
    }
    if a.len() > b.len() {
        return Placed::After;
    }
    let mut p: usize = 0;
    while p < a.len()
        invariant
            x == text::texts(a@),
            y == text::texts(b@),
            a@.len() == b@.len(),
            p <= a@.len(),
            forall|q: int| 0 <= q < p ==> x[q] == y[q],
            itemset::listed_before(x, y, names::by_text()) ==> !itemset::listed_before(y, x, names::by_text())
                && x != y,
            itemset::listed_before(y, x, names::by_text()) ==> !itemset::listed_before(x, y, names::by_text())
                && x != y,
        decreases a.len() - p,
    {
        assert(itemset::agree(x, y, p as int));
        assert(itemset::agree(y, x, p as int));
        let placed: Placed = text_place(a[p].as_str(), b[p].as_str());
        match placed {
            Placed::Before => {
                assert(names::by_text()(x[p as int], y[p as int]));
                assert(itemset::dict_before(x, y, names::by_text()));
                return Placed::Before;
            },
            Placed::After => {
                assert(names::by_text()(y[p as int], x[p as int]));
                assert(itemset::dict_before(y, x, names::by_text()));
                return Placed::After;
            },
            Placed::Same => {},
        }
        p = p + 1;
    }
    assert(x =~= y);
    Placed::Same
}

/// Place `a` does not have to stand behind place `b` in the order of a listing.
pub open spec fn places_le(frequent: Seq<(Seq<Seq<char>>, u64)>) -> spec_fn(int, int) -> bool {
    |a: int, b: int| !itemset::listed_before(frequent[b].0, frequent[a].0, names::by_text())
}

/// `order` names the places of a listing in order: shorter itemsets first, equally
/// long ones in dictionary order, equal ones as they stand.
pub open spec fn sorted(frequent: Seq<(Seq<Seq<char>>, u64)>, order: Seq<usize>) -> bool {
    sorting::stable_order(places_le(frequent), 0, frequent.len() as int, order)
}

/// A listing as a table of itemsets.
struct ListingTable<'a> {
    frequent: &'a Vec<(Vec<String>, u64)>,
}

impl<'a> RowOrder for ListingTable<'a> {
    closed spec fn size(&self) -> nat {
        self.frequent@.len()
    }

    closed spec fn comparable(&self) -> bool {
        true
    }

    closed spec fn rows_le(&self, a: int, b: int) -> bool {
        places_le(names::text_listing(self.frequent@))(a, b)
    }

    proof fn total(&self, a: int, b: int) {
        let all = names::text_listing(self.frequent@);
        if itemset::listed_before(all[b].0, all[a].0, names::by_text()) {
            lemma_listed_before_asym(all[b].0, all[a].0);
        }
    }

    proof fn transitive(&self, a: int, b: int, c: int) {
        let all = names::text_listing(self.frequent@);
        lemma_not_before_trans(all[a].0, all[b].0, all[c].0);
    }

    fn check_le(&self, a: usize, b: usize) -> (r: bool) {
        match listing_place(&self.frequent[b].0, &self.frequent[a].0) {
            Placed::Before => false,
            _ => true,
        }
    }
}

/// Sorts the places of a listing.
pub fn sort_listing(frequent: &Vec<(Vec<String>, u64)>) -> (order: Vec<usize>)
    ensures
        sorted(names::text_listing(frequent@), order@),
{
    let n: usize = frequent.len();
    let table = ListingTable { frequent };
    let order: Vec<usize> = sorted_positions(&table, n);
    proof {
        let le = places_le(names::text_listing(frequent@));
        assert forall|x: int, y: int|
            #![trigger order@[x], order@[y]]
            0 <= x < y < order@.len() implies sorting::comes_first(le, order@[x] as int, order@[y] as int) by {
            assert(sorting::comes_first(
                |a: int, b: int| table.rows_le(a, b),
                order@[x] as int,
                order@[y] as int,
            ));
        }
    }
    order
}

/// Looks the count of an itemset up by halving the range of sorted places.
pub fn lookup(frequent: &Vec<(Vec<String>, u64)>, order: &Vec<usize>, items: &Vec<String>) -> (r: Option<u64>)
    requires
        sorted(names::text_listing(frequent@), order@),
    ensures
        r == listed_count(names::text_listing(frequent@), text::texts(items@)),
{
    let ghost view = names::text_listing(frequent@);
    let ghost wanted = text::texts(items@);
    let ghost lt = names::by_text();
    let mut lo: usize = 0;
    let mut hi: usize = order.len();
    while lo < hi
        invariant
            view == names::text_listing(frequent@),
            wanted == text::texts(items@),
            lt == names::by_text(),
            sorted(view, order@),
            lo <= hi <= order@.len(),
            forall|i: int|
                0 <= i < lo ==> !itemset::listed_before(wanted, view[#[trigger] order@[i] as int].0, lt),
            forall|i: int|
                hi <= i < order@.len() ==> itemset::listed_before(wanted, view[#[trigger] order@[i] as int].0, lt),
        decreases hi - lo,
    {
        let mid: usize = lo + (hi - lo) / 2;
        assert(order@.contains(order@[mid as int]));
        let at: usize = order[mid];
        assert(view[at as int].0 == text::texts(frequent@[at as int].0@));
        match listing_place(&frequent[at].0, items) {
            Placed::After => {
                proof {
                    assert forall|i: int| mid <= i < order@.len() implies itemset::listed_before(
                        wanted,
                        view[#[trigger] order@[i] as int].0,
                        lt,
                    ) by {
                        if i > mid && !itemset::listed_before(wanted, view[order@[i] as int].0, lt) {
                            assert(sorting::comes_first(places_le(view), order@[mid as int] as int, order@[i] as int));
                            lemma_not_before_trans(view[at as int].0, view[order@[i] as int].0, wanted);
                        }
                    }
                }
                hi = mid;
            },
            _ => {
                proof {
                    if itemset::listed_before(wanted, view[at as int].0, lt) {
                        lemma_listed_before_asym(wanted, view[at as int].0);
                    }
                    assert forall|i: int| 0 <= i < mid + 1 implies !itemset::listed_before(
                        wanted,
                        view[#[trigger] order@[i] as int].0,
                        lt,
                    ) by {
                        if i < mid {
                            assert(sorting::comes_first(places_le(view), order@[i] as int, order@[mid as int] as int));
                            lemma_not_before_trans(view[order@[i] as int].0, view[at as int].0, wanted);
                        }
                    }
                }
                lo = mid + 1;
            },
        }
    }
    proof {
        if itemset::listed_before(wanted, wanted, lt) {
            lemma_listed_before_asym(wanted, wanted);
        }
        assert forall|j: int| 0 <= j < view.len() && (#[trigger] view[j]).0 == wanted implies lo > 0 && j
            <= order@[lo - 1] && view[order@[lo - 1] as int].0 == wanted by {
            assert(order@.contains(j as usize));
            let i = choose|i: int| 0 <= i < order@.len() && order@[i] == j;
            if i < lo - 1 {
                let last = order@[lo - 1] as int;
                assert(sorting::comes_first(places_le(view), j, last));
                assert(itemset::agree(view[last].0, wanted, 0));
                lemma_listed_before_total(view[last].0, wanted, 0);
            }
        }
    }
    if lo == 0 {
        return None;
    }
    assert(order@.contains(order@[lo - 1]));
    let at: usize = order[lo - 1];
    assert(view[at as int].0 == text::texts(frequent@[at as int].0@));
    match listing_place(&frequent[at].0, items) {
        Placed::Same => {
            proof {
                assert(is_last_place(view, wanted, at as int));
                let last = listed_at(view, wanted);
                assert(is_last_place(view, wanted, last));
                if last < at {
                    assert(view[at as int].0 != wanted);
                } else if last > at {
                    assert(view[last].0 != wanted);
                }
            }
            Some(frequent[at].1)
        },
        _ => None,
    }
}

} // verus!
