//! Stable sorting of the positions of a table.

use vstd::prelude::*;

verus! {

/// A table whose rows can be compared: `rows_le(a, b)` says that row `a` does
/// not have to come after row `b`.
pub trait RowOrder {
    /// The number of rows.
    spec fn size(&self) -> nat;

    /// The rows can be compared.
    spec fn comparable(&self) -> bool;

    spec fn rows_le(&self, a: int, b: int) -> bool;

    proof fn total(&self, a: int, b: int)
        requires
            self.comparable(),
            0 <= a < self.size(),
            0 <= b < self.size(),
        ensures
            self.rows_le(a, b) || self.rows_le(b, a),
    ;

    proof fn transitive(&self, a: int, b: int, c: int)
        requires
            self.comparable(),
            0 <= a < self.size(),
            0 <= b < self.size(),
            0 <= c < self.size(),
            self.rows_le(a, b),
            self.rows_le(b, c),
        ensures
            self.rows_le(a, c),
    ;

    fn check_le(&self, a: usize, b: usize) -> (r: bool)
        requires
            self.comparable(),
            a < self.size(),
            b < self.size(),
        ensures
            r == self.rows_le(a as int, b as int),
    ;
}

/// Position `a` comes first in a stable sort: its row is smaller, or the rows
/// are equal and it stands first in the table.
pub open spec fn comes_first(le: spec_fn(int, int) -> bool, a: int, b: int) -> bool {
    le(a, b) && (!le(b, a) || a < b)
}

/// `order` names the positions from `lo` to `hi`, each once, in stable order.
pub open spec fn stable_order(le: spec_fn(int, int) -> bool, lo: int, hi: int, order: Seq<usize>) -> bool {
    &&& order.len() == hi - lo
    &&& forall|x: usize| #[trigger] order.contains(x) <==> lo <= x < hi
    &&& forall|i: int, j: int|
        #![trigger order[i], order[j]]
        0 <= i < j < order.len() ==> comes_first(le, order[i] as int, order[j] as int)
}

spec fn le_of<O: RowOrder>(o: &O) -> spec_fn(int, int) -> bool {
    |a: int, b: int| o.rows_le(a, b)
}

/// The positions of a merged list are those taken from both sides so far.
spec fn merged<O: RowOrder>(o: &O, a: Seq<usize>, b: Seq<usize>, i: int, j: int, out: Seq<usize>) -> bool {
    &&& out.len() == i + j
    &&& forall|x: usize| #[trigger] out.contains(x) <==> a.take(i).contains(x) || b.take(j).contains(x)
    &&& forall|x: int, y: int|
        #![trigger out[x], out[y]]
        0 <= x < y < out.len() ==> comes_first(le_of(o), out[x] as int, out[y] as int)
    &&& forall|x: int, y: int|
        #![trigger out[x], a[y]]
        0 <= x < out.len() && i <= y < a.len() ==> comes_first(le_of(o), out[x] as int, a[y] as int)
    &&& forall|x: int, y: int|
        #![trigger out[x], b[y]]
        0 <= x < out.len() && j <= y < b.len() ==> comes_first(le_of(o), out[x] as int, b[y] as int)
}

proof fn lemma_take_push(s: Seq<usize>, i: int, x: usize)
    requires
        0 <= i < s.len(),
    ensures
        s.take(i + 1).contains(x) <==> s.take(i).contains(x) || x == s[i],
{
    let short = s.take(i);
    let long = s.take(i + 1);
    assert(long =~= short.push(s[i]));
    if long.contains(x) {
        let k = choose|k: int| 0 <= k < long.len() && long[k] == x;
        if k < i {
            assert(short[k] == x);
        }
    }
    if short.contains(x) {
        let k = choose|k: int| 0 <= k < short.len() && short[k] == x;
        assert(long[k] == x);
    }
    assert(long[i] == s[i]);
}

proof fn lemma_push_contains(s: Seq<usize>, v: usize, x: usize)
    ensures
        s.push(v).contains(x) <==> s.contains(x) || x == v,
{
    let t = s.push(v);
    if s.contains(x) {
        let k = choose|k: int| 0 <= k < s.len() && s[k] == x;
        assert(t[k] == x);
    }
    if t.contains(x) {
        let k = choose|k: int| 0 <= k < t.len() && t[k] == x;
        if k < s.len() {
            assert(s[k] == x);
        }
    }
    assert(t[s.len() as int] == v);
}

/// Merges two sorted runs of which the first stands before the second.
fn merge<O: RowOrder>(o: &O, a: &Vec<usize>, b: &Vec<usize>, lo: usize, mid: usize, hi: usize) -> (out: Vec<
    usize,
>)
    requires
        o.comparable(),
        lo <= mid <= hi <= o.size(),
        stable_order(le_of(o), lo as int, mid as int, a@),
        stable_order(le_of(o), mid as int, hi as int, b@),
    ensures
        stable_order(le_of(o), lo as int, hi as int, out@),
{
    let ghost le = le_of(o);
    let mut out: Vec<usize> = Vec::new();
    let mut i: usize = 0;
    let mut j: usize = 0;
    while i < a.len() || j < b.len()
        invariant
            le == le_of(o),
            o.comparable(),
            lo <= mid <= hi <= o.size(),
            stable_order(le, lo as int, mid as int, a@),
            stable_order(le, mid as int, hi as int, b@),
            i <= a@.len(),
            j <= b@.len(),
            merged(o, a@, b@, i as int, j as int, out@),
        decreases a.len() - i + b.len() - j,
    {
        proof {
            if i < a@.len() {
                assert(a@.contains(a@[i as int]));
            }
            if j < b@.len() {
                assert(b@.contains(b@[j as int]));
            }
            assert forall|y: int| 0 <= y < a@.len() implies lo <= #[trigger] a@[y] < mid by {
                assert(a@.contains(a@[y]));
            }
            assert forall|y: int| 0 <= y < b@.len() implies mid <= #[trigger] b@[y] < hi by {
                assert(b@.contains(b@[y]));
            }
        }
        let take_left: bool = if i == a.len() {
            false
        } else if j == b.len() {
            true
        } else {
            o.check_le(a[i], b[j])
        };
        let ghost before = out@;
        if take_left {
            let v: usize = a[i];
            proof {
                assert forall|y: int| i < y < a@.len() implies comes_first(le, v as int, #[trigger] a@[y] as int) by {
                    assert(comes_first(le, a@[i as int] as int, a@[y] as int));
                }
                assert forall|y: int| j <= y < b@.len() implies comes_first(le, v as int, #[trigger] b@[y] as int) by {
                    if y > j {
                        assert(comes_first(le, b@[j as int] as int, b@[y] as int));
                        o.transitive(v as int, b@[j as int] as int, b@[y] as int);
                    }
                }
                assert forall|x: int| 0 <= x < before.len() implies comes_first(
                    le,
                    #[trigger] before[x] as int,
                    v as int,
                ) by {
                    assert(comes_first(le, before[x] as int, a@[i as int] as int));
                }
            }
            out.push(v);
            i = i + 1;
        } else {
            let v: usize = b[j];
            proof {
                assert forall|y: int| j < y < b@.len() implies comes_first(le, v as int, #[trigger] b@[y] as int) by {
                    assert(comes_first(le, b@[j as int] as int, b@[y] as int));
                }
                assert forall|y: int| i <= y < a@.len() implies comes_first(le, v as int, #[trigger] a@[y] as int) by {
                    o.total(v as int, a@[i as int] as int);
                    if y > i {
                        assert(comes_first(le, a@[i as int] as int, a@[y] as int));
                        o.transitive(v as int, a@[i as int] as int, a@[y] as int);
                        if o.rows_le(a@[y] as int, v as int) {
                            o.transitive(a@[i as int] as int, a@[y] as int, v as int);
                        }
                    }
                }
                assert forall|x: int| 0 <= x < before.len() implies comes_first(
                    le,
                    #[trigger] before[x] as int,
                    v as int,
                ) by {
                    assert(comes_first(le, before[x] as int, b@[j as int] as int));
                }
            }
            out.push(v);
            j = j + 1;
        }
        proof {
            let v = out@[before.len() as int];
            assert(out@ =~= before.push(v));
            assert forall|x: usize| #[trigger] out@.contains(x) <==> a@.take(i as int).contains(x) || b@.take(
                j as int,
            ).contains(x) by {
                lemma_push_contains(before, v, x);
                if take_left {
                    lemma_take_push(a@, i - 1, x);
                } else {
                    lemma_take_push(b@, j - 1, x);
                }
            }
            assert forall|x: int, y: int|
                #![trigger out@[x], out@[y]]
                0 <= x < y < out@.len() implies comes_first(le, out@[x] as int, out@[y] as int) by {
                assert(out@[x] == before[x]);
                if y < before.len() {
                    assert(out@[y] == before[y]);
                }
            }
            assert forall|x: int, y: int|
                #![trigger out@[x], a@[y]]
                0 <= x < out@.len() && i <= y < a@.len() implies comes_first(le, out@[x] as int, a@[y] as int) by {
                if x < before.len() {
                    assert(out@[x] == before[x]);
                }
            }
            assert forall|x: int, y: int|
                #![trigger out@[x], b@[y]]
                0 <= x < out@.len() && j <= y < b@.len() implies comes_first(le, out@[x] as int, b@[y] as int) by {
                if x < before.len() {
                    assert(out@[x] == before[x]);
                }
            }
        }
    }
    assert(a@.take(a@.len() as int) =~= a@);
    assert(b@.take(b@.len() as int) =~= b@);
    out
}

fn sort_range<O: RowOrder>(o: &O, lo: usize, hi: usize) -> (out: Vec<usize>)
    requires
        o.comparable(),
        lo <= hi <= o.size(),
    ensures
        stable_order(le_of(o), lo as int, hi as int, out@),
    decreases hi - lo,
{
    let mut out: Vec<usize> = Vec::new();
    if hi - lo == 1 {
        out.push(lo);
        assert(out@[0] == lo);
    }
    if hi - lo <= 1 {
        return out;
    }
    let mid: usize = lo + (hi - lo) / 2;
    let left: Vec<usize> = sort_range(o, lo, mid);
    let right: Vec<usize> = sort_range(o, mid, hi);
    merge(o, &left, &right, lo, mid, hi)
}

/// The positions of the `n` rows of a table in stable order.
pub fn sorted_positions<O: RowOrder>(o: &O, n: usize) -> (order: Vec<usize>)
    requires
        o.comparable(),
        n == o.size(),
    ensures
        stable_order(|a: int, b: int| o.rows_le(a, b), 0, n as int, order@),
{
    let order: Vec<usize> = sort_range(o, 0, n);
    assert(le_of(o) =~= (|a: int, b: int| o.rows_le(a, b)));
    order
}

/// The elements of a sequence stand in the order of a relation.
pub open spec fn in_order<X>(s: Seq<X>, before: spec_fn(X, X) -> bool) -> bool {
    forall|i: int, j: int| #![trigger s[i], s[j]] 0 <= i < j < s.len() ==> before(s[i], s[j])
}

/// Two sequences in the order of a relation that goes one way only are equal
/// where they hold the same elements.
pub proof fn lemma_order_is_unique<X>(a: Seq<X>, b: Seq<X>, before: spec_fn(X, X) -> bool)
    requires
        forall|x: X, y: X| #[trigger] before(x, y) ==> !before(y, x),
        in_order(a, before),
        in_order(b, before),
        forall|x: X| #[trigger] a.contains(x) <==> b.contains(x),
    ensures
        a == b,
    decreases a.len(),
{
    if a.len() == 0 {
        if b.len() > 0 {
            assert(b.contains(b[0]));
            assert(a.contains(b[0]));
        }
        assert(a =~= b);
    } else {
        assert(a.contains(a[0]));
        let j = choose|j: int| 0 <= j < b.len() && b[j] == a[0];
        assert(b.contains(b[0]));
        assert(a.contains(b[0]));
        let i = choose|i: int| 0 <= i < a.len() && a[i] == b[0];
        if j > 0 {
            assert(before(b[0], b[j]));
            if i > 0 {
                assert(before(a[0], a[i]));
            }
        }
        assert(a[0] == b[0]);
        let ra = a.skip(1);
        let rb = b.skip(1);
        assert forall|x: int, y: int| #![trigger ra[x], ra[y]] 0 <= x < y < ra.len() implies before(ra[x], ra[y]) by {
            assert(ra[x] == a[x + 1] && ra[y] == a[y + 1]);
        }
        assert forall|x: int, y: int| #![trigger rb[x], rb[y]] 0 <= x < y < rb.len() implies before(rb[x], rb[y]) by {
            assert(rb[x] == b[x + 1] && rb[y] == b[y + 1]);
        }
        assert forall|x: X| #[trigger] ra.contains(x) <==> rb.contains(x) by {
            lemma_rest_inside(a, b, before, x);
            lemma_rest_inside(b, a, before, x);
        }
        lemma_order_is_unique(ra, rb, before);
        assert(a =~= seq![a[0]] + ra);
        assert(b =~= seq![b[0]] + rb);
    }
}

/// What follows the first element of one sequence follows that of the other.
proof fn lemma_rest_inside<X>(a: Seq<X>, b: Seq<X>, before: spec_fn(X, X) -> bool, x: X)
    requires
        forall|x: X, y: X| #[trigger] before(x, y) ==> !before(y, x),
        in_order(a, before),
        a.len() > 0,
        b.len() > 0,
        a[0] == b[0],
        forall|x: X| #[trigger] a.contains(x) <==> b.contains(x),
    ensures
        a.skip(1).contains(x) ==> b.skip(1).contains(x),
{
    if a.skip(1).contains(x) {
        let i = choose|i: int| 0 <= i < a.skip(1).len() && a.skip(1)[i] == x;
        assert(a[i + 1] == x);
        assert(before(a[0], a[i + 1]));
        assert(a.contains(x));
        let j = choose|j: int| 0 <= j < b.len() && b[j] == x;
        assert(b.skip(1)[j - 1] == x);
    }
}

/// The stable order of some rows is the only one.
pub proof fn law_stable_order_is_unique(le: spec_fn(int, int) -> bool, lo: int, hi: int, a: Seq<usize>, b: Seq<usize>)
    requires
        stable_order(le, lo, hi, a),
        stable_order(le, lo, hi, b),
    ensures
        a == b,
{
    let before = |x: usize, y: usize| comes_first(le, x as int, y as int);
    lemma_order_is_unique(a, b, before);
}

} // verus!
