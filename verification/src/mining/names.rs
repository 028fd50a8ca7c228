//! Item names and their numbers.
//!
//! A scan works on numbers. Numbering the distinct names of a table in their
//! own order keeps every itemset, its support and the order of listings.

use vstd::prelude::*;
use crate::mining::itemset;
use crate::mining::level;
use crate::text;
use crate::text::{text_place, Placed};

verus! {

/// Item names in the order of strings.
pub open spec fn by_text() -> spec_fn(Seq<char>, Seq<char>) -> bool {
    |a: Seq<char>, b: Seq<char>| text::text_before(a, b)
}

/// The texts of a table of strings.
pub open spec fn text_rows(v: Seq<Vec<String>>) -> Seq<Seq<Seq<char>>> {
    Seq::new(v.len(), |i: int| text::texts(v[i]@))
}

/// A listing of named itemsets with their counts.
pub open spec fn text_listing(v: Seq<(Vec<String>, u64)>) -> Seq<(Seq<Seq<char>>, u64)> {
    Seq::new(v.len(), |i: int| (text::texts(v[i].0@), v[i].1))
}

/// The names of a list of numbers.
pub open spec fn named(names: Seq<Seq<char>>, s: Seq<usize>) -> Seq<Seq<char>> {
    Seq::new(s.len(), |i: int| names[s[i] as int])
}

/// Every number has a name.
pub open spec fn in_range(names: Seq<Seq<char>>, s: Seq<usize>) -> bool {
    forall|i: int| 0 <= i < s.len() ==> #[trigger] s[i] < names.len()
}

/// `ids` is the table `txns` with each name replaced by its number, where the
/// names are numbered in their own order.
pub open spec fn numbering(
    names: Seq<Seq<char>>,
    ids: Seq<Seq<usize>>,
    txns: Seq<Seq<Seq<char>>>,
) -> bool {
    &&& itemset::ascending(names, by_text())
    &&& names.len() <= usize::MAX
    &&& ids.len() == txns.len()
    &&& forall|t: int| 0 <= t < ids.len() ==> in_range(names, #[trigger] ids[t]) && txns[t] == named(names, ids[t])
    &&& level::numbered(ids, names.len())
}

/// Different numbers have different names, and the order is the same.
proof fn lemma_names_order(names: Seq<Seq<char>>, a: int, b: int)
    requires
        itemset::ascending(names, by_text()),
        0 <= a < names.len(),
        0 <= b < names.len(),
    ensures
        names[a] == names[b] <==> a == b,
        text::text_before(names[a], names[b]) <==> a < b,
{
    if a < b {
        assert(by_text()(names[a], names[b]));
        text::lemma_text_before_asym(names[a], names[b]);
    } else if b < a {
        assert(by_text()(names[b], names[a]));
        text::lemma_text_before_asym(names[b], names[a]);
    } else if text::text_before(names[a], names[a]) {
        text::lemma_text_before_asym(names[a], names[a]);
    }
}

proof fn lemma_named_contains(names: Seq<Seq<char>>, s: Seq<usize>, x: usize)
    requires
        itemset::ascending(names, by_text()),
        in_range(names, s),
        x < names.len(),
    ensures
        named(names, s).contains(names[x as int]) <==> s.contains(x),
{
    let n = named(names, s);
    if n.contains(names[x as int]) {
        let i = choose|i: int| 0 <= i < n.len() && n[i] == names[x as int];
        lemma_names_order(names, s[i] as int, x as int);
        assert(s[i] == x);
    }
    if s.contains(x) {
        let i = choose|i: int| 0 <= i < s.len() && s[i] == x;
        assert(n[i] == names[x as int]);
    }
}

proof fn lemma_named_holds(names: Seq<Seq<char>>, txn: Seq<usize>, s: Seq<usize>)
    requires
        itemset::ascending(names, by_text()),
        in_range(names, txn),
        in_range(names, s),
    ensures
        itemset::holds_all(named(names, txn), named(names, s)) <==> itemset::holds_all(txn, s),
{
    let a = named(names, txn);
    let b = named(names, s);
    if itemset::holds_all(a, b) {
        assert forall|i: int| 0 <= i < s.len() implies txn.contains(#[trigger] s[i]) by {
            assert(a.contains(b[i]));
            lemma_named_contains(names, txn, s[i]);
        }
    }
    if itemset::holds_all(txn, s) {
        assert forall|i: int| 0 <= i < b.len() implies a.contains(#[trigger] b[i]) by {
            assert(txn.contains(s[i]));
            lemma_named_contains(names, txn, s[i]);
        }
    }
}

proof fn lemma_named_support(
    names: Seq<Seq<char>>,
    ids: Seq<Seq<usize>>,
    txns: Seq<Seq<Seq<char>>>,
    s: Seq<usize>,
)
    requires
        itemset::ascending(names, by_text()),
        ids.len() == txns.len(),
        forall|t: int|
            0 <= t < ids.len() ==> in_range(names, #[trigger] ids[t]) && txns[t] == named(names, ids[t]),
        in_range(names, s),
    ensures
        itemset::support(txns, named(names, s)) == itemset::support(ids, s),
    decreases ids.len(),
{
    if ids.len() > 0 {
        let a = ids.drop_last();
        let b = txns.drop_last();
        assert forall|t: int| 0 <= t < a.len() implies in_range(names, #[trigger] a[t]) && b[t] == named(
            names,
            a[t],
        ) by {
            assert(a[t] == ids[t]);
        }
        lemma_named_support(names, a, b, s);
        assert(ids.last() == ids[ids.len() - 1]);
        lemma_named_holds(names, ids.last(), s);
    }
}

proof fn lemma_named_occurs(
    names: Seq<Seq<char>>,
    ids: Seq<Seq<usize>>,
    txns: Seq<Seq<Seq<char>>>,
    x: usize,
)
    requires
        numbering(names, ids, txns),
        x < names.len(),
    ensures
        itemset::occurs(txns, names[x as int]),
{
    assert(itemset::occurs(ids, x));
    let t = choose|t: int| 0 <= t < ids.len() && (#[trigger] ids[t]).contains(x);
    lemma_named_contains(names, ids[t], x);
    assert(txns[t].contains(names[x as int]));
}

/// The number of an occurring name.
proof fn lemma_occurring_number(
    names: Seq<Seq<char>>,
    ids: Seq<Seq<usize>>,
    txns: Seq<Seq<Seq<char>>>,
    y: Seq<char>,
) -> (x: usize)
    requires
        numbering(names, ids, txns),
        itemset::occurs(txns, y),
    ensures
        x < names.len(),
        names[x as int] == y,
{
    let t = choose|t: int| 0 <= t < txns.len() && (#[trigger] txns[t]).contains(y);
    let i = choose|i: int| 0 <= i < txns[t].len() && txns[t][i] == y;
    assert(in_range(names, ids[t]));
    assert(ids[t][i] < names.len());
    ids[t][i]
}

proof fn lemma_named_ascending(names: Seq<Seq<char>>, s: Seq<usize>)
    requires
        itemset::ascending(names, by_text()),
        in_range(names, s),
    ensures
        itemset::ascending(named(names, s), by_text()) <==> itemset::ascending(s, itemset::by_number()),
{
    let n = named(names, s);
    if itemset::ascending(n, by_text()) {
        assert forall|i: int, j: int| #![trigger s[i], s[j]] 0 <= i < j < s.len() implies itemset::by_number()(
            s[i],
            s[j],
        ) by {
            assert(by_text()(n[i], n[j]));
            lemma_names_order(names, s[i] as int, s[j] as int);
        }
    }
    if itemset::ascending(s, itemset::by_number()) {
        assert forall|i: int, j: int| #![trigger n[i], n[j]] 0 <= i < j < n.len() implies by_text()(n[i], n[j]) by {
            assert(itemset::by_number()(s[i], s[j]));
            lemma_names_order(names, s[i] as int, s[j] as int);
        }
    }
}

proof fn lemma_named_frequent(
    names: Seq<Seq<char>>,
    ids: Seq<Seq<usize>>,
    txns: Seq<Seq<Seq<char>>>,
    min: nat,
    s: Seq<usize>,
)
    requires
        numbering(names, ids, txns),
        in_range(names, s),
    ensures
        itemset::frequent(txns, min, by_text(), named(names, s)) <==> itemset::frequent(
            ids,
            min,
            itemset::by_number(),
            s,
        ),
{
    let n = named(names, s);
    lemma_named_support(names, ids, txns, s);
    lemma_named_ascending(names, s);
    assert forall|i: int| 0 <= i < n.len() implies itemset::occurs(txns, #[trigger] n[i]) by {
        lemma_named_occurs(names, ids, txns, s[i]);
    }
    assert forall|i: int| 0 <= i < s.len() implies itemset::occurs(ids, #[trigger] s[i]) by {}
}

/// A frequent itemset holds numbers in range only.
proof fn lemma_frequent_in_range(
    names: Seq<Seq<char>>,
    ids: Seq<Seq<usize>>,
    txns: Seq<Seq<Seq<char>>>,
    min: nat,
    s: Seq<usize>,
)
    requires
        numbering(names, ids, txns),
        itemset::frequent(ids, min, itemset::by_number(), s),
    ensures
        in_range(names, s),
{
    assert forall|i: int| 0 <= i < s.len() implies #[trigger] s[i] < names.len() by {
        assert(itemset::occurs(ids, s[i]));
    }
}

proof fn lemma_candidate_in_range(
    names: Seq<Seq<char>>,
    ids: Seq<Seq<usize>>,
    txns: Seq<Seq<Seq<char>>>,
    min: nat,
    s: Seq<usize>,
)
    requires
        numbering(names, ids, txns),
        itemset::candidate(ids, min, itemset::by_number(), s),
    ensures
        in_range(names, s),
{
    assert forall|i: int| 0 <= i < s.len() implies #[trigger] s[i] < names.len() by {
        let d = if i == 0 { 1int } else { 0int };
        let e = if i == 0 { 0int } else { i - 1 };
        let r = s.remove(d);
        assert(r[e] == s[i]);
        lemma_frequent_in_range(names, ids, txns, min, r);
    }
}

proof fn lemma_named_candidate(
    names: Seq<Seq<char>>,
    ids: Seq<Seq<usize>>,
    txns: Seq<Seq<Seq<char>>>,
    min: nat,
    s: Seq<usize>,
)
    requires
        numbering(names, ids, txns),
        in_range(names, s),
    ensures
        itemset::candidate(txns, min, by_text(), named(names, s)) <==> itemset::candidate(
            ids,
            min,
            itemset::by_number(),
            s,
        ),
{
    let n = named(names, s);
    lemma_named_ascending(names, s);
    assert forall|d: int| 0 <= d < s.len() implies n.remove(d) == named(names, #[trigger] s.remove(d)) && (
    itemset::frequent(txns, min, by_text(), n.remove(d)) <==> itemset::frequent(
        ids,
        min,
        itemset::by_number(),
        s.remove(d),
    )) by {
        assert(n.remove(d) =~= named(names, s.remove(d)));
        assert forall|i: int| 0 <= i < s.remove(d).len() implies #[trigger] s.remove(d)[i] < names.len() by {
            if i < d {
                assert(s.remove(d)[i] == s[i]);
            } else {
                assert(s.remove(d)[i] == s[i + 1]);
            }
        }
        lemma_named_frequent(names, ids, txns, min, s.remove(d));
    }
    if itemset::candidate(txns, min, by_text(), n) {
        assert forall|d: int| 0 <= d < s.len() implies itemset::frequent(
            ids,
            min,
            itemset::by_number(),
            #[trigger] s.remove(d),
        ) by {
            assert(itemset::frequent(txns, min, by_text(), n.remove(d)));
        }
    }
    if itemset::candidate(ids, min, itemset::by_number(), s) {
        assert forall|d: int| 0 <= d < n.len() implies itemset::frequent(
            txns,
            min,
            by_text(),
            #[trigger] n.remove(d),
        ) by {
            assert(itemset::frequent(ids, min, itemset::by_number(), s.remove(d)));
        }
    }
}

/// Occurring names have numbers.
proof fn lemma_numbers_of(
    names: Seq<Seq<char>>,
    ids: Seq<Seq<usize>>,
    txns: Seq<Seq<Seq<char>>>,
    y: Seq<Seq<char>>,
) -> (s: Seq<usize>)
    requires
        numbering(names, ids, txns),
        forall|i: int| 0 <= i < y.len() ==> itemset::occurs(txns, #[trigger] y[i]),
    ensures
        in_range(names, s),
        named(names, s) == y,
        s.len() == y.len(),
{
    let s = Seq::new(y.len(), |i: int| choose|x: usize| x < names.len() && #[trigger] names[x as int] == y[i]);
    assert forall|i: int| 0 <= i < y.len() implies #[trigger] s[i] < names.len() && names[s[i] as int] == y[i] by {
        let x = lemma_occurring_number(names, ids, txns, y[i]);
        assert(x < names.len() && names[x as int] == y[i]);
    }
    assert(named(names, s) =~= y);
    s
}

proof fn lemma_named_injective(names: Seq<Seq<char>>, a: Seq<usize>, b: Seq<usize>)
    requires
        itemset::ascending(names, by_text()),
        in_range(names, a),
        in_range(names, b),
        named(names, a) == named(names, b),
    ensures
        a == b,
{
    let n = named(names, a);
    assert(n.len() == a.len() && named(names, b).len() == b.len());
    assert forall|i: int| 0 <= i < a.len() implies a[i] == b[i] by {
        assert(n[i] == names[a[i] as int]);
        assert(named(names, b)[i] == names[b[i] as int]);
        lemma_names_order(names, a[i] as int, b[i] as int);
    }
    assert(a =~= b);
}

proof fn lemma_named_dict(names: Seq<Seq<char>>, a: Seq<usize>, b: Seq<usize>)
    requires
        itemset::ascending(names, by_text()),
        in_range(names, a),
        in_range(names, b),
        itemset::dict_before(a, b, itemset::by_number()),
    ensures
        itemset::dict_before(named(names, a), named(names, b), by_text()),
{
    let lt = itemset::by_number();
    let p = choose|p: int| #[trigger] itemset::agree(a, b, p) && p < a.len() && p < b.len() && lt(a[p], b[p]);
    let x = named(names, a);
    let y = named(names, b);
    lemma_names_order(names, a[p] as int, b[p] as int);
    assert(itemset::agree(x, y, p));
    assert(by_text()(x[p], y[p]));
}

/// The lists of `k` numbers below `m`.
spec fn lists_below(m: nat, k: nat) -> Set<Seq<usize>> {
    Set::new(|s: Seq<usize>| s.len() == k && forall|i: int| 0 <= i < s.len() ==> #[trigger] s[i] < m)
}

/// The lists that extend a member of `prev` by one number below `x`.
spec fn extended(prev: Set<Seq<usize>>, x: nat) -> Set<Seq<usize>> {
    Set::new(|s: Seq<usize>| s.len() > 0 && prev.contains(s.drop_last()) && s.last() < x)
}

proof fn lemma_extended_finite(prev: Set<Seq<usize>>, x: nat)
    requires
        prev.finite(),
        x <= usize::MAX,
    ensures
        extended(prev, x).finite(),
    decreases x,
{
    if x == 0 {
        assert(extended(prev, x) =~= Set::empty());
    } else {
        let y = (x - 1) as nat;
        lemma_extended_finite(prev, y);
        let f = |s: Seq<usize>| s.push(y as usize);
        prev.lemma_map_finite(f);
        let image = prev.map(f);
        assert forall|s: Seq<usize>| #[trigger] extended(prev, x).contains(s) implies extended(prev, y).union(
            image,
        ).contains(s) by {
            if s.last() == y {
                assert(f(s.drop_last()) =~= s);
                assert(image.contains(s));
            }
        }
        assert(extended(prev, x).subset_of(extended(prev, y).union(image)));
        vstd::set_lib::lemma_set_subset_finite(extended(prev, y).union(image), extended(prev, x));
    }
}

proof fn lemma_lists_below_finite(m: nat, k: nat)
    requires
        m <= usize::MAX,
    ensures
        lists_below(m, k).finite(),
    decreases k,
{
    if k == 0 {
        let only = Set::<Seq<usize>>::empty().insert(Seq::<usize>::empty());
        assert forall|s: Seq<usize>| lists_below(m, k).contains(s) implies only.contains(s) by {
            assert(s =~= Seq::<usize>::empty());
        }
        assert(lists_below(m, k).subset_of(only));
        vstd::set_lib::lemma_set_subset_finite(only, lists_below(m, k));
    } else {
        let prev = lists_below(m, (k - 1) as nat);
        lemma_lists_below_finite(m, (k - 1) as nat);
        lemma_extended_finite(prev, m);
        assert forall|s: Seq<usize>| #[trigger] lists_below(m, k).contains(s) implies extended(prev, m).contains(s) by {
            assert forall|i: int| 0 <= i < s.drop_last().len() implies #[trigger] s.drop_last()[i] < m by {
                assert(s.drop_last()[i] == s[i]);
            }
            assert(s.last() == s[s.len() - 1]);
        }
        assert(lists_below(m, k).subset_of(extended(prev, m)));
        vstd::set_lib::lemma_set_subset_finite(extended(prev, m), lists_below(m, k));
    }
}

/// Naming keeps the number of candidates and of frequent itemsets of each size.
proof fn lemma_named_counts(
    names: Seq<Seq<char>>,
    ids: Seq<Seq<usize>>,
    txns: Seq<Seq<Seq<char>>>,
    min: nat,
    k: nat,
)
    requires
        numbering(names, ids, txns),
    ensures
        itemset::candidate_set(txns, min, by_text(), k).len() == itemset::candidate_set(
            ids,
            min,
            itemset::by_number(),
            k,
        ).len(),
        itemset::level_set(txns, min, by_text(), k).len() == itemset::level_set(
            ids,
            min,
            itemset::by_number(),
            k,
        ).len(),
        itemset::candidate_set(txns, min, by_text(), k).finite(),
{
    let f = |s: Seq<usize>| named(names, s);
    let lists = lists_below(names.len(), k);
    lemma_lists_below_finite(names.len(), k);
    let ca = itemset::candidate_set(ids, min, itemset::by_number(), k);
    let cb = itemset::candidate_set(txns, min, by_text(), k);
    let la = itemset::level_set(ids, min, itemset::by_number(), k);
    let lb = itemset::level_set(txns, min, by_text(), k);
    assert forall|s: Seq<usize>| #[trigger] ca.contains(s) implies lists.contains(s) by {
        lemma_candidate_in_range(names, ids, txns, min, s);
    }
    assert forall|s: Seq<usize>| #[trigger] la.contains(s) implies lists.contains(s) by {
        lemma_frequent_in_range(names, ids, txns, min, s);
    }
    assert(ca.subset_of(lists) && la.subset_of(lists));
    vstd::set_lib::lemma_set_subset_finite(lists, ca);
    vstd::set_lib::lemma_set_subset_finite(lists, la);
    assert forall|a: Seq<usize>, b: Seq<usize>|
        ca.contains(a) && ca.contains(b) && #[trigger] f(a) == #[trigger] f(b) implies a == b by {
        lemma_named_injective(names, a, b);
    }
    assert forall|a: Seq<usize>, b: Seq<usize>|
        la.contains(a) && la.contains(b) && #[trigger] f(a) == #[trigger] f(b) implies a == b by {
        lemma_named_injective(names, a, b);
    }
    assert forall|y: Seq<Seq<char>>| ca.map(f).contains(y) <==> #[trigger] cb.contains(y) by {
        if ca.map(f).contains(y) {
            let s = choose|s: Seq<usize>| ca.contains(s) && y == f(s);
            lemma_named_candidate(names, ids, txns, min, s);
        }
        if cb.contains(y) {
            assert forall|i: int| 0 <= i < y.len() implies itemset::occurs(txns, #[trigger] y[i]) by {
                let d = if i == 0 { 1int } else { 0int };
                let e = if i == 0 { 0int } else { i - 1 };
                let r = y.remove(d);
                assert(itemset::frequent(txns, min, by_text(), r));
                assert(r[e] == y[i]);
                assert(itemset::occurs(txns, r[e]));
            }
            let s = lemma_numbers_of(names, ids, txns, y);
            lemma_named_candidate(names, ids, txns, min, s);
            assert(ca.contains(s) && y == f(s));
        }
    }
    assert(ca.map(f) =~= cb);
    assert forall|y: Seq<Seq<char>>| la.map(f).contains(y) <==> #[trigger] lb.contains(y) by {
        if la.map(f).contains(y) {
            let s = choose|s: Seq<usize>| la.contains(s) && y == f(s);
            lemma_named_frequent(names, ids, txns, min, s);
        }
        if lb.contains(y) {
            let s = lemma_numbers_of(names, ids, txns, y);
            lemma_named_frequent(names, ids, txns, min, s);
            assert(la.contains(s) && y == f(s));
        }
    }
    assert(la.map(f) =~= lb);
    vstd::set_lib::lemma_map_size(ca, cb, f);
    vstd::set_lib::lemma_map_size(la, lb, f);
}

proof fn lemma_named_few(
    names: Seq<Seq<char>>,
    ids: Seq<Seq<usize>>,
    txns: Seq<Seq<Seq<char>>>,
    min: nat,
    k: nat,
    cap: nat,
)
    requires
        numbering(names, ids, txns),
        itemset::few_candidates(ids, min, itemset::by_number(), k, cap),
    ensures
        itemset::few_candidates(txns, min, by_text(), k, cap),
{
    assert forall|j: nat| 2 <= j <= k implies (#[trigger] itemset::candidate_set(txns, min, by_text(), j)).finite()
        && itemset::candidate_set(txns, min, by_text(), j).len() < cap by {
        lemma_named_counts(names, ids, txns, min, j);
        assert(itemset::candidate_set(ids, min, itemset::by_number(), j).len() < cap);
    }
}

proof fn lemma_named_totals(
    names: Seq<Seq<char>>,
    ids: Seq<Seq<usize>>,
    txns: Seq<Seq<Seq<char>>>,
    min: nat,
    k: nat,
)
    requires
        numbering(names, ids, txns),
    ensures
        itemset::total_candidates(txns, min, by_text(), k) == itemset::total_candidates(
            ids,
            min,
            itemset::by_number(),
            k,
        ),
        itemset::scan_work(txns, min, by_text(), k) == itemset::scan_work(ids, min, itemset::by_number(), k),
    decreases k,
{
    if k > 1 {
        lemma_named_totals(names, ids, txns, min, (k - 1) as nat);
        lemma_named_counts(names, ids, txns, min, k);
        lemma_named_counts(names, ids, txns, min, (k - 1) as nat);
    }
}

/// Naming keeps the number of distinct items.
proof fn lemma_named_distinct(
    names: Seq<Seq<char>>,
    ids: Seq<Seq<usize>>,
    txns: Seq<Seq<Seq<char>>>,
    max: nat,
)
    requires
        numbering(names, ids, txns),
    ensures
        itemset::size_limit(txns, max) == itemset::size_limit(ids, max),
{
    let a = Set::new(|x: usize| itemset::occurs(ids, x));
    let b = Set::new(|y: Seq<char>| itemset::occurs(txns, y));
    let all = Seq::new(names.len(), |i: int| i as usize);
    assert(all.no_duplicates());
    all.unique_seq_to_set();
    assert forall|x: usize| all.to_set().contains(x) <==> #[trigger] a.contains(x) by {
        if x < names.len() {
            assert(all[x as int] == x);
        }
    }
    assert(all.to_set() =~= a);
    assert(names.no_duplicates()) by {
        assert forall|i: int, j: int| 0 <= i < names.len() && 0 <= j < names.len() && i != j implies names[i]
            != names[j] by {
            lemma_names_order(names, i, j);
        }
    }
    names.unique_seq_to_set();
    assert forall|y: Seq<char>| names.to_set().contains(y) <==> #[trigger] b.contains(y) by {
        if names.contains(y) {
            let i = choose|i: int| 0 <= i < names.len() && names[i] == y;
            lemma_named_occurs(names, ids, txns, i as usize);
        }
        if itemset::occurs(txns, y) {
            let x = lemma_occurring_number(names, ids, txns, y);
            assert(names[x as int] == y);
        }
    }
    assert(names.to_set() =~= b);
}

/// Naming carries a listing over.
proof fn lemma_named_listing(
    names: Seq<Seq<char>>,
    ids: Seq<Seq<usize>>,
    txns: Seq<Seq<Seq<char>>>,
    min: nat,
    out: Seq<(Seq<usize>, u64)>,
    named_out: Seq<(Seq<Seq<char>>, u64)>,
    k: nat,
)
    requires
        numbering(names, ids, txns),
        itemset::lists_upto(ids, min, itemset::by_number(), out, k),
        named_out.len() == out.len(),
        forall|i: int|
            0 <= i < out.len() ==> #[trigger] named_out[i] == (named(names, out[i].0), out[i].1),
    ensures
        itemset::lists_upto(txns, min, by_text(), named_out, k),
{
    assert forall|i: int| #![trigger out[i]] 0 <= i < out.len() implies in_range(names, out[i].0) by {
        lemma_frequent_in_range(names, ids, txns, min, out[i].0);
    }
    assert forall|i: int, j: int|
        #![trigger named_out[i], named_out[j]]
        0 <= i < j < named_out.len() implies itemset::listed_before(named_out[i].0, named_out[j].0, by_text()) by {
        assert(itemset::listed_before(out[i].0, out[j].0, itemset::by_number()));
        if out[i].0.len() == out[j].0.len() {
            lemma_named_dict(names, out[i].0, out[j].0);
        }
    }
    assert forall|i: int|
        #![trigger named_out[i]]
        0 <= i < named_out.len() implies itemset::frequent(txns, min, by_text(), named_out[i].0)
        && named_out[i].0.len() <= k && named_out[i].1 == itemset::support(txns, named_out[i].0) by {
        lemma_named_frequent(names, ids, txns, min, out[i].0);
        lemma_named_support(names, ids, txns, out[i].0);
    }
    assert forall|y: Seq<Seq<char>>| #[trigger]
        itemset::frequent(txns, min, by_text(), y) && y.len() <= k implies itemset::is_listed(named_out, y) by {
        let s = lemma_numbers_of(names, ids, txns, y);
        lemma_named_frequent(names, ids, txns, min, s);
        assert(itemset::is_listed(out, s));
        let i = choose|i: int| 0 <= i < out.len() && (#[trigger] out[i]).0 == s;
        assert(named_out[i].0 == y);
    }
}

/// A scan lists numbers that have names.
pub proof fn lemma_scan_in_range(
    names: Seq<Seq<char>>,
    ids: Seq<Seq<usize>>,
    txns: Seq<Seq<Seq<char>>>,
    min: nat,
    max: nat,
    cap: nat,
    interval: nat,
    out: Seq<(Seq<usize>, u64)>,
    candidates: nat,
    stop: Option<nat>,
    truncated: bool,
    i: int,
)
    requires
        numbering(names, ids, txns),
        itemset::scanned(
            ids,
            min,
            max,
            itemset::by_number(),
            cap,
            interval,
            out,
            candidates,
            stop,
            truncated,
        ),
        0 <= i < out.len(),
    ensures
        in_range(names, out[i].0),
{
    lemma_frequent_in_range(names, ids, txns, min, out[i].0);
}

/// What a scan found over numbers, it found over names.
pub proof fn lemma_named_scan(
    names: Seq<Seq<char>>,
    ids: Seq<Seq<usize>>,
    txns: Seq<Seq<Seq<char>>>,
    min: nat,
    max: nat,
    cap: nat,
    interval: nat,
    out: Seq<(Seq<usize>, u64)>,
    named_out: Seq<(Seq<Seq<char>>, u64)>,
    candidates: nat,
    stop: Option<nat>,
    truncated: bool,
)
    requires
        numbering(names, ids, txns),
        itemset::scanned(
            ids,
            min,
            max,
            itemset::by_number(),
            cap,
            interval,
            out,
            candidates,
            stop,
            truncated,
        ),
        named_out.len() == out.len(),
        forall|i: int|
            0 <= i < out.len() ==> #[trigger] named_out[i] == (named(names, out[i].0), out[i].1),
    ensures
        itemset::scanned(
            txns,
            min,
            max,
            by_text(),
            cap,
            interval,
            named_out,
            candidates,
            stop,
            truncated,
        ),
        itemset::scan_work(txns, min, by_text(), itemset::size_limit(txns, max)) == itemset::scan_work(
            ids,
            min,
            itemset::by_number(),
            itemset::size_limit(ids, max),
        ),
{
    let lt = itemset::by_number();
    lemma_named_distinct(names, ids, txns, max);
    let limit = itemset::size_limit(txns, max);
    lemma_named_totals(names, ids, txns, min, limit);
    if stop is None && !truncated {
        lemma_named_listing(names, ids, txns, min, out, named_out, limit);
        lemma_named_few(names, ids, txns, min, limit, cap);
    }
    if truncated {
        let k = choose|k: nat|
            1 <= k < limit && #[trigger] itemset::lists_upto(ids, min, lt, out, k) && candidates
                == itemset::total_candidates(ids, min, lt, k) && itemset::few_candidates(
                ids,
                min,
                lt,
                k,
                cap,
            ) && itemset::many_candidates(
                ids,
                min,
                lt,
                k + 1,
                cap,
            );
        lemma_named_few(names, ids, txns, min, k, cap);
        lemma_named_listing(names, ids, txns, min, out, named_out, k);
        lemma_named_totals(names, ids, txns, min, k);
        let found = choose|found: Seq<Seq<usize>>|
            #![trigger found.no_duplicates()]
            found.no_duplicates() && found.len() == cap && forall|i: int|
                0 <= i < cap ==> itemset::candidate(ids, min, lt, #[trigger] found[i]) && found[i].len() == k + 1;
        let named_found = Seq::new(cap, |i: int| named(names, found[i]));
        assert forall|i: int| 0 <= i < cap implies itemset::candidate(
            txns,
            min,
            by_text(),
            #[trigger] named_found[i],
        ) && named_found[i].len() == k + 1 by {
            lemma_candidate_in_range(names, ids, txns, min, found[i]);
            lemma_named_candidate(names, ids, txns, min, found[i]);
        }
        assert(named_found.no_duplicates()) by {
            assert forall|i: int, j: int| 0 <= i < cap && 0 <= j < cap && i != j implies named_found[i]
                != named_found[j] by {
                lemma_candidate_in_range(names, ids, txns, min, found[i]);
                lemma_candidate_in_range(names, ids, txns, min, found[j]);
                if named_found[i] == named_found[j] {
                    lemma_named_injective(names, found[i], found[j]);
                }
            }
        }
        assert(itemset::many_candidates(txns, min, by_text(), k + 1, cap));
    }
    if let Some(unit) = stop {
        let k = choose|k: nat|
            1 <= k < limit && #[trigger] itemset::stopped_at(ids, min, lt, cap, out, candidates, k, unit);
        lemma_named_few(names, ids, txns, min, k, cap);
        lemma_named_listing(names, ids, txns, min, out, named_out, k);
        lemma_named_totals(names, ids, txns, min, k);
        lemma_named_totals(names, ids, txns, min, k + 1);
        lemma_named_counts(names, ids, txns, min, k);
        if unit > itemset::scan_work(ids, min, lt, k) + itemset::level_set(ids, min, lt, k).len() {
            lemma_named_few(names, ids, txns, min, k + 1, cap);
        }
        assert(itemset::stopped_at(txns, min, by_text(), cap, named_out, candidates, k, unit));
    }
}

/// Finds where a name stands, or belongs, in an ascending list.
pub fn find_name(names: &Vec<String>, item: &str) -> (r: (bool, usize))
    requires
        itemset::ascending(text::texts(names@), by_text()),
    ensures
        r.1 <= names@.len(),
        r.0 ==> r.1 < names@.len() && names@[r.1 as int]@ == item@,
        r.0 == text::texts(names@).contains(item@),
        !r.0 ==> {
            &&& forall|i: int| 0 <= i < r.1 ==> text::text_before((#[trigger] names@[i])@, item@)
            &&& forall|i: int| r.1 <= i < names@.len() ==> text::text_before(item@, (#[trigger] names@[i])@)
        },
{
    let ghost view = text::texts(names@);
    let mut lo: usize = 0;
    let mut hi: usize = names.len();
    while lo < hi
        invariant
            view == text::texts(names@),
            itemset::ascending(view, by_text()),
            lo <= hi <= names@.len(),
            forall|i: int| 0 <= i < lo ==> text::text_before((#[trigger] names@[i])@, item@),
            forall|i: int| hi <= i < names@.len() ==> text::text_before(item@, (#[trigger] names@[i])@),
        decreases hi - lo,
    {
        let mid: usize = lo + (hi - lo) / 2;
        match text_place(names[mid].as_str(), item) {
            Placed::Same => {
                assert(view[mid as int] == item@);
                return (true, mid);
            },
            Placed::Before => {
                proof {
                    assert forall|i: int| 0 <= i < mid + 1 implies text::text_before((#[trigger] names@[i])@, item@) by {
                        if i < mid {
                            assert(by_text()(view[i], view[mid as int]));
                            text::lemma_text_before_trans(view[i], view[mid as int], item@);
                        }
                    }
                }
                lo = mid + 1;
            },
            Placed::After => {
                proof {
                    assert forall|i: int| mid <= i < names@.len() implies text::text_before(
                        item@,
                        (#[trigger] names@[i])@,
                    ) by {
                        if i > mid {
                            assert(by_text()(view[mid as int], view[i]));
                            text::lemma_text_before_trans(item@, view[mid as int], view[i]);
                        }
                    }
                }
                hi = mid;
            },
        }
    }
    proof {
        assert forall|i: int| 0 <= i < view.len() implies view[i] != item@ by {
            assert(view[i] == names@[i]@);
            if i < lo {
                text::lemma_text_before_asym(view[i], item@);
            } else {
                text::lemma_text_before_asym(item@, view[i]);
            }
        }
    }
    (false, lo)
}

/// Puts a name into an ascending list unless it stands there already.
pub fn insert_name(names: &mut Vec<String>, item: &str)
    requires
        itemset::ascending(text::texts(old(names)@), by_text()),
    ensures
        itemset::ascending(text::texts(final(names)@), by_text()),
        forall|y: Seq<char>| #[trigger]
            text::texts(final(names)@).contains(y) <==> text::texts(old(names)@).contains(y) || y == item@,
{
    let ghost before = text::texts(names@);
    let (found, at) = find_name(names, item);
    if found {
        assert(before[at as int] == item@);
    } else {
        names.insert(at, item.to_owned());
        proof {
            let after = text::texts(names@);
            assert(after =~= before.insert(at as int, item@));
            assert forall|i: int, j: int|
                #![trigger after[i], after[j]]
                0 <= i < j < after.len() implies by_text()(after[i], after[j]) by {
                let a = if i < at { i } else { i - 1 };
                let b = if j < at { j } else { j - 1 };
                if i != at && j != at {
                    assert(after[i] == before[a] && after[j] == before[b]);
                    assert(by_text()(before[a], before[b]));
                } else if i == at {
                    assert(after[j] == before[b]);
                    assert(text::text_before(item@, before[b]));
                } else {
                    assert(after[i] == before[a]);
                    assert(text::text_before(before[a], item@));
                }
            }
            assert forall|y: Seq<char>| #[trigger] after.contains(y) <==> before.contains(y) || y == item@ by {
                if before.contains(y) {
                    let i = choose|i: int| 0 <= i < before.len() && before[i] == y;
                    assert(after[if i < at { i } else { i + 1 }] == y);
                }
                if y == item@ {
                    assert(after[at as int] == y);
                }
                if after.contains(y) {
                    let i = choose|i: int| 0 <= i < after.len() && after[i] == y;
                    if i < at {
                        assert(before[i] == y);
                    } else if i > at {
                        assert(before[i - 1] == y);
                    }
                }
            }
        }
    }
}

/// The distinct names of a table, in order.
fn collect_names(txns: &Vec<Vec<String>>) -> (names: Vec<String>)
    ensures
        itemset::ascending(text::texts(names@), by_text()),
        forall|y: Seq<char>| #[trigger]
            text::texts(names@).contains(y) <==> itemset::occurs(text_rows(txns@), y),
{
    let ghost table = text_rows(txns@);
    let mut names: Vec<String> = Vec::new();
    let mut t: usize = 0;
    while t < txns.len()
        invariant
            table == text_rows(txns@),
            t <= txns@.len(),
            itemset::ascending(text::texts(names@), by_text()),
            forall|y: Seq<char>| #[trigger]
                text::texts(names@).contains(y) <==> itemset::occurs(table.take(t as int), y),
        decreases txns.len() - t,
    {
        let txn: &Vec<String> = &txns[t];
        let ghost row = text::texts(txn@);
        assert(table[t as int] == row);
        let ghost done = table.take(t as int);
        let mut j: usize = 0;
        while j < txn.len()
            invariant
                j <= txn@.len(),
                row == text::texts(txn@),
                itemset::ascending(text::texts(names@), by_text()),
                forall|y: Seq<char>| #[trigger]
                    text::texts(names@).contains(y) <==> itemset::occurs(done, y) || row.take(j as int).contains(y),
            decreases txn.len() - j,
        {
            let ghost shorter = row.take(j as int);
            let ghost longer = row.take(j + 1);
            proof {
                assert(longer =~= shorter.push(row[j as int]));
                assert forall|y: Seq<char>| #[trigger] longer.contains(y) <==> shorter.contains(y) || y
                    == row[j as int] by {
                    if shorter.contains(y) {
                        let i = choose|i: int| 0 <= i < shorter.len() && shorter[i] == y;
                        assert(longer[i] == y);
                    }
                    assert(longer[j as int] == row[j as int]);
                }
            }
            insert_name(&mut names, txn[j].as_str());
            j = j + 1;
        }
        proof {
            assert(row.take(txn@.len() as int) =~= row);
            let next = table.take(t + 1);
            assert forall|y: Seq<char>| #[trigger] itemset::occurs(next, y) <==> itemset::occurs(done, y)
                || row.contains(y) by {
                if itemset::occurs(next, y) {
                    let u = choose|u: int| 0 <= u < next.len() && (#[trigger] next[u]).contains(y);
                    if u < t {
                        assert(done[u] == next[u]);
                    }
                }
                if itemset::occurs(done, y) {
                    let u = choose|u: int| 0 <= u < done.len() && (#[trigger] done[u]).contains(y);
                    assert(next[u] == done[u]);
                }
                if row.contains(y) {
                    assert(next[t as int] == row);
                }
            }
        }
        t = t + 1;
    }
    assert(table.take(txns@.len() as int) =~= table);
    names
}

/// Numbers the items of a table in the order of their names.
pub fn number_items(txns: &Vec<Vec<String>>) -> (r: (Vec<String>, Vec<Vec<usize>>))
    requires
        forall|t: int| 0 <= t < txns@.len() ==> itemset::ascending(#[trigger] text_rows(txns@)[t], by_text()),
    ensures
        numbering(text::texts(r.0@), level::rows(r.1@), text_rows(txns@)),
{
    let names: Vec<String> = collect_names(txns);
    let count: usize = names.len();
    let ghost all = text::texts(names@);
    let ghost table = text_rows(txns@);
    let mut ids: Vec<Vec<usize>> = Vec::new();
    let mut t: usize = 0;
    while t < txns.len()
        invariant
            all == text::texts(names@),
            table == text_rows(txns@),
            itemset::ascending(all, by_text()),
            forall|y: Seq<char>| #[trigger] all.contains(y) <==> itemset::occurs(table, y),
            t <= txns@.len(),
            ids@.len() == t,
            forall|u: int|
                0 <= u < t ==> in_range(all, (#[trigger] ids@[u])@) && table[u] == named(all, ids@[u]@),
        decreases txns.len() - t,
    {
        let txn: &Vec<String> = &txns[t];
        let ghost row = text::texts(txn@);
        assert(table[t as int] == row);
        proof {
            assert forall|y: Seq<char>| #[trigger] row.contains(y) implies all.contains(y) by {
                assert(table[t as int].contains(y));
                assert(itemset::occurs(table, y));
            }
        }
        let mut list: Vec<usize> = Vec::new();
        let mut j: usize = 0;
        while j < txn.len()
            invariant
                all == text::texts(names@),
                itemset::ascending(all, by_text()),
                row == text::texts(txn@),
                forall|y: Seq<char>| #[trigger] row.contains(y) ==> all.contains(y),
                j <= txn@.len(),
                list@.len() == j,
                forall|i: int| 0 <= i < j ==> #[trigger] list@[i] < all.len() && all[list@[i] as int] == row[i],
            decreases txn.len() - j,
        {
            assert(row.contains(row[j as int]));
            let (_found, at) = find_name(&names, txn[j].as_str());
            list.push(at);
            j = j + 1;
        }
        assert(named(all, list@) =~= row);
        ids.push(list);
        t = t + 1;
    }
    proof {
        let rows = level::rows(ids@);
        assert forall|u: int| 0 <= u < rows.len() implies in_range(all, #[trigger] rows[u]) && table[u] == named(
            all,
            rows[u],
        ) && itemset::ascending(rows[u], itemset::by_number()) by {
            assert(rows[u] == ids@[u]@);
            lemma_named_ascending(all, rows[u]);
        }
        assert forall|x: usize| #[trigger] itemset::occurs(rows, x) <==> x < all.len() by {
            if itemset::occurs(rows, x) {
                let u = choose|u: int| 0 <= u < rows.len() && (#[trigger] rows[u]).contains(x);
                let i = choose|i: int| 0 <= i < rows[u].len() && rows[u][i] == x;
                assert(in_range(all, rows[u]));
                assert(rows[u][i] < all.len());
            }
            if x < all.len() {
                assert(all.contains(all[x as int]));
                let u = choose|u: int| 0 <= u < table.len() && (#[trigger] table[u]).contains(all[x as int]);
                assert(in_range(all, rows[u]));
                lemma_named_contains(all, rows[u], x);
                assert(rows[u].contains(x));
            }
        }
    }
    (names, ids)
}

} // verus!
