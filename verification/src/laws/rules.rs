//! What a listing of itemsets and the rules drawn from it are.

use vstd::prelude::*;
use crate::assoc_rules;
use crate::assoc_rules::{
    apriori, assoc_rules_from_json, cancel_check, order_rules, parse_transactions, AssocResult, Measures, Rule, RuleView,
};
use crate::bits;
use crate::laws::counting;
use crate::laws::reals;
use crate::mining;
use crate::mining::itemset;
use crate::mining::listing;
use crate::mining::names;
use crate::text;

verus! {

/// The texts that a list holds.
pub open spec fn items_of(v: Seq<String>) -> Set<Seq<char>> {
    Set::new(|x: Seq<char>| exists|i: int| 0 <= i < v.len() && #[trigger] v[i]@ == x)
}

/// Transaction `t` holds all of the items.
pub open spec fn holding(transactions: Seq<Vec<String>>, items: Set<Seq<char>>) -> spec_fn(int) -> bool {
    |t: int| items.subset_of(items_of(transactions[t]@))
}

/// How many of the transactions hold all of the items.
pub open spec fn held_by(transactions: Seq<Vec<String>>, items: Set<Seq<char>>) -> nat {
    counting::places(transactions.len(), holding(transactions, items)).len()
}

/// What is listed is listed once, with the number of transactions that hold it,
/// which is not below the wanted one.
pub open spec fn listing_is_right(transactions: Seq<Vec<String>>, min: nat, listing: Seq<(Vec<String>, u64)>) -> bool {
    &&& forall|i: int|
        #![trigger listing[i]]
        0 <= i < listing.len() ==> listing[i].0@.len() > 0 && items_of(listing[i].0@).len() == listing[i].0@.len()
            && listing[i].1 == held_by(transactions, items_of(listing[i].0@)) && listing[i].1 >= min
    &&& forall|i: int, j: int|
        #![trigger listing[i], listing[j]]
        0 <= i < j < listing.len() ==> items_of(listing[i].0@) != items_of(listing[j].0@)
}

/// The items stand in the listing.
pub open spec fn has_items(listing: Seq<(Vec<String>, u64)>, items: Set<Seq<char>>) -> bool {
    exists|i: int| 0 <= i < listing.len() && items_of((#[trigger] listing[i]).0@) == items
}

/// Whatever enough transactions hold is listed, up to the given size (any, for 0).
pub open spec fn listing_is_complete(
    transactions: Seq<Vec<String>>,
    min: nat,
    size: nat,
    listing: Seq<(Vec<String>, u64)>,
) -> bool {
    forall|items: Set<Seq<char>>|
        #![trigger held_by(transactions, items)]
        items.finite() && items.len() > 0 && (size == 0 || items.len() <= size) && held_by(transactions, items) >= min
            ==> has_items(listing, items)
}

/// The texts of a list are a finite set.
pub proof fn lemma_items(v: Seq<String>)
    ensures
        items_of(v) == text::texts(v).to_set(),
        items_of(v).finite(),
{
    let s = text::texts(v);
    assert forall|x: Seq<char>| items_of(v).contains(x) <==> s.to_set().contains(x) by {
        if items_of(v).contains(x) {
            let i = choose|i: int| 0 <= i < v.len() && #[trigger] v[i]@ == x;
            assert(s[i] == x);
        }
        if s.contains(x) {
            let i = choose|i: int| 0 <= i < s.len() && s[i] == x;
            assert(v[i]@ == x);
        }
    }
    assert(items_of(v) =~= s.to_set());
    vstd::seq_lib::seq_to_set_is_finite(s);
}

/// Texts in ascending order are all different.
pub proof fn lemma_ascending_is_distinct(s: Seq<Seq<char>>)
    requires
        itemset::ascending(s, names::by_text()),
    ensures
        s.no_duplicates(),
        s.to_set().len() == s.len(),
{
    assert forall|i: int, j: int| 0 <= i < s.len() && 0 <= j < s.len() && i != j implies s[i] != s[j] by {
        let (a, b) = if i < j {
            (i, j)
        } else {
            (j, i)
        };
        assert(names::by_text()(s[a], s[b]));
        text::lemma_text_before_asym(s[a], s[b]);
    }
    s.unique_seq_to_set();
}

proof fn lemma_support(transactions: Seq<Vec<String>>, s: Seq<Seq<char>>, n: nat)
    requires
        n <= transactions.len(),
    ensures
        itemset::support(names::text_rows(transactions).take(n as int), s) == counting::places(
            n,
            holding(transactions, s.to_set()),
        ).len(),
    decreases n,
{
    let rows = names::text_rows(transactions);
    let f = holding(transactions, s.to_set());
    if n == 0 {
        counting::lemma_no_place(f);
    } else {
        let m = (n - 1) as nat;
        lemma_support(transactions, s, m);
        counting::lemma_one_more(m, f);
        assert(rows.take(n as int).drop_last() =~= rows.take(m as int));
        let txn = rows[m as int];
        assert(txn == text::texts(transactions[m as int]@));
        lemma_items(transactions[m as int]@);
        assert(itemset::holds_all(txn, s) == f(m as int)) by {
            if itemset::holds_all(txn, s) {
                assert forall|x: Seq<char>| s.to_set().contains(x) implies items_of(transactions[m as int]@).contains(
                    x,
                ) by {
                    let i = choose|i: int| 0 <= i < s.len() && s[i] == x;
                    assert(txn.contains(s[i]));
                }
            }
            if f(m as int) {
                assert forall|i: int| 0 <= i < s.len() implies txn.contains(#[trigger] s[i]) by {
                    assert(s.to_set().contains(s[i]));
                    assert(items_of(transactions[m as int]@).contains(s[i]));
                }
            }
        }
    }
}

proof fn lemma_support_is_held(transactions: Seq<Vec<String>>, s: Seq<Seq<char>>)
    ensures
        itemset::support(names::text_rows(transactions), s) == held_by(transactions, s.to_set()),
{
    lemma_support(transactions, s, transactions.len());
    assert(names::text_rows(transactions).take(transactions.len() as int) =~= names::text_rows(transactions));
}

proof fn lemma_put_in_order(s: Seq<Seq<char>>, x: Seq<char>) -> (r: Seq<Seq<char>>)
    requires
        itemset::ascending(s, names::by_text()),
        !s.contains(x),
    ensures
        itemset::ascending(r, names::by_text()),
        r.to_set() == s.to_set().insert(x),
    decreases s.len(),
{
    if s.len() == 0 {
        let r = seq![x];
        assert(r.to_set() =~= s.to_set().insert(x)) by {
            assert(r[0] == x);
        }
        r
    } else {
        let last = s.last();
        let rest = s.drop_last();
        assert(s[s.len() - 1] == last);
        text::lemma_text_before_total(last, x);
        if text::text_before(last, x) {
            let r = s.push(x);
            assert forall|i: int, j: int| #![trigger r[i], r[j]] 0 <= i < j < r.len() implies names::by_text()(
                r[i],
                r[j],
            ) by {
                if j == s.len() && i < s.len() - 1 {
                    assert(names::by_text()(s[i], s[s.len() - 1]));
                    text::lemma_text_before_trans(s[i], last, x);
                }
            }
            assert(r.to_set() =~= s.to_set().insert(x)) by {
                assert forall|y: Seq<char>| r.to_set().contains(y) <==> s.to_set().insert(x).contains(y) by {
                    lemma_push_has(s, x, y);
                }
            }
            r
        } else {
            assert forall|i: int, j: int| #![trigger rest[i], rest[j]] 0 <= i < j < rest.len() implies names::by_text()(
                rest[i],
                rest[j],
            ) by {
                assert(rest[i] == s[i] && rest[j] == s[j]);
            }
            if rest.contains(x) {
                let i = choose|i: int| 0 <= i < rest.len() && rest[i] == x;
                assert(s[i] == x);
            }
            let before = lemma_put_in_order(rest, x);
            let r = before.push(last);
            assert forall|i: int, j: int| #![trigger r[i], r[j]] 0 <= i < j < r.len() implies names::by_text()(
                r[i],
                r[j],
            ) by {
                if j == before.len() {
                    assert(before.to_set().contains(before[i]));
                    if before[i] != x {
                        let k = choose|k: int| 0 <= k < rest.len() && rest[k] == before[i];
                        assert(names::by_text()(s[k], s[s.len() - 1]));
                    }
                } else {
                    assert(r[i] == before[i] && r[j] == before[j]);
                }
            }
            assert(s =~= rest.push(last));
            assert(r.to_set() =~= s.to_set().insert(x)) by {
                assert forall|y: Seq<char>| r.to_set().contains(y) <==> s.to_set().insert(x).contains(y) by {
                    lemma_push_has(before, last, y);
                    lemma_push_has(rest, last, y);
                    assert(before.to_set().contains(y) <==> rest.to_set().insert(x).contains(y));
                }
            }
            r
        }
    }
}

proof fn lemma_push_has(s: Seq<Seq<char>>, x: Seq<char>, y: Seq<char>)
    ensures
        s.push(x).contains(y) <==> s.contains(y) || y == x,
{
    if s.contains(y) {
        let i = choose|i: int| 0 <= i < s.len() && s[i] == y;
        assert(s.push(x)[i] == y);
    }
    assert(s.push(x)[s.len() as int] == x);
    if s.push(x).contains(y) {
        let i = choose|i: int| 0 <= i < s.push(x).len() && s.push(x)[i] == y;
        if i < s.len() {
            assert(s[i] == y);
        }
    }
}

/// The texts of any finite set can be put in order.
pub proof fn lemma_in_order(items: Set<Seq<char>>) -> (r: Seq<Seq<char>>)
    requires
        items.finite(),
    ensures
        itemset::ascending(r, names::by_text()),
        r.to_set() == items,
    decreases items.len(),
{
    if items.len() == 0 {
        let r = Seq::<Seq<char>>::empty();
        assert(items =~= Set::empty());
        assert(r.to_set() =~= items);
        r
    } else {
        let x = items.choose();
        let s = lemma_in_order(items.remove(x));
        if s.contains(x) {
            assert(s.to_set().contains(x));
        }
        let r = lemma_put_in_order(s, x);
        assert(r.to_set() =~= items);
        r
    }
}

proof fn lemma_listing_is_right(transactions: Seq<Vec<String>>, min: nat, listing: Seq<(Vec<String>, u64)>, k: nat)
    requires
        itemset::lists_upto(
            names::text_rows(transactions),
            min,
            names::by_text(),
            names::text_listing(listing),
            k,
        ),
    ensures
        listing_is_right(transactions, min, listing),
        forall|i: int| 0 <= i < listing.len() ==> (#[trigger] listing[i]).0@.len() <= k,
{
    let rows = names::text_rows(transactions);
    let out = names::text_listing(listing);
    assert forall|i: int| 0 <= i < listing.len() implies (#[trigger] listing[i]).0@.len() > 0 && items_of(
        listing[i].0@,
    ).len() == listing[i].0@.len() && listing[i].1 == held_by(transactions, items_of(listing[i].0@)) && listing[i].1
        >= min && listing[i].0@.len() <= k by {
        assert(out[i] == (text::texts(listing[i].0@), listing[i].1));
        assert(itemset::frequent(rows, min, names::by_text(), out[i].0));
        lemma_items(listing[i].0@);
        lemma_ascending_is_distinct(out[i].0);
        lemma_support_is_held(transactions, out[i].0);
    }
    assert forall|i: int, j: int|
        #![trigger listing[i], listing[j]]
        0 <= i < j < listing.len() implies items_of(listing[i].0@) != items_of(listing[j].0@) by {
        assert(out[i] == (text::texts(listing[i].0@), listing[i].1));
        assert(out[j] == (text::texts(listing[j].0@), listing[j].1));
        assert(itemset::listed_before(out[i].0, out[j].0, names::by_text()));
        assert(itemset::frequent(rows, min, names::by_text(), out[i].0));
        assert(itemset::frequent(rows, min, names::by_text(), out[j].0));
        lemma_items(listing[i].0@);
        lemma_items(listing[j].0@);
        if items_of(listing[i].0@) == items_of(listing[j].0@) {
            let (a, b) = (out[i].0, out[j].0);
            assert forall|y: Seq<char>| #[trigger] a.contains(y) <==> b.contains(y) by {
                assert(a.to_set().contains(y) <==> b.to_set().contains(y));
            }
            assoc_rules::lemma_itemset_unique(a, b);
            let p = choose|p: int| #[trigger]
                itemset::agree(a, b, p) && p < a.len() && p < b.len() && names::by_text()(a[p], b[p]);
            text::lemma_text_before_asym(a[p], b[p]);
        }
    }
}

proof fn lemma_listing_is_complete(
    transactions: Seq<Vec<String>>,
    min: nat,
    size: nat,
    listing: Seq<(Vec<String>, u64)>,
    candidates: nat,
    items: Set<Seq<char>>,
)
    requires
        assoc_rules::scanned_names(
            names::text_rows(transactions),
            min,
            size,
            names::text_listing(listing),
            candidates,
            None,
            false,
        ),
        min >= 1,
        items.finite(),
        items.len() > 0,
        size == 0 || items.len() <= size,
        held_by(transactions, items) >= min,
    ensures
        has_items(listing, items),
{
    let rows = names::text_rows(transactions);
    let out = names::text_listing(listing);
    let s = lemma_in_order(items);
    lemma_ascending_is_distinct(s);
    lemma_support_is_held(transactions, s);
    let f = holding(transactions, items);
    let places = counting::places(transactions.len(), f);
    counting::lemma_places_bound(transactions.len(), f);
    let t = places.choose();
    assert(places.contains(t)) by {
        if forall|x: int| !places.contains(x) {
            assert(places =~= Set::empty());
        }
    }
    assert forall|i: int| 0 <= i < s.len() implies itemset::occurs(rows, #[trigger] s[i]) by {
        assert(s.to_set().contains(s[i]));
        lemma_items(transactions[t]@);
        assert(items_of(transactions[t]@).contains(s[i]));
        assert(rows[t].contains(s[i]));
    }
    assert(itemset::frequent(rows, min, names::by_text(), s));
    if size == 0 {
        assert forall|a: Seq<char>| !#[trigger] names::by_text()(a, a) by {
            if text::text_before(a, a) {
                text::lemma_text_before_asym(a, a);
            }
        }
        mining::laws::law_uncapped_scan_lists_all(
            rows,
            min,
            names::by_text(),
            assoc_rules::MAX_CANDIDATES as nat,
            assoc_rules::CANCEL_CHECK_INTERVAL as nat,
            out,
            candidates,
            s,
        );
    }
    assert(itemset::is_listed(out, s));
    let i = choose|i: int| 0 <= i < out.len() && (#[trigger] out[i]).0 == s;
    lemma_items(listing[i].0@);
    assert(items_of(listing[i].0@) == items);
}

/// A scan lists itemsets with the number of transactions that hold them, each at
/// least as often as asked and no larger than asked. One that ran to its end lists
/// every such itemset.
pub proof fn law_listing_counts_transactions<F: Fn() -> bool>(
    transactions: &Vec<Vec<String>>,
    min_support_abs: u64,
    max_itemset_size: usize,
    truncated: &mut bool,
    requested: &F,
    r: (Vec<(Vec<String>, u64)>, u64, bool),
)
    requires
        call_ensures(apriori::<F>, (transactions, min_support_abs, max_itemset_size, truncated, requested), r),
        min_support_abs >= 1,
    ensures
        listing_is_right(transactions@, min_support_abs as nat, r.0@),
        max_itemset_size != 0 ==> forall|i: int|
            0 <= i < r.0@.len() ==> (#[trigger] r.0@[i]).0@.len() <= max_itemset_size,
        !r.2 && !*final(truncated) ==> listing_is_complete(
            transactions@,
            min_support_abs as nat,
            max_itemset_size as nat,
            r.0@,
        ),
{
    let rows = names::text_rows(transactions@);
    let out = names::text_listing(r.0@);
    let (min, max) = (min_support_abs as nat, max_itemset_size as nat);
    let (stop, cut) = choose|stop: Option<nat>, cut: bool|
        r.2 == (stop is Some) && *final(truncated) == (*old(truncated) || cut) && #[trigger] assoc_rules::scanned_names(
            rows,
            min,
            max,
            out,
            r.1 as nat,
            stop,
            cut,
        );
    lemma_scan_is_right(transactions@, min, max, r.0@, r.1 as nat, stop, cut);
}

proof fn lemma_scan_is_right(
    transactions: Seq<Vec<String>>,
    min: nat,
    max: nat,
    listing: Seq<(Vec<String>, u64)>,
    candidates: nat,
    stop: Option<nat>,
    cut: bool,
) -> (k: nat)
    requires
        assoc_rules::scanned_names(
            names::text_rows(transactions),
            min,
            max,
            names::text_listing(listing),
            candidates,
            stop,
            cut,
        ),
        min >= 1,
    ensures
        itemset::lists_upto(
            names::text_rows(transactions),
            min,
            names::by_text(),
            names::text_listing(listing),
            k,
        ),
        listing_is_right(transactions, min, listing),
        max != 0 ==> forall|i: int| 0 <= i < listing.len() ==> (#[trigger] listing[i]).0@.len() <= max,
        stop is None && !cut ==> listing_is_complete(transactions, min, max, listing),
{
    let rows = names::text_rows(transactions);
    let out = names::text_listing(listing);
    let lt = names::by_text();
    let cap = assoc_rules::MAX_CANDIDATES as nat;
    let limit = itemset::size_limit(rows, max);
    let k = if stop is Some {
        choose|k: nat|
            1 <= k < limit && #[trigger] itemset::stopped_at(rows, min, lt, cap, out, candidates, k, stop->0)
    } else if cut {
        choose|k: nat| 1 <= k < limit && #[trigger] itemset::lists_upto(rows, min, lt, out, k)
    } else {
        limit
    };
    lemma_listing_is_right(transactions, min, listing, k);
    if stop is None && !cut {
        assert forall|items: Set<Seq<char>>|
            #![trigger held_by(transactions, items)]
            items.finite() && items.len() > 0 && (max == 0 || items.len() <= max) && held_by(transactions, items)
                >= min implies has_items(listing, items) by {
            lemma_listing_is_complete(transactions, min, max, listing, candidates, items);
        }
    }
    k
}

/// The measures of a rule.
pub open spec fn measures_of(rule: Rule) -> Measures {
    Measures { support: rule.support, confidence: rule.confidence, lift: rule.lift }
}

/// The sides of a rule hold something each and nothing in common, and its measures
/// are those of the numbers of transactions that hold both sides, the antecedent
/// and the consequent. Its confidence does not lie below the wanted one.
pub open spec fn rule_is_right<M: Fn(u64, u64, u64, u64) -> Measures>(
    transactions: Seq<Vec<String>>,
    min_confidence: u64,
    measure: M,
    rule: Rule,
) -> bool {
    let a = items_of(rule.antecedent@);
    let b = items_of(rule.consequent@);
    &&& rule.antecedent@.len() > 0 && rule.consequent@.len() > 0
    &&& a.disjoint(b)
    &&& call_ensures(
        measure,
        (
            held_by(transactions, a.union(b)) as u64,
            held_by(transactions, a) as u64,
            held_by(transactions, b) as u64,
            transactions.len() as u64,
        ),
        measures_of(rule),
    )
    &&& reals::is_number(rule.confidence) && reals::is_number(min_confidence) ==> reals::value(rule.confidence)
        >= reals::value(min_confidence)
}

/// The first rule is more confident, or as confident and of more support, or in both
/// the same and of an antecedent no longer than the other's.
pub open spec fn may_precede(x: Rule, y: Rule) -> bool {
    ||| reals::value(x.confidence) > reals::value(y.confidence)
    ||| reals::value(x.confidence) == reals::value(y.confidence) && reals::value(x.support) > reals::value(y.support)
    ||| reals::value(x.confidence) == reals::value(y.confidence) && reals::value(x.support) == reals::value(y.support)
        && x.antecedent@.len() <= y.antecedent@.len()
}

/// The run can be read off its transactions: see the laws of listings and rules.
pub open spec fn is_mined<M: Fn(u64, u64, u64, u64) -> Measures>(
    transactions: Seq<Vec<String>>,
    floor: u64,
    min_confidence: u64,
    max_itemset_size: usize,
    measure: M,
    result: AssocResult,
) -> bool {
    &&& result.transactions == transactions.len()
    &&& listing_is_right(transactions, floor as nat, result.frequent_itemsets@)
    &&& max_itemset_size != 0 ==> forall|i: int|
        0 <= i < result.frequent_itemsets@.len() ==> (#[trigger] result.frequent_itemsets@[i]).0@.len()
            <= max_itemset_size
    &&& !result.cancelled && !result.truncated ==> listing_is_complete(
        transactions,
        floor as nat,
        max_itemset_size as nat,
        result.frequent_itemsets@,
    )
    &&& forall|k: int|
        0 <= k < result.rules@.len() ==> rule_is_right(transactions, min_confidence, measure, #[trigger] result.rules@[k])
    &&& forall|i: int, j: int|
        #![trigger result.rules@[i], result.rules@[j]]
        0 <= i < j < result.rules@.len() ==> may_precede(result.rules@[i], result.rules@[j])
}

proof fn lemma_picked_apart<T>(items: Seq<T>, mask: nat, x: T)
    requires
        items.no_duplicates(),
    ensures
        !(assoc_rules::picked(items, mask, true).contains(x) && assoc_rules::picked(items, mask, false).contains(x)),
    decreases items.len(),
{
    if items.len() > 0 {
        let rest = items.skip(1);
        assert(rest.no_duplicates());
        lemma_picked_apart(rest, mask / 2, x);
        mining::laws::lemma_cons_contains(items[0], assoc_rules::picked(rest, mask / 2, true), x);
        mining::laws::lemma_cons_contains(items[0], assoc_rules::picked(rest, mask / 2, false), x);
        if x == items[0] {
            if assoc_rules::picked(rest, mask / 2, true).contains(x) {
                mining::laws::lemma_picked_inside(rest, mask / 2, true, x);
            }
            if assoc_rules::picked(rest, mask / 2, false).contains(x) {
                mining::laws::lemma_picked_inside(rest, mask / 2, false, x);
            }
            if rest.contains(x) {
                let i = choose|i: int| 0 <= i < rest.len() && rest[i] == x;
                assert(items[i + 1] == x);
            }
        }
    }
}

proof fn lemma_listed_count(
    transactions: Seq<Vec<String>>,
    min: nat,
    listing: Seq<(Vec<String>, u64)>,
    k: nat,
    items: Seq<Seq<char>>,
)
    requires
        itemset::lists_upto(
            names::text_rows(transactions),
            min,
            names::by_text(),
            names::text_listing(listing),
            k,
        ),
        itemset::is_listed(names::text_listing(listing), items),
    ensures
        listing::listed_count(names::text_listing(listing), items) == Some(
            held_by(transactions, items.to_set()) as u64,
        ),
{
    let out = names::text_listing(listing);
    listing::lemma_last_place(out, items);
    let at = listing::listed_at(out, items);
    assert(out[at].0 == items && out[at].1 == itemset::support(names::text_rows(transactions), out[at].0));
    lemma_support_is_held(transactions, items);
}

proof fn lemma_rule_is_right<M: Fn(u64, u64, u64, u64) -> Measures, F: Fn() -> bool>(
    transactions: Seq<Vec<String>>,
    min: nat,
    listing: Seq<(Vec<String>, u64)>,
    k: nat,
    min_confidence: u64,
    measure: M,
    requested: F,
    emitted: Seq<RuleView>,
    cancelled: bool,
    place: int,
    rule: Rule,
)
    requires
        itemset::lists_upto(
            names::text_rows(transactions),
            min,
            names::by_text(),
            names::text_listing(listing),
            k,
        ),
        assoc_rules::generated(
            names::text_listing(listing),
            min_confidence,
            transactions.len() as u64,
            measure,
            requested,
            emitted,
            cancelled,
        ),
        0 <= place < emitted.len(),
        emitted[place] == rule@,
    ensures
        rule_is_right(transactions, min_confidence, measure, rule),
{
    let out = names::text_listing(listing);
    let n = transactions.len() as u64;
    let view = rule@;
    assert(assoc_rules::rule_answered(out, n, measure, emitted[place]));
    let (i, mask) = choose|i: int, mask: nat| #[trigger] assoc_rules::answered_by(out, n, measure, view, i, mask);
    let whole = out[i].0;
    assert(itemset::frequent(names::text_rows(transactions), min, names::by_text(), whole));
    lemma_ascending_is_distinct(whole);
    mining::laws::law_sides_are_listed(
        names::text_rows(transactions),
        min,
        names::by_text(),
        out,
        k,
        i,
        mask,
    );
    assoc_rules::lemma_two_to_monotone(0, whole.len());
    assert(whole.len() >= 2);
    mining::laws::law_rule_splits_are_proper(whole, mask);
    lemma_listed_count(transactions, min, listing, k, view.antecedent);
    lemma_listed_count(transactions, min, listing, k, view.consequent);
    lemma_items(rule.antecedent@);
    lemma_items(rule.consequent@);
    let a = items_of(rule.antecedent@);
    let b = items_of(rule.consequent@);
    mining::laws::lemma_split_is_whole(out, view, i, mask);
    assert(whole.to_set() == a.union(b));
    lemma_support_is_held(transactions, whole);
    assert forall|x: Seq<char>| !(a.contains(x) && b.contains(x)) by {
        lemma_picked_apart(whole, mask, x);
    }
    assert(measures_of(rule) == view.measures);
    mining::laws::law_rules_are_confident(out, min_confidence, n, measure, out.len(), place);
    assert(assoc_rules::all_rules(out, min_confidence, n, measure, out.len())[place] == view);
    reals::law_order_is_of_values(rule.confidence, min_confidence);
}

/// A run over parsed transactions: the listing and the rules are those of the
/// transactions, with the lowest count that the share asks for and the sizes and
/// the confidence as asked for.
pub proof fn law_run_is_of_its_transactions<
    S: Fn(u64, u64) -> u64,
    M: Fn(u64, u64, u64, u64) -> Measures,
    F: Fn() -> bool,
>(
    transactions_json: &str,
    min_support: u64,
    min_confidence: u64,
    max_itemset_size: usize,
    support_floor: &S,
    measure: &M,
    requested: &F,
    rows: Vec<Vec<String>>,
    result: AssocResult,
) -> (floor: u64)
    requires
        call_ensures(
            assoc_rules_from_json::<S, M, F>,
            (
                transactions_json,
                min_support,
                min_confidence,
                max_itemset_size,
                support_floor,
                measure,
                requested,
            ),
            Ok(result),
        ),
        call_ensures(parse_transactions, (transactions_json,), Ok(rows)),
        rows@.len() > 0,
        forall|n: u64, x: u64| n > 0 && #[trigger] call_ensures(*support_floor, (min_support, n), x) ==> x >= 1,
        rows@.len() <= u64::MAX,
    ensures
        call_ensures(*support_floor, (min_support, rows@.len() as u64), floor),
        is_mined(rows@, floor, min_confidence, max_itemset_size, *measure, result),
        0 < reals::value(min_support) <= reals::value(bits::ONE),
        0 < reals::value(min_confidence) <= reals::value(bits::ONE),
{
    let txns = names::text_rows(rows@);
    assert(assoc_rules::mined_share(
        txns,
        min_support,
        min_confidence,
        max_itemset_size as nat,
        *support_floor,
        *measure,
        *requested,
        result,
    ));
    let floor = choose|floor: u64|
        call_ensures(*support_floor, (min_support, txns.len() as u64), floor) && #[trigger] assoc_rules::mined(
            txns,
            floor,
            min_confidence,
            max_itemset_size as nat,
            *measure,
            *requested,
            result,
        );
    reals::law_constants_have_their_values();
    reals::law_order_is_of_values(bits::ZERO, min_support);
    reals::law_order_is_of_values(min_support, bits::ONE);
    reals::law_order_is_of_values(bits::ZERO, min_confidence);
    reals::law_order_is_of_values(min_confidence, bits::ONE);
    lemma_mined(rows@, floor, min_confidence, max_itemset_size, *measure, *requested, result);
    floor
}

proof fn lemma_mask_rule_is_there<M: Fn(u64, u64, u64, u64) -> Measures>(
    frequent: Seq<(Seq<Seq<char>>, u64)>,
    min_confidence: u64,
    n: u64,
    measure: M,
    i: int,
    mask: nat,
    end: nat,
)
    requires
        1 <= mask < end,
        assoc_rules::rule_at(frequent, min_confidence, n, measure, i, mask) is Some,
    ensures
        assoc_rules::mask_rules(frequent, min_confidence, n, measure, i, end).contains(
            assoc_rules::rule_at(frequent, min_confidence, n, measure, i, mask)->0,
        ),
    decreases end,
{
    let rule = assoc_rules::rule_at(frequent, min_confidence, n, measure, i, mask)->0;
    let all = assoc_rules::mask_rules(frequent, min_confidence, n, measure, i, end);
    let before = assoc_rules::mask_rules(frequent, min_confidence, n, measure, i, (end - 1) as nat);
    if mask == end - 1 {
        assert(all[before.len() as int] == rule);
    } else {
        lemma_mask_rule_is_there(frequent, min_confidence, n, measure, i, mask, (end - 1) as nat);
        let k = choose|k: int| 0 <= k < before.len() && before[k] == rule;
        assert(all[k] == rule);
    }
}

proof fn lemma_rule_is_there<M: Fn(u64, u64, u64, u64) -> Measures>(
    frequent: Seq<(Seq<Seq<char>>, u64)>,
    min_confidence: u64,
    n: u64,
    measure: M,
    i: int,
    mask: nat,
    count: nat,
)
    requires
        0 <= i < count,
        1 <= mask < assoc_rules::last_mask(frequent[i].0.len()),
        assoc_rules::rule_at(frequent, min_confidence, n, measure, i, mask) is Some,
    ensures
        assoc_rules::all_rules(frequent, min_confidence, n, measure, count).contains(
            assoc_rules::rule_at(frequent, min_confidence, n, measure, i, mask)->0,
        ),
    decreases count,
{
    let rule = assoc_rules::rule_at(frequent, min_confidence, n, measure, i, mask)->0;
    let all = assoc_rules::all_rules(frequent, min_confidence, n, measure, count);
    let before = assoc_rules::all_rules(frequent, min_confidence, n, measure, (count - 1) as nat);
    let last = assoc_rules::last_mask(frequent[count - 1].0.len());
    let new = assoc_rules::mask_rules(frequent, min_confidence, n, measure, count - 1, last);
    assert(all == before + new);
    if i == count - 1 {
        lemma_mask_rule_is_there(frequent, min_confidence, n, measure, i, mask, last);
        let k = choose|k: int| 0 <= k < new.len() && new[k] == rule;
        assert(all[before.len() + k] == rule);
    } else {
        lemma_rule_is_there(frequent, min_confidence, n, measure, i, mask, (count - 1) as nat);
        let k = choose|k: int| 0 <= k < before.len() && before[k] == rule;
        assert(all[k] == rule);
    }
}

/// A rule has the given sides and measures.
pub open spec fn is_rule(rule: Rule, a: Set<Seq<char>>, b: Set<Seq<char>>, m: Measures) -> bool {
    items_of(rule.antecedent@) == a && items_of(rule.consequent@) == b && measures_of(rule) == m
}

/// One of the rules has the given sides and measures.
pub open spec fn has_rule(rules: Seq<Rule>, a: Set<Seq<char>>, b: Set<Seq<char>>, m: Measures) -> bool {
    exists|k: int| 0 <= k < rules.len() && is_rule(#[trigger] rules[k], a, b, m)
}

/// The split was measured, and it is a rule or less confident than asked for.
pub open spec fn split_is_answered<M: Fn(u64, u64, u64, u64) -> Measures>(
    transactions: Seq<Vec<String>>,
    min_confidence: u64,
    measure: M,
    rules: Seq<Rule>,
    a: Set<Seq<char>>,
    b: Set<Seq<char>>,
    m: Measures,
) -> bool {
    &&& call_ensures(
        measure,
        (
            held_by(transactions, a.union(b)) as u64,
            held_by(transactions, a) as u64,
            held_by(transactions, b) as u64,
            transactions.len() as u64,
        ),
        m,
    )
    &&& has_rule(rules, a, b, m) || (reals::is_number(m.confidence) && reals::is_number(min_confidence)
        && reals::value(m.confidence) < reals::value(min_confidence))
}

/// A run that was neither cancelled nor cut misses no rule: each part of a listed
/// itemset that is neither empty nor all of it is the antecedent of a rule with the
/// rest as consequent, unless the confidence lies below the wanted one.
pub proof fn law_no_rule_is_missed<
    S: Fn(u64, u64) -> u64,
    M: Fn(u64, u64, u64, u64) -> Measures,
    F: Fn() -> bool,
>(
    transactions_json: &str,
    min_support: u64,
    min_confidence: u64,
    max_itemset_size: usize,
    support_floor: &S,
    measure: &M,
    requested: &F,
    rows: Vec<Vec<String>>,
    result: AssocResult,
    f: int,
    a: Set<Seq<char>>,
    b: Set<Seq<char>>,
) -> (m: Measures)
    requires
        call_ensures(
            assoc_rules_from_json::<S, M, F>,
            (
                transactions_json,
                min_support,
                min_confidence,
                max_itemset_size,
                support_floor,
                measure,
                requested,
            ),
            Ok(result),
        ),
        call_ensures(parse_transactions, (transactions_json,), Ok(rows)),
        rows@.len() > 0,
        forall|n: u64, x: u64| n > 0 && #[trigger] call_ensures(*support_floor, (min_support, n), x) ==> x >= 1,
        rows@.len() <= u64::MAX,
        !result.cancelled,
        !result.truncated,
        0 <= f < result.frequent_itemsets@.len(),
        items_of(result.frequent_itemsets@[f].0@) == a.union(b),
        a.disjoint(b),
        a != Set::<Seq<char>>::empty(),
        b != Set::<Seq<char>>::empty(),
    ensures
        split_is_answered(rows@, min_confidence, *measure, result.rules@, a, b, m),
{
    let txns = names::text_rows(rows@);
    assert(assoc_rules::mined_share(
        txns,
        min_support,
        min_confidence,
        max_itemset_size as nat,
        *support_floor,
        *measure,
        *requested,
        result,
    ));
    let floor = choose|floor: u64|
        call_ensures(*support_floor, (min_support, txns.len() as u64), floor) && #[trigger] assoc_rules::mined(
            txns,
            floor,
            min_confidence,
            max_itemset_size as nat,
            *measure,
            *requested,
            result,
        );
    lemma_no_rule_is_missed(
        rows@,
        floor,
        min_confidence,
        max_itemset_size,
        *measure,
        *requested,
        result,
        f,
        a,
        b,
    )
}

proof fn lemma_no_rule_is_missed<M: Fn(u64, u64, u64, u64) -> Measures, F: Fn() -> bool>(
    transactions: Seq<Vec<String>>,
    floor: u64,
    min_confidence: u64,
    max_itemset_size: usize,
    measure: M,
    requested: F,
    result: AssocResult,
    f: int,
    a: Set<Seq<char>>,
    b: Set<Seq<char>>,
) -> (m: Measures)
    requires
        assoc_rules::mined(
            names::text_rows(transactions),
            floor,
            min_confidence,
            max_itemset_size as nat,
            measure,
            requested,
            result,
        ),
        floor >= 1,
        !result.cancelled,
        !result.truncated,
        0 <= f < result.frequent_itemsets@.len(),
        items_of(result.frequent_itemsets@[f].0@) == a.union(b),
        a.disjoint(b),
        a != Set::<Seq<char>>::empty(),
        b != Set::<Seq<char>>::empty(),
    ensures
        split_is_answered(transactions, min_confidence, measure, result.rules@, a, b, m),
{
    let txns = names::text_rows(transactions);
    let listing = result.frequent_itemsets@;
    let out = names::text_listing(listing);
    let n = transactions.len() as u64;
    let (stop, cut, emitted, cancelled) = choose|stop: Option<nat>, cut: bool, emitted: Seq<RuleView>, cancelled: bool| #[trigger]
        assoc_rules::mined_with(
            txns,
            floor,
            min_confidence,
            max_itemset_size as nat,
            measure,
            requested,
            result,
            stop,
            cut,
            emitted,
            cancelled,
        );
    let k = lemma_scan_is_right(
        transactions,
        floor as nat,
        max_itemset_size as nat,
        listing,
        result.candidates as nat,
        stop,
        cut,
    );
    let whole = out[f].0;
    assert(whole == text::texts(listing[f].0@));
    lemma_items(listing[f].0@);
    assert(itemset::frequent(txns, floor as nat, names::by_text(), whole));
    lemma_ascending_is_distinct(whole);
    mining::laws::law_every_subset_is_split(whole, a);
    let mask = choose|mask: nat| #[trigger] mining::laws::splits_off(whole, mask, a);
    let left = assoc_rules::picked(whole, mask, true);
    let right = assoc_rules::picked(whole, mask, false);
    assert forall|x: Seq<char>| left.to_set().contains(x) <==> a.contains(x) by {
        assert(whole.to_set().contains(x) <==> a.union(b).contains(x));
    }
    assert forall|x: Seq<char>| right.to_set().contains(x) <==> b.contains(x) by {
        assert(whole.to_set().contains(x) <==> a.union(b).contains(x));
    }
    assert(left.to_set() =~= a);
    assert(right.to_set() =~= b);
    assert(left.len() > 0) by {
        if left.len() == 0 {
            assert(a =~= Set::empty());
        }
    }
    assert(right.len() > 0) by {
        if right.len() == 0 {
            assert(b =~= Set::empty());
        }
    }
    assert(whole.len() >= 2) by {
        let x = left[0];
        let y = right[0];
        assert(a.contains(x) && b.contains(y));
        assert(whole.contains(x) && whole.contains(y));
        let i = choose|i: int| 0 <= i < whole.len() && whole[i] == x;
        let j = choose|j: int| 0 <= j < whole.len() && whole[j] == y;
        assert(i != j);
    }
    mining::laws::law_rule_splits_are_proper(whole, mask);
    mining::laws::law_sides_are_listed(txns, floor as nat, names::by_text(), out, k, f, mask);
    lemma_listed_count(transactions, floor as nat, listing, k, left);
    lemma_listed_count(transactions, floor as nat, listing, k, right);
    lemma_support_is_held(transactions, whole);
    let (ca, cb) = (held_by(transactions, a) as u64, held_by(transactions, b) as u64);
    let m = assoc_rules::measured(measure, out[f].1, ca, cb, n);
    assert(assoc_rules::answered_before(out, n, measure, out.len(), 1));
    assert(assoc_rules::answered(out, n, measure, f, mask));
    assert(call_ensures(measure, (out[f].1, ca, cb, n), m));
    reals::law_order_is_of_values(m.confidence, min_confidence);
    if !bits::less(m.confidence, min_confidence) {
        let rule = assoc_rules::rule_at(out, min_confidence, n, measure, f, mask)->0;
        lemma_rule_is_there(out, min_confidence, n, measure, f, mask, out.len());
        let e = choose|e: int| 0 <= e < emitted.len() && emitted[e] == rule;
        let rules = result.rules@;
        let views = assoc_rules::rule_views(rules);
        let order = choose|order: Seq<usize>| #[trigger] assoc_rules::ordered_by(emitted, views, order);
        assert(emitted.len() <= usize::MAX);
        assert(order.contains(e as usize));
        let p = choose|p: int| 0 <= p < order.len() && order[p] == e as usize;
        assert(views[p] == rule);
        assert(views[p] == rules[p]@);
        lemma_items(rules[p].antecedent@);
        lemma_items(rules[p].consequent@);
        assert(is_rule(rules[p], a, b, m));
    }
    m
}

/// Shares outside the range from 0, which is not in it, to 1 are refused, and so is
/// a text that holds no transactions.
pub proof fn law_bad_shares_are_refused<
    S: Fn(u64, u64) -> u64,
    M: Fn(u64, u64, u64, u64) -> Measures,
    F: Fn() -> bool,
>(
    transactions_json: &str,
    min_support: u64,
    min_confidence: u64,
    max_itemset_size: usize,
    support_floor: &S,
    measure: &M,
    requested: &F,
    parsed: Result<Vec<Vec<String>>, String>,
    r: Result<AssocResult, String>,
)
    requires
        call_ensures(
            assoc_rules_from_json::<S, M, F>,
            (
                transactions_json,
                min_support,
                min_confidence,
                max_itemset_size,
                support_floor,
                measure,
                requested,
            ),
            r,
        ),
        call_ensures(parse_transactions, (transactions_json,), parsed),
    ensures
        r is Ok <==> {
            &&& reals::is_number(min_support) && 0 < reals::value(min_support) <= reals::value(bits::ONE)
            &&& reals::is_number(min_confidence) && 0 < reals::value(min_confidence) <= reals::value(bits::ONE)
            &&& parsed is Ok
        },
        r is Ok && parsed->Ok_0@.len() == 0 ==> {
            &&& r->Ok_0.rules@.len() == 0
            &&& r->Ok_0.frequent_itemsets@.len() == 0
            &&& r->Ok_0.transactions == 0
            &&& !r->Ok_0.cancelled
            &&& !r->Ok_0.truncated
        },
{
    reals::law_constants_have_their_values();
    reals::law_order_is_of_values(bits::ZERO, min_support);
    reals::law_order_is_of_values(min_support, bits::ONE);
    reals::law_order_is_of_values(bits::ZERO, min_confidence);
    reals::law_order_is_of_values(min_confidence, bits::ONE);
}

/// A run can be read off its transactions.
pub proof fn lemma_mined<M: Fn(u64, u64, u64, u64) -> Measures, F: Fn() -> bool>(
    transactions: Seq<Vec<String>>,
    floor: u64,
    min_confidence: u64,
    max_itemset_size: usize,
    measure: M,
    requested: F,
    result: AssocResult,
)
    requires
        assoc_rules::mined(
            names::text_rows(transactions),
            floor,
            min_confidence,
            max_itemset_size as nat,
            measure,
            requested,
            result,
        ),
        floor >= 1,
    ensures
        is_mined(transactions, floor, min_confidence, max_itemset_size, measure, result),
{
    let txns = names::text_rows(transactions);
    let listing = result.frequent_itemsets@;
    let out = names::text_listing(listing);
    let (stop, cut, emitted, cancelled) = choose|stop: Option<nat>, cut: bool, emitted: Seq<RuleView>, cancelled: bool| #[trigger]
        assoc_rules::mined_with(
            txns,
            floor,
            min_confidence,
            max_itemset_size as nat,
            measure,
            requested,
            result,
            stop,
            cut,
            emitted,
            cancelled,
        );
    let k = lemma_scan_is_right(
        transactions,
        floor as nat,
        max_itemset_size as nat,
        listing,
        result.candidates as nat,
        stop,
        cut,
    );
    let rules = result.rules@;
    let views = assoc_rules::rule_views(rules);
    let order = choose|order: Seq<usize>| #[trigger] assoc_rules::ordered_by(emitted, views, order);
    assert forall|i: int| 0 <= i < rules.len() implies rule_is_right(
        transactions,
        min_confidence,
        measure,
        #[trigger] rules[i],
    ) by {
        assert(views[i] == emitted[order[i] as int]);
        assert(order.contains(order[i]));
        lemma_rule_is_right(
            transactions,
            floor as nat,
            listing,
            k,
            min_confidence,
            measure,
            requested,
            emitted,
            cancelled,
            order[i] as int,
            rules[i],
        );
    }
    assert forall|i: int, j: int|
        #![trigger rules[i], rules[j]]
        0 <= i < j < rules.len() implies may_precede(rules[i], rules[j]) by {
        mining::laws::law_rules_are_ordered(emitted, views, i, j);
        assert(views[i] == rules[i]@ && views[j] == rules[j]@);
        reals::law_order_is_of_values(rules[j].confidence, rules[i].confidence);
        reals::law_order_is_of_values(rules[i].confidence, rules[j].confidence);
        reals::law_order_is_of_values(rules[j].support, rules[i].support);
        reals::law_order_is_of_values(rules[i].support, rules[j].support);
    }
}

/// The rule is among the given ones.
pub open spec fn is_one_of(rules: Seq<Rule>, rule: Rule) -> bool {
    exists|i: int| 0 <= i < rules.len() && (#[trigger] rules[i])@ == rule@
}

/// Rules are put in order: the same rules, the more confident ones first, of those as
/// confident the ones of more support, and of those the ones with fewer items before.
pub proof fn law_rules_are_put_in_order(rules: &mut Vec<Rule>)
    requires
        call_ensures(order_rules, (rules,), ()),
        forall|i: int|
            0 <= i < old(rules)@.len() ==> reals::is_number((#[trigger] old(rules)@[i]).confidence) && reals::is_number(
                old(rules)@[i].support,
            ),
    ensures
        final(rules)@.len() == old(rules)@.len(),
        forall|i: int| 0 <= i < final(rules)@.len() ==> is_one_of(old(rules)@, #[trigger] final(rules)@[i]),
        forall|j: int| 0 <= j < old(rules)@.len() ==> is_one_of(final(rules)@, #[trigger] old(rules)@[j]),
        forall|i: int, j: int|
            #![trigger final(rules)@[i], final(rules)@[j]]
            0 <= i < j < final(rules)@.len() ==> may_precede(final(rules)@[i], final(rules)@[j]),
{
    let before = assoc_rules::rule_views(old(rules)@);
    let after = assoc_rules::rule_views(final(rules)@);
    let order = choose|order: Seq<usize>| #[trigger] assoc_rules::ordered_by(before, after, order);
    assert(after.len() == final(rules)@.len() && before.len() == old(rules)@.len());
    assert forall|i: int| 0 <= i < final(rules)@.len() implies is_one_of(old(rules)@, #[trigger] final(rules)@[i]) by {
        assert(order.contains(order[i]));
        assert(after[i] == before[order[i] as int]);
        assert(old(rules)@[order[i] as int]@ == final(rules)@[i]@);
    }
    assert forall|j: int| 0 <= j < old(rules)@.len() implies is_one_of(final(rules)@, #[trigger] old(rules)@[j]) by {
        assert(old(rules).len() == old(rules)@.len());
        assert(order.contains(j as usize));
        let i = choose|i: int| 0 <= i < order.len() && order[i] == j as usize;
        assert(after[i] == before[order[i] as int]);
        assert(final(rules)@[i]@ == old(rules)@[j]@);
    }
    assert forall|i: int, j: int|
        #![trigger final(rules)@[i], final(rules)@[j]]
        0 <= i < j < final(rules)@.len() implies may_precede(final(rules)@[i], final(rules)@[j]) by {
        mining::laws::law_rules_are_ordered(before, after, i, j);
        let (x, y) = (final(rules)@[i], final(rules)@[j]);
        assert(after[i] == x@ && after[j] == y@);
        reals::law_order_is_of_values(y.confidence, x.confidence);
        reals::law_order_is_of_values(x.confidence, y.confidence);
        reals::law_order_is_of_values(y.support, x.support);
        reals::law_order_is_of_values(x.support, y.support);
    }
}

/// Work is counted one by one, and every 4096th time, and at no other, a run asks
/// whether to stop.
pub proof fn law_run_asks_now_and_then<F: Fn() -> bool>(work: &mut u64, requested: &F, stop: bool)
    requires
        call_ensures(cancel_check::<F>, (work, requested), stop),
        *old(work) < u64::MAX,
    ensures
        *final(work) == *old(work) + 1,
        stop ==> (*old(work) + 1) % 4096 == 0,
        (*old(work) + 1) % 4096 == 0 ==> call_ensures(*requested, (), stop),
{
}

/// A listing goes from smaller itemsets to larger ones, and the items of each stand
/// in the order of texts.
pub proof fn law_listing_grows<F: Fn() -> bool>(
    transactions: &Vec<Vec<String>>,
    min_support_abs: u64,
    max_itemset_size: usize,
    truncated: &mut bool,
    requested: &F,
    r: (Vec<(Vec<String>, u64)>, u64, bool),
)
    requires
        call_ensures(apriori::<F>, (transactions, min_support_abs, max_itemset_size, truncated, requested), r),
        min_support_abs >= 1,
    ensures
        forall|i: int, j: int|
            #![trigger r.0@[i], r.0@[j]]
            0 <= i < j < r.0@.len() ==> r.0@[i].0@.len() <= r.0@[j].0@.len(),
        forall|i: int| 0 <= i < r.0@.len() ==> is_in_order(#[trigger] r.0@[i]),
{
    let rows = names::text_rows(transactions@);
    let out = names::text_listing(r.0@);
    let (min, max) = (min_support_abs as nat, max_itemset_size as nat);
    let (stop, cut) = choose|stop: Option<nat>, cut: bool|
        r.2 == (stop is Some) && *final(truncated) == (*old(truncated) || cut) && #[trigger] assoc_rules::scanned_names(
            rows,
            min,
            max,
            out,
            r.1 as nat,
            stop,
            cut,
        );
    let k = lemma_scan_is_right(transactions@, min, max, r.0@, r.1 as nat, stop, cut);
    assert forall|i: int, j: int| #![trigger r.0@[i], r.0@[j]] 0 <= i < j < r.0@.len() implies r.0@[i].0@.len()
        <= r.0@[j].0@.len() by {
        assert(itemset::listed_before(out[i].0, out[j].0, names::by_text()));
    }
    assert forall|i: int| 0 <= i < r.0@.len() implies is_in_order(#[trigger] r.0@[i]) by {
        assert(itemset::frequent(rows, min, names::by_text(), out[i].0));
        let items = r.0@[i].0@;
        assert forall|a: int, b: int| #![trigger items[a], items[b]] 0 <= a < b < items.len() implies text::text_before(
            items[a]@,
            items[b]@,
        ) by {
            assert(names::by_text()(out[i].0[a], out[i].0[b]));
        }
    }
}

/// The items of an itemset stand in the order of texts.
pub open spec fn is_in_order(set: (Vec<String>, u64)) -> bool {
    forall|a: int, b: int|
        #![trigger set.0@[a], set.0@[b]]
        0 <= a < b < set.0@.len() ==> text::text_before(set.0@[a]@, set.0@[b]@)
}

} // verus!
