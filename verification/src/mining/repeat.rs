//! Mining the same transactions again gives the same result.

use vstd::prelude::*;
use crate::assoc_rules;
use crate::assoc_rules::{AssocResult, Measures, RuleView, MAX_CANDIDATES};
use crate::mining::itemset;
use crate::mining::listing;
use crate::mining::names;
use crate::sorting;

verus! {

/// Two listings of the frequent itemsets up to the same size are equal.
pub proof fn law_listing_is_determined(
    txns: Seq<Seq<Seq<char>>>,
    min: nat,
    a: Seq<(Seq<Seq<char>>, u64)>,
    b: Seq<(Seq<Seq<char>>, u64)>,
    k: nat,
)
    requires
        itemset::lists_upto(txns, min, names::by_text(), a, k),
        itemset::lists_upto(txns, min, names::by_text(), b, k),
    ensures
        a == b,
{
    let before = |x: (Seq<Seq<char>>, u64), y: (Seq<Seq<char>>, u64)|
        itemset::listed_before(x.0, y.0, names::by_text());
    assert forall|x: (Seq<Seq<char>>, u64), y: (Seq<Seq<char>>, u64)| #[trigger] before(x, y) implies !before(
        y,
        x,
    ) by {
        listing::lemma_listed_before_asym(x.0, y.0);
    }
    assert forall|x: (Seq<Seq<char>>, u64)| #[trigger] a.contains(x) <==> b.contains(x) by {
        lemma_listed_in_both(txns, min, a, b, k, x);
        lemma_listed_in_both(txns, min, b, a, k, x);
    }
    sorting::lemma_order_is_unique(a, b, before);
}

proof fn lemma_listed_in_both(
    txns: Seq<Seq<Seq<char>>>,
    min: nat,
    a: Seq<(Seq<Seq<char>>, u64)>,
    b: Seq<(Seq<Seq<char>>, u64)>,
    k: nat,
    x: (Seq<Seq<char>>, u64),
)
    requires
        itemset::lists_upto(txns, min, names::by_text(), a, k),
        itemset::lists_upto(txns, min, names::by_text(), b, k),
    ensures
        a.contains(x) ==> b.contains(x),
{
    if a.contains(x) {
        let i = choose|i: int| 0 <= i < a.len() && a[i] == x;
        assert(itemset::frequent(txns, min, names::by_text(), a[i].0));
        assert(itemset::is_listed(b, x.0));
        let j = choose|j: int| 0 <= j < b.len() && (#[trigger] b[j]).0 == x.0;
        assert(b[j] == x);
    }
}

/// Where fewer than `cap` candidates of one size exist, there are not `cap` of
/// them.
proof fn lemma_few_or_many<T>(txns: Seq<Seq<T>>, min: nat, lt: spec_fn(T, T) -> bool, k: nat, cap: nat, j: nat)
    requires
        itemset::few_candidates(txns, min, lt, k, cap),
        2 <= j <= k,
    ensures
        !itemset::many_candidates(txns, min, lt, j, cap),
{
    if itemset::many_candidates(txns, min, lt, j, cap) {
        let found = choose|found: Seq<Seq<T>>|
            #![trigger found.no_duplicates()]
            found.no_duplicates() && found.len() == cap && forall|i: int|
                0 <= i < cap ==> itemset::candidate(txns, min, lt, #[trigger] found[i]) && found[i].len() == j;
        let all = itemset::candidate_set(txns, min, lt, j);
        found.unique_seq_to_set();
        assert(found.to_set().subset_of(all)) by {
            assert forall|x: Seq<T>| found.to_set().contains(x) implies all.contains(x) by {
                let i = choose|i: int| 0 <= i < found.len() && found[i] == x;
                assert(itemset::candidate(txns, min, lt, found[i]));
            }
        }
        vstd::set_lib::lemma_len_subset(found.to_set(), all);
    }
}

/// The size up to which a scan that nobody cancelled lists the itemsets.
proof fn lemma_scan_depth(
    transactions: Seq<Seq<Seq<char>>>,
    min_support_abs: nat,
    max_itemset_size: nat,
    out: Seq<(Seq<Seq<char>>, u64)>,
    candidates: nat,
    cut: bool,
) -> (k: nat)
    requires
        assoc_rules::scanned_names(
            transactions,
            min_support_abs,
            max_itemset_size,
            out,
            candidates,
            None,
            cut,
        ),
    ensures
        k <= itemset::size_limit(transactions, max_itemset_size),
        itemset::lists_upto(transactions, min_support_abs, names::by_text(), out, k),
        candidates == itemset::total_candidates(transactions, min_support_abs, names::by_text(), k),
        itemset::few_candidates(transactions, min_support_abs, names::by_text(), k, MAX_CANDIDATES as nat),
        !cut ==> k == itemset::size_limit(transactions, max_itemset_size),
        cut ==> 1 <= k < itemset::size_limit(transactions, max_itemset_size) && itemset::many_candidates(
            transactions,
            min_support_abs,
            names::by_text(),
            k + 1,
            MAX_CANDIDATES as nat,
        ),
{
    let lt = names::by_text();
    let limit = itemset::size_limit(transactions, max_itemset_size);
    let cap = MAX_CANDIDATES as nat;
    if cut {
        choose|k: nat|
            1 <= k < limit && #[trigger] itemset::lists_upto(transactions, min_support_abs, lt, out, k) && candidates
                == itemset::total_candidates(transactions, min_support_abs, lt, k) && itemset::few_candidates(
                transactions,
                min_support_abs,
                lt,
                k,
                cap,
            ) && itemset::many_candidates(transactions, min_support_abs, lt, k + 1, cap)
    } else {
        limit
    }
}

/// Two scans of the same transactions that nobody cancelled list the same
/// itemsets, count the same candidates and are cut both or neither.
pub proof fn law_scan_is_deterministic(
    transactions: Seq<Seq<Seq<char>>>,
    min_support_abs: nat,
    max_itemset_size: nat,
    a: Seq<(Seq<Seq<char>>, u64)>,
    a_candidates: nat,
    a_cut: bool,
    b: Seq<(Seq<Seq<char>>, u64)>,
    b_candidates: nat,
    b_cut: bool,
)
    requires
        assoc_rules::scanned_names(
            transactions,
            min_support_abs,
            max_itemset_size,
            a,
            a_candidates,
            None,
            a_cut,
        ),
        assoc_rules::scanned_names(
            transactions,
            min_support_abs,
            max_itemset_size,
            b,
            b_candidates,
            None,
            b_cut,
        ),
    ensures
        a == b,
        a_candidates == b_candidates,
        a_cut == b_cut,
{
    let lt = names::by_text();
    let cap = MAX_CANDIDATES as nat;
    let i = lemma_scan_depth(transactions, min_support_abs, max_itemset_size, a, a_candidates, a_cut);
    let j = lemma_scan_depth(transactions, min_support_abs, max_itemset_size, b, b_candidates, b_cut);
    if i < j {
        lemma_few_or_many(transactions, min_support_abs, lt, j, cap, i + 1);
    } else if j < i {
        lemma_few_or_many(transactions, min_support_abs, lt, i, cap, j + 1);
    }
    law_listing_is_determined(transactions, min_support_abs, a, b, i);
}

/// Two results of mining say the same.
pub open spec fn results_agree(a: AssocResult, b: AssocResult) -> bool {
    &&& assoc_rules::rule_views(a.rules@) == assoc_rules::rule_views(b.rules@)
    &&& names::text_listing(a.frequent_itemsets@) == names::text_listing(b.frequent_itemsets@)
    &&& a.transactions == b.transactions
    &&& a.candidates == b.candidates
    &&& a.truncated == b.truncated
}

/// Mining the same transactions twice gives the same itemsets and the same rules
/// in the same order, as long as nobody cancels.
pub proof fn law_mining_is_deterministic<M: Fn(u64, u64, u64, u64) -> Measures, F: Fn() -> bool, G: Fn() -> bool>(
    transactions: Seq<Seq<Seq<char>>>,
    min_support_abs: u64,
    min_confidence: u64,
    max_itemset_size: nat,
    measure: M,
    f: F,
    g: G,
    a: AssocResult,
    b: AssocResult,
)
    requires
        assoc_rules::mined(transactions, min_support_abs, min_confidence, max_itemset_size, measure, f, a),
        assoc_rules::mined(transactions, min_support_abs, min_confidence, max_itemset_size, measure, g, b),
        !a.cancelled,
        !b.cancelled,
    ensures
        results_agree(a, b),
{
    let (ac, at, ae, ar) = choose|c: Option<nat>, t: bool, e: Seq<RuleView>, r: bool| #[trigger]
        assoc_rules::mined_with(
            transactions,
            min_support_abs,
            min_confidence,
            max_itemset_size,
            measure,
            f,
            a,
            c,
            t,
            e,
            r,
        );
    let (bc, bt, be, br) = choose|c: Option<nat>, t: bool, e: Seq<RuleView>, r: bool| #[trigger]
        assoc_rules::mined_with(
            transactions,
            min_support_abs,
            min_confidence,
            max_itemset_size,
            measure,
            g,
            b,
            c,
            t,
            e,
            r,
        );
    let listed = names::text_listing(a.frequent_itemsets@);
    law_scan_is_deterministic(
        transactions,
        min_support_abs as nat,
        max_itemset_size,
        listed,
        a.candidates as nat,
        at,
        names::text_listing(b.frequent_itemsets@),
        b.candidates as nat,
        bt,
    );
    assert(ae =~= be);
    let ap = assoc_rules::rule_views(a.rules@);
    let bp = assoc_rules::rule_views(b.rules@);
    let x = choose|order: Seq<usize>| #[trigger] assoc_rules::ordered_by(ae, ap, order);
    let y = choose|order: Seq<usize>| #[trigger] assoc_rules::ordered_by(be, bp, order);
    sorting::law_stable_order_is_unique(assoc_rules::rules_le(ae), 0, ae.len() as int, x, y);
    assert(ap =~= bp);
}

} // verus!
