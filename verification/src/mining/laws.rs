//! What holds of mining as a whole.

use vstd::prelude::*;
use crate::assoc_rules;
use crate::assoc_rules::{Measures, RuleView, CANCEL_CHECK_INTERVAL};
use crate::bits;
use crate::mining::itemset;
use crate::mining::listing;
use crate::sorting;

verus! {

/// The mask whose split puts the members of `chosen` into the antecedent.
spec fn mask_of<T>(items: Seq<T>, chosen: Set<T>) -> nat
    decreases items.len(),
{
    if items.len() == 0 {
        0
    } else {
        (if chosen.contains(items[0]) {
            1nat
        } else {
            0nat
        }) + 2 * mask_of(items.skip(1), chosen)
    }
}

/// A list holds its first element and what its rest holds.
pub proof fn lemma_skip_contains<T>(items: Seq<T>, x: T)
    requires
        items.len() > 0,
    ensures
        items.contains(x) <==> x == items[0] || items.skip(1).contains(x),
{
    if items.contains(x) {
        let i = choose|i: int| 0 <= i < items.len() && items[i] == x;
        if i > 0 {
            assert(items.skip(1)[i - 1] == x);
        }
    }
    if items.skip(1).contains(x) {
        let i = choose|i: int| 0 <= i < items.skip(1).len() && items.skip(1)[i] == x;
        assert(items[i + 1] == x);
    }
}

/// An element put before a list is held besides what the list holds.
pub proof fn lemma_cons_contains<T>(head: T, tail: Seq<T>, x: T)
    ensures
        (seq![head] + tail).contains(x) <==> x == head || tail.contains(x),
{
    let s = seq![head] + tail;
    assert(s[0] == head);
    if s.contains(x) {
        let i = choose|i: int| 0 <= i < s.len() && s[i] == x;
        if i > 0 {
            assert(tail[i - 1] == x);
        }
    }
    if tail.contains(x) {
        let i = choose|i: int| 0 <= i < tail.len() && tail[i] == x;
        assert(s[i + 1] == x);
    }
}

/// A split takes nothing from elsewhere.
pub proof fn lemma_picked_inside<T>(items: Seq<T>, mask: nat, chosen: bool, x: T)
    requires
        assoc_rules::picked(items, mask, chosen).contains(x),
    ensures
        items.contains(x),
    decreases items.len(),
{
    if items.len() > 0 {
        let rest = assoc_rules::picked(items.skip(1), mask / 2, chosen);
        lemma_skip_contains(items, x);
        if (mask % 2 == 1) == chosen {
            lemma_cons_contains(items[0], rest, x);
            if x != items[0] {
                lemma_picked_inside(items.skip(1), mask / 2, chosen, x);
            }
        } else {
            lemma_picked_inside(items.skip(1), mask / 2, chosen, x);
        }
    }
}

proof fn lemma_mask_of<T>(items: Seq<T>, chosen: Set<T>, x: T)
    requires
        items.no_duplicates(),
    ensures
        mask_of(items, chosen) < assoc_rules::two_to(items.len()),
        assoc_rules::picked(items, mask_of(items, chosen), true).contains(x) <==> items.contains(x)
            && chosen.contains(x),
        assoc_rules::picked(items, mask_of(items, chosen), false).contains(x) <==> items.contains(x)
            && !chosen.contains(x),
    decreases items.len(),
{
    if items.len() > 0 {
        let rest = items.skip(1);
        let mask = mask_of(items, chosen);
        assert(rest.no_duplicates());
        lemma_mask_of(rest, chosen, x);
        lemma_skip_contains(items, x);
        assert(mask / 2 == mask_of(rest, chosen));
        lemma_cons_contains(items[0], assoc_rules::picked(rest, mask / 2, true), x);
        lemma_cons_contains(items[0], assoc_rules::picked(rest, mask / 2, false), x);
        if rest.contains(items[0]) {
            let i = choose|i: int| 0 <= i < rest.len() && rest[i] == items[0];
            assert(items[i + 1] == items[0]);
        }
    }
}

/// The split by `mask` has the members of `antecedent` on one side and the
/// other items on the other.
pub open spec fn splits_off<T>(items: Seq<T>, mask: nat, antecedent: Set<T>) -> bool {
    &&& mask < assoc_rules::two_to(items.len())
    &&& forall|x: T| #[trigger]
        assoc_rules::picked(items, mask, true).contains(x) <==> items.contains(x) && antecedent.contains(x)
    &&& forall|x: T| #[trigger]
        assoc_rules::picked(items, mask, false).contains(x) <==> items.contains(x) && !antecedent.contains(x)
}

/// Every subset of an itemset is the antecedent of one of its splits, with the
/// rest as consequent.
pub proof fn law_every_subset_is_split<T>(items: Seq<T>, antecedent: Set<T>)
    requires
        items.no_duplicates(),
    ensures
        exists|mask: nat| #[trigger] splits_off(items, mask, antecedent),
{
    let mask = mask_of(items, antecedent);
    assert forall|x: T| #[trigger]
        assoc_rules::picked(items, mask, true).contains(x) <==> items.contains(x) && antecedent.contains(x) by {
        lemma_mask_of(items, antecedent, x);
    }
    assert forall|x: T| #[trigger]
        assoc_rules::picked(items, mask, false).contains(x) <==> items.contains(x) && !antecedent.contains(x) by {
        lemma_mask_of(items, antecedent, x);
    }
    if items.len() > 0 {
        lemma_mask_of(items, antecedent, items[0]);
    }
    assert(splits_off(items, mask, antecedent));
}

/// Two splits with the same antecedent are the same split.
pub proof fn law_split_is_unique<T>(items: Seq<T>, a: nat, b: nat)
    requires
        items.no_duplicates(),
        a < assoc_rules::two_to(items.len()),
        b < assoc_rules::two_to(items.len()),
        assoc_rules::picked(items, a, true) == assoc_rules::picked(items, b, true),
    ensures
        a == b,
    decreases items.len(),
{
    if items.len() > 0 {
        let rest = items.skip(1);
        let x = assoc_rules::picked(rest, a / 2, true);
        let y = assoc_rules::picked(rest, b / 2, true);
        assert(rest.no_duplicates());
        assert(!rest.contains(items[0])) by {
            if rest.contains(items[0]) {
                let i = choose|i: int| 0 <= i < rest.len() && rest[i] == items[0];
                assert(items[i + 1] == items[0]);
            }
        }
        if a % 2 == 1 && b % 2 == 0 {
            assert(y == seq![items[0]] + x);
            assert(y[0] == items[0]);
            assert(y.contains(items[0]));
            lemma_picked_inside(rest, b / 2, true, items[0]);
        }
        if a % 2 == 0 && b % 2 == 1 {
            assert(x == seq![items[0]] + y);
            assert(x[0] == items[0]);
            assert(x.contains(items[0]));
            lemma_picked_inside(rest, a / 2, true, items[0]);
        }
        if a % 2 == 1 && b % 2 == 1 {
            assert(x =~= (seq![items[0]] + x).skip(1));
            assert(y =~= (seq![items[0]] + y).skip(1));
        }
        assert(x == y);
        law_split_is_unique(rest, a / 2, b / 2);
    }
}

proof fn lemma_picked_len<T>(items: Seq<T>, mask: nat)
    ensures
        assoc_rules::picked(items, mask, true).len() + assoc_rules::picked(items, mask, false).len() == items.len(),
    decreases items.len(),
{
    if items.len() > 0 {
        lemma_picked_len(items.skip(1), mask / 2);
    }
}

proof fn lemma_picked_none<T>(items: Seq<T>, mask: nat)
    requires
        mask < assoc_rules::two_to(items.len()),
    ensures
        assoc_rules::picked(items, mask, true).len() == 0 <==> mask == 0,
        assoc_rules::picked(items, mask, false).len() == 0 <==> mask + 1 == assoc_rules::two_to(items.len()),
    decreases items.len(),
{
    if items.len() > 0 {
        lemma_picked_none(items.skip(1), mask / 2);
    }
}

/// The splits that make rules are exactly those with something on both sides,
/// and no item is lost.
pub proof fn law_rule_splits_are_proper<T>(items: Seq<T>, mask: nat)
    requires
        items.len() >= 2,
        mask < assoc_rules::two_to(items.len()),
    ensures
        (1 <= mask < assoc_rules::last_mask(items.len())) <==> (assoc_rules::picked(items, mask, true).len() > 0
            && assoc_rules::picked(items, mask, false).len() > 0),
        assoc_rules::picked(items, mask, true).len() + assoc_rules::picked(items, mask, false).len() == items.len(),
{
    lemma_picked_len(items, mask);
    lemma_picked_none(items, mask);
}

/// A split keeps the order of the items.
pub proof fn lemma_picked_ascending<T>(items: Seq<T>, mask: nat, chosen: bool, lt: spec_fn(T, T) -> bool)
    requires
        itemset::ascending(items, lt),
    ensures
        itemset::ascending(assoc_rules::picked(items, mask, chosen), lt),
    decreases items.len(),
{
    if items.len() > 0 {
        let rest = items.skip(1);
        assert forall|i: int, j: int| #![trigger rest[i], rest[j]] 0 <= i < j < rest.len() implies lt(
            rest[i],
            rest[j],
        ) by {
            assert(rest[i] == items[i + 1] && rest[j] == items[j + 1]);
        }
        lemma_picked_ascending(rest, mask / 2, chosen, lt);
        let tail = assoc_rules::picked(rest, mask / 2, chosen);
        let all = assoc_rules::picked(items, mask, chosen);
        if (mask % 2 == 1) == chosen {
            assert forall|i: int, j: int| #![trigger all[i], all[j]] 0 <= i < j < all.len() implies lt(
                all[i],
                all[j],
            ) by {
                assert(all[j] == tail[j - 1]);
                if i == 0 {
                    assert(tail.contains(tail[j - 1]));
                    lemma_picked_inside(rest, mask / 2, chosen, tail[j - 1]);
                    let k = choose|k: int| 0 <= k < rest.len() && rest[k] == tail[j - 1];
                    assert(items[k + 1] == rest[k]);
                    assert(lt(items[0], items[k + 1]));
                } else {
                    assert(all[i] == tail[i - 1]);
                }
            }
        }
    }
}

/// Both sides of every rule split of a listed itemset are listed themselves:
/// a rule is never lost for want of a count.
pub proof fn law_sides_are_listed<T>(
    txns: Seq<Seq<T>>,
    min: nat,
    lt: spec_fn(T, T) -> bool,
    out: Seq<(Seq<T>, u64)>,
    k: nat,
    i: int,
    mask: nat,
)
    requires
        itemset::lists_upto(txns, min, lt, out, k),
        0 <= i < out.len(),
        1 <= mask < assoc_rules::last_mask(out[i].0.len()),
    ensures
        itemset::is_listed(out, assoc_rules::picked(out[i].0, mask, true)),
        itemset::is_listed(out, assoc_rules::picked(out[i].0, mask, false)),
{
    let items = out[i].0;
    assert(itemset::frequent(txns, min, lt, items));
    assoc_rules::lemma_two_to_monotone(0, items.len());
    law_rule_splits_are_proper(items, mask);
    lemma_side_frequent(txns, min, lt, items, mask, true);
    lemma_side_frequent(txns, min, lt, items, mask, false);
}

proof fn lemma_side_frequent<T>(
    txns: Seq<Seq<T>>,
    min: nat,
    lt: spec_fn(T, T) -> bool,
    items: Seq<T>,
    mask: nat,
    chosen: bool,
)
    requires
        itemset::frequent(txns, min, lt, items),
        assoc_rules::picked(items, mask, chosen).len() > 0,
    ensures
        itemset::frequent(txns, min, lt, assoc_rules::picked(items, mask, chosen)),
{
    let side = assoc_rules::picked(items, mask, chosen);
    lemma_picked_ascending(items, mask, chosen, lt);
    assert forall|j: int| 0 <= j < side.len() implies items.contains(#[trigger] side[j]) by {
        assert(side.contains(side[j]));
        lemma_picked_inside(items, mask, chosen, side[j]);
    }
    itemset::lemma_support_monotone(txns, side, items);
    assert forall|j: int| 0 <= j < side.len() implies itemset::occurs(txns, #[trigger] side[j]) by {
        let x = choose|x: int| 0 <= x < items.len() && items[x] == side[j];
        assert(itemset::occurs(txns, items[x]));
    }
}

proof fn lemma_occurring_finite<T>(txns: Seq<Seq<T>>)
    ensures
        Set::new(|x: T| itemset::occurs(txns, x)).finite(),
    decreases txns.len(),
{
    let all = Set::new(|x: T| itemset::occurs(txns, x));
    if txns.len() == 0 {
        assert(all =~= Set::empty());
    } else {
        let before = Set::new(|x: T| itemset::occurs(txns.drop_last(), x));
        lemma_occurring_finite(txns.drop_last());
        let last = txns.last().to_set();
        vstd::seq_lib::seq_to_set_is_finite(txns.last());
        assert forall|x: T| #[trigger] all.contains(x) implies before.union(last).contains(x) by {
            let t = choose|t: int| 0 <= t < txns.len() && (#[trigger] txns[t]).contains(x);
            if t < txns.len() - 1 {
                assert(txns.drop_last()[t] == txns[t]);
            }
        }
        assert(all.subset_of(before.union(last)));
        vstd::set_lib::lemma_set_subset_finite(before.union(last), all);
    }
}

/// Without a size cap, a scan that ran to its end lists every frequent itemset
/// whatsoever.
pub proof fn law_uncapped_scan_lists_all<T>(
    txns: Seq<Seq<T>>,
    min: nat,
    lt: spec_fn(T, T) -> bool,
    cap: nat,
    interval: nat,
    out: Seq<(Seq<T>, u64)>,
    candidates: nat,
    s: Seq<T>,
)
    requires
        forall|a: T| !#[trigger] lt(a, a),
        itemset::scanned(txns, min, 0, lt, cap, interval, out, candidates, None, false),
        itemset::frequent(txns, min, lt, s),
    ensures
        itemset::is_listed(out, s),
{
    let all = Set::new(|x: T| itemset::occurs(txns, x));
    lemma_occurring_finite(txns);
    assert(s.no_duplicates()) by {
        assert forall|i: int, j: int| 0 <= i < s.len() && 0 <= j < s.len() && i != j implies s[i] != s[j] by {
            if i < j {
                assert(lt(s[i], s[j]));
            } else {
                assert(lt(s[j], s[i]));
            }
        }
    }
    s.unique_seq_to_set();
    assert(s.to_set().subset_of(all)) by {
        assert forall|x: T| s.to_set().contains(x) implies all.contains(x) by {
            let i = choose|i: int| 0 <= i < s.len() && s[i] == x;
            assert(itemset::occurs(txns, s[i]));
        }
    }
    vstd::set_lib::lemma_len_subset(s.to_set(), all);
}

/// A scan of fewer work units than the check interval is never cancelled.
pub proof fn law_small_scan_is_not_cancelled(
    transactions: Seq<Seq<Seq<char>>>,
    min_support_abs: nat,
    max_itemset_size: nat,
    out: Seq<(Seq<Seq<char>>, u64)>,
    candidates: nat,
    stop: Option<nat>,
    truncated: bool,
)
    requires
        assoc_rules::scanned_names(
            transactions,
            min_support_abs,
            max_itemset_size,
            out,
            candidates,
            stop,
            truncated,
        ),
        assoc_rules::names_work(transactions, min_support_abs, max_itemset_size) < CANCEL_CHECK_INTERVAL,
    ensures
        stop is None,
{
}

/// Ordered rules fall in confidence, equally confident ones in support, and of
/// those the ones with shorter antecedents come first.
pub proof fn law_rules_are_ordered(emitted: Seq<RuleView>, rules: Seq<RuleView>, i: int, j: int)
    requires
        assoc_rules::ordered(emitted, rules),
        0 <= i < j < rules.len(),
    ensures
        assoc_rules::rule_le(rules[i], rules[j]),
{
    let order = choose|order: Seq<usize>| #[trigger] assoc_rules::ordered_by(emitted, rules, order);
    assert(rules[i] == emitted[order[i] as int]);
    assert(rules[j] == emitted[order[j] as int]);
    assert(sorting::comes_first(assoc_rules::rules_le(emitted), order[i] as int, order[j] as int));
}

/// No emitted rule lies below the wanted confidence.
pub proof fn law_rules_are_confident<M: Fn(u64, u64, u64, u64) -> Measures>(
    frequent: Seq<(Seq<Seq<char>>, u64)>,
    min_confidence: u64,
    n: u64,
    measure: M,
    count: nat,
    k: int,
)
    requires
        0 <= k < assoc_rules::all_rules(frequent, min_confidence, n, measure, count).len(),
    ensures
        !bits::less(
            assoc_rules::all_rules(frequent, min_confidence, n, measure, count)[k].measures.confidence,
            min_confidence,
        ),
    decreases count,
{
    let i = count - 1;
    let before = assoc_rules::all_rules(frequent, min_confidence, n, measure, i as nat);
    if k < before.len() {
        law_rules_are_confident(frequent, min_confidence, n, measure, i as nat, k);
    } else {
        lemma_mask_rules_confident(
            frequent,
            min_confidence,
            n,
            measure,
            i,
            assoc_rules::last_mask(frequent[i].0.len()),
            k - before.len(),
        );
    }
}

proof fn lemma_mask_rules_confident<M: Fn(u64, u64, u64, u64) -> Measures>(
    frequent: Seq<(Seq<Seq<char>>, u64)>,
    min_confidence: u64,
    n: u64,
    measure: M,
    i: int,
    mask: nat,
    k: int,
)
    requires
        0 <= k < assoc_rules::mask_rules(frequent, min_confidence, n, measure, i, mask).len(),
    ensures
        !bits::less(
            assoc_rules::mask_rules(frequent, min_confidence, n, measure, i, mask)[k].measures.confidence,
            min_confidence,
        ),
    decreases mask,
{
    let before = assoc_rules::mask_rules(frequent, min_confidence, n, measure, i, (mask - 1) as nat);
    if k < before.len() {
        lemma_mask_rules_confident(frequent, min_confidence, n, measure, i, (mask - 1) as nat, k);
    }
}

/// A split loses nothing.
pub proof fn lemma_picked_all<T>(items: Seq<T>, mask: nat, x: T)
    requires
        items.contains(x),
    ensures
        assoc_rules::picked(items, mask, true).contains(x) || assoc_rules::picked(items, mask, false).contains(x),
    decreases items.len(),
{
    let rest = items.skip(1);
    lemma_skip_contains(items, x);
    lemma_cons_contains(items[0], assoc_rules::picked(rest, mask / 2, true), x);
    lemma_cons_contains(items[0], assoc_rules::picked(rest, mask / 2, false), x);
    if rest.contains(x) {
        lemma_picked_all(rest, mask / 2, x);
    }
}

/// The itemset at `f` holds what the two sides of a rule hold together.
pub open spec fn is_whole(frequent: Seq<(Seq<Seq<char>>, u64)>, rule: RuleView, f: int) -> bool {
    &&& 0 <= f < frequent.len()
    &&& frequent[f].0.to_set() == rule.antecedent.to_set().union(rule.consequent.to_set())
}

/// However a run ends, the two sides of each rule and their union are listed.
pub proof fn law_rules_have_counts<M: Fn(u64, u64, u64, u64) -> Measures, F: Fn() -> bool>(
    frequent: Seq<(Seq<Seq<char>>, u64)>,
    min_confidence: u64,
    n: u64,
    measure: M,
    requested: F,
    rules: Seq<RuleView>,
    cancelled: bool,
    k: int,
)
    requires
        assoc_rules::generated(frequent, min_confidence, n, measure, requested, rules, cancelled),
        0 <= k < rules.len(),
    ensures
        itemset::is_listed(frequent, rules[k].antecedent),
        itemset::is_listed(frequent, rules[k].consequent),
        exists|f: int| #[trigger] is_whole(frequent, rules[k], f),
{
    let rule = rules[k];
    assert(assoc_rules::rule_answered(frequent, n, measure, rule));
    let (i, mask) = choose|i: int, mask: nat| #[trigger]
        assoc_rules::answered_by(frequent, n, measure, rule, i, mask);
    lemma_split_is_whole(frequent, rule, i, mask);
}

/// The two sides of a split make up the itemset.
pub proof fn lemma_split_is_whole(frequent: Seq<(Seq<Seq<char>>, u64)>, rule: RuleView, i: int, mask: nat)
    requires
        0 <= i < frequent.len(),
        rule.antecedent == assoc_rules::picked(frequent[i].0, mask, true),
        rule.consequent == assoc_rules::picked(frequent[i].0, mask, false),
    ensures
        is_whole(frequent, rule, i),
{
    let items = frequent[i].0;
    let both = rule.antecedent.to_set().union(rule.consequent.to_set());
    assert forall|x: Seq<char>| items.to_set().contains(x) <==> both.contains(x) by {
        if items.contains(x) {
            lemma_picked_all(items, mask, x);
        }
        if rule.antecedent.contains(x) {
            lemma_picked_inside(items, mask, true, x);
        }
        if rule.consequent.contains(x) {
            lemma_picked_inside(items, mask, false, x);
        }
    }
    assert(items.to_set() =~= both);
}

/// However a run ends, the measures of each rule are the answer for the listed
/// counts of the union of its sides, of its antecedent and of its consequent, and
/// its confidence does not lie below the wanted one.
pub proof fn law_rules_are_measured<M: Fn(u64, u64, u64, u64) -> Measures, F: Fn() -> bool>(
    frequent: Seq<(Seq<Seq<char>>, u64)>,
    min_confidence: u64,
    n: u64,
    measure: M,
    requested: F,
    rules: Seq<RuleView>,
    cancelled: bool,
    k: int,
    f: int,
    a: int,
    b: int,
)
    requires
        assoc_rules::generated(frequent, min_confidence, n, measure, requested, rules, cancelled),
        forall|i: int, j: int|
            #![trigger frequent[i], frequent[j]]
            0 <= i < j < frequent.len() ==> frequent[i].0.to_set() != frequent[j].0.to_set(),
        0 <= k < rules.len(),
        is_whole(frequent, rules[k], f),
        0 <= a < frequent.len(),
        frequent[a].0 == rules[k].antecedent,
        0 <= b < frequent.len(),
        frequent[b].0 == rules[k].consequent,
    ensures
        call_ensures(measure, (frequent[f].1, frequent[a].1, frequent[b].1, n), rules[k].measures),
        !bits::less(rules[k].measures.confidence, min_confidence),
{
    let rule = rules[k];
    assert(assoc_rules::rule_answered(frequent, n, measure, rule));
    let (i, mask) = choose|i: int, mask: nat| #[trigger]
        assoc_rules::answered_by(frequent, n, measure, rule, i, mask);
    lemma_split_is_whole(frequent, rule, i, mask);
    assert(frequent[i].0.to_set() == frequent[f].0.to_set());
    assert(i == f);
    listing::lemma_last_place(frequent, rule.antecedent);
    listing::lemma_last_place(frequent, rule.consequent);
    assert(frequent[listing::listed_at(frequent, rule.antecedent)].0.to_set() == frequent[a].0.to_set());
    assert(frequent[listing::listed_at(frequent, rule.consequent)].0.to_set() == frequent[b].0.to_set());
    law_rules_are_confident(frequent, min_confidence, n, measure, frequent.len(), k);
    assert(assoc_rules::all_rules(frequent, min_confidence, n, measure, frequent.len())[k] == rule);
}

} // verus!
