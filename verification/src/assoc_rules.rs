//! Association rule mining over market baskets.
//!
//! Transactions are itemsets of names. A scan finds the itemsets that enough
//! transactions hold, and every way of splitting such an itemset in two gives
//! a rule that is kept where it is confident enough.

use vstd::prelude::*;
use crate::bits;
use crate::bits::{is_less, is_less_eq, is_same};
use crate::json;
use crate::json::{get_field, parse_json, Json, JsonView};
use crate::mining::itemset;
use crate::mining::level;
use crate::mining::level::scan_numbered;
use crate::mining::listing;
use crate::mining::listing::{lookup, sort_listing};
use crate::mining::names;
use crate::mining::names::{insert_name, number_items};
use crate::sorting;
use crate::sorting::{sorted_positions, RowOrder};
use crate::text;
use crate::text::push_decimal;

verus! {

/// Most candidate itemsets of one size that a scan keeps before it stops.
pub const MAX_CANDIDATES: usize = 2_000_000;

/// Most rules that are emitted before the listing is cut.
pub const MAX_RULES: usize = 1_000_000;

/// Work units between two looks at the cancellation flag.
pub const CANCEL_CHECK_INTERVAL: u64 = 4096;

/// Sets or resets the flag by which a running scan is asked to stop.
pub fn set_assoc_cancel(flag: &mut bool, cancel: bool)
    ensures
        *final(flag) == cancel,
{
    *flag = cancel;
}

/// Counts one unit of work and, each time the count is a multiple of
/// [`CANCEL_CHECK_INTERVAL`], asks whether the caller wants the scan to stop.
/// In between nobody is asked and the answer is no.
pub fn cancel_check<F: Fn() -> bool>(work: &mut u64, requested: &F) -> (stop: bool)
    requires
        call_requires(*requested, ()),
    ensures
        *final(work) == (*old(work) + 1) % 0x1_0000_0000_0000_0000,
        *final(work) % CANCEL_CHECK_INTERVAL != 0 ==> !stop,
        *final(work) % CANCEL_CHECK_INTERVAL == 0 ==> call_ensures(*requested, (), stop),
{
    *work = work.wrapping_add(1);
    if *work % CANCEL_CHECK_INTERVAL == 0 {
        requested()
    } else {
        false
    }
}

/// What a scan of named transactions hands back; see [`itemset::scanned`].
pub open spec fn scanned_names(
    transactions: Seq<Seq<Seq<char>>>,
    min_support_abs: nat,
    max_itemset_size: nat,
    out: Seq<(Seq<Seq<char>>, u64)>,
    candidates: nat,
    stop: Option<nat>,
    truncated: bool,
) -> bool {
    itemset::scanned(
        transactions,
        min_support_abs,
        max_itemset_size,
        names::by_text(),
        MAX_CANDIDATES as nat,
        CANCEL_CHECK_INTERVAL as nat,
        out,
        candidates,
        stop,
        truncated,
    )
}

/// The work units of a whole scan of named transactions.
pub open spec fn names_work(transactions: Seq<Seq<Seq<char>>>, min_support_abs: nat, max_itemset_size: nat) -> nat {
    itemset::scan_work(
        transactions,
        min_support_abs,
        names::by_text(),
        itemset::size_limit(transactions, max_itemset_size),
    )
}

/// Every transaction lists its items in order, each once.
pub open spec fn are_itemsets(transactions: Seq<Seq<Seq<char>>>) -> bool {
    forall|t: int|
        0 <= t < transactions.len() ==> itemset::ascending(#[trigger] transactions[t], names::by_text())
}

/// The strings that a list of item numbers stands for.
fn name_items(item_names: &Vec<String>, ids: &Vec<usize>) -> (out: Vec<String>)
    requires
        names::in_range(text::texts(item_names@), ids@),
    ensures
        text::texts(out@) == names::named(text::texts(item_names@), ids@),
{
    let ghost all = text::texts(item_names@);
    let mut out: Vec<String> = Vec::new();
    let mut i: usize = 0;
    while i < ids.len()
        invariant
            all == text::texts(item_names@),
            names::in_range(all, ids@),
            i <= ids@.len(),
            out@.len() == i,
            forall|x: int| 0 <= x < i ==> (#[trigger] out@[x])@ == all[ids@[x] as int],
        decreases ids.len() - i,
    {
        assert(ids@[i as int] < all.len());
        let name: String = item_names[ids[i]].clone();
        out.push(name);
        i = i + 1;
    }
    assert(text::texts(out@) =~= names::named(all, ids@));
    out
}

/// Mines the frequent itemsets: those that at least `min_support_abs`
/// transactions hold, of at most `max_itemset_size` items (`0`: any number).
///
/// Gives the itemsets with their support, the number of candidates whose
/// support was counted, and whether the scan was cancelled; `truncated` is set
/// where too many candidates piled up.
pub fn apriori<F: Fn() -> bool>(
    transactions: &Vec<Vec<String>>,
    min_support_abs: u64,
    max_itemset_size: usize,
    truncated: &mut bool,
    requested: &F,
) -> (r: (Vec<(Vec<String>, u64)>, u64, bool))
    requires
        call_requires(*requested, ()),
        are_itemsets(names::text_rows(transactions@)),
    ensures
        exists|stop: Option<nat>, cut: bool|
            r.2 == (stop is Some) && *final(truncated) == (*old(truncated) || cut) && #[trigger] scanned_names(
                names::text_rows(transactions@),
                min_support_abs as nat,
                max_itemset_size as nat,
                names::text_listing(r.0@),
                r.1 as nat,
                stop,
                cut,
            ) && level::asked(
                *requested,
                stop,
                cut,
                names_work(names::text_rows(transactions@), min_support_abs as nat, max_itemset_size as nat),
            ),
{
    let ghost table = names::text_rows(transactions@);
    let (item_names, ids) = number_items(transactions);
    let count: usize = item_names.len();
    let ghost all = text::texts(item_names@);
    let ghost rows = level::rows(ids@);
    let scan = scan_numbered(&ids, count, min_support_abs, max_itemset_size, requested);
    let ghost found = level::listing(scan.frequent@);
    let ghost stop = choose|stop: Option<nat>| #[trigger]
        level::ended(rows, min_support_abs as nat, max_itemset_size as nat, *requested, scan, stop);
    let mut out: Vec<(Vec<String>, u64)> = Vec::new();
    let mut i: usize = 0;
    proof {
        assert forall|x: int| 0 <= x < found.len() implies names::in_range(all, (#[trigger] found[x]).0) by {
            names::lemma_scan_in_range(
                all,
                rows,
                table,
                min_support_abs as nat,
                max_itemset_size as nat,
                MAX_CANDIDATES as nat,
                CANCEL_CHECK_INTERVAL as nat,
                found,
                scan.candidates as nat,
                stop,
                scan.truncated,
                x,
            );
        }
    }
    while i < scan.frequent.len()
        invariant
            all == text::texts(item_names@),
            found == level::listing(scan.frequent@),
            forall|x: int| 0 <= x < found.len() ==> names::in_range(all, (#[trigger] found[x]).0),
            i <= scan.frequent@.len(),
            out@.len() == i,
            forall|x: int|
                0 <= x < i ==> text::texts((#[trigger] out@[x]).0@) == names::named(all, found[x].0) && out@[x].1
                    == found[x].1,
        decreases scan.frequent.len() - i,
    {
        assert(found[i as int].0 == scan.frequent@[i as int].0@);
        let items: Vec<String> = name_items(&item_names, &scan.frequent[i].0);
        out.push((items, scan.frequent[i].1));
        i = i + 1;
    }
    proof {
        let named_out = names::text_listing(out@);
        assert forall|x: int| 0 <= x < found.len() implies #[trigger] named_out[x] == (
            names::named(all, found[x].0),
            found[x].1,
        ) by {
            assert(text::texts(out@[x].0@) == names::named(all, found[x].0));
        }
        names::lemma_named_scan(
            all,
            rows,
            table,
            min_support_abs as nat,
            max_itemset_size as nat,
            MAX_CANDIDATES as nat,
            CANCEL_CHECK_INTERVAL as nat,
            found,
            named_out,
            scan.candidates as nat,
            stop,
            scan.truncated,
        );
    }
    let cut: bool = scan.truncated;
    if cut {
        *truncated = true;
    }
    let r = (out, scan.candidates, scan.cancelled);
    assert(scanned_names(
        table,
        min_support_abs as nat,
        max_itemset_size as nat,
        names::text_listing(r.0@),
        r.1 as nat,
        stop,
        cut,
    ));
    r
}

/// How strong a rule is, as bit patterns of doubles.
#[derive(Debug, Clone, Copy, PartialEq, Eq, Structural)]
pub struct Measures {
    /// The share of the transactions that hold both sides.
    pub support: u64,
    /// The share of the transactions with the antecedent that hold the
    /// consequent too.
    pub confidence: u64,
    /// The confidence over the share of the transactions that hold the
    /// consequent.
    pub lift: u64,
}

/// One mined association rule.
#[derive(Debug, PartialEq)]
pub struct Rule {
    pub antecedent: Vec<String>,
    pub consequent: Vec<String>,
    /// Bits of a double; see [`Measures`].
    pub support: u64,
    /// Bits of a double; see [`Measures`].
    pub confidence: u64,
    /// Bits of a double; see [`Measures`].
    pub lift: u64,
}

/// A rule as a mathematical value.
#[verifier::ext_equal]
pub struct RuleView {
    pub antecedent: Seq<Seq<char>>,
    pub consequent: Seq<Seq<char>>,
    pub measures: Measures,
}

impl View for Rule {
    type V = RuleView;

    open spec fn view(&self) -> RuleView {
        RuleView {
            antecedent: text::texts(self.antecedent@),
            consequent: text::texts(self.consequent@),
            measures: Measures { support: self.support, confidence: self.confidence, lift: self.lift },
        }
    }
}

/// A copy of a list of strings.
fn copy_texts(v: &Vec<String>) -> (r: Vec<String>)
    ensures
        text::texts(r@) == text::texts(v@),
{
    let r: Vec<String> = v.clone();
    assert(text::texts(r@) =~= text::texts(v@));
    r
}

impl Clone for Rule {
    fn clone(&self) -> (r: Self)
        ensures
            r@ == self@,
    {
        Rule {
            antecedent: copy_texts(&self.antecedent),
            consequent: copy_texts(&self.consequent),
            support: self.support,
            confidence: self.confidence,
            lift: self.lift,
        }
    }
}

/// The rules of a list.
pub open spec fn rule_views(v: Seq<Rule>) -> Seq<RuleView> {
    Seq::new(v.len(), |i: int| v[i]@)
}

/// Two to the power `n`: how many subsets `n` items have.
pub open spec fn two_to(n: nat) -> nat
    decreases n,
{
    if n == 0 {
        1
    } else {
        2 * two_to((n - 1) as nat)
    }
}

/// The items whose binary digit in `mask`, counted from the lowest, is 1
/// (`chosen`) or 0 (not `chosen`).
pub open spec fn picked<T>(items: Seq<T>, mask: nat, chosen: bool) -> Seq<T>
    decreases items.len(),
{
    if items.len() == 0 {
        Seq::empty()
    } else if (mask % 2 == 1) == chosen {
        seq![items[0]] + picked(items.skip(1), mask / 2, chosen)
    } else {
        picked(items.skip(1), mask / 2, chosen)
    }
}

/// The measuring function gives one answer for one set of counts.
pub open spec fn one_answer<M: Fn(u64, u64, u64, u64) -> Measures>(measure: M) -> bool {
    forall|f: u64, a: u64, b: u64, n: u64, x: Measures, y: Measures|
        #![trigger call_ensures(measure, (f, a, b, n), x), call_ensures(measure, (f, a, b, n), y)]
        call_ensures(measure, (f, a, b, n), x) && call_ensures(measure, (f, a, b, n), y) ==> x == y
}

/// The answer of the measuring function for an itemset held by `f` transactions
/// of `n`, an antecedent held by `a` and a consequent held by `b`.
pub open spec fn measured<M: Fn(u64, u64, u64, u64) -> Measures>(measure: M, f: u64, a: u64, b: u64, n: u64) -> Measures {
    choose|x: Measures| call_ensures(measure, (f, a, b, n), x)
}

/// The rule that splits the itemset at `i` by `mask`, where both sides are
/// listed and it is confident enough.
pub open spec fn rule_at<M: Fn(u64, u64, u64, u64) -> Measures>(
    frequent: Seq<(Seq<Seq<char>>, u64)>,
    min_confidence: u64,
    n: u64,
    measure: M,
    i: int,
    mask: nat,
) -> Option<RuleView> {
    let antecedent = picked(frequent[i].0, mask, true);
    let consequent = picked(frequent[i].0, mask, false);
    match (listing::listed_count(frequent, antecedent), listing::listed_count(frequent, consequent)) {
        (Some(a), Some(b)) => {
            let measures = measured(measure, frequent[i].1, a, b, n);
            if bits::less(measures.confidence, min_confidence) {
                None
            } else {
                Some(RuleView { antecedent, consequent, measures })
            }
        },
        _ => None,
    }
}

/// The measures of the split by `mask` are an answer of the measuring function.
pub open spec fn answered<M: Fn(u64, u64, u64, u64) -> Measures>(
    frequent: Seq<(Seq<Seq<char>>, u64)>,
    n: u64,
    measure: M,
    i: int,
    mask: nat,
) -> bool {
    match (
        listing::listed_count(frequent, picked(frequent[i].0, mask, true)),
        listing::listed_count(frequent, picked(frequent[i].0, mask, false)),
    ) {
        (Some(a), Some(b)) => call_ensures(
            measure,
            (frequent[i].1, a, b, n),
            measured(measure, frequent[i].1, a, b, n),
        ),
        _ => true,
    }
}

/// A rule splits the itemset at `i` by `mask`, and its measures are the answer
/// for the counts that are listed for the whole and for the two sides.
pub open spec fn answered_by<M: Fn(u64, u64, u64, u64) -> Measures>(
    frequent: Seq<(Seq<Seq<char>>, u64)>,
    n: u64,
    measure: M,
    rule: RuleView,
    i: int,
    mask: nat,
) -> bool {
    &&& 0 <= i < frequent.len()
    &&& 1 <= mask < last_mask(frequent[i].0.len())
    &&& rule.antecedent == picked(frequent[i].0, mask, true)
    &&& rule.consequent == picked(frequent[i].0, mask, false)
    &&& match (
        listing::listed_count(frequent, rule.antecedent),
        listing::listed_count(frequent, rule.consequent),
    ) {
        (Some(a), Some(b)) => call_ensures(measure, (frequent[i].1, a, b, n), rule.measures),
        _ => false,
    }
}

/// A rule splits a listed itemset, and its measures are the answer for the counts.
pub open spec fn rule_answered<M: Fn(u64, u64, u64, u64) -> Measures>(
    frequent: Seq<(Seq<Seq<char>>, u64)>,
    n: u64,
    measure: M,
    rule: RuleView,
) -> bool {
    exists|i: int, mask: nat| #[trigger] answered_by(frequent, n, measure, rule, i, mask)
}

/// The rules of the itemset at `i` for the masks from 1 up to, but without, `mask`.
pub open spec fn mask_rules<M: Fn(u64, u64, u64, u64) -> Measures>(
    frequent: Seq<(Seq<Seq<char>>, u64)>,
    min_confidence: u64,
    n: u64,
    measure: M,
    i: int,
    mask: nat,
) -> Seq<RuleView>
    decreases mask,
{
    if mask <= 1 {
        Seq::empty()
    } else {
        let before = mask_rules(frequent, min_confidence, n, measure, i, (mask - 1) as nat);
        match rule_at(frequent, min_confidence, n, measure, i, (mask - 1) as nat) {
            Some(rule) => before.push(rule),
            None => before,
        }
    }
}

/// The mask at which the splits of an itemset of `len` items end: the one that
/// would leave no consequent. Itemsets of fewer than two items have no splits.
pub open spec fn last_mask(len: nat) -> nat {
    if len < 2 {
        1
    } else {
        (two_to(len) - 1) as nat
    }
}

/// The rules of the first `count` itemsets.
pub open spec fn all_rules<M: Fn(u64, u64, u64, u64) -> Measures>(
    frequent: Seq<(Seq<Seq<char>>, u64)>,
    min_confidence: u64,
    n: u64,
    measure: M,
    count: nat,
) -> Seq<RuleView>
    decreases count,
{
    if count == 0 {
        Seq::empty()
    } else {
        let i = count - 1;
        all_rules(frequent, min_confidence, n, measure, i as nat) + mask_rules(
            frequent,
            min_confidence,
            n,
            measure,
            i,
            last_mask(frequent[i].0.len()),
        )
    }
}

/// The splits of the first `count` itemsets, each of which is a unit of work.
pub open spec fn split_work(frequent: Seq<(Seq<Seq<char>>, u64)>, count: nat) -> nat
    decreases count,
{
    if count == 0 {
        0
    } else {
        (split_work(frequent, (count - 1) as nat) + last_mask(frequent[count - 1].0.len()) - 1) as nat
    }
}

/// Powers of two grow with the exponent.
pub proof fn lemma_two_to_monotone(a: nat, b: nat)
    requires
        a <= b,
    ensures
        1 <= two_to(a) <= two_to(b),
    decreases b,
{
    if a < b {
        lemma_two_to_monotone(a, (b - 1) as nat);
    } else if b > 0 {
        lemma_two_to_monotone((a - 1) as nat, (b - 1) as nat);
    }
}

proof fn lemma_two_to_63()
    ensures
        two_to(63) == 0x8000_0000_0000_0000,
{
    reveal_with_fuel(two_to, 64);
}

fn subset_count(len: usize) -> (r: u64)
    requires
        len < 64,
    ensures
        r == two_to(len as nat),
        1 <= r <= 0x8000_0000_0000_0000,
{
    let mut r: u64 = 1;
    let mut i: usize = 0;
    proof {
        lemma_two_to_63();
    }
    while i < len
        invariant
            i <= len < 64,
            r == two_to(i as nat),
            two_to(63) == 0x8000_0000_0000_0000,
        decreases len - i,
    {
        proof {
            lemma_two_to_monotone((i + 1) as nat, 63);
        }
        r = r * 2;
        i = i + 1;
    }
    proof {
        lemma_two_to_monotone(len as nat, 63);
    }
    r
}

/// Splits an itemset by the binary digits of `mask`.
fn split_items(items: &Vec<String>, mask: u64) -> (r: (Vec<String>, Vec<String>))
    ensures
        text::texts(r.0@) == picked(text::texts(items@), mask as nat, true),
        text::texts(r.1@) == picked(text::texts(items@), mask as nat, false),
{
    let ghost all = text::texts(items@);
    let mut ant: Vec<String> = Vec::new();
    let mut cons: Vec<String> = Vec::new();
    let mut rest: u64 = mask;
    let mut i: usize = 0;
    assert(all.skip(0) =~= all);
    assert(text::texts(ant@) + picked(all, mask as nat, true) =~= picked(all, mask as nat, true));
    assert(text::texts(cons@) + picked(all, mask as nat, false) =~= picked(all, mask as nat, false));
    while i < items.len()
        invariant
            all == text::texts(items@),
            i <= items@.len(),
            picked(all, mask as nat, true) == text::texts(ant@) + picked(all.skip(i as int), rest as nat, true),
            picked(all, mask as nat, false) == text::texts(cons@) + picked(all.skip(i as int), rest as nat, false),
        decreases items.len() - i,
    {
        let item: String = items[i].clone();
        let ghost tail = all.skip(i as int);
        let ghost before_ant = text::texts(ant@);
        let ghost before_cons = text::texts(cons@);
        assert(tail.skip(1) =~= all.skip(i + 1));
        assert(tail[0] == item@);
        if rest % 2 == 1 {
            ant.push(item);
            assert(text::texts(ant@) =~= before_ant + seq![item@]);
        } else {
            cons.push(item);
            assert(text::texts(cons@) =~= before_cons + seq![item@]);
        }
        proof {
            assert(picked(all, mask as nat, true) =~= text::texts(ant@) + picked(
                all.skip(i + 1),
                (rest / 2) as nat,
                true,
            ));
            assert(picked(all, mask as nat, false) =~= text::texts(cons@) + picked(
                all.skip(i + 1),
                (rest / 2) as nat,
                false,
            ));
        }
        rest = rest / 2;
        i = i + 1;
    }
    assert(picked(all.skip(i as int), rest as nat, true) =~= Seq::empty());
    assert(picked(all.skip(i as int), rest as nat, false) =~= Seq::empty());
    (ant, cons)
}

proof fn lemma_mask_rules_prefix<M: Fn(u64, u64, u64, u64) -> Measures>(
    frequent: Seq<(Seq<Seq<char>>, u64)>,
    min_confidence: u64,
    n: u64,
    measure: M,
    i: int,
    mask: nat,
    end: nat,
)
    requires
        mask <= end,
    ensures
        mask_rules(frequent, min_confidence, n, measure, i, mask).is_prefix_of(
            mask_rules(frequent, min_confidence, n, measure, i, end),
        ),
    decreases end,
{
    if mask < end {
        lemma_mask_rules_prefix(frequent, min_confidence, n, measure, i, mask, (end - 1) as nat);
    }
}

proof fn lemma_all_rules_prefix<M: Fn(u64, u64, u64, u64) -> Measures>(
    frequent: Seq<(Seq<Seq<char>>, u64)>,
    min_confidence: u64,
    n: u64,
    measure: M,
    count: nat,
    end: nat,
)
    requires
        count <= end,
    ensures
        all_rules(frequent, min_confidence, n, measure, count).is_prefix_of(
            all_rules(frequent, min_confidence, n, measure, end),
        ),
    decreases end,
{
    if count < end {
        lemma_all_rules_prefix(frequent, min_confidence, n, measure, count, (end - 1) as nat);
    }
}

/// What has been emitted in the middle of an itemset is a prefix of all rules.
proof fn lemma_partial_prefix<M: Fn(u64, u64, u64, u64) -> Measures>(
    frequent: Seq<(Seq<Seq<char>>, u64)>,
    min_confidence: u64,
    n: u64,
    measure: M,
    i: nat,
    mask: nat,
)
    requires
        i < frequent.len(),
        mask <= last_mask(frequent[i as int].0.len()),
    ensures
        (all_rules(frequent, min_confidence, n, measure, i) + mask_rules(
            frequent,
            min_confidence,
            n,
            measure,
            i as int,
            mask,
        )).is_prefix_of(all_rules(frequent, min_confidence, n, measure, frequent.len())),
{
    lemma_mask_rules_prefix(
        frequent,
        min_confidence,
        n,
        measure,
        i as int,
        mask,
        last_mask(frequent[i as int].0.len()),
    );
    lemma_all_rules_prefix(frequent, min_confidence, n, measure, i + 1, frequent.len());
}

proof fn lemma_split_work_monotone(frequent: Seq<(Seq<Seq<char>>, u64)>, count: nat, end: nat)
    requires
        count <= end,
    ensures
        split_work(frequent, count) <= split_work(frequent, end),
    decreases end,
{
    if count < end {
        lemma_split_work_monotone(frequent, count, (end - 1) as nat);
        lemma_two_to_monotone(0, frequent[end - 1].0.len());
        lemma_last_mask(frequent[end - 1].0.len());
    }
}

proof fn lemma_last_mask(len: nat)
    ensures
        last_mask(len) >= 1,
{
    if len >= 2 {
        lemma_two_to_monotone(1, len);
        assert(two_to(1) == 2) by {
            reveal_with_fuel(two_to, 2);
        }
    }
}

/// A run that was not cancelled stops where there are too many rules.
pub open spec fn rules_cut<M: Fn(u64, u64, u64, u64) -> Measures>(
    frequent: Seq<(Seq<Seq<char>>, u64)>,
    min_confidence: u64,
    n: u64,
    measure: M,
    cancelled: bool,
) -> bool {
    !cancelled && all_rules(frequent, min_confidence, n, measure, frequent.len()).len() >= MAX_RULES
}

/// The rules of the splits that come before that of the itemset at `i` by `mask`.
pub open spec fn rules_before<M: Fn(u64, u64, u64, u64) -> Measures>(
    frequent: Seq<(Seq<Seq<char>>, u64)>,
    min_confidence: u64,
    n: u64,
    measure: M,
    i: nat,
    mask: nat,
) -> Seq<RuleView> {
    all_rules(frequent, min_confidence, n, measure, i) + mask_rules(
        frequent,
        min_confidence,
        n,
        measure,
        i as int,
        mask,
    )
}

/// The splits that come before that of the itemset at `i` by `mask` have their
/// measures from the measuring function.
pub open spec fn answered_before<M: Fn(u64, u64, u64, u64) -> Measures>(
    frequent: Seq<(Seq<Seq<char>>, u64)>,
    n: u64,
    measure: M,
    i: nat,
    mask: nat,
) -> bool {
    forall|x: int, m: nat|
        (0 <= x < i && 1 <= m < last_mask(frequent[x].0.len())) || (x == i && 1 <= m < mask) ==> #[trigger] answered(
            frequent,
            n,
            measure,
            x,
            m,
        )
}

/// There is a split of the itemset at `i` by `mask`.
pub open spec fn is_split(frequent: Seq<(Seq<Seq<char>>, u64)>, i: nat, mask: nat) -> bool {
    i < frequent.len() && 1 <= mask < last_mask(frequent[i as int].0.len())
}

/// The run was asked to stop before the split of the itemset at `i` by `mask`:
/// the rules are those of the splits before.
pub open spec fn stopped_before<M: Fn(u64, u64, u64, u64) -> Measures, F: Fn() -> bool>(
    frequent: Seq<(Seq<Seq<char>>, u64)>,
    min_confidence: u64,
    n: u64,
    measure: M,
    requested: F,
    rules: Seq<RuleView>,
    i: nat,
    mask: nat,
) -> bool {
    &&& is_split(frequent, i, mask)
    &&& rules == rules_before(frequent, min_confidence, n, measure, i, mask)
    &&& answered_before(frequent, n, measure, i, mask)
    &&& level::stops_on(requested, split_work(frequent, i) + mask)
}

/// The split of the itemset at `i` by `mask` gave the last rule that there is room
/// for.
pub open spec fn filled_by<M: Fn(u64, u64, u64, u64) -> Measures, F: Fn() -> bool>(
    frequent: Seq<(Seq<Seq<char>>, u64)>,
    min_confidence: u64,
    n: u64,
    measure: M,
    requested: F,
    rules: Seq<RuleView>,
    i: nat,
    mask: nat,
) -> bool {
    &&& is_split(frequent, i, mask)
    &&& rules == rules_before(frequent, min_confidence, n, measure, i, mask + 1)
    &&& rules.len() == MAX_RULES
    &&& answered_before(frequent, n, measure, i, mask + 1)
    &&& split_work(frequent, i) + mask >= CANCEL_CHECK_INTERVAL ==> call_ensures(requested, (), false)
}

/// What rule generation hands back: all rules, or the first [`MAX_RULES`] of
/// them, or, where it was cancelled, those of the splits up to there. A run looks
/// at every [`CANCEL_CHECK_INTERVAL`]th split whether it is to stop.
pub open spec fn generated<M: Fn(u64, u64, u64, u64) -> Measures, F: Fn() -> bool>(
    frequent: Seq<(Seq<Seq<char>>, u64)>,
    min_confidence: u64,
    n: u64,
    measure: M,
    requested: F,
    rules: Seq<RuleView>,
    cancelled: bool,
) -> bool {
    let all = all_rules(frequent, min_confidence, n, measure, frequent.len());
    let cut = rules_cut(frequent, min_confidence, n, measure, cancelled);
    let work = split_work(frequent, frequent.len());
    &&& rules.is_prefix_of(all)
    &&& forall|k: int| 0 <= k < rules.len() ==> rule_answered(frequent, n, measure, #[trigger] rules[k])
    &&& cut ==> exists|i: nat, mask: nat| #[trigger]
        filled_by(frequent, min_confidence, n, measure, requested, rules, i, mask)
    &&& cancelled ==> work >= CANCEL_CHECK_INTERVAL && exists|i: nat, mask: nat| #[trigger]
        stopped_before(frequent, min_confidence, n, measure, requested, rules, i, mask)
    &&& !cut && !cancelled ==> {
        &&& rules == all
        &&& answered_before(frequent, n, measure, frequent.len(), 1)
        &&& work >= CANCEL_CHECK_INTERVAL ==> call_ensures(requested, (), false)
    }
}

/// Generates the rules of a listing of frequent itemsets: each non-empty proper
/// subset of an itemset as antecedent, the rest as consequent, kept unless its
/// confidence lies below `min_confidence` (the bits of a double).
///
/// `measure(f, a, b, n)` gives the measures of a rule whose itemset `f` of the
/// `n` transactions hold, whose antecedent `a` hold and whose consequent `b`
/// hold. Gives the rules and whether the run was cancelled; `truncated` is set
/// where the listing of rules was cut at [`MAX_RULES`].
pub fn generate_rules<M: Fn(u64, u64, u64, u64) -> Measures, F: Fn() -> bool>(
    frequent: &Vec<(Vec<String>, u64)>,
    min_confidence: u64,
    n: u64,
    truncated: &mut bool,
    measure: &M,
    requested: &F,
) -> (r: (Vec<Rule>, bool))
    requires
        call_requires(*requested, ()),
        forall|f: u64, a: u64, b: u64| call_requires(*measure, (f, a, b, n)),
        one_answer(*measure),
        forall|i: int| 0 <= i < frequent@.len() ==> (#[trigger] frequent@[i]).0@.len() < 64,
    ensures
        generated(
            names::text_listing(frequent@),
            min_confidence,
            n,
            *measure,
            *requested,
            rule_views(r.0@),
            r.1,
        ),
        *final(truncated) == (*old(truncated) || rules_cut(
            names::text_listing(frequent@),
            min_confidence,
            n,
            *measure,
            r.1,
        )),
{
    let ghost view = names::text_listing(frequent@);
    let ghost everything = all_rules(view, min_confidence, n, *measure, view.len());
    let order: Vec<usize> = sort_listing(frequent);
    let mut rules: Vec<Rule> = Vec::new();
    let mut work: u64 = 0;
    let mut i: usize = 0;
    assert(rule_views(rules@) =~= Seq::empty());
    while i < frequent.len()
        invariant
            call_requires(*requested, ()),
            forall|f: u64, a: u64, b: u64| call_requires(*measure, (f, a, b, n)),
            one_answer(*measure),
            view == names::text_listing(frequent@),
            everything == all_rules(view, min_confidence, n, *measure, view.len()),
            listing::sorted(view, order@),
            forall|x: int| 0 <= x < frequent@.len() ==> (#[trigger] frequent@[x]).0@.len() < 64,
            i <= frequent@.len(),
            *truncated == *old(truncated),
            rules@.len() < MAX_RULES,
            rule_views(rules@) == all_rules(view, min_confidence, n, *measure, i as nat),
            level::polled(*requested, work, split_work(view, i as nat)),
            forall|k: int|
                0 <= k < rules@.len() ==> rule_answered(view, n, *measure, #[trigger] rule_views(rules@)[k]),
            answered_before(view, n, *measure, i as nat, 1),
        decreases frequent.len() - i,
    {
        let items: &Vec<String> = &frequent[i].0;
        let count_f: u64 = frequent[i].1;
        let ghost done = all_rules(view, min_confidence, n, *measure, i as nat);
        let ghost polls = split_work(view, i as nat);
        assert(view[i as int] == (text::texts(items@), count_f));
        let len: usize = items.len();
        proof {
            lemma_last_mask(len as nat);
            lemma_split_work_monotone(view, (i + 1) as nat, view.len());
        }
        let end: u64 = if len < 2 { 1 } else { subset_count(len) - 1 };
        assert(end == last_mask(len as nat));
        let mut mask: u64 = 1;
        assert(done + mask_rules(view, min_confidence, n, *measure, i as int, 1) =~= done);
        while mask < end
            invariant
                call_requires(*requested, ()),
                forall|f: u64, a: u64, b: u64| call_requires(*measure, (f, a, b, n)),
                one_answer(*measure),
                view == names::text_listing(frequent@),
                everything == all_rules(view, min_confidence, n, *measure, view.len()),
                listing::sorted(view, order@),
                i < frequent@.len(),
                view[i as int] == (text::texts(items@), count_f),
                len == items@.len(),
                end == last_mask(len as nat),
                1 <= mask <= end,
                *truncated == *old(truncated),
                rules@.len() < MAX_RULES,
                done == all_rules(view, min_confidence, n, *measure, i as nat),
                rule_views(rules@) == rules_before(view, min_confidence, n, *measure, i as nat, mask as nat),
                polls == split_work(view, i as nat),
                level::polled(*requested, work, (polls + mask - 1) as nat),
                forall|k: int|
                    0 <= k < rules@.len() ==> rule_answered(view, n, *measure, #[trigger] rule_views(rules@)[k]),
                split_work(view, view.len()) >= polls + end - 1,
                answered_before(view, n, *measure, i as nat, mask as nat),
            decreases end - mask,
        {
            proof {
                lemma_partial_prefix(view, min_confidence, n, *measure, i as nat, mask as nat);
                lemma_partial_prefix(view, min_confidence, n, *measure, i as nat, (mask + 1) as nat);
            }
            let ghost units = work;
            if cancel_check(&mut work, requested) {
                proof {
                    level::lemma_stop_unit(*requested, units, work, (polls + mask - 1) as nat);
                    assert(stopped_before(
                        view,
                        min_confidence,
                        n,
                        *measure,
                        *requested,
                        rule_views(rules@),
                        i as nat,
                        mask as nat,
                    ));
                }
                return (rules, true);
            }
            let ghost before = rule_views(rules@);
            let (ant, cons) = split_items(items, mask);
            let ghost sofar = mask_rules(view, min_confidence, n, *measure, i as int, mask as nat);
            match (lookup(frequent, &order, &ant), lookup(frequent, &order, &cons)) {
                (Some(count_a), Some(count_b)) => {
                    let m: Measures = measure(count_f, count_a, count_b, n);
                    assert(m == measured(*measure, count_f, count_a, count_b, n));
                    if !is_less(m.confidence, min_confidence) {
                        let rule = Rule {
                            antecedent: ant,
                            consequent: cons,
                            support: m.support,
                            confidence: m.confidence,
                            lift: m.lift,
                        };
                        let ghost shown = rule@;
                        rules.push(rule);
                        proof {
                            let after = rule_views(rules@);
                            assert(after =~= before.push(shown));
                            assert(before.push(shown) =~= done + sofar.push(shown));
                            assert(answered_by(
                                view,
                                n,
                                *measure,
                                shown,
                                i as int,
                                mask as nat,
                            ));
                            assert forall|k: int| 0 <= k < after.len() implies rule_answered(
                                view,
                                n,
                                *measure,
                                #[trigger] after[k],
                            ) by {
                                if k < before.len() {
                                    assert(after[k] == before[k]);
                                }
                            }
                        }
                    }
                },
                _ => {},
            }
            assert(rule_views(rules@) == rules_before(
                view,
                min_confidence,
                n,
                *measure,
                i as nat,
                (mask + 1) as nat,
            ));
            assert(answered(view, n, *measure, i as int, mask as nat));
            assert(answered_before(view, n, *measure, i as nat, (mask + 1) as nat));
            if rules.len() >= MAX_RULES {
                assert(filled_by(
                    view,
                    min_confidence,
                    n,
                    *measure,
                    *requested,
                    rule_views(rules@),
                    i as nat,
                    mask as nat,
                ));
                *truncated = true;
                return (rules, false);
            }
            mask = mask + 1;
        }
        i = i + 1;
    }
    (rules, false)
}

/// The order of emitted rules: the more confident first, of equally confident
/// ones the better supported, of those the one with the shorter antecedent.
pub open spec fn rule_le(a: RuleView, b: RuleView) -> bool {
    ||| bits::less(b.measures.confidence, a.measures.confidence)
    ||| bits::same(a.measures.confidence, b.measures.confidence) && bits::less(
        b.measures.support,
        a.measures.support,
    )
    ||| bits::same(a.measures.confidence, b.measures.confidence) && bits::same(
        a.measures.support,
        b.measures.support,
    ) && a.antecedent.len() <= b.antecedent.len()
}

/// Confidence and support are numbers.
pub open spec fn orderable(r: RuleView) -> bool {
    !bits::is_nan(r.measures.confidence) && !bits::is_nan(r.measures.support)
}

/// The rules of a list, compared by [`rule_le`].
pub open spec fn rules_le(rules: Seq<RuleView>) -> spec_fn(int, int) -> bool {
    |a: int, b: int| rule_le(rules[a], rules[b])
}

/// `after` holds the rules of `before` in order; equal ones keep their places.
pub open spec fn ordered(before: Seq<RuleView>, after: Seq<RuleView>) -> bool {
    exists|order: Seq<usize>| #[trigger] ordered_by(before, after, order)
}

/// `after` holds the rules of `before` in the given order, which is the right one.
pub open spec fn ordered_by(before: Seq<RuleView>, after: Seq<RuleView>, order: Seq<usize>) -> bool {
    &&& sorting::stable_order(rules_le(before), 0, before.len() as int, order)
    &&& after.len() == before.len()
    &&& forall|i: int| 0 <= i < after.len() ==> #[trigger] after[i] == before[order[i] as int]
}

struct RuleTable<'a> {
    rules: &'a Vec<Rule>,
}

impl<'a> RowOrder for RuleTable<'a> {
    closed spec fn size(&self) -> nat {
        self.rules@.len()
    }

    closed spec fn comparable(&self) -> bool {
        forall|i: int| 0 <= i < self.rules@.len() ==> orderable((#[trigger] self.rules@[i])@)
    }

    closed spec fn rows_le(&self, a: int, b: int) -> bool {
        rule_le(self.rules@[a]@, self.rules@[b]@)
    }

    proof fn total(&self, a: int, b: int) {
        assert(orderable(self.rules@[a]@) && orderable(self.rules@[b]@));
    }

    proof fn transitive(&self, a: int, b: int, c: int) {
        assert(orderable(self.rules@[a]@) && orderable(self.rules@[b]@) && orderable(self.rules@[c]@));
    }

    fn check_le(&self, a: usize, b: usize) -> (r: bool) {
        let x: &Rule = &self.rules[a];
        let y: &Rule = &self.rules[b];
        if is_less(y.confidence, x.confidence) {
            true
        } else if !is_same(x.confidence, y.confidence) {
            false
        } else if is_less(y.support, x.support) {
            true
        } else {
            is_same(x.support, y.support) && x.antecedent.len() <= y.antecedent.len()
        }
    }
}

/// Puts rules in their order: confidence falling, then support falling, then
/// the length of the antecedent rising; equal rules keep their places.
pub fn order_rules(rules: &mut Vec<Rule>)
    requires
        forall|i: int| 0 <= i < old(rules)@.len() ==> orderable((#[trigger] old(rules)@[i])@),
    ensures
        ordered(rule_views(old(rules)@), rule_views(final(rules)@)),
{
    let ghost before = rule_views(rules@);
    let n: usize = rules.len();
    let order: Vec<usize> = sorted_positions(&RuleTable { rules: &*rules }, n);
    let mut out: Vec<Rule> = Vec::new();
    let mut i: usize = 0;
    while i < n
        invariant
            before == rule_views(rules@),
            n == rules@.len(),
            order@.len() == n,
            forall|x: usize| #[trigger] order@.contains(x) <==> 0 <= x < n,
            i <= n,
            out@.len() == i,
            forall|x: int| 0 <= x < i ==> (#[trigger] out@[x])@ == before[order@[x] as int],
        decreases n - i,
    {
        assert(order@.contains(order@[i as int]));
        out.push(rules[order[i]].clone());
        i = i + 1;
    }
    proof {
        let after = rule_views(out@);
        assert forall|x: int, y: int|
            #![trigger order@[x], order@[y]]
            0 <= x < y < order@.len() implies sorting::comes_first(
            rules_le(before),
            order@[x] as int,
            order@[y] as int,
        ) by {
            assert(order@.contains(order@[x]) && order@.contains(order@[y]));
        }
        assert(ordered_by(before, after, order@));
    }
    *rules = out;
}

/// The message about an item that is no scalar.
pub open spec fn bad_item() -> Seq<char> {
    "items must contain scalars (string/number/bool), found object/array"@
}

/// The name of an item: the text of a string, a number or a truth value; none
/// for null, an error for anything else.
pub open spec fn key_of(v: JsonView) -> Result<Option<Seq<char>>, Seq<char>> {
    match v {
        JsonView::Null => Ok(None),
        JsonView::Text(s) => Ok(Some(s)),
        JsonView::Number(n) => Ok(Some(n.text)),
        JsonView::Bool(b) => Ok(
            Some(
                if b {
                    "true"@
                } else {
                    "false"@
                },
            ),
        ),
        _ => Err(bad_item()),
    }
}

/// Normalizes one item to its name; see [`key_of`].
pub fn item_key(v: &Json) -> (r: Result<Option<String>, String>)
    ensures
        match r {
            Ok(Some(s)) => key_of(v@) == Ok::<Option<Seq<char>>, Seq<char>>(Some(s@)),
            Ok(None) => key_of(v@) == Ok::<Option<Seq<char>>, Seq<char>>(None),
            Err(e) => key_of(v@) == Err::<Option<Seq<char>>, Seq<char>>(e@),
        },
{
    match v {
        Json::Null => Ok(None),
        Json::Text(s) => Ok(Some(s.clone())),
        Json::Number(n) => Ok(Some(n.text.clone())),
        Json::Bool(b) => {
            if *b {
                Ok(Some("true".to_owned()))
            } else {
                Ok(Some("false".to_owned()))
            }
        },
        _ => Err("items must contain scalars (string/number/bool), found object/array".to_owned()),
    }
}

/// The names of the first `count` items of transaction `i`.
pub open spec fn keys_of(items: Seq<JsonView>, i: nat, count: nat) -> Result<Seq<Seq<char>>, Seq<char>>
    decreases count,
{
    if count == 0 {
        Ok(Seq::empty())
    } else {
        match keys_of(items, i, (count - 1) as nat) {
            Err(e) => Err(e),
            Ok(keys) => match key_of(items[count - 1]) {
                Ok(Some(key)) => Ok(keys.push(key)),
                Ok(None) => Ok(keys),
                Err(e) => Err(
                    "transaction #"@ + text::decimal(i) + " item #"@ + text::decimal((count - 1) as nat) + ": "@
                        + e,
                ),
            },
        }
    }
}

/// The itemset of the given names: each once, in order.
pub open spec fn itemset_of(keys: Seq<Seq<char>>) -> Seq<Seq<char>> {
    choose|s: Seq<Seq<char>>| is_itemset_of(s, keys)
}

/// `s` holds exactly the given names, each once, in order.
pub open spec fn is_itemset_of(s: Seq<Seq<char>>, keys: Seq<Seq<char>>) -> bool {
    itemset::ascending(s, names::by_text()) && forall|y: Seq<char>| #[trigger] s.contains(y) <==> keys.contains(y)
}

/// The itemset of transaction `i`.
pub open spec fn transaction_of(txn: JsonView, i: nat) -> Result<Seq<Seq<char>>, Seq<char>> {
    match txn {
        JsonView::Object(o) => match json::field(o, "items"@) {
            None => Err("transaction #"@ + text::decimal(i) + " is missing \"items\""@),
            Some(JsonView::Array(items)) => match keys_of(items, i, items.len()) {
                Ok(keys) => Ok(itemset_of(keys)),
                Err(e) => Err(e),
            },
            Some(_) => Err("transaction #"@ + text::decimal(i) + " \"items\" must be an array"@),
        },
        _ => Err("transaction #"@ + text::decimal(i) + " must be an object"@),
    }
}

/// The itemsets of the first `count` transactions, without the empty ones.
pub open spec fn transactions_of(txns: Seq<JsonView>, count: nat) -> Result<Seq<Seq<Seq<char>>>, Seq<char>>
    decreases count,
{
    if count == 0 {
        Ok(Seq::empty())
    } else {
        match transactions_of(txns, (count - 1) as nat) {
            Err(e) => Err(e),
            Ok(rows) => match transaction_of(txns[count - 1], (count - 1) as nat) {
                Err(e) => Err(e),
                Ok(items) => if items.len() == 0 {
                    Ok(rows)
                } else {
                    Ok(rows.push(items))
                },
            },
        }
    }
}

/// The transactions of a document.
pub open spec fn transactions_in(doc: Result<JsonView, Seq<char>>) -> Result<Seq<Seq<Seq<char>>>, Seq<char>> {
    match doc {
        Err(e) => Err("transactions JSON is malformed: "@ + e),
        Ok(JsonView::Array(txns)) => transactions_of(txns, txns.len()),
        Ok(_) => Err("transactions JSON must be an array of {tid, items} objects"@),
    }
}

/// Two itemsets of the same names are equal.
pub proof fn lemma_itemset_unique(a: Seq<Seq<char>>, b: Seq<Seq<char>>)
    requires
        itemset::ascending(a, names::by_text()),
        itemset::ascending(b, names::by_text()),
        forall|y: Seq<char>| #[trigger] a.contains(y) <==> b.contains(y),
    ensures
        a == b,
    decreases a.len(),
{
    if a.len() == 0 {
        if b.len() > 0 {
            assert(b.contains(b[0]));
            assert(a.contains(b[0]));
        }
        assert(a =~= b);
    } else {
        assert(a.contains(a.last()));
        assert(b.len() > 0);
        assert(b.contains(b.last()));
        assert(a.contains(b.last()));
        if a.last() != b.last() {
            let i = choose|i: int| 0 <= i < b.len() && b[i] == a.last();
            let j = choose|j: int| 0 <= j < a.len() && a[j] == b.last();
            assert(names::by_text()(b[i], b[b.len() - 1]));
            assert(names::by_text()(a[j], a[a.len() - 1]));
            text::lemma_text_before_asym(a.last(), b.last());
        }
        let x = a.drop_last();
        let y = b.drop_last();
        assert forall|i: int, j: int| #![trigger x[i], x[j]] 0 <= i < j < x.len() implies names::by_text()(
            x[i],
            x[j],
        ) by {
            assert(x[i] == a[i] && x[j] == a[j]);
        }
        assert forall|i: int, j: int| #![trigger y[i], y[j]] 0 <= i < j < y.len() implies names::by_text()(
            y[i],
            y[j],
        ) by {
            assert(y[i] == b[i] && y[j] == b[j]);
        }
        assert forall|z: Seq<char>| #[trigger] x.contains(z) <==> y.contains(z) by {
            if x.contains(z) {
                let i = choose|i: int| 0 <= i < x.len() && x[i] == z;
                assert(a[i] == z);
                assert(a.contains(z));
                assert(names::by_text()(a[i], a[a.len() - 1]));
                text::lemma_text_before_asym(a[i], a.last());
                let j = choose|j: int| 0 <= j < b.len() && b[j] == z;
                assert(y[j] == z);
            }
            if y.contains(z) {
                let i = choose|i: int| 0 <= i < y.len() && y[i] == z;
                assert(b[i] == z);
                assert(b.contains(z));
                assert(a.contains(z));
                assert(names::by_text()(b[i], b[b.len() - 1]));
                text::lemma_text_before_asym(b[i], b.last());
                let j = choose|j: int| 0 <= j < a.len() && a[j] == z;
                assert(x[j] == z);
            }
        }
        lemma_itemset_unique(x, y);
        assert(a =~= x.push(a.last()));
        assert(b =~= y.push(b.last()));
    }
}

/// The beginning of a message about transaction `i`.
fn transaction_label(i: usize) -> (r: String)
    ensures
        r@ == "transaction #"@ + text::decimal(i as nat),
{
    let mut r: String = "transaction #".to_owned();
    push_decimal(&mut r, i as u64);
    r
}

/// Reads one transaction.
fn parse_transaction(txn: &Json, i: usize) -> (r: Result<Vec<String>, String>)
    ensures
        match r {
            Ok(items) => transaction_of(txn@, i as nat) == Ok::<Seq<Seq<char>>, Seq<char>>(text::texts(items@))
                && itemset::ascending(text::texts(items@), names::by_text()),
            Err(e) => transaction_of(txn@, i as nat) == Err::<Seq<Seq<char>>, Seq<char>>(e@),
        },
{
    let obj = match txn.as_object() {
        Some(obj) => obj,
        None => {
            let mut e: String = transaction_label(i);
            e.append(" must be an object");
            return Err(e);
        },
    };
    let items_val = match get_field(obj, "items") {
        Some(v) => v,
        None => {
            let mut e: String = transaction_label(i);
            e.append(" is missing \"items\"");
            return Err(e);
        },
    };
    let items = match items_val.as_array() {
        Some(items) => items,
        None => {
            let mut e: String = transaction_label(i);
            e.append(" \"items\" must be an array");
            return Err(e);
        },
    };
    let ghost all = json::views(items@);
    let mut set: Vec<String> = Vec::new();
    let ghost mut keys: Seq<Seq<char>> = Seq::empty();
    let mut j: usize = 0;
    while j < items.len()
        invariant
            all == json::views(items@),
            txn@ == JsonView::Object(json::members(obj@)),
            json::field(json::members(obj@), "items"@) == Some(JsonView::Array(all)),
            j <= items@.len(),
            keys_of(all, i as nat, j as nat) == Ok::<Seq<Seq<char>>, Seq<char>>(keys),
            is_itemset_of(text::texts(set@), keys),
        decreases items.len() - j,
    {
        assert(all[j as int] == items@[j as int]@);
        match item_key(&items[j]) {
            Ok(Some(key)) => {
                let ghost before = keys;
                insert_name(&mut set, key.as_str());
                proof {
                    keys = before.push(key@);
                    assert forall|y: Seq<char>| #[trigger] text::texts(set@).contains(y) <==> keys.contains(y) by {
                        if before.contains(y) {
                            let x = choose|x: int| 0 <= x < before.len() && before[x] == y;
                            assert(keys[x] == y);
                        }
                        assert(keys[before.len() as int] == key@);
                        if keys.contains(y) && y != key@ {
                            let x = choose|x: int| 0 <= x < keys.len() && keys[x] == y;
                            assert(before[x] == y);
                        }
                    }
                }
            },
            Ok(None) => {},
            Err(e) => {
                let mut message: String = transaction_label(i);
                message.append(" item #");
                push_decimal(&mut message, j as u64);
                message.append(": ");
                message.append(e.as_str());
                proof {
                    lemma_keys_error(all, i as nat, (j + 1) as nat, all.len());
                }
                return Err(message);
            },
        }
        j = j + 1;
    }
    proof {
        let s = itemset_of(keys);
        assert(is_itemset_of(text::texts(set@), keys));
        assert(is_itemset_of(s, keys));
        lemma_itemset_unique(text::texts(set@), s);
    }
    Ok(set)
}

/// An error among the first items is the error of the whole transaction.
proof fn lemma_keys_error(items: Seq<JsonView>, i: nat, count: nat, end: nat)
    requires
        count <= end,
        keys_of(items, i, count) is Err,
    ensures
        keys_of(items, i, end) == keys_of(items, i, count),
    decreases end,
{
    if count < end {
        lemma_keys_error(items, i, count, (end - 1) as nat);
    }
}

/// An error among the first transactions is the error of the whole document.
proof fn lemma_transactions_error(txns: Seq<JsonView>, count: nat, end: nat)
    requires
        count <= end,
        transactions_of(txns, count) is Err,
    ensures
        transactions_of(txns, end) == transactions_of(txns, count),
    decreases end,
{
    if count < end {
        lemma_transactions_error(txns, count, (end - 1) as nat);
    }
}

/// Reads transactions, a JSON array of `{"tid": .., "items": [..]}`, as
/// itemsets: null items are skipped, repeated ones count once, and transactions
/// without items are dropped.
pub fn parse_transactions(json_text: &str) -> (r: Result<Vec<Vec<String>>, String>)
    ensures
        match r {
            Ok(rows) => transactions_in(json::json_document(json_text@)) == Ok::<
                Seq<Seq<Seq<char>>>,
                Seq<char>,
            >(names::text_rows(rows@)) && are_itemsets(names::text_rows(rows@)),
            Err(e) => transactions_in(json::json_document(json_text@)) == Err::<
                Seq<Seq<Seq<char>>>,
                Seq<char>,
            >(e@),
        },
{
    let doc = match parse_json(json_text) {
        Ok(doc) => doc,
        Err(message) => {
            let mut e: String = "transactions JSON is malformed: ".to_owned();
            e.append(message.as_str());
            return Err(e);
        },
    };
    transactions_of_document(&doc)
}

/// Reads the transactions of a document; see [`parse_transactions`].
pub fn transactions_of_document(doc: &Json) -> (r: Result<Vec<Vec<String>>, String>)
    ensures
        match r {
            Ok(rows) => transactions_in(Ok(doc@)) == Ok::<Seq<Seq<Seq<char>>>, Seq<char>>(
                names::text_rows(rows@),
            ) && are_itemsets(names::text_rows(rows@)),
            Err(e) => transactions_in(Ok(doc@)) == Err::<Seq<Seq<Seq<char>>>, Seq<char>>(e@),
        },
{
    let arr = match doc.as_array() {
        Some(arr) => arr,
        None => {
            return Err("transactions JSON must be an array of {tid, items} objects".to_owned());
        },
    };
    let ghost all = json::views(arr@);
    let mut out: Vec<Vec<String>> = Vec::new();
    let mut i: usize = 0;
    assert(names::text_rows(out@) =~= Seq::empty());
    while i < arr.len()
        invariant
            all == json::views(arr@),
            doc@ == JsonView::Array(all),
            i <= arr@.len(),
            transactions_of(all, i as nat) == Ok::<Seq<Seq<Seq<char>>>, Seq<char>>(names::text_rows(out@)),
            are_itemsets(names::text_rows(out@)),
        decreases arr.len() - i,
    {
        assert(all[i as int] == arr@[i as int]@);
        match parse_transaction(&arr[i], i) {
            Ok(items) => {
                if items.len() > 0 {
                    let ghost before = names::text_rows(out@);
                    let ghost row = text::texts(items@);
                    out.push(items);
                    proof {
                        let after = names::text_rows(out@);
                        assert(after =~= before.push(row));
                        assert forall|t: int| 0 <= t < after.len() implies itemset::ascending(
                            #[trigger] after[t],
                            names::by_text(),
                        ) by {
                            if t < before.len() {
                                assert(after[t] == before[t]);
                            }
                        }
                    }
                }
            },
            Err(e) => {
                proof {
                    lemma_transactions_error(all, (i + 1) as nat, all.len());
                }
                return Err(e);
            },
        }
        i = i + 1;
    }
    Ok(out)
}

/// Aggregated mining result.
#[derive(Debug, PartialEq)]
pub struct AssocResult {
    pub rules: Vec<Rule>,
    pub frequent_itemsets: Vec<(Vec<String>, u64)>,
    pub transactions: u64,
    pub candidates: u64,
    pub cancelled: bool,
    pub truncated: bool,
}

/// A fraction that may serve as a threshold: above 0 and at most 1.
pub open spec fn is_threshold(b: u64) -> bool {
    bits::less(bits::ZERO, b) && bits::less_eq(b, bits::ONE)
}

/// The result for no transactions at all.
pub open spec fn is_empty_result(r: AssocResult) -> bool {
    &&& r.rules@.len() == 0
    &&& r.frequent_itemsets@.len() == 0
    &&& r.transactions == 0
    &&& r.candidates == 0
    &&& !r.cancelled
    &&& !r.truncated
}

/// What mining hands back, given how its two stages ended.
pub open spec fn mined_with<M: Fn(u64, u64, u64, u64) -> Measures, F: Fn() -> bool>(
    transactions: Seq<Seq<Seq<char>>>,
    min_support_abs: u64,
    min_confidence: u64,
    max_itemset_size: nat,
    measure: M,
    requested: F,
    r: AssocResult,
    scan_stop: Option<nat>,
    scan_cut: bool,
    emitted: Seq<RuleView>,
    rules_cancelled: bool,
) -> bool {
    let n = transactions.len() as u64;
    let frequent = names::text_listing(r.frequent_itemsets@);
    &&& scanned_names(
        transactions,
        min_support_abs as nat,
        max_itemset_size,
        frequent,
        r.candidates as nat,
        scan_stop,
        scan_cut,
    )
    &&& level::asked(
        requested,
        scan_stop,
        scan_cut,
        names_work(transactions, min_support_abs as nat, max_itemset_size),
    )
    &&& generated(frequent, min_confidence, n, measure, requested, emitted, rules_cancelled)
    &&& ordered(emitted, rule_views(r.rules@))
    &&& r.transactions == transactions.len()
    &&& r.cancelled == (scan_stop is Some || rules_cancelled)
    &&& r.truncated == (scan_cut || rules_cut(frequent, min_confidence, n, measure, rules_cancelled))
}

/// What mining hands back: the frequent itemsets, and the rules that they give
/// in their order.
pub open spec fn mined<M: Fn(u64, u64, u64, u64) -> Measures, F: Fn() -> bool>(
    transactions: Seq<Seq<Seq<char>>>,
    min_support_abs: u64,
    min_confidence: u64,
    max_itemset_size: nat,
    measure: M,
    requested: F,
    r: AssocResult,
) -> bool {
    exists|scan_stop: Option<nat>, scan_cut: bool, emitted: Seq<RuleView>, rules_cancelled: bool| #[trigger]
        mined_with(
            transactions,
            min_support_abs,
            min_confidence,
            max_itemset_size,
            measure,
            requested,
            r,
            scan_stop,
            scan_cut,
            emitted,
            rules_cancelled,
        )
}

/// What mining hands back for a wanted share of the transactions.
pub open spec fn mined_share<
    S: Fn(u64, u64) -> u64,
    M: Fn(u64, u64, u64, u64) -> Measures,
    F: Fn() -> bool,
>(
    transactions: Seq<Seq<Seq<char>>>,
    min_support: u64,
    min_confidence: u64,
    max_itemset_size: nat,
    support_floor: S,
    measure: M,
    requested: F,
    r: AssocResult,
) -> bool {
    exists|min_support_abs: u64|
        call_ensures(support_floor, (min_support, transactions.len() as u64), min_support_abs) && #[trigger] mined(
            transactions,
            min_support_abs,
            min_confidence,
            max_itemset_size,
            measure,
            requested,
            r,
        )
}

/// What [`assoc_rules_from_json`] gives for the transactions of a document.
pub open spec fn assoc_outcome<
    S: Fn(u64, u64) -> u64,
    M: Fn(u64, u64, u64, u64) -> Measures,
    F: Fn() -> bool,
>(
    transactions: Result<Seq<Seq<Seq<char>>>, Seq<char>>,
    min_support: u64,
    min_confidence: u64,
    max_itemset_size: nat,
    support_floor: S,
    measure: M,
    requested: F,
    r: Result<AssocResult, String>,
) -> bool {
    if !is_threshold(min_support) {
        r matches Err(e) && e@ == "min_support must be in (0, 1]"@
    } else if !is_threshold(min_confidence) {
        r matches Err(e) && e@ == "min_confidence must be in (0, 1]"@
    } else {
        match transactions {
            Err(message) => r matches Err(e) && e@ == message,
            Ok(rows) => r matches Ok(result) && if rows.len() == 0 {
                is_empty_result(result)
            } else {
                mined_share(
                    rows,
                    min_support,
                    min_confidence,
                    max_itemset_size,
                    support_floor,
                    measure,
                    requested,
                    result,
                )
            },
        }
    }
}

/// The functions that compute with doubles on behalf of the library:
/// `support_floor(share, n)` is the least number of the `n` transactions that
/// reaches the wanted share, and never 0; `measure` gives numbers for counts
/// that are not 0.
pub open spec fn sound_measures<S: Fn(u64, u64) -> u64, M: Fn(u64, u64, u64, u64) -> Measures>(
    support_floor: S,
    measure: M,
) -> bool {
    &&& forall|share: u64, n: u64|
        is_threshold(share) && n >= 1 ==> call_requires(support_floor, (share, n))
    &&& forall|share: u64, n: u64, x: u64|
        is_threshold(share) && n >= 1 && #[trigger] call_ensures(support_floor, (share, n), x) ==> x >= 1
    &&& forall|f: u64, a: u64, b: u64, n: u64| call_requires(measure, (f, a, b, n))
    &&& forall|f: u64, a: u64, b: u64, n: u64, x: Measures|
        f >= 1 && a >= 1 && b >= 1 && n >= 1 && #[trigger] call_ensures(measure, (f, a, b, n), x)
            ==> !bits::is_nan(x.confidence) && !bits::is_nan(x.support)
    &&& one_answer(measure)
}

/// Mines transactions: scan, rule generation, ordering.
fn mine<M: Fn(u64, u64, u64, u64) -> Measures, F: Fn() -> bool>(
    transactions: &Vec<Vec<String>>,
    min_support_abs: u64,
    min_confidence: u64,
    max_itemset_size: usize,
    measure: &M,
    requested: &F,
) -> (r: AssocResult)
    requires
        call_requires(*requested, ()),
        forall|f: u64, a: u64, b: u64, n: u64| call_requires(*measure, (f, a, b, n)),
        forall|f: u64, a: u64, b: u64, n: u64, x: Measures|
            f >= 1 && a >= 1 && b >= 1 && n >= 1 && #[trigger] call_ensures(*measure, (f, a, b, n), x)
                ==> !bits::is_nan(x.confidence) && !bits::is_nan(x.support),
        one_answer(*measure),
        min_support_abs >= 1,
        transactions@.len() >= 1,
        are_itemsets(names::text_rows(transactions@)),
    ensures
        mined(
            names::text_rows(transactions@),
            min_support_abs,
            min_confidence,
            max_itemset_size as nat,
            *measure,
            *requested,
            r,
        ),
{
    let ghost table = names::text_rows(transactions@);
    let n: u64 = transactions.len() as u64;
    let mut truncated: bool = false;
    let (frequent, candidates, scan_cancelled) = apriori(
        transactions,
        min_support_abs,
        max_itemset_size,
        &mut truncated,
        requested,
    );
    let ghost listed = names::text_listing(frequent@);
    let ghost scan_cut = truncated;
    let ghost scan_stop = choose|stop: Option<nat>|
        scan_cancelled == (stop is Some) && #[trigger] scanned_names(
            table,
            min_support_abs as nat,
            max_itemset_size as nat,
            listed,
            candidates as nat,
            stop,
            scan_cut,
        ) && level::asked(
            *requested,
            stop,
            scan_cut,
            names_work(table, min_support_abs as nat, max_itemset_size as nat),
        );
    proof {
        assert(scanned_names(
            table,
            min_support_abs as nat,
            max_itemset_size as nat,
            listed,
            candidates as nat,
            scan_stop,
            scan_cut,
        ));
        assert forall|a: Seq<char>| !#[trigger] names::by_text()(a, a) by {
            if text::text_before(a, a) {
                text::lemma_text_before_asym(a, a);
            }
        }
        assert forall|i: int| 0 <= i < frequent@.len() implies (#[trigger] frequent@[i]).0@.len() < 64
            && frequent@[i].1 >= 1 by {
            assert(listed[i] == (text::texts(frequent@[i].0@), frequent@[i].1));
            itemset::lemma_listed_sets_small(
                table,
                min_support_abs as nat,
                max_itemset_size as nat,
                names::by_text(),
                MAX_CANDIDATES as nat,
                CANCEL_CHECK_INTERVAL as nat,
                listed,
                candidates as nat,
                scan_stop,
                scan_cut,
                i,
            );
            assert(itemset::frequent(table, min_support_abs as nat, names::by_text(), listed[i].0));
        }
    }
    let (mut rules, rules_cancelled) = generate_rules(
        &frequent,
        min_confidence,
        n,
        &mut truncated,
        measure,
        requested,
    );
    let ghost emitted = rule_views(rules@);
    proof {
        assert forall|k: int| 0 <= k < rules@.len() implies orderable((#[trigger] rules@[k])@) by {
            assert(emitted[k] == rules@[k]@);
            assert(rule_answered(listed, n, *measure, emitted[k]));
            let (i, mask) = choose|i: int, mask: nat| #[trigger]
                answered_by(listed, n, *measure, emitted[k], i, mask);
            assert(listed[i].1 == frequent@[i].1);
            let a = listing::listed_at(listed, emitted[k].antecedent);
            let b = listing::listed_at(listed, emitted[k].consequent);
            listing::lemma_last_place(listed, emitted[k].antecedent);
            listing::lemma_last_place(listed, emitted[k].consequent);
            assert(listed[a].1 == frequent@[a].1);
            assert(listed[b].1 == frequent@[b].1);
        }
    }
    order_rules(&mut rules);
    let r = AssocResult {
        rules,
        frequent_itemsets: frequent,
        transactions: n,
        candidates,
        cancelled: scan_cancelled || rules_cancelled,
        truncated,
    };
    proof {
        assert(table.len() as u64 == n);
        assert(mined_with(
            table,
            min_support_abs,
            min_confidence,
            max_itemset_size as nat,
            *measure,
            *requested,
            r,
            scan_stop,
            scan_cut,
            emitted,
            rules_cancelled,
        ));
    }
    r
}

/// Reads transactions and mines their association rules.
///
/// `min_support` and `min_confidence` are the bits of doubles in (0, 1]. The
/// arithmetic on doubles is the caller's: see [`sound_measures`].
pub fn assoc_rules_from_json<
    S: Fn(u64, u64) -> u64,
    M: Fn(u64, u64, u64, u64) -> Measures,
    F: Fn() -> bool,
>(
    transactions_json: &str,
    min_support: u64,
    min_confidence: u64,
    max_itemset_size: usize,
    support_floor: &S,
    measure: &M,
    requested: &F,
) -> (r: Result<AssocResult, String>)
    requires
        call_requires(*requested, ()),
        sound_measures(*support_floor, *measure),
    ensures
        assoc_outcome(
            transactions_in(json::json_document(transactions_json@)),
            min_support,
            min_confidence,
            max_itemset_size as nat,
            *support_floor,
            *measure,
            *requested,
            r,
        ),
{
    if !(is_less(bits::ZERO, min_support) && is_less_eq(min_support, bits::ONE)) {
        return Err("min_support must be in (0, 1]".to_owned());
    }
    if !(is_less(bits::ZERO, min_confidence) && is_less_eq(min_confidence, bits::ONE)) {
        return Err("min_confidence must be in (0, 1]".to_owned());
    }
    let transactions = match parse_transactions(transactions_json) {
        Ok(transactions) => transactions,
        Err(e) => {
            return Err(e);
        },
    };
    let n: u64 = transactions.len() as u64;
    if n == 0 {
        return Ok(
            AssocResult {
                rules: Vec::new(),
                frequent_itemsets: Vec::new(),
                transactions: 0,
                candidates: 0,
                cancelled: false,
                truncated: false,
            },
        );
    }
    let min_support_abs: u64 = support_floor(min_support, n);
    let result = mine(
        &transactions,
        min_support_abs,
        min_confidence,
        max_itemset_size,
        measure,
        requested,
    );
    proof {
        let rows = names::text_rows(transactions@);
        assert(call_ensures(*support_floor, (min_support, rows.len() as u64), min_support_abs));
        assert(mined(
            rows,
            min_support_abs,
            min_confidence,
            max_itemset_size as nat,
            *measure,
            *requested,
            result,
        ));
        assert(mined_share(
            rows,
            min_support,
            min_confidence,
            max_itemset_size as nat,
            *support_floor,
            *measure,
            *requested,
            result,
        ));
    }
    Ok(result)
}

/// One row of arguments of the `ml_assoc_rules` function; a missing value is a
/// null, fractions are the bits of doubles.
#[derive(Debug, PartialEq, Eq)]
pub struct AssocRow {
    pub transactions: Option<String>,
    pub min_support: Option<u64>,
    pub min_confidence: Option<u64>,
    pub max_itemset_size: Option<u64>,
}

impl AssocRow {
    /// A required argument is null.
    pub open spec fn has_null(self) -> bool {
        self.transactions is None || self.min_support is None || self.min_confidence is None
    }
}

/// The cap on the itemset size: the fourth argument of the first row, where
/// there is one.
pub open spec fn size_cap(columns: int, rows: Seq<AssocRow>) -> usize {
    if columns < 4 {
        0
    } else {
        match rows[0].max_itemset_size {
            Some(v) => v as usize,
            None => 0,
        }
    }
}

/// What one row without nulls gives.
pub open spec fn row_outcome<S: Fn(u64, u64) -> u64, M: Fn(u64, u64, u64, u64) -> Measures, F: Fn() -> bool>(
    row: AssocRow,
    cap: usize,
    support_floor: S,
    measure: M,
    requested: F,
    r: Result<AssocResult, String>,
) -> bool {
    assoc_outcome(
        transactions_in(json::json_document(row.transactions->0@)),
        row.min_support->0,
        row.min_confidence->0,
        cap as nat,
        support_floor,
        measure,
        requested,
        r,
    )
}

/// A row does not fail: it has a null, or it gives a result.
pub open spec fn row_passes<S: Fn(u64, u64) -> u64, M: Fn(u64, u64, u64, u64) -> Measures, F: Fn() -> bool>(
    row: AssocRow,
    cap: usize,
    support_floor: S,
    measure: M,
    requested: F,
) -> bool {
    row.has_null() || exists|result: AssocResult| #[trigger]
        row_outcome(row, cap, support_floor, measure, requested, Ok(result))
}

/// The `ml_assoc_rules` function: association rules for each row of arguments.
pub struct AssocRulesFn;

impl AssocRulesFn {
    /// Mines each row. A row with a null gives a null; the first row that fails
    /// fails the call; three or four arguments are wanted.
    pub fn invoke<S: Fn(u64, u64) -> u64, M: Fn(u64, u64, u64, u64) -> Measures, F: Fn() -> bool>(
        columns: usize,
        rows: &Vec<AssocRow>,
        support_floor: &S,
        measure: &M,
        requested: &F,
    ) -> (r: Result<Vec<Option<AssocResult>>, String>)
        requires
            call_requires(*requested, ()),
            sound_measures(*support_floor, *measure),
            columns == 4 ==> rows@.len() >= 1,
        ensures
            !(3 <= columns <= 4) ==> (r matches Err(e) && e@
                == "ml_assoc_rules requires 3..4 args: transactions, min_support, min_confidence[, max_itemset_size]"@),
            3 <= columns <= 4 ==> match r {
                Ok(out) => out@.len() == rows@.len() && forall|i: int|
                    #![trigger out@[i]]
                    0 <= i < out@.len() ==> match out@[i] {
                        None => rows@[i].has_null(),
                        Some(result) => !rows@[i].has_null() && row_outcome(
                            rows@[i],
                            size_cap(columns as int, rows@),
                            *support_floor,
                            *measure,
                            *requested,
                            Ok(result),
                        ),
                    },
                Err(e) => exists|i: int|
                    0 <= i < rows@.len() && !(#[trigger] rows@[i]).has_null() && row_outcome(
                        rows@[i],
                        size_cap(columns as int, rows@),
                        *support_floor,
                        *measure,
                        *requested,
                        Err(e),
                    ) && forall|j: int|
                        0 <= j < i ==> #[trigger] row_passes(
                            rows@[j],
                            size_cap(columns as int, rows@),
                            *support_floor,
                            *measure,
                            *requested,
                        ),
            },
    {
        if columns < 3 || columns > 4 {
            return Err(
                "ml_assoc_rules requires 3..4 args: transactions, min_support, min_confidence[, max_itemset_size]".to_owned(),
            );
        }
        let cap: usize = if columns == 4 {
            match rows[0].max_itemset_size {
                Some(v) => v as usize,
                None => 0,
            }
        } else {
            0
        };
        let mut out: Vec<Option<AssocResult>> = Vec::new();
        let mut i: usize = 0;
        while i < rows.len()
            invariant
                call_requires(*requested, ()),
                sound_measures(*support_floor, *measure),
                3 <= columns <= 4,
                cap == size_cap(columns as int, rows@),
                i <= rows@.len(),
                out@.len() == i,
                forall|x: int|
                    #![trigger out@[x]]
                    0 <= x < i ==> match out@[x] {
                        None => rows@[x].has_null(),
                        Some(result) => !rows@[x].has_null() && row_outcome(
                            rows@[x],
                            cap,
                            *support_floor,
                            *measure,
                            *requested,
                            Ok(result),
                        ),
                    },
            decreases rows.len() - i,
        {
            let row: &AssocRow = &rows[i];
            match (&row.transactions, row.min_support, row.min_confidence) {
                (Some(text), Some(min_support), Some(min_confidence)) => {
                    match assoc_rules_from_json(
                        text.as_str(),
                        min_support,
                        min_confidence,
                        cap,
                        support_floor,
                        measure,
                        requested,
                    ) {
                        Ok(result) => {
                            out.push(Some(result));
                        },
                        Err(e) => {
                            proof {
                                assert forall|j: int| 0 <= j < i implies #[trigger] row_passes(
                                    rows@[j],
                                    cap,
                                    *support_floor,
                                    *measure,
                                    *requested,
                                ) by {
                                    assert(out@[j] is None || out@[j] is Some);
                                }
                                assert(!rows@[i as int].has_null());
                            }
                            return Err(e);
                        },
                    }
                },
                _ => {
                    out.push(None);
                },
            }
            i = i + 1;
        }
        Ok(out)
    }
}

} // verus!
