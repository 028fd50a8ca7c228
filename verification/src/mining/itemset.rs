//! Itemsets, their support, and the order in which they are listed.
//!
//! The definitions are stated for items of any type under an order `lt` of
//! the items, so that they speak of item names as well as of item numbers.

use vstd::prelude::*;

verus! {

/// Each item stands before all later ones: the canonical form of an itemset.
pub open spec fn ascending<T>(s: Seq<T>, lt: spec_fn(T, T) -> bool) -> bool {
    forall|i: int, j: int| #![trigger s[i], s[j]] 0 <= i < j < s.len() ==> lt(s[i], s[j])
}

/// A transaction holds every item of an itemset.
pub open spec fn holds_all<T>(txn: Seq<T>, items: Seq<T>) -> bool {
    forall|i: int| 0 <= i < items.len() ==> txn.contains(#[trigger] items[i])
}

/// The number of transactions that hold every item of an itemset.
pub open spec fn support<T>(txns: Seq<Seq<T>>, items: Seq<T>) -> nat
    decreases txns.len(),
{
    if txns.len() == 0 {
        0
    } else {
        support(txns.drop_last(), items) + if holds_all(txns.last(), items) {
            1nat
        } else {
            0nat
        }
    }
}

/// Some transaction holds the item.
pub open spec fn occurs<T>(txns: Seq<Seq<T>>, item: T) -> bool {
    exists|t: int| 0 <= t < txns.len() && (#[trigger] txns[t]).contains(item)
}

/// A non-empty itemset of occurring items that at least `min` transactions hold.
pub open spec fn frequent<T>(txns: Seq<Seq<T>>, min: nat, lt: spec_fn(T, T) -> bool, s: Seq<T>) -> bool {
    &&& s.len() >= 1
    &&& ascending(s, lt)
    &&& forall|i: int| 0 <= i < s.len() ==> occurs(txns, #[trigger] s[i])
    &&& support(txns, s) >= min
}

/// An itemset of two or more items that stays frequent whichever item is left out.
pub open spec fn candidate<T>(txns: Seq<Seq<T>>, min: nat, lt: spec_fn(T, T) -> bool, s: Seq<T>) -> bool {
    &&& s.len() >= 2
    &&& ascending(s, lt)
    &&& forall|d: int| 0 <= d < s.len() ==> frequent(txns, min, lt, #[trigger] s.remove(d))
}

/// Dictionary order of two itemsets: at the first difference, the smaller item.
pub open spec fn dict_before<T>(a: Seq<T>, b: Seq<T>, lt: spec_fn(T, T) -> bool) -> bool {
    exists|p: int| #[trigger] agree(a, b, p) && p < a.len() && p < b.len() && lt(a[p], b[p])
}

/// Two itemsets hold the same items before position `p`.
pub open spec fn agree<T>(a: Seq<T>, b: Seq<T>, p: int) -> bool {
    0 <= p <= a.len() && p <= b.len() && forall|q: int| 0 <= q < p ==> a[q] == b[q]
}

/// The order of a listing: shorter itemsets first, equally long ones in
/// dictionary order.
pub open spec fn listed_before<T>(a: Seq<T>, b: Seq<T>, lt: spec_fn(T, T) -> bool) -> bool {
    a.len() < b.len() || (a.len() == b.len() && dict_before(a, b, lt))
}

/// `out` lists exactly the frequent itemsets of at most `k` items, each with
/// its support, shorter ones first and equally long ones in dictionary order.
pub open spec fn lists_upto<T>(
    txns: Seq<Seq<T>>,
    min: nat,
    lt: spec_fn(T, T) -> bool,
    out: Seq<(Seq<T>, u64)>,
    k: nat,
) -> bool {
    &&& forall|i: int, j: int|
        #![trigger out[i], out[j]]
        0 <= i < j < out.len() ==> listed_before(out[i].0, out[j].0, lt)
    &&& forall|i: int|
        #![trigger out[i]]
        0 <= i < out.len() ==> frequent(txns, min, lt, out[i].0) && out[i].0.len() <= k && out[i].1
            == support(txns, out[i].0)
    &&& forall|s: Seq<T>| #[trigger]
        frequent(txns, min, lt, s) && s.len() <= k ==> is_listed(out, s)
}

/// The itemset stands somewhere in the listing.
pub open spec fn is_listed<T>(out: Seq<(Seq<T>, u64)>, s: Seq<T>) -> bool {
    exists|i: int| 0 <= i < out.len() && (#[trigger] out[i]).0 == s
}

/// The frequent itemsets of exactly `k` items.
pub open spec fn level_set<T>(txns: Seq<Seq<T>>, min: nat, lt: spec_fn(T, T) -> bool, k: nat) -> Set<Seq<T>> {
    Set::new(|s: Seq<T>| s.len() == k && frequent(txns, min, lt, s))
}

/// The candidates of exactly `k` items.
pub open spec fn candidate_set<T>(txns: Seq<Seq<T>>, min: nat, lt: spec_fn(T, T) -> bool, k: nat) -> Set<
    Seq<T>,
> {
    Set::new(|s: Seq<T>| s.len() == k && candidate(txns, min, lt, s))
}

/// How many candidates of two to `k` items there are.
pub open spec fn total_candidates<T>(
    txns: Seq<Seq<T>>,
    min: nat,
    lt: spec_fn(T, T) -> bool,
    k: nat,
) -> nat
    decreases k,
{
    if k <= 1 {
        0
    } else {
        total_candidates(txns, min, lt, (k - 1) as nat) + candidate_set(txns, min, lt, k).len()
    }
}

/// The work units of a scan that goes up to itemsets of `k` items: one for each
/// frequent itemset of fewer items, one for each candidate.
pub open spec fn scan_work<T>(txns: Seq<Seq<T>>, min: nat, lt: spec_fn(T, T) -> bool, k: nat) -> nat
    decreases k,
{
    if k <= 1 {
        0
    } else {
        scan_work(txns, min, lt, (k - 1) as nat) + level_set(txns, min, lt, (k - 1) as nat).len()
            + candidate_set(txns, min, lt, k).len()
    }
}

/// The itemset size at which a scan ends: the cap where there is one, else one
/// more than the number of distinct items, where nothing is left to find.
pub open spec fn size_limit<T>(txns: Seq<Seq<T>>, max_itemset_size: nat) -> nat {
    if max_itemset_size != 0 {
        max_itemset_size
    } else {
        Set::new(|x: T| occurs(txns, x)).len() + 1
    }
}

/// There are `n` different candidates of `k` items.
pub open spec fn many_candidates<T>(
    txns: Seq<Seq<T>>,
    min: nat,
    lt: spec_fn(T, T) -> bool,
    k: nat,
    n: nat,
) -> bool {
    exists|found: Seq<Seq<T>>|
        #![trigger found.no_duplicates()]
        found.no_duplicates() && found.len() == n && forall|i: int|
            0 <= i < n ==> candidate(txns, min, lt, #[trigger] found[i]) && found[i].len() == k
}

/// What a scan has when it stops at its work unit `unit`, on the way from the
/// itemsets of `k` items to those of one more. Up to there it first goes through
/// the frequent itemsets of `k` items to join them, then through the candidates to
/// count them. It lists the itemsets of up to `k` items; the candidates count
/// from where all of them are known.
pub open spec fn stopped_at<T>(
    txns: Seq<Seq<T>>,
    min: nat,
    lt: spec_fn(T, T) -> bool,
    cap: nat,
    out: Seq<(Seq<T>, u64)>,
    candidates: nat,
    k: nat,
    unit: nat,
) -> bool {
    &&& lists_upto(txns, min, lt, out, k)
    &&& few_candidates(txns, min, lt, k, cap)
    &&& scan_work(txns, min, lt, k) < unit <= scan_work(txns, min, lt, k + 1)
    &&& if unit <= scan_work(txns, min, lt, k) + level_set(txns, min, lt, k).len() {
        candidates == total_candidates(txns, min, lt, k)
    } else {
        candidates == total_candidates(txns, min, lt, k + 1) && few_candidates(txns, min, lt, k + 1, cap)
    }
}

/// What a scan with the given size cap (`0`: none) hands back: the listing, the
/// number of candidates whose support was counted, and how it ended: `stop` is
/// the work unit at which it was cancelled.
///
/// A scan that ran to its end lists every frequent itemset up to the limit. One
/// that was cut because `cap` candidates of one size piled up lists the frequent
/// itemsets up to the size before; a scan is cut exactly where that many
/// candidates exist. A scan can be cancelled at every `interval`th work unit, and
/// then has what it had at that unit.
pub open spec fn scanned<T>(
    txns: Seq<Seq<T>>,
    min: nat,
    max_itemset_size: nat,
    lt: spec_fn(T, T) -> bool,
    cap: nat,
    interval: nat,
    out: Seq<(Seq<T>, u64)>,
    candidates: nat,
    stop: Option<nat>,
    truncated: bool,
) -> bool {
    let limit = size_limit(txns, max_itemset_size);
    &&& !(stop is Some && truncated)
    &&& stop is None && !truncated ==> {
        &&& lists_upto(txns, min, lt, out, limit)
        &&& candidates == total_candidates(txns, min, lt, limit)
        &&& few_candidates(txns, min, lt, limit, cap)
    }
    &&& truncated ==> exists|k: nat|
        1 <= k < limit && #[trigger] lists_upto(txns, min, lt, out, k) && candidates == total_candidates(
            txns,
            min,
            lt,
            k,
        ) && few_candidates(txns, min, lt, k, cap) && many_candidates(txns, min, lt, k + 1, cap)
    &&& stop matches Some(unit) ==> {
        &&& unit % interval == 0
        &&& interval <= unit <= scan_work(txns, min, lt, limit)
        &&& stops_below(txns, min, lt, cap, out, candidates, limit, unit)
    }
}

/// A scan has what it has when it stops at `unit`, before the itemsets of `limit`
/// items are found.
pub open spec fn stops_below<T>(
    txns: Seq<Seq<T>>,
    min: nat,
    lt: spec_fn(T, T) -> bool,
    cap: nat,
    out: Seq<(Seq<T>, u64)>,
    candidates: nat,
    limit: nat,
    unit: nat,
) -> bool {
    exists|k: nat| 1 <= k < limit && #[trigger] stopped_at(txns, min, lt, cap, out, candidates, k, unit)
}

/// There are fewer than `cap` candidates of each size up to `k`.
pub open spec fn few_candidates<T>(
    txns: Seq<Seq<T>>,
    min: nat,
    lt: spec_fn(T, T) -> bool,
    k: nat,
    cap: nat,
) -> bool {
    forall|j: nat|
        2 <= j <= k ==> (#[trigger] candidate_set(txns, min, lt, j)).finite() && candidate_set(
            txns,
            min,
            lt,
            j,
        ).len() < cap
}

/// Item numbers in their natural order.
pub open spec fn by_number() -> spec_fn(usize, usize) -> bool {
    |a: usize, b: usize| a < b
}

/// Leaving items out never lowers the support.
pub proof fn lemma_support_monotone<T>(txns: Seq<Seq<T>>, small: Seq<T>, large: Seq<T>)
    requires
        forall|i: int| 0 <= i < small.len() ==> large.contains(#[trigger] small[i]),
    ensures
        support(txns, small) >= support(txns, large),
    decreases txns.len(),
{
    if txns.len() > 0 {
        lemma_support_monotone(txns.drop_last(), small, large);
        if holds_all(txns.last(), large) {
            assert forall|i: int| 0 <= i < small.len() implies txns.last().contains(#[trigger] small[i]) by {
                let j = choose|j: int| 0 <= j < large.len() && large[j] == small[i];
                assert(txns.last().contains(large[j]));
            }
        }
    }
}

/// No itemset has more support than there are transactions.
pub proof fn lemma_support_bound<T>(txns: Seq<Seq<T>>, s: Seq<T>)
    ensures
        support(txns, s) <= txns.len(),
    decreases txns.len(),
{
    if txns.len() > 0 {
        lemma_support_bound(txns.drop_last(), s);
    }
}

/// A frequent itemset of two or more items is a candidate: leaving out one item
/// keeps it frequent.
pub proof fn lemma_frequent_is_candidate<T>(txns: Seq<Seq<T>>, min: nat, lt: spec_fn(T, T) -> bool, s: Seq<T>)
    requires
        frequent(txns, min, lt, s),
        s.len() >= 2,
    ensures
        candidate(txns, min, lt, s),
{
    assert forall|d: int| 0 <= d < s.len() implies frequent(txns, min, lt, #[trigger] s.remove(d)) by {
        let r = s.remove(d);
        assert forall|i: int| 0 <= i < r.len() implies s.contains(#[trigger] r[i]) by {
            if i < d {
                assert(r[i] == s[i]);
            } else {
                assert(r[i] == s[i + 1]);
            }
        }
        lemma_support_monotone(txns, r, s);
        assert forall|i: int| 0 <= i < r.len() implies occurs(txns, #[trigger] r[i]) by {
            if i < d {
                assert(occurs(txns, s[i]));
            } else {
                assert(occurs(txns, s[i + 1]));
            }
        }
        assert forall|i: int, j: int| #![trigger r[i], r[j]] 0 <= i < j < r.len() implies lt(r[i], r[j]) by {
            let a = if i < d { i } else { i + 1 };
            let b = if j < d { j } else { j + 1 };
            assert(r[i] == s[a] && r[j] == s[b]);
        }
    }
}

/// A candidate is frequent as soon as its own support suffices.
pub proof fn lemma_candidate_is_frequent<T>(txns: Seq<Seq<T>>, min: nat, lt: spec_fn(T, T) -> bool, s: Seq<T>)
    requires
        candidate(txns, min, lt, s),
        support(txns, s) >= min,
    ensures
        frequent(txns, min, lt, s),
{
    assert forall|i: int| 0 <= i < s.len() implies occurs(txns, #[trigger] s[i]) by {
        if i == 0 {
            let r = s.remove(1);
            assert(frequent(txns, min, lt, r));
            assert(r[0] == s[0]);
            assert(occurs(txns, r[0]));
        } else {
            let r = s.remove(0);
            assert(frequent(txns, min, lt, r));
            assert(r[i - 1] == s[i]);
            assert(occurs(txns, r[i - 1]));
        }
    }
}

/// Where no itemset of `k` items is frequent, no larger one is, and there is no
/// larger candidate either.
pub proof fn lemma_empty_level<T>(txns: Seq<Seq<T>>, min: nat, lt: spec_fn(T, T) -> bool, k: nat, s: Seq<T>)
    requires
        k >= 1,
        forall|x: Seq<T>| #[trigger] frequent(txns, min, lt, x) ==> x.len() != k,
        s.len() >= k,
    ensures
        !frequent(txns, min, lt, s),
        s.len() > k ==> !candidate(txns, min, lt, s),
    decreases s.len(),
{
    if s.len() > k {
        let r = s.remove(0);
        lemma_empty_level(txns, min, lt, k, r);
        if candidate(txns, min, lt, s) {
            assert(frequent(txns, min, lt, s.remove(0)));
        }
        if frequent(txns, min, lt, s) {
            lemma_frequent_is_candidate(txns, min, lt, s);
        }
    }
}

/// Past an empty level there are no more candidates and no more work.
pub proof fn lemma_totals_past_empty_level<T>(
    txns: Seq<Seq<T>>,
    min: nat,
    lt: spec_fn(T, T) -> bool,
    k: nat,
    limit: nat,
)
    requires
        k >= 1,
        forall|x: Seq<T>| #[trigger] frequent(txns, min, lt, x) ==> x.len() != k,
        limit >= k,
    ensures
        total_candidates(txns, min, lt, limit) == total_candidates(txns, min, lt, k),
        scan_work(txns, min, lt, limit) == scan_work(txns, min, lt, k),
    decreases limit,
{
    if limit > k {
        lemma_totals_past_empty_level(txns, min, lt, k, (limit - 1) as nat);
        assert(candidate_set(txns, min, lt, limit) =~= Set::empty()) by {
            assert forall|s: Seq<T>| !candidate_set(txns, min, lt, limit).contains(s) by {
                if s.len() == limit {
                    lemma_empty_level(txns, min, lt, k, s);
                }
            }
        }
        let below = (limit - 1) as nat;
        assert(level_set(txns, min, lt, below) =~= Set::empty()) by {
            assert forall|s: Seq<T>| !level_set(txns, min, lt, below).contains(s) by {
                if s.len() == below {
                    lemma_empty_level(txns, min, lt, k, s);
                }
            }
        }
    }
}

/// A longer scan is no less work.
pub proof fn lemma_scan_work_monotone<T>(
    txns: Seq<Seq<T>>,
    min: nat,
    lt: spec_fn(T, T) -> bool,
    k: nat,
    limit: nat,
)
    requires
        k <= limit,
    ensures
        scan_work(txns, min, lt, k) <= scan_work(txns, min, lt, limit),
    decreases limit,
{
    if k < limit {
        lemma_scan_work_monotone(txns, min, lt, k, (limit - 1) as nat);
    }
}

/// The pairs of the first item with each other item of a frequent itemset are
/// candidates themselves, so a frequent itemset has at most one item more than
/// there are candidate pairs.
pub proof fn lemma_pairs_bound_size<T>(txns: Seq<Seq<T>>, min: nat, lt: spec_fn(T, T) -> bool, s: Seq<T>)
    requires
        frequent(txns, min, lt, s),
        forall|a: T| !#[trigger] lt(a, a),
        candidate_set(txns, min, lt, 2).finite(),
    ensures
        s.len() <= candidate_set(txns, min, lt, 2).len() + 1,
{
    let pairs = Seq::new((s.len() - 1) as nat, |x: int| seq![s[0], s[x + 1]]);
    assert forall|x: int| 0 <= x < pairs.len() implies #[trigger] candidate_set(txns, min, lt, 2).contains(
        pairs[x],
    ) by {
        let pair = pairs[x];
        assert(pair.len() == 2 && pair[0] == s[0] && pair[1] == s[x + 1]);
        assert(lt(s[0], s[x + 1]));
        assert forall|i: int| 0 <= i < pair.len() implies s.contains(#[trigger] pair[i]) by {
            if i == 0 {
                assert(s[0] == pair[i]);
            } else {
                assert(s[x + 1] == pair[i]);
            }
        }
        lemma_support_monotone(txns, pair, s);
        assert(occurs(txns, s[0]) && occurs(txns, s[x + 1]));
        assert(frequent(txns, min, lt, pair));
        lemma_frequent_is_candidate(txns, min, lt, pair);
    }
    assert(pairs.no_duplicates()) by {
        assert forall|x: int, y: int| 0 <= x < y < pairs.len() implies pairs[x] != pairs[y] by {
            assert(pairs[x][1] == s[x + 1] && pairs[y][1] == s[y + 1]);
            assert(lt(s[x + 1], s[y + 1]));
        }
    }
    pairs.unique_seq_to_set();
    assert(pairs.to_set().subset_of(candidate_set(txns, min, lt, 2))) by {
        assert forall|p: Seq<T>| pairs.to_set().contains(p) implies candidate_set(txns, min, lt, 2).contains(p) by {
            let x = choose|x: int| 0 <= x < pairs.len() && pairs[x] == p;
        }
    }
    vstd::set_lib::lemma_len_subset(pairs.to_set(), candidate_set(txns, min, lt, 2));
}

/// The digit of `n` with weight `9^i`.
spec fn digit(n: nat, i: nat) -> nat
    decreases i,
{
    if i == 0 {
        n % 9
    } else {
        digit(n / 9, (i - 1) as nat)
    }
}

/// One item out of each of seven blocks of nine, as the digits of `n` say.
spec fn seven_of<T>(s: Seq<T>, n: nat) -> Seq<T> {
    Seq::new(7, |i: int| s[9 * i + digit(n, i as nat)])
}

proof fn lemma_digit_small(n: nat, i: nat)
    ensures
        digit(n, i) < 9,
    decreases i,
{
    if i > 0 {
        lemma_digit_small(n / 9, (i - 1) as nat);
    }
}

proof fn lemma_seven_digits(a: nat, b: nat)
    requires
        a < 4_782_969,
        b < 4_782_969,
        forall|i: nat| i < 7 ==> #[trigger] digit(a, i) == digit(b, i),
    ensures
        a == b,
{
    reveal_with_fuel(digit, 8);
    assert(digit(a, 0) == digit(b, 0));
    assert(digit(a, 1) == digit(b, 1));
    assert(digit(a, 2) == digit(b, 2));
    assert(digit(a, 3) == digit(b, 3));
    assert(digit(a, 4) == digit(b, 4));
    assert(digit(a, 5) == digit(b, 5));
    assert(digit(a, 6) == digit(b, 6));
}

/// Where fewer than two million candidates of seven items exist, no frequent
/// itemset has 63 items: taking one item out of each of seven blocks of nine
/// would give more.
proof fn lemma_few_candidates_bound_size<T>(txns: Seq<Seq<T>>, min: nat, lt: spec_fn(T, T) -> bool, s: Seq<T>)
    requires
        frequent(txns, min, lt, s),
        forall|a: T| !#[trigger] lt(a, a),
        candidate_set(txns, min, lt, 7).finite(),
        candidate_set(txns, min, lt, 7).len() < 2_000_000,
    ensures
        s.len() < 63,
{
    if s.len() >= 63 {
        let set = candidate_set(txns, min, lt, 7);
        let all = Seq::new(4_782_969, |n: int| seven_of(s, n as nat));
        assert forall|n: int| 0 <= n < all.len() implies #[trigger] set.contains(all[n]) by {
            let t = all[n];
            assert forall|i: int| 0 <= i < 7 implies 0 <= 9 * i + digit(n as nat, i as nat) < s.len() && #[trigger] t[i]
                == s[9 * i + digit(n as nat, i as nat)] by {
                lemma_digit_small(n as nat, i as nat);
            }
            assert forall|i: int| 0 <= i < t.len() implies s.contains(#[trigger] t[i]) by {
                assert(s[9 * i + digit(n as nat, i as nat)] == t[i]);
            }
            lemma_support_monotone(txns, t, s);
            assert forall|i: int| 0 <= i < t.len() implies occurs(txns, #[trigger] t[i]) by {
                lemma_digit_small(n as nat, i as nat);
                let at = 9 * i + digit(n as nat, i as nat);
                assert(t[i] == s[at]);
                assert(occurs(txns, s[at]));
            }
            assert forall|i: int, j: int| #![trigger t[i], t[j]] 0 <= i < j < t.len() implies lt(t[i], t[j]) by {
                lemma_digit_small(n as nat, i as nat);
                assert(9 * i + digit(n as nat, i as nat) < 9 * j + digit(n as nat, j as nat));
            }
            assert(frequent(txns, min, lt, t));
            lemma_frequent_is_candidate(txns, min, lt, t);
        }
        assert(all.no_duplicates()) by {
            assert forall|x: int, y: int| 0 <= x < all.len() && 0 <= y < all.len() && x != y implies all[x]
                != all[y] by {
                if all[x] == all[y] {
                    assert forall|i: nat| i < 7 implies #[trigger] digit(x as nat, i) == digit(y as nat, i) by {
                        lemma_digit_small(x as nat, i);
                        lemma_digit_small(y as nat, i);
                        let a = (9 * i + digit(x as nat, i)) as int;
                        let b = (9 * i + digit(y as nat, i)) as int;
                        assert(all[x][i as int] == s[a]);
                        assert(all[y][i as int] == s[b]);
                        if a < b {
                            assert(lt(s[a], s[b]));
                        } else if b < a {
                            assert(lt(s[b], s[a]));
                        }
                    }
                    lemma_seven_digits(x as nat, y as nat);
                }
            }
        }
        all.unique_seq_to_set();
        assert(all.to_set().subset_of(set)) by {
            assert forall|p: Seq<T>| all.to_set().contains(p) implies set.contains(p) by {
                let x = choose|x: int| 0 <= x < all.len() && all[x] == p;
            }
        }
        vstd::set_lib::lemma_len_subset(all.to_set(), set);
    }
}

/// A scan that keeps fewer than two million candidates of each size lists no
/// itemset of 63 or more items.
pub proof fn lemma_listed_sets_small<T>(
    txns: Seq<Seq<T>>,
    min: nat,
    max_itemset_size: nat,
    lt: spec_fn(T, T) -> bool,
    cap: nat,
    interval: nat,
    out: Seq<(Seq<T>, u64)>,
    candidates: nat,
    stop: Option<nat>,
    truncated: bool,
    i: int,
)
    requires
        scanned(txns, min, max_itemset_size, lt, cap, interval, out, candidates, stop, truncated),
        cap <= 2_000_000,
        forall|a: T| !#[trigger] lt(a, a),
        0 <= i < out.len(),
    ensures
        out[i].0.len() < 63,
{
    let limit = size_limit(txns, max_itemset_size);
    let k = if let Some(unit) = stop {
        choose|k: nat| 1 <= k < limit && #[trigger] stopped_at(txns, min, lt, cap, out, candidates, k, unit)
    } else if !truncated {
        limit
    } else {
        choose|k: nat|
            1 <= k < limit && #[trigger] lists_upto(txns, min, lt, out, k) && few_candidates(
                txns,
                min,
                lt,
                k,
                cap,
            )
    };
    assert(lists_upto(txns, min, lt, out, k) && few_candidates(txns, min, lt, k, cap));
    assert(frequent(txns, min, lt, out[i].0));
    if k >= 7 {
        assert(candidate_set(txns, min, lt, 7).finite());
        lemma_few_candidates_bound_size(txns, min, lt, out[i].0);
    }
}

} // verus!
