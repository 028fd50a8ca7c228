//! What is read of transactions.

use vstd::prelude::*;
use crate::assoc_rules;
use crate::assoc_rules::{parse_transactions, AssocResult, AssocRow, AssocRulesFn, Measures};
use crate::json;
use crate::json::JsonView;
use crate::laws::documents;
use crate::laws::rules;
use crate::mining::itemset;
use crate::mining::names;

verus! {

/// The value is an item with the given name: a text stands for itself, a number for
/// its digits, and a truth value for its word.
pub open spec fn is_item(v: JsonView, name: Seq<char>) -> bool {
    match v {
        JsonView::Text(s) => name == s,
        JsonView::Number(n) => name == n.text,
        JsonView::Bool(b) => (b ==> name == "true"@) && (!b ==> name == "false"@),
        _ => false,
    }
}

/// The value can stand among the items: it is an item or a null, which is none.
pub open spec fn is_allowed(v: JsonView) -> bool {
    !(v is Array) && !(v is Object)
}

/// The values name an item.
pub open spec fn names_item(values: Seq<JsonView>, name: Seq<char>) -> bool {
    exists|j: int| 0 <= j < values.len() && is_item(#[trigger] values[j], name)
}

/// The transaction has these values as items, all of them allowed.
pub open spec fn is_transaction(txn: JsonView, values: Seq<JsonView>) -> bool {
    &&& documents::has(txn, "items"@, JsonView::Array(values))
    &&& forall|j: int| 0 <= j < values.len() ==> is_allowed(#[trigger] values[j])
}

/// The row holds what the values name, each once.
pub open spec fn is_row(row: Seq<String>, values: Seq<JsonView>) -> bool {
    &&& forall|name: Seq<char>| #[trigger] rules::items_of(row).contains(name) <==> names_item(values, name)
    &&& rules::items_of(row).len() == row.len()
}

proof fn lemma_keys(values: Seq<JsonView>, i: nat, n: nat)
    requires
        n <= values.len(),
        forall|j: int| 0 <= j < values.len() ==> is_allowed(#[trigger] values[j]),
    ensures
        assoc_rules::keys_of(values, i, n) is Ok,
        forall|name: Seq<char>| #[trigger]
            assoc_rules::keys_of(values, i, n)->Ok_0.contains(name) <==> names_item(values.take(n as int), name),
    decreases n,
{
    if n == 0 {
    } else {
        lemma_keys(values, i, (n - 1) as nat);
        let before = assoc_rules::keys_of(values, i, (n - 1) as nat)->Ok_0;
        let keys = assoc_rules::keys_of(values, i, n)->Ok_0;
        let v = values[n - 1];
        assert(is_allowed(v));
        let small = values.take(n - 1);
        let large = values.take(n as int);
        assert forall|name: Seq<char>| #[trigger] keys.contains(name) <==> names_item(large, name) by {
            if names_item(large, name) {
                let j = choose|j: int| 0 <= j < large.len() && is_item(#[trigger] large[j], name);
                if j < n - 1 {
                    assert(is_item(small[j], name));
                    assert(before.contains(name));
                    let k = choose|k: int| 0 <= k < before.len() && before[k] == name;
                    assert(keys[k] == name);
                } else {
                    assert(keys[before.len() as int] == name);
                }
            }
            if keys.contains(name) {
                let k = choose|k: int| 0 <= k < keys.len() && keys[k] == name;
                if k < before.len() {
                    assert(before[k] == name);
                    assert(before.contains(name));
                    let j = choose|j: int| 0 <= j < small.len() && is_item(#[trigger] small[j], name);
                    assert(is_item(large[j], name));
                } else {
                    assert(is_item(large[n - 1], name));
                }
            }
        }
    }
}

/// The documents of the transactions of the rows: `at` names, in order, the
/// transactions that have an item.
pub open spec fn are_rows(rows: Seq<Vec<String>>, values: Seq<Seq<JsonView>>, at: Seq<int>) -> bool {
    &&& rows.len() == at.len()
    &&& forall|i: int, j: int| #![trigger at[i], at[j]] 0 <= i < j < at.len() ==> at[i] < at[j]
    &&& forall|j: int|
        #![trigger at[j]]
        #![trigger rows[j]]
        0 <= j < at.len() ==> 0 <= at[j] < values.len() && is_row(rows[j]@, values[at[j]])
    &&& forall|p: int| 0 <= p < values.len() && has_item(#[trigger] values[p]) ==> at.contains(p)
    &&& forall|j: int| 0 <= j < at.len() ==> has_item(values[#[trigger] at[j]])
}

/// One of the values is not a null.
pub open spec fn has_item(values: Seq<JsonView>) -> bool {
    exists|j: int| 0 <= j < values.len() && !((#[trigger] values[j]) is Null)
}

proof fn lemma_itemset(keys: Seq<Seq<char>>)
    ensures
        assoc_rules::is_itemset_of(assoc_rules::itemset_of(keys), keys),
{
    vstd::seq_lib::seq_to_set_is_finite(keys);
    let s = rules::lemma_in_order(keys.to_set());
    assert forall|y: Seq<char>| #[trigger] s.contains(y) <==> keys.contains(y) by {
        assert(s.to_set().contains(y) <==> keys.to_set().contains(y));
    }
    assert(assoc_rules::is_itemset_of(s, keys));
}

proof fn lemma_transactions(txns: Seq<JsonView>, values: Seq<Seq<JsonView>>, n: nat) -> (at: Seq<int>)
    requires
        n <= txns.len(),
        txns.len() == values.len(),
        forall|i: int| 0 <= i < txns.len() ==> is_transaction(#[trigger] txns[i], values[i]),
    ensures
        assoc_rules::transactions_of(txns, n) is Ok,
        ({
            let sets = assoc_rules::transactions_of(txns, n)->Ok_0;
            &&& sets.len() == at.len()
            &&& forall|i: int, j: int| #![trigger at[i], at[j]] 0 <= i < j < at.len() ==> at[i] < at[j]
            &&& forall|j: int|
                #![trigger at[j]]
                #![trigger sets[j]]
                0 <= j < at.len() ==> 0 <= at[j] < n && itemset::ascending(sets[j], names::by_text()) && has_item(
                    values[at[j]],
                ) && forall|name: Seq<char>| #[trigger] sets[j].contains(name) <==> names_item(values[at[j]], name)
            &&& forall|p: int| 0 <= p < n && has_item(#[trigger] values[p]) ==> at.contains(p)
        }),
    decreases n,
{
    if n == 0 {
        Seq::empty()
    } else {
        let m = (n - 1) as nat;
        let before = lemma_transactions(txns, values, m);
        let txn = txns[m as int];
        let vals = values[m as int];
        assert(is_transaction(txn, vals));
        documents::law_member_is_found(txn, "items"@, JsonView::Array(vals));
        assert(json::field(txn->Object_0, "items"@) == Some(JsonView::Array(vals)));
        lemma_keys(vals, m, vals.len());
        assert(vals.take(vals.len() as int) =~= vals);
        let keys = assoc_rules::keys_of(vals, m, vals.len())->Ok_0;
        lemma_itemset(keys);
        let set = assoc_rules::itemset_of(keys);
        assert(assoc_rules::transaction_of(txn, m) == Ok::<Seq<Seq<char>>, Seq<char>>(set));
        assert((set.len() == 0) == !has_item(vals)) by {
            if has_item(vals) {
                let j = choose|j: int| 0 <= j < vals.len() && !((#[trigger] vals[j]) is Null);
                assert(is_allowed(vals[j]));
                let name = match vals[j] {
                    JsonView::Text(s) => s,
                    JsonView::Number(x) => x.text,
                    JsonView::Bool(b) => if b {
                        "true"@
                    } else {
                        "false"@
                    },
                    _ => Seq::empty(),
                };
                assert(is_item(vals[j], name));
                assert(keys.contains(name));
                assert(set.contains(name));
            }
            if set.len() > 0 {
                assert(set.contains(set[0]));
                assert(keys.contains(set[0]));
                let j = choose|j: int| 0 <= j < vals.len() && is_item(#[trigger] vals[j], set[0]);
                assert(!(vals[j] is Null));
            }
        }
        if set.len() == 0 {
            before
        } else {
            let at = before.push(m as int);
            let sets = assoc_rules::transactions_of(txns, n)->Ok_0;
            let old_sets = assoc_rules::transactions_of(txns, m)->Ok_0;
            assert(sets == old_sets.push(set));
            assert forall|p: int| 0 <= p < n && has_item(#[trigger] values[p]) implies at.contains(p) by {
                if p < m {
                    assert(before.contains(p));
                    let k = choose|k: int| 0 <= k < before.len() && before[k] == p;
                    assert(at[k] == p);
                } else {
                    assert(at[before.len() as int] == p);
                }
            }
            assert forall|name: Seq<char>| #[trigger] set.contains(name) <==> names_item(vals, name) by {
                assert(keys.contains(name) <==> names_item(vals, name));
            }
            at
        }
    }
}

/// Transactions are read with what they name, each item once, and those that name
/// nothing are left out.
pub proof fn law_transactions_are_read(
    json_text: &str,
    r: Result<Vec<Vec<String>>, String>,
    txns: Seq<JsonView>,
    values: Seq<Seq<JsonView>>,
) -> (at: Seq<int>)
    requires
        call_ensures(parse_transactions, (json_text,), r),
        json::json_document(json_text@) == Ok::<JsonView, Seq<char>>(JsonView::Array(txns)),
        txns.len() == values.len(),
        forall|i: int| 0 <= i < txns.len() ==> is_transaction(#[trigger] txns[i], values[i]),
    ensures
        r is Ok,
        are_rows(r->Ok_0@, values, at),
{
    let at = lemma_transactions(txns, values, txns.len());
    let rows = r->Ok_0@;
    let sets = assoc_rules::transactions_of(txns, txns.len())->Ok_0;
    assert(names::text_rows(rows) == sets);
    assert(names::text_rows(rows).len() == rows.len());
    assert forall|j: int|
        #![trigger at[j]]
        #![trigger rows[j]]
        0 <= j < at.len() implies 0 <= at[j] < values.len() && is_row(rows[j]@, values[at[j]]) by {
        assert(sets[j] == names::text_rows(rows)[j]);
        rules::lemma_items(rows[j]@);
        rules::lemma_ascending_is_distinct(sets[j]);
        assert(rules::items_of(rows[j]@) == sets[j].to_set());
        assert forall|name: Seq<char>| #[trigger] rules::items_of(rows[j]@).contains(name) <==> names_item(
            values[at[j]],
            name,
        ) by {
            assert(sets[j].contains(name) <==> names_item(values[at[j]], name));
        }
    }
    at
}

/// The transaction cannot be read: it is no object, lacks the items, or has items
/// that are no array or of which one is an array or an object.
pub open spec fn is_unreadable(txn: JsonView) -> bool {
    ||| !(txn is Object)
    ||| documents::lacks(txn, "items"@)
    ||| has_bad_items(txn)
}

/// See [`is_unreadable`].
pub open spec fn has_bad_items(txn: JsonView) -> bool {
    exists|v: JsonView| #[trigger] documents::has(txn, "items"@, v) && are_bad(v)
}

/// See [`is_unreadable`].
pub open spec fn are_bad(v: JsonView) -> bool {
    v matches JsonView::Array(values) ==> exists|j: int| 0 <= j < values.len() && !is_allowed(#[trigger] values[j])
}

proof fn lemma_bad_keys(values: Seq<JsonView>, i: nat, n: nat, j: int)
    requires
        0 <= j < n <= values.len(),
        !is_allowed(values[j]),
    ensures
        assoc_rules::keys_of(values, i, n) is Err,
    decreases n,
{
    if j < n - 1 {
        lemma_bad_keys(values, i, (n - 1) as nat, j);
    }
}

proof fn lemma_bad_transactions(txns: Seq<JsonView>, n: nat, i: int)
    requires
        0 <= i < n <= txns.len(),
        assoc_rules::transaction_of(txns[i], i as nat) is Err,
    ensures
        assoc_rules::transactions_of(txns, n) is Err,
    decreases n,
{
    if i < n - 1 {
        lemma_bad_transactions(txns, (n - 1) as nat, i);
    }
}

/// A document that is no array, or that has a transaction that cannot be read, is
/// refused as a whole.
pub proof fn law_unreadable_transactions_are_refused(
    json_text: &str,
    r: Result<Vec<Vec<String>>, String>,
    doc: JsonView,
    i: int,
)
    requires
        call_ensures(parse_transactions, (json_text,), r),
        json::json_document(json_text@) == Ok::<JsonView, Seq<char>>(doc),
        doc matches JsonView::Array(txns) ==> 0 <= i < txns.len() && is_unreadable(txns[i]),
    ensures
        r is Err,
{
    if doc is Array {
        let txns = doc->Array_0;
        let txn = txns[i];
        if txn is Object {
            if documents::lacks(txn, "items"@) {
                documents::law_member_is_found(txn, "items"@, JsonView::Null);
            } else {
                let v = choose|v: JsonView| #[trigger] documents::has(txn, "items"@, v) && are_bad(v);
                documents::law_member_is_found(txn, "items"@, v);
                if v is Array {
                    let values = v->Array_0;
                    let j = choose|j: int| 0 <= j < values.len() && !is_allowed(#[trigger] values[j]);
                    lemma_bad_keys(values, i as nat, values.len(), j);
                }
            }
        }
        lemma_bad_transactions(txns, txns.len(), i);
    }
}

/// Each row of arguments is mined by itself with its own shares, and one with a null
/// gives a null. The size is that of the first row, and there is none without a
/// fourth column.
pub proof fn law_rows_are_mined<
    S: Fn(u64, u64) -> u64,
    M: Fn(u64, u64, u64, u64) -> Measures,
    F: Fn() -> bool,
>(
    columns: usize,
    args: &Vec<AssocRow>,
    support_floor: &S,
    measure: &M,
    requested: &F,
    out: Vec<Option<AssocResult>>,
    i: int,
    size: usize,
    transactions_json: &str,
    rows: Vec<Vec<String>>,
) -> (floor: u64)
    requires
        call_ensures(AssocRulesFn::invoke::<S, M, F>, (columns, args, support_floor, measure, requested), Ok(out)),
        0 <= i < args@.len(),
        columns == 3 ==> size == 0,
        columns == 4 ==> size == (match args@[0].max_itemset_size {
            Some(v) => v as usize,
            None => 0,
        }),
        args@[i].transactions matches Some(s) ==> s@ == transactions_json@,
        call_ensures(parse_transactions, (transactions_json,), Ok(rows)),
        0 < rows@.len() <= u64::MAX,
        forall|share: u64, n: u64, x: u64| n > 0 && #[trigger] call_ensures(*support_floor, (share, n), x) ==> x >= 1,
    ensures
        3 <= columns <= 4,
        out@.len() == args@.len(),
        out@[i] is None <==> args@[i].transactions is None || args@[i].min_support is None
            || args@[i].min_confidence is None,
        out@[i] matches Some(result) ==> {
            &&& call_ensures(*support_floor, (args@[i].min_support->0, rows@.len() as u64), floor)
            &&& rules::is_mined(rows@, floor, args@[i].min_confidence->0, size, *measure, result)
        },
{
    assert(out@[i] is None || out@[i] is Some);
    if out@[i] is Some {
        let result = out@[i]->0;
        let txns = names::text_rows(rows@);
        let share = args@[i].min_support->0;
        let conf = args@[i].min_confidence->0;
        assert(assoc_rules::row_outcome(args@[i], size, *support_floor, *measure, *requested, Ok(result)));
        let floor = choose|floor: u64|
            call_ensures(*support_floor, (share, txns.len() as u64), floor) && #[trigger] assoc_rules::mined(
                txns,
                floor,
                conf,
                size as nat,
                *measure,
                *requested,
                result,
            );
        rules::lemma_mined(rows@, floor, conf, size, *measure, *requested, result);
        floor
    } else {
        0
    }
}

} // verus!
