use std::collections::HashMap;

use duckdb_ml::assoc_rules::{
    apriori, assoc_rules_from_json, cancel_check, generate_rules, item_key, order_rules,
    parse_transactions, set_assoc_cancel, AssocResult, AssocRow, AssocRulesFn, Measures, Rule,
    CANCEL_CHECK_INTERVAL, MAX_CANDIDATES, MAX_RULES,
};
use duckdb_ml::json::{parse_json, Json};
use duckdb_ml::report::write_assoc;
use serde_json::Value;

/// Classic market basket: five transactions over milk, bread, diaper and beer.
const CLASSIC_JSON: &str = r#"[
    {"tid":1,"items":["milk","bread","diaper"]},
    {"tid":2,"items":["milk","bread","diaper"]},
    {"tid":3,"items":["milk","bread","diaper"]},
    {"tid":4,"items":["milk","bread"]},
    {"tid":5,"items":["bread","beer"]}
]"#;

fn classic_transactions() -> Vec<Vec<String>> {
    parse_transactions(CLASSIC_JSON).unwrap()
}

fn never() -> bool {
    false
}

fn support_floor(share: u64, n: u64) -> u64 {
    (f64::from_bits(share) * n as f64).ceil() as u64
}

fn measure(f: u64, a: u64, b: u64, n: u64) -> Measures {
    let confidence = f as f64 / a as f64;
    Measures {
        support: (f as f64 / n as f64).to_bits(),
        confidence: confidence.to_bits(),
        lift: (confidence / (b as f64 / n as f64)).to_bits(),
    }
}

fn mine(json: &str, min_support: f64, min_confidence: f64, max: usize) -> Result<AssocResult, String> {
    assoc_rules_from_json(
        json,
        min_support.to_bits(),
        min_confidence.to_bits(),
        max,
        &support_floor,
        &measure,
        &never,
    )
}

fn share(count: u64, n: u64) -> u64 {
    (count as f64 / n as f64).to_bits()
}

fn write(x: u64) -> String {
    serde_json::Number::from_f64(f64::from_bits(x)).unwrap().to_string()
}

fn report(out: &AssocResult) -> Value {
    serde_json::from_str(&write_assoc(out, &share, &write)).unwrap()
}

fn words(items: &[&str]) -> Vec<String> {
    items.iter().map(|s| s.to_string()).collect()
}

// -- parsing --

#[test]
fn parse_accepts_mixed_scalars_and_dedupes() {
    let txns =
        parse_transactions(r#"[{"tid":1,"items":["milk","bread","milk",42,42.5,true,null]}]"#)
            .unwrap();
    assert_eq!(
        txns,
        vec![vec![
            "42".to_string(),
            "42.5".to_string(),
            "bread".to_string(),
            "milk".to_string(),
            "true".to_string()
        ]]
    );
}

#[test]
fn parse_skips_empty_transactions() {
    let txns = parse_transactions(r#"[{"tid":1,"items":[]},{"tid":2,"items":[null]}]"#).unwrap();
    assert!(txns.is_empty());
}

#[test]
fn parse_rejects_object_item() {
    let err = parse_transactions(r#"[{"tid":1,"items":[{"x":1}]}]"#).unwrap_err();
    assert!(err.contains("object/array"), "{err}");
}

#[test]
fn parse_rejects_non_array_root() {
    assert!(parse_transactions(r#"{"tid":1}"#).is_err());
}

#[test]
fn parse_missing_items_errors() {
    assert!(parse_transactions(r#"[{"tid":1}]"#).is_err());
}

// -- apriori --

#[test]
fn freq_itemsets_basic() {
    let txns = classic_transactions();
    let (freq, _, _) = apriori(&txns, 2, 0, &mut false, &never);
    let map: HashMap<&[String], u64> = freq.iter().map(|(i, c)| (i.as_slice(), *c)).collect();
    assert_eq!(map.get(&["milk".to_string()][..]), Some(&4));
    assert_eq!(map.get(&["bread".to_string()][..]), Some(&5));
    assert_eq!(map.get(&["diaper".to_string()][..]), Some(&3));
    assert_eq!(
        map.get(&["bread".to_string(), "milk".to_string()][..]),
        Some(&4)
    );
    assert_eq!(
        map.get(&["milk".to_string(), "bread".to_string()][..]),
        None
    );
    assert_eq!(freq.len(), 7);
}

#[test]
fn freq_itemsets_respects_support() {
    let txns = classic_transactions();
    let (freq, _, _) = apriori(&txns, 4, 0, &mut false, &never);
    assert_eq!(
        freq,
        vec![
            (vec!["bread".to_string()], 5),
            (vec!["milk".to_string()], 4),
            (vec!["bread".to_string(), "milk".to_string()], 4),
        ]
    );
}

#[test]
fn itemset_size_cap_limits_level() {
    let txns = classic_transactions();
    let (freq, _, _) = apriori(&txns, 2, 2, &mut false, &never);
    assert!(
        freq.iter().all(|(items, _)| items.len() <= 2),
        "got {freq:?}"
    );
    assert!(freq.len() >= 6);
}

// -- rules --

#[test]
fn rules_support_conf_lift() {
    let txns = classic_transactions();
    let (freq, _, _) = apriori(&txns, 2, 0, &mut false, &never);
    let mut rules = generate_rules(
        &freq,
        0.0f64.to_bits(),
        txns.len() as u64,
        &mut false,
        &measure,
        &never,
    )
    .0;
    order_rules(&mut rules);
    let r = rules
        .iter()
        .find(|r| r.antecedent == vec!["milk"] && r.consequent == vec!["bread"])
        .expect("rule exists");
    assert!((f64::from_bits(r.support) - 0.8).abs() < 1e-9);
    assert!((f64::from_bits(r.confidence) - 1.0).abs() < 1e-9);
    assert!((f64::from_bits(r.lift) - 1.0).abs() < 1e-9);
}

#[test]
fn rule_filter_confidence() {
    let txns = classic_transactions();
    let (freq, _, _) = apriori(&txns, 2, 0, &mut false, &never);
    let rules = generate_rules(
        &freq,
        0.9f64.to_bits(),
        txns.len() as u64,
        &mut false,
        &measure,
        &never,
    )
    .0;
    assert!(rules
        .iter()
        .all(|r| f64::from_bits(r.confidence) >= 0.9 - 1e-9
            && !(r.antecedent == vec!["bread"] && r.consequent == vec!["milk"])));
    assert!(rules
        .iter()
        .any(|r| r.antecedent == vec!["diaper"] && r.consequent == vec!["milk"]));
}

#[test]
fn rules_require_size_two_itemsets() {
    let txns = parse_transactions(r#"[{"tid":1,"items":["a","b"]}]"#).unwrap();
    let (freq, _, _) = apriori(&txns, 1, 0, &mut false, &never);
    let rules = generate_rules(&freq, 0.0f64.to_bits(), 1, &mut false, &measure, &never).0;
    assert_eq!(rules.len(), 2);
}

#[test]
fn rules_of_a_listing_in_any_order() {
    let freq = vec![
        (words(&["a", "b"]), 2),
        (words(&["b"]), 3),
        (words(&["a"]), 2),
        (words(&["b"]), 4),
    ];
    let rules = generate_rules(&freq, 0.0f64.to_bits(), 4, &mut false, &measure, &never).0;
    assert_eq!(rules.len(), 2);
    let confidence = |from: &str| {
        let r = rules.iter().find(|r| r.antecedent == vec![from]).expect("rule exists");
        f64::from_bits(r.confidence)
    };
    assert_eq!(confidence("a"), 1.0);
    // The last count that is listed for an itemset holds.
    assert_eq!(confidence("b"), 0.5);
}

fn one_basket(n: usize) -> Vec<Vec<String>> {
    vec![(0..n).map(|i| format!("i{i:03}")).collect()]
}

#[test]
fn a_stop_while_counting_keeps_the_sizes_before() {
    // 100 units to join the items, then one for each of the 4950 pairs.
    let (freq, candidates, cancelled) = apriori(&one_basket(100), 1, 0, &mut false, &|| true);
    assert!(cancelled);
    assert_eq!(candidates, 4950);
    assert_eq!(freq.len(), 100);
    assert!(freq.iter().all(|(items, count)| items.len() == 1 && *count == 1));
}

#[test]
fn a_stop_while_joining_keeps_the_sizes_before() {
    // 80 units for the items and 3160 for the pairs; the stop comes while the
    // pairs are joined.
    let (freq, candidates, cancelled) = apriori(&one_basket(80), 1, 0, &mut false, &|| true);
    assert!(cancelled);
    assert_eq!(candidates, 3160);
    assert_eq!(freq.len(), 80 + 3160);
    assert_eq!(freq[3239].0, words(&["i078", "i079"]));
}

#[test]
fn a_stop_keeps_the_rules_found_before() {
    let many: Vec<String> = (0..13).map(|i| format!("i{i:02}")).collect();
    let freq = vec![
        (words(&["a", "b"]), 2),
        (words(&["a"]), 2),
        (words(&["b"]), 4),
        (many, 1),
        (words(&["b", "c"]), 1),
        (words(&["c"]), 1),
    ];
    let run = |stop: bool| {
        generate_rules(&freq, 0.0f64.to_bits(), 4, &mut false, &measure, &|| stop)
    };
    let (some, cancelled) = run(true);
    assert!(cancelled);
    assert_eq!(some.len(), 2);
    assert_eq!(f64::from_bits(some[1].confidence), 0.5);
    let (all, cancelled) = run(false);
    assert!(!cancelled);
    assert_eq!(all.len(), 4);
    assert_eq!(all[..2], some[..]);
}

#[test]
fn deterministic_order() {
    let a = mine(CLASSIC_JSON, 0.4, 0.5, 0).unwrap();
    let b = mine(CLASSIC_JSON, 0.4, 0.5, 0).unwrap();
    assert_eq!(a, b);
    assert_eq!(
        write_assoc(&a, &share, &write),
        write_assoc(&b, &share, &write)
    );
}

#[test]
fn mining_report_text() {
    let out = mine(r#"[{"tid":1,"items":["a","b"]}]"#, 1.0, 1.0, 0).unwrap();
    assert_eq!(
        write_assoc(&out, &share, &write),
        "{\"frequent_itemsets\":[{\"items\":[\"a\"],\"support\":1.0},{\"items\":[\"b\"],\"support\":1.0},\
         {\"items\":[\"a\",\"b\"],\"support\":1.0}],\"rules\":[\
         {\"antecedent\":[\"a\"],\"confidence\":1.0,\"consequent\":[\"b\"],\"lift\":1.0,\"support\":1.0},\
         {\"antecedent\":[\"b\"],\"confidence\":1.0,\"consequent\":[\"a\"],\"lift\":1.0,\"support\":1.0}],\
         \"stats\":{\"cancelled\":false,\"candidates\":1,\"rules\":2,\"transactions\":1,\"truncated\":false}}"
    );
}

// -- boundaries and validation --

#[test]
fn param_validation() {
    assert!(mine("[]", 0.0, 0.5, 0).is_err());
    assert!(mine("[]", 1.5, 0.5, 0).is_err());
    assert!(mine("[]", 0.5, 0.0, 0).is_err());
    assert!(mine("[]", 0.5, 1.1, 0).is_err());
}

#[test]
fn empty_and_single_transactions() {
    let v = report(&mine("[]", 0.5, 0.5, 0).unwrap());
    assert_eq!(v["rules"].as_array().unwrap().len(), 0);
    assert_eq!(v["stats"]["transactions"], 0);

    let v = report(&mine(r#"[{"tid":1,"items":["a"]}]"#, 0.5, 0.5, 0).unwrap());
    assert_eq!(v["rules"].as_array().unwrap().len(), 0);
    assert_eq!(v["frequent_itemsets"].as_array().unwrap().len(), 1);
}

// -- cancel and caps --

#[test]
fn cancel_returns_partial() {
    let mut parts = Vec::with_capacity(5000);
    for t in 0..5000usize {
        let items: Vec<String> = (0..5).map(|d| format!("i{}", (t + d) % 100)).collect();
        parts.push(format!(
            r#"{{"tid":{},"items":["{}"]}}"#,
            t,
            items.join("\",\"")
        ));
    }
    let json = format!("[{}]", parts.join(","));
    let mut flag = false;
    set_assoc_cancel(&mut flag, true);
    let out = assoc_rules_from_json(
        &json,
        0.04f64.to_bits(),
        0.5f64.to_bits(),
        0,
        &support_floor,
        &measure,
        &|| flag,
    )
    .unwrap();
    set_assoc_cancel(&mut flag, false);
    assert!(!flag);
    let v = report(&out);
    assert_eq!(v["stats"]["cancelled"], true);
    assert!(v["rules"].is_array());
    assert_eq!(v["stats"]["transactions"], 5000);
}

#[test]
fn small_scan_not_cancelled() {
    let v = report(&mine(CLASSIC_JSON, 0.4, 0.5, 0).unwrap());
    assert_eq!(v["stats"]["cancelled"], false);
    assert_eq!(v["stats"]["truncated"], false);
}

// -- beyond the classics --

#[test]
fn item_keys_by_type() {
    assert_eq!(item_key(&Json::Null), Ok(None));
    assert_eq!(item_key(&Json::Bool(false)), Ok(Some("false".to_string())));
    assert_eq!(
        item_key(&Json::Text("a".to_string())),
        Ok(Some("a".to_string()))
    );
    assert_eq!(
        item_key(&parse_json("42.5").unwrap()),
        Ok(Some("42.5".to_string()))
    );
    assert!(item_key(&Json::Array(vec![])).is_err());
}

#[test]
fn frequent_itemsets_hold_their_subsets() {
    let txns = classic_transactions();
    let (freq, candidates, cancelled) = apriori(&txns, 2, 0, &mut false, &never);
    assert!(!cancelled);
    assert!(candidates > 0);
    for (items, count) in &freq {
        for left_out in 0..items.len() {
            if items.len() == 1 {
                continue;
            }
            let rest: Vec<String> = items
                .iter()
                .enumerate()
                .filter(|(i, _)| *i != left_out)
                .map(|(_, s)| s.clone())
                .collect();
            let found = freq.iter().find(|(f, _)| *f == rest).expect("subset");
            assert!(found.1 >= *count);
        }
    }
}

#[test]
fn cancel_check_looks_at_each_interval() {
    let mut work: u64 = 0;
    for _ in 1..CANCEL_CHECK_INTERVAL {
        assert!(!cancel_check(&mut work, &|| true));
    }
    assert!(cancel_check(&mut work, &|| true));
    assert_eq!(work, CANCEL_CHECK_INTERVAL);
    let mut wraps: u64 = u64::MAX;
    assert!(cancel_check(&mut wraps, &|| true));
    assert_eq!(wraps, 0);
    assert_eq!(MAX_CANDIDATES, 2_000_000);
    assert_eq!(MAX_RULES, 1_000_000);
}

#[test]
fn rules_sort_by_confidence_support_and_size() {
    let rule = |ant: &[&str], cons: &[&str], conf: f64, supp: f64| Rule {
        antecedent: words(ant),
        consequent: words(cons),
        support: supp.to_bits(),
        confidence: conf.to_bits(),
        lift: 1.0f64.to_bits(),
    };
    let mut rules = vec![
        rule(&["b", "d"], &["c"], 0.5, 0.5),
        rule(&["b"], &["a"], 1.0, 0.25),
        rule(&["a"], &["c"], 0.5, 0.5),
        rule(&["a"], &["b"], 1.0, 0.5),
    ];
    order_rules(&mut rules);
    let listed: Vec<(String, String)> = rules
        .iter()
        .map(|r| (r.antecedent[0].clone(), r.consequent[0].clone()))
        .collect();
    assert_eq!(
        listed,
        vec![
            ("a".to_string(), "b".to_string()),
            ("b".to_string(), "a".to_string()),
            ("a".to_string(), "c".to_string()),
            ("b".to_string(), "c".to_string()),
        ]
    );
}

#[test]
fn mining_reports_exact_measures() {
    let out = mine(CLASSIC_JSON, 0.4, 0.5, 0).unwrap();
    assert_eq!(out.transactions, 5);
    let r = out
        .rules
        .iter()
        .find(|r| r.antecedent == words(&["bread"]) && r.consequent == words(&["diaper"]))
        .unwrap();
    assert_eq!(f64::from_bits(r.support), 0.6);
    assert_eq!(f64::from_bits(r.confidence), 0.6);
    assert_eq!(f64::from_bits(r.lift), 0.6 / 0.6);
}

#[test]
fn mining_errors_name_the_fault() {
    assert!(mine("not json", 0.5, 0.5, 0).is_err());
    assert!(mine(r#"[{"tid":1,"items":3}]"#, 0.5, 0.5, 0).is_err());
    assert!(mine("[]", f64::NAN, 0.5, 0).is_err());
}

#[test]
fn scalar_function_rows() {
    let rows = vec![
        AssocRow {
            transactions: None,
            min_support: None,
            min_confidence: None,
            max_itemset_size: Some(2),
        },
        AssocRow {
            transactions: Some(CLASSIC_JSON.to_string()),
            min_support: Some(0.4f64.to_bits()),
            min_confidence: Some(0.5f64.to_bits()),
            max_itemset_size: None,
        },
    ];
    let out = AssocRulesFn::invoke(4, &rows, &support_floor, &measure, &never).unwrap();
    assert_eq!(out.len(), 2);
    assert!(out[0].is_none());
    let second = out[1].as_ref().unwrap();
    assert!(second.frequent_itemsets.iter().all(|(i, _)| i.len() <= 2));
    assert!(AssocRulesFn::invoke(0, &rows, &support_floor, &measure, &never).is_err());
}
