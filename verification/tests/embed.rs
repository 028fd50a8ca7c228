use duckdb_ml::cosine::{
    cosine_similarity, is_finite, l2_normalize, VectorMath, EPSILON, MINUS_ONE, ONE,
};
use duckdb_ml::embed::{
    blob_from_string, candidate_embed, candidate_row_id, decode_duckdb_binary, hex_decode,
    pack_f32_le, parse_query_vec, row_id_cmp, set_similarity_cancel, similarity_from_json,
    unpack_f32_le, EmbedFn, Payload, SimilarityFn, SimilarityResult, SimilarityRow,
    CANCEL_CHECK_INTERVAL, K_CAP,
};
use duckdb_ml::json::{parse_json, render_json};
use duckdb_ml::model::onnx::onnx_metadata;
use duckdb_ml::model::registry::{CacheEntry, ModelRegistry};
use duckdb_ml::report::write_similarity;
use duckdb_ml::text::Placed;
use serde_json::Value;

fn bits(v: &[f32]) -> Vec<u32> {
    v.iter().map(|x| x.to_bits()).collect()
}

fn narrow(x: u64) -> u32 {
    (f64::from_bits(x) as f32).to_bits()
}

fn norm(v: &Vec<u32>) -> u32 {
    v.iter()
        .map(|x| f32::from_bits(*x) * f32::from_bits(*x))
        .sum::<f32>()
        .sqrt()
        .to_bits()
}

fn divide(a: u32, b: u32) -> u32 {
    (f32::from_bits(a) / f32::from_bits(b)).to_bits()
}

fn dot(a: &Vec<u32>, b: &Vec<u32>) -> u32 {
    a.iter()
        .zip(b)
        .map(|(x, y)| f32::from_bits(*x) * f32::from_bits(*y))
        .sum::<f32>()
        .to_bits()
}

fn cosine(a: &[f32], b: &[f32]) -> f32 {
    f32::from_bits(cosine_similarity(&bits(a), &bits(b), &norm, &divide, &dot))
}

fn scan(query: &str, candidates: &str, k: usize, threshold: f64) -> Result<SimilarityResult, String> {
    similarity_from_json(
        query,
        candidates,
        k,
        threshold.to_bits(),
        &narrow,
        &VectorMath { norm, divide, dot },
        &|| false,
    )
}

/// A score with six decimals.
fn write(x: u32) -> String {
    let rounded = (f32::from_bits(x) as f64 * 1e6).round() / 1e6;
    serde_json::Number::from_f64(rounded).unwrap().to_string()
}

fn report(r: &SimilarityResult) -> Value {
    serde_json::from_str(&write_similarity(r, &write)).unwrap()
}

fn hex_encode(bytes: &[u8]) -> String {
    bytes.iter().map(|b| format!("{b:02x}")).collect()
}

// -- blob packing --

#[test]
fn pack_unpack_roundtrip() {
    let v = bits(&[1.5f32, -2.25, 0.0, f32::MAX, f32::MIN_POSITIVE]);
    let bytes = pack_f32_le(&v);
    assert_eq!(bytes.len(), v.len() * 4);
    assert_eq!(unpack_f32_le(&bytes).unwrap(), v);
}

#[test]
fn unpack_rejects_non_multiple_of_4() {
    assert_eq!(unpack_f32_le(&[0u8, 1, 2]), None);
    assert_eq!(unpack_f32_le(&[]), Some(vec![]));
}

#[test]
fn pack_is_little_endian() {
    assert_eq!(pack_f32_le(&bits(&[1.0])), vec![0x00, 0x00, 0x80, 0x3F]);
}

// -- cosine --

#[test]
fn cosine_identical_is_one() {
    assert_eq!(cosine(&[1.0, 0.0], &[1.0, 0.0]), 1.0);
}

#[test]
fn cosine_orthogonal_is_zero() {
    assert_eq!(cosine(&[1.0, 0.0], &[0.0, 1.0]), 0.0);
}

#[test]
fn cosine_opposite_is_minus_one() {
    assert_eq!(cosine(&[1.0, 0.0], &[-1.0, 0.0]), -1.0);
}

#[test]
fn cosine_scale_invariant() {
    let a = [1.0, 2.0, 3.0];
    let b = [2.0, 4.0, 6.0];
    let s = cosine(&a, &b);
    assert!((s - 1.0).abs() < 1e-6, "s={s}");
}

#[test]
fn cosine_dim_mismatch_is_zero() {
    assert_eq!(cosine(&[1.0, 0.0], &[1.0]), 0.0);
    assert_eq!(cosine(&[], &[]), 0.0);
}

#[test]
fn cosine_nan_is_zero() {
    assert_eq!(cosine(&[f32::NAN, 0.0], &[1.0, 0.0]), 0.0);
    assert_eq!(cosine(&[1.0, 0.0], &[f32::INFINITY, 0.0]), 0.0);
}

#[test]
fn cosine_clamped() {
    let a = [1.0f32, 1e-7];
    let b = [1.0f32, 1e-7];
    let s = cosine(&a, &b);
    assert!(s <= 1.0 && s >= -1.0);
    let above = |_: &Vec<u32>, _: &Vec<u32>| 1.5f32.to_bits();
    let v = bits(&[1.0]);
    assert_eq!(
        f32::from_bits(cosine_similarity(&v, &v, &norm, &divide, &above)),
        1.0
    );
}

#[test]
fn normalize_zero_norm_is_none() {
    let normalized = |v: &[f32]| l2_normalize(&bits(v), &norm, &divide);
    assert_eq!(normalized(&[0.0, 0.0]), None);
    assert_eq!(normalized(&[]), None);
    assert_eq!(normalized(&[f32::NAN]), None);
    assert!(normalized(&[3.0, 4.0]).is_some());
    assert_eq!(normalized(&[3.0, 4.0]), Some(bits(&[0.6, 0.8])));
    assert_eq!(normalized(&[f32::EPSILON]), None);
}

#[test]
fn single_constants() {
    assert_eq!(f32::from_bits(EPSILON), f32::EPSILON);
    assert_eq!(f32::from_bits(ONE), 1.0);
    assert_eq!(f32::from_bits(MINUS_ONE), -1.0);
    for x in [0.0f32, -1.0, f32::MAX, f32::INFINITY, f32::NEG_INFINITY, f32::NAN] {
        assert_eq!(is_finite(x.to_bits()), x.is_finite());
    }
}

// -- query parsing --

#[test]
fn query_accepts_json_array() {
    assert_eq!(
        parse_query_vec("[1.0, 2.0, 3.0]", &narrow).unwrap(),
        bits(&[1.0, 2.0, 3.0])
    );
}

#[test]
fn query_accepts_hex_blob() {
    let v = bits(&[1.0f32, -2.0]);
    let hex = hex_encode(&pack_f32_le(&v));
    assert_eq!(parse_query_vec(&hex, &narrow).unwrap(), v);
}

#[test]
fn query_accepts_duckdb_binary_string() {
    assert_eq!(
        parse_query_vec("\\x00\\x00\\x80?", &narrow).unwrap(),
        bits(&[1.0])
    );
    assert_eq!(
        parse_query_vec("\\x00\\x00\\x80\\x3F", &narrow).unwrap(),
        bits(&[1.0])
    );
    assert_eq!(
        parse_query_vec("\\x00\\x00\\x80?\\x00\\x00\\x00\\x00", &narrow).unwrap(),
        bits(&[1.0, 0.0])
    );
}

#[test]
fn duckdb_binary_decode_escapes() {
    assert_eq!(
        decode_duckdb_binary("\\x00\\x00\\x80?").unwrap(),
        vec![0, 0, 128, b'?']
    );
    assert_eq!(
        decode_duckdb_binary("a\\x01b").unwrap(),
        vec![b'a', 1, b'b']
    );
    assert_eq!(decode_duckdb_binary("\\\\\\\"").unwrap(), vec![b'\\', b'"']);
    assert!(decode_duckdb_binary("\\x0").is_none());
    assert!(decode_duckdb_binary("\\xzz").is_none());
}

#[test]
fn blob_from_string_dispatches() {
    assert_eq!(
        blob_from_string("0000803F").unwrap(),
        vec![0, 0, 0x80, 0x3F]
    );
    assert_eq!(
        blob_from_string("\\x00\\x00\\x80?").unwrap(),
        vec![0, 0, 0x80, b'?']
    );
    assert_eq!(blob_from_string("ab?").unwrap(), vec![b'a', b'b', b'?']);
    assert_eq!(blob_from_string("abcd").unwrap(), vec![0xab, 0xcd]);
}

#[test]
fn query_rejects_empty_and_malformed() {
    assert!(parse_query_vec("", &narrow).is_err());
    assert!(parse_query_vec("[]", &narrow).is_err());
    assert!(parse_query_vec("[1,2", &narrow).is_err());
    assert!(parse_query_vec("zz", &narrow).is_err());
    assert!(parse_query_vec("0000ff", &narrow).is_err());
}

// -- similarity scan --

#[test]
fn scan_ranks_by_cosine_desc() {
    let cands = "[[1,[0.0,1.0]],[2,[1.0,0.0]],[3,[0.9,0.1]]]";
    let v = report(&scan("[1.0, 0.0]", cands, 10, 0.0).unwrap());
    let r = v["results"].as_array().unwrap();
    assert_eq!(r.len(), 3);
    assert_eq!(r[0]["row_id"], 2);
    assert_eq!(r[1]["row_id"], 3);
    assert_eq!(r[2]["row_id"], 1);
    assert_eq!(r[0]["score"], 1.0);
    assert_eq!(v["scanned"], 3);
}

#[test]
fn scan_threshold_filters() {
    let cands = "[[1,[1.0,0.0]],[2,[0.5,0.5]],[3,[0.0,1.0]]]";
    let v = report(&scan("[1.0, 0.0]", cands, 10, 0.9).unwrap());
    let r = v["results"].as_array().unwrap();
    assert_eq!(r.len(), 1);
    assert_eq!(r[0]["row_id"], 1);
}

#[test]
fn scan_k_caps_and_sorts() {
    let cands = "[[1,[1.0,0.0]],[2,[0.9,0.1]],[3,[0.8,0.2]],[4,[0.7,0.3]],[5,[0.0,1.0]]]";
    let v = report(&scan("[1.0, 0.0]", cands, 2, 0.0).unwrap());
    let r = v["results"].as_array().unwrap();
    assert_eq!(r.len(), 2);
    assert_eq!(r[0]["row_id"], 1);
    assert_eq!(r[1]["row_id"], 2);
}

#[test]
fn scan_k_capped_at_10000() {
    let v = report(&scan("[1.0, 0.0]", "[[1,[1.0,0.0]]]", 99_999, 0.0).unwrap());
    assert_eq!(v["results"].as_array().unwrap().len(), 1);
    assert_eq!(K_CAP, 10_000);
}

#[test]
fn scan_skips_bad_len_blobs() {
    let v = report(&scan("[1.0, 0.0]", r#"[[1,"0000"],[2,[1.0,0.0]]]"#, 10, 0.0).unwrap());
    assert_eq!(v["results"].as_array().unwrap().len(), 1);
    assert_eq!(v["results"][0]["row_id"], 2);
    assert_eq!(v["skipped_bad_len"], 1);
}

#[test]
fn scan_dim_mismatch_scores_zero_and_counts() {
    let cands = "[[1,[1.0,0.0,5.0]],[2,[1.0,0.0]]]";
    let v = report(&scan("[1.0, 0.0]", cands, 10, 0.0).unwrap());
    assert_eq!(v["skipped_dim"], 1);
    assert_eq!(v["results"].as_array().unwrap().len(), 2);
    assert_eq!(v["results"][1]["row_id"], 1);
    assert_eq!(v["results"][1]["score"], 0.0);
}

#[test]
fn scan_skips_null_embeddings() {
    let v = report(&scan("[1.0, 0.0]", "[[1,null],[2,[1.0,0.0]]]", 10, 0.0).unwrap());
    assert_eq!(v["results"].as_array().unwrap().len(), 1);
    assert_eq!(v["skipped_null"], 1);
}

#[test]
fn scan_accepts_struct_form() {
    let cands = r#"[{"row_id":10,"embeds":[1.0,0.0]},{"row_id":20,"embeds":[0.0,1.0]}]"#;
    let v = report(&scan("[1.0, 0.0]", cands, 10, 0.0).unwrap());
    let r = v["results"].as_array().unwrap();
    assert_eq!(r[0]["row_id"], 10);
}

#[test]
fn scan_accepts_struct_hex_blob() {
    let hex = hex_encode(&pack_f32_le(&bits(&[1.0f32, 0.0])));
    let cands = format!(r#"[{{"row_id":7,"embeds":"{hex}"}}]"#);
    let v = report(&scan("[1.0, 0.0]", &cands, 10, 0.0).unwrap());
    assert_eq!(v["results"][0]["row_id"], 7);
    assert_eq!(v["results"][0]["score"], 1.0);
}

#[test]
fn scan_accepts_duckdb_binary_string() {
    let cands = r#"[
        {"row_id":1,"embeds":"\\x00\\x00\\x80?\\x00\\x00\\x00\\x00"},
        {"row_id":2,"embeds":"\\x00\\x00\\x00\\x00\\x00\\x00\\x80?"}
    ]"#;
    let v = report(&scan("[1.0, 0.0]", cands, 10, 0.0).unwrap());
    let r = v["results"].as_array().unwrap();
    assert_eq!(r[0]["row_id"], 1);
    assert_eq!(r[0]["score"], 1.0);
    assert_eq!(r[1]["row_id"], 2);
    assert_eq!(r[1]["score"], 0.0);
}

#[test]
fn scan_empty_candidates_returns_empty() {
    let v = report(&scan("[1.0, 0.0]", "[]", 10, 0.0).unwrap());
    assert_eq!(v["results"].as_array().unwrap().len(), 0);
    assert_eq!(v["scanned"], 0);
    let v = report(&scan("[1.0, 0.0]", "", 10, 0.0).unwrap());
    assert_eq!(v["results"].as_array().unwrap().len(), 0);
}

#[test]
fn scan_malformed_candidates_error() {
    assert!(scan("[1.0, 0.0]", "not json", 10, 0.0).is_err());
    assert!(scan("[1.0, 0.0]", "{\"a\":1}", 10, 0.0).is_err());
    assert!(scan("", "[]", 10, 0.0).is_err());
    assert!(scan("[1.0, 0.0]", "[]", 0, 0.0).is_err());
}

#[test]
fn scan_malformed_element_counted_not_fatal() {
    let v = report(&scan("[1.0, 0.0]", r#"["garbage",[1,[1.0,0.0]]]"#, 10, 0.0).unwrap());
    assert_eq!(v["results"].as_array().unwrap().len(), 1);
    assert_eq!(v["skipped_bad_len"], 1);
}

#[test]
fn scan_numeric_row_id_tie_break() {
    let v = report(&scan("[1.0, 0.0]", "[[10,[1.0,0.0]],[9,[1.0,0.0]]]", 10, 0.0).unwrap());
    let r = v["results"].as_array().unwrap();
    assert_eq!(r[0]["row_id"], 9);
    assert_eq!(r[1]["row_id"], 10);
}

#[test]
fn similarity_report_text() {
    let v = scan("[1.0, 0.0]", r#"[["a",[1.0,0.0]],[1,null]]"#, 10, 0.0).unwrap();
    assert_eq!(
        write_similarity(&v, &write),
        "{\"cancelled\":false,\"results\":[{\"row_id\":\"a\",\"score\":1.0}],\"scanned\":2,\
         \"skipped_bad_len\":0,\"skipped_dim\":0,\"skipped_null\":1}"
    );
}

#[test]
fn scan_cancel_returns_partial() {
    let parts: Vec<String> = (0..5000).map(|i| format!("[{i},[1.0,0.0]]")).collect();
    let cands = format!("[{}]", parts.join(","));
    let mut flag = false;
    set_similarity_cancel(&mut flag, true);
    let v = similarity_from_json(
        "[1.0, 0.0]",
        &cands,
        10,
        0.0f64.to_bits(),
        &narrow,
        &VectorMath { norm, divide, dot },
        &|| flag,
    )
    .unwrap();
    set_similarity_cancel(&mut flag, false);
    assert_eq!(v.scanned, CANCEL_CHECK_INTERVAL);
    let v = report(&v);
    assert_eq!(v["cancelled"], true);
    assert_eq!(v["scanned"], 4096);
    assert_eq!(v["results"].as_array().unwrap().len(), 10);
}

#[test]
fn scan_cancel_reset_allows_full() {
    let mut flag = true;
    set_similarity_cancel(&mut flag, false);
    let v = similarity_from_json(
        "[1.0, 0.0]",
        "[[1,[1.0,0.0]]]",
        10,
        0.0f64.to_bits(),
        &narrow,
        &VectorMath { norm, divide, dot },
        &|| flag,
    )
    .unwrap();
    let v = report(&v);
    assert_eq!(v["cancelled"], false);
    assert_eq!(v["results"].as_array().unwrap().len(), 1);
}

#[test]
fn scores_stay_between_minus_one_and_one() {
    // The products of the scan come out too large, as rounding can leave them.
    let wide = |a: &Vec<u32>, b: &Vec<u32>| (f32::from_bits(dot(a, b)) * 1.5).to_bits();
    let v = similarity_from_json(
        "[3.0, 4.0]",
        "[[1,[3.0,4.0]],[2,[-6.0,-8.0]],[3,[3.0,4.0,5.0]]]",
        10,
        (-1.0f64).to_bits(),
        &narrow,
        &VectorMath { norm, divide, dot: wide },
        &|| false,
    )
    .unwrap();
    let scores: Vec<u32> = v.results.iter().map(|r| r.score).collect();
    assert_eq!(scores, vec![ONE, 0, MINUS_ONE]);
}

// -- pieces of the scan --

#[test]
fn hex_digits_of_either_case() {
    assert_eq!(hex_decode("0aFf"), Some(vec![0x0a, 0xff]));
    assert_eq!(hex_decode("0"), None);
    assert_eq!(hex_decode("0g"), None);
    assert_eq!(decode_duckdb_binary("\u{e9}"), None);
}

#[test]
fn row_ids_by_value_and_by_text() {
    let id = |s: &str| parse_json(s).unwrap();
    assert!(matches!(row_id_cmp(&id("9"), &id("10")), Placed::Before));
    assert!(matches!(row_id_cmp(&id("10"), &id("9")), Placed::After));
    assert!(matches!(row_id_cmp(&id("\"10\""), &id("\"9\"")), Placed::Before));
}

#[test]
fn candidate_parts() {
    let pair = parse_json("[5,[1.5]]").unwrap();
    assert_eq!(render_json(candidate_row_id(&pair).unwrap()), "5");
    assert!(matches!(
        candidate_embed(&pair, &narrow),
        Some(Payload::Vector(v)) if v == bits(&[1.5])
    ));
    let null = parse_json(r#"{"row_id":"a","embeds":null}"#).unwrap();
    assert_eq!(render_json(candidate_row_id(&null).unwrap()), "\"a\"");
    assert!(matches!(candidate_embed(&null, &narrow), Some(Payload::Missing)));
    assert!(candidate_row_id(&parse_json("3").unwrap()).is_none());
}

#[test]
fn similarity_rows_and_defaults() {
    let rows = vec![
        SimilarityRow {
            query: None,
            candidates: None,
            k: Some(1),
            threshold: Some(0.0f64.to_bits()),
        },
        SimilarityRow {
            query: Some("[1.0,0.0]".to_string()),
            candidates: Some("[[1,[1.0,0.0]],[2,[1.0,0.0]]]".to_string()),
            k: None,
            threshold: None,
        },
    ];
    let ask = |columns: usize| {
        SimilarityFn::invoke(columns, &rows, &narrow, &VectorMath { norm, divide, dot }, &|| false)
    };
    let all = ask(2).unwrap();
    assert!(all[0].is_none());
    assert_eq!(all[1].as_ref().unwrap().results.len(), 2);
    let one = ask(3).unwrap();
    assert_eq!(one[1].as_ref().unwrap().results.len(), 1);
    assert!(ask(1).is_err());
    assert!(ask(5).is_err());
}

#[test]
fn embed_rows_pack_vectors() {
    let rows = vec![Some("[2.0, 3.0]".to_string()), None];
    let scaled = |m: &f64, x: &Vec<u64>| -> Result<Vec<u32>, String> {
        Ok(x.iter()
            .map(|b| ((f64::from_bits(*b) * m) as f32).to_bits())
            .collect())
    };
    let entry = |scale: f64| CacheEntry {
        model: scale,
        metadata: onnx_metadata("/models/enc.onnx", 2),
    };
    let mut r: ModelRegistry<f64> = ModelRegistry::new(4);
    r.insert("enc", entry(2.0), 1);
    r.insert("enc_v2", entry(3.0), 2);
    let name = "enc".to_string();
    let out = EmbedFn::invoke(Some(&name), &rows, &mut r, 3, &scaled).unwrap();
    assert_eq!(out[0], Some(pack_f32_le(&bits(&[4.0, 6.0]))));
    assert_eq!(out[1], None);
    r.deploy("enc", "most_recent", "enc_v2", 4).unwrap();
    let out = EmbedFn::invoke(Some(&name), &rows, &mut r, 5, &scaled).unwrap();
    assert_eq!(out[0], Some(pack_f32_le(&bits(&[6.0, 9.0]))));
    let other = "dec".to_string();
    assert_eq!(
        EmbedFn::invoke(Some(&other), &rows, &mut r, 6, &scaled),
        Err("Model 'dec' not loaded".to_string())
    );
    assert_eq!(
        EmbedFn::invoke(None, &rows, &mut r, 7, &scaled),
        Err("NULL model name".to_string())
    );
    let bad = vec![Some("[1".to_string())];
    assert!(EmbedFn::invoke(Some(&name), &bad, &mut r, 8, &scaled)
        .unwrap_err()
        .starts_with("Invalid features JSON '[1': "));
    let none = |_: &f64, _: &Vec<u64>| -> Result<Vec<u32>, String> { Err("no output".to_string()) };
    assert_eq!(
        EmbedFn::invoke(Some(&name), &rows, &mut r, 9, &none),
        Err("no output".to_string())
    );
}
