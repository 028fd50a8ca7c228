use duckdb_ml::bits::{
    clamp_unit, is_less, is_less_eq, is_less_eq_single, is_same, not_a_number, rank_of,
    total_rank_of,
};
use duckdb_ml::blob::{push_doubles, push_rows, read_doubles, read_rows};
use duckdb_ml::bytes::{copy_bytes, push_le, read_le};
use duckdb_ml::footer::{build_footer, FOOTER_LEN};
use duckdb_ml::json::{
    parse_json, parse_json_bytes, parse_numbers, parse_params, parse_strings, parse_table,
    render_json, Json,
};
use duckdb_ml::name_map::NameMap;
use duckdb_ml::numbers::{parse_i32, parse_i64, parse_usize};
use duckdb_ml::table::{chunk_size, take_turn, CHUNK};
use duckdb_ml::text::{
    chars_of, contains_text, has_prefix, is_empty_text, push_decimal, push_signed_decimal,
    strip_brackets, text_eq, text_place, trim, Placed,
};

#[test]
fn texts_compare_by_characters() {
    assert!(text_eq("ab", "ab"));
    assert!(!text_eq("ab", "aB"));
    assert!(matches!(text_place("a", "b"), Placed::Before));
    assert!(matches!(text_place("ab", "a"), Placed::After));
    assert!(matches!(text_place("10", "9"), Placed::Before));
    assert_eq!(chars_of("a\u{e9}"), vec!['a', '\u{e9}']);
}

#[test]
fn decimals() {
    let mut s = "n=".to_string();
    push_decimal(&mut s, 0);
    push_decimal(&mut s, u64::MAX);
    assert_eq!(s, "n=018446744073709551615");
    let mut s = String::new();
    push_signed_decimal(&mut s, i64::MIN);
    assert_eq!(s, "-9223372036854775808");
}

#[test]
fn trimming_and_searching() {
    assert_eq!(trim(" \t a b\u{3000}\n"), "a b");
    assert!(is_empty_text(""));
    assert!(!is_empty_text(" x"));
    assert!(has_prefix("@model", "@"));
    assert!(!has_prefix("", "@"));
    assert!(contains_text("abc", "bc"));
    assert!(!contains_text("abc", "cb"));
    assert_eq!(strip_brackets("[5E-1]"), "5E-1");
    assert_eq!(strip_brackets("5"), "5");
}

#[test]
fn whole_numbers() {
    assert_eq!(parse_i32("-12"), Ok(-12));
    assert_eq!(parse_i32("+7"), Ok(7));
    assert_eq!(
        parse_i32(""),
        Err("cannot parse integer from empty string".to_string())
    );
    assert_eq!(
        parse_i32("1x"),
        Err("invalid digit found in string".to_string())
    );
    assert_eq!(
        parse_i32("2147483648"),
        Err("number too large to fit in target type".to_string())
    );
    assert_eq!(
        parse_i32("-2147483649"),
        Err("number too small to fit in target type".to_string())
    );
    assert_eq!(parse_i64("9223372036854775807"), Ok(i64::MAX));
    assert_eq!(parse_usize("12"), Ok(12));
    assert!(parse_usize("-1").is_err());
    for n in [0i32, 1, -1, 42, i32::MAX, i32::MIN] {
        assert_eq!(parse_i32(&format!("{n}")), Ok(n));
    }
}

#[test]
fn whole_numbers_agree_with_the_standard_library() {
    for s in ["", "+", "-", "0", "-0", "007", "+5", "1 ", "99999999999", "\u{661}"] {
        assert_eq!(parse_i32(s), s.parse::<i32>().map_err(|e| e.to_string()));
        assert_eq!(parse_i64(s), s.parse::<i64>().map_err(|e| e.to_string()));
        assert_eq!(parse_usize(s), s.parse::<usize>().map_err(|e| e.to_string()));
    }
}

#[test]
fn doubles_by_their_bits() {
    let values = [
        f64::NEG_INFINITY,
        -1.5,
        -0.0,
        0.0,
        f64::MIN_POSITIVE,
        1.0,
        f64::INFINITY,
        f64::NAN,
    ];
    for a in values {
        for b in values {
            assert_eq!(is_less(a.to_bits(), b.to_bits()), a < b);
            assert_eq!(is_less_eq(a.to_bits(), b.to_bits()), a <= b);
            assert_eq!(is_same(a.to_bits(), b.to_bits()), a == b);
            let (x, y) = (a as f32, b as f32);
            assert_eq!(is_less_eq_single(x.to_bits(), y.to_bits()), x <= y);
            assert_eq!(
                total_rank_of(x.to_bits()) < total_rank_of(y.to_bits()),
                x.total_cmp(&y).is_lt()
            );
        }
        assert_eq!(not_a_number(a.to_bits()), a.is_nan());
    }
    assert_eq!(rank_of(0.0f64.to_bits()), rank_of((-0.0f64).to_bits()));
    assert_eq!(clamp_unit(2.0f64.to_bits()), 1.0f64.to_bits());
    assert_eq!(clamp_unit((-2.0f64).to_bits()), (-1.0f64).to_bits());
    assert_eq!(clamp_unit(0.25f64.to_bits()), 0.25f64.to_bits());
}

#[test]
fn json_documents() {
    let doc = parse_json(r#"{"b":[1,2.5,"x\n"],"a":null,"c":true}"#).unwrap();
    assert_eq!(render_json(&doc), r#"{"a":null,"b":[1,2.5,"x\n"],"c":true}"#);
    assert!(matches!(doc.get("c"), Some(Json::Bool(true))));
    assert!(doc.get("d").is_none());
    assert_eq!(doc.get("b").unwrap().as_array().unwrap().len(), 3);
    assert_eq!(
        doc.get("b").unwrap().as_array().unwrap()[1].as_real(),
        Some(2.5f64.to_bits())
    );
    assert_eq!(doc.copy(), doc);
    assert_eq!(
        parse_json_bytes(br#"[1]"#).unwrap(),
        parse_json("[1]").unwrap()
    );
    assert!(parse_json("[1").is_err());
    assert!(parse_json_bytes(&[0xff]).is_err());
}

#[test]
fn json_arrays_of_one_kind() {
    assert_eq!(
        parse_numbers("[1, 2.5]"),
        Ok(vec![1.0f64.to_bits(), 2.5f64.to_bits()])
    );
    assert_eq!(
        parse_numbers("[true]"),
        Err("invalid type: boolean `true`, expected a JSON number at line 1 column 5".to_string())
    );
    assert_eq!(parse_table("[[1],[]]"), Ok(vec![vec![1.0f64.to_bits()], vec![]]));
    assert!(parse_table("[1]").is_err());
    assert_eq!(
        parse_strings(r#"["a"]"#),
        Ok(vec!["a".to_string()])
    );
    assert_eq!(
        parse_strings("[1]"),
        Err("invalid type: integer `1`, expected a string at line 1 column 2".to_string())
    );
    assert_eq!(
        parse_params(r#"{"k":3}"#),
        Ok(vec![("k".to_string(), 3.0f64.to_bits())])
    );
    assert!(parse_params(r#"{"k":"3"}"#).is_err());
    assert_eq!(
        parse_params(r#"{"k":1,"a":2,"k":3}"#),
        Ok(vec![("a".to_string(), 2.0f64.to_bits()), ("k".to_string(), 3.0f64.to_bits())])
    );
    assert!(parse_params(r#"{"k":"1","k":3}"#).is_err());
}

#[test]
fn little_endian_bytes() {
    let mut out = Vec::new();
    push_le(&mut out, 0x0102_0304, 4);
    assert_eq!(out, vec![4, 3, 2, 1]);
    assert_eq!(read_le(&out, 0, 4), 0x0102_0304);
    assert_eq!(read_le(&out, 1, 2), 0x0203);
    assert_eq!(copy_bytes(&out[1..3]), vec![3, 2]);
}

#[test]
fn doubles_read_back_from_blobs() {
    let row: Vec<u64> = [1.0f64, -2.5].iter().map(|x| x.to_bits()).collect();
    let mut out = Vec::new();
    push_doubles(&mut out, &row);
    assert_eq!(out[..8], 1.0f64.to_le_bytes());
    assert_eq!(read_doubles(&out, 0, 2), row);
    let x = vec![row.clone(), row];
    let mut out = vec![9u8];
    push_rows(&mut out, &x);
    assert_eq!(read_rows(&out, 1, 2, 2), x);
}

#[test]
fn chunks_cover_the_rows() {
    let total = 5000;
    let mut cursor = 0;
    let mut turns = 0;
    while chunk_size(total, cursor) > 0 {
        cursor += chunk_size(total, cursor);
        turns += 1;
    }
    assert_eq!(cursor, total);
    assert_eq!(turns, 3);
    assert_eq!(chunk_size(total, 0), CHUNK);
    let mut done = false;
    assert!(take_turn(&mut done));
    assert!(!take_turn(&mut done));
}

#[test]
fn names_map_to_values() {
    let mut m: NameMap<u8> = NameMap::new();
    m.insert("b", 1);
    m.insert("a", 2);
    m.insert("b", 3);
    assert_eq!(m.len(), 2);
    assert_eq!(m.get("b"), Some(&3));
    assert_eq!(m.get("c"), None);
    m.remove("b");
    assert_eq!(m.len(), 1);
    assert_eq!(m.at(0), (&"a".to_string(), &2));
}

#[test]
fn footer_fields() {
    let footer = build_footer(b"v1.5.2", b"linux_amd64");
    assert_eq!(footer.len(), FOOTER_LEN);
    assert_eq!(&footer[..7], b"v1.5.2\0");
    assert_eq!(&footer[32..44], b"linux_amd64\0");
    assert!(footer[44..].iter().all(|b| *b == 0));
    let long = build_footer(&[b'x'; 40], b"");
    assert_eq!(&long[..32], [&[b'x'; 31][..], &[0]].concat());
}
