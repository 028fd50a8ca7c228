//! What is found in documents.

use vstd::prelude::*;
use crate::json;
use crate::json::{parse_numbers, parse_params, parse_strings, parse_table, Json, JsonView};
use crate::text;

verus! {

/// Member `i` has the given key and value, and none before it has that key.
pub open spec fn member_at(o: Seq<(Seq<char>, JsonView)>, key: Seq<char>, v: JsonView, i: int) -> bool {
    &&& 0 <= i < o.len()
    &&& o[i] == (key, v)
    &&& forall|j: int| 0 <= j < i ==> (#[trigger] o[j]).0 != key
}

/// An object has a member with the given key and value, and none with that key
/// before it.
pub open spec fn has(doc: JsonView, key: Seq<char>, v: JsonView) -> bool {
    doc matches JsonView::Object(o) && has_member(o, key, v)
}

/// Some members include one with the given key and value, and none with that key
/// before it.
pub open spec fn has_member(o: Seq<(Seq<char>, JsonView)>, key: Seq<char>, v: JsonView) -> bool {
    exists|i: int| #[trigger] member_at(o, key, v, i)
}

/// No member has the given key.
pub open spec fn lacks(doc: JsonView, key: Seq<char>) -> bool {
    doc matches JsonView::Object(o) ==> forall|i: int| 0 <= i < o.len() ==> (#[trigger] o[i]).0 != key
}

proof fn lemma_field_found(o: Seq<(Seq<char>, JsonView)>, key: Seq<char>, v: JsonView, i: int)
    requires
        0 <= i < o.len(),
        o[i] == (key, v),
        forall|j: int| 0 <= j < i ==> (#[trigger] o[j]).0 != key,
    ensures
        json::field(o, key) == Some(v),
    decreases o.len(),
{
    if i > 0 {
        let rest = o.skip(1);
        assert(rest[i - 1] == o[i]);
        assert forall|j: int| 0 <= j < i - 1 implies (#[trigger] rest[j]).0 != key by {
            assert(rest[j] == o[j + 1]);
        }
        assert(o[0].0 != key);
        lemma_field_found(rest, key, v, i - 1);
    }
}

proof fn lemma_field_missing(o: Seq<(Seq<char>, JsonView)>, key: Seq<char>)
    requires
        forall|j: int| 0 <= j < o.len() ==> (#[trigger] o[j]).0 != key,
    ensures
        json::field(o, key) is None,
    decreases o.len(),
{
    if o.len() > 0 {
        let rest = o.skip(1);
        assert forall|j: int| 0 <= j < rest.len() implies (#[trigger] rest[j]).0 != key by {
            assert(rest[j] == o[j + 1]);
        }
        assert(o[0].0 != key);
        lemma_field_missing(rest, key);
    }
}

/// What a document has is found under its key, and nothing under a key that it lacks.
pub proof fn law_member_is_found(doc: JsonView, key: Seq<char>, v: JsonView)
    ensures
        has(doc, key, v) ==> json::member_of(doc, key) == Some(v),
        lacks(doc, key) ==> json::member_of(doc, key) is None,
{
    if has(doc, key, v) {
        let o = doc->Object_0;
        let i = choose|i: int| #[trigger] member_at(o, key, v, i);
        lemma_field_found(o, key, v, i);
    }
    if lacks(doc, key) && doc is Object {
        lemma_field_missing(doc->Object_0, key);
    }
}

/// A lookup gives the member with the key.
pub proof fn law_lookup_gives_members(doc: Json, key: &str, v: JsonView, r: Option<&Json>)
    requires
        call_ensures(Json::get, (&doc, key), r),
    ensures
        has(doc@, key@, v) ==> r is Some && r->0@ == v,
        lacks(doc@, key@) ==> r is None,
{
    law_member_is_found(doc@, key@, v);
}

/// A document is an array of numbers with these values.
pub open spec fn is_numbers(doc: JsonView, v: Seq<u64>) -> bool {
    doc matches JsonView::Array(a) && a.len() == v.len() && forall|i: int|
        #![trigger a[i]]
        #![trigger v[i]]
        0 <= i < v.len() ==> (a[i] matches JsonView::Number(n) && n.real == Some(v[i]))
}

/// A document is an array of arrays of numbers with these values.
pub open spec fn is_table(doc: JsonView, v: Seq<Seq<u64>>) -> bool {
    doc matches JsonView::Array(a) && a.len() == v.len() && forall|i: int|
        #![trigger a[i]]
        #![trigger v[i]]
        0 <= i < v.len() ==> is_numbers(a[i], v[i])
}

/// A document is an array of these strings.
pub open spec fn is_texts(doc: JsonView, v: Seq<Seq<char>>) -> bool {
    doc matches JsonView::Array(a) && a.len() == v.len() && forall|i: int|
        #![trigger a[i]]
        #![trigger v[i]]
        0 <= i < v.len() ==> a[i] == JsonView::Text(v[i])
}

/// A document is an object of numbers with these names and values.
pub open spec fn is_params(doc: JsonView, v: Seq<(Seq<char>, u64)>) -> bool {
    doc matches JsonView::Object(o) && o.len() == v.len() && forall|i: int|
        #![trigger o[i]]
        #![trigger v[i]]
        0 <= i < v.len() ==> o[i].0 == v[i].0 && (o[i].1 matches JsonView::Number(n) && n.real == Some(v[i].1))
}

proof fn lemma_numbers(doc: JsonView, v: Seq<u64>)
    ensures
        json::numbers_in(Ok(doc)) == Some(v) <==> is_numbers(doc, v),
{
    if is_numbers(doc, v) {
        let a = doc->Array_0;
        assert forall|i: int| 0 <= i < a.len() implies json::real_of(#[trigger] a[i]) is Some by {
            assert(a[i] is Number);
        }
        assert forall|i: int| 0 <= i < v.len() implies json::reals(a)[i] == v[i] by {
            assert(a[i] is Number);
        }
        assert(json::reals(a) =~= v);
    }
    if json::numbers_in(Ok(doc)) == Some(v) {
        let a = doc->Array_0;
        assert forall|i: int| 0 <= i < v.len() implies (#[trigger] a[i] matches JsonView::Number(n) && n.real == Some(
            v[i],
        )) by {
            assert(json::real_of(a[i]) is Some);
        }
    }
}

/// A text is read as a list of numbers exactly where it is one, and then as it stands.
pub proof fn law_numbers_are_read(text: &str, v: Seq<u64>, r: Result<Vec<u64>, String>)
    requires
        call_ensures(parse_numbers, (text,), r),
    ensures
        (r is Ok && r->Ok_0@ == v) <==> (json::json_document(text@) matches Ok(doc) && is_numbers(doc, v)),
{
    lemma_numbers_text(text@, v);
}

/// What a text says as a list of numbers.
pub proof fn lemma_numbers_text(text: Seq<char>, v: Seq<u64>)
    ensures
        json::numbers_read(text) == Ok::<Seq<u64>, Seq<char>>(v) <==> (json::json_document(text) matches Ok(doc)
            && is_numbers(doc, v)),
{
    if let Ok(doc) = json::json_document(text) {
        lemma_numbers(doc, v);
    }
}

proof fn lemma_table(doc: JsonView, v: Seq<Seq<u64>>)
    ensures
        json::table_in(Ok(doc)) == Some(v) <==> is_table(doc, v),
{
    if is_table(doc, v) {
        let a = doc->Array_0;
        assert forall|i: int| 0 <= i < a.len() implies json::is_row(#[trigger] a[i]) && json::reals(a[i]->Array_0) == v[i] by {
            lemma_numbers(a[i], v[i]);
        }
        assert(json::row_reals(a) =~= v);
    }
    if json::table_in(Ok(doc)) == Some(v) {
        let a = doc->Array_0;
        assert forall|i: int| 0 <= i < v.len() implies is_numbers(#[trigger] a[i], v[i]) by {
            assert(json::is_row(a[i]));
            lemma_numbers(a[i], v[i]);
        }
    }
}

/// What a text says as a table.
pub proof fn lemma_table_text(text: Seq<char>, v: Seq<Seq<u64>>)
    ensures
        json::table_read(text) == Ok::<Seq<Seq<u64>>, Seq<char>>(v) <==> (json::json_document(text) matches Ok(doc)
            && is_table(doc, v)),
{
    if let Ok(doc) = json::json_document(text) {
        lemma_table(doc, v);
    }
}

/// A text is read as a table exactly where it is one, and then row by row as it stands.
pub proof fn law_tables_are_read(text: &str, v: Seq<Seq<u64>>, r: Result<Vec<Vec<u64>>, String>)
    requires
        call_ensures(parse_table, (text,), r),
    ensures
        (r is Ok && r->Ok_0@.map_values(|row: Vec<u64>| row@) == v) <==> (json::json_document(text@) matches Ok(doc)
            && is_table(doc, v)),
{
    lemma_table_text(text@, v);
    if r is Ok {
        assert(r->Ok_0@.map_values(|row: Vec<u64>| row@) =~= json::rows_of(r->Ok_0@));
    }
}

proof fn lemma_texts(doc: JsonView, v: Seq<Seq<char>>)
    ensures
        json::strings_in(Ok(doc)) == Some(v) <==> is_texts(doc, v),
{
    if is_texts(doc, v) {
        let a = doc->Array_0;
        assert forall|i: int| 0 <= i < a.len() implies (#[trigger] a[i]) is Text && a[i]->Text_0 == v[i] by {
            assert(a[i] == JsonView::Text(v[i]));
        }
        assert(json::text_elements(a) =~= v);
    }
    if json::strings_in(Ok(doc)) == Some(v) {
        let a = doc->Array_0;
        assert forall|i: int| 0 <= i < v.len() implies #[trigger] a[i] == JsonView::Text(v[i]) by {
            assert(a[i] is Text);
        }
    }
}

/// What a text says as a list of strings.
pub proof fn lemma_texts_text(text: Seq<char>, v: Seq<Seq<char>>)
    ensures
        json::strings_read(text) == Ok::<Seq<Seq<char>>, Seq<char>>(v) <==> (json::json_document(text) matches Ok(doc)
            && is_texts(doc, v)),
{
    if let Ok(doc) = json::json_document(text) {
        lemma_texts(doc, v);
    }
}

/// A text is read as a list of strings exactly where it is one, and then as it stands.
pub proof fn law_strings_are_read(text: &str, v: Seq<Seq<char>>, r: Result<Vec<String>, String>)
    requires
        call_ensures(parse_strings, (text,), r),
    ensures
        (r is Ok && r->Ok_0@.map_values(|s: String| s@) == v) <==> (json::json_document(text@) matches Ok(doc)
            && is_texts(doc, v)),
{
    lemma_texts_text(text@, v);
    if r is Ok {
        assert(r->Ok_0@.map_values(|s: String| s@) =~= text::texts(r->Ok_0@));
    }
}

/// What a text says as named numbers.
pub proof fn lemma_params_text(text: Seq<char>, v: Seq<(Seq<char>, u64)>)
    ensures
        json::params_read(text) == Ok::<Seq<(Seq<char>, u64)>, Seq<char>>(v) <==> (json::params_document(text) matches Ok(
            doc,
        ) && is_params(doc, v)),
{
    if let Ok(doc) = json::params_document(text) {
        if is_params(doc, v) {
            let o = doc->Object_0;
            assert forall|i: int| 0 <= i < o.len() implies json::real_of((#[trigger] o[i]).1) == Some(v[i].1) by {
                assert(o[i].1 is Number);
            }
            assert(json::number_members(o) =~= v);
        }
        if json::params_in(Ok(doc)) == Some(v) {
            let o = doc->Object_0;
            assert forall|i: int| 0 <= i < v.len() implies (#[trigger] o[i]).0 == v[i].0 && (o[i].1 matches JsonView::Number(
                n,
            ) && n.real == Some(v[i].1)) by {
                assert(json::real_of(o[i].1) is Some);
            }
        }
    }
}

/// A text is read as named numbers as its object has them, name by name.
pub proof fn law_parameters_are_read(text: &str, v: Seq<(Seq<char>, u64)>, r: Result<Vec<(String, u64)>, String>)
    requires
        call_ensures(parse_params, (text,), r),
    ensures
        (r is Ok && r->Ok_0@.map_values(|p: (String, u64)| (p.0@, p.1)) == v) <==> (json::params_document(
            text@,
        ) matches Ok(doc) && is_params(doc, v)),
{
    lemma_params_text(text@, v);
    if r is Ok {
        assert(r->Ok_0@.map_values(|p: (String, u64)| (p.0@, p.1)) =~= json::named_numbers(r->Ok_0@));
    }
}

} // verus!
