//! JSON documents as plain values.

use std::collections::BTreeMap;
use vstd::prelude::*;
use serde_json::{Number, Value};
use crate::text::text_eq;

verus! {

/// A JSON number: its shortest text and its value in the three forms in which
/// it may be read.
#[derive(Debug, PartialEq)]
pub struct JsonNumber {
    pub text: String,
    /// The value where it is an integer that fits.
    pub unsigned: Option<u64>,
    /// The value where it is an integer that fits.
    pub signed: Option<i64>,
    /// The bits of the value as a double.
    pub real: Option<u64>,
}

/// A JSON document.
#[derive(Debug, PartialEq)]
pub enum Json {
    Null,
    Bool(bool),
    Number(JsonNumber),
    Text(String),
    Array(Vec<Json>),
    /// The members in the order of their keys.
    Object(Vec<(String, Json)>),
}

/// A JSON number as a mathematical value.
pub struct NumberView {
    pub text: Seq<char>,
    pub unsigned: Option<u64>,
    pub signed: Option<i64>,
    pub real: Option<u64>,
}

/// A JSON document as a mathematical value.
pub enum JsonView {
    Null,
    Bool(bool),
    Number(NumberView),
    Text(Seq<char>),
    Array(Seq<JsonView>),
    Object(Seq<(Seq<char>, JsonView)>),
}

impl View for JsonNumber {
    type V = NumberView;

    open spec fn view(&self) -> NumberView {
        NumberView { text: self.text@, unsigned: self.unsigned, signed: self.signed, real: self.real }
    }
}

/// What a document holds.
pub open spec fn json_value(doc: Json) -> JsonView
    decreases doc,
{
    match doc {
        Json::Null => JsonView::Null,
        Json::Bool(b) => JsonView::Bool(b),
        Json::Number(n) => JsonView::Number(n@),
        Json::Text(s) => JsonView::Text(s@),
        Json::Array(a) => JsonView::Array(
            Seq::new(
                a@.len(),
                |i: int|
                    if 0 <= i < a@.len() {
                        json_value(a@[i])
                    } else {
                        JsonView::Null
                    },
            ),
        ),
        Json::Object(o) => JsonView::Object(
            Seq::new(
                o@.len(),
                |i: int|
                    if 0 <= i < o@.len() {
                        (o@[i].0@, json_value(o@[i].1))
                    } else {
                        (Seq::empty(), JsonView::Null)
                    },
            ),
        ),
    }
}

impl View for Json {
    type V = JsonView;

    open spec fn view(&self) -> JsonView {
        json_value(*self)
    }
}

/// The documents of a list.
pub open spec fn views(v: Seq<Json>) -> Seq<JsonView> {
    Seq::new(v.len(), |i: int| v[i]@)
}

/// The members of an object.
pub open spec fn members(v: Seq<(String, Json)>) -> Seq<(Seq<char>, JsonView)> {
    Seq::new(v.len(), |i: int| (v[i].0@, v[i].1@))
}

/// The value of the first member with the given key.
pub open spec fn field(o: Seq<(Seq<char>, JsonView)>, key: Seq<char>) -> Option<JsonView>
    decreases o.len(),
{
    if o.len() == 0 {
        None
    } else if o[0].0 == key {
        Some(o[0].1)
    } else {
        field(o.skip(1), key)
    }
}

impl Json {
    /// The elements of an array.
    pub fn as_array(&self) -> (r: Option<&Vec<Json>>)
        ensures
            match r {
                Some(a) => self@ == JsonView::Array(views(a@)),
                None => !(self@ is Array),
            },
    {
        match self {
            Json::Array(a) => {
                proof {
                    assert(json_value(*self)->Array_0 =~= views(a@));
                }
                Some(a)
            },
            _ => None,
        }
    }

    /// The members of an object.
    pub fn as_object(&self) -> (r: Option<&Vec<(String, Json)>>)
        ensures
            match r {
                Some(o) => self@ == JsonView::Object(members(o@)),
                None => !(self@ is Object),
            },
    {
        match self {
            Json::Object(o) => {
                proof {
                    assert(json_value(*self)->Object_0 =~= members(o@));
                }
                Some(o)
            },
            _ => None,
        }
    }

    /// The member of an object with the given key.
    pub fn get(&self, key: &str) -> (r: Option<&Json>)
        ensures
            match r {
                Some(v) => member_of(self@, key@) == Some(v@),
                None => member_of(self@, key@) is None,
            },
    {
        match self.as_object() {
            Some(o) => get_field(o, key),
            None => None,
        }
    }

    /// The text of a string.
    pub fn as_text(&self) -> (r: Option<&String>)
        ensures
            match r {
                Some(s) => self@ == JsonView::Text(s@),
                None => !(self@ is Text),
            },
    {
        match self {
            Json::Text(s) => Some(s),
            _ => None,
        }
    }

    /// The value of a number as the bits of a double.
    pub fn as_real(&self) -> (r: Option<u64>)
        ensures
            r == real_of(self@),
    {
        match self {
            Json::Number(n) => n.real,
            _ => None,
        }
    }
}

/// The member of an object with the given key; nothing where the document is no
/// object.
pub open spec fn member_of(v: JsonView, key: Seq<char>) -> Option<JsonView> {
    match v {
        JsonView::Object(o) => field(o, key),
        _ => None,
    }
}

/// The value of a number as the bits of a double.
pub open spec fn real_of(v: JsonView) -> Option<u64> {
    match v {
        JsonView::Number(n) => n.real,
        _ => None,
    }
}

/// Looks a member up by its key.
pub fn get_field<'a>(o: &'a Vec<(String, Json)>, key: &str) -> (r: Option<&'a Json>)
    ensures
        match r {
            Some(v) => field(members(o@), key@) == Some(v@),
            None => field(members(o@), key@) is None,
        },
{
    let ghost all = members(o@);
    let mut i: usize = 0;
    assert(all.skip(0) =~= all);
    while i < o.len()
        invariant
            all == members(o@),
            i <= o@.len(),
            field(all, key@) == field(all.skip(i as int), key@),
        decreases o.len() - i,
    {
        let ghost tail = all.skip(i as int);
        assert(tail[0] == (o@[i as int].0@, o@[i as int].1@));
        assert(tail.skip(1) =~= all.skip(i + 1));
        if text_eq(o[i].0.as_str(), key) {
            return Some(&o[i].1);
        }
        i = i + 1;
    }
    None
}

/// A document of the `serde_json` crate.
#[verifier::external_type_specification]
#[verifier::external_body]
pub struct ExValue(serde_json::Value);

/// What `serde_json::from_str` makes of a text: the document, or the message
/// of its error.
pub uninterp spec fn json_document(text: Seq<char>) -> Result<JsonView, Seq<char>>;

/// What a document of the `serde_json` crate holds.
pub uninterp spec fn json_contents(value: serde_json::Value) -> JsonView;

/// Calls `serde_json::from_str`, which reads a text as one JSON document or
/// says what is wrong with it. What it makes of a text depends on the text alone.
#[verifier::external_body]
fn parse_value(text: &str) -> (r: Result<serde_json::Value, String>)
    ensures
        match r {
            Ok(value) => json_document(text@) == Ok::<JsonView, Seq<char>>(json_contents(value)),
            Err(message) => json_document(text@) == Err::<JsonView, Seq<char>>(message@),
        },
{
    serde_json::from_str(text).map_err(|e| e.to_string())
}

/// Converts a `serde_json::Value`, variant by variant. Numbers are asked for
/// their text and for their value by `Number::as_u64`, `Number::as_i64` and
/// `Number::as_f64`.
#[verifier::external_body]
fn json_of(value: &serde_json::Value) -> (r: Json)
    ensures
        r@ == json_contents(*value),
{
    match value {
        Value::Null => Json::Null,
        Value::Bool(b) => Json::Bool(*b),
        Value::Number(n) => Json::Number(JsonNumber {
            text: n.to_string(),
            unsigned: n.as_u64(),
            signed: n.as_i64(),
            real: n.as_f64().map(|x| x.to_bits()),
        }),
        Value::String(s) => Json::Text(s.clone()),
        Value::Array(a) => Json::Array(a.iter().map(json_of).collect()),
        Value::Object(o) => Json::Object(o.iter().map(|(k, v)| (k.clone(), json_of(v))).collect()),
    }
}

/// Reads a text as one JSON document.
pub fn parse_json(text: &str) -> (r: Result<Json, String>)
    ensures
        match r {
            Ok(doc) => json_document(text@) == Ok::<JsonView, Seq<char>>(doc@),
            Err(message) => json_document(text@) == Err::<JsonView, Seq<char>>(message@),
        },
{
    match parse_value(text) {
        Ok(value) => Ok(json_of(&value)),
        Err(message) => Err(message),
    }
}

/// The document is an array of numbers.
pub open spec fn is_number_list(v: JsonView) -> bool {
    v matches JsonView::Array(a) && forall|i: int| 0 <= i < a.len() ==> (#[trigger] a[i]) is Number
}

/// The document is an array of arrays of numbers.
pub open spec fn is_number_table(v: JsonView) -> bool {
    v matches JsonView::Array(a) && forall|i: int| 0 <= i < a.len() ==> is_number_list(#[trigger] a[i])
}

/// The document is an array of strings.
pub open spec fn is_text_list(v: JsonView) -> bool {
    v matches JsonView::Array(a) && forall|i: int| 0 <= i < a.len() ==> (#[trigger] a[i]) is Text
}

/// The document is an object of numbers.
pub open spec fn is_number_object(v: JsonView) -> bool {
    v matches JsonView::Object(o) && forall|i: int| 0 <= i < o.len() ==> (#[trigger] o[i]).1 is Number
}

/// What `serde_json::from_str` makes of a text that is read as a `Vec<Number>`: the
/// document, or the message of its error.
pub uninterp spec fn numbers_document(text: Seq<char>) -> Result<JsonView, Seq<char>>;

/// Calls `serde_json::from_str` for a `Vec<Number>`. It succeeds exactly on the
/// texts of JSON arrays whose elements are all numbers, and then holds what the
/// text holds as a document; else it says what is wrong, and of an element that is
/// something else, that a JSON number was expected.
#[verifier::external_body]
fn numbers_value(text: &str) -> (r: Result<serde_json::Value, String>)
    ensures
        match r {
            Ok(value) => numbers_document(text@) == Ok::<JsonView, Seq<char>>(json_contents(value)) && json_document(
                text@,
            ) == Ok::<JsonView, Seq<char>>(json_contents(value)) && is_number_list(json_contents(value)),
            Err(message) => numbers_document(text@) == Err::<JsonView, Seq<char>>(message@) && !(json_document(
                text@,
            ) matches Ok(doc) && is_number_list(doc)),
        },
{
    serde_json::from_str::<Vec<Number>>(text).map(Value::from).map_err(|e| e.to_string())
}

/// What `serde_json::from_str` makes of a text that is read as a
/// `Vec<Vec<Number>>`: the document, or the message of its error.
pub uninterp spec fn table_document(text: Seq<char>) -> Result<JsonView, Seq<char>>;

/// Calls `serde_json::from_str` for a `Vec<Vec<Number>>`. It succeeds exactly on the
/// texts of JSON arrays of arrays of numbers, and then holds what the text holds as a
/// document; else it says what is wrong, and of an element that is something else,
/// that a JSON number was expected.
#[verifier::external_body]
fn table_value(text: &str) -> (r: Result<serde_json::Value, String>)
    ensures
        match r {
            Ok(value) => table_document(text@) == Ok::<JsonView, Seq<char>>(json_contents(value)) && json_document(
                text@,
            ) == Ok::<JsonView, Seq<char>>(json_contents(value)) && is_number_table(json_contents(value)),
            Err(message) => table_document(text@) == Err::<JsonView, Seq<char>>(message@) && !(json_document(
                text@,
            ) matches Ok(doc) && is_number_table(doc)),
        },
{
    serde_json::from_str::<Vec<Vec<Number>>>(text).map(Value::from).map_err(|e| e.to_string())
}

/// What `serde_json::from_str` makes of a text that is read as a `Vec<String>`: the
/// document, or the message of its error.
pub uninterp spec fn strings_document(text: Seq<char>) -> Result<JsonView, Seq<char>>;

/// Calls `serde_json::from_str` for a `Vec<String>`. It succeeds exactly on the
/// texts of JSON arrays whose elements are all strings, and then holds what the text
/// holds as a document; else it says what is wrong.
#[verifier::external_body]
fn strings_value(text: &str) -> (r: Result<serde_json::Value, String>)
    ensures
        match r {
            Ok(value) => strings_document(text@) == Ok::<JsonView, Seq<char>>(json_contents(value)) && json_document(
                text@,
            ) == Ok::<JsonView, Seq<char>>(json_contents(value)) && is_text_list(json_contents(value)),
            Err(message) => strings_document(text@) == Err::<JsonView, Seq<char>>(message@) && !(json_document(
                text@,
            ) matches Ok(doc) && is_text_list(doc)),
        },
{
    serde_json::from_str::<Vec<String>>(text).map(Value::from).map_err(|e| e.to_string())
}

/// What `serde_json::from_str` makes of a text that is read as a
/// `BTreeMap<String, Number>`: the document, or the message of its error.
pub uninterp spec fn params_document(text: Seq<char>) -> Result<JsonView, Seq<char>>;

/// Calls `serde_json::from_str` for a `BTreeMap<String, Number>`. Where it succeeds,
/// the text is a JSON object, and the map holds what the text holds as a document,
/// all of it numbers; else it says what is wrong. It wants a number behind every key,
/// also behind one that is repeated later, of which the document keeps the last only.
#[verifier::external_body]
fn params_value(text: &str) -> (r: Result<serde_json::Value, String>)
    ensures
        match r {
            Ok(value) => params_document(text@) == Ok::<JsonView, Seq<char>>(json_contents(value)) && json_document(
                text@,
            ) == Ok::<JsonView, Seq<char>>(json_contents(value)) && is_number_object(json_contents(value)),
            Err(message) => params_document(text@) == Err::<JsonView, Seq<char>>(message@),
        },
{
    let members = serde_json::from_str::<BTreeMap<String, Number>>(text).map_err(|e| e.to_string())?;
    Ok(members.into_iter().collect())
}

/// What `serde_json::from_slice` makes of some bytes: the document, or the
/// message of its error.
pub uninterp spec fn json_bytes_document(data: Seq<u8>) -> Result<JsonView, Seq<char>>;

/// Calls `serde_json::from_slice`, which reads bytes as one JSON document or says
/// what is wrong with them. What it makes of the bytes depends on them alone.
#[verifier::external_body]
fn parse_value_bytes(data: &[u8]) -> (r: Result<serde_json::Value, String>)
    ensures
        match r {
            Ok(value) => json_bytes_document(data@) == Ok::<JsonView, Seq<char>>(json_contents(value)),
            Err(message) => json_bytes_document(data@) == Err::<JsonView, Seq<char>>(message@),
        },
{
    serde_json::from_slice(data).map_err(|e| e.to_string())
}

/// Reads bytes as one JSON document.
pub fn parse_json_bytes(data: &[u8]) -> (r: Result<Json, String>)
    ensures
        match r {
            Ok(doc) => json_bytes_document(data@) == Ok::<JsonView, Seq<char>>(doc@),
            Err(message) => json_bytes_document(data@) == Err::<JsonView, Seq<char>>(message@),
        },
{
    match parse_value_bytes(data) {
        Ok(value) => Ok(json_of(&value)),
        Err(message) => Err(message),
    }
}

/// A text as a JSON string literal, with its quotes and escapes.
pub uninterp spec fn json_quoted(text: Seq<char>) -> Seq<char>;

/// Calls `serde_json::Value::to_string` on a string value, which writes the
/// text as a JSON string literal. The literal depends on the text alone.
#[verifier::external_body]
pub(crate) fn quote_text(text: &str) -> (r: String)
    ensures
        r@ == json_quoted(text@),
{
    Value::from(text).to_string()
}

/// A document in compact form, without white space.
pub open spec fn json_text(v: JsonView) -> Seq<char>
    decreases v, 0nat,
{
    match v {
        JsonView::Null => "null"@,
        JsonView::Bool(b) => if b {
            "true"@
        } else {
            "false"@
        },
        JsonView::Number(n) => n.text,
        JsonView::Text(s) => json_quoted(s),
        JsonView::Array(a) => "["@ + elements_text(a, a.len()) + "]"@,
        JsonView::Object(o) => "{"@ + members_text(o, o.len()) + "}"@,
    }
}

/// The first `n` elements of an array, with commas between them.
pub open spec fn elements_text(a: Seq<JsonView>, n: nat) -> Seq<char>
    decreases a, n,
{
    if n == 0 || n > a.len() {
        Seq::empty()
    } else if n == 1 {
        json_text(a[0])
    } else {
        elements_text(a, (n - 1) as nat) + ","@ + json_text(a[n - 1])
    }
}

/// The first `n` members of an object, with commas between them.
pub open spec fn members_text(o: Seq<(Seq<char>, JsonView)>, n: nat) -> Seq<char>
    decreases o, n,
{
    if n == 0 || n > o.len() {
        Seq::empty()
    } else if n == 1 {
        json_quoted(o[0].0) + ":"@ + json_text(o[0].1)
    } else {
        members_text(o, (n - 1) as nat) + ","@ + (json_quoted(o[n - 1].0) + ":"@ + json_text(o[n - 1].1))
    }
}

/// Writes a document in compact form.
pub fn render_json(doc: &Json) -> (r: String)
    ensures
        r@ == json_text(doc@),
    decreases doc,
{
    match doc {
        Json::Null => "null".to_owned(),
        Json::Bool(b) => {
            if *b {
                "true".to_owned()
            } else {
                "false".to_owned()
            }
        },
        Json::Number(n) => n.text.clone(),
        Json::Text(s) => quote_text(s.as_str()),
        Json::Array(a) => {
            let ghost all = views(a@);
            assert(json_value(*doc)->Array_0 =~= all);
            let mut r: String = "[".to_owned();
            let mut i: usize = 0;
            assert("["@ + elements_text(all, 0) =~= "["@);
            while i < a.len()
                invariant
                    doc == Json::Array(*a),
                    all == views(a@),
                    i <= a@.len(),
                    r@ == "["@ + elements_text(all, i as nat),
                decreases a.len() - i,
            {
                assert(decreases_to!(doc => doc->Array_0@[i as int]));
                let part: String = render_json(&a[i]);
                assert(all[i as int] == a@[i as int]@);
                if i > 0 {
                    r.append(",");
                }
                r.append(part.as_str());
                assert(r@ =~= "["@ + elements_text(all, (i + 1) as nat));
                i = i + 1;
            }
            r.append("]");
            r
        },
        Json::Object(o) => {
            let ghost all = members(o@);
            assert(json_value(*doc)->Object_0 =~= all);
            let mut r: String = "{".to_owned();
            let mut i: usize = 0;
            assert("{"@ + members_text(all, 0) =~= "{"@);
            while i < o.len()
                invariant
                    doc == Json::Object(*o),
                    all == members(o@),
                    i <= o@.len(),
                    r@ == "{"@ + members_text(all, i as nat),
                decreases o.len() - i,
            {
                assert(decreases_to!(doc => doc->Object_0@[i as int].1));
                let part: String = render_json(&o[i].1);
                assert(all[i as int] == (o@[i as int].0@, o@[i as int].1@));
                if i > 0 {
                    r.append(",");
                }
                let key: String = quote_text(o[i].0.as_str());
                r.append(key.as_str());
                r.append(":");
                r.append(part.as_str());
                assert(r@ =~= "{"@ + members_text(all, (i + 1) as nat));
                i = i + 1;
            }
            r.append("}");
            r
        },
    }
}

/// What is wrong with a text: what its reader says, or else that some number in it
/// has no double.
pub open spec fn problem(doc: Result<JsonView, Seq<char>>) -> Seq<char> {
    match doc {
        Err(e) => e,
        Ok(_) => "number out of range"@,
    }
}

/// Every element is a number.
pub open spec fn all_numbers(a: Seq<JsonView>) -> bool {
    forall|i: int| 0 <= i < a.len() ==> real_of(#[trigger] a[i]) is Some
}

/// The numbers of an array, as the bits of doubles.
pub open spec fn reals(a: Seq<JsonView>) -> Seq<u64> {
    Seq::new(a.len(), |i: int| real_of(a[i])->0)
}

/// The numbers of a document that is an array of numbers.
pub open spec fn numbers_in(doc: Result<JsonView, Seq<char>>) -> Option<Seq<u64>> {
    match doc {
        Ok(JsonView::Array(a)) => if all_numbers(a) {
            Some(reals(a))
        } else {
            None
        },
        _ => None,
    }
}

/// The numbers of a text that is an array of numbers, or what is wrong with it.
pub open spec fn numbers_read(text: Seq<char>) -> Result<Seq<u64>, Seq<char>> {
    match numbers_in(json_document(text)) {
        Some(v) => Ok(v),
        None => Err(problem(numbers_document(text))),
    }
}

/// Reads a list of numbers; `None` where an element is no number.
pub fn numbers_of(a: &Vec<Json>) -> (r: Option<Vec<u64>>)
    ensures
        match r {
            Some(v) => all_numbers(views(a@)) && v@ == reals(views(a@)),
            None => !all_numbers(views(a@)),
        },
{
    let ghost all = views(a@);
    let mut out: Vec<u64> = Vec::new();
    let mut i: usize = 0;
    while i < a.len()
        invariant
            all == views(a@),
            i <= a@.len(),
            out@.len() == i,
            forall|x: int| 0 <= x < i ==> real_of(#[trigger] all[x]) == Some(out@[x]),
        decreases a.len() - i,
    {
        assert(all[i as int] == a@[i as int]@);
        match a[i].as_real() {
            Some(x) => {
                out.push(x);
            },
            None => {
                return None;
            },
        }
        i = i + 1;
    }
    assert(out@ =~= reals(all));
    Some(out)
}

/// Reads a text as an array of numbers, which come out as the bits of doubles.
pub fn parse_numbers(text: &str) -> (r: Result<Vec<u64>, String>)
    ensures
        match r {
            Ok(v) => numbers_read(text@) == Ok::<Seq<u64>, Seq<char>>(v@),
            Err(e) => numbers_read(text@) == Err::<Seq<u64>, Seq<char>>(e@),
        },
{
    let doc: Json = match numbers_value(text) {
        Ok(value) => json_of(&value),
        Err(e) => {
            return Err(e);
        },
    };
    match doc.as_array() {
        Some(a) => match numbers_of(a) {
            Some(v) => Ok(v),
            None => Err("number out of range".to_owned()),
        },
        None => Err("number out of range".to_owned()),
    }
}

impl Clone for JsonNumber {
    fn clone(&self) -> (r: Self)
        ensures
            r@ == self@,
    {
        JsonNumber { text: self.text.clone(), unsigned: self.unsigned, signed: self.signed, real: self.real }
    }
}

impl Json {
    /// A copy of a document.
    pub fn copy(&self) -> (r: Json)
        ensures
            r@ == self@,
        decreases self,
    {
        match self {
            Json::Null => Json::Null,
            Json::Bool(b) => Json::Bool(*b),
            Json::Number(n) => Json::Number(n.clone()),
            Json::Text(s) => Json::Text(s.clone()),
            Json::Array(a) => {
                let mut out: Vec<Json> = Vec::new();
                let mut i: usize = 0;
                while i < a.len()
                    invariant
                        self == Json::Array(*a),
                        i <= a@.len(),
                        out@.len() == i,
                        forall|x: int| 0 <= x < i ==> (#[trigger] out@[x])@ == a@[x]@,
                    decreases a.len() - i,
                {
                    assert(decreases_to!(self => self->Array_0@[i as int]));
                    out.push(a[i].copy());
                    i = i + 1;
                }
                let r = Json::Array(out);
                assert(json_value(r)->Array_0 =~= json_value(*self)->Array_0);
                r
            },
            Json::Object(o) => {
                let mut out: Vec<(String, Json)> = Vec::new();
                let mut i: usize = 0;
                while i < o.len()
                    invariant
                        self == Json::Object(*o),
                        i <= o@.len(),
                        out@.len() == i,
                        forall|x: int|
                            0 <= x < i ==> (#[trigger] out@[x]).0@ == o@[x].0@ && out@[x].1@ == o@[x].1@,
                    decreases o.len() - i,
                {
                    assert(decreases_to!(self => self->Object_0@[i as int].1));
                    out.push((o[i].0.clone(), o[i].1.copy()));
                    i = i + 1;
                }
                let r = Json::Object(out);
                assert(json_value(r)->Object_0 =~= json_value(*self)->Object_0);
                r
            },
        }
    }
}

/// The rows of a table of numbers.
pub open spec fn rows_of(v: Seq<Vec<u64>>) -> Seq<Seq<u64>> {
    Seq::new(v.len(), |i: int| v[i]@)
}

/// Every element is an array of numbers.
pub open spec fn all_rows(a: Seq<JsonView>) -> bool {
    forall|i: int| 0 <= i < a.len() ==> is_row(#[trigger] a[i])
}

/// The document is an array of numbers.
pub open spec fn is_row(v: JsonView) -> bool {
    v matches JsonView::Array(a) && all_numbers(a)
}

/// The rows of an array of arrays of numbers, as the bits of doubles.
pub open spec fn row_reals(a: Seq<JsonView>) -> Seq<Seq<u64>> {
    Seq::new(a.len(), |i: int| reals(a[i]->Array_0))
}

/// The table of a document that is an array of arrays of numbers.
pub open spec fn table_in(doc: Result<JsonView, Seq<char>>) -> Option<Seq<Seq<u64>>> {
    match doc {
        Ok(JsonView::Array(a)) => if all_rows(a) {
            Some(row_reals(a))
        } else {
            None
        },
        _ => None,
    }
}

/// The table of a text that is an array of arrays of numbers, or what is wrong with it.
pub open spec fn table_read(text: Seq<char>) -> Result<Seq<Seq<u64>>, Seq<char>> {
    match table_in(json_document(text)) {
        Some(v) => Ok(v),
        None => Err(problem(table_document(text))),
    }
}

/// Reads a text as an array of arrays of numbers.
pub fn parse_table(text: &str) -> (r: Result<Vec<Vec<u64>>, String>)
    ensures
        match r {
            Ok(v) => table_read(text@) == Ok::<Seq<Seq<u64>>, Seq<char>>(rows_of(v@)),
            Err(e) => table_read(text@) == Err::<Seq<Seq<u64>>, Seq<char>>(e@),
        },
{
    let doc: Json = match table_value(text) {
        Ok(value) => json_of(&value),
        Err(e) => {
            return Err(e);
        },
    };
    let a: &Vec<Json> = match doc.as_array() {
        Some(a) => a,
        None => {
            return Err("number out of range".to_owned());
        },
    };
    let ghost all = views(a@);
    let mut out: Vec<Vec<u64>> = Vec::new();
    let mut i: usize = 0;
    while i < a.len()
        invariant
            all == views(a@),
            json_document(text@) == Ok::<JsonView, Seq<char>>(JsonView::Array(all)),
            table_document(text@) is Ok,
            i <= a@.len(),
            out@.len() == i,
            forall|x: int| 0 <= x < i ==> is_row(#[trigger] all[x]) && out@[x]@ == reals(all[x]->Array_0),
        decreases a.len() - i,
    {
        assert(all[i as int] == a@[i as int]@);
        let row: Option<Vec<u64>> = match a[i].as_array() {
            Some(row) => numbers_of(row),
            None => None,
        };
        match row {
            Some(row) => {
                out.push(row);
            },
            None => {
                assert(!is_row(all[i as int]));
                return Err("number out of range".to_owned());
            },
        }
        i = i + 1;
    }
    assert(rows_of(out@) =~= row_reals(all));
    Ok(out)
}

/// Named numbers.
pub open spec fn named_numbers(v: Seq<(String, u64)>) -> Seq<(Seq<char>, u64)> {
    Seq::new(v.len(), |i: int| (v[i].0@, v[i].1))
}

/// Every member is a number.
pub open spec fn all_number_members(o: Seq<(Seq<char>, JsonView)>) -> bool {
    forall|i: int| 0 <= i < o.len() ==> real_of((#[trigger] o[i]).1) is Some
}

/// The members of an object of numbers.
pub open spec fn number_members(o: Seq<(Seq<char>, JsonView)>) -> Seq<(Seq<char>, u64)> {
    Seq::new(o.len(), |i: int| (o[i].0, real_of(o[i].1)->0))
}

/// The named numbers of a document that is an object of numbers.
pub open spec fn params_in(doc: Result<JsonView, Seq<char>>) -> Option<Seq<(Seq<char>, u64)>> {
    match doc {
        Ok(JsonView::Object(o)) => if all_number_members(o) {
            Some(number_members(o))
        } else {
            None
        },
        _ => None,
    }
}

/// The named numbers of a text that is an object of numbers, or what is wrong with
/// it.
pub open spec fn params_read(text: Seq<char>) -> Result<Seq<(Seq<char>, u64)>, Seq<char>> {
    match params_in(params_document(text)) {
        Some(v) => Ok(v),
        None => Err(problem(params_document(text))),
    }
}

/// Reads a text as an object of numbers.
pub fn parse_params(text: &str) -> (r: Result<Vec<(String, u64)>, String>)
    ensures
        match r {
            Ok(v) => params_read(text@) == Ok::<Seq<(Seq<char>, u64)>, Seq<char>>(named_numbers(v@)),
            Err(e) => params_read(text@) == Err::<Seq<(Seq<char>, u64)>, Seq<char>>(e@),
        },
{
    let doc: Json = match params_value(text) {
        Ok(value) => json_of(&value),
        Err(e) => {
            return Err(e);
        },
    };
    let o: &Vec<(String, Json)> = match doc.as_object() {
        Some(o) => o,
        None => {
            return Err("number out of range".to_owned());
        },
    };
    let ghost all = members(o@);
    let mut out: Vec<(String, u64)> = Vec::new();
    let mut i: usize = 0;
    while i < o.len()
        invariant
            all == members(o@),
            params_document(text@) == Ok::<JsonView, Seq<char>>(JsonView::Object(all)),
            i <= o@.len(),
            out@.len() == i,
            forall|x: int|
                #![trigger all[x]]
                #![trigger out@[x]]
                0 <= x < i ==> real_of(all[x].1) == Some(out@[x].1) && out@[x].0@ == all[x].0,
        decreases o.len() - i,
    {
        assert(all[i as int] == (o@[i as int].0@, o@[i as int].1@));
        match o[i].1.as_real() {
            Some(x) => {
                out.push((o[i].0.clone(), x));
            },
            None => {
                return Err("number out of range".to_owned());
            },
        }
        i = i + 1;
    }
    assert(named_numbers(out@) =~= number_members(all));
    Ok(out)
}

/// Every element is a string.
pub open spec fn all_texts(a: Seq<JsonView>) -> bool {
    forall|i: int| 0 <= i < a.len() ==> (#[trigger] a[i]) is Text
}

/// The strings of an array.
pub open spec fn text_elements(a: Seq<JsonView>) -> Seq<Seq<char>> {
    Seq::new(a.len(), |i: int| a[i]->Text_0)
}

/// The strings of a document that is an array of strings.
pub open spec fn strings_in(doc: Result<JsonView, Seq<char>>) -> Option<Seq<Seq<char>>> {
    match doc {
        Ok(JsonView::Array(a)) => if all_texts(a) {
            Some(text_elements(a))
        } else {
            None
        },
        _ => None,
    }
}

/// The strings of a text that is an array of strings, or what is wrong with it.
pub open spec fn strings_read(text: Seq<char>) -> Result<Seq<Seq<char>>, Seq<char>> {
    match strings_in(json_document(text)) {
        Some(v) => Ok(v),
        None => Err(problem(strings_document(text))),
    }
}

/// Reads a text as an array of strings.
pub fn parse_strings(text: &str) -> (r: Result<Vec<String>, String>)
    ensures
        match r {
            Ok(v) => strings_read(text@) == Ok::<Seq<Seq<char>>, Seq<char>>(crate::text::texts(v@)),
            Err(e) => strings_read(text@) == Err::<Seq<Seq<char>>, Seq<char>>(e@),
        },
{
    let doc: Json = match strings_value(text) {
        Ok(value) => json_of(&value),
        Err(e) => {
            return Err(e);
        },
    };
    let a: &Vec<Json> = match doc.as_array() {
        Some(a) => a,
        None => {
            return Err("number out of range".to_owned());
        },
    };
    let ghost all = views(a@);
    let mut out: Vec<String> = Vec::new();
    let mut i: usize = 0;
    while i < a.len()
        invariant
            all == views(a@),
            json_document(text@) == Ok::<JsonView, Seq<char>>(JsonView::Array(all)),
            strings_document(text@) is Ok,
            i <= a@.len(),
            out@.len() == i,
            forall|x: int|
                #![trigger all[x]]
                #![trigger out@[x]]
                0 <= x < i ==> all[x] == JsonView::Text(out@[x]@),
        decreases a.len() - i,
    {
        assert(all[i as int] == a@[i as int]@);
        match a[i].as_text() {
            Some(s) => {
                out.push(s.clone());
            },
            None => {
                return Err("number out of range".to_owned());
            },
        }
        i = i + 1;
    }
    assert(crate::text::texts(out@) =~= text_elements(all));
    Ok(out)
}

} // verus!
