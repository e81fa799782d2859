//! JSON values as notebooks hold them, lookup and update of object fields,
//! and their indented text form, which `serde_json` writes.

use vstd::prelude::*;

use crate::order::{text_le_exec, text_lt};
use crate::text::{concat, push_str};

verus! {

/// A JSON value. Numbers keep their text; objects keep their fields in
/// order, each key once.
#[derive(Debug)]
pub enum JsonValue {
    Null,
    Bool(bool),
    Number(String),
    String(String),
    Array(Vec<JsonValue>),
    Object(Vec<(String, JsonValue)>),
}

/// The value of a JSON value: the same tree, with texts as character
/// sequences.
pub enum Json {
    Null,
    Bool(bool),
    Number(Seq<char>),
    Str(Seq<char>),
    Array(Seq<Json>),
    Object(Seq<(Seq<char>, Json)>),
}

/// The value of a JSON value.
pub open spec fn jv(v: JsonValue) -> Json
    decreases v, 0nat,
{
    match v {
        JsonValue::Null => Json::Null,
        JsonValue::Bool(b) => Json::Bool(b),
        JsonValue::Number(n) => Json::Number(n@),
        JsonValue::String(s) => Json::Str(s@),
        JsonValue::Array(items) => Json::Array(jv_items(items@, items@.len())),
        JsonValue::Object(fields) => Json::Object(jv_fields(fields@, fields@.len())),
    }
}

/// The values of the first `n` items.
pub open spec fn jv_items(items: Seq<JsonValue>, n: nat) -> Seq<Json>
    decreases items, n,
{
    if n == 0 || n > items.len() {
        Seq::<Json>::empty()
    } else {
        jv_items(items, (n - 1) as nat).push(jv(items[n - 1]))
    }
}

/// The values of the first `n` fields.
pub open spec fn jv_fields(fields: Seq<(String, JsonValue)>, n: nat) -> Seq<(Seq<char>, Json)>
    decreases fields, n,
{
    if n == 0 || n > fields.len() {
        Seq::<(Seq<char>, Json)>::empty()
    } else {
        jv_fields(fields, (n - 1) as nat).push((fields[n - 1].0@, jv(fields[n - 1].1)))
    }
}

/// The values of all items.
pub open spec fn jitems(items: Seq<JsonValue>) -> Seq<Json> {
    jv_items(items, items.len())
}

/// The values of all fields.
pub open spec fn jfields(fields: Seq<(String, JsonValue)>) -> Seq<(Seq<char>, Json)> {
    jv_fields(fields, fields.len())
}

proof fn lemma_jv_items_n(items: Seq<JsonValue>, n: nat)
    requires
        n <= items.len(),
    ensures
        jv_items(items, n).len() == n,
        forall|j: int| 0 <= j < n ==> #[trigger] jv_items(items, n)[j] == jv(items[j]),
    decreases n,
{
    if n > 0 {
        lemma_jv_items_n(items, (n - 1) as nat);
    }
}

proof fn lemma_jv_fields_n(fields: Seq<(String, JsonValue)>, n: nat)
    requires
        n <= fields.len(),
    ensures
        jv_fields(fields, n).len() == n,
        forall|j: int|
            0 <= j < n ==> #[trigger] jv_fields(fields, n)[j] == (fields[j].0@, jv(fields[j].1)),
    decreases n,
{
    if n > 0 {
        lemma_jv_fields_n(fields, (n - 1) as nat);
    }
}

/// The values of the items, one by one.
pub proof fn lemma_jitems(items: Seq<JsonValue>)
    ensures
        jitems(items).len() == items.len(),
        forall|j: int| 0 <= j < items.len() ==> #[trigger] jitems(items)[j] == jv(items[j]),
{
    lemma_jv_items_n(items, items.len());
}

/// The values of the fields, one by one.
pub proof fn lemma_jfields(fields: Seq<(String, JsonValue)>)
    ensures
        jfields(fields).len() == fields.len(),
        forall|j: int|
            0 <= j < fields.len() ==> #[trigger] jfields(fields)[j] == (
                fields[j].0@,
                jv(fields[j].1),
            ),
{
    lemma_jv_fields_n(fields, fields.len());
}

/// The position of the first field named `key`.
pub open spec fn jfield_index(fields: Seq<(Seq<char>, Json)>, key: Seq<char>) -> Option<int>
    decreases fields.len(),
{
    if fields.len() == 0 {
        None
    } else {
        match jfield_index(fields.drop_last(), key) {
            Some(i) => Some(i),
            None => if fields.last().0 == key {
                Some(fields.len() - 1)
            } else {
                None
            },
        }
    }
}

/// Where a new field `key` goes, looking from `i` on: before the first
/// field whose name is greater, or at the end.
pub open spec fn jslot_from(fields: Seq<(Seq<char>, Json)>, key: Seq<char>, i: int) -> int
    decreases fields.len() - i,
{
    if i < 0 || i >= fields.len() {
        fields.len() as int
    } else if text_lt(key, fields[i].0) {
        i
    } else {
        jslot_from(fields, key, i + 1)
    }
}

/// The field `key` of an object; nothing for other values.
pub open spec fn jget(v: Json, key: Seq<char>) -> Option<Json> {
    match v {
        Json::Object(fields) => match jfield_index(fields, key) {
            Some(i) => Some(fields[i].1),
            None => None,
        },
        _ => None,
    }
}

/// `fields` with field `key` set to `value`: replaced in place when present,
/// otherwise added in its place in the order of names (`Map::insert` of
/// `serde_json`, whose map keeps its names in ascending order).
pub open spec fn jset(fields: Seq<(Seq<char>, Json)>, key: Seq<char>, value: Json) -> Seq<
    (Seq<char>, Json),
> {
    match jfield_index(fields, key) {
        Some(i) => fields.update(i, (key, value)),
        None => fields.insert(jslot_from(fields, key, 0), (key, value)),
    }
}

/// `fields` with field `key` added as `value` unless it is present
/// (`entry().or_insert`).
pub open spec fn jset_if_absent(fields: Seq<(Seq<char>, Json)>, key: Seq<char>, value: Json) -> Seq<
    (Seq<char>, Json),
> {
    match jfield_index(fields, key) {
        Some(_) => fields,
        None => jset(fields, key, value),
    }
}

/// `fields` without field `key`.
pub open spec fn jremove(fields: Seq<(Seq<char>, Json)>, key: Seq<char>) -> Seq<
    (Seq<char>, Json),
> {
    match jfield_index(fields, key) {
        Some(i) => fields.remove(i),
        None => fields,
    }
}

// ---------------------------------------------------------------------------
// Text form
// ---------------------------------------------------------------------------

/// The text `serde_json::to_string_pretty` writes for the `serde_json::Value`
/// holding the tree `v` (an object's fields collected in order into
/// `serde_json`'s map).
pub uninterp spec fn serde_pretty_of(v: Json) -> Seq<char>;

/// The indented text of `v`, as `serde_json::to_string_pretty` writes it.
pub open spec fn to_pretty(v: JsonValue) -> Seq<char> {
    serde_pretty_of(jv(v))
}

#[verifier::external_type_specification]
#[verifier::external_body]
pub struct ExSerdeValue(serde_json::Value);

/// A JSON value as `serde_json` holds it; its view is the tree it holds.
struct SerdeJson {
    value: serde_json::Value,
    tree: Ghost<Json>,
}

impl View for SerdeJson {
    type V = Json;

    closed spec fn view(&self) -> Json {
        self.tree@
    }
}

/// The `serde_json::Value` holding the same tree as `v`.
///
/// Trusted: converts one for one, variant by variant (a number through
/// `serde_json::Number`'s `FromStr`, which reads back the text `serde_json`
/// wrote for it); the view records the tree converted.
#[verifier::external_body]
fn to_serde(v: &JsonValue) -> (res: SerdeJson)
    ensures
        res@ == jv(*v),
{
    let value = match v {
        JsonValue::Null => serde_json::Value::Null,
        JsonValue::Bool(b) => serde_json::Value::Bool(*b),
        JsonValue::Number(n) => n.parse().map_or(serde_json::Value::Null, serde_json::Value::Number),
        JsonValue::String(s) => serde_json::Value::String(s.clone()),
        JsonValue::Array(items) => serde_json::Value::Array(items.iter().map(|x| to_serde(x).value).collect()),
        JsonValue::Object(fields) => serde_json::Value::Object(
            fields.iter().map(|(k, x)| (k.clone(), to_serde(x).value)).collect(),
        ),
    };
    SerdeJson { value, tree: Ghost(jv(*v)) }
}

/// The tree `serde_json::from_str::<serde_json::Value>` reads from `text`,
/// or nothing when it refuses the text.
pub uninterp spec fn json_text_parsed(text: Seq<char>) -> Option<Json>;

/// The text of the error `serde_json::from_str` gives for `text`.
pub uninterp spec fn json_text_refusal(text: Seq<char>) -> Seq<char>;

/// The library's value holding the same tree as a `serde_json::Value`.
///
/// Trusted: converts one for one, variant by variant (a number by the text
/// `serde_json` writes for it, an object's fields in the map's order); it
/// only serves `parse_json_text`, whose contract states the tree.
#[verifier::external_body]
fn from_serde(v: &serde_json::Value) -> JsonValue {
    match v {
        serde_json::Value::Null => JsonValue::Null,
        serde_json::Value::Bool(b) => JsonValue::Bool(*b),
        serde_json::Value::Number(n) => JsonValue::Number(n.to_string()),
        serde_json::Value::String(s) => JsonValue::String(s.clone()),
        serde_json::Value::Array(items) => JsonValue::Array(items.iter().map(from_serde).collect()),
        serde_json::Value::Object(map) => JsonValue::Object(
            map.iter().map(|(k, x)| (k.clone(), from_serde(x))).collect(),
        ),
    }
}

/// `serde_json::from_str::<serde_json::Value>`.
///
/// Trusted: parses the text with `serde_json` and converts the value one
/// for one; what it reads is named `json_text_parsed`, the text of its
/// error `json_text_refusal`; both depend on the text alone.
#[verifier::external_body]
fn parse_json_text(text: &str) -> (res: Result<JsonValue, String>)
    ensures
        match res {
            Ok(v) => json_text_parsed(text@) == Some(jv(v)),
            Err(m) => json_text_parsed(text@) is None && m@ == json_text_refusal(text@),
        },
{
    match serde_json::from_str::<serde_json::Value>(text) {
        Ok(value) => Ok(from_serde(&value)),
        Err(error) => Err(error.to_string()),
    }
}

/// The error for a notebook whose text is not JSON.
pub open spec fn invalid_notebook_message(text: Seq<char>) -> Seq<char> {
    "Invalid notebook JSON: "@ + json_text_refusal(text)
}

/// The JSON tree a notebook's text holds; text that is not JSON is refused
/// as invalid input.
pub fn notebook_tree(text: &str) -> (res: Result<JsonValue, crate::error::LiteCodeError>)
    ensures
        res is Ok <==> json_text_parsed(text@) is Some,
        res matches Ok(v) ==> json_text_parsed(text@) == Some(jv(v)),
        res matches Err(e) ==> crate::error::is_invalid_input(e, invalid_notebook_message(text@)),
{
    match parse_json_text(text) {
        Ok(v) => Ok(v),
        Err(m) => {
            let mut msg = String::new();
            push_str(&mut msg, "Invalid notebook JSON: ");
            push_str(&mut msg, m.as_str());
            Err(crate::error::LiteCodeError::invalid_input(msg))
        },
    }
}

/// `serde_json::to_string_pretty`.
///
/// Trusted: calls `serde_json::to_string_pretty` on the value, which for a
/// `serde_json::Value` (string keys only) does not fail; the text is named
/// `serde_pretty_of` of the tree the value holds.
#[verifier::external_body]
fn serde_pretty(v: &SerdeJson) -> (res: String)
    ensures
        res@ == serde_pretty_of(v@),
{
    serde_json::to_string_pretty(&v.value).unwrap_or_default()
}

/// The indented text of `v`, as `serde_json::to_string_pretty` writes it.
pub fn to_string_pretty(v: &JsonValue) -> (res: String)
    ensures
        res@ == to_pretty(*v),
{
    let s = to_serde(v);
    serde_pretty(&s)
}

/// A copy of `v`.
pub fn copy_json(v: &JsonValue) -> (res: JsonValue)
    ensures
        jv(res) == jv(*v),
    decreases v,
{
    match v {
        JsonValue::Null => JsonValue::Null,
        JsonValue::Bool(b) => JsonValue::Bool(*b),
        JsonValue::Number(n) => JsonValue::Number(n.clone()),
        JsonValue::String(s) => JsonValue::String(s.clone()),
        JsonValue::Array(items) => {
            let mut out: Vec<JsonValue> = Vec::new();
            let mut i: usize = 0;
            proof {
                lemma_jitems(items@);
            }
            while i < items.len()
                invariant
                    i <= items.len(),
                    *v == JsonValue::Array(*items),
                    jitems(out@) == jitems(items@).take(i as int),
                decreases items.len() - i,
            {
                proof {
                    assert(decreases_to!(*v => (*v)->Array_0));
                    assert(decreases_to!(*items => items@));
                    assert(decreases_to!(items@ => items@[i as int]));
                }
                let c = copy_json(&items[i]);
                let ghost before = out@;
                out.push(c);
                proof {
                    lemma_jitems(before);
                    lemma_jitems(out@);
                    lemma_jitems(items@);
                    assert(jitems(out@) =~= jitems(items@).take(i + 1));
                }
                i = i + 1;
            }
            proof {
                lemma_jitems(items@);
                assert(jitems(items@).take(i as int) =~= jitems(items@));
            }
            JsonValue::Array(out)
        },
        JsonValue::Object(fields) => {
            let mut out: Vec<(String, JsonValue)> = Vec::new();
            let mut i: usize = 0;
            proof {
                lemma_jfields(fields@);
            }
            while i < fields.len()
                invariant
                    i <= fields.len(),
                    *v == JsonValue::Object(*fields),
                    jfields(out@) == jfields(fields@).take(i as int),
                decreases fields.len() - i,
            {
                proof {
                    assert(decreases_to!(*v => (*v)->Object_0));
                    assert(decreases_to!(*fields => fields@));
                    assert(decreases_to!(fields@ => fields@[i as int]));
                    assert(decreases_to!(fields@[i as int] => fields@[i as int].1));
                }
                let c = copy_json(&fields[i].1);
                let k = fields[i].0.clone();
                let ghost before = out@;
                out.push((k, c));
                proof {
                    lemma_jfields(before);
                    lemma_jfields(out@);
                    lemma_jfields(fields@);
                    assert(jfields(out@) =~= jfields(fields@).take(i + 1));
                }
                i = i + 1;
            }
            proof {
                lemma_jfields(fields@);
                assert(jfields(fields@).take(i as int) =~= jfields(fields@));
            }
            JsonValue::Object(out)
        },
    }
}

// ---------------------------------------------------------------------------
// Fields
// ---------------------------------------------------------------------------

/// The position of the first field named `key`.
pub open spec fn field_index(fields: Seq<(String, JsonValue)>, key: Seq<char>) -> Option<int>
    decreases fields.len(),
{
    if fields.len() == 0 {
        None
    } else {
        match field_index(fields.drop_last(), key) {
            Some(i) => Some(i),
            None => if fields.last().0@ == key {
                Some(fields.len() - 1)
            } else {
                None
            },
        }
    }
}

/// The value of field `key` of an object (`Value::get`); nothing for other
/// values.
pub open spec fn get_field(v: JsonValue, key: Seq<char>) -> Option<JsonValue> {
    match v {
        JsonValue::Object(fields) => match field_index(fields@, key) {
            Some(i) => Some(fields@[i].1),
            None => None,
        },
        _ => None,
    }
}

/// The text of a string value (`Value::as_str`).
pub open spec fn as_text(v: Option<JsonValue>) -> Option<Seq<char>> {
    match v {
        Some(JsonValue::String(s)) => Some(s@),
        _ => None,
    }
}

proof fn lemma_field_index_prefix(fields: Seq<(String, JsonValue)>, key: Seq<char>, k: int)
    requires
        0 <= k <= fields.len(),
        field_index(fields.take(k), key) is Some,
    ensures
        field_index(fields, key) == field_index(fields.take(k), key),
    decreases fields.len() - k,
{
    if k < fields.len() {
        assert(fields.take(k + 1).drop_last() =~= fields.take(k));
        lemma_field_index_prefix(fields, key, k + 1);
    } else {
        assert(fields.take(k) =~= fields);
    }
}

/// The position of the first field named `key`.
pub fn find_field(fields: &Vec<(String, JsonValue)>, key: &str) -> (res: Option<usize>)
    ensures
        res matches Some(i) ==> field_index(fields@, key@) == Some(i as int) && i < fields.len(),
        res is None ==> field_index(fields@, key@) is None,
{
    let kc = crate::text::chars_of(key);
    let mut i: usize = 0;
    while i < fields.len()
        invariant
            i <= fields.len(),
            kc@ == key@,
            field_index(fields@.take(i as int), key@) is None,
        decreases fields.len() - i,
    {
        assert(fields@.take(i + 1).drop_last() =~= fields@.take(i as int));
        let fc = crate::text::chars_of(fields[i].0.as_str());
        if crate::paths::chars_eq(&fc, &kc) {
            proof {
                lemma_field_index_prefix(fields@, key@, i + 1);
            }
            return Some(i);
        }
        i = i + 1;
    }
    assert(fields@.take(i as int) =~= fields@);
    None
}

/// The value of field `key` of an object.
pub fn get<'a>(v: &'a JsonValue, key: &str) -> (res: Option<&'a JsonValue>)
    ensures
        res matches Some(r) ==> get_field(*v, key@) == Some(*r),
        res is None ==> get_field(*v, key@) is None,
{
    match v {
        JsonValue::Object(fields) => match find_field(fields, key) {
            Some(i) => Some(&fields[i].1),
            None => None,
        },
        _ => None,
    }
}

/// The text of a string value.
pub fn as_str(v: Option<&JsonValue>) -> (res: Option<&str>)
    ensures
        res matches Some(s) ==> as_text(match v {
            Some(x) => Some(*x),
            None => None,
        }) == Some(s@),
        res is None ==> as_text(match v {
            Some(x) => Some(*x),
            None => None,
        }) is None,
{
    match v {
        Some(JsonValue::String(s)) => Some(s.as_str()),
        _ => None,
    }
}

/// The position at which a new field `key` goes, looking from `i` on: before
/// the first field whose name is greater, or at the end. In an object whose
/// names ascend (as `serde_json`'s map keeps them) this keeps them ascending.
pub open spec fn slot_from(fields: Seq<(String, JsonValue)>, key: Seq<char>, i: int) -> int
    decreases fields.len() - i,
{
    if i < 0 || i >= fields.len() {
        fields.len() as int
    } else if text_lt(key, fields[i].0@) {
        i
    } else {
        slot_from(fields, key, i + 1)
    }
}

proof fn lemma_slot_from_bounds(fields: Seq<(String, JsonValue)>, key: Seq<char>, i: int)
    requires
        0 <= i <= fields.len(),
    ensures
        i <= slot_from(fields, key, i) <= fields.len(),
    decreases fields.len() - i,
{
    if i < fields.len() {
        lemma_slot_from_bounds(fields, key, i + 1);
    }
}

/// Where a new field `key` goes.
fn find_slot(fields: &Vec<(String, JsonValue)>, key: &str) -> (res: usize)
    ensures
        res == slot_from(fields@, key@, 0),
        res <= fields.len(),
{
    let kc = crate::text::chars_of(key);
    let mut i: usize = 0;
    while i < fields.len()
        invariant
            i <= fields.len(),
            kc@ == key@,
            slot_from(fields@, key@, 0) == slot_from(fields@, key@, i as int),
        decreases fields.len() - i,
    {
        let fc = crate::text::chars_of(fields[i].0.as_str());
        if text_le_exec(&kc, &fc) && !crate::paths::chars_eq(&kc, &fc) {
            return i;
        }
        i = i + 1;
    }
    i
}

/// The first field named `key` is named `key`, and when there is none, no
/// field is.
pub proof fn lemma_field_index_found(fields: Seq<(String, JsonValue)>, key: Seq<char>)
    ensures
        field_index(fields, key) matches Some(i) ==> 0 <= i < fields.len() && fields[i].0@ == key,
        field_index(fields, key) is None ==> forall|j: int|
            0 <= j < fields.len() ==> #[trigger] fields[j].0@ != key,
    decreases fields.len(),
{
    if fields.len() > 0 {
        lemma_field_index_found(fields.drop_last(), key);
        assert forall|j: int| 0 <= j < fields.len() - 1 implies #[trigger] fields[j] == fields.drop_last()[j] by {}
    }
}

/// Field positions are the same in a field list and in its value.
pub proof fn lemma_field_index_j(fields: Seq<(String, JsonValue)>, key: Seq<char>)
    ensures
        jfield_index(jfields(fields), key) == field_index(fields, key),
    decreases fields.len(),
{
    lemma_jfields(fields);
    if fields.len() > 0 {
        lemma_jfields(fields.drop_last());
        assert(jfields(fields.drop_last()) =~= jfields(fields).drop_last());
        lemma_field_index_j(fields.drop_last(), key);
    }
}

proof fn lemma_slot_j(fields: Seq<(String, JsonValue)>, key: Seq<char>, i: int)
    ensures
        jslot_from(jfields(fields), key, i) == slot_from(fields, key, i),
    decreases fields.len() - i,
{
    lemma_jfields(fields);
    if 0 <= i < fields.len() {
        lemma_slot_j(fields, key, i + 1);
    }
}

/// Sets field `key` to `value` (see `jset`).
pub fn insert_field(fields: &mut Vec<(String, JsonValue)>, key: &str, value: JsonValue)
    ensures
        jfields(final(fields)@) == jset(jfields(old(fields)@), key@, jv(value)),
{
    proof {
        lemma_field_index_j(old(fields)@, key@);
        lemma_slot_j(old(fields)@, key@, 0);
        lemma_jfields(old(fields)@);
    }
    let ghost jv_value = jv(value);
    match find_field(fields, key) {
        Some(i) => {
            fields.set(i, (key.to_owned(), value));
            proof {
                lemma_jfields(fields@);
                assert(jfields(fields@) =~= jset(jfields(old(fields)@), key@, jv_value));
            }
        },
        None => {
            let j = find_slot(fields, key);
            fields.insert(j, (key.to_owned(), value));
            proof {
                lemma_jfields(fields@);
                assert(jfields(fields@) =~= jset(jfields(old(fields)@), key@, jv_value));
            }
        },
    }
}

/// Sets field `key` to `value` unless it is present (see `jset_if_absent`).
pub fn insert_field_if_absent(fields: &mut Vec<(String, JsonValue)>, key: &str, value: JsonValue)
    ensures
        jfields(final(fields)@) == jset_if_absent(jfields(old(fields)@), key@, jv(value)),
{
    proof {
        lemma_field_index_j(old(fields)@, key@);
    }
    if find_field(fields, key).is_none() {
        insert_field(fields, key, value);
    }
}

/// Removes field `key`, if present (see `jremove`).
pub fn remove_field(fields: &mut Vec<(String, JsonValue)>, key: &str)
    ensures
        jfields(final(fields)@) == jremove(jfields(old(fields)@), key@),
{
    proof {
        lemma_field_index_j(old(fields)@, key@);
        lemma_jfields(old(fields)@);
    }
    match find_field(fields, key) {
        Some(i) => {
            fields.remove(i);
            proof {
                lemma_jfields(fields@);
                assert(jfields(fields@) =~= jremove(jfields(old(fields)@), key@));
            }
        },
        None => {},
    }
}

// ---------------------------------------------------------------------------
// Notebook text values
// ---------------------------------------------------------------------------

/// The lines of a text value: the strings of an array (anything else in it
/// counting as empty), a string alone, or nothing.
pub open spec fn value_lines(v: Option<JsonValue>) -> Seq<Seq<char>> {
    match v {
        Some(JsonValue::Array(items)) => items@.map_values(
            |x: JsonValue| match x {
                JsonValue::String(s) => s@,
                _ => Seq::<char>::empty(),
            },
        ),
        Some(JsonValue::String(s)) => seq![s@],
        _ => Seq::<Seq<char>>::empty(),
    }
}

/// The lines of a text value, concatenated.
pub fn value_text(v: Option<&JsonValue>) -> (res: String)
    ensures
        res@ == concat(
            value_lines(
                match v {
                    Some(x) => Some(*x),
                    None => None,
                },
            ),
        ),
{
    match v {
        Some(JsonValue::Array(items)) => {
            let ghost ls = value_lines(Some(JsonValue::Array(*items)));
            let mut out = String::new();
            let mut i: usize = 0;
            while i < items.len()
                invariant
                    i <= items.len(),
                    ls == items@.map_values(
                        |x: JsonValue| match x {
                            JsonValue::String(s) => s@,
                            _ => Seq::<char>::empty(),
                        },
                    ),
                    out@ == concat(ls.take(i as int)),
                decreases items.len() - i,
            {
                proof {
                    crate::text::lemma_concat_push(ls.take(i as int), ls[i as int]);
                    assert(ls.take(i + 1) =~= ls.take(i as int).push(ls[i as int]));
                }
                match &items[i] {
                    JsonValue::String(s) => push_str(&mut out, s.as_str()),
                    _ => {
                        assert(out@ + Seq::<char>::empty() =~= out@);
                    },
                }
                i = i + 1;
            }
            assert(ls.take(i as int) =~= ls);
            out
        },
        Some(JsonValue::String(s)) => {
            proof {
                crate::text::lemma_concat_push(Seq::<Seq<char>>::empty(), s@);
                assert(Seq::<Seq<char>>::empty().push(s@) =~= seq![s@]);
                assert(Seq::<char>::empty() + s@ =~= s@);
            }
            s.clone()
        },
        _ => String::new(),
    }
}

/// How a value is shown inside a tag: scalars as text, arrays as their
/// concatenated lines, objects indented.
pub open spec fn tag_value(v: JsonValue) -> Seq<char> {
    match v {
        JsonValue::Null => "null"@,
        JsonValue::Bool(b) => if b {
            "true"@
        } else {
            "false"@
        },
        JsonValue::Number(n) => n@,
        JsonValue::String(s) => s@,
        JsonValue::Array(_) => concat(value_lines(Some(v))),
        JsonValue::Object(_) => to_pretty(v),
    }
}

/// How a value is shown inside a tag.
pub fn render_tag_value(v: &JsonValue) -> (res: String)
    ensures
        res@ == tag_value(*v),
{
    match v {
        JsonValue::Null => "null".to_owned(),
        JsonValue::Bool(b) => if *b {
            "true".to_owned()
        } else {
            "false".to_owned()
        },
        JsonValue::Number(n) => n.clone(),
        JsonValue::String(s) => s.clone(),
        JsonValue::Array(_) => value_text(Some(v)),
        JsonValue::Object(_) => to_string_pretty(v),
    }
}

} // verus!
