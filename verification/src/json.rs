//! JSON values as the record parser reads them.

use crate::flat::FlatMap;
use crate::text::push_char;
use vstd::prelude::*;

verus! {

/// A JSON value. A number is held by its textual form; the entries of an
/// object are held in the order in which the object lists them.
#[derive(Debug, PartialEq, Eq)]
pub enum JsonValue {
    Null,
    Bool(bool),
    Number(String),
    Text(String),
    Array(Vec<JsonValue>),
    Object(Vec<(String, JsonValue)>),
}

/// The mathematical form of a JSON value.
pub ghost enum Json {
    Null,
    Bool(bool),
    Number(Seq<char>),
    Text(Seq<char>),
    Array(Seq<Json>),
    Object(Seq<(Seq<char>, Json)>),
}

/// The mathematical form of `value`.
pub open spec fn json_of(value: JsonValue) -> Json
    decreases value,
{
    match value {
        JsonValue::Null => Json::Null,
        JsonValue::Bool(b) => Json::Bool(b),
        JsonValue::Number(n) => Json::Number(n@),
        JsonValue::Text(s) => Json::Text(s@),
        JsonValue::Array(items) => Json::Array(
            Seq::new(
                items.len() as nat,
                |i: int|
                    if 0 <= i < items.len() {
                        json_of(items[i])
                    } else {
                        Json::Null
                    },
            ),
        ),
        JsonValue::Object(entries) => Json::Object(
            Seq::new(
                entries.len() as nat,
                |i: int|
                    if 0 <= i < entries.len() {
                        (entries[i].0@, json_of(entries[i].1))
                    } else {
                        (Seq::empty(), Json::Null)
                    },
            ),
        ),
    }
}

impl View for JsonValue {
    type V = Json;

    open spec fn view(&self) -> Json {
        json_of(*self)
    }
}

/// What `serde_json::from_str` makes of a text: the value it parses to, or
/// nothing where it reports an error.
pub uninterp spec fn json_parse(text: Seq<char>) -> Option<Json>;

/// What a `serde_json::Value` holds, with each number by the text that its
/// `to_string` gives and each object's entries in the order of its iterator.
pub uninterp spec fn value_model(value: serde_json::Value) -> Json;

/// `serde_json::Value`, a parsed JSON value. Nothing is known of what is
/// inside one but what the wrappers below state.
#[verifier::external_type_specification]
#[verifier::external_body]
pub struct ExValue(serde_json::Value);

/// `serde_json::from_str` at type `serde_json::Value`. The result is a
/// function of the text alone; an error becomes `None`.
#[verifier::external_body]
pub(crate) fn parse_value(text: &str) -> (res: Option<serde_json::Value>)
    ensures
        res is Some <==> json_parse(text@) is Some,
        res matches Some(v) ==> json_parse(text@) == Some(value_model(v)),
{
    serde_json::from_str::<serde_json::Value>(text).ok()
}

/// One level of a `serde_json::Value`: a leaf as it is, or the elements of
/// an array or the entries of an object, each still to be looked into.
pub enum Shape<'a> {
    Leaf(JsonValue),
    Items(Vec<&'a serde_json::Value>),
    Entries(Vec<(&'a String, &'a serde_json::Value)>),
}

/// `shape` is the top level of a value that holds `model`.
pub open spec fn shows(shape: Shape<'_>, model: Json) -> bool {
    match shape {
        Shape::Leaf(leaf) => !(leaf is Array) && !(leaf is Object) && model == leaf@,
        Shape::Items(items) => {
            &&& model is Array
            &&& model->Array_0.len() == items@.len()
            &&& forall|i: int|
                0 <= i < items@.len() ==> model->Array_0[i] == value_model(*#[trigger] items@[i])
        },
        Shape::Entries(entries) => {
            &&& model is Object
            &&& model->Object_0.len() == entries@.len()
            &&& forall|i: int|
                0 <= i < entries@.len() ==> model->Object_0[i] == (
                    (#[trigger] entries@[i]).0@,
                    value_model(*entries@[i].1),
                )
        },
    }
}

/// Tells the variants of a `serde_json::Value` apart: `Null`, `Bool` and
/// `String` are copied, a `Number` is written by `to_string`, and an `Array`
/// or an `Object` hands out its members in the order of its iterator.
#[verifier::external_body]
fn shape_of(value: &serde_json::Value) -> (shape: Shape<'_>)
    ensures
        shows(shape, value_model(*value)),
{
    match value {
        serde_json::Value::Null => Shape::Leaf(JsonValue::Null),
        serde_json::Value::Bool(b) => Shape::Leaf(JsonValue::Bool(*b)),
        serde_json::Value::Number(n) => Shape::Leaf(JsonValue::Number(n.to_string())),
        serde_json::Value::String(s) => Shape::Leaf(JsonValue::Text(s.clone())),
        serde_json::Value::Array(items) => Shape::Items(items.iter().collect()),
        serde_json::Value::Object(map) => Shape::Entries(map.iter().collect()),
    }
}

/// Copies a parsed value into a `JsonValue`, level by level.
pub fn lift_value(value: &serde_json::Value) -> (res: JsonValue)
    ensures
        res@ == value_model(*value),
    decreases value_model(*value),
{
    let ghost model = value_model(*value);
    match shape_of(value) {
        Shape::Leaf(leaf) => leaf,
        Shape::Items(items) => {
            let ghost models = model->Array_0;
            let mut out: Vec<JsonValue> = Vec::new();
            let mut i: usize = 0;
            while i < items.len()
                invariant
                    i <= items.len(),
                    model == Json::Array(models),
                    model == value_model(*value),
                    models.len() == items@.len(),
                    forall|k: int| 0 <= k < items@.len() ==> models[k] == value_model(*#[trigger] items@[k]),
                    out@.len() == i,
                    forall|k: int| 0 <= k < i ==> (#[trigger] out@[k])@ == models[k],
                decreases items.len() - i,
            {
                proof {
                    assert(models[i as int] == value_model(*items@[i as int]));
                    assert(decreases_to!(model => model->Array_0));
                    assert(decreases_to!(models => models[i as int]));
                }
                let item = lift_value(items[i]);
                out.push(item);
                i += 1;
            }
            let res = JsonValue::Array(out);
            assert(res@->Array_0 =~= models);
            res
        },
        Shape::Entries(entries) => {
            let ghost models = model->Object_0;
            let mut out: Vec<(String, JsonValue)> = Vec::new();
            let mut i: usize = 0;
            while i < entries.len()
                invariant
                    i <= entries.len(),
                    model == Json::Object(models),
                    model == value_model(*value),
                    models.len() == entries@.len(),
                    forall|k: int|
                        0 <= k < entries@.len() ==> models[k] == (
                            (#[trigger] entries@[k]).0@,
                            value_model(*entries@[k].1),
                        ),
                    out@.len() == i,
                    forall|k: int| 0 <= k < i ==> ((#[trigger] out@[k]).0@, out@[k].1@) == models[k],
                decreases entries.len() - i,
            {
                proof {
                    assert(models[i as int] == (entries@[i as int].0@, value_model(*entries@[i as int].1)));
                    assert(decreases_to!(model => model->Object_0));
                    assert(decreases_to!(models => models[i as int]));
                    assert(decreases_to!(models[i as int] => models[i as int].1));
                }
                let member = lift_value(entries[i].1);
                out.push((entries[i].0.clone(), member));
                i += 1;
            }
            let res = JsonValue::Object(out);
            assert(res@->Object_0 =~= models);
            res
        },
    }
}

/// The model of an optional value.
pub open spec fn opt_json(value: Option<JsonValue>) -> Option<Json> {
    match value {
        Some(v) => Some(v@),
        None => None,
    }
}

/// Parses `text` as one JSON value.
pub fn parse_json(text: &str) -> (res: Option<JsonValue>)
    ensures
        opt_json(res) == json_parse(text@),
{
    match parse_value(text) {
        Some(value) => Some(lift_value(&value)),
        None => None,
    }
}

/// A flattened record: dotted path to text.
pub type Flat = Map<Seq<char>, Seq<char>>;

/// The decimal digit for `d < 10`.
pub open spec fn digit(d: nat) -> char {
    (48 + d) as u8 as char
}

/// The decimal numeral of `n`, without leading zeros.
pub open spec fn decimal(n: nat) -> Seq<char>
    decreases n,
{
    if n < 10 {
        seq![digit(n)]
    } else {
        decimal(n / 10).push(digit(n % 10))
    }
}

/// The path of the member `key` below `prefix`.
pub open spec fn path_key(prefix: Seq<char>, key: Seq<char>) -> Seq<char> {
    if prefix.len() == 0 {
        key
    } else {
        prefix + seq!['.'] + key
    }
}

/// The path of the array element `index` below `prefix`.
pub open spec fn path_index(prefix: Seq<char>, index: nat) -> Seq<char> {
    prefix + seq!['['] + decimal(index) + seq![']']
}

/// The text that stands for a leaf; a container has none.
pub open spec fn leaf_text(value: Json) -> Seq<char> {
    match value {
        Json::Null => "null"@,
        Json::Bool(b) => if b {
            "true"@
        } else {
            "false"@
        },
        Json::Number(n) => n,
        Json::Text(s) => s,
        _ => Seq::empty(),
    }
}

/// `out` after the leaves below `value` have been stored under their paths,
/// in document order. A leaf whose path is empty is not stored.
pub open spec fn flat_into(value: Json, prefix: Seq<char>, out: Flat) -> Flat
    decreases value, 0nat,
{
    match value {
        Json::Object(entries) => flat_entries(entries, entries.len(), prefix, out),
        Json::Array(items) => flat_items(items, items.len(), prefix, out),
        _ => if prefix.len() > 0 {
            out.insert(prefix, leaf_text(value))
        } else {
            out
        },
    }
}

/// `out` after the first `n` entries of an object have been flattened.
pub open spec fn flat_entries(
    entries: Seq<(Seq<char>, Json)>,
    n: nat,
    prefix: Seq<char>,
    out: Flat,
) -> Flat
    decreases entries, n,
{
    if n == 0 || n > entries.len() {
        out
    } else {
        flat_into(
            entries[n - 1].1,
            path_key(prefix, entries[n - 1].0),
            flat_entries(entries, (n - 1) as nat, prefix, out),
        )
    }
}

/// `out` after the first `n` elements of an array have been flattened.
pub open spec fn flat_items(items: Seq<Json>, n: nat, prefix: Seq<char>, out: Flat) -> Flat
    decreases items, n,
{
    if n == 0 || n > items.len() {
        out
    } else {
        flat_into(
            items[n - 1],
            path_index(prefix, (n - 1) as nat),
            flat_items(items, (n - 1) as nat, prefix, out),
        )
    }
}

/// The flattened form of a record: that of an object's members, and nothing
/// for any other value.
pub open spec fn flat_of(value: Json) -> Flat {
    match value {
        Json::Object(_) => flat_into(value, Seq::empty(), Map::empty()),
        _ => Map::empty(),
    }
}

/// The text that stands for a leaf: `null`, `true` or `false`, a number's
/// numeral, a string as it is. A container gives the empty string.
pub fn value_to_string(value: &JsonValue) -> (s: String)
    ensures
        s@ == leaf_text(value@),
{
    match value {
        JsonValue::Null => "null".to_owned(),
        JsonValue::Bool(b) => if *b {
            "true".to_owned()
        } else {
            "false".to_owned()
        },
        JsonValue::Number(n) => n.clone(),
        JsonValue::Text(s) => s.clone(),
        _ => String::new(),
    }
}

/// Appends the decimal numeral of `n` to `out`.
pub fn push_decimal(out: &mut String, n: usize)
    ensures
        final(out)@ == old(out)@ + decimal(n as nat),
    decreases n,
{
    if n >= 10 {
        push_decimal(out, n / 10);
    }
    let d: u8 = (n % 10) as u8;
    push_char(out, (48 + d) as char);
    proof {
        if n >= 10 {
            assert(final(out)@ =~= old(out)@ + decimal(n as nat));
        } else {
            assert(final(out)@ =~= old(out)@ + decimal(n as nat));
        }
    }
}

/// The path of the member `key` below `prefix`.
pub fn member_path(prefix: &str, key: &str) -> (path: String)
    ensures
        path@ == path_key(prefix@, key@),
{
    if prefix.is_empty() {
        key.to_owned()
    } else {
        let mut path = prefix.to_owned();
        push_char(&mut path, '.');
        path.append(key);
        path
    }
}

/// The path of the array element `index` below `prefix`.
pub fn element_path(prefix: &str, index: usize) -> (path: String)
    ensures
        path@ == path_index(prefix@, index as nat),
{
    let mut path = prefix.to_owned();
    push_char(&mut path, '[');
    push_decimal(&mut path, index);
    push_char(&mut path, ']');
    path
}

/// Stores the leaves below `value` in `out`, each under its path.
pub fn flatten_value(value: &JsonValue, prefix: &str, out: &mut FlatMap)
    requires
        old(out).wf(),
    ensures
        final(out).wf(),
        final(out)@ == flat_into(value@, prefix@, old(out)@),
    decreases value,
{
    let ghost start = out@;
    match value {
        JsonValue::Object(entries) => {
            let ghost model = value@->Object_0;
            let mut i: usize = 0;
            while i < entries.len()
                invariant
                    i <= entries.len(),
                    out.wf(),
                    decreases_to!(value => entries),
                    model.len() == entries.len(),
                    forall|k: int|
                        0 <= k < entries.len() ==> model[k] == (
                            (#[trigger] entries@[k]).0@,
                            entries@[k].1@,
                        ),
                    out@ == flat_entries(model, i as nat, prefix@, start),
                decreases entries.len() - i,
            {
                proof {
                    assert(decreases_to!(entries => entries[i as int]));
                }
                let path = member_path(prefix, entries[i].0.as_str());
                flatten_value(&entries[i].1, path.as_str(), out);
                i += 1;
            }
        },
        JsonValue::Array(items) => {
            let ghost model = value@->Array_0;
            let mut i: usize = 0;
            while i < items.len()
                invariant
                    i <= items.len(),
                    out.wf(),
                    decreases_to!(value => items),
                    model.len() == items.len(),
                    forall|k: int| 0 <= k < items.len() ==> model[k] == (#[trigger] items@[k])@,
                    out@ == flat_items(model, i as nat, prefix@, start),
                decreases items.len() - i,
            {
                proof {
                    assert(decreases_to!(items => items[i as int]));
                }
                let path = element_path(prefix, i);
                flatten_value(&items[i], path.as_str(), out);
                i += 1;
            }
        },
        _ => {
            if !prefix.is_empty() {
                let text = value_to_string(value);
                out.insert(prefix.to_owned(), text);
            }
        },
    }
}

/// The flattened form of a record.
pub fn flatten_json_map(value: &JsonValue) -> (out: FlatMap)
    ensures
        out.wf(),
        out@ == flat_of(value@),
{
    let mut out = FlatMap::new();
    match value {
        JsonValue::Object(_) => {
            flatten_value(value, "", &mut out);
            proof {
                reveal_strlit("");
                assert(""@ =~= Seq::<char>::empty());
            }
        },
        _ => {},
    }
    out
}

} // verus!
