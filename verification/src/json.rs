//! JSON values: what `serde_json` holds and does, as far as the index format
//! needs it.
//!
//! A `serde_json::Value` is opaque to the verifier. `json_of` names the tree
//! that it holds, and every function here says what it returns, or what it
//! builds, in terms of that tree. None of these statements is proved: each
//! restates what the source of `serde_json` shows.

use vstd::prelude::*;

verus! {

/// A JSON document as a tree of plain values.
pub enum Json {
    /// `null`.
    Null,
    /// `true` or `false`.
    Bool(bool),
    /// An integer that is not negative.
    Unsigned(u64),
    /// A negative integer.
    Negative(i64),
    /// A number with a fraction or an exponent, by the bits of the double
    /// that holds it.
    Float(u64),
    /// A string.
    Text(Seq<char>),
    /// An array.
    List(Seq<Json>),
    /// An object: its members by their names.
    Object(Map<Seq<char>, Json>),
}

/// `serde_json::Value`: a JSON document in memory.
#[verifier::external_type_specification]
#[verifier::external_body]
pub struct ExValue(serde_json::Value);

/// `serde_json::Map`: the members of a JSON object.
#[verifier::external_type_specification]
#[verifier::external_body]
#[verifier::reject_recursive_types(K)]
#[verifier::reject_recursive_types(V)]
pub struct ExMap<K, V>(serde_json::Map<K, V>);

/// `serde_json::Error`: why a text could not be read, or a value not written.
#[verifier::external_type_specification]
#[verifier::external_body]
pub struct ExError(serde_json::Error);

/// The tree that `value` holds.
pub uninterp spec fn json_of(value: serde_json::Value) -> Json;

/// The members that `map` holds, by their names.
pub uninterp spec fn entries_of(map: serde_json::Map<String, serde_json::Value>) -> Map<
    Seq<char>,
    Json,
>;

/// The tree that `serde_json::from_str` reads from `text`; none where it
/// rejects `text`.
pub uninterp spec fn json_parse(text: Seq<char>) -> Option<Json>;

/// The text that `serde_json::to_string` writes for a value that holds `tree`.
pub uninterp spec fn json_text(tree: Json) -> Seq<char>;

/// The trees that the values of `items` hold, one by one.
pub open spec fn items_of(items: Seq<serde_json::Value>) -> Seq<Json> {
    items.map_values(|item: serde_json::Value| json_of(item))
}

/// `Value::as_object` returns the map of an `Object`, and `None` for any other
/// value.
pub assume_specification[ serde_json::Value::as_object ](value: &serde_json::Value) -> (map:
    Option<&serde_json::Map<String, serde_json::Value>>)
    ensures
        match map {
            Some(map) => json_of(*value) == Json::Object(entries_of(*map)),
            None => !(json_of(*value) is Object),
        },
;

/// `Value::as_array` returns the vector of an `Array`, and `None` for any
/// other value.
pub assume_specification[ serde_json::Value::as_array ](value: &serde_json::Value) -> (items:
    Option<&Vec<serde_json::Value>>)
    ensures
        match items {
            Some(items) => json_of(*value) == Json::List(items_of(items@)),
            None => !(json_of(*value) is List),
        },
;

/// `Value::as_u64` returns the number of a `Number` that holds an integer
/// that is not negative, and `None` for any other value.
pub assume_specification[ serde_json::Value::as_u64 ](value: &serde_json::Value) -> (number:
    Option<u64>)
    ensures
        match number {
            Some(n) => json_of(*value) == Json::Unsigned(n),
            None => !(json_of(*value) is Unsigned),
        },
;

/// `Map::new` makes a map without members.
pub assume_specification[ serde_json::Map::<String, serde_json::Value>::new ]() -> (map:
    serde_json::Map<String, serde_json::Value>)
    ensures
        forall|name: Seq<char>| !entries_of(map).contains_key(name),
;

/// `Map::insert` sets the member `k` to `v`, whether or not there was one of
/// that name.
pub assume_specification[ serde_json::Map::<String, serde_json::Value>::insert ](
    map: &mut serde_json::Map<String, serde_json::Value>,
    k: String,
    v: serde_json::Value,
) -> (replaced: Option<serde_json::Value>)
    ensures
        entries_of(*final(map)) == entries_of(*old(map)).insert(k@, json_of(v)),
;

/// `Map::get` returns the member of the name `key`, if there is one.
#[verifier::external_body]
pub(crate) fn member<'a>(map: &'a serde_json::Map<String, serde_json::Value>, key: &str) -> (value:
    Option<&'a serde_json::Value>)
    ensures
        match value {
            Some(value) => entries_of(*map).contains_key(key@) && entries_of(*map)[key@]
                == json_of(*value),
            None => !entries_of(*map).contains_key(key@),
        },
{
    map.get(key)
}

/// `Map::keys` walks the names of the members, each of them once.
#[verifier::external_body]
pub(crate) fn member_names(map: &serde_json::Map<String, serde_json::Value>) -> (names: Vec<String>)
    ensures
        names.deep_view().no_duplicates(),
        forall|name: Seq<char>|
            names.deep_view().contains(name) <==> entries_of(*map).contains_key(name),
{
    map.keys().cloned().collect()
}

/// `Value::from` for a `u64` makes the `Number` that holds it.
#[verifier::external_body]
pub(crate) fn number_value(n: u64) -> (value: serde_json::Value)
    ensures
        json_of(value) == Json::Unsigned(n),
{
    serde_json::Value::from(n)
}

/// `Value::Array` holds the values of its vector, in their order.
#[verifier::external_body]
pub(crate) fn array_value(items: Vec<serde_json::Value>) -> (value: serde_json::Value)
    ensures
        json_of(value) == Json::List(items_of(items@)),
{
    serde_json::Value::Array(items)
}

/// `Value::Object` holds the members of its map.
#[verifier::external_body]
pub(crate) fn object_value(map: serde_json::Map<String, serde_json::Value>) -> (value:
    serde_json::Value)
    ensures
        json_of(value) == Json::Object(entries_of(map)),
{
    serde_json::Value::Object(map)
}

/// `serde_json::from_str` reads one JSON document from `text`, or fails; what
/// it does depends on `text` alone.
#[verifier::external_body]
pub(crate) fn parse(text: &str) -> (value: Result<serde_json::Value, serde_json::Error>)
    ensures
        match value {
            Ok(value) => json_parse(text@) == Some(json_of(value)),
            Err(_) => json_parse(text@) is None,
        },
{
    serde_json::from_str::<serde_json::Value>(text)
}

/// `serde_json::to_string` writes `value` as compact JSON; what it writes
/// depends on the tree of `value` alone. It writes into a vector in memory,
/// and a `Value` has nothing that the writer refuses (its numbers are finite,
/// the names of its members are strings), so it does not fail.
#[verifier::external_body]
pub(crate) fn render(value: &serde_json::Value) -> (text: Result<String, serde_json::Error>)
    ensures
        text is Ok,
        text matches Ok(text) ==> text@ == json_text(json_of(*value)),
{
    serde_json::to_string(value)
}

} // verus!
