//! JSON objects with numbers in them.

use vstd::prelude::*;

verus! {

/// `serde_json::Value`, carried as it is.
#[verifier::external_type_specification]
#[verifier::external_body]
pub struct ExValue(serde_json::Value);

/// The members of a JSON object whose values are integers that fit in 64 bits
/// without a sign, by key. A value that is no object has none.
pub uninterp spec fn number_members(value: serde_json::Value) -> Map<Seq<char>, u64>;

/// Calls `serde_json::Value::get` with a key, and hands the member out as
/// `Value::as_u64` gives it: the number it holds if the value is an object that
/// has the key, and its member is an unsigned 64-bit integer.
#[verifier::external_body]
pub(crate) fn number_member(value: &serde_json::Value, key: &str) -> (r: Option<u64>)
    ensures
        r == (if number_members(*value).contains_key(key@) {
            Some(number_members(*value)[key@])
        } else {
            None
        }),
{
    value.get(key).and_then(serde_json::Value::as_u64)
}

/// Calls `serde_json::Map::insert` on an empty map, with the number turned into
/// a value by `Value::from`: an object with that one member.
#[verifier::external_body]
pub(crate) fn single_number_object(key: &str, number: u64) -> (r: serde_json::Value)
    ensures
        number_members(r) == map![key@ => number],
{
    let mut members = serde_json::Map::new();
    members.insert(key.to_string(), serde_json::Value::from(number));
    serde_json::Value::Object(members)
}

} // verus!
