//! JSON values as `serde_json` holds them, and what the rest of the library
//! relies on of them.
//!
//! A `serde_json::Value` is opaque to the verifier. Each accessor that the library
//! calls is wrapped here; the contracts of the wrappers are taken on trust, and the
//! spec functions without a body name what the accessors return.

use vstd::prelude::*;

verus! {

#[verifier::external_type_specification]
#[verifier::external_body]
pub struct ExValue(serde_json::Value);

#[verifier::external_type_specification]
#[verifier::external_body]
pub struct ExJsonError(serde_json::Error);

/// The value that `serde_json::from_slice` reads from `bytes`; `None` where it
/// reports an error.
pub uninterp spec fn json_parsed(bytes: Seq<u8>) -> Option<serde_json::Value>;

/// What `Value::as_str` returns: the text of a JSON string, `None` for any other
/// value.
pub uninterp spec fn json_text(v: serde_json::Value) -> Option<Seq<char>>;

/// What `Value::as_object` returns, as the key and value of each member in the
/// order in which the map hands them out; `None` for a value that is no object.
pub uninterp spec fn json_members(v: serde_json::Value) -> Option<
    Seq<(Seq<char>, serde_json::Value)>,
>;

/// What `Value::as_array` returns: the elements of a JSON array in order, `None`
/// for any other value.
pub uninterp spec fn json_elements(v: serde_json::Value) -> Option<Seq<serde_json::Value>>;

/// What `Value::as_u64` returns: the number, where the value is one that a `u64`
/// holds.
pub uninterp spec fn json_u64(v: serde_json::Value) -> Option<u64>;

/// The value paired with the first occurrence of `key` among `members`.
pub open spec fn member(members: Seq<(Seq<char>, serde_json::Value)>, key: Seq<char>) -> Option<
    serde_json::Value,
>
    decreases members.len(),
{
    if members.len() == 0 {
        None
    } else if members[0].0 == key {
        Some(members[0].1)
    } else {
        member(members.drop_first(), key)
    }
}

/// The member `key` of `v`; `None` where `v` is no object or has no such member.
pub open spec fn json_get(v: serde_json::Value, key: Seq<char>) -> Option<serde_json::Value> {
    match json_members(v) {
        Some(members) => member(members, key),
        None => None,
    }
}

/// The values of the members of `v` in their order; none where `v` is no object.
pub open spec fn json_values(v: serde_json::Value) -> Seq<serde_json::Value> {
    match json_members(v) {
        Some(members) => members.map_values(|m: (Seq<char>, serde_json::Value)| m.1),
        None => Seq::empty(),
    }
}

/// Whether `v` is an object.
pub open spec fn json_is_object(v: serde_json::Value) -> bool {
    json_members(v) is Some
}

/// The keys of `members` are pairwise different.
pub open spec fn distinct_keys(members: Seq<(Seq<char>, serde_json::Value)>) -> bool {
    forall|i: int, j: int| 0 <= i < j < members.len() ==> members[i].0 != members[j].0
}

/// What a list of borrowed members stands for.
pub open spec fn members_view(items: Seq<(&String, &serde_json::Value)>) -> Seq<
    (Seq<char>, serde_json::Value),
> {
    items.map_values(|p: (&String, &serde_json::Value)| (p.0@, *p.1))
}

/// `serde_json::from_slice`, read at the type `Value`. The contract claims that the
/// outcome is a function of the bytes alone and gives that function its name; of
/// the error nothing is claimed.
#[verifier::external_body]
pub(crate) fn parse_value(bytes: &[u8]) -> (res: Result<serde_json::Value, serde_json::Error>)
    ensures
        json_parsed(bytes@) == match res {
            Ok(v) => Some(v),
            Err(_) => None,
        },
{
    serde_json::from_slice(bytes)
}

/// `Value::get` with a string index. The contract claims that it finds a member
/// exactly where the value is an object that holds the key, and that it returns the
/// value that the object's own iteration pairs with that key.
#[verifier::external_body]
pub(crate) fn value_get<'a>(v: &'a serde_json::Value, key: &str) -> (res: Option<
    &'a serde_json::Value,
>)
    ensures
        json_get(*v, key@) == match res {
            Some(found) => Some(*found),
            None => None,
        },
{
    v.get(key)
}

/// `Value::as_str`. The contract only names the result.
#[verifier::external_body]
pub(crate) fn value_as_str<'a>(v: &'a serde_json::Value) -> (res: Option<&'a str>)
    ensures
        json_text(*v) == match res {
            Some(s) => Some(s@),
            None => None,
        },
{
    v.as_str()
}

/// `Value::as_object`, followed by `Map::iter` for an object. The contract names the
/// members in iteration order and claims that no key occurs twice among them.
#[verifier::external_body]
pub(crate) fn value_members<'a>(v: &'a serde_json::Value) -> (res: Option<
    Vec<(&'a String, &'a serde_json::Value)>,
>)
    ensures
        json_members(*v) == match res {
            Some(items) => Some(members_view(items@)),
            None => None,
        },
        res matches Some(items) ==> distinct_keys(members_view(items@)),
{
    match v.as_object() {
        Some(map) => Some(map.iter().collect()),
        None => None,
    }
}

/// `Value::is_object`. The contract claims that it holds exactly of the values for
/// which `Value::as_object` returns a map.
#[verifier::external_body]
pub(crate) fn value_is_object(v: &serde_json::Value) -> (res: bool)
    ensures
        res == json_is_object(*v),
{
    v.is_object()
}

/// `Value::as_array`. The contract only names the result.
#[verifier::external_body]
pub(crate) fn value_as_array<'a>(v: &'a serde_json::Value) -> (res: Option<
    &'a Vec<serde_json::Value>,
>)
    ensures
        json_elements(*v) == match res {
            Some(items) => Some(items@),
            None => None,
        },
{
    v.as_array()
}

/// `Value::as_u64`. The contract only names the result.
#[verifier::external_body]
pub(crate) fn value_as_u64(v: &serde_json::Value) -> (res: Option<u64>)
    ensures
        res == json_u64(*v),
{
    v.as_u64()
}

/// `Value::clone`. The contract claims that the copy is the same value.
#[verifier::external_body]
pub(crate) fn value_clone(v: &serde_json::Value) -> (res: serde_json::Value)
    ensures
        res == *v,
{
    v.clone()
}

} // verus!
