//! Trusted boundary around serde_json.
//!
//! The remote service speaks JSON; serde_json parses it. A parsed value is
//! opaque here, but what it holds is named: `json_of` names the parse of a
//! body text, `view_of` names a value's shape as the readers below observe
//! it, and every reader's contract speaks of that shape. The verified
//! decoding logic above these wrappers is thereby tied to the body text.

use vstd::prelude::*;

verus! {

/// The shape of a parsed JSON value, as far as this client reads one.
/// `Uint` is a number with a u64 reading; any value none of the readers
/// accepts — a boolean, a fractional or negative number — is `Other`.
/// An object's entries come in the order serde_json's map iterates them,
/// which with its default map is sorted by key.
pub enum JsonView {
    Null,
    Str(Seq<char>),
    Uint(u64),
    Arr(Seq<JsonView>),
    Obj(Seq<(Seq<char>, JsonView)>),
    Other,
}

/// What a parsed value holds, as the readers below observe it.
pub uninterp spec fn view_of(v: serde_json::Value) -> JsonView;

/// What serde_json::from_str returns on this text: the parsed value's
/// shape, or nothing when the text is not valid JSON. The result depends
/// on the characters alone.
pub uninterp spec fn json_of(s: Seq<char>) -> Option<JsonView>;

/// The value under the first entry carrying this key. Keys of a parsed
/// object are unique, so the first match is the only one.
pub open spec fn obj_get(o: Seq<(Seq<char>, JsonView)>, key: Seq<char>) -> Option<JsonView>
    decreases o.len(),
{
    if o.len() == 0 {
        None
    } else if o[0].0 == key {
        Some(o[0].1)
    } else {
        obj_get(o.skip(1), key)
    }
}

#[verifier::external_type_specification]
#[verifier::external_body]
pub struct ExValue(serde_json::Value);

#[verifier::external_type_specification]
#[verifier::external_body]
pub struct ExJsonError(serde_json::Error);

/// Relies on serde_json::from_str: parses a JSON document.
#[verifier::external_body]
pub(crate) fn parse_json(s: &str) -> (r: Result<serde_json::Value, serde_json::Error>)
    ensures
        r is Ok <==> json_of(s@) is Some,
        r matches Ok(v) ==> json_of(s@) == Some(view_of(v)),
{
    serde_json::from_str(s)
}

/// Relies on serde_json::Error's Display implementation: the parse error's
/// message.
#[verifier::external_body]
pub(crate) fn json_error_message(e: &serde_json::Error) -> (r: String) {
    e.to_string()
}

/// Relies on serde_json::Value::is_object.
#[verifier::external_body]
pub(crate) fn value_is_object(v: &serde_json::Value) -> (r: bool)
    ensures
        r == (view_of(*v) is Obj),
{
    v.is_object()
}

/// Relies on serde_json::Value::is_null.
#[verifier::external_body]
pub(crate) fn value_is_null(v: &serde_json::Value) -> (r: bool)
    ensures
        r == (view_of(*v) is Null),
{
    v.is_null()
}

/// Relies on serde_json::Value::get with a string key: the value under
/// this key when the value is an object that has it, nothing on any other
/// value.
#[verifier::external_body]
pub(crate) fn get_field<'a>(v: &'a serde_json::Value, key: &str) -> (r: Option<
    &'a serde_json::Value,
>)
    ensures
        view_of(*v) matches JsonView::Obj(o) ==> ((r is Some <==> obj_get(o, key@) is Some) && (
        r matches Some(f) ==> obj_get(o, key@) == Some(view_of(*f)))),
        !(view_of(*v) is Obj) ==> r is None,
{
    v.get(key)
}

/// Relies on serde_json::Value::as_str: the character content when the
/// value is a JSON string.
#[verifier::external_body]
pub(crate) fn value_as_str(v: &serde_json::Value) -> (r: Option<String>)
    ensures
        r is Some <==> view_of(*v) is Str,
        r matches Some(s) ==> view_of(*v) == JsonView::Str(s@),
{
    v.as_str().map(String::from)
}

/// Relies on serde_json::Value::as_u64: the number when the value is a
/// non-negative integer that fits in a u64.
#[verifier::external_body]
pub(crate) fn value_as_u64(v: &serde_json::Value) -> (r: Option<u64>)
    ensures
        r is Some <==> view_of(*v) is Uint,
        r matches Some(n) ==> view_of(*v) == JsonView::Uint(n),
{
    v.as_u64()
}

/// Relies on serde_json::Value::as_array: the elements when the value is a
/// JSON array.
#[verifier::external_body]
pub(crate) fn array_entries(v: &serde_json::Value) -> (r: Option<Vec<serde_json::Value>>)
    ensures
        r is Some <==> view_of(*v) is Arr,
        r matches Some(items) ==> (view_of(*v) matches JsonView::Arr(a) && a.len() == items@.len()
            && forall|i: int| 0 <= i < a.len() ==> view_of(#[trigger] items@[i]) == a[i]),
{
    v.as_array().map(|a| a.clone())
}

/// Relies on serde_json::Value::as_object and serde_json::Map::iter: the
/// key/value pairs when the value is a JSON object, in the map's order.
#[verifier::external_body]
pub(crate) fn object_entries(v: &serde_json::Value) -> (r: Option<
    Vec<(String, serde_json::Value)>,
>)
    ensures
        r is Some <==> view_of(*v) is Obj,
        r matches Some(entries) ==> (view_of(*v) matches JsonView::Obj(o) && o.len()
            == entries@.len() && forall|i: int|
            0 <= i < o.len() ==> (#[trigger] entries@[i]).0@ == o[i].0 && view_of(entries@[i].1)
                == o[i].1),
{
    v.as_object().map(|m| m.iter().map(|(k, x)| (k.clone(), x.clone())).collect())
}

} // verus!
