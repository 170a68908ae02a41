//! A model's configuration, as `serde_json` holds it.
use serde_json::Value;
use vstd::prelude::*;

verus! {

/// `serde_json::Value`, of which nothing is seen but what the functions below
/// say.
#[verifier::external_type_specification]
#[verifier::external_body]
pub struct ExValue(serde_json::Value);

/// What stands at one place of a JSON document.
pub enum JsonKind {
    Object,
    Unsigned(u64),
    Text(Seq<char>),
    /// Null, a boolean, an array, or a number that is not an unsigned integer.
    Other,
}

/// What stands at each path of member names that can be walked from a value, the
/// empty path being the value itself.
pub uninterp spec fn json_contents(value: Value) -> Map<Seq<Seq<char>>, JsonKind>;

/// The part of a document below the member `key`.
pub open spec fn below(contents: Map<Seq<Seq<char>>, JsonKind>, key: Seq<char>) -> Map<
    Seq<Seq<char>>,
    JsonKind,
> {
    Map::new(
        |path: Seq<Seq<char>>| contents.contains_key(seq![key] + path),
        |path: Seq<Seq<char>>| contents[seq![key] + path],
    )
}

/// No path leads through the member `key`.
pub open spec fn has_nothing_below(
    contents: Map<Seq<Seq<char>>, JsonKind>,
    key: Seq<char>,
) -> bool {
    forall|path: Seq<Seq<char>>| !#[trigger] contents.contains_key(seq![key] + path)
}

/// The unsigned integer at a path.
pub open spec fn unsigned_at(
    contents: Map<Seq<Seq<char>>, JsonKind>,
    path: Seq<Seq<char>>,
) -> Option<u64> {
    if contents.contains_key(path) {
        match contents[path] {
            JsonKind::Unsigned(n) => Some(n),
            _ => None,
        }
    } else {
        None
    }
}

/// The string at a path.
pub open spec fn text_at(
    contents: Map<Seq<Seq<char>>, JsonKind>,
    path: Seq<Seq<char>>,
) -> Option<Seq<char>> {
    if contents.contains_key(path) {
        match contents[path] {
            JsonKind::Text(s) => Some(s),
            _ => None,
        }
    } else {
        None
    }
}

/// An object without members.
pub open spec fn nothing_but_an_object() -> Map<Seq<Seq<char>>, JsonKind> {
    Map::<Seq<Seq<char>>, JsonKind>::empty().insert(Seq::empty(), JsonKind::Object)
}

/// `serde_json::Value::get` with a string: the member of an object of that name,
/// and nothing where there is none or the value is not an object.
#[verifier::external_body]
pub(crate) fn member<'a>(value: &'a Value, key: &str) -> (r: Option<&'a Value>)
    ensures
        r is Some ==> json_contents(*value).contains_key(seq![key@]),
        r is None ==> has_nothing_below(json_contents(*value), key@),
        r matches Some(m) ==> json_contents(*m) == below(json_contents(*value), key@),
{
    value.get(key)
}

/// `serde_json::Value::as_u64`: the number, where the value is an integer that is
/// not negative and fits.
#[verifier::external_body]
pub(crate) fn as_unsigned(value: &Value) -> (r: Option<u64>)
    ensures
        r == unsigned_at(json_contents(*value), Seq::empty()),
{
    value.as_u64()
}

/// `serde_json::Value::as_str`: the string, where the value is one.
#[verifier::external_body]
pub(crate) fn as_text<'a>(value: &'a Value) -> (r: Option<&'a str>)
    ensures
        r is Some == text_at(json_contents(*value), Seq::empty()) is Some,
        r matches Some(s) ==> text_at(json_contents(*value), Seq::empty()) == Some(s@),
{
    value.as_str()
}

/// `serde_json::Map::new`, as a value: an object without members.
#[verifier::external_body]
pub(crate) fn empty_object() -> (r: Value)
    ensures
        json_contents(r) == nothing_but_an_object(),
{
    Value::Object(serde_json::Map::new())
}

} // verus!
