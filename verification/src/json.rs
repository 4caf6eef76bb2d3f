//! JSON values.
//!
//! The values themselves are those of `serde_json`. What a value is, is named
//! by [`json_of`], and every operation is described by what it does to that.
use crate::assoc::map_of;
use crate::text::decimal;
use serde_json::Value;
use vstd::prelude::*;
use vstd::utf8::{decode_utf8, valid_utf8};

verus! {

/// `serde_json::Value`, seen from outside as the JSON that [`json_of`] names.
#[verifier::external_type_specification]
#[verifier::external_body]
pub struct ExValue(Value);

/// A JSON value. Of a number that is not an integer nothing more is said.
#[verifier::ext_equal]
pub enum Json {
    Null,
    Bool(bool),
    Int(int),
    Real,
    Str(Seq<char>),
    Array(Seq<Json>),
    Object(Map<Seq<char>, Json>),
}

/// What a value holds.
pub uninterp spec fn json_of(value: Value) -> Json;

impl Json {
    /// The member `key` of an object.
    pub open spec fn at(self, key: Seq<char>) -> Option<Json> {
        match self {
            Json::Object(m) => if m.contains_key(key) {
                Some(m[key])
            } else {
                None
            },
            _ => None,
        }
    }

    /// The text of a string.
    pub open spec fn text(self) -> Option<Seq<char>> {
        match self {
            Json::Str(s) => Some(s),
            _ => None,
        }
    }

    /// The number of an integer that is not negative and fits in 64 bits.
    pub open spec fn number(self) -> Option<u64> {
        match self {
            Json::Int(n) => if 0 <= n <= u64::MAX {
                Some(n as u64)
            } else {
                None
            },
            _ => None,
        }
    }

    /// The text of member `key`, if it is a string.
    pub open spec fn text_at(self, key: Seq<char>) -> Option<Seq<char>> {
        match self.at(key) {
            Some(v) => v.text(),
            None => None,
        }
    }

    /// The number of member `key`, if it is one.
    pub open spec fn number_at(self, key: Seq<char>) -> Option<u64> {
        match self.at(key) {
            Some(v) => v.number(),
            None => None,
        }
    }
}

/// `Value`'s `Clone`: the copy holds the same.
pub assume_specification[ <Value as Clone>::clone ](value: &Value) -> (r: Value)
    ensures
        json_of(r) == json_of(*value),
;

/// What `Value::get` finds under a key.
pub uninterp spec fn member_of(value: Value, key: Seq<char>) -> Option<Value>;

/// `Value::get` with a string: the member of an object, nothing of any other
/// value.
#[verifier::external_body]
pub(crate) fn member<'a>(value: &'a Value, key: &str) -> (r: Option<&'a Value>)
    ensures
        match r {
            Some(v) => member_of(*value, key@) == Some(*v) && json_of(*value).at(key@) == Some(
                json_of(*v),
            ),
            None => member_of(*value, key@) is None && json_of(*value).at(key@) is None,
        },
{
    value.get(key)
}

/// `Value::as_str`: the text of a string, nothing of any other value.
#[verifier::external_body]
pub(crate) fn as_text<'a>(value: &'a Value) -> (r: Option<&'a str>)
    ensures
        match r {
            Some(s) => json_of(*value).text() == Some(s@),
            None => json_of(*value).text() is None,
        },
{
    value.as_str()
}

/// `Value::as_u64`: the number of an integer that is not negative, nothing of
/// any other value.
#[verifier::external_body]
pub(crate) fn as_number(value: &Value) -> (r: Option<u64>)
    ensures
        r == json_of(*value).number(),
{
    value.as_u64()
}

/// `Value::as_bool`: a truth value, nothing of any other value.
#[verifier::external_body]
pub(crate) fn as_truth(value: &Value) -> (r: Option<bool>)
    ensures
        match r {
            Some(b) => json_of(*value) == Json::Bool(b),
            None => !(json_of(*value) is Bool),
        },
{
    value.as_bool()
}

/// `Value::is_null`: whether the value is `null`.
#[verifier::external_body]
pub(crate) fn is_null(value: &Value) -> (r: bool)
    ensures
        r == (json_of(*value) is Null),
{
    value.is_null()
}

/// An integer in decimal, with a minus sign if it is negative.
pub open spec fn int_text(n: int) -> Seq<char> {
    if n < 0 {
        seq!['-'] + decimal((-n) as nat)
    } else {
        decimal(n as nat)
    }
}

/// Whether `s` is how a value is written. Of a string, an array, an object or a
/// number that is not an integer nothing is said.
pub open spec fn written_as(j: Json, s: Seq<char>) -> bool {
    match j {
        Json::Null => s == "null"@,
        Json::Bool(true) => s == "true"@,
        Json::Bool(false) => s == "false"@,
        Json::Int(n) => s == int_text(n),
        _ => true,
    }
}

/// The JSON text that `Value`'s `Display` writes of a value.
pub uninterp spec fn json_text(value: Value) -> Seq<char>;

/// `Value`'s `Display`: the value as JSON text.
#[verifier::external_body]
pub(crate) fn write_out(value: &Value) -> (r: String)
    ensures
        r@ == json_text(*value),
        written_as(json_of(*value), r@),
{
    value.to_string()
}

/// The bytes that `serde_json::to_vec` writes of a value.
pub uninterp spec fn json_bytes(value: Value) -> Seq<u8>;

/// `serde_json::to_vec`: the value as JSON text in UTF-8. It fails only on what
/// a `Value` cannot hold: a map whose keys are not strings, or a value that
/// refuses to be written.
#[verifier::external_body]
pub(crate) fn to_bytes(value: &Value) -> (r: Vec<u8>)
    ensures
        r@ == json_bytes(*value),
        valid_utf8(r@),
        written_as(json_of(*value), decode_utf8(r@)),
{
    serde_json::to_vec(value).expect("a JSON value can be written")
}

/// `Value::Null`.
#[verifier::external_body]
pub(crate) fn null() -> (r: Value)
    ensures
        json_of(r) == Json::Null,
{
    Value::Null
}

/// `Value::from` a truth value.
#[verifier::external_body]
pub(crate) fn truth(b: bool) -> (r: Value)
    ensures
        json_of(r) == Json::Bool(b),
{
    Value::from(b)
}

/// `Value::from` an integer.
#[verifier::external_body]
pub(crate) fn number(n: i64) -> (r: Value)
    ensures
        json_of(r) == Json::Int(n as int),
{
    Value::from(n)
}

/// `Value::from` a text.
#[verifier::external_body]
pub(crate) fn string(s: &str) -> (r: Value)
    ensures
        json_of(r) == Json::Str(s@),
{
    Value::from(s)
}

/// The items of a list.
pub open spec fn items_of(items: Seq<Value>) -> Seq<Json> {
    items.map_values(|v: Value| json_of(v))
}

/// `Value::from` a list: an array of its items.
#[verifier::external_body]
pub(crate) fn array(items: Vec<Value>) -> (r: Value)
    ensures
        json_of(r) == Json::Array(items_of(items@)),
{
    Value::from(items)
}

/// The members of a list of keys and values.
pub open spec fn members_of(members: Seq<(String, Value)>) -> Map<Seq<char>, Json> {
    map_of(members.map_values(|m: (String, Value)| (m.0@, json_of(m.1))))
}

/// `Value`'s `FromIterator` over keys and values: an object, in which the last
/// value of a key counts.
#[verifier::external_body]
pub(crate) fn object(members: Vec<(String, Value)>) -> (r: Value)
    ensures
        json_of(r) == Json::Object(members_of(members@)),
{
    members.into_iter().collect()
}

/// Adds a member.
pub(crate) fn put(members: &mut Vec<(String, Value)>, key: &str, value: Value)
    ensures
        members_of(final(members)@) == members_of(old(members)@).insert(key@, json_of(value)),
{
    let ghost before = members@.map_values(|m: (String, Value)| (m.0@, json_of(m.1)));
    members.push((key.to_owned(), value));
    proof {
        let after = members@.map_values(|m: (String, Value)| (m.0@, json_of(m.1)));
        assert(after.drop_last() =~= before);
        assert(after.last() == (key@, json_of(value)));
    }
}

/// No members yet.
pub(crate) fn no_members() -> (r: Vec<(String, Value)>)
    ensures
        members_of(r@) == Map::<Seq<char>, Json>::empty(),
{
    let r: Vec<(String, Value)> = Vec::new();
    r
}

/// An object with one member.
pub open spec fn one_member(key: Seq<char>, value: Json) -> Json {
    Json::Object(Map::empty().insert(key, value))
}

/// Builds an object with one member.
pub(crate) fn member_alone(key: &str, value: Value) -> (r: Value)
    ensures
        json_of(r) == one_member(key@, json_of(value)),
{
    let mut members = no_members();
    put(&mut members, key, value);
    object(members)
}

} // verus!
