//! JSON documents, read by `serde_json` and seen through a mathematical tree.

use crate::number::{all_digits, decimal, digits_value, read_nearest, signed_decimal, significant};
use crate::number::{parse_nearest, parse_u64, round_significant};
use crate::text::chars_of;
use vstd::prelude::*;

verus! {

/// `serde_json::Value`: one JSON value.
#[verifier::external_type_specification]
#[verifier::external_body]
pub struct ExValue(serde_json::Value);

/// `serde_json::Error`: why a text is no JSON document.
#[verifier::external_type_specification]
#[verifier::external_body]
pub struct ExError(serde_json::Error);

/// A JSON value. A number is the text that `serde_json` writes for it: an unsigned integer is
/// digits only, a negative one has a minus sign in front, and any other number has a point or a
/// power of ten.
pub enum Json {
    Null,
    Bool(bool),
    Number(Seq<char>),
    Text(Seq<char>),
    List(Seq<Json>),
    Record(Map<Seq<char>, Json>),
}

/// The tree that a `serde_json::Value` holds.
pub uninterp spec fn json_of(v: serde_json::Value) -> Json;

/// The tree of the document that `text` writes, where `serde_json` reads it as one.
pub uninterp spec fn json_document(text: Seq<char>) -> Option<Json>;

/// `serde_json::from_str` to a `Value`: the tree that the text writes, or an error where it
/// writes none.
#[verifier::external_body]
pub(crate) fn read_document(text: &str) -> (r: Result<serde_json::Value, serde_json::Error>)
    ensures
        r is Ok <==> json_document(text@) is Some,
        r matches Ok(v) ==> json_document(text@) == Some(json_of(v)),
{
    serde_json::from_str(text)
}

/// `Value::get` with a key: the member of that name of a record, and nothing of any other value.
#[verifier::external_body]
pub(crate) fn member<'a>(v: &'a serde_json::Value, key: &str) -> (r: Option<&'a serde_json::Value>)
    ensures
        match json_of(*v) {
            Json::Record(m) => {
                &&& r is Some <==> m.dom().contains(key@)
                &&& r matches Some(x) ==> json_of(*x) == m[key@]
            },
            _ => r is None,
        },
{
    v.get(key)
}

/// `Value::is_object`: whether the value is a record.
pub assume_specification[ serde_json::Value::is_object ](v: &serde_json::Value) -> (r: bool)
    ensures
        r == (json_of(*v) is Record),
;

/// `Value::as_array`: the elements of a list, in order.
pub assume_specification[ serde_json::Value::as_array ](v: &serde_json::Value) -> (r: Option<
    &Vec<serde_json::Value>,
>)
    ensures
        match json_of(*v) {
            Json::List(s) => {
                &&& r is Some
                &&& r->0@.len() == s.len()
                &&& forall|i: int| 0 <= i < s.len() ==> json_of(#[trigger] r->0@[i]) == s[i]
            },
            _ => r is None,
        },
;

/// `Value::as_str`: the characters of a text.
pub assume_specification[ serde_json::Value::as_str ](v: &serde_json::Value) -> (r: Option<&str>)
    ensures
        match json_of(*v) {
            Json::Text(s) => r is Some && r->0@ == s,
            _ => r is None,
        },
;

/// `Value::as_bool`: the truth value.
pub assume_specification[ serde_json::Value::as_bool ](v: &serde_json::Value) -> (r: Option<bool>)
    ensures
        match json_of(*v) {
            Json::Bool(b) => r == Some(b),
            _ => r is None,
        },
;

/// `Value::as_number` and `Number`'s `Display`: the text of a number.
#[verifier::external_body]
pub(crate) fn number_text(v: &serde_json::Value) -> (r: Option<String>)
    ensures
        match json_of(*v) {
            Json::Number(t) => r is Some && r->0@ == t,
            _ => r is None,
        },
{
    v.as_number().map(|n| n.to_string())
}

/// `Value::from` of a text: that text.
#[verifier::external_body]
pub(crate) fn text_value(s: &str) -> (r: serde_json::Value)
    ensures
        json_of(r) == Json::Text(s@),
{
    serde_json::Value::from(s)
}

/// `Value::from` of a vector: the list of its elements.
#[verifier::external_body]
pub(crate) fn list_value(v: Vec<serde_json::Value>) -> (r: serde_json::Value)
    ensures
        json_of(r) == Json::List(Seq::new(v@.len(), |i: int| json_of(v@[i]))),
{
    serde_json::Value::from(v)
}

/// The members that pairs of different names make.
pub open spec fn members(pairs: Seq<(String, serde_json::Value)>) -> Map<Seq<char>, Json>
    decreases pairs.len(),
{
    if pairs.len() == 0 {
        Map::empty()
    } else {
        members(pairs.drop_last()).insert(pairs.last().0@, json_of(pairs.last().1))
    }
}

/// `Value::from_iter` of pairs of names and values: the record of those members. Which of two
/// pairs of the same name stays is left open, so the names differ.
#[verifier::external_body]
pub(crate) fn record_value(pairs: Vec<(String, serde_json::Value)>) -> (r: serde_json::Value)
    requires
        forall|i: int, j: int| 0 <= i < j < pairs@.len() ==> pairs@[i].0@ != pairs@[j].0@,
    ensures
        json_of(r) == Json::Record(members(pairs@)),
{
    serde_json::Value::from_iter(pairs)
}

/// The text that `serde_json` writes for a tree, with line breaks and indents.
pub uninterp spec fn pretty_text(j: Json) -> Seq<char>;

/// `serde_json::to_string_pretty` of a `Value`: the text of its tree. Writing a tree to memory
/// does not fail.
#[verifier::external_body]
pub(crate) fn pretty(v: &serde_json::Value) -> (r: Result<String, serde_json::Error>)
    ensures
        r is Ok,
        r->Ok_0@ == pretty_text(json_of(*v)),
{
    serde_json::to_string_pretty(v)
}

/// `Value::from` of an integer: the number that its decimal digits write.
#[verifier::external_body]
pub(crate) fn integer_value(i: i64) -> (r: serde_json::Value)
    ensures
        json_of(r) == Json::Number(signed_decimal(i as int)),
{
    serde_json::Value::from(i)
}

/// `Value::from` of an unsigned integer: the number that its decimal digits write.
#[verifier::external_body]
pub(crate) fn unsigned_value(n: u64) -> (r: serde_json::Value)
    ensures
        json_of(r) == Json::Number(decimal(n as nat)),
{
    serde_json::Value::from(n)
}

/// `Value::from` of a truth value: that value.
#[verifier::external_body]
pub(crate) fn bool_value(b: bool) -> (r: serde_json::Value)
    ensures
        json_of(r) == Json::Bool(b),
{
    serde_json::Value::from(b)
}

/// The text that `serde_json` writes for a tree, on one line.
pub uninterp spec fn compact_text(j: Json) -> Seq<char>;

/// `serde_json::to_string` of a `Value`: the text of its tree. Writing a tree to memory does not
/// fail.
#[verifier::external_body]
pub(crate) fn compact(v: &serde_json::Value) -> (r: Result<String, serde_json::Error>)
    ensures
        r is Ok,
        r->Ok_0@ == compact_text(json_of(*v)),
{
    serde_json::to_string(v)
}

/// Whether a tree can stand for a record of `count` known members: a record, or a list of no more
/// values, which are then the members in their order.
pub open spec fn describes(j: Json, count: nat) -> bool {
    match j {
        Json::Record(_) => true,
        Json::List(s) => s.len() <= count,
        _ => false,
    }
}

/// The member with a name, which comes at a place among the known members.
pub open spec fn part(j: Json, key: Seq<char>, place: nat) -> Option<Json> {
    match j {
        Json::Record(m) => if m.dom().contains(key) {
            Some(m[key])
        } else {
            None
        },
        Json::List(s) => if place < s.len() {
            Some(s[place as int])
        } else {
            None
        },
        _ => None,
    }
}

/// Whether a value can stand for a record of `count` known members.
pub(crate) fn is_record(v: &serde_json::Value, count: usize) -> (r: bool)
    ensures
        r == describes(json_of(*v), count as nat),
{
    match v.as_array() {
        Some(list) => list.len() <= count,
        None => v.is_object(),
    }
}

/// Finds the member with a name or at a place.
pub(crate) fn find_part<'a>(v: &'a serde_json::Value, key: &str, place: usize) -> (r: Option<
    &'a serde_json::Value,
>)
    ensures
        match part(json_of(*v), key@, place as nat) {
            Some(j) => r is Some && json_of(*r->0) == j,
            None => r is None,
        },
{
    match v.as_array() {
        Some(list) => if place < list.len() {
            Some(&list[place])
        } else {
            None
        },
        None => member(v, key),
    }
}

/// `f` of every element, where `f` is defined for all of them.
pub open spec fn all_of<T>(s: Seq<Json>, f: spec_fn(Json) -> Option<T>) -> Option<Seq<T>> {
    if forall|i: int| 0 <= i < s.len() ==> f(#[trigger] s[i]) is Some {
        Some(Seq::new(s.len(), |i: int| f(s[i])->0))
    } else {
        None
    }
}

/// The unsigned integer that a JSON number is, where it is one.
pub open spec fn unsigned(t: Seq<char>) -> Option<nat> {
    if t.len() > 0 && all_digits(t) {
        Some(digits_value(t))
    } else {
        None
    }
}

/// A JSON number as a count of milliseconds: read into a floating-point number with 53
/// significant binary digits, rounded to the nearest integer and kept within `u64`.
pub open spec fn milliseconds(t: Seq<char>) -> Option<u64> {
    match read_nearest(t) {
        Some(n) => Some(
            if significant(n as nat, 53) > u64::MAX {
                u64::MAX
            } else {
                significant(n as nat, 53) as u64
            },
        ),
        None => None,
    }
}

/// Reads a JSON number as a count of milliseconds.
pub(crate) fn parse_milliseconds(t: &str) -> (r: Option<u64>)
    ensures
        r == milliseconds(t@),
{
    match parse_nearest(chars_of(t).as_slice()) {
        Some(n) => {
            let wide = round_significant(n, 53);
            if wide > 0xffff_ffff_ffff_ffff {
                Some(u64::MAX)
            } else {
                Some(wide as u64)
            }
        },
        None => None,
    }
}

/// Reads a JSON number as an unsigned integer of at most `max`.
pub(crate) fn parse_unsigned(t: &str, max: u64) -> (r: Option<u64>)
    ensures
        match unsigned(t@) {
            Some(n) if n <= max => r == Some(n as u64),
            _ => r is None,
        },
{
    let s = chars_of(t);
    if s.len() == 0 || s[0] == '+' {
        proof {
            if s.len() > 0 {
                assert(!crate::number::is_digit(s@[0]));
            }
        }
        return None;
    }
    match parse_u64(s.as_slice()) {
        Ok(n) => if n <= max {
            Some(n)
        } else {
            None
        },
        Err(_) => None,
    }
}

} // verus!
