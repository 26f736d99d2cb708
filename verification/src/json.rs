//! Reading and writing JSON.

use crate::text;
use vstd::prelude::*;

verus! {

/// The text under `field` in the JSON object that `body` holds, as serde_json reads it.
/// `None` where `body` is no JSON, the field is missing, or it is no text.
pub uninterp spec fn body_field(body: Seq<u8>, field: Seq<char>) -> Option<Seq<char>>;

/// `serde_json::from_slice` into a value, and the text that `Value::get` and
/// `Value::as_str` find in it under `field`. It depends on its arguments alone.
#[verifier::external_body]
pub(crate) fn field_of_body(body: &[u8], field: &str) -> (found: Option<String>)
    ensures
        text::text_in(found) == body_field(body@, field@),
{
    let value: serde_json::Value = serde_json::from_slice(body).ok()?;
    value.get(field).and_then(|v| v.as_str()).map(|s| s.to_string())
}

/// The text under `field` in the JSON object that `message` holds, as serde_json reads
/// it. `None` where `message` is no JSON, the field is missing, or it is no text.
pub uninterp spec fn message_field(message: Seq<char>, field: Seq<char>) -> Option<Seq<char>>;

/// `serde_json::from_str` into a value, and the text that `Value::get` and
/// `Value::as_str` find in it under `field`. It depends on its arguments alone.
#[verifier::external_body]
pub(crate) fn field_of_message(message: &str, field: &str) -> (found: Option<String>)
    ensures
        text::text_in(found) == message_field(message@, field@),
{
    let value: serde_json::Value = serde_json::from_str(message).ok()?;
    value.get(field).and_then(|v| v.as_str()).map(|s| s.to_string())
}

/// The number under `field` in the object under `section` in the JSON object that
/// `body` holds, as serde_json reads it. `None` where `body` is no JSON, either is
/// missing, or there is no number that fits.
pub uninterp spec fn body_count(body: Seq<u8>, section: Seq<char>, field: Seq<char>) -> Option<u64>;

/// `serde_json::from_slice` into a value, and the number that `Value::get`, twice, and
/// `Value::as_u64` find in it under `section` and `field`. It depends on its arguments
/// alone.
#[verifier::external_body]
pub(crate) fn count_of_body(body: &[u8], section: &str, field: &str) -> (found: Option<u64>)
    ensures
        found == body_count(body@, section@, field@),
{
    let value: serde_json::Value = serde_json::from_slice(body).ok()?;
    value.get(section).and_then(|v| v.get(field)).and_then(|n| n.as_u64())
}

/// What serde_json writes for an object of two texts.
pub uninterp spec fn object_of_texts(
    first: Seq<char>,
    first_text: Seq<char>,
    second: Seq<char>,
    second_text: Seq<char>,
) -> Seq<char>;

/// `serde_json::Value::to_string`, on an object with two texts under two names. It
/// depends on its arguments alone.
#[verifier::external_body]
pub(crate) fn write_texts(
    first: &str,
    first_text: &str,
    second: &str,
    second_text: &str,
) -> (s: String)
    ensures
        s@ == object_of_texts(first@, first_text@, second@, second_text@),
{
    let mut map = serde_json::Map::new();
    map.insert(first.to_string(), serde_json::Value::from(first_text));
    map.insert(second.to_string(), serde_json::Value::from(second_text));
    serde_json::Value::Object(map).to_string()
}

/// What serde_json writes for an object of two texts and a number.
pub uninterp spec fn object_of_texts_and_count(
    first: Seq<char>,
    first_text: Seq<char>,
    second: Seq<char>,
    second_text: Seq<char>,
    third: Seq<char>,
    count: u64,
) -> Seq<char>;

/// `serde_json::to_string`, on an object with two texts and a number under three
/// names. It depends on its arguments alone.
#[verifier::external_body]
pub(crate) fn write_texts_and_count(
    first: &str,
    first_text: &str,
    second: &str,
    second_text: &str,
    third: &str,
    count: u64,
) -> (s: String)
    ensures
        s@ == object_of_texts_and_count(
            first@,
            first_text@,
            second@,
            second_text@,
            third@,
            count,
        ),
{
    let mut map = serde_json::Map::new();
    map.insert(first.to_string(), serde_json::Value::from(first_text));
    map.insert(second.to_string(), serde_json::Value::from(second_text));
    map.insert(third.to_string(), serde_json::Value::from(count));
    serde_json::to_string(&serde_json::Value::Object(map)).unwrap()
}

} // verus!
