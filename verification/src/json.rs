//! JSON values: parsing, and what stands in them.

use crate::text;
use serde_json::Value;
use vstd::prelude::*;
use vstd::string::*;

verus! {

/// The declared type of JSON values.
#[verifier::external_type_specification]
#[verifier::external_body]
pub struct ExValue(serde_json::Value);

/// The value under a key of a JSON object; nothing where there is none.
pub uninterp spec fn field_of(value: Value, key: Seq<char>) -> Option<Value>;

/// The elements of a JSON array; nothing for other values.
pub uninterp spec fn items_of(value: Value) -> Option<Seq<Value>>;

/// The number that a JSON value is, where it is an integer that is not negative.
pub uninterp spec fn number_of(value: Value) -> Option<u64>;

/// The text that a JSON string holds; nothing for other values.
pub uninterp spec fn text_of(value: Value) -> Option<Seq<char>>;

/// The truth value that a JSON value is; nothing for other values.
pub uninterp spec fn flag_of(value: Value) -> Option<bool>;

/// The value that a JSON text stands for; nothing where the text is no JSON.
pub uninterp spec fn parsed(text: Seq<char>) -> Option<Value>;

/// Parses JSON with `serde_json::from_str`. What comes out depends on the text alone; the contract
/// names it.
#[verifier::external_body]
pub(crate) fn parse(text: &str) -> (value: Option<Value>)
    ensures
        value == parsed(text@),
{
    serde_json::from_str(text).ok()
}

/// Looks a key up with `serde_json::Value::get`, which gives nothing where the value is no object
/// or has no such key. The contract names what comes out.
#[verifier::external_body]
pub(crate) fn field<'a>(value: &'a Value, key: &str) -> (found: Option<&'a Value>)
    ensures
        match found {
            Some(inner) => field_of(*value, key@) == Some(*inner),
            None => field_of(*value, key@) is None,
        },
{
    value.get(key)
}

/// The elements of an array by `serde_json::Value::as_array`, which gives nothing for other values.
/// The contract names them.
#[verifier::external_body]
pub(crate) fn items(value: &Value) -> (found: Option<&Vec<Value>>)
    ensures
        match found {
            Some(list) => items_of(*value) == Some(list@),
            None => items_of(*value) is None,
        },
{
    value.as_array()
}

/// The number in a value by `serde_json::Value::as_u64`. The contract names it.
#[verifier::external_body]
pub(crate) fn number(value: &Value) -> (found: Option<u64>)
    ensures
        found == number_of(*value),
{
    value.as_u64()
}

/// The text in a value by `serde_json::Value::as_str`. The contract names it.
#[verifier::external_body]
pub(crate) fn string(value: &Value) -> (found: Option<&str>)
    ensures
        match found {
            Some(s) => text_of(*value) == Some(s@),
            None => text_of(*value) is None,
        },
{
    value.as_str()
}

/// The truth value in a value by `serde_json::Value::as_bool`. The contract names it.
#[verifier::external_body]
pub(crate) fn flag(value: &Value) -> (found: Option<bool>)
    ensures
        found == flag_of(*value),
{
    value.as_bool()
}

/// The number under a key.
pub open spec fn number_under(value: Value, key: Seq<char>) -> Option<u64> {
    match field_of(value, key) {
        Some(inner) => number_of(inner),
        None => None,
    }
}

/// The text under a key.
pub open spec fn text_under(value: Value, key: Seq<char>) -> Option<Seq<char>> {
    match field_of(value, key) {
        Some(inner) => text_of(inner),
        None => None,
    }
}

/// The elements of the array under a key; none where there is no array.
pub open spec fn items_under(value: Value, key: Seq<char>) -> Seq<Value> {
    match field_of(value, key) {
        Some(inner) => match items_of(inner) {
            Some(list) => list,
            None => Seq::empty(),
        },
        None => Seq::empty(),
    }
}

/// Gives the elements of the array under a key.
pub(crate) fn items_at<'a>(value: &'a Value, key: &str) -> (found: Option<&'a Vec<Value>>)
    ensures
        match found {
            Some(list) => list@ == items_under(*value, key@),
            None => items_under(*value, key@) == Seq::<Value>::empty(),
        },
{
    match field(value, key) {
        Some(inner) => items(inner),
        None => None,
    }
}

/// Gives the number under a key.
pub(crate) fn number_at(value: &Value, key: &str) -> (found: Option<u64>)
    ensures
        found == number_under(*value, key@),
{
    match field(value, key) {
        Some(inner) => number(inner),
        None => None,
    }
}

/// Decides whether a text stands under a key.
pub(crate) fn text_is(value: &Value, key: &str, expected: &str) -> (r: bool)
    ensures
        r == (text_under(*value, key@) == Some(expected@)),
{
    match field(value, key) {
        Some(inner) => match string(inner) {
            Some(s) => text::equals(s, expected),
            None => false,
        },
        None => false,
    }
}

/// What stands under a key of a JSON text: its number where it is a non-negative integer, and the
/// numbers of its elements where it is an array; both are missing where there is no such key.
/// Nothing where the text is no JSON.
pub open spec fn json_entry(text: Seq<char>, key: Seq<char>) -> Option<
    (Option<u64>, Option<Seq<Option<u64>>>),
> {
    match parsed(text) {
        Some(value) => match field_of(value, key) {
            Some(inner) => Some((number_of(inner), numbers_in(inner))),
            None => Some((None, None)),
        },
        None => None,
    }
}

/// The numbers of the elements of an array; nothing for other values.
pub open spec fn numbers_in(value: Value) -> Option<Seq<Option<u64>>> {
    match items_of(value) {
        Some(list) => Some(list.map_values(|item: Value| number_of(item))),
        None => None,
    }
}

/// Finds what stands under a key of a JSON text.
pub fn entry_under(text: &str, key: &str) -> (result: Option<
    (Option<u64>, Option<Vec<Option<u64>>>),
>)
    ensures
        match result {
            Some((number, elements)) => json_entry(text@, key@) == Some(
                (
                    number,
                    match elements {
                        Some(list) => Some(list@),
                        None => None,
                    },
                ),
            ),
            None => json_entry(text@, key@) is None,
        },
{
    let value = match parse(text) {
        Some(value) => value,
        None => return None,
    };
    let inner = match field(&value, key) {
        Some(inner) => inner,
        None => return Some((None, None)),
    };
    let list = match items(inner) {
        Some(list) => list,
        None => return Some((number(inner), None)),
    };
    let n: usize = list.len();
    let mut numbers: Vec<Option<u64>> = Vec::new();
    for i in 0..n
        invariant
            n == list@.len(),
            numbers@ == list@.take(i as int).map_values(|item: Value| number_of(item)),
    {
        numbers.push(number(&list[i]));
        assert(numbers@ =~= list@.take(i + 1).map_values(|item: Value| number_of(item)));
    }
    assert(list@.take(n as int) =~= list@);
    Some((number(inner), Some(numbers)))
}

/// What an entry of a JSON object gives: its own number, and the numbers of its elements in their
/// order. A text that is no JSON gives nothing, and a missing key gives an empty entry.
pub proof fn entries_give_their_numbers(text: Seq<char>, key: Seq<char>, value: Value, inner: Value)
    ensures
        parsed(text) is None ==> json_entry(text, key) is None,
        parsed(text) == Some(value) && field_of(value, key) is None ==> json_entry(text, key) == Some(
            (None::<u64>, None::<Seq<Option<u64>>>),
        ),
        parsed(text) == Some(value) && field_of(value, key) == Some(inner) ==> {
            &&& json_entry(text, key) matches Some((number, elements))
            &&& number == number_of(inner)
            &&& (elements is Some <==> items_of(inner) is Some)
            &&& elements is Some ==> elements->0.len() == items_of(inner)->0.len() && forall|i: int|
                0 <= i < elements->0.len() ==> #[trigger] elements->0[i] == number_of(
                    items_of(inner)->0[i],
                )
        },
{
}

/// Looking under a key and then for a number, a text or elements gives what the value there holds,
/// and nothing where there is no such key.
pub proof fn keys_lead_to_their_values(value: Value, key: Seq<char>, inner: Value)
    ensures
        field_of(value, key) is None ==> number_under(value, key) is None && text_under(
            value,
            key,
        ) is None && items_under(value, key) == Seq::<Value>::empty(),
        field_of(value, key) == Some(inner) ==> {
            &&& number_under(value, key) == number_of(inner)
            &&& text_under(value, key) == text_of(inner)
            &&& items_of(inner) matches Some(list) ==> items_under(value, key) == list
            &&& items_of(inner) is None ==> items_under(value, key) == Seq::<Value>::empty()
        },
{
}

} // verus!
