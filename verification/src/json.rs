//! A JSON document as the import logic reads it.
//!
//! Numbers are held in the text that `serde_json` prints for them; objects
//! hold their members in order, each key once.

use vstd::prelude::*;

verus! {

/// A JSON value.
pub enum JsonValue {
    /// `null`.
    Null,
    /// `true` or `false`.
    Bool(bool),
    /// A number, as its printed text.
    Number(String),
    /// A string.
    String(String),
    /// An array.
    Array(Vec<JsonValue>),
    /// An object: its members in order.
    Object(Vec<(String, JsonValue)>),
}

/// The value of the first member of `members` named `key`, if any.
pub open spec fn member_value(members: Seq<(String, JsonValue)>, key: Seq<char>) -> Option<JsonValue>
    decreases members.len(),
{
    if members.len() == 0 {
        None
    } else if members[0].0@ == key {
        Some(members[0].1)
    } else {
        member_value(members.drop_first(), key)
    }
}

/// The member `key` of an object (`Value::get` with a string key); `None`
/// for a value that is no object or has no such member.
pub open spec fn json_get(v: JsonValue, key: Seq<char>) -> Option<JsonValue> {
    match v {
        JsonValue::Object(members) => member_value(members@, key),
        _ => None,
    }
}

/// The string member `identify` of the first element of an array member
/// `identify`, if there is one.
pub open spec fn nested_identify_of(doc: JsonValue) -> Option<Seq<char>> {
    match json_get(doc, "identify"@) {
        Some(JsonValue::Array(items)) => if items@.len() > 0 {
            match json_get(items@[0], "identify"@) {
                Some(JsonValue::String(s)) => Some(s@),
                _ => None,
            }
        } else {
            None
        },
        _ => None,
    }
}

/// The identifier that an identify document holds: the string member
/// `identify`, or else the string member `identify` of the first element of
/// an array member `identify`.
pub open spec fn identify_of(doc: JsonValue) -> Option<Seq<char>> {
    match json_get(doc, "identify"@) {
        Some(JsonValue::String(s)) => Some(s@),
        _ => nested_identify_of(doc),
    }
}

/// The identifier of an identify document: a string member `identify` is
/// the identifier; when that member is an array instead, the identifier is
/// the string member `identify` of its first element, whatever follows that
/// element, and there is none for an empty array or a first element without
/// such a string.
pub proof fn lemma_identify_of(doc: JsonValue)
    ensures
        json_get(doc, "identify"@) matches Some(JsonValue::String(s)) ==> identify_of(doc) == Some(s@),
        json_get(doc, "identify"@) matches Some(JsonValue::Array(items)) ==> {
            &&& items@.len() == 0 ==> identify_of(doc) is None && nested_identify_of(doc) is None
            &&& items@.len() > 0 ==> identify_of(doc) == nested_identify_of(doc) && nested_identify_of(doc) == match json_get(
                items@[0],
                "identify"@,
            ) {
                Some(JsonValue::String(s)) => Some(s@),
                _ => None::<Seq<char>>,
            }
        },
        !(json_get(doc, "identify"@) matches Some(JsonValue::String(_))) && !(json_get(doc, "identify"@) matches Some(
            JsonValue::Array(_),
        )) ==> identify_of(doc) is None && nested_identify_of(doc) is None,
{
}

/// Two documents whose `identify` arrays start with the same element give
/// the same identifier from that array, however the rest of the arrays differ.
pub proof fn lemma_nested_identify_first_only(a: JsonValue, b: JsonValue, items_a: Vec<JsonValue>, items_b: Vec<JsonValue>)
    requires
        json_get(a, "identify"@) == Some(JsonValue::Array(items_a)),
        json_get(b, "identify"@) == Some(JsonValue::Array(items_b)),
        items_a@.len() > 0,
        items_b@.len() > 0,
        items_a@[0] == items_b@[0],
    ensures
        nested_identify_of(a) == nested_identify_of(b),
        identify_of(a) == identify_of(b),
{
}

/// Whether `r` is `Some(x)` exactly when `spec` is `Some(*x)`.
pub open spec fn same_option(r: Option<&JsonValue>, spec: Option<JsonValue>) -> bool {
    match r {
        Some(x) => spec == Some(*x),
        None => spec is None,
    }
}

/// The value of the first member named `key`, if any.
pub fn member_get<'a>(members: &'a Vec<(String, JsonValue)>, key: &str) -> (r: Option<&'a JsonValue>)
    ensures
        same_option(r, member_value(members@, key@)),
{
    let k = key.to_owned();
    let mut i: usize = 0;
    assert(members@.skip(0) =~= members@);
    while i < members.len()
        invariant
            i <= members@.len(),
            k@ == key@,
            member_value(members@, key@) == member_value(members@.skip(i as int), key@),
        decreases members@.len() - i,
    {
        proof {
            assert(members@.skip(i as int)[0] == members@[i as int]);
            assert(members@.skip(i as int).drop_first() =~= members@.skip(i + 1));
        }
        if members[i].0 == k {
            return Some(&members[i].1);
        }
        i += 1;
    }
    None
}

impl JsonValue {
    /// The member `key` of an object (`None` for a value that is no object).
    pub fn get(&self, key: &str) -> (r: Option<&JsonValue>)
        ensures
            same_option(r, json_get(*self, key@)),
    {
        match self {
            JsonValue::Object(members) => member_get(members, key),
            _ => None,
        }
    }
}

/// The identifier held in the first element of the document's `identify`
/// array (see `nested_identify_of`).
pub fn nested_identify_in(doc: &JsonValue) -> (r: Option<String>)
    ensures
        match r {
            Some(s) => nested_identify_of(*doc) == Some(s@),
            None => nested_identify_of(*doc) is None,
        },
{
    match doc.get("identify") {
        Some(JsonValue::Array(items)) => {
            if items.len() > 0 {
                match items[0].get("identify") {
                    Some(JsonValue::String(s)) => Some(s.clone()),
                    _ => None,
                }
            } else {
                None
            }
        },
        _ => None,
    }
}

/// The identifier that an identify document holds (see `identify_of`).
pub fn identify_in(doc: &JsonValue) -> (r: Option<String>)
    ensures
        match r {
            Some(s) => identify_of(*doc) == Some(s@),
            None => identify_of(*doc) is None,
        },
{
    match doc.get("identify") {
        Some(JsonValue::String(s)) => Some(s.clone()),
        _ => nested_identify_in(doc),
    }
}

} // verus!
