//! A JSON value as plain data: what the build's output parser reads.

use vstd::prelude::*;
use crate::text::same;

verus! {

/// A parsed JSON value. An object's members come in the order the parser
/// hands them over (serde_json's default map yields them sorted by key, each
/// key once); a number keeps only what is read of it, its value as a `u64`
/// when it is one.
#[derive(Debug)]
pub enum Json {
    Null,
    Bool(bool),
    Number(Option<u64>),
    Str(String),
    Array(Vec<Json>),
    Object(Vec<(String, Json)>),
}

#[verifier::external_type_specification]
#[verifier::external_body]
pub struct ExValue(serde_json::Value);

/// What `serde_json` makes of `text` read as one JSON value, as a `Json`
/// tree; `None` when `text` is not JSON.
pub uninterp spec fn parsed_json(text: Seq<char>) -> Option<Json>;

/// Trusted: `serde_json::from_str::<serde_json::Value>(text)`, the value then
/// carried over into `Json` variant by variant. Claimed: the result depends
/// on `text` alone (it is named `parsed_json`). Not claimed: what the tree
/// holds for a given text; that is serde_json's grammar.
#[verifier::external_body]
pub(crate) fn read_json(text: &str) -> (r: Option<Json>)
    ensures
        r == parsed_json(text@),
{
    serde_json::from_str::<serde_json::Value>(text).ok().map(from_value)
}

/// Trusted: a `serde_json::Value` carried over into `Json`, one variant for
/// another; a number keeps `Number::as_u64`, object members come in the
/// order the value's map yields them. Used by `read_json` alone, whose
/// contract covers it.
#[verifier::external_body]
fn from_value(value: serde_json::Value) -> Json {
    match value {
        serde_json::Value::Null => Json::Null,
        serde_json::Value::Bool(b) => Json::Bool(b),
        serde_json::Value::Number(n) => Json::Number(n.as_u64()),
        serde_json::Value::String(s) => Json::Str(s),
        serde_json::Value::Array(items) => Json::Array(items.into_iter().map(from_value).collect()),
        serde_json::Value::Object(members) => Json::Object(
            members.into_iter().map(|(k, v)| (k, from_value(v))).collect(),
        ),
    }
}

/// The first member of `members` called `key`.
pub open spec fn member(members: Seq<(String, Json)>, key: Seq<char>) -> Option<Json>
    decreases members.len(),
{
    if members.len() == 0 {
        None
    } else if members[0].0@ == key {
        Some(members[0].1)
    } else {
        member(members.drop_first(), key)
    }
}

/// `value[key]` when `value` is an object with that member.
pub open spec fn field(value: Json, key: Seq<char>) -> Option<Json> {
    match value {
        Json::Object(members) => member(members@, key),
        _ => None,
    }
}

/// `field` on an optional value.
pub open spec fn field_of(value: Option<Json>, key: Seq<char>) -> Option<Json> {
    match value {
        Some(v) => field(v, key),
        None => None,
    }
}

/// The text of a string value.
pub open spec fn text_of(value: Option<Json>) -> Option<Seq<char>> {
    match value {
        Some(Json::Str(s)) => Some(s@),
        _ => None,
    }
}

/// The truth of a boolean value.
pub open spec fn bool_of(value: Option<Json>) -> Option<bool> {
    match value {
        Some(Json::Bool(b)) => Some(b),
        _ => None,
    }
}

/// The value of a number that is a `u64`.
pub open spec fn u64_of(value: Option<Json>) -> Option<u64> {
    match value {
        Some(Json::Number(n)) => n,
        _ => None,
    }
}

/// The elements of an array value.
pub open spec fn array_of(value: Option<Json>) -> Option<Seq<Json>> {
    match value {
        Some(Json::Array(items)) => Some(items@),
        _ => None,
    }
}

impl Json {
    /// The member called `key`, when this is an object that has one.
    pub fn get(&self, key: &str) -> (r: Option<&Json>)
        ensures
            match r {
                Some(v) => field(*self, key@) == Some(*v),
                None => field(*self, key@) is None,
            },
    {
        match self {
            Json::Object(members) => {
                let mut i: usize = 0;
                proof {
                    assert(members@.skip(0) =~= members@);
                }
                while i < members.len()
                    invariant
                        i <= members.len(),
                        member(members@, key@) == member(members@.skip(i as int), key@),
                        field(*self, key@) == member(members@, key@),
                    decreases members.len() - i,
                {
                    proof {
                        assert(members@.skip(i as int).drop_first() =~= members@.skip(i + 1));
                    }
                    proof {
                        assert(members@.skip(i as int)[0] == members@[i as int]);
                    }
                    if same(members[i].0.as_str(), key) {
                        proof {
                            let t = members@.skip(i as int);
                            assert(member(t, key@) == Some(t[0].1));
                        }
                        return Some(&members[i].1);
                    }
                    i = i + 1;
                }
                None
            },
            _ => None,
        }
    }

    pub fn as_str(&self) -> (r: Option<&str>)
        ensures
            match r {
                Some(s) => text_of(Some(*self)) == Some(s@),
                None => text_of(Some(*self)) is None,
            },
    {
        match self {
            Json::Str(s) => Some(s.as_str()),
            _ => None,
        }
    }

    pub fn as_bool(&self) -> (r: Option<bool>)
        ensures
            r == bool_of(Some(*self)),
    {
        match self {
            Json::Bool(b) => Some(*b),
            _ => None,
        }
    }

    pub fn as_u64(&self) -> (r: Option<u64>)
        ensures
            r == u64_of(Some(*self)),
    {
        match self {
            Json::Number(n) => *n,
            _ => None,
        }
    }

    pub fn as_array(&self) -> (r: Option<&Vec<Json>>)
        ensures
            match r {
                Some(v) => array_of(Some(*self)) == Some(v@),
                None => array_of(Some(*self)) is None,
            },
    {
        match self {
            Json::Array(items) => Some(items),
            _ => None,
        }
    }
}

} // verus!
