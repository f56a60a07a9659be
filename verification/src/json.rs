//! The JSON values that a rule file holds, and the two shapes of
//! dictionary that the replacement rules read from them.

use vstd::prelude::*;
use crate::text::{same_text, views};
use crate::replace::pair_views;

verus! {

/// A JSON value. Numbers keep their written form; an object keeps its
/// members in the order in which they were read.
#[derive(Debug)]
pub enum JsonValue {
    Null,
    Bool(bool),
    Number(String),
    Str(String),
    Array(Vec<JsonValue>),
    Object(Vec<(String, JsonValue)>),
}

/// The first member of `members` named `key`.
pub open spec fn first_member(members: Seq<(String, JsonValue)>, key: Seq<char>) -> Option<JsonValue>
    decreases members.len(),
{
    if members.len() == 0 {
        None
    } else if members[0].0@ == key {
        Some(members[0].1)
    } else {
        first_member(members.skip(1), key)
    }
}

/// The member `key` of an object; `None` for a value that is not an object.
pub open spec fn member(v: JsonValue, key: Seq<char>) -> Option<JsonValue> {
    match v {
        JsonValue::Object(members) => first_member(members@, key),
        _ => None,
    }
}

/// The text of a JSON string.
pub open spec fn string_value(v: JsonValue) -> Option<Seq<char>> {
    match v {
        JsonValue::Str(s) => Some(s@),
        _ => None,
    }
}

/// The texts of an array of JSON strings.
pub open spec fn strings_value(v: JsonValue) -> Option<Seq<Seq<char>>> {
    match v {
        JsonValue::Array(items) => if forall|i: int|
            0 <= i < items@.len() ==> (#[trigger] string_value(items@[i])) is Some {
            Some(Seq::new(items@.len(), |i: int| string_value(items@[i])->0))
        } else {
            None
        },
        _ => None,
    }
}

/// An object whose members are all strings, as `(name, text)` pairs in
/// member order: what a map from strings to strings is read from.
pub open spec fn string_dict(v: JsonValue) -> Option<Seq<(Seq<char>, Seq<char>)>> {
    match v {
        JsonValue::Object(members) => if forall|i: int|
            0 <= i < members@.len() ==> (#[trigger] string_value(members@[i].1)) is Some {
            Some(
                Seq::new(
                    members@.len(),
                    |i: int| (members@[i].0@, string_value(members@[i].1)->0),
                ),
            )
        } else {
            None
        },
        _ => None,
    }
}

/// An object whose members are all arrays of strings, as `(name, texts)`
/// pairs in member order: what a map from strings to lists of strings is
/// read from.
pub open spec fn names_dict(v: JsonValue) -> Option<Seq<(Seq<char>, Seq<Seq<char>>)>> {
    match v {
        JsonValue::Object(members) => if forall|i: int|
            0 <= i < members@.len() ==> (#[trigger] strings_value(members@[i].1)) is Some {
            Some(
                Seq::new(
                    members@.len(),
                    |i: int| (members@[i].0@, strings_value(members@[i].1)->0),
                ),
            )
        } else {
            None
        },
        _ => None,
    }
}

/// The character views of a list of `(name, texts)` pairs.
pub open spec fn names_views(v: Seq<(String, Vec<String>)>) -> Seq<(Seq<char>, Seq<Seq<char>>)> {
    v.map_values(|e: (String, Vec<String>)| (e.0@, views(e.1@)))
}

impl JsonValue {
    /// The member `key` of an object (`serde_json::Value::get` with a string).
    pub fn get(&self, key: &str) -> (r: Option<&JsonValue>)
        ensures
            r matches Some(x) ==> member(*self, key@) == Some(*x),
            r is None ==> member(*self, key@) is None,
    {
        match self {
            JsonValue::Object(members) => {
                let mut i: usize = 0;
                assert(members@.skip(0) =~= members@);
                while i < members.len()
                    invariant
                        i <= members.len(),
                        *self == JsonValue::Object(*members),
                        first_member(members@, key@) == first_member(members@.skip(i as int), key@),
                    decreases members.len() - i,
                {
                    assert(members@.skip(i as int).skip(1) =~= members@.skip(i + 1));
                    if same_text(members[i].0.as_str(), key) {
                        assert(members@.skip(i as int)[0] == members@[i as int]);
                        return Some(&members[i].1);
                    }
                    i = i + 1;
                }
                None
            },
            _ => None,
        }
    }

    /// The text of a JSON string.
    pub fn as_string(&self) -> (r: Option<String>)
        ensures
            r matches Some(s) ==> string_value(*self) == Some(s@),
            r is None ==> string_value(*self) is None,
    {
        match self {
            JsonValue::Str(s) => Some(s.clone()),
            _ => None,
        }
    }

    /// The texts of an array of JSON strings.
    pub fn as_strings(&self) -> (r: Option<Vec<String>>)
        ensures
            r matches Some(v) ==> strings_value(*self) == Some(views(v@)),
            r is None ==> strings_value(*self) is None,
    {
        match self {
            JsonValue::Array(items) => {
                let mut out: Vec<String> = Vec::new();
                let mut i: usize = 0;
                while i < items.len()
                    invariant
                        i <= items.len(),
                        *self == JsonValue::Array(*items),
                        out@.len() == i,
                        forall|k: int| 0 <= k < i ==> (#[trigger] string_value(items@[k])) == Some(out@[k]@),
                    decreases items.len() - i,
                {
                    match items[i].as_string() {
                        Some(s) => out.push(s),
                        None => {
                            assert(!((string_value(items@[i as int])) is Some));
                            return None;
                        },
                    }
                    i = i + 1;
                }
                assert(views(out@) =~= strings_value(*self)->0);
                Some(out)
            },
            _ => None,
        }
    }

    /// The object's members as `(name, text)` pairs, when every member is a
    /// string; otherwise `None`, as reading a map from strings to strings
    /// fails.
    pub fn as_string_dict(&self) -> (r: Option<Vec<(String, String)>>)
        ensures
            r matches Some(d) ==> string_dict(*self) == Some(pair_views(d@)),
            r is None ==> string_dict(*self) is None,
    {
        match self {
            JsonValue::Object(members) => {
                let mut out: Vec<(String, String)> = Vec::new();
                let mut i: usize = 0;
                while i < members.len()
                    invariant
                        i <= members.len(),
                        *self == JsonValue::Object(*members),
                        out@.len() == i,
                        forall|k: int| 0 <= k < i ==> (#[trigger] string_value(members@[k].1)) == Some(out@[k].1@),
                        forall|k: int| 0 <= k < i ==> (#[trigger] out@[k]).0@ == members@[k].0@,
                    decreases members.len() - i,
                {
                    match members[i].1.as_string() {
                        Some(s) => out.push((members[i].0.clone(), s)),
                        None => {
                            assert(!((string_value(members@[i as int].1)) is Some));
                            return None;
                        },
                    }
                    i = i + 1;
                }
                assert(pair_views(out@) =~= string_dict(*self)->0);
                Some(out)
            },
            _ => None,
        }
    }

    /// The object's members as `(name, texts)` pairs, when every member is
    /// an array of strings; otherwise `None`, as reading a map from strings
    /// to lists of strings fails.
    pub fn as_names_dict(&self) -> (r: Option<Vec<(String, Vec<String>)>>)
        ensures
            r matches Some(d) ==> names_dict(*self) == Some(names_views(d@)),
            r is None ==> names_dict(*self) is None,
    {
        match self {
            JsonValue::Object(members) => {
                let mut out: Vec<(String, Vec<String>)> = Vec::new();
                let mut i: usize = 0;
                while i < members.len()
                    invariant
                        i <= members.len(),
                        *self == JsonValue::Object(*members),
                        out@.len() == i,
                        forall|k: int| 0 <= k < i ==> (#[trigger] strings_value(members@[k].1)) == Some(views(out@[k].1@)),
                        forall|k: int| 0 <= k < i ==> (#[trigger] out@[k]).0@ == members@[k].0@,
                    decreases members.len() - i,
                {
                    match members[i].1.as_strings() {
                        Some(s) => out.push((members[i].0.clone(), s)),
                        None => {
                            assert(!((strings_value(members@[i as int].1)) is Some));
                            return None;
                        },
                    }
                    i = i + 1;
                }
                assert(names_views(out@) =~= names_dict(*self)->0);
                Some(out)
            },
            _ => None,
        }
    }
}

} // verus!
