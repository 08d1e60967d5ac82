//! A JSON document as the search functions read it, with lookups by key.

use vstd::prelude::*;
use crate::strings::str_eq;

verus! {

/// A JSON value. Object members keep their order; a lookup finds the first
/// member with the key. Numbers keep their text.
pub enum Json {
    Null,
    Bool(bool),
    Number(String),
    Str(String),
    Array(Vec<Json>),
    Object(Vec<(String, Json)>),
}

/// The value of the first member of `fields` whose key is `key`.
pub open spec fn lookup(fields: Seq<(String, Json)>, key: Seq<char>) -> Option<Json>
    decreases fields.len(),
{
    if fields.len() == 0 {
        None
    } else if fields[0].0@ == key {
        Some(fields[0].1)
    } else {
        lookup(fields.drop_first(), key)
    }
}

/// The member `key` of `v` when `v` is an object; `None` otherwise.
pub open spec fn json_get(v: Json, key: Seq<char>) -> Option<Json> {
    match v {
        Json::Object(fields) => lookup(fields@, key),
        _ => None,
    }
}

/// The elements of `v` when it is an array.
pub open spec fn arr(v: Json) -> Seq<Json> {
    match v {
        Json::Array(a) => a@,
        _ => seq![],
    }
}

/// The text of `v` when it is a string.
pub open spec fn text(v: Json) -> Seq<char> {
    match v {
        Json::Str(s) => s@,
        _ => seq![],
    }
}

/// The truth value of `v` when it is a boolean.
pub open spec fn truth(v: Json) -> bool {
    match v {
        Json::Bool(b) => b,
        _ => false,
    }
}

/// Every element of `s` is a string.
pub open spec fn all_str(s: Seq<Json>) -> bool {
    forall|i: int| 0 <= i < s.len() ==> #[trigger] s[i] is Str
}

/// The texts of a sequence of strings.
pub open spec fn texts(s: Seq<Json>) -> Seq<Seq<char>> {
    s.map_values(|v: Json| text(v))
}

/// The member `key` of `v`, when `v` is an object that has one.
pub fn get<'a>(v: &'a Json, key: &str) -> (r: Option<&'a Json>)
    ensures
        match json_get(*v, key@) {
            Some(x) => r is Some && *r->0 == x,
            None => r is None,
        },
{
    match v {
        Json::Object(fields) => {
            let mut i: usize = 0;
            assert(fields@.skip(0) =~= fields@);
            while i < fields.len()
                invariant
                    0 <= i <= fields@.len(),
                    json_get(*v, key@) == lookup(fields@.skip(i as int), key@),
                decreases fields.len() - i,
            {
                assert(fields@.skip(i as int).drop_first() =~= fields@.skip(i + 1));
                assert(fields@.skip(i as int)[0] == fields@[i as int]);
                if str_eq(fields[i].0.as_str(), key) {
                    return Some(&fields[i].1);
                }
                i = i + 1;
            }
            None
        },
        _ => None,
    }
}

/// The elements of an array value.
pub fn value_to_arr(v: &Json) -> (r: &Vec<Json>)
    requires
        *v is Array,
    ensures
        r@ == arr(*v),
{
    match v {
        Json::Array(a) => a,
        _ => {
            proof {
                assert(false);
            }
            unreached()
        },
    }
}

/// The text of a string value.
pub fn value_to_str(v: &Json) -> (r: &str)
    requires
        *v is Str,
    ensures
        r@ == text(*v),
{
    match v {
        Json::Str(s) => s.as_str(),
        _ => {
            proof {
                assert(false);
            }
            unreached()
        },
    }
}

/// The truth value of a boolean value.
pub fn value_to_bool(v: &Json) -> (r: bool)
    requires
        *v is Bool,
    ensures
        r == truth(*v),
{
    match v {
        Json::Bool(b) => *b,
        _ => {
            proof {
                assert(false);
            }
            unreached()
        },
    }
}

/// Whether `v` is the string `s` (JSON `==` against a string slice).
pub fn value_eq_str(v: &Json, s: &str) -> (r: bool)
    ensures
        r == (*v is Str && text(*v) == s@),
{
    match v {
        Json::Str(t) => str_eq(t.as_str(), s),
        _ => false,
    }
}

} // verus!
