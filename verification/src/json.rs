//! The boundary to serde_json: a parsed document converted into a plain
//! tree the Istanbul parser walks in verified code. Numbers are kept as
//! their unsigned 64-bit reading, the only form coverage data uses.

use vstd::prelude::*;

verus! {

/// A plain JSON tree. Object entries come back in the order serde_json's
/// map yields them — sorted by key, not document order.
#[derive(Debug)]
pub enum Json {
    Null,
    Bool(bool),
    Num(Option<u64>),
    Str(String),
    Array(Vec<Json>),
    Object(Vec<(String, Json)>),
}

#[verifier::external_type_specification]
#[verifier::external_body]
pub struct ExValue(serde_json::Value);

/// Whether the bytes parse as a JSON document.
pub uninterp spec fn spec_json_ok(input: Seq<u8>) -> bool;

/// The tree a well-formed document parses to: a function of the bytes
/// alone, with object entries in sorted key order.
pub uninterp spec fn spec_json_tree(input: Seq<u8>) -> Option<Json>;

/// Relies on `serde_json::from_slice::<Value>`: whether the input parses,
/// and the tree it parses to, depend on the bytes alone.
#[verifier::external_body]
pub fn parse_json(input: &[u8]) -> (r: Option<Json>)
    ensures
        r is Some == spec_json_ok(input@),
        r == spec_json_tree(input@),
{
    match serde_json::from_slice::<serde_json::Value>(input) {
        Ok(v) => Some(conv(v)),
        Err(_) => None,
    }
}

/// Relies on serde_json's `Value` variants and `Number::as_u64`: converts
/// the parsed document, arm by arm, into the plain tree.
#[verifier::external_body]
fn conv(v: serde_json::Value) -> Json {
    match v {
        serde_json::Value::Null => Json::Null,
        serde_json::Value::Bool(b) => Json::Bool(b),
        serde_json::Value::Number(n) => Json::Num(n.as_u64()),
        serde_json::Value::String(s) => Json::Str(s),
        serde_json::Value::Array(a) => Json::Array(a.into_iter().map(conv).collect()),
        serde_json::Value::Object(m) => Json::Object(
            m.into_iter().map(|(k, x)| (k, conv(x))).collect(),
        ),
    }
}

/// The object's entries, when the value is an object.
pub open spec fn spec_as_object(j: Json) -> Option<Vec<(String, Json)>> {
    match j {
        Json::Object(m) => Some(m),
        _ => None,
    }
}

/// The array's elements, when the value is an array.
pub open spec fn spec_as_array(j: Json) -> Option<Vec<Json>> {
    match j {
        Json::Array(a) => Some(a),
        _ => None,
    }
}

/// The unsigned reading, when the value is a number that has one.
pub open spec fn spec_as_u64(j: Json) -> Option<u64> {
    match j {
        Json::Num(n) => n,
        _ => None,
    }
}

/// The string value, when the value is a string.
pub open spec fn spec_as_str(j: Json) -> Option<String> {
    match j {
        Json::Str(s) => Some(s),
        _ => None,
    }
}

/// The first entry stored under `key` in an object's entry list.
pub open spec fn spec_obj_get(m: Seq<(String, Json)>, key: Seq<char>) -> Option<Json>
    decreases m.len(),
{
    if m.len() == 0 {
        None
    } else if m[0].0@ == key {
        Some(m[0].1)
    } else {
        spec_obj_get(m.drop_first(), key)
    }
}

/// The first member stored under `key`, when the value is an object.
pub open spec fn spec_get(j: Json, key: Seq<char>) -> Option<Json> {
    match j {
        Json::Object(m) => spec_obj_get(m@, key),
        _ => None,
    }
}

impl Json {
    /// The object's entries, when this is an object.
    pub fn as_object(&self) -> (r: Option<&Vec<(String, Json)>>)
        ensures
            match r {
                Some(m) => spec_as_object(*self) == Some(*m),
                None => spec_as_object(*self) is None,
            },
    {
        match self {
            Json::Object(m) => Some(m),
            _ => None,
        }
    }

    /// The array's elements, when this is an array.
    pub fn as_array(&self) -> (r: Option<&Vec<Json>>)
        ensures
            match r {
                Some(a) => spec_as_array(*self) == Some(*a),
                None => spec_as_array(*self) is None,
            },
    {
        match self {
            Json::Array(a) => Some(a),
            _ => None,
        }
    }

    /// The unsigned reading, when this is a number that has one.
    pub fn as_u64(&self) -> (r: Option<u64>)
        ensures
            r == spec_as_u64(*self),
    {
        match self {
            Json::Num(n) => *n,
            _ => None,
        }
    }

    /// The string value, when this is a string.
    pub fn as_str_val(&self) -> (r: Option<&String>)
        ensures
            match r {
                Some(s) => spec_as_str(*self) == Some(*s),
                None => spec_as_str(*self) is None,
            },
    {
        match self {
            Json::Str(s) => Some(s),
            _ => None,
        }
    }

    /// The first member stored under `key`, when this is an object.
    pub fn get<'a>(&'a self, key: &str) -> (r: Option<&'a Json>)
        ensures
            match r {
                Some(v) => spec_get(*self, key@) == Some(*v),
                None => spec_get(*self, key@) is None,
            },
    {
        match self {
            Json::Object(m) => {
                proof {
                    assert(*self == Json::Object(*m));
                    assert(spec_get(*self, key@) == spec_obj_get(m@, key@));
                }
                let n = m.len();
                let mut i: usize = 0;
                proof {
                    assert(m@.skip(0) =~= m@);
                }
                while i < n
                    invariant
                        n == m@.len(),
                        0 <= i <= n,
                        spec_get(*self, key@) == spec_obj_get(m@, key@),
                        spec_obj_get(m@, key@) == spec_obj_get(m@.skip(i as int), key@),
                    decreases n - i,
                {
                    proof {
                        assert(m@.skip(i as int)[0] == m@[i as int]);
                        assert(m@.skip(i as int).drop_first() =~= m@.skip(i + 1));
                    }
                    if crate::text::str_eq(m[i].0.as_str(), key) {
                        proof {
                            assert(m@[i as int].0@ == key@);
                            assert(spec_obj_get(m@.skip(i as int), key@) == Some(m@[i as int].1));
                        }
                        let out: &Json = &m[i].1;
                        proof {
                            assert(*out == m@[i as int].1);
                            assert(spec_get(*self, key@) == Some(*out));
                        }
                        return Some(out);
                    }
                    i += 1;
                }
                proof {
                    assert(m@.skip(n as int) =~= Seq::<(String, Json)>::empty());
                }
                None
            },
            _ => None,
        }
    }
}

} // verus!
