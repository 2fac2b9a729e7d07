//! A plain JSON value, as the library reads server responses.

use vstd::prelude::*;

use crate::text::{chars_eq, chars_of};

verus! {

/// A JSON value. Integral numbers that fit an `i64` are kept as `Int`; other
/// numbers only record that a number was there. Object members are kept in
/// the order the response was read in, and their keys are distinct.
#[derive(Debug)]
pub enum Json {
    Null,
    Bool(bool),
    Int(i64),
    OtherNum,
    Str(String),
    Arr(Vec<Json>),
    Obj(Vec<(String, Json)>),
}

/// Index of the first member named `key`.
pub open spec fn member_index(ms: Seq<(String, Json)>, key: Seq<char>) -> Option<int> {
    if exists|i: int| 0 <= i < ms.len() && ms[i].0@ == key {
        Some(choose|i: int| 0 <= i < ms.len() && ms[i].0@ == key && forall|j: int| 0 <= j < i ==> ms[j].0@ != key)
    } else {
        None
    }
}

/// Position of the first member named `key`.
pub fn member_position(ms: &Vec<(String, Json)>, key: &str) -> (r: Option<usize>)
    ensures
        match r {
            Some(i) => member_index(ms@, key@) == Some(i as int) && i < ms@.len(),
            None => member_index(ms@, key@) is None,
        },
{
    let k = chars_of(key);
    let mut i: usize = 0;
    while i < ms.len()
        invariant
            0 <= i <= ms@.len(),
            k@ == key@,
            forall|j: int| 0 <= j < i ==> ms@[j].0@ != key@,
        decreases ms@.len() - i,
    {
        let name = chars_of(ms[i].0.as_str());
        if chars_eq(&name, &k) {
            proof {
                let ii = i as int;
                let w = choose|w: int|
                    0 <= w < ms@.len() && ms@[w].0@ == key@ && forall|j: int| 0 <= j < w ==> ms@[j].0@ != key@;
                assert(exists|w: int|
                    0 <= w < ms@.len() && ms@[w].0@ == key@ && forall|j: int| 0 <= j < w ==> ms@[j].0@ != key@)
                    by {
                    assert(0 <= ii < ms@.len() && ms@[ii].0@ == key@ && forall|j: int| 0 <= j < ii ==> ms@[j].0@ != key@);
                }
                if w < ii {
                    assert(ms@[w].0@ != key@);
                } else if w > ii {
                    assert(ms@[ii].0@ != key@);
                }
            }
            return Some(i);
        }
        i += 1;
    }
    None
}

impl Json {
    /// `Value::get` with a string key: the member of an object, if any.
    pub open spec fn spec_get(self, key: Seq<char>) -> Option<Json> {
        match self {
            Json::Obj(ms) => match member_index(ms@, key) {
                Some(i) => Some(ms@[i].1),
                None => None,
            },
            _ => None,
        }
    }

    /// `Value::as_str`.
    pub open spec fn spec_str(self) -> Option<Seq<char>> {
        match self {
            Json::Str(s) => Some(s@),
            _ => None,
        }
    }

    /// `Value::as_i64`.
    pub open spec fn spec_i64(self) -> Option<i64> {
        match self {
            Json::Int(n) => Some(n),
            _ => None,
        }
    }

    /// `Value::as_bool`.
    pub open spec fn spec_bool(self) -> Option<bool> {
        match self {
            Json::Bool(b) => Some(b),
            _ => None,
        }
    }

    /// `Value::get` with a string key: the member of an object, if any.
    pub fn get(&self, key: &str) -> (r: Option<&Json>)
        ensures
            match r {
                Some(v) => self.spec_get(key@) == Some(*v),
                None => self.spec_get(key@) is None,
            },
    {
        match self {
            Json::Obj(ms) => match member_position(ms, key) {
                Some(i) => Some(&ms[i].1),
                None => None,
            },
            _ => None,
        }
    }

    pub fn as_str(&self) -> (r: Option<&String>)
        ensures
            match r {
                Some(s) => self.spec_str() == Some(s@),
                None => self.spec_str() is None,
            },
    {
        match self {
            Json::Str(s) => Some(s),
            _ => None,
        }
    }

    pub fn as_i64(&self) -> (r: Option<i64>)
        ensures
            r == self.spec_i64(),
    {
        match self {
            Json::Int(n) => Some(*n),
            _ => None,
        }
    }

    pub fn as_bool(&self) -> (r: Option<bool>)
        ensures
            r == self.spec_bool(),
    {
        match self {
            Json::Bool(b) => Some(*b),
            _ => None,
        }
    }

    pub fn as_array(&self) -> (r: Option<&Vec<Json>>)
        ensures
            match r {
                Some(a) => *self == Json::Arr(*a),
                None => !(self is Arr),
            },
    {
        match self {
            Json::Arr(a) => Some(a),
            _ => None,
        }
    }
}

/// `v.as_str().filter(|s| !s.is_empty())`.
pub open spec fn nonempty_str(v: Option<Json>) -> Option<Seq<char>> {
    match v {
        Some(j) => match j.spec_str() {
            Some(s) => if s.len() > 0 {
                Some(s)
            } else {
                None
            },
            None => None,
        },
        None => None,
    }
}

/// The member `key` of `v` as a non-empty string.
pub fn nonempty_str_member<'a>(v: &'a Json, key: &str) -> (r: Option<&'a String>)
    ensures
        match r {
            Some(s) => nonempty_str(v.spec_get(key@)) == Some(s@),
            None => nonempty_str(v.spec_get(key@)) is None,
        },
{
    match v.get(key) {
        Some(j) => match j.as_str() {
            Some(s) => if s.as_str().is_empty() {
                None
            } else {
                Some(s)
            },
            None => None,
        },
        None => None,
    }
}

} // verus!
