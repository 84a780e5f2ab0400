//! JSON texts, classified to the shapes the protocol reads.
//!
//! Two places accept JSON: a header value sent as a bare wire string,
//! and the body of a request whose `METHOD` header is `JSON`.  In both,
//! the protocol only ever asks whether the top-level value is an object,
//! and of each member whether it is a string or a list of strings.  The
//! parser is an outside library; its result is taken over classified
//! into exactly those shapes, everything else collapsing to `Other`.

use vstd::prelude::*;

verus! {

/// An element of a JSON array: a string, or anything else.
#[derive(Debug, Clone, PartialEq, Eq)]
pub enum JsonElem {
    /// A string element.
    Str(String),
    /// An element of any other kind.
    Other,
}

/// The value of a JSON object member, classified.
#[derive(Debug, Clone, PartialEq, Eq)]
pub enum JsonVal {
    /// A string value.
    Str(String),
    /// An array value, its elements classified.
    List(Vec<JsonElem>),
    /// A value of any other kind.
    Other,
}

/// The top level of a parsed JSON text.
#[derive(Debug, PartialEq, Eq)]
pub enum JsonTop {
    /// An object: its members with their classified values, in the
    /// parser's member order, each key once.
    Obj(Vec<(String, JsonVal)>),
    /// A well-formed text whose top-level value is not an object.
    NotObj,
}

/// What parsing a byte sequence as JSON yields: `None` when the bytes
/// are not a well-formed JSON text, otherwise the classified top level.
/// The result depends on the bytes alone.
pub uninterp spec fn json_top_of(b: Seq<u8>) -> Option<JsonTop>;

/// Relies on serde_json::from_slice: parsing fails exactly on input
/// that is not well-formed JSON, and the classification preserves the
/// parsed object's members in order.
#[verifier::external_body]
pub(crate) fn json_parse(bytes: &[u8]) -> (r: Option<JsonTop>)
    ensures
        r == json_top_of(bytes@),
{
    match serde_json::from_slice::<serde_json::Value>(bytes) {
        Err(_) => None,
        Ok(serde_json::Value::Object(m)) => Some(JsonTop::Obj(m.into_iter().map(|(k, v)| (k, match v {
            serde_json::Value::String(s) => JsonVal::Str(s),
            serde_json::Value::Array(a) => JsonVal::List(a.into_iter().map(|e| match e {
                serde_json::Value::String(s) => JsonElem::Str(s),
                _ => JsonElem::Other,
            }).collect()),
            _ => JsonVal::Other,
        })).collect())),
        Ok(_) => Some(JsonTop::NotObj),
    }
}

/// The value of the first member named `k`, when one is present.
pub open spec fn json_get(entries: Seq<(String, JsonVal)>, k: Seq<char>) -> Option<JsonVal>
    decreases entries.len(),
{
    if entries.len() == 0 {
        None
    } else if entries[0].0@ == k {
        Some(entries[0].1)
    } else {
        json_get(entries.drop_first(), k)
    }
}

/// Looks up the first member named `k`.
pub fn json_field<'a>(entries: &'a Vec<(String, JsonVal)>, k: &str) -> (r: Option<&'a JsonVal>)
    ensures
        match r {
            Some(v) => json_get(entries@, k@) == Some(*v),
            None => json_get(entries@, k@) is None,
        },
{
    let n = entries.len();
    let mut i: usize = 0;
    proof {
        assert(entries@.skip(0) =~= entries@);
    }
    while i < n
        invariant
            n == entries@.len(),
            i <= n,
            json_get(entries@, k@) == json_get(entries@.skip(i as int), k@),
        decreases n - i,
    {
        proof {
            assert(entries@.skip(i as int)[0] == entries@[i as int]);
            assert(entries@.skip(i as int).drop_first() =~= entries@.skip(i as int + 1));
        }
        if crate::strings::str_eq(entries[i].0.as_str(), k) {
            return Some(&entries[i].1);
        }
        i += 1;
    }
    proof {
        assert(entries@.skip(n as int).len() == 0);
    }
    None
}

} // verus!
