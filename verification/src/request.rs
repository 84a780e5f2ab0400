//! Decoding one inbound gateway message into a structured request.
//!
//! A message is three space-delimited tokens — sender uuid, connection
//! id, request path — followed immediately by two self-delimiting wire
//! values: the headers and the body.  There is no separator between the
//! two values; the wire framing tells them apart.  Headers usually
//! arrive as a wire dictionary, but may arrive as a wire string holding
//! JSON object text.  When the decoded headers carry `METHOD` with the
//! single value `JSON`, the body must itself be JSON object text, kept
//! as [`Request::json_body`].
//!
//! Every failure is a typed [`Error`] returned to the caller; decoding
//! never panics, whatever bytes arrive.

use vstd::prelude::*;
use vstd::string::StrSliceExecFns;
use vstd::utf8::decode_utf8;
use vstd::utf8::encode_utf8;
use vstd::utf8::valid_utf8;

use crate::headers::headers_wf;
use crate::headers::lemma_add_all_wf;
use crate::headers::spec_add_all;
use crate::headers::spec_get;
use crate::headers::Headers;
use crate::json::json_get;
use crate::json::json_parse;
use crate::json::json_top_of;
use crate::json::JsonElem;
use crate::json::JsonTop;
use crate::json::JsonVal;
use crate::strings::lemma_recovered_string;
use crate::strings::str_eq;
use crate::strings::string_from_utf8;
use crate::tnetstring::decode;
use crate::tnetstring::encode;
use crate::tnetstring::items_view;
use crate::tnetstring::pairs_view;
use crate::tnetstring::spec_decode;
use crate::tnetstring::spec_encode;
use crate::tnetstring::CodecErr;
use crate::tnetstring::EntryModel;
use crate::tnetstring::ItemModel;
use crate::tnetstring::ValModel;
use crate::tnetstring::WireEntry;
use crate::tnetstring::WireItem;
use crate::tnetstring::WireVal;

verus! {

/// Why a message or reply could not be handled.
#[derive(Debug, Clone, PartialEq, Eq)]
pub enum Error {
    /// No space delimiter ends the sender uuid, or its bytes are not a
    /// string.
    InvalidSenderUuid,
    /// No space delimiter ends the connection id, or its bytes are not
    /// a string.
    InvalidConnectionId,
    /// No space delimiter ends the path, or its bytes are not a string.
    InvalidPath,
    /// Nothing stands at the headers position, or the value there is
    /// neither a dictionary nor a string.
    InvalidHeaders,
    /// The headers arrived as JSON text whose top level is not an
    /// object.
    HeaderIsNotADictionary,
    /// A header key or value that is not a string, or not a list of
    /// strings.
    HeaderValueIsNotAString,
    /// Nothing stands at the body position.
    EmptyBody,
    /// The value at the body position is not a string.
    InvalidBody,
    /// The `METHOD` header asks for JSON but the body's top-level JSON
    /// value is not an object.
    JsonBodyIsNotADictionary,
    /// The wire codec rejected a value.
    CodecError(CodecErr),
    /// Text that should have been JSON did not parse.
    JsonError,
    /// The transport layer failed; the channel's own message.
    TransportError(String),
}

/// One decoded inbound request.
#[derive(Debug, Clone, PartialEq, Eq)]
pub struct Request {
    /// The uuid of the gateway instance that sent the message.
    pub uuid: String,
    /// The id of the client connection at the gateway.
    pub id: String,
    /// The request path.
    pub path: String,
    /// The header multimap.
    pub headers: Headers,
    /// The body bytes, exactly as framed on the wire.
    pub body: Vec<u8>,
    /// The body parsed as a JSON object, present exactly when the
    /// headers carry `METHOD` with the single value `JSON`.
    pub json_body: Option<Vec<(String, JsonVal)>>,
}

/// The mathematical model of a request.
pub struct RequestModel {
    /// Sender uuid.
    pub uuid: Seq<char>,
    /// Connection id.
    pub id: Seq<char>,
    /// Request path.
    pub path: Seq<char>,
    /// Header entries: keys with their value lists, in arrival order.
    pub headers: Seq<(Seq<char>, Seq<Seq<char>>)>,
    /// Body bytes.
    pub body: Seq<u8>,
    /// The members of the JSON body object, when one is required.
    pub json_body: Option<Seq<(String, JsonVal)>>,
}

impl View for Request {
    type V = RequestModel;

    open spec fn view(&self) -> RequestModel {
        RequestModel {
            uuid: self.uuid@,
            id: self.id@,
            path: self.path@,
            headers: self.headers@,
            body: self.body@,
            json_body: match self.json_body {
                Some(v) => Some(v@),
                None => None,
            },
        }
    }
}

/// Position of the first space byte at or after `from`.
pub open spec fn find_space(s: Seq<u8>, from: int) -> Option<int>
    recommends
        0 <= from <= s.len(),
    decreases s.len() - from,
{
    if from >= s.len() {
        None
    } else if s[from] == 32 {
        Some(from)
    } else {
        find_space(s, from + 1)
    }
}

/// What `find_space` finds: the first space, or none anywhere after
/// `from`.
pub proof fn lemma_find_space(s: Seq<u8>, from: int)
    requires
        0 <= from <= s.len(),
    ensures
        match find_space(s, from) {
            Some(i) => from <= i < s.len() && s[i] == 32 && forall|j: int|
                from <= j < i ==> s[j] != 32,
            None => forall|j: int| from <= j < s.len() ==> s[j] != 32,
        },
    decreases s.len() - from,
{
    if from < s.len() && s[from] != 32 {
        lemma_find_space(s, from + 1);
    }
}

/// Where a space stands right after a space-free run, the scan finds
/// it.
pub proof fn lemma_find_space_at(s: Seq<u8>, from: int, i: int)
    requires
        0 <= from <= i < s.len(),
        s[i] == 32,
        forall|j: int| from <= j < i ==> s[j] != 32,
    ensures
        find_space(s, from) == Some(i),
    decreases i - from,
{
    if from < i {
        lemma_find_space_at(s, from + 1, i);
    }
}

/// With no space at or after `from`, the scan finds none.
pub proof fn lemma_find_space_none(s: Seq<u8>, from: int)
    requires
        0 <= from <= s.len(),
        forall|j: int| from <= j < s.len() ==> s[j] != 32,
    ensures
        find_space(s, from) is None,
    decreases s.len() - from,
{
    if from < s.len() {
        lemma_find_space_none(s, from + 1);
    }
}

/// One space-delimited token: the characters of the bytes before the
/// first space, and the position right after that space.  There is no
/// token without a space, nor where the bytes are not a string.
pub open spec fn spec_token(s: Seq<u8>, from: int) -> Option<(Seq<char>, int)>
    recommends
        0 <= from <= s.len(),
{
    match find_space(s, from) {
        None => None,
        Some(i) => if valid_utf8(s.subrange(from, i)) {
            Some((decode_utf8(s.subrange(from, i)), i + 1))
        } else {
            None
        },
    }
}

/// Reads one space-delimited token starting at `start`.
pub fn read_str(msg: &[u8], start: usize) -> (r: Option<(String, usize)>)
    requires
        start <= msg@.len(),
    ensures
        match (r, spec_token(msg@, start as int)) {
            (Some(t), Some(m)) => t.0@ == m.0 && t.1 == m.1 && t.1 <= msg@.len(),
            (None, None) => true,
            _ => false,
        },
{
    let ghost s = msg@;
    let mut i = start;
    while i < msg.len() && msg[i] != 32
        invariant
            start <= i <= msg@.len(),
            find_space(s, start as int) == find_space(s, i as int),
            s == msg@,
        decreases msg@.len() - i,
    {
        proof {
            assert(find_space(s, i as int) == find_space(s, i as int + 1));
        }
        i += 1;
    }
    if i == msg.len() {
        proof {
            assert(find_space(s, i as int) is None);
        }
        return None;
    }
    proof {
        assert(find_space(s, start as int) == Some(i as int));
    }
    let token = vstd::slice::slice_to_vec(&msg[start..i]);
    match string_from_utf8(token) {
        None => None,
        Some(t) => {
            proof {
                lemma_recovered_string(t@, s.subrange(start as int, i as int));
            }
            Some((t, i + 1))
        },
    }
}

/// Reads the sender uuid token.
pub fn parse_uuid(msg: &[u8], start: usize) -> (r: Result<(String, usize), Error>)
    requires
        start <= msg@.len(),
    ensures
        match (r, spec_token(msg@, start as int)) {
            (Ok(t), Some(m)) => t.0@ == m.0 && t.1 == m.1 && t.1 <= msg@.len(),
            (Err(e), None) => e == Error::InvalidSenderUuid,
            _ => false,
        },
{
    match read_str(msg, start) {
        Some(t) => Ok(t),
        None => Err(Error::InvalidSenderUuid),
    }
}

/// Reads the connection id token.
pub fn parse_id(msg: &[u8], start: usize) -> (r: Result<(String, usize), Error>)
    requires
        start <= msg@.len(),
    ensures
        match (r, spec_token(msg@, start as int)) {
            (Ok(t), Some(m)) => t.0@ == m.0 && t.1 == m.1 && t.1 <= msg@.len(),
            (Err(e), None) => e == Error::InvalidConnectionId,
            _ => false,
        },
{
    match read_str(msg, start) {
        Some(t) => Ok(t),
        None => Err(Error::InvalidConnectionId),
    }
}

/// Reads the path token.
pub fn parse_path(msg: &[u8], start: usize) -> (r: Result<(String, usize), Error>)
    requires
        start <= msg@.len(),
    ensures
        match (r, spec_token(msg@, start as int)) {
            (Ok(t), Some(m)) => t.0@ == m.0 && t.1 == m.1 && t.1 <= msg@.len(),
            (Err(e), None) => e == Error::InvalidPath,
            _ => false,
        },
{
    match read_str(msg, start) {
        Some(t) => Ok(t),
        None => Err(Error::InvalidPath),
    }
}

/// The strings of a run of decoded list elements; every element must be
/// a string.
pub open spec fn items_values(its: Seq<ItemModel>) -> Result<Seq<Seq<char>>, Error>
    decreases its.len(),
{
    if its.len() == 0 {
        Ok(Seq::empty())
    } else {
        match its[0] {
            ItemModel::Str(b) => if valid_utf8(b) {
                match items_values(its.drop_first()) {
                    Ok(rest) => Ok(seq![decode_utf8(b)] + rest),
                    Err(e) => Err(e),
                }
            } else {
                Err(Error::HeaderValueIsNotAString)
            },
            ItemModel::Other(_) => Err(Error::HeaderValueIsNotAString),
        }
    }
}

/// The strings of one dictionary value: one for a string, each
/// element's for a list, and an error for any other shape.
pub open spec fn entry_values(e: EntryModel) -> Result<Seq<Seq<char>>, Error> {
    match e {
        EntryModel::Str(b) => if valid_utf8(b) {
            Ok(seq![decode_utf8(b)])
        } else {
            Err(Error::HeaderValueIsNotAString)
        },
        EntryModel::List(its) => items_values(its),
        EntryModel::Other(_) => Err(Error::HeaderValueIsNotAString),
    }
}

/// Folds decoded dictionary pairs into headers, in wire order: each
/// key's strings are appended under the key.  A key that is not a
/// string, or a value of the wrong shape, stops the fold.
pub open spec fn tnet_headers(
    prs: Seq<(Seq<u8>, EntryModel)>,
    acc: Seq<(Seq<char>, Seq<Seq<char>>)>,
) -> Result<Seq<(Seq<char>, Seq<Seq<char>>)>, Error>
    decreases prs.len(),
{
    if prs.len() == 0 {
        Ok(acc)
    } else if !valid_utf8(prs[0].0) {
        Err(Error::HeaderValueIsNotAString)
    } else {
        match entry_values(prs[0].1) {
            Err(e) => Err(e),
            Ok(vs) => tnet_headers(prs.drop_first(), spec_add_all(acc, decode_utf8(prs[0].0), vs)),
        }
    }
}

/// The strings of a run of JSON array elements; every element must be a
/// string.
pub open spec fn json_items_values(es: Seq<JsonElem>) -> Result<Seq<Seq<char>>, Error>
    decreases es.len(),
{
    if es.len() == 0 {
        Ok(Seq::empty())
    } else {
        match es[0] {
            JsonElem::Str(v) => match json_items_values(es.drop_first()) {
                Ok(rest) => Ok(seq![v@] + rest),
                Err(e) => Err(e),
            },
            JsonElem::Other => Err(Error::HeaderValueIsNotAString),
        }
    }
}

/// The strings of one JSON member value: one for a string, each
/// element's for an array, and an error for any other shape.
pub open spec fn json_entry_values(v: JsonVal) -> Result<Seq<Seq<char>>, Error> {
    match v {
        JsonVal::Str(s) => Ok(seq![s@]),
        JsonVal::List(es) => json_items_values(es@),
        JsonVal::Other => Err(Error::HeaderValueIsNotAString),
    }
}

/// Folds JSON object members into headers, in member order.
pub open spec fn json_headers(
    entries: Seq<(String, JsonVal)>,
    acc: Seq<(Seq<char>, Seq<Seq<char>>)>,
) -> Result<Seq<(Seq<char>, Seq<Seq<char>>)>, Error>
    decreases entries.len(),
{
    if entries.len() == 0 {
        Ok(acc)
    } else {
        match json_entry_values(entries[0].1) {
            Err(e) => Err(e),
            Ok(vs) => json_headers(entries.drop_first(), spec_add_all(acc, entries[0].0@, vs)),
        }
    }
}

/// The headers of the message: the wire value at `p`, which must be a
/// dictionary, or a string holding JSON object text; and the position
/// after it.
pub open spec fn spec_headers_value(s: Seq<u8>, p: int) -> Result<
    (Seq<(Seq<char>, Seq<Seq<char>>)>, int),
    Error,
>
    recommends
        0 <= p <= s.len(),
{
    if p >= s.len() {
        Err(Error::InvalidHeaders)
    } else {
        match spec_decode(s, p, s.len() as int) {
            Err(e) => Err(Error::CodecError(e)),
            Ok((v, end)) => match v {
                ValModel::Dict(prs) => match tnet_headers(prs, Seq::empty()) {
                    Ok(h) => Ok((h, end)),
                    Err(e) => Err(e),
                },
                ValModel::Str(b) => match json_top_of(b) {
                    None => Err(Error::JsonError),
                    Some(JsonTop::NotObj) => Err(Error::HeaderIsNotADictionary),
                    Some(JsonTop::Obj(entries)) => match json_headers(entries@, Seq::empty()) {
                        Ok(h) => Ok((h, end)),
                        Err(e) => Err(e),
                    },
                },
                _ => Err(Error::InvalidHeaders),
            },
        }
    }
}

/// The body of the message: the wire value at `p`, which must be a
/// string; and the position after it.
pub open spec fn spec_body_value(s: Seq<u8>, p: int) -> Result<(Seq<u8>, int), Error>
    recommends
        0 <= p <= s.len(),
{
    if p >= s.len() {
        Err(Error::EmptyBody)
    } else {
        match spec_decode(s, p, s.len() as int) {
            Err(e) => Err(Error::CodecError(e)),
            Ok((ValModel::Str(b), end)) => Ok((b, end)),
            Ok(_) => Err(Error::InvalidBody),
        }
    }
}

/// True when the headers carry `METHOD` with the single value `JSON`,
/// which obliges the body to be JSON object text.
pub open spec fn wants_json_body(h: Seq<(Seq<char>, Seq<Seq<char>>)>) -> bool {
    spec_get(h, "METHOD"@) == Some(seq!["JSON"@])
}

/// What parsing an inbound message yields, for every byte sequence:
/// either the model of the request, or the error naming the first thing
/// wrong with the message.
pub open spec fn spec_parse(s: Seq<u8>) -> Result<RequestModel, Error> {
    match spec_token(s, 0) {
        None => Err(Error::InvalidSenderUuid),
        Some((uuid, p1)) => match spec_token(s, p1) {
            None => Err(Error::InvalidConnectionId),
            Some((id, p2)) => match spec_token(s, p2) {
                None => Err(Error::InvalidPath),
                Some((path, p3)) => match spec_headers_value(s, p3) {
                    Err(e) => Err(e),
                    Ok((headers, p4)) => match spec_body_value(s, p4) {
                        Err(e) => Err(e),
                        Ok((body, _)) => if wants_json_body(headers) {
                            match json_top_of(body) {
                                None => Err(Error::JsonError),
                                Some(JsonTop::NotObj) => Err(Error::JsonBodyIsNotADictionary),
                                Some(JsonTop::Obj(entries)) => Ok(
                                    RequestModel {
                                        uuid,
                                        id,
                                        path,
                                        headers,
                                        body,
                                        json_body: Some(entries@),
                                    },
                                ),
                            }
                        } else {
                            Ok(RequestModel { uuid, id, path, headers, body, json_body: None })
                        },
                    },
                },
            },
        },
    }
}

/// Converts the elements of a decoded list into strings.
fn items_to_values(items: &Vec<WireItem>) -> (r: Result<Vec<String>, Error>)
    ensures
        match (r, items_values(items_view(items@))) {
            (Ok(vs), Ok(m)) => vs.deep_view() == m,
            (Err(a), Err(b)) => a == b,
            _ => false,
        },
{
    let ghost full = items_view(items@);
    let mut vs: Vec<String> = Vec::new();
    let mut k: usize = 0;
    proof {
        assert(full.skip(0) =~= full);
    }
    while k < items.len()
        invariant
            k <= items@.len(),
            full == items_view(items@),
            items_values(full) == (match items_values(full.skip(k as int)) {
                Ok(rest) => Ok::<Seq<Seq<char>>, Error>(vs.deep_view() + rest),
                Err(e) => Err::<Seq<Seq<char>>, Error>(e),
            }),
        decreases items@.len() - k,
    {
        proof {
            assert(full.skip(k as int)[0] == full[k as int]);
            assert(full.skip(k as int).drop_first() =~= full.skip(k as int + 1));
        }
        match &items[k] {
            WireItem::Str(b) => {
                match string_from_utf8(vstd::slice::slice_to_vec(b.as_slice())) {
                    None => {
                        return Err(Error::HeaderValueIsNotAString);
                    },
                    Some(t) => {
                        proof {
                            lemma_recovered_string(t@, b@);
                            assert(vs.deep_view().push(t@) =~= vs.deep_view() + seq![t@]);
                            assert forall|rest: Seq<Seq<char>>|
                                vs.deep_view().push(t@) + rest =~= vs.deep_view() + (seq![t@]
                                    + rest) by {}
                        }
                        let ghost vs0 = vs.deep_view();
                        vs.push(t);
                        proof {
                            assert(vs.deep_view() =~= vs0.push(t@));
                        }
                    },
                }
            },
            WireItem::Other(_) => {
                return Err(Error::HeaderValueIsNotAString);
            },
        }
        k += 1;
    }
    proof {
        assert(full.skip(k as int).len() == 0);
        assert(vs.deep_view() + Seq::<Seq<char>>::empty() =~= vs.deep_view());
    }
    Ok(vs)
}

/// Converts one decoded dictionary value into its strings.
fn entry_to_values(e: &WireEntry) -> (r: Result<Vec<String>, Error>)
    ensures
        match (r, entry_values(e@)) {
            (Ok(vs), Ok(m)) => vs.deep_view() == m,
            (Err(a), Err(b)) => a == b,
            _ => false,
        },
{
    match e {
        WireEntry::Str(b) => match string_from_utf8(vstd::slice::slice_to_vec(b.as_slice())) {
            None => Err(Error::HeaderValueIsNotAString),
            Some(t) => {
                proof {
                    lemma_recovered_string(t@, b@);
                }
                let mut vs: Vec<String> = Vec::new();
                vs.push(t);
                proof {
                    assert(vs.deep_view() =~= seq![decode_utf8(b@)]);
                }
                Ok(vs)
            },
        },
        WireEntry::List(items) => items_to_values(items),
        WireEntry::Other(_) => Err(Error::HeaderValueIsNotAString),
    }
}

/// Builds the header multimap from a decoded wire dictionary.
pub fn parse_tnetstring_headers(pairs: Vec<(Vec<u8>, WireEntry)>) -> (r: Result<Headers, Error>)
    ensures
        match (r, tnet_headers(pairs_view(pairs@), Seq::empty())) {
            (Ok(h), Ok(m)) => h@ == m,
            (Err(a), Err(b)) => a == b,
            _ => false,
        },
{
    let ghost full = pairs_view(pairs@);
    let mut headers = Headers::new();
    let mut k: usize = 0;
    proof {
        assert(full.skip(0) =~= full);
    }
    while k < pairs.len()
        invariant
            k <= pairs@.len(),
            full == pairs_view(pairs@),
            tnet_headers(full, Seq::empty()) == tnet_headers(full.skip(k as int), headers@),
        decreases pairs@.len() - k,
    {
        proof {
            assert(full.skip(k as int)[0] == full[k as int]);
            assert(full.skip(k as int).drop_first() =~= full.skip(k as int + 1));
        }
        let key = match string_from_utf8(vstd::slice::slice_to_vec(pairs[k].0.as_slice())) {
            None => {
                return Err(Error::HeaderValueIsNotAString);
            },
            Some(t) => t,
        };
        proof {
            lemma_recovered_string(key@, pairs@[k as int].0@);
        }
        let vs = match entry_to_values(&pairs[k].1) {
            Err(e) => {
                return Err(e);
            },
            Ok(vs) => vs,
        };
        headers.add_values(key, vs);
        k += 1;
    }
    proof {
        assert(full.skip(k as int).len() == 0);
    }
    Ok(headers)
}

/// Converts the elements of a JSON array into strings.
fn json_items_to_values(es: &Vec<JsonElem>) -> (r: Result<Vec<String>, Error>)
    ensures
        match (r, json_items_values(es@)) {
            (Ok(vs), Ok(m)) => vs.deep_view() == m,
            (Err(a), Err(b)) => a == b,
            _ => false,
        },
{
    let mut vs: Vec<String> = Vec::new();
    let mut k: usize = 0;
    proof {
        assert(es@.skip(0) =~= es@);
    }
    while k < es.len()
        invariant
            k <= es@.len(),
            json_items_values(es@) == (match json_items_values(es@.skip(k as int)) {
                Ok(rest) => Ok::<Seq<Seq<char>>, Error>(vs.deep_view() + rest),
                Err(e) => Err::<Seq<Seq<char>>, Error>(e),
            }),
        decreases es@.len() - k,
    {
        proof {
            assert(es@.skip(k as int)[0] == es@[k as int]);
            assert(es@.skip(k as int).drop_first() =~= es@.skip(k as int + 1));
        }
        match &es[k] {
            JsonElem::Str(v) => {
                proof {
                    assert forall|rest: Seq<Seq<char>>|
                        vs.deep_view().push(v@) + rest =~= vs.deep_view() + (seq![v@] + rest) by {}
                }
                let ghost vs0 = vs.deep_view();
                vs.push(v.clone());
                proof {
                    assert(vs.deep_view() =~= vs0.push(v@));
                }
            },
            JsonElem::Other => {
                return Err(Error::HeaderValueIsNotAString);
            },
        }
        k += 1;
    }
    proof {
        assert(es@.skip(k as int).len() == 0);
        assert(vs.deep_view() + Seq::<Seq<char>>::empty() =~= vs.deep_view());
    }
    Ok(vs)
}

/// Converts one JSON member value into its strings.
fn json_value_to_values(v: &JsonVal) -> (r: Result<Vec<String>, Error>)
    ensures
        match (r, json_entry_values(*v)) {
            (Ok(vs), Ok(m)) => vs.deep_view() == m,
            (Err(a), Err(b)) => a == b,
            _ => false,
        },
{
    match v {
        JsonVal::Str(t) => {
            let mut vs: Vec<String> = Vec::new();
            vs.push(t.clone());
            proof {
                assert(vs.deep_view() =~= seq![t@]);
            }
            Ok(vs)
        },
        JsonVal::List(es) => json_items_to_values(es),
        JsonVal::Other => Err(Error::HeaderValueIsNotAString),
    }
}

/// Builds the header multimap from the members of a JSON object.
pub fn parse_json_headers(entries: &Vec<(String, JsonVal)>) -> (r: Result<Headers, Error>)
    ensures
        match (r, json_headers(entries@, Seq::empty())) {
            (Ok(h), Ok(m)) => h@ == m,
            (Err(a), Err(b)) => a == b,
            _ => false,
        },
{
    let mut headers = Headers::new();
    let mut k: usize = 0;
    proof {
        assert(entries@.skip(0) =~= entries@);
    }
    while k < entries.len()
        invariant
            k <= entries@.len(),
            json_headers(entries@, Seq::empty()) == json_headers(
                entries@.skip(k as int),
                headers@,
            ),
        decreases entries@.len() - k,
    {
        proof {
            assert(entries@.skip(k as int)[0] == entries@[k as int]);
            assert(entries@.skip(k as int).drop_first() =~= entries@.skip(k as int + 1));
        }
        let vs = match json_value_to_values(&entries[k].1) {
            Err(e) => {
                return Err(e);
            },
            Ok(vs) => vs,
        };
        headers.add_values(entries[k].0.clone(), vs);
        k += 1;
    }
    proof {
        assert(entries@.skip(k as int).len() == 0);
    }
    Ok(headers)
}

/// Decodes the headers value at `start`.
pub fn parse_headers(msg: &[u8], start: usize) -> (r: Result<(Headers, usize), Error>)
    requires
        start <= msg@.len(),
    ensures
        match (r, spec_headers_value(msg@, start as int)) {
            (Ok(t), Ok(m)) => t.0@ == m.0 && t.1 == m.1 && start < t.1 <= msg@.len(),
            (Err(a), Err(b)) => a == b,
            _ => false,
        },
{
    if start == msg.len() {
        return Err(Error::InvalidHeaders);
    }
    match decode(msg, start) {
        Err(e) => Err(Error::CodecError(e)),
        Ok((v, end)) => match v {
            WireVal::Dict(pairs) => match parse_tnetstring_headers(pairs) {
                Ok(h) => Ok((h, end)),
                Err(e) => Err(e),
            },
            WireVal::Str(b) => match json_parse(b.as_slice()) {
                None => Err(Error::JsonError),
                Some(JsonTop::NotObj) => Err(Error::HeaderIsNotADictionary),
                Some(JsonTop::Obj(entries)) => match parse_json_headers(&entries) {
                    Ok(h) => Ok((h, end)),
                    Err(e) => Err(e),
                },
            },
            _ => Err(Error::InvalidHeaders),
        },
    }
}

/// Decodes the body value at `start`.
pub fn parse_body(msg: &[u8], start: usize) -> (r: Result<(Vec<u8>, usize), Error>)
    requires
        start <= msg@.len(),
    ensures
        match (r, spec_body_value(msg@, start as int)) {
            (Ok(t), Ok(m)) => t.0@ == m.0 && t.1 == m.1 && start < t.1 <= msg@.len(),
            (Err(a), Err(b)) => a == b,
            _ => false,
        },
{
    if start == msg.len() {
        return Err(Error::EmptyBody);
    }
    match decode(msg, start) {
        Err(e) => Err(Error::CodecError(e)),
        Ok((WireVal::Str(b), end)) => Ok((b, end)),
        Ok(_) => Err(Error::InvalidBody),
    }
}

/// What holds of every request a parse yields: the three tokens are
/// free of the space delimiter, the header keys are pairwise distinct,
/// and every header key has at least one value.
pub open spec fn request_wf(m: RequestModel) -> bool {
    &&& !m.uuid.contains(' ')
    &&& !m.id.contains(' ')
    &&& !m.path.contains(' ')
    &&& headers_wf(m.headers)
}

/// A token never contains the space delimiter: the scan stops at the
/// first space, and a space decodes from nothing but its own byte.
proof fn lemma_token_space_free(s: Seq<u8>, from: int)
    requires
        0 <= from <= s.len(),
    ensures
        match spec_token(s, from) {
            Some(t) => !t.0.contains(' ') && from < t.1 <= s.len(),
            None => true,
        },
{
    lemma_find_space(s, from);
    match find_space(s, from) {
        None => {},
        Some(i) => {
            let sub = s.subrange(from, i);
            if valid_utf8(sub) {
                let t = decode_utf8(sub);
                if t.contains(' ') {
                    crate::strings::lemma_space_in_encode(t);
                    vstd::utf8::decode_utf8_encode_utf8(sub);
                    let j = choose|j: int| 0 <= j < encode_utf8(t).len() && encode_utf8(t)[j]
                        == 32u8;
                    assert(sub[j] == 32u8);
                    assert(s[from + j] == 32u8);
                }
            }
        },
    }
}

/// Folding dictionary pairs into well-formed headers keeps them well
/// formed.
proof fn lemma_tnet_headers_wf(prs: Seq<(Seq<u8>, EntryModel)>, acc: Seq<
    (Seq<char>, Seq<Seq<char>>),
>)
    requires
        headers_wf(acc),
    ensures
        match tnet_headers(prs, acc) {
            Ok(h) => headers_wf(h),
            Err(_) => true,
        },
    decreases prs.len(),
{
    if prs.len() > 0 && valid_utf8(prs[0].0) {
        match entry_values(prs[0].1) {
            Err(_) => {},
            Ok(vs) => {
                lemma_add_all_wf(acc, decode_utf8(prs[0].0), vs);
                lemma_tnet_headers_wf(
                    prs.drop_first(),
                    spec_add_all(acc, decode_utf8(prs[0].0), vs),
                );
            },
        }
    }
}

/// Folding JSON members into well-formed headers keeps them well
/// formed.
proof fn lemma_json_headers_wf(entries: Seq<(String, JsonVal)>, acc: Seq<
    (Seq<char>, Seq<Seq<char>>),
>)
    requires
        headers_wf(acc),
    ensures
        match json_headers(entries, acc) {
            Ok(h) => headers_wf(h),
            Err(_) => true,
        },
    decreases entries.len(),
{
    if entries.len() > 0 {
        match json_entry_values(entries[0].1) {
            Err(_) => {},
            Ok(vs) => {
                lemma_add_all_wf(acc, entries[0].0@, vs);
                lemma_json_headers_wf(
                    entries.drop_first(),
                    spec_add_all(acc, entries[0].0@, vs),
                );
            },
        }
    }
}

/// Every request the parse yields is well formed: the invariants of
/// [`request_wf`] hold of it, whatever bytes arrived.
pub proof fn lemma_spec_parse_wf(s: Seq<u8>)
    ensures
        match spec_parse(s) {
            Ok(m) => request_wf(m),
            Err(_) => true,
        },
{
    lemma_token_space_free(s, 0);
    match spec_token(s, 0) {
        None => {},
        Some((_, p1)) => {
            lemma_token_space_free(s, p1);
            match spec_token(s, p1) {
                None => {},
                Some((_, p2)) => {
                    lemma_token_space_free(s, p2);
                    match spec_token(s, p2) {
                        None => {},
                        Some((_, p3)) => {
                            if p3 < s.len() {
                                match spec_decode(s, p3, s.len() as int) {
                                    Err(_) => {},
                                    Ok((v, _)) => match v {
                                        ValModel::Dict(prs) => {
                                            lemma_tnet_headers_wf(prs, Seq::empty());
                                        },
                                        ValModel::Str(b) => match json_top_of(b) {
                                            Some(JsonTop::Obj(entries)) => {
                                                lemma_json_headers_wf(entries@, Seq::empty());
                                            },
                                            _ => {},
                                        },
                                        _ => {},
                                    },
                                }
                            }
                        },
                    }
                },
            }
        },
    }
}

/// Decodes one whole inbound message, as [`spec_parse`] states: three
/// space-delimited tokens, the headers value, the body value, and the
/// JSON body exactly when the headers ask for it.  What comes back is
/// well formed: see [`request_wf`].
pub fn parse(msg: &[u8]) -> (r: Result<Request, Error>)
    ensures
        match (r, spec_parse(msg@)) {
            (Ok(req), Ok(m)) => req@ == m,
            (Err(a), Err(b)) => a == b,
            _ => false,
        },
        r matches Ok(req) ==> request_wf(req@),
{
    proof {
        lemma_spec_parse_wf(msg@);
    }
    let (uuid, p1) = match parse_uuid(msg, 0) {
        Ok(t) => t,
        Err(e) => {
            return Err(e);
        },
    };
    let (id, p2) = match parse_id(msg, p1) {
        Ok(t) => t,
        Err(e) => {
            return Err(e);
        },
    };
    let (path, p3) = match parse_path(msg, p2) {
        Ok(t) => t,
        Err(e) => {
            return Err(e);
        },
    };
    let (headers, p4) = match parse_headers(msg, p3) {
        Ok(t) => t,
        Err(e) => {
            return Err(e);
        },
    };
    let (body, _p5) = match parse_body(msg, p4) {
        Ok(t) => t,
        Err(e) => {
            return Err(e);
        },
    };
    let json_body = if single_value_is(&headers, "METHOD", "JSON") {
        match json_parse(body.as_slice()) {
            None => {
                return Err(Error::JsonError);
            },
            Some(JsonTop::NotObj) => {
                return Err(Error::JsonBodyIsNotADictionary);
            },
            Some(JsonTop::Obj(entries)) => Some(entries),
        }
    } else {
        None
    };
    Ok(Request { uuid, id, path, headers, body, json_body })
}

/// The wire dictionary a header map is framed as: each entry a string
/// key and the list of its values.
pub open spec fn headers_wire_pairs(h: Seq<(Seq<char>, Seq<Seq<char>>)>) -> Seq<
    (Seq<u8>, EntryModel),
> {
    h.map_values(
        |e: (Seq<char>, Seq<Seq<char>>)|
            (
                encode_utf8(e.0),
                EntryModel::List(e.1.map_values(|v: Seq<char>| ItemModel::Str(encode_utf8(v)))),
            ),
    )
}

/// The canonical wire form of a request: the three tokens, each ended
/// by a space, then the headers as a wire dictionary and the body as a
/// wire string, back to back.
pub open spec fn request_wire(
    uuid: Seq<char>,
    id: Seq<char>,
    path: Seq<char>,
    h: Seq<(Seq<char>, Seq<Seq<char>>)>,
    body: Seq<u8>,
) -> Seq<u8> {
    encode_utf8(uuid) + seq![32u8] + encode_utf8(id) + seq![32u8] + encode_utf8(path) + seq![32u8]
        + spec_encode(ValModel::Dict(headers_wire_pairs(h))) + spec_encode(ValModel::Str(body))
}

/// Frames a request's fields as one inbound message, in the canonical
/// wire form that [`request_wire`] states and [`parse`] reads back.
pub fn encode_request(uuid: &str, id: &str, path: &str, headers: &Headers, body: &[u8]) -> (r: Vec<
    u8,
>)
    ensures
        r@ == request_wire(uuid@, id@, path@, headers@, body@),
{
    let ghost h = headers@;
    let mut out = uuid.as_bytes_vec();
    out.push(32);
    let mut ib = id.as_bytes_vec();
    out.append(&mut ib);
    out.push(32);
    let mut pb = path.as_bytes_vec();
    out.append(&mut pb);
    out.push(32);
    let mut pairs: Vec<(Vec<u8>, WireEntry)> = Vec::new();
    let n = headers.len();
    let mut i: usize = 0;
    proof {
        assert(pairs_view(pairs@) =~= headers_wire_pairs(h).take(0));
    }
    while i < n
        invariant
            i <= n,
            n == h.len(),
            h == headers@,
            pairs_view(pairs@) == headers_wire_pairs(h).take(i as int),
        decreases n - i,
    {
        let key = headers.key_at(i);
        let vals = headers.values_at(i);
        let kb = key.as_str().as_bytes_vec();
        let mut items: Vec<WireItem> = Vec::new();
        let m = vals.len();
        let mut j: usize = 0;
        while j < m
            invariant
                j <= m,
                m == vals@.len(),
                vals.deep_view() == h[i as int].1,
                i < h.len(),
                h == headers@,
                items@.len() == j,
                forall|q: int|
                    0 <= q < j ==> (#[trigger] items@[q])@ == ItemModel::Str(
                        encode_utf8(h[i as int].1[q]),
                    ),
            decreases m - j,
        {
            let vb = vals[j].as_str().as_bytes_vec();
            items.push(WireItem::Str(vb));
            j += 1;
        }
        proof {
            assert(items_view(items@) =~= h[i as int].1.map_values(
                |v: Seq<char>| ItemModel::Str(encode_utf8(v)),
            ));
            assert(headers_wire_pairs(h)[i as int] == (
                encode_utf8(h[i as int].0),
                EntryModel::List(
                    h[i as int].1.map_values(|v: Seq<char>| ItemModel::Str(encode_utf8(v))),
                ),
            ));
            assert(kb@ == encode_utf8(h[i as int].0));
        }
        let ghost pairs0 = pairs@;
        pairs.push((kb, WireEntry::List(items)));
        proof {
            assert(pairs@[pairs0.len() as int].0@ == encode_utf8(h[i as int].0));
            assert(pairs@[pairs0.len() as int].1@ == headers_wire_pairs(h)[i as int].1);
            assert(pairs0.len() == i) by {
                assert(pairs_view(pairs0).len() == pairs0.len());
                assert(headers_wire_pairs(h).take(i as int).len() == i);
            }
            assert(pairs@.len() == i + 1);
            assert forall|q: int|
                0 <= q < i + 1 implies pairs_view(pairs@)[q] == headers_wire_pairs(h).take(
                i as int + 1,
            )[q] by {
                if q < i {
                    assert(pairs@[q] == pairs0[q]);
                    assert(pairs_view(pairs0)[q] == headers_wire_pairs(h).take(i as int)[q]);
                    assert(pairs_view(pairs@)[q] == pairs_view(pairs0)[q]);
                } else {
                    assert(pairs_view(pairs@)[q].0 == headers_wire_pairs(h)[q].0);
                    assert(pairs_view(pairs@)[q].1 == headers_wire_pairs(h)[q].1);
                    assert(pairs_view(pairs@)[q] =~= headers_wire_pairs(h)[q]);
                }
            }
            assert(pairs_view(pairs@) =~= headers_wire_pairs(h).take(i as int + 1));
        }
        i += 1;
    }
    proof {
        assert(headers_wire_pairs(h).take(n as int) =~= headers_wire_pairs(h));
    }
    let dict = WireVal::Dict(pairs);
    proof {
        assert(crate::tnetstring::encodable(dict@)) by {
            let prs = headers_wire_pairs(h);
            assert forall|q: int| 0 <= q < prs.len() implies crate::tnetstring::entry_encodable(
                (#[trigger] prs[q]).1,
            ) by {
                let its = h[q].1.map_values(|v: Seq<char>| ItemModel::Str(encode_utf8(v)));
                assert(forall|w: int| 0 <= w < its.len() ==> (#[trigger] its[w]) is Str);
            }
        }
    }
    let mut db = match encode(&dict) {
        Some(b) => b,
        None => {
            proof {
                assert(false);
            }
            Vec::new()
        },
    };
    out.append(&mut db);
    let bodyv = vstd::slice::slice_to_vec(body);
    let sval = WireVal::Str(bodyv);
    let mut bb = match encode(&sval) {
        Some(b) => b,
        None => {
            proof {
                assert(false);
            }
            Vec::new()
        },
    };
    out.append(&mut bb);
    proof {
        assert(out@ =~= request_wire(uuid@, id@, path@, headers@, body@));
    }
    out
}

/// True when the present JSON body's `type` member is the string
/// `disconnect`.
pub open spec fn spec_is_disconnect(m: RequestModel) -> bool {
    match m.json_body {
        Some(entries) => match json_get(entries, "type"@) {
            Some(JsonVal::Str(t)) => t@ == "disconnect"@,
            _ => false,
        },
        None => false,
    }
}

/// True when the request closes the client connection: a `connection`
/// header of exactly `close`, or, failing that, a `VERSION` header of
/// exactly `HTTP/1.0`.
pub open spec fn spec_should_close(h: Seq<(Seq<char>, Seq<Seq<char>>)>) -> bool {
    if spec_get(h, "connection"@) == Some(seq!["close"@]) {
        true
    } else {
        spec_get(h, "VERSION"@) == Some(seq!["HTTP/1.0"@])
    }
}

/// Decides whether a single-valued header equals the given value.
fn single_value_is(headers: &Headers, key: &str, value: &str) -> (r: bool)
    ensures
        r == (spec_get(headers@, key@) == Some(seq![value@])),
{
    match headers.get(key) {
        None => {
            proof {
                assert(spec_get(headers@, key@) != Some(seq![value@]));
            }
            false
        },
        Some(vs) => {
            let r = vs.len() == 1 && str_eq(vs[0].as_str(), value);
            proof {
                if r {
                    assert(vs.deep_view() =~= seq![value@]);
                } else {
                    if vs.deep_view() == seq![value@] {
                        assert(vs.deep_view().len() == 1);
                        assert(vs.deep_view()[0] == value@);
                    }
                }
            }
            r
        },
    }
}

impl Request {
    /// True when this request tells the handler that the client hung
    /// up: the JSON body is present and its `type` member is exactly
    /// the string `disconnect`.
    pub fn is_disconnect(&self) -> (r: bool)
        ensures
            r == spec_is_disconnect(self@),
    {
        match &self.json_body {
            None => false,
            Some(entries) => match crate::json::json_field(entries, "type") {
                Some(JsonVal::Str(t)) => str_eq(t.as_str(), "disconnect"),
                _ => false,
            },
        }
    }

    /// True when the reply to this request should end the connection:
    /// the `connection` header is exactly `close`, or otherwise the
    /// `VERSION` header is exactly `HTTP/1.0`.
    pub fn should_close(&self) -> (r: bool)
        ensures
            r == spec_should_close(self@.headers),
    {
        if single_value_is(&self.headers, "connection", "close") {
            true
        } else {
            single_value_is(&self.headers, "VERSION", "HTTP/1.0")
        }
    }
}

} // verus!
