//! The decoder's guarantees, stated whole and proved.
//!
//! The central law is the round trip: a message framed from any
//! space-free tokens, any well-formed header map and any body bytes
//! decodes back to exactly those fields.  Beside it stand the laws for
//! messages that are wrong from the start: a missing token delimiter
//! names the token it ends, and a `METHOD: JSON` request whose body is
//! not JSON object text is refused, never quietly accepted.

use vstd::prelude::*;
use vstd::utf8::encode_utf8;
use vstd::utf8::encode_utf8_decode_utf8;
use vstd::utf8::encode_utf8_valid_utf8;

use crate::digits::lemma_dec_digits_are_digits;
use crate::headers::headers_wf;
use crate::headers::lemma_key_index_first;
use crate::headers::spec_add_all;
use crate::json::json_top_of;
use crate::json::JsonTop;
use crate::request::entry_values;
use crate::request::headers_wire_pairs;
use crate::request::items_values;
use crate::request::lemma_find_space_at;
use crate::request::lemma_find_space_none;
use crate::request::request_wire;
use crate::request::spec_body_value;
use crate::request::spec_headers_value;
use crate::request::spec_parse;
use crate::request::spec_token;
use crate::request::tnet_headers;
use crate::request::wants_json_body;
use crate::request::Error;
use crate::request::RequestModel;
use crate::strings::lemma_space_free_encode;
use crate::tnetstring::encodable;
use crate::tnetstring::entry_encodable;
use crate::tnetstring::lemma_concat_subranges;
use crate::tnetstring::lemma_spec_encode_decode;
use crate::tnetstring::spec_decode;
use crate::tnetstring::spec_encode;
use crate::tnetstring::EntryModel;
use crate::tnetstring::ItemModel;
use crate::tnetstring::ValModel;

verus! {

/// Reading strings back out of their wire-string re-encodings gives
/// them back.
proof fn lemma_items_values_enc(vs: Seq<Seq<char>>)
    ensures
        items_values(vs.map_values(|v: Seq<char>| ItemModel::Str(encode_utf8(v))))
            == Ok::<Seq<Seq<char>>, Error>(vs),
    decreases vs.len(),
{
    let m = vs.map_values(|v: Seq<char>| ItemModel::Str(encode_utf8(v)));
    if vs.len() == 0 {
        assert(vs =~= Seq::<Seq<char>>::empty());
    } else {
        assert(m[0] == ItemModel::Str(encode_utf8(vs[0])));
        encode_utf8_valid_utf8(vs[0]);
        encode_utf8_decode_utf8(vs[0]);
        assert(m.drop_first() =~= vs.drop_first().map_values(
            |v: Seq<char>| ItemModel::Str(encode_utf8(v)),
        ));
        lemma_items_values_enc(vs.drop_first());
        assert(seq![vs[0]] + vs.drop_first() =~= vs);
    }
}

/// Folding the wire dictionary of a well-formed header map rebuilds
/// the map: each key is fresh when its entry arrives, so entry order
/// and value order both survive.
proof fn lemma_tnet_headers_build(h: Seq<(Seq<char>, Seq<Seq<char>>)>, k: int)
    requires
        headers_wf(h),
        0 <= k <= h.len(),
    ensures
        tnet_headers(headers_wire_pairs(h).skip(k), h.take(k)) == Ok::<
            Seq<(Seq<char>, Seq<Seq<char>>)>,
            Error,
        >(h),
    decreases h.len() - k,
{
    let hw = headers_wire_pairs(h);
    assert(hw.len() == h.len());
    if k == h.len() {
        assert(hw.skip(k).len() == 0);
        assert(h.take(k) =~= h);
    } else {
        let prs = hw.skip(k);
        assert(prs[0] == hw[k]);
        assert(hw[k] == (
            encode_utf8(h[k].0),
            EntryModel::List(h[k].1.map_values(|v: Seq<char>| ItemModel::Str(encode_utf8(v)))),
        ));
        encode_utf8_valid_utf8(h[k].0);
        encode_utf8_decode_utf8(h[k].0);
        lemma_items_values_enc(h[k].1);
        assert(entry_values(prs[0].1) == Ok::<Seq<Seq<char>>, Error>(h[k].1));
        assert(forall|j: int| 0 <= j < k ==> (#[trigger] h.take(k)[j]).0 != h[k].0);
        lemma_key_index_first(h.take(k), h[k].0, k);
        assert(h[k].1.len() > 0);
        assert(spec_add_all(h.take(k), h[k].0, h[k].1) == h.take(k).push((h[k].0, h[k].1)));
        assert((h[k].0, h[k].1) =~= h[k]);
        assert(h.take(k).push(h[k]) =~= h.take(k + 1));
        assert(prs.drop_first() =~= hw.skip(k + 1));
        lemma_tnet_headers_build(h, k + 1);
    }
}

/// The shared skeleton: parsing the canonical wire form of any
/// space-free tokens, well-formed headers and body reaches the JSON
/// decision with exactly those fields.
#[verifier::rlimit(60)]
proof fn lemma_parse_wire_core(
    uuid: Seq<char>,
    id: Seq<char>,
    path: Seq<char>,
    h: Seq<(Seq<char>, Seq<Seq<char>>)>,
    body: Seq<u8>,
)
    requires
        !uuid.contains(' '),
        !id.contains(' '),
        !path.contains(' '),
        headers_wf(h),
    ensures
        spec_parse(request_wire(uuid, id, path, h, body)) == (if wants_json_body(h) {
            match json_top_of(body) {
                None => Err::<RequestModel, Error>(Error::JsonError),
                Some(JsonTop::NotObj) => Err::<RequestModel, Error>(
                    Error::JsonBodyIsNotADictionary,
                ),
                Some(JsonTop::Obj(entries)) => Ok::<RequestModel, Error>(
                    RequestModel { uuid, id, path, headers: h, body, json_body: Some(entries@) },
                ),
            }
        } else {
            Ok::<RequestModel, Error>(
                RequestModel { uuid, id, path, headers: h, body, json_body: None },
            )
        }),
{
    let s = request_wire(uuid, id, path, h, body);
    let ub = encode_utf8(uuid);
    let ib = encode_utf8(id);
    let pb = encode_utf8(path);
    let sp = seq![32u8];
    let hw = headers_wire_pairs(h);
    let hv = spec_encode(ValModel::Dict(hw));
    let bv = spec_encode(ValModel::Str(body));
    let lu = ub.len() as int;
    let li = ib.len() as int;
    let lp = pb.len() as int;
    let lh = hv.len() as int;
    let lb = bv.len() as int;
    let p1 = lu + 1;
    let p2 = lu + 1 + li + 1;
    let p3 = p2 + lp + 1;
    let p4 = p3 + lh;
    assert(s.len() == p4 + lb);
    assert(s.subrange(0, s.len() as int) =~= s);
    lemma_concat_subranges(s, 0, ub + sp + ib + sp + pb + sp + hv, bv);
    lemma_concat_subranges(s, 0, ub + sp + ib + sp + pb + sp, hv);
    lemma_concat_subranges(s, 0, ub + sp + ib + sp + pb, sp);
    lemma_concat_subranges(s, 0, ub + sp + ib + sp, pb);
    lemma_concat_subranges(s, 0, ub + sp + ib, sp);
    lemma_concat_subranges(s, 0, ub + sp, ib);
    lemma_concat_subranges(s, 0, ub, sp);
    // the three spaces
    assert(s[lu] == 32) by {
        assert(s.subrange(lu, lu + 1)[0] == s[lu]);
    }
    assert(s[p1 + li] == 32) by {
        assert(s.subrange(p1 + li, p1 + li + 1)[0] == s[p1 + li]);
    }
    assert(s[p2 + lp] == 32) by {
        assert(s.subrange(p2 + lp, p2 + lp + 1)[0] == s[p2 + lp]);
    }
    // the three tokens are space-free
    lemma_space_free_encode(uuid);
    lemma_space_free_encode(id);
    lemma_space_free_encode(path);
    assert(forall|j: int| 0 <= j < lu ==> s[j] == ub[j]) by {
        assert(forall|j: int| 0 <= j < lu ==> s.subrange(0, lu)[j] == s[j]);
    }
    assert(forall|j: int| 0 <= j < lu ==> s[j] != 32) by {
        assert forall|j: int| 0 <= j < lu implies s[j] != 32 by {
            if ub[j] == 32u8 {
                assert(ub.contains(32u8));
            }
        }
    }
    assert(forall|j: int| p1 <= j < p1 + li ==> s[j] == ib[j - p1]) by {
        assert(forall|j: int| p1 <= j < p1 + li ==> s.subrange(p1, p1 + li)[j - p1] == s[j]);
    }
    assert(forall|j: int| p1 <= j < p1 + li ==> s[j] != 32) by {
        assert forall|j: int| p1 <= j < p1 + li implies s[j] != 32 by {
            if ib[j - p1] == 32u8 {
                assert(ib.contains(32u8));
            }
        }
    }
    assert(forall|j: int| p2 <= j < p2 + lp ==> s[j] == pb[j - p2]) by {
        assert(forall|j: int| p2 <= j < p2 + lp ==> s.subrange(p2, p2 + lp)[j - p2] == s[j]);
    }
    assert(forall|j: int| p2 <= j < p2 + lp ==> s[j] != 32) by {
        assert forall|j: int| p2 <= j < p2 + lp implies s[j] != 32 by {
            if pb[j - p2] == 32u8 {
                assert(pb.contains(32u8));
            }
        }
    }
    // token one: the uuid
    lemma_find_space_at(s, 0, lu);
    encode_utf8_valid_utf8(uuid);
    encode_utf8_decode_utf8(uuid);
    assert(spec_token(s, 0) == Some((uuid, p1)));
    // token two: the id
    lemma_find_space_at(s, p1, p1 + li);
    encode_utf8_valid_utf8(id);
    encode_utf8_decode_utf8(id);
    assert(spec_token(s, p1) == Some((id, p2)));
    // token three: the path
    lemma_find_space_at(s, p2, p2 + lp);
    encode_utf8_valid_utf8(path);
    encode_utf8_decode_utf8(path);
    assert(spec_token(s, p2) == Some((path, p3)));
    // the headers value
    assert(lh >= 3) by {
        lemma_dec_digits_are_digits(crate::tnetstring::pairs_bytes(hw).len());
    }
    assert(lb >= 3) by {
        lemma_dec_digits_are_digits(body.len());
    }
    assert(encodable(ValModel::Dict(hw))) by {
        assert forall|q: int| 0 <= q < hw.len() implies entry_encodable(
            (#[trigger] hw[q]).1,
        ) by {
            let its = h[q].1.map_values(|v: Seq<char>| ItemModel::Str(encode_utf8(v)));
            assert(forall|w: int| 0 <= w < its.len() ==> (#[trigger] its[w]) is Str);
        }
    }
    lemma_spec_encode_decode(s, p3, s.len() as int, ValModel::Dict(hw));
    assert(spec_decode(s, p3, s.len() as int) == Ok::<(ValModel, int), crate::tnetstring::CodecErr>(
        (ValModel::Dict(hw), p4),
    ));
    lemma_tnet_headers_build(h, 0);
    assert(hw.skip(0) =~= hw);
    assert(h.take(0) =~= Seq::<(Seq<char>, Seq<Seq<char>>)>::empty());
    assert(tnet_headers(hw, Seq::empty()) == Ok::<Seq<(Seq<char>, Seq<Seq<char>>)>, Error>(h));
    assert(spec_headers_value(s, p3) == Ok::<(Seq<(Seq<char>, Seq<Seq<char>>)>, int), Error>(
        (h, p4),
    ));
    // the body value
    lemma_spec_encode_decode(s, p4, s.len() as int, ValModel::Str(body));
    assert(spec_body_value(s, p4) == Ok::<(Seq<u8>, int), Error>((body, s.len() as int)));
}

/// Round trip: a message framed from space-free uuid, id and path, a
/// well-formed header map that does not ask for a JSON body, and any
/// body bytes parses back to exactly those fields.
pub proof fn lemma_request_round_trip(
    uuid: Seq<char>,
    id: Seq<char>,
    path: Seq<char>,
    h: Seq<(Seq<char>, Seq<Seq<char>>)>,
    body: Seq<u8>,
)
    requires
        !uuid.contains(' '),
        !id.contains(' '),
        !path.contains(' '),
        headers_wf(h),
        !wants_json_body(h),
    ensures
        spec_parse(request_wire(uuid, id, path, h, body)) == Ok::<RequestModel, Error>(
            RequestModel { uuid, id, path, headers: h, body, json_body: None },
        ),
{
    lemma_parse_wire_core(uuid, id, path, h, body);
}

/// A message whose headers ask for a JSON body is decoded only when
/// the body is JSON object text: other bodies fail the whole decode,
/// never quietly lose the JSON body.
pub proof fn lemma_json_method_strict(
    uuid: Seq<char>,
    id: Seq<char>,
    path: Seq<char>,
    h: Seq<(Seq<char>, Seq<Seq<char>>)>,
    body: Seq<u8>,
)
    requires
        !uuid.contains(' '),
        !id.contains(' '),
        !path.contains(' '),
        headers_wf(h),
        wants_json_body(h),
    ensures
        json_top_of(body) is None ==> spec_parse(request_wire(uuid, id, path, h, body)) == Err::<
            RequestModel,
            Error,
        >(Error::JsonError),
        json_top_of(body) == Some(JsonTop::NotObj) ==> spec_parse(
            request_wire(uuid, id, path, h, body),
        ) == Err::<RequestModel, Error>(Error::JsonBodyIsNotADictionary),
        forall|entries: Vec<(String, crate::json::JsonVal)>|
            json_top_of(body) == Some(JsonTop::Obj(entries)) ==> spec_parse(
                request_wire(uuid, id, path, h, body),
            ) == Ok::<RequestModel, Error>(
                RequestModel { uuid, id, path, headers: h, body, json_body: Some(entries@) },
            ),
{
    lemma_parse_wire_core(uuid, id, path, h, body);
}

/// A message without any space delimiter has no sender uuid.
pub proof fn lemma_missing_uuid_delimiter(s: Seq<u8>)
    requires
        !s.contains(32u8),
    ensures
        spec_parse(s) == Err::<RequestModel, Error>(Error::InvalidSenderUuid),
{
    assert forall|j: int| 0 <= j < s.len() implies s[j] != 32 by {
        if s[j] == 32u8 {
            assert(s.contains(32u8));
        }
    }
    lemma_find_space_none(s, 0);
}

/// A message whose only space delimiter ends the uuid has no
/// connection id.
pub proof fn lemma_missing_id_delimiter(uuid: Seq<char>, rest: Seq<u8>)
    requires
        !uuid.contains(' '),
        !rest.contains(32u8),
    ensures
        spec_parse(encode_utf8(uuid) + seq![32u8] + rest) == Err::<RequestModel, Error>(
            Error::InvalidConnectionId,
        ),
{
    let ub = encode_utf8(uuid);
    let sp = seq![32u8];
    let s = ub + sp + rest;
    let lu = ub.len() as int;
    assert(s.subrange(0, s.len() as int) =~= s);
    lemma_concat_subranges(s, 0, ub + sp, rest);
    lemma_concat_subranges(s, 0, ub, sp);
    assert(s[lu] == 32) by {
        assert(s.subrange(lu, lu + 1)[0] == s[lu]);
    }
    lemma_space_free_encode(uuid);
    assert(forall|j: int| 0 <= j < lu ==> s[j] == ub[j]) by {
        assert(forall|j: int| 0 <= j < lu ==> s.subrange(0, lu)[j] == s[j]);
    }
    assert forall|j: int| 0 <= j < lu implies s[j] != 32 by {
        if ub[j] == 32u8 {
            assert(ub.contains(32u8));
        }
    }
    lemma_find_space_at(s, 0, lu);
    encode_utf8_valid_utf8(uuid);
    encode_utf8_decode_utf8(uuid);
    assert(spec_token(s, 0) == Some((uuid, lu + 1)));
    assert(forall|j: int| lu + 1 <= j < s.len() ==> s[j] == rest[j - lu - 1]) by {
        assert(forall|j: int|
            lu + 1 <= j < s.len() ==> s.subrange(lu + 1, s.len() as int)[j - lu - 1] == s[j]);
    }
    assert forall|j: int| lu + 1 <= j < s.len() implies s[j] != 32 by {
        if rest[j - lu - 1] == 32u8 {
            assert(rest.contains(32u8));
        }
    }
    lemma_find_space_none(s, lu + 1);
}

/// A message whose two space delimiters end the uuid and the id has no
/// path.
pub proof fn lemma_missing_path_delimiter(uuid: Seq<char>, id: Seq<char>, rest: Seq<u8>)
    requires
        !uuid.contains(' '),
        !id.contains(' '),
        !rest.contains(32u8),
    ensures
        spec_parse(encode_utf8(uuid) + seq![32u8] + encode_utf8(id) + seq![32u8] + rest) == Err::<
            RequestModel,
            Error,
        >(Error::InvalidPath),
{
    let ub = encode_utf8(uuid);
    let ib = encode_utf8(id);
    let sp = seq![32u8];
    let s = ub + sp + ib + sp + rest;
    let lu = ub.len() as int;
    let li = ib.len() as int;
    let p1 = lu + 1;
    let p2 = p1 + li + 1;
    assert(s.subrange(0, s.len() as int) =~= s);
    lemma_concat_subranges(s, 0, ub + sp + ib + sp, rest);
    lemma_concat_subranges(s, 0, ub + sp + ib, sp);
    lemma_concat_subranges(s, 0, ub + sp, ib);
    lemma_concat_subranges(s, 0, ub, sp);
    assert(s[lu] == 32) by {
        assert(s.subrange(lu, lu + 1)[0] == s[lu]);
    }
    assert(s[p1 + li] == 32) by {
        assert(s.subrange(p1 + li, p1 + li + 1)[0] == s[p1 + li]);
    }
    lemma_space_free_encode(uuid);
    lemma_space_free_encode(id);
    assert(forall|j: int| 0 <= j < lu ==> s[j] == ub[j]) by {
        assert(forall|j: int| 0 <= j < lu ==> s.subrange(0, lu)[j] == s[j]);
    }
    assert forall|j: int| 0 <= j < lu implies s[j] != 32 by {
        if ub[j] == 32u8 {
            assert(ub.contains(32u8));
        }
    }
    assert(forall|j: int| p1 <= j < p1 + li ==> s[j] == ib[j - p1]) by {
        assert(forall|j: int| p1 <= j < p1 + li ==> s.subrange(p1, p1 + li)[j - p1] == s[j]);
    }
    assert forall|j: int| p1 <= j < p1 + li implies s[j] != 32 by {
        if ib[j - p1] == 32u8 {
            assert(ib.contains(32u8));
        }
    }
    lemma_find_space_at(s, 0, lu);
    encode_utf8_valid_utf8(uuid);
    encode_utf8_decode_utf8(uuid);
    assert(spec_token(s, 0) == Some((uuid, p1)));
    lemma_find_space_at(s, p1, p1 + li);
    encode_utf8_valid_utf8(id);
    encode_utf8_decode_utf8(id);
    assert(spec_token(s, p1) == Some((id, p2)));
    assert(forall|j: int| p2 <= j < s.len() ==> s[j] == rest[j - p2]) by {
        assert(forall|j: int|
            p2 <= j < s.len() ==> s.subrange(p2, s.len() as int)[j - p2] == s[j]);
    }
    assert forall|j: int| p2 <= j < s.len() implies s[j] != 32 by {
        if rest[j - p2] == 32u8 {
            assert(rest.contains(32u8));
        }
    }
    lemma_find_space_none(s, p2);
}

} // verus!

