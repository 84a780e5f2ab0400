//! Serializing outbound frames.
//!
//! A reply to the gateway is one message: the uuid of the gateway
//! instance, a space, the receiving connection ids joined by spaces and
//! wrapped as a single wire string value, a space, and the raw body
//! bytes.  An HTTP-shaped reply first renders the status line, the
//! headers, and the content length around the body, then sends the
//! rendered bytes as the raw body of such a message.

use vstd::prelude::*;
use vstd::string::StrSliceExecFns;
use vstd::utf8::encode_utf8;

use crate::digits::dec_digits;
use crate::digits::u64_dec_digits;
use crate::headers::Headers;
use crate::request::Request;
use crate::tnetstring::encode;
use crate::tnetstring::spec_encode;
use crate::tnetstring::ValModel;
use crate::tnetstring::WireVal;

verus! {

/// The ids joined by single spaces, as bytes.
pub open spec fn join_ids(ids: Seq<Seq<char>>) -> Seq<u8>
    decreases ids.len(),
{
    if ids.len() == 0 {
        Seq::empty()
    } else if ids.len() == 1 {
        encode_utf8(ids[0])
    } else {
        join_ids(ids.drop_last()) + seq![32u8] + encode_utf8(ids.last())
    }
}

/// Joins the ids with single spaces.
fn join_ids_bytes(ids: &Vec<String>) -> (r: Vec<u8>)
    ensures
        r@ == join_ids(ids.deep_view()),
{
    let ghost full = ids.deep_view();
    let mut out: Vec<u8> = Vec::new();
    let mut k: usize = 0;
    proof {
        assert(full.take(0).len() == 0);
    }
    while k < ids.len()
        invariant
            k <= ids@.len(),
            full == ids.deep_view(),
            full.len() == ids@.len(),
            out@ == join_ids(full.take(k as int)),
        decreases ids@.len() - k,
    {
        if k > 0 {
            out.push(32);
        }
        let mut ib = ids[k].as_str().as_bytes_vec();
        out.append(&mut ib);
        proof {
            assert(full.take(k as int + 1).drop_last() =~= full.take(k as int));
            assert(full.take(k as int + 1).last() == full[k as int]);
            assert(full[k as int] == ids@[k as int]@);
            if k == 0 {
                assert(out@ =~= join_ids(full.take(1)));
            } else {
                assert(out@ =~= join_ids(full.take(k as int + 1)));
            }
        }
        k += 1;
    }
    proof {
        assert(full.take(ids@.len() as int) =~= full);
    }
    out
}

/// One outbound message: the uuid, the wire-wrapped space-joined ids,
/// and the body, space-separated.
pub open spec fn spec_send_frame(uuid: Seq<char>, ids: Seq<Seq<char>>, body: Seq<u8>) -> Seq<u8> {
    encode_utf8(uuid) + seq![32u8] + spec_encode(ValModel::Str(join_ids(ids))) + seq![32u8] + body
}

/// Builds the outbound message addressed to `ids` at the gateway
/// instance `uuid`, carrying `body` raw.
pub fn send_frame(uuid: &str, ids: &Vec<String>, body: &[u8]) -> (r: Vec<u8>)
    ensures
        r@ == spec_send_frame(uuid@, ids.deep_view(), body@),
{
    let mut out = uuid.as_bytes_vec();
    out.push(32);
    let joined = join_ids_bytes(ids);
    let mut enc = match encode(&WireVal::Str(joined)) {
        Some(b) => b,
        None => {
            proof {
                assert(false);
            }
            Vec::new()
        },
    };
    out.append(&mut enc);
    out.push(32);
    let mut bodyv = vstd::slice::slice_to_vec(body);
    out.append(&mut bodyv);
    proof {
        assert(out@ =~= spec_send_frame(uuid@, ids.deep_view(), body@));
    }
    out
}

/// Builds the outbound message that answers `req`, addressed to its
/// single connection id.
pub fn reply_frame(req: &Request, body: &[u8]) -> (r: Vec<u8>)
    ensures
        r@ == spec_send_frame(req@.uuid, seq![req@.id], body@),
{
    let mut ids: Vec<String> = Vec::new();
    ids.push(req.id.clone());
    proof {
        assert(ids.deep_view() =~= seq![req@.id]);
    }
    send_frame(req.uuid.as_str(), &ids, body)
}

/// Builds the outbound message that answers `req` with an HTTP-shaped
/// reply: the rendered status line, headers, content length and body,
/// carried as the raw body of the reply frame.
pub fn reply_http_frame(
    req: &Request,
    code: u64,
    status: &str,
    headers: &Headers,
    body: &[u8],
) -> (r: Vec<u8>)
    ensures
        r@ == spec_send_frame(
            req@.uuid,
            seq![req@.id],
            spec_http_payload(code, status@, headers@, body@),
        ),
{
    let payload = http_payload(code, status, headers, body);
    reply_frame(req, payload.as_slice())
}

/// A carriage return and line feed.
pub open spec fn crlf() -> Seq<u8> {
    seq![13u8, 10u8]
}

/// The `<key>: <value>` lines of one header entry, one line per value,
/// in value order.
pub open spec fn entry_lines(k: Seq<char>, vs: Seq<Seq<char>>) -> Seq<u8>
    decreases vs.len(),
{
    if vs.len() == 0 {
        Seq::empty()
    } else {
        encode_utf8(k) + encode_utf8(": "@) + encode_utf8(vs[0]) + crlf() + entry_lines(
            k,
            vs.drop_first(),
        )
    }
}

/// The header lines of the whole map, in entry order.
pub open spec fn header_lines(h: Seq<(Seq<char>, Seq<Seq<char>>)>) -> Seq<u8>
    decreases h.len(),
{
    if h.len() == 0 {
        Seq::empty()
    } else {
        entry_lines(h[0].0, h[0].1) + header_lines(h.drop_first())
    }
}

/// Header lines distribute over concatenation of value lists.
proof fn lemma_entry_lines_concat(k: Seq<char>, a: Seq<Seq<char>>, b: Seq<Seq<char>>)
    ensures
        entry_lines(k, a + b) == entry_lines(k, a) + entry_lines(k, b),
    decreases a.len(),
{
    if a.len() == 0 {
        assert(a + b =~= b);
        assert(entry_lines(k, a) + entry_lines(k, b) =~= entry_lines(k, b));
    } else {
        assert((a + b).drop_first() =~= a.drop_first() + b);
        lemma_entry_lines_concat(k, a.drop_first(), b);
        assert(entry_lines(k, a + b) =~= entry_lines(k, a) + entry_lines(k, b));
    }
}

/// Header lines distribute over concatenation of entry runs.
proof fn lemma_header_lines_concat(a: Seq<(Seq<char>, Seq<Seq<char>>)>, b: Seq<
    (Seq<char>, Seq<Seq<char>>),
>)
    ensures
        header_lines(a + b) == header_lines(a) + header_lines(b),
    decreases a.len(),
{
    if a.len() == 0 {
        assert(a + b =~= b);
        assert(header_lines(a) + header_lines(b) =~= header_lines(b));
    } else {
        assert((a + b).drop_first() =~= a.drop_first() + b);
        lemma_header_lines_concat(a.drop_first(), b);
        assert(header_lines(a + b) =~= header_lines(a) + header_lines(b));
    }
}

/// The bytes of an HTTP reply: status line, the header lines in entry
/// order, the content length, a blank line, and the body.
pub open spec fn spec_http_payload(
    code: u64,
    status: Seq<char>,
    h: Seq<(Seq<char>, Seq<Seq<char>>)>,
    body: Seq<u8>,
) -> Seq<u8> {
    encode_utf8("HTTP/1.1 "@) + dec_digits(code as nat) + seq![32u8] + encode_utf8(status)
        + crlf() + header_lines(h) + encode_utf8("Content-Length: "@) + dec_digits(body.len())
        + crlf() + crlf() + body
}

/// Renders the HTTP reply bytes for the given status code, status
/// text, headers and body.
pub fn http_payload(code: u64, status: &str, headers: &Headers, body: &[u8]) -> (r: Vec<u8>)
    ensures
        r@ == spec_http_payload(code, status@, headers@, body@),
{
    let ghost h = headers@;
    let mut out = "HTTP/1.1 ".as_bytes_vec();
    let mut digits = u64_dec_digits(code);
    out.append(&mut digits);
    out.push(32);
    let mut sb = status.as_bytes_vec();
    out.append(&mut sb);
    out.push(13);
    out.push(10);
    let ghost pre = encode_utf8("HTTP/1.1 "@) + dec_digits(code as nat) + seq![32u8]
        + encode_utf8(status@) + crlf();
    proof {
        assert(out@ =~= pre + header_lines(h.take(0)));
    }
    let n = headers.len();
    let mut i: usize = 0;
    while i < n
        invariant
            i <= n,
            n == h.len(),
            h == headers@,
            out@ == pre + header_lines(h.take(i as int)),
        decreases n - i,
    {
        let key = headers.key_at(i);
        let vals = headers.values_at(i);
        let ghost km = h[i as int].0;
        let ghost vm = h[i as int].1;
        let m = vals.len();
        let ghost line_pre = out@;
        let mut j: usize = 0;
        proof {
            assert(out@ =~= line_pre + entry_lines(km, vm.take(0)));
        }
        while j < m
            invariant
                j <= m,
                m == vm.len(),
                key@ == km,
                vals.deep_view() == vm,
                out@ == line_pre + entry_lines(km, vm.take(j as int)),
            decreases m - j,
        {
            let mut kb = key.as_str().as_bytes_vec();
            out.append(&mut kb);
            let mut sep = ": ".as_bytes_vec();
            out.append(&mut sep);
            let mut vb = vals[j].as_str().as_bytes_vec();
            out.append(&mut vb);
            out.push(13);
            out.push(10);
            proof {
                assert(vals@[j as int]@ == vm[j as int]);
                assert(vm.take(j as int + 1) =~= vm.take(j as int) + seq![vm[j as int]]);
                lemma_entry_lines_concat(km, vm.take(j as int), seq![vm[j as int]]);
                assert(seq![vm[j as int]].drop_first() =~= Seq::<Seq<char>>::empty());
                assert(entry_lines(km, Seq::<Seq<char>>::empty()) == Seq::<u8>::empty());
                assert(entry_lines(km, seq![vm[j as int]]) == encode_utf8(km) + encode_utf8(": "@)
                    + encode_utf8(seq![vm[j as int]][0]) + crlf() + entry_lines(
                    km,
                    seq![vm[j as int]].drop_first(),
                ));
                assert(out@ =~= line_pre + entry_lines(km, vm.take(j as int + 1)));
            }
            j += 1;
        }
        proof {
            assert(vm.take(m as int) =~= vm);
            assert(h.take(i as int + 1) =~= h.take(i as int) + seq![h[i as int]]);
            lemma_header_lines_concat(h.take(i as int), seq![h[i as int]]);
            assert(seq![h[i as int]].drop_first() =~= Seq::<(Seq<char>, Seq<Seq<char>>)>::empty());
            assert(header_lines(Seq::<(Seq<char>, Seq<Seq<char>>)>::empty()) == Seq::<u8>::empty());
            assert(header_lines(seq![h[i as int]]) == entry_lines(km, vm) + header_lines(
                seq![h[i as int]].drop_first(),
            ));
            assert(out@ =~= pre + header_lines(h.take(i as int + 1)));
        }
        i += 1;
    }
    proof {
        assert(h.take(n as int) =~= h);
    }
    let mut cl = "Content-Length: ".as_bytes_vec();
    out.append(&mut cl);
    let mut bl = u64_dec_digits(body.len() as u64);
    out.append(&mut bl);
    out.push(13);
    out.push(10);
    out.push(13);
    out.push(10);
    let mut bodyv = vstd::slice::slice_to_vec(body);
    out.append(&mut bodyv);
    proof {
        assert(out@ =~= spec_http_payload(code, status@, headers@, body@));
    }
    out
}

} // verus!
