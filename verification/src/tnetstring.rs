//! The self-delimiting wire codec.
//!
//! Every wire value is framed as `<length>:<payload><tag>`: the payload
//! length as a run of ASCII decimal digits, a colon, the payload bytes,
//! and a one-byte type tag.  A string carries its bytes directly in the
//! payload; a list carries the frames of its elements back to back; a
//! dictionary payload alternates string-framed keys with value frames.
//! The length prefix makes every value self-delimiting, so a decoder can
//! always tell where one value ends and the next begins.
//!
//! The decoder interprets values to the depth the protocol reads: the
//! elements of a list, and for each dictionary entry its key together
//! with a value that is a string or a list.  Values nested deeper are
//! consumed by their framing and carried shape-only ([`WireItem::Other`],
//! [`WireEntry::Other`]); integer and float payloads are carried as raw
//! bytes, their syntax unchecked, since the protocol never reads them.

use vstd::prelude::*;

use crate::digits::dec_digits;
use crate::digits::dec_val;
use crate::digits::is_digit;
use crate::digits::lemma_dec_digits_are_digits;
use crate::digits::lemma_dec_val_of_dec_digits;
use crate::digits::u64_dec_digits;

verus! {

/// Type tag of a string value.
pub const TAG_STR: u8 = 44;

/// Type tag of an integer value.
pub const TAG_INT: u8 = 35;

/// Type tag of a float value.
pub const TAG_FLT: u8 = 94;

/// Type tag of a boolean value.
pub const TAG_BOOL: u8 = 33;

/// Type tag of a null value.
pub const TAG_NULL: u8 = 126;

/// Type tag of a list value.
pub const TAG_LIST: u8 = 93;

/// Type tag of a dictionary value.
pub const TAG_DICT: u8 = 125;

/// The colon that separates the length digits from the payload.
pub const LEN_SEP: u8 = 58;

/// True for the seven type tags the wire format defines.
pub open spec fn is_tag(b: u8) -> bool {
    b == TAG_STR || b == TAG_INT || b == TAG_FLT || b == TAG_BOOL || b == TAG_NULL || b == TAG_LIST
        || b == TAG_DICT
}

/// Mathematical model of a decoded list element.
pub enum ItemModel {
    /// A string element, with its payload bytes.
    Str(Seq<u8>),
    /// An element of any other shape, by its tag.
    Other(u8),
}

/// Mathematical model of a decoded dictionary value.
pub enum EntryModel {
    /// A string value, with its payload bytes.
    Str(Seq<u8>),
    /// A list value, with its decoded elements.
    List(Seq<ItemModel>),
    /// A value of any other shape, by its tag.
    Other(u8),
}

/// Mathematical model of a decoded wire value.
pub enum ValModel {
    /// A string, with its payload bytes.
    Str(Seq<u8>),
    /// An integer, with its raw payload bytes.
    Int(Seq<u8>),
    /// A float, with its raw payload bytes.
    Flt(Seq<u8>),
    /// A boolean.
    Boolean(bool),
    /// The null value.
    Null,
    /// A list, with its decoded elements.
    List(Seq<ItemModel>),
    /// A dictionary, with its key/value entries in wire order.
    Dict(Seq<(Seq<u8>, EntryModel)>),
}

/// Decoding error: the reason a byte region is not a wire value.
#[derive(Debug, Clone, Copy, PartialEq, Eq)]
pub enum CodecErr {
    /// No digits at the start of the frame, or no colon after them.
    BadLength,
    /// The declared payload and its tag run past the end of the input.
    Truncated,
    /// The byte after the payload is not one of the seven type tags.
    BadTag,
    /// A boolean payload that is not `true` or `false`, or a non-empty
    /// null payload.
    BadPayload,
    /// A dictionary key that is not a string value.
    KeyNotString,
}

/// A decoded list element.
#[derive(Debug, PartialEq, Eq)]
pub enum WireItem {
    /// A string element, with its payload bytes.
    Str(Vec<u8>),
    /// An element of any other shape, by its tag.
    Other(u8),
}

/// A decoded dictionary value.
#[derive(Debug, PartialEq, Eq)]
pub enum WireEntry {
    /// A string value, with its payload bytes.
    Str(Vec<u8>),
    /// A list value, with its decoded elements.
    List(Vec<WireItem>),
    /// A value of any other shape, by its tag.
    Other(u8),
}

/// A decoded wire value.
#[derive(Debug, PartialEq, Eq)]
pub enum WireVal {
    /// A string, with its payload bytes.
    Str(Vec<u8>),
    /// An integer, with its raw payload bytes.
    Int(Vec<u8>),
    /// A float, with its raw payload bytes.
    Flt(Vec<u8>),
    /// A boolean.
    Boolean(bool),
    /// The null value.
    Null,
    /// A list, with its decoded elements.
    List(Vec<WireItem>),
    /// A dictionary, with its key/value entries in wire order.
    Dict(Vec<(Vec<u8>, WireEntry)>),
}

impl View for WireItem {
    type V = ItemModel;

    open spec fn view(&self) -> ItemModel {
        match self {
            WireItem::Str(b) => ItemModel::Str(b@),
            WireItem::Other(t) => ItemModel::Other(*t),
        }
    }
}

/// The models of a sequence of decoded list elements.
pub open spec fn items_view(v: Seq<WireItem>) -> Seq<ItemModel> {
    v.map_values(|it: WireItem| it@)
}

impl View for WireEntry {
    type V = EntryModel;

    open spec fn view(&self) -> EntryModel {
        match self {
            WireEntry::Str(b) => EntryModel::Str(b@),
            WireEntry::List(v) => EntryModel::List(items_view(v@)),
            WireEntry::Other(t) => EntryModel::Other(*t),
        }
    }
}

/// The models of a sequence of decoded dictionary entries.
pub open spec fn pairs_view(v: Seq<(Vec<u8>, WireEntry)>) -> Seq<(Seq<u8>, EntryModel)> {
    v.map_values(|p: (Vec<u8>, WireEntry)| (p.0@, p.1@))
}

impl View for WireVal {
    type V = ValModel;

    open spec fn view(&self) -> ValModel {
        match self {
            WireVal::Str(b) => ValModel::Str(b@),
            WireVal::Int(b) => ValModel::Int(b@),
            WireVal::Flt(b) => ValModel::Flt(b@),
            WireVal::Boolean(t) => ValModel::Boolean(*t),
            WireVal::Null => ValModel::Null,
            WireVal::List(v) => ValModel::List(items_view(v@)),
            WireVal::Dict(v) => ValModel::Dict(pairs_view(v@)),
        }
    }
}

/// The payload bytes of a true boolean value.
pub open spec fn true_bytes() -> Seq<u8> {
    seq![116u8, 114u8, 117u8, 101u8]
}

/// The payload bytes of a false boolean value.
pub open spec fn false_bytes() -> Seq<u8> {
    seq![102u8, 97u8, 108u8, 115u8, 101u8]
}

/// Index of the first byte at or after `i` (and before `end`) that is not
/// a decimal digit, or `end` when all remaining bytes are digits.
pub open spec fn scan_digits(s: Seq<u8>, i: int, end: int) -> int
    recommends
        0 <= i <= end <= s.len(),
    decreases end - i,
{
    if i < end && is_digit(s[i]) {
        scan_digits(s, i + 1, end)
    } else {
        i
    }
}

/// The scan stays within its bounds, everything it passed over is a
/// digit, and it stops only at the end or at a non-digit.
pub proof fn lemma_scan_digits_bounds(s: Seq<u8>, i: int, end: int)
    requires
        0 <= i <= end <= s.len(),
    ensures
        i <= scan_digits(s, i, end) <= end,
        forall|j: int| i <= j < scan_digits(s, i, end) ==> is_digit(#[trigger] s[j]),
        scan_digits(s, i, end) < end ==> !is_digit(s[scan_digits(s, i, end)]),
    decreases end - i,
{
    if i < end && is_digit(s[i]) {
        lemma_scan_digits_bounds(s, i + 1, end);
    }
}

/// The scan stops exactly at the end of a known digit run.
pub proof fn lemma_scan_digits_run(s: Seq<u8>, i: int, end: int, stop: int)
    requires
        0 <= i <= stop <= end <= s.len(),
        forall|j: int| i <= j < stop ==> is_digit(#[trigger] s[j]),
        stop < end ==> !is_digit(s[stop]),
    ensures
        scan_digits(s, i, end) == stop,
    decreases stop - i,
{
    if i < stop {
        lemma_scan_digits_run(s, i + 1, end, stop);
    }
}

/// The framing of one wire value: where its payload lies, its tag, and
/// where the next value starts.
pub struct FrameModel {
    /// Index of the first payload byte.
    pub payload_start: int,
    /// Declared payload length.
    pub payload_len: int,
    /// The type tag, found right after the payload.
    pub tag: u8,
    /// Index of the first byte after the frame.
    pub next: int,
}

/// Reads the framing of the value starting at `start` in `s[..end]`:
/// length digits, colon, payload extent and tag.  The payload itself is
/// not interpreted.
pub open spec fn spec_frame(s: Seq<u8>, start: int, end: int) -> Result<FrameModel, CodecErr>
    recommends
        0 <= start <= end <= s.len(),
{
    let de = scan_digits(s, start, end);
    if de == start || de == end || s[de] != LEN_SEP {
        Err(CodecErr::BadLength)
    } else {
        let plen = dec_val(s.subrange(start, de)) as int;
        if de + 2 + plen > end {
            Err(CodecErr::Truncated)
        } else {
            Ok(
                FrameModel {
                    payload_start: de + 1,
                    payload_len: plen,
                    tag: s[de + 1 + plen],
                    next: de + 2 + plen,
                },
            )
        }
    }
}

/// A well-formed frame lies within its bounds and makes progress.
pub proof fn lemma_spec_frame_ok(s: Seq<u8>, start: int, end: int)
    requires
        0 <= start <= end <= s.len(),
        spec_frame(s, start, end) is Ok,
    ensures
        ({
            let f = spec_frame(s, start, end)->Ok_0;
            &&& start < f.payload_start
            &&& f.payload_len >= 0
            &&& f.payload_start + f.payload_len + 1 == f.next
            &&& start + 3 <= f.next <= end
        }),
{
    lemma_scan_digits_bounds(s, start, end);
}

/// Decodes the run of list elements that exactly fills `s[start..end]`.
/// String elements carry their payloads; elements of any other shape are
/// consumed by their framing and recorded by their tag alone.
pub open spec fn spec_items(s: Seq<u8>, start: int, end: int) -> Result<Seq<ItemModel>, CodecErr>
    recommends
        0 <= start <= end <= s.len(),
    decreases end - start,
    when 0 <= start <= end <= s.len()
{
    if start >= end {
        Ok(Seq::empty())
    } else {
        match spec_frame(s, start, end) {
            Err(e) => Err(e),
            Ok(f) => {
                if !is_tag(f.tag) {
                    Err(CodecErr::BadTag)
                } else {
                    let item = if f.tag == TAG_STR {
                        ItemModel::Str(s.subrange(f.payload_start, f.payload_start + f.payload_len))
                    } else {
                        ItemModel::Other(f.tag)
                    };
                    proof {
                        lemma_scan_digits_bounds(s, start, end);
                    }
                    match spec_items(s, f.next, end) {
                        Err(e) => Err(e),
                        Ok(rest) => Ok(seq![item] + rest),
                    }
                }
            },
        }
    }
}

/// Decodes the run of key/value pairs that exactly fills `s[start..end]`.
/// Every key must be a string; a value is kept as a string, a list of
/// elements, or, for any other shape, its tag.
pub open spec fn spec_pairs(s: Seq<u8>, start: int, end: int) -> Result<
    Seq<(Seq<u8>, EntryModel)>,
    CodecErr,
>
    recommends
        0 <= start <= end <= s.len(),
    decreases end - start,
    when 0 <= start <= end <= s.len()
{
    if start >= end {
        Ok(Seq::empty())
    } else {
        match spec_frame(s, start, end) {
            Err(e) => Err(e),
            Ok(kf) => {
                if kf.tag != TAG_STR {
                    Err(CodecErr::KeyNotString)
                } else {
                    let key = s.subrange(kf.payload_start, kf.payload_start + kf.payload_len);
                    match spec_frame(s, kf.next, end) {
                        Err(e) => Err(e),
                        Ok(vf) => {
                            if !is_tag(vf.tag) {
                                Err(CodecErr::BadTag)
                            } else {
                                let entry_r: Result<EntryModel, CodecErr> = if vf.tag == TAG_STR {
                                    Ok(
                                        EntryModel::Str(
                                            s.subrange(
                                                vf.payload_start,
                                                vf.payload_start + vf.payload_len,
                                            ),
                                        ),
                                    )
                                } else if vf.tag == TAG_LIST {
                                    match spec_items(
                                        s,
                                        vf.payload_start,
                                        vf.payload_start + vf.payload_len,
                                    ) {
                                        Err(e) => Err(e),
                                        Ok(its) => Ok(EntryModel::List(its)),
                                    }
                                } else {
                                    Ok(EntryModel::Other(vf.tag))
                                };
                                proof {
                                    lemma_scan_digits_bounds(s, start, end);
                                    lemma_scan_digits_bounds(s, kf.next, end);
                                }
                                match entry_r {
                                    Err(e) => Err(e),
                                    Ok(entry) => match spec_pairs(s, vf.next, end) {
                                        Err(e) => Err(e),
                                        Ok(rest) => Ok(seq![(key, entry)] + rest),
                                    },
                                }
                            }
                        },
                    }
                }
            },
        }
    }
}

/// Decodes the wire value starting at `start` in `s[..end]`.  Returns its
/// model and the index of the first byte after it; bytes beyond that are
/// left for the caller.
pub open spec fn spec_decode(s: Seq<u8>, start: int, end: int) -> Result<
    (ValModel, int),
    CodecErr,
>
    recommends
        0 <= start <= end <= s.len(),
{
    match spec_frame(s, start, end) {
        Err(e) => Err(e),
        Ok(f) => {
            let payload = s.subrange(f.payload_start, f.payload_start + f.payload_len);
            if f.tag == TAG_STR {
                Ok((ValModel::Str(payload), f.next))
            } else if f.tag == TAG_INT {
                Ok((ValModel::Int(payload), f.next))
            } else if f.tag == TAG_FLT {
                Ok((ValModel::Flt(payload), f.next))
            } else if f.tag == TAG_BOOL {
                if payload == true_bytes() {
                    Ok((ValModel::Boolean(true), f.next))
                } else if payload == false_bytes() {
                    Ok((ValModel::Boolean(false), f.next))
                } else {
                    Err(CodecErr::BadPayload)
                }
            } else if f.tag == TAG_NULL {
                if f.payload_len == 0 {
                    Ok((ValModel::Null, f.next))
                } else {
                    Err(CodecErr::BadPayload)
                }
            } else if f.tag == TAG_LIST {
                match spec_items(s, f.payload_start, f.payload_start + f.payload_len) {
                    Err(e) => Err(e),
                    Ok(its) => Ok((ValModel::List(its), f.next)),
                }
            } else if f.tag == TAG_DICT {
                match spec_pairs(s, f.payload_start, f.payload_start + f.payload_len) {
                    Err(e) => Err(e),
                    Ok(prs) => Ok((ValModel::Dict(prs), f.next)),
                }
            } else {
                Err(CodecErr::BadTag)
            }
        },
    }
}

/// How an executable framing result corresponds to its model.
pub open spec fn frame_matches(
    r: Result<(usize, usize, u8, usize), CodecErr>,
    m: Result<FrameModel, CodecErr>,
) -> bool {
    match (r, m) {
        (Ok(t), Ok(f)) => t.0 == f.payload_start && t.1 == f.payload_len && t.2 == f.tag && t.3
            == f.next,
        (Err(a), Err(b)) => a == b,
        _ => false,
    }
}

/// Reads the framing of the value starting at `start` in `msg[..end]`.
fn frame(msg: &[u8], start: usize, end: usize) -> (r: Result<(usize, usize, u8, usize), CodecErr>)
    requires
        start <= end <= msg@.len(),
    ensures
        frame_matches(r, spec_frame(msg@, start as int, end as int)),
{
    proof {
        lemma_scan_digits_bounds(msg@, start as int, end as int);
    }
    let mut i = start;
    let mut val: u128 = 0;
    while i < end && msg[i] >= 48 && msg[i] <= 57
        invariant
            start <= i <= end <= msg@.len(),
            scan_digits(msg@, start as int, end as int) == scan_digits(msg@, i as int, end as int),
            val <= end as u128 + 1,
            ({
                let rv = dec_val(msg@.subrange(start as int, i as int));
                &&& (rv <= end ==> val == rv)
                &&& (rv > end ==> val > end as u128)
            }),
        decreases end - i,
    {
        proof {
            let s = msg@;
            let rv = dec_val(s.subrange(start as int, i as int));
            assert(s.subrange(start as int, i as int + 1).drop_last() =~= s.subrange(
                start as int,
                i as int,
            ));
            assert(dec_val(s.subrange(start as int, i as int + 1)) == rv * 10 + (s[i as int]
                - 48));
            assert(scan_digits(s, i as int, end as int) == scan_digits(s, i as int + 1, end as int));
        }
        let d = msg[i] - 48;
        val = val * 10 + d as u128;
        if val > end as u128 {
            val = end as u128 + 1;
        }
        i += 1;
    }
    proof {
        assert(scan_digits(msg@, i as int, end as int) == i);
    }
    if i == start || i == end {
        return Err(CodecErr::BadLength);
    }
    if msg[i] != LEN_SEP {
        return Err(CodecErr::BadLength);
    }
    if val + 2 > (end - i) as u128 {
        return Err(CodecErr::Truncated);
    }
    proof {
        assert(val == dec_val(msg@.subrange(start as int, i as int)));
    }
    let plen = val as usize;
    let ps = i + 1;
    Ok((ps, plen, msg[ps + plen], ps + plen + 1))
}

/// How an executable element-run result corresponds to its model.
pub open spec fn items_match(
    r: Result<Vec<WireItem>, CodecErr>,
    m: Result<Seq<ItemModel>, CodecErr>,
) -> bool {
    match (r, m) {
        (Ok(v), Ok(ms)) => items_view(v@) == ms,
        (Err(a), Err(b)) => a == b,
        _ => false,
    }
}

/// Decodes the run of list elements that exactly fills `msg[start..end]`.
fn parse_items(msg: &[u8], start: usize, end: usize) -> (r: Result<Vec<WireItem>, CodecErr>)
    requires
        start <= end <= msg@.len(),
    ensures
        items_match(r, spec_items(msg@, start as int, end as int)),
{
    let ghost s = msg@;
    let mut items: Vec<WireItem> = Vec::new();
    let mut i = start;
    while i < end
        invariant
            start <= i <= end <= msg@.len(),
            s == msg@,
            spec_items(s, start as int, end as int) == (match spec_items(s, i as int, end as int) {
                Ok(rest) => Ok::<Seq<ItemModel>, CodecErr>(items_view(items@) + rest),
                Err(e) => Err::<Seq<ItemModel>, CodecErr>(e),
            }),
        decreases end - i,
    {
        let fr = frame(msg, i, end);
        match fr {
            Err(e) => {
                proof {
                    assert(spec_items(s, i as int, end as int) == Err::<Seq<ItemModel>, CodecErr>(
                        e,
                    ));
                }
                return Err(e);
            },
            Ok((ps, plen, tag, next)) => {
                proof {
                    lemma_spec_frame_ok(s, i as int, end as int);
                }
                if !(tag == TAG_STR || tag == TAG_INT || tag == TAG_FLT || tag == TAG_BOOL || tag
                    == TAG_NULL || tag == TAG_LIST || tag == TAG_DICT) {
                    proof {
                        assert(spec_items(s, i as int, end as int) == Err::<
                            Seq<ItemModel>,
                            CodecErr,
                        >(CodecErr::BadTag));
                    }
                    return Err(CodecErr::BadTag);
                }
                let item = if tag == TAG_STR {
                    WireItem::Str(vstd::slice::slice_to_vec(&msg[ps..ps + plen]))
                } else {
                    WireItem::Other(tag)
                };
                proof {
                    let f = spec_frame(s, i as int, end as int)->Ok_0;
                    let item_m = if f.tag == TAG_STR {
                        ItemModel::Str(s.subrange(f.payload_start, f.payload_start + f.payload_len))
                    } else {
                        ItemModel::Other(f.tag)
                    };
                    assert(item@ == item_m);
                    assert(spec_items(s, i as int, end as int) == (match spec_items(
                        s,
                        next as int,
                        end as int,
                    ) {
                        Ok(rest) => Ok::<Seq<ItemModel>, CodecErr>(seq![item_m] + rest),
                        Err(e) => Err::<Seq<ItemModel>, CodecErr>(e),
                    }));
                    assert(items_view(items@.push(item)) =~= items_view(items@) + seq![item_m]);
                    assert forall|rest: Seq<ItemModel>|
                        items_view(items@.push(item)) + rest =~= items_view(items@) + (
                        seq![item_m] + rest) by {}
                }
                items.push(item);
                i = next;
            },
        }
    }
    proof {
        assert(spec_items(s, i as int, end as int) == Ok::<Seq<ItemModel>, CodecErr>(Seq::empty()));
        assert(items_view(items@) + Seq::<ItemModel>::empty() =~= items_view(items@));
    }
    Ok(items)
}

/// How an executable pair-run result corresponds to its model.
pub open spec fn pairs_match(
    r: Result<Vec<(Vec<u8>, WireEntry)>, CodecErr>,
    m: Result<Seq<(Seq<u8>, EntryModel)>, CodecErr>,
) -> bool {
    match (r, m) {
        (Ok(v), Ok(ms)) => pairs_view(v@) == ms,
        (Err(a), Err(b)) => a == b,
        _ => false,
    }
}

/// Decodes the run of key/value pairs that exactly fills `msg[start..end]`.
fn parse_pairs(msg: &[u8], start: usize, end: usize) -> (r: Result<
    Vec<(Vec<u8>, WireEntry)>,
    CodecErr,
>)
    requires
        start <= end <= msg@.len(),
    ensures
        pairs_match(r, spec_pairs(msg@, start as int, end as int)),
{
    let ghost s = msg@;
    let mut pairs: Vec<(Vec<u8>, WireEntry)> = Vec::new();
    let mut i = start;
    while i < end
        invariant
            start <= i <= end <= msg@.len(),
            s == msg@,
            spec_pairs(s, start as int, end as int) == (match spec_pairs(s, i as int, end as int) {
                Ok(rest) => Ok::<Seq<(Seq<u8>, EntryModel)>, CodecErr>(pairs_view(pairs@) + rest),
                Err(e) => Err::<Seq<(Seq<u8>, EntryModel)>, CodecErr>(e),
            }),
        decreases end - i,
    {
        let kfr = frame(msg, i, end);
        let (kps, kplen, ktag, knext) = match kfr {
            Err(e) => {
                proof {
                    assert(spec_pairs(s, i as int, end as int) == Err::<
                        Seq<(Seq<u8>, EntryModel)>,
                        CodecErr,
                    >(e));
                }
                return Err(e);
            },
            Ok(t) => t,
        };
        proof {
            lemma_spec_frame_ok(s, i as int, end as int);
        }
        if ktag != TAG_STR {
            proof {
                assert(spec_pairs(s, i as int, end as int) == Err::<
                    Seq<(Seq<u8>, EntryModel)>,
                    CodecErr,
                >(CodecErr::KeyNotString));
            }
            return Err(CodecErr::KeyNotString);
        }
        let key = vstd::slice::slice_to_vec(&msg[kps..kps + kplen]);
        let vfr = frame(msg, knext, end);
        let (vps, vplen, vtag, vnext) = match vfr {
            Err(e) => {
                proof {
                    assert(spec_pairs(s, i as int, end as int) == Err::<
                        Seq<(Seq<u8>, EntryModel)>,
                        CodecErr,
                    >(e));
                }
                return Err(e);
            },
            Ok(t) => t,
        };
        proof {
            lemma_spec_frame_ok(s, knext as int, end as int);
        }
        if !(vtag == TAG_STR || vtag == TAG_INT || vtag == TAG_FLT || vtag == TAG_BOOL || vtag
            == TAG_NULL || vtag == TAG_LIST || vtag == TAG_DICT) {
            proof {
                assert(spec_pairs(s, i as int, end as int) == Err::<
                    Seq<(Seq<u8>, EntryModel)>,
                    CodecErr,
                >(CodecErr::BadTag));
            }
            return Err(CodecErr::BadTag);
        }
        let entry: WireEntry = if vtag == TAG_STR {
            WireEntry::Str(vstd::slice::slice_to_vec(&msg[vps..vps + vplen]))
        } else if vtag == TAG_LIST {
            match parse_items(msg, vps, vps + vplen) {
                Err(e) => {
                    proof {
                        assert(spec_pairs(s, i as int, end as int) == Err::<
                            Seq<(Seq<u8>, EntryModel)>,
                            CodecErr,
                        >(e));
                    }
                    return Err(e);
                },
                Ok(its) => WireEntry::List(its),
            }
        } else {
            WireEntry::Other(vtag)
        };
        proof {
            let kf = spec_frame(s, i as int, end as int)->Ok_0;
            let vf = spec_frame(s, kf.next, end as int)->Ok_0;
            let key_m = s.subrange(kf.payload_start, kf.payload_start + kf.payload_len);
            let entry_m = entry@;
            assert(key@ == key_m);
            assert(spec_pairs(s, i as int, end as int) == (match spec_pairs(
                s,
                vnext as int,
                end as int,
            ) {
                Ok(rest) => Ok::<Seq<(Seq<u8>, EntryModel)>, CodecErr>(
                    seq![(key_m, entry_m)] + rest,
                ),
                Err(e) => Err::<Seq<(Seq<u8>, EntryModel)>, CodecErr>(e),
            }));
            assert(pairs_view(pairs@.push((key, entry))) =~= pairs_view(pairs@) + seq![
                (key_m, entry_m),
            ]);
            assert forall|rest: Seq<(Seq<u8>, EntryModel)>|
                pairs_view(pairs@.push((key, entry))) + rest =~= pairs_view(pairs@) + (seq![
                    (key_m, entry_m),
                ] + rest) by {}
        }
        pairs.push((key, entry));
        i = vnext;
    }
    proof {
        assert(spec_pairs(s, i as int, end as int) == Ok::<Seq<(Seq<u8>, EntryModel)>, CodecErr>(
            Seq::empty(),
        ));
        assert(pairs_view(pairs@) + Seq::<(Seq<u8>, EntryModel)>::empty() =~= pairs_view(pairs@));
    }
    Ok(pairs)
}

/// How an executable decode result corresponds to its model.
pub open spec fn decode_matches(
    r: Result<(WireVal, usize), CodecErr>,
    m: Result<(ValModel, int), CodecErr>,
) -> bool {
    match (r, m) {
        (Ok(a), Ok(b)) => a.0@ == b.0 && a.1 == b.1,
        (Err(a), Err(b)) => a == b,
        _ => false,
    }
}

/// Decodes the wire value starting at `start`, returning the value and
/// the index of the first byte after it.  Bytes after the value are left
/// unconsumed, as the framing makes the value self-delimiting.
pub fn decode(msg: &[u8], start: usize) -> (r: Result<(WireVal, usize), CodecErr>)
    requires
        start <= msg@.len(),
    ensures
        decode_matches(r, spec_decode(msg@, start as int, msg@.len() as int)),
        r matches Ok(p) ==> start < p.1 <= msg@.len(),
{
    let ghost s = msg@;
    let end = msg.len();
    let (ps, plen, tag, next) = match frame(msg, start, end) {
        Err(e) => {
            return Err(e);
        },
        Ok(t) => t,
    };
    proof {
        lemma_spec_frame_ok(s, start as int, end as int);
    }
    if tag == TAG_STR {
        Ok((WireVal::Str(vstd::slice::slice_to_vec(&msg[ps..ps + plen])), next))
    } else if tag == TAG_INT {
        Ok((WireVal::Int(vstd::slice::slice_to_vec(&msg[ps..ps + plen])), next))
    } else if tag == TAG_FLT {
        Ok((WireVal::Flt(vstd::slice::slice_to_vec(&msg[ps..ps + plen])), next))
    } else if tag == TAG_BOOL {
        let ghost payload = s.subrange(ps as int, ps as int + plen as int);
        if plen == 4 && msg[ps] == 116 && msg[ps + 1] == 114 && msg[ps + 2] == 117 && msg[ps + 3]
            == 101 {
            proof {
                assert(payload =~= true_bytes());
            }
            Ok((WireVal::Boolean(true), next))
        } else if plen == 5 && msg[ps] == 102 && msg[ps + 1] == 97 && msg[ps + 2] == 108 && msg[ps
            + 3] == 115 && msg[ps + 4] == 101 {
            proof {
                assert(payload =~= false_bytes());
            }
            Ok((WireVal::Boolean(false), next))
        } else {
            proof {
                assert(payload != true_bytes() && payload != false_bytes()) by {
                    if payload == true_bytes() {
                        assert(payload.len() == 4 && payload[0] == 116 && payload[1] == 114
                            && payload[2] == 117 && payload[3] == 101);
                    }
                    if payload == false_bytes() {
                        assert(payload.len() == 5 && payload[0] == 102 && payload[1] == 97
                            && payload[2] == 108 && payload[3] == 115 && payload[4] == 101);
                    }
                }
            }
            Err(CodecErr::BadPayload)
        }
    } else if tag == TAG_NULL {
        if plen == 0 {
            Ok((WireVal::Null, next))
        } else {
            Err(CodecErr::BadPayload)
        }
    } else if tag == TAG_LIST {
        match parse_items(msg, ps, ps + plen) {
            Err(e) => Err(e),
            Ok(its) => Ok((WireVal::List(its), next)),
        }
    } else if tag == TAG_DICT {
        match parse_pairs(msg, ps, ps + plen) {
            Err(e) => Err(e),
            Ok(prs) => Ok((WireVal::Dict(prs), next)),
        }
    } else {
        Err(CodecErr::BadTag)
    }
}

/// The frame of a value with the given payload and tag.
pub open spec fn frame_bytes(payload: Seq<u8>, tag: u8) -> Seq<u8> {
    dec_digits(payload.len()) + seq![LEN_SEP] + payload + seq![tag]
}

/// A list element can be re-encoded only when its payload is known, that
/// is, when it is a string.
pub open spec fn item_encodable(it: ItemModel) -> bool {
    it is Str
}

/// Every element of the run is encodable.
pub open spec fn items_encodable(its: Seq<ItemModel>) -> bool {
    forall|i: int| 0 <= i < its.len() ==> item_encodable(#[trigger] its[i])
}

/// A dictionary value can be re-encoded when it is a string or a list of
/// encodable elements.
pub open spec fn entry_encodable(e: EntryModel) -> bool {
    match e {
        EntryModel::Str(_) => true,
        EntryModel::List(its) => items_encodable(its),
        EntryModel::Other(_) => false,
    }
}

/// Every value of the pair run is encodable.
pub open spec fn pairs_encodable(prs: Seq<(Seq<u8>, EntryModel)>) -> bool {
    forall|i: int| 0 <= i < prs.len() ==> entry_encodable((#[trigger] prs[i]).1)
}

/// A wire value can be re-encoded when nothing in it is carried
/// shape-only.
pub open spec fn encodable(v: ValModel) -> bool {
    match v {
        ValModel::List(its) => items_encodable(its),
        ValModel::Dict(prs) => pairs_encodable(prs),
        _ => true,
    }
}

/// The encoding of one list element.
pub open spec fn item_bytes(it: ItemModel) -> Seq<u8>
    recommends
        item_encodable(it),
{
    match it {
        ItemModel::Str(b) => frame_bytes(b, TAG_STR),
        ItemModel::Other(_) => Seq::empty(),
    }
}

/// The encoding of a run of list elements, back to back.
pub open spec fn items_bytes(its: Seq<ItemModel>) -> Seq<u8>
    recommends
        items_encodable(its),
    decreases its.len(),
{
    if its.len() == 0 {
        Seq::empty()
    } else {
        item_bytes(its[0]) + items_bytes(its.drop_first())
    }
}

/// The encoding of one dictionary value.
pub open spec fn entry_bytes(e: EntryModel) -> Seq<u8>
    recommends
        entry_encodable(e),
{
    match e {
        EntryModel::Str(b) => frame_bytes(b, TAG_STR),
        EntryModel::List(its) => frame_bytes(items_bytes(its), TAG_LIST),
        EntryModel::Other(_) => Seq::empty(),
    }
}

/// The encoding of a run of key/value pairs, back to back.
pub open spec fn pairs_bytes(prs: Seq<(Seq<u8>, EntryModel)>) -> Seq<u8>
    recommends
        pairs_encodable(prs),
    decreases prs.len(),
{
    if prs.len() == 0 {
        Seq::empty()
    } else {
        frame_bytes(prs[0].0, TAG_STR) + entry_bytes(prs[0].1) + pairs_bytes(prs.drop_first())
    }
}

/// The encoding of a wire value.
pub open spec fn spec_encode(v: ValModel) -> Seq<u8>
    recommends
        encodable(v),
{
    match v {
        ValModel::Str(b) => frame_bytes(b, TAG_STR),
        ValModel::Int(b) => frame_bytes(b, TAG_INT),
        ValModel::Flt(b) => frame_bytes(b, TAG_FLT),
        ValModel::Boolean(t) => frame_bytes(
            if t {
                true_bytes()
            } else {
                false_bytes()
            },
            TAG_BOOL,
        ),
        ValModel::Null => frame_bytes(Seq::empty(), TAG_NULL),
        ValModel::List(its) => frame_bytes(items_bytes(its), TAG_LIST),
        ValModel::Dict(prs) => frame_bytes(pairs_bytes(prs), TAG_DICT),
    }
}

/// Encoding distributes over concatenation of element runs.
pub proof fn lemma_items_bytes_concat(a: Seq<ItemModel>, b: Seq<ItemModel>)
    ensures
        items_bytes(a + b) == items_bytes(a) + items_bytes(b),
    decreases a.len(),
{
    if a.len() == 0 {
        assert(a + b =~= b);
        assert(items_bytes(a) + items_bytes(b) =~= items_bytes(b));
    } else {
        assert((a + b).drop_first() =~= a.drop_first() + b);
        lemma_items_bytes_concat(a.drop_first(), b);
        assert(items_bytes(a + b) =~= items_bytes(a) + items_bytes(b));
    }
}

/// Encoding distributes over concatenation of pair runs.
pub proof fn lemma_pairs_bytes_concat(a: Seq<(Seq<u8>, EntryModel)>, b: Seq<(Seq<u8>, EntryModel)>)
    ensures
        pairs_bytes(a + b) == pairs_bytes(a) + pairs_bytes(b),
    decreases a.len(),
{
    if a.len() == 0 {
        assert(a + b =~= b);
        assert(pairs_bytes(a) + pairs_bytes(b) =~= pairs_bytes(b));
    } else {
        assert((a + b).drop_first() =~= a.drop_first() + b);
        lemma_pairs_bytes_concat(a.drop_first(), b);
        assert(pairs_bytes(a + b) =~= pairs_bytes(a) + pairs_bytes(b));
    }
}

/// Appends the frame of the given payload and tag.
fn push_frame(out: &mut Vec<u8>, payload: &[u8], tag: u8)
    ensures
        final(out)@ == old(out)@ + frame_bytes(payload@, tag),
{
    let mut digits = u64_dec_digits(payload.len() as u64);
    out.append(&mut digits);
    out.push(LEN_SEP);
    let mut body = vstd::slice::slice_to_vec(payload);
    out.append(&mut body);
    out.push(tag);
    proof {
        assert(out@ =~= old(out)@ + frame_bytes(payload@, tag));
    }
}

/// Encodes a run of list elements; `None` when an element is carried
/// shape-only, since its payload is not known.
fn encode_items(items: &Vec<WireItem>) -> (r: Option<Vec<u8>>)
    ensures
        match r {
            Some(b) => items_encodable(items_view(items@)) && b@ == items_bytes(
                items_view(items@),
            ),
            None => !items_encodable(items_view(items@)),
        },
{
    let ghost ms = items_view(items@);
    let mut out: Vec<u8> = Vec::new();
    let mut k: usize = 0;
    while k < items.len()
        invariant
            k <= items.len(),
            ms == items_view(items@),
            items_encodable(ms.take(k as int)),
            out@ == items_bytes(ms.take(k as int)),
        decreases items.len() - k,
    {
        match &items[k] {
            WireItem::Str(b) => {
                push_frame(&mut out, b.as_slice(), TAG_STR);
                proof {
                    assert(ms.take(k as int + 1) =~= ms.take(k as int) + seq![ms[k as int]]);
                    lemma_items_bytes_concat(ms.take(k as int), seq![ms[k as int]]);
                    assert(seq![ms[k as int]].drop_first() =~= Seq::<ItemModel>::empty());
                    assert(items_bytes(Seq::<ItemModel>::empty()) == Seq::<u8>::empty());
                    assert(items_bytes(seq![ms[k as int]]) == item_bytes(seq![ms[k as int]][0])
                        + items_bytes(seq![ms[k as int]].drop_first()));
                    assert(items_bytes(seq![ms[k as int]]) =~= item_bytes(ms[k as int]));
                    assert(out@ =~= items_bytes(ms.take(k as int + 1)));
                }
            },
            WireItem::Other(_) => {
                proof {
                    assert(!item_encodable(ms[k as int]));
                }
                return None;
            },
        }
        k += 1;
    }
    proof {
        assert(ms.take(k as int) =~= ms);
    }
    Some(out)
}

/// Encodes a run of key/value pairs; `None` when a value is carried
/// shape-only.
fn encode_pairs(pairs: &Vec<(Vec<u8>, WireEntry)>) -> (r: Option<Vec<u8>>)
    ensures
        match r {
            Some(b) => pairs_encodable(pairs_view(pairs@)) && b@ == pairs_bytes(
                pairs_view(pairs@),
            ),
            None => !pairs_encodable(pairs_view(pairs@)),
        },
{
    let ghost ms = pairs_view(pairs@);
    let mut out: Vec<u8> = Vec::new();
    let mut k: usize = 0;
    while k < pairs.len()
        invariant
            k <= pairs.len(),
            ms == pairs_view(pairs@),
            pairs_encodable(ms.take(k as int)),
            out@ == pairs_bytes(ms.take(k as int)),
        decreases pairs.len() - k,
    {
        let pair = &pairs[k];
        push_frame(&mut out, pair.0.as_slice(), TAG_STR);
        match &pair.1 {
            WireEntry::Str(b) => {
                push_frame(&mut out, b.as_slice(), TAG_STR);
            },
            WireEntry::List(items) => {
                match encode_items(items) {
                    Some(payload) => {
                        push_frame(&mut out, payload.as_slice(), TAG_LIST);
                    },
                    None => {
                        proof {
                            assert(!entry_encodable(ms[k as int].1));
                        }
                        return None;
                    },
                }
            },
            WireEntry::Other(_) => {
                proof {
                    assert(!entry_encodable(ms[k as int].1));
                }
                return None;
            },
        }
        proof {
            assert(ms.take(k as int + 1) =~= ms.take(k as int) + seq![ms[k as int]]);
            lemma_pairs_bytes_concat(ms.take(k as int), seq![ms[k as int]]);
            assert(seq![ms[k as int]].drop_first() =~= Seq::<(Seq<u8>, EntryModel)>::empty());
            assert(pairs_bytes(Seq::<(Seq<u8>, EntryModel)>::empty()) == Seq::<u8>::empty());
            assert(pairs_bytes(seq![ms[k as int]]) == frame_bytes(seq![ms[k as int]][0].0, TAG_STR)
                + entry_bytes(seq![ms[k as int]][0].1) + pairs_bytes(
                seq![ms[k as int]].drop_first(),
            ));
            assert(pairs_bytes(seq![ms[k as int]]) =~= frame_bytes(ms[k as int].0, TAG_STR)
                + entry_bytes(ms[k as int].1));
            assert(out@ =~= pairs_bytes(ms.take(k as int + 1)));
        }
        k += 1;
    }
    proof {
        assert(ms.take(k as int) =~= ms);
    }
    Some(out)
}

/// Encodes a wire value; `None` when the value holds something carried
/// shape-only, whose payload the decoder did not keep.
pub fn encode(v: &WireVal) -> (r: Option<Vec<u8>>)
    ensures
        match r {
            Some(b) => encodable(v@) && b@ == spec_encode(v@),
            None => !encodable(v@),
        },
{
    let mut out: Vec<u8> = Vec::new();
    match v {
        WireVal::Str(b) => {
            push_frame(&mut out, b.as_slice(), TAG_STR);
            Some(out)
        },
        WireVal::Int(b) => {
            push_frame(&mut out, b.as_slice(), TAG_INT);
            Some(out)
        },
        WireVal::Flt(b) => {
            push_frame(&mut out, b.as_slice(), TAG_FLT);
            Some(out)
        },
        WireVal::Boolean(t) => {
            let mut payload: Vec<u8> = Vec::new();
            if *t {
                payload.push(116);
                payload.push(114);
                payload.push(117);
                payload.push(101);
                proof {
                    assert(payload@ =~= true_bytes());
                }
            } else {
                payload.push(102);
                payload.push(97);
                payload.push(108);
                payload.push(115);
                payload.push(101);
                proof {
                    assert(payload@ =~= false_bytes());
                }
            }
            push_frame(&mut out, payload.as_slice(), TAG_BOOL);
            Some(out)
        },
        WireVal::Null => {
            let payload: Vec<u8> = Vec::new();
            push_frame(&mut out, payload.as_slice(), TAG_NULL);
            Some(out)
        },
        WireVal::List(items) => match encode_items(items) {
            Some(payload) => {
                push_frame(&mut out, payload.as_slice(), TAG_LIST);
                Some(out)
            },
            None => None,
        },
        WireVal::Dict(pairs) => match encode_pairs(pairs) {
            Some(payload) => {
                push_frame(&mut out, payload.as_slice(), TAG_DICT);
                Some(out)
            },
            None => None,
        },
    }
}

/// Two runs laid back to back in `s` are each the subrange where they
/// stand.
pub proof fn lemma_concat_subranges(s: Seq<u8>, start: int, a: Seq<u8>, b: Seq<u8>)
    requires
        0 <= start,
        start + a.len() + b.len() <= s.len(),
        s.subrange(start, start + a.len() + b.len()) == a + b,
    ensures
        s.subrange(start, start + a.len()) == a,
        s.subrange(start + a.len(), start + a.len() + b.len()) == b,
{
    let whole = s.subrange(start, start + a.len() + b.len());
    assert(s.subrange(start, start + a.len()) =~= whole.subrange(0, a.len() as int));
    assert(whole.subrange(0, a.len() as int) =~= a);
    assert(s.subrange(start + a.len(), start + a.len() + b.len()) =~= whole.subrange(
        a.len() as int,
        a.len() + b.len() as int,
    ));
    assert(whole.subrange(a.len() as int, a.len() + b.len() as int) =~= b);
}

/// Where the frame of a known payload and tag lies in `s`, reading the
/// framing finds exactly that payload and tag.
pub proof fn lemma_frame_bytes_decode(s: Seq<u8>, start: int, end: int, payload: Seq<u8>, tag: u8)
    requires
        0 <= start,
        start + frame_bytes(payload, tag).len() <= end <= s.len(),
        s.subrange(start, start + frame_bytes(payload, tag).len()) == frame_bytes(payload, tag),
    ensures
        spec_frame(s, start, end) == Ok::<FrameModel, CodecErr>(
            FrameModel {
                payload_start: start + dec_digits(payload.len()).len() + 1,
                payload_len: payload.len() as int,
                tag,
                next: start + frame_bytes(payload, tag).len(),
            },
        ),
        s.subrange(
            start + dec_digits(payload.len()).len() + 1,
            start + dec_digits(payload.len()).len() + 1 + payload.len(),
        ) == payload,
{
    let d = dec_digits(payload.len());
    let dl = d.len() as int;
    let fb = frame_bytes(payload, tag);
    lemma_dec_digits_are_digits(payload.len());
    lemma_dec_val_of_dec_digits(payload.len());
    lemma_concat_subranges(s, start, d + seq![LEN_SEP] + payload, seq![tag]);
    lemma_concat_subranges(s, start, d + seq![LEN_SEP], payload);
    lemma_concat_subranges(s, start, d, seq![LEN_SEP]);
    assert(s.subrange(start, start + dl) == d);
    assert(s[start + dl] == LEN_SEP) by {
        assert(s.subrange(start + dl, start + dl + 1) =~= seq![LEN_SEP]);
        assert(s.subrange(start + dl, start + dl + 1)[0] == s[start + dl]);
    }
    assert(s[start + dl + 1 + payload.len()] == tag) by {
        assert(s.subrange(
            start + dl + 1 + payload.len(),
            start + dl + 1 + payload.len() + 1,
        ) =~= seq![tag]);
        assert(s.subrange(start + dl + 1 + payload.len(), start + dl + 1 + payload.len() + 1)[0]
            == s[start + dl + 1 + payload.len()]);
    }
    assert(forall|j: int| start <= j < start + dl ==> is_digit(#[trigger] s[j])) by {
        assert(forall|j: int| start <= j < start + dl ==> s[j] == s.subrange(start, start + dl)[
            j - start
        ]);
    }
    lemma_scan_digits_run(s, start, end, start + dl);
    assert(dec_val(s.subrange(start, start + dl)) == payload.len());
}

/// Where the encoding of an encodable element run exactly fills
/// `s[start..end]`, decoding that region gives the run back.
pub proof fn lemma_items_bytes_decode(s: Seq<u8>, start: int, end: int, its: Seq<ItemModel>)
    requires
        0 <= start,
        items_encodable(its),
        end == start + items_bytes(its).len(),
        end <= s.len(),
        s.subrange(start, end) == items_bytes(its),
    ensures
        spec_items(s, start, end) == Ok::<Seq<ItemModel>, CodecErr>(its),
    decreases its.len(),
{
    if its.len() == 0 {
        assert(its =~= Seq::<ItemModel>::empty());
    } else {
        let b = its[0]->Str_0;
        let head = frame_bytes(b, TAG_STR);
        let rest = its.drop_first();
        assert(items_bytes(its) == head + items_bytes(rest));
        lemma_concat_subranges(s, start, head, items_bytes(rest));
        lemma_frame_bytes_decode(s, start, end, b, TAG_STR);
        let mid = start + head.len();
        assert(items_encodable(rest)) by {
            assert(forall|i: int| 0 <= i < rest.len() ==> rest[i] == its[i + 1]);
        }
        lemma_items_bytes_decode(s, mid, end, rest);
        assert(spec_items(s, start, end) == Ok::<Seq<ItemModel>, CodecErr>(seq![its[0]] + rest));
        assert(seq![its[0]] + rest =~= its);
    }
}

/// Where the encoding of an encodable pair run exactly fills
/// `s[start..end]`, decoding that region gives the run back.
pub proof fn lemma_pairs_bytes_decode(s: Seq<u8>, start: int, end: int, prs: Seq<
    (Seq<u8>, EntryModel),
>)
    requires
        0 <= start,
        pairs_encodable(prs),
        end == start + pairs_bytes(prs).len(),
        end <= s.len(),
        s.subrange(start, end) == pairs_bytes(prs),
    ensures
        spec_pairs(s, start, end) == Ok::<Seq<(Seq<u8>, EntryModel)>, CodecErr>(prs),
    decreases prs.len(),
{
    if prs.len() == 0 {
        assert(prs =~= Seq::<(Seq<u8>, EntryModel)>::empty());
    } else {
        let key = prs[0].0;
        let entry = prs[0].1;
        let khead = frame_bytes(key, TAG_STR);
        let vhead = entry_bytes(entry);
        let rest = prs.drop_first();
        assert(pairs_bytes(prs) == khead + vhead + pairs_bytes(rest));
        assert(khead + vhead + pairs_bytes(rest) =~= khead + (vhead + pairs_bytes(rest)));
        lemma_concat_subranges(s, start, khead, vhead + pairs_bytes(rest));
        lemma_concat_subranges(s, start + khead.len(), vhead, pairs_bytes(rest));
        lemma_frame_bytes_decode(s, start, end, key, TAG_STR);
        let kend = start + khead.len();
        match entry {
            EntryModel::Str(b) => {
                lemma_frame_bytes_decode(s, kend, end, b, TAG_STR);
            },
            EntryModel::List(inner) => {
                lemma_frame_bytes_decode(s, kend, end, items_bytes(inner), TAG_LIST);
                let ps = kend + dec_digits(items_bytes(inner).len()).len() + 1;
                lemma_items_bytes_decode(s, ps, ps + items_bytes(inner).len(), inner);
            },
            EntryModel::Other(_) => {
                assert(false);
            },
        }
        let mid = kend + vhead.len();
        assert(pairs_encodable(rest)) by {
            assert(forall|i: int| 0 <= i < rest.len() ==> rest[i] == prs[i + 1]);
        }
        lemma_pairs_bytes_decode(s, mid, end, rest);
        assert(spec_pairs(s, start, end) == Ok::<Seq<(Seq<u8>, EntryModel)>, CodecErr>(
            seq![prs[0]] + rest,
        ));
        assert(seq![prs[0]] + rest =~= prs);
    }
}

/// Round trip: where the encoding of an encodable value lies at `start`,
/// decoding from `start` gives the value back and stops right after it.
pub proof fn lemma_spec_encode_decode(s: Seq<u8>, start: int, end: int, v: ValModel)
    requires
        encodable(v),
        0 <= start,
        start + spec_encode(v).len() <= end <= s.len(),
        s.subrange(start, start + spec_encode(v).len()) == spec_encode(v),
    ensures
        spec_decode(s, start, end) == Ok::<(ValModel, int), CodecErr>(
            (v, start + spec_encode(v).len()),
        ),
{
    match v {
        ValModel::Str(b) => {
            lemma_frame_bytes_decode(s, start, end, b, TAG_STR);
        },
        ValModel::Int(b) => {
            lemma_frame_bytes_decode(s, start, end, b, TAG_INT);
        },
        ValModel::Flt(b) => {
            lemma_frame_bytes_decode(s, start, end, b, TAG_FLT);
        },
        ValModel::Boolean(t) => {
            if t {
                lemma_frame_bytes_decode(s, start, end, true_bytes(), TAG_BOOL);
            } else {
                lemma_frame_bytes_decode(s, start, end, false_bytes(), TAG_BOOL);
                assert(false_bytes() != true_bytes()) by {
                    assert(false_bytes().len() != true_bytes().len());
                }
            }
        },
        ValModel::Null => {
            lemma_frame_bytes_decode(s, start, end, Seq::empty(), TAG_NULL);
        },
        ValModel::List(its) => {
            lemma_frame_bytes_decode(s, start, end, items_bytes(its), TAG_LIST);
            let ps = start + dec_digits(items_bytes(its).len()).len() + 1;
            lemma_items_bytes_decode(s, ps, ps + items_bytes(its).len(), its);
        },
        ValModel::Dict(prs) => {
            lemma_frame_bytes_decode(s, start, end, pairs_bytes(prs), TAG_DICT);
            let ps = start + dec_digits(pairs_bytes(prs).len()).len() + 1;
            lemma_pairs_bytes_decode(s, ps, ps + pairs_bytes(prs).len(), prs);
        },
    }
}

} // verus!
