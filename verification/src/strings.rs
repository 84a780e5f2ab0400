//! Conversions between byte sequences and character strings.
//!
//! The wire carries bytes; the decoded request carries strings.  The
//! correspondence is UTF-8, specified by `vstd::utf8`: a string value
//! stands for the byte sequence `encode_utf8` of its characters, and a
//! byte region becomes a string exactly when `valid_utf8` holds of it.

use vstd::prelude::*;
use vstd::utf8::char_is_scalar;
use vstd::utf8::char_u32_cast;
use vstd::utf8::decode_utf8;
use vstd::utf8::encode_scalar;
use vstd::utf8::encode_utf8;
use vstd::utf8::encode_utf8_decode_utf8;
use vstd::utf8::has_width_1_encoding;
use vstd::utf8::leading_byte_width_1;
use vstd::utf8::valid_utf8;

verus! {

/// Relies on std's `String::from_utf8`: it succeeds exactly when the
/// bytes are valid UTF-8, and then returns the string whose UTF-8
/// encoding is exactly those bytes.
#[verifier::external_body]
pub(crate) fn string_from_utf8(bytes: Vec<u8>) -> (r: Option<String>)
    ensures
        r is Some <==> valid_utf8(bytes@),
        r matches Some(s) ==> encode_utf8(s@) == bytes@,
{
    String::from_utf8(bytes).ok()
}

/// A string recovered from bytes reads back as their decoding.
pub proof fn lemma_recovered_string(s: Seq<char>, bytes: Seq<u8>)
    requires
        encode_utf8(s) == bytes,
    ensures
        valid_utf8(bytes),
        decode_utf8(bytes) == s,
{
    vstd::utf8::encode_utf8_valid_utf8(s);
    encode_utf8_decode_utf8(s);
}

/// String equality, decided on the UTF-8 bytes.
pub fn str_eq(a: &str, b: &str) -> (r: bool)
    ensures
        r == (a@ == b@),
{
    let ab = a.as_bytes();
    let bb = b.as_bytes();
    proof {
        encode_utf8_decode_utf8(a@);
        encode_utf8_decode_utf8(b@);
    }
    if ab.len() != bb.len() {
        return false;
    }
    let n = ab.len();
    let mut i: usize = 0;
    while i < n
        invariant
            n == ab@.len() == bb@.len(),
            i <= n,
            ab@ == encode_utf8(a@),
            bb@ == encode_utf8(b@),
            forall|j: int| 0 <= j < i ==> ab@[j] == bb@[j],
        decreases n - i,
    {
        if ab[i] != bb[i] {
            return false;
        }
        i += 1;
    }
    proof {
        assert(ab@ =~= bb@);
    }
    true
}

/// A string without a space character encodes without the space byte:
/// a one-byte encoding is the character's own code and a longer one
/// uses bytes of 128 and above only.
pub proof fn lemma_space_free_encode(s: Seq<char>)
    requires
        !s.contains(' '),
    ensures
        !encode_utf8(s).contains(32u8),
    decreases s.len(),
{
    if s.len() > 0 {
        let c = s[0];
        char_is_scalar(c);
        let sc = c as u32;
        let head = encode_scalar(sc);
        let rest = s.drop_first();
        assert(!rest.contains(' ')) by {
            if rest.contains(' ') {
                let i = choose|i: int| 0 <= i < rest.len() && rest[i] == ' ';
                assert(s[i + 1] == ' ');
            }
        }
        lemma_space_free_encode(rest);
        let tail = encode_utf8(rest);
        assert(forall|j: int| 0 <= j < head.len() ==> #[trigger] head[j] != 32u8) by {
            if has_width_1_encoding(sc) {
                assert(sc < 0x80 && leading_byte_width_1(sc) == 32u8 ==> sc == 32) by (bit_vector);
                if head[0] == 32u8 {
                    char_u32_cast(c, sc);
                    assert(' ' as u32 == 32);
                    char_u32_cast(' ', 32);
                    assert(s.contains(' ')) by {
                        assert(s[0] == ' ');
                    }
                }
            } else {
                assert((0xC0u8 | (((sc >> 6) & 0x1F) as u8)) != 32u8) by (bit_vector);
                assert((0xE0u8 | (((sc >> 12) & 0x0F) as u8)) != 32u8) by (bit_vector);
                assert((0xF0u8 | (((sc >> 18) & 0x7) as u8)) != 32u8) by (bit_vector);
                assert((0x80u8 | ((sc & 0x3F) as u8)) != 32u8) by (bit_vector);
                assert((0x80u8 | (((sc >> 6) & 0x3F) as u8)) != 32u8) by (bit_vector);
                assert((0x80u8 | (((sc >> 12) & 0x3F) as u8)) != 32u8) by (bit_vector);
            }
        }
        assert(encode_utf8(s) == head + tail);
        assert(!encode_utf8(s).contains(32u8)) by {
            if encode_utf8(s).contains(32u8) {
                let j = choose|j: int|
                    0 <= j < encode_utf8(s).len() && encode_utf8(s)[j] == 32u8;
                if j < head.len() {
                    assert(head[j] == 32u8);
                } else {
                    assert(tail[j - head.len()] == 32u8);
                    assert(tail.contains(32u8)) by {
                        assert(tail[j - head.len()] == 32u8);
                    }
                }
            }
        }
    }
}

/// A string with a space character encodes with the space byte: the
/// space is its own one-byte encoding.
pub proof fn lemma_space_in_encode(s: Seq<char>)
    requires
        s.contains(' '),
    ensures
        encode_utf8(s).contains(32u8),
    decreases s.len(),
{
    let c = s[0];
    char_is_scalar(c);
    let head = encode_scalar(c as u32);
    let tail = encode_utf8(s.drop_first());
    assert(encode_utf8(s) == head + tail);
    if c == ' ' {
        assert(' ' as u32 == 32);
        assert(has_width_1_encoding(32));
        assert(leading_byte_width_1(32) == 32u8) by (bit_vector);
        assert(encode_utf8(s)[0] == 32u8);
        assert(encode_utf8(s).contains(32u8));
    } else {
        let i = choose|i: int| 0 <= i < s.len() && s[i] == ' ';
        assert(s.drop_first()[i - 1] == ' ');
        assert(s.drop_first().contains(' '));
        lemma_space_in_encode(s.drop_first());
        let j = choose|j: int| 0 <= j < tail.len() && tail[j] == 32u8;
        assert(encode_utf8(s)[head.len() + j] == 32u8);
        assert(encode_utf8(s).contains(32u8));
    }
}

} // verus!
