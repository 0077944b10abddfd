//! Small helpers shared by the codec: compression-pointer detection,
//! master-file name escaping, and base64 for DNSSEC key material.

use vstd::prelude::*;
use crate::errors::DnsError;

verus! {

/// True iff the two top bits of `b` are set, which marks a compression pointer.
pub open spec fn is_pointer_byte(b: u8) -> bool {
    b & 0xC0 == 0xC0
}

/// The 14-bit offset packed into a two-byte compression pointer.
pub open spec fn pointer_offset(hi: u8, lo: u8) -> int {
    (hi & 0x3F) * 256 + lo
}

/// Reads a potential compression pointer from two bytes.
///
/// The result is `(offset, true)` when the top two bits of the first byte are
/// set (the pointer mark of RFC 1035 §4.1.4), with `offset` the 14-bit value
/// formed by the low six bits of the first byte and all of the second.
pub fn is_compressed(pointer: [u8; 2]) -> (r: (usize, bool))
    ensures
        r.1 == is_pointer_byte(pointer@[0]),
        r.0 == pointer_offset(pointer@[0], pointer@[1]),
        r.0 < 0x4000,
{
    let hi = pointer[0];
    let lo = pointer[1];
    let off: usize = ((hi & 0x3F) as usize) * 256 + (lo as usize);
    assert((hi & 0x3F) < 64) by (bit_vector);
    (off, hi & 0xC0 == 0xC0)
}

/// Reads a potential compression pointer from the head of a slice.
///
/// A slice shorter than two bytes cannot hold a pointer and yields `(0, false)`.
pub fn is_compressed_wrap(raw: &[u8]) -> (r: (usize, bool))
    ensures
        raw@.len() < 2 ==> r == (0usize, false),
        raw@.len() >= 2 ==> r.1 == is_pointer_byte(raw@[0]) && r.0 == pointer_offset(
            raw@[0],
            raw@[1],
        ),
{
    if raw.len() < 2 {
        return (0, false);
    }
    is_compressed([raw[0], raw[1]])
}

/// Replaces an empty owner name by the literal `NONE` so that a master-file
/// line keeps its column count.
pub fn encode_name(name: &str) -> (r: &str)
    ensures
        name@.len() == 0 ==> r@ == "NONE"@,
        name@.len() != 0 ==> r@ == name@,
{
    if name.is_empty() {
        return "NONE";
    }
    name
}

/// Undoes [`encode_name`]: the literal `NONE` reads back as the empty name.
pub fn decode_name<'a>(src: &'a str) -> (r: &'a str)
    ensures
        src@ == "NONE"@ ==> r@.len() == 0,
        src@ != "NONE"@ ==> r@ == src@,
{
    proof {
        reveal_strlit("NONE");
        reveal_strlit("");
    }
    if src.unicode_len() == 4 && src.get_char(0) == 'N' && src.get_char(1) == 'O' && src.get_char(2)
        == 'N' && src.get_char(3) == 'E' {
        assert(src@ =~= "NONE"@);
        return "";
    }
    assert(src@ != "NONE"@);
    src
}

/// The character sequence that the standard padded base64 alphabet assigns to
/// a byte sequence.  Named, not spelled out: the alphabet table is the
/// outside crate's concern.
pub uninterp spec fn base64_chars_of(bytes: Seq<u8>) -> Seq<char>;

/// What standard padded base64 decoding yields for a character sequence:
/// `None` where the text is not canonical padded base64.
pub uninterp spec fn base64_decode_of(text: Seq<u8>) -> Option<Seq<u8>>;

/// Relies on base64's `Engine::encode` with the standard padded engine:
/// the output is a function of the input bytes alone, four characters for
/// every three bytes, padded.
#[verifier::external_body]
pub fn base64_encode(bytes: &[u8]) -> (r: String)
    requires
        bytes@.len() <= 0x10000000,
    ensures
        r@ == base64_chars_of(bytes@),
        r@.len() == 4 * ((bytes@.len() + 2) / 3),
        bytes@.len() == 0 ==> r@.len() == 0,
{
    base64::Engine::encode(&base64::engine::general_purpose::STANDARD, bytes)
}

/// base64's own error type for text that does not decode.
#[verifier::external_type_specification]
#[verifier::external_body]
pub struct ExDecodeError(base64::DecodeError);

/// Relies on base64's `Engine::decode` with the standard padded engine:
/// decoding depends on the input bytes alone and fails exactly on text that
/// is not canonical padded base64.
#[verifier::external_body]
fn base64_decode_raw(text: &[u8]) -> (r: Result<Vec<u8>, base64::DecodeError>)
    ensures
        match r {
            Ok(v) => base64_decode_of(text@) == Some(v@),
            Err(_) => base64_decode_of(text@) is None,
        },
{
    base64::Engine::decode(&base64::engine::general_purpose::STANDARD, text)
}

/// Standard padded base64 decoding, with the outside error mapped to the
/// library's own.
pub fn base64_decode(text: &[u8]) -> (r: Result<Vec<u8>, DnsError>)
    ensures
        match r {
            Ok(v) => base64_decode_of(text@) == Some(v@),
            Err(e) => base64_decode_of(text@) is None && e == DnsError::Malformed,
        },
{
    match base64_decode_raw(text) {
        Ok(v) => Ok(v),
        Err(_) => Err(DnsError::Malformed),
    }
}


/// The big-endian 16-bit integer at offset `i`.
pub open spec fn be16(buf: Seq<u8>, i: int) -> u16 {
    (buf[i] as u16 * 256 + buf[i + 1] as u16) as u16
}

/// The two big-endian bytes of a 16-bit integer.
pub open spec fn be16_bytes(x: u16) -> Seq<u8> {
    seq![(x >> 8) as u8, (x & 0xFF) as u8]
}

/// The big-endian 32-bit integer at offset `i`.
pub open spec fn be32(buf: Seq<u8>, i: int) -> u32 {
    (buf[i] as u32 * 0x1000000 + buf[i + 1] as u32 * 0x10000 + buf[i + 2] as u32 * 0x100 + buf[i
        + 3] as u32) as u32
}

/// The four big-endian bytes of a 32-bit integer.
pub open spec fn be32_bytes(x: u32) -> Seq<u8> {
    seq![(x >> 24) as u8, ((x >> 16) & 0xFF) as u8, ((x >> 8) & 0xFF) as u8, (x & 0xFF) as u8]
}

/// Reads the big-endian 16-bit integer at offset `i`.
pub fn read_u16_at(raw: &[u8], i: usize) -> (r: u16)
    requires
        i + 2 <= raw@.len(),
    ensures
        r == be16(raw@, i as int),
{
    (raw[i] as u16) * 256 + (raw[i + 1] as u16)
}

/// Reads the big-endian 32-bit integer at offset `i`.
pub fn read_u32_at(raw: &[u8], i: usize) -> (r: u32)
    requires
        i + 4 <= raw@.len(),
    ensures
        r == be32(raw@, i as int),
{
    (raw[i] as u32) * 0x1000000 + (raw[i + 1] as u32) * 0x10000 + (raw[i + 2] as u32) * 0x100 + (
    raw[i + 3] as u32)
}

/// Appends a 16-bit integer in big-endian order.
pub fn push_u16(out: &mut Vec<u8>, x: u16)
    ensures
        final(out)@ == old(out)@ + be16_bytes(x),
{
    out.push((x >> 8) as u8);
    out.push((x & 0xFF) as u8);
    proof {
        assert(out@ =~= old(out)@ + be16_bytes(x));
    }
}

/// Appends a 32-bit integer in big-endian order.
pub fn push_u32(out: &mut Vec<u8>, x: u32)
    ensures
        final(out)@ == old(out)@ + be32_bytes(x),
{
    out.push((x >> 24) as u8);
    out.push(((x >> 16) & 0xFF) as u8);
    out.push(((x >> 8) & 0xFF) as u8);
    out.push((x & 0xFF) as u8);
    proof {
        assert(out@ =~= old(out)@ + be32_bytes(x));
    }
}

} // verus!
