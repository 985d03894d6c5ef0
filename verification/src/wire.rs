//! Big-endian integers and length-prefixed UTF-8 text on a byte buffer.

use vstd::prelude::*;
use vstd::slice::*;
use vstd::string::*;
use vstd::utf8::*;

verus! {

/// Why a byte sequence could not be read as a value.
#[derive(Debug, Clone, Copy, PartialEq, Eq, Structural)]
pub enum DecodeError {
    /// The input ends before the value does.
    UnexpectedEof,
    /// A text field holds bytes that are not UTF-8.
    InvalidUtf8,
    /// The tag names no packet variant; the tag is carried along.
    UnrecognizedVariant(u16),
}

/// Why a value has no encoding.
#[derive(Debug, Clone, Copy, PartialEq, Eq, Structural)]
pub enum EncodeError {
    /// A length does not fit the 32-bit length prefix.
    TooLong,
}

/// The two bytes of `x`, most significant first.
pub open spec fn be16(x: u16) -> Seq<u8> {
    seq![(x / 256) as u8, (x % 256) as u8]
}

/// The four bytes of `x`, most significant first.
pub open spec fn be32(x: u32) -> Seq<u8> {
    seq![
        (x / 16777216) as u8,
        (x / 65536 % 256) as u8,
        (x / 256 % 256) as u8,
        (x % 256) as u8,
    ]
}

/// The number whose big-endian bytes are `b[at]`, `b[at + 1]`.
pub open spec fn u16_at(b: Seq<u8>, at: int) -> u16 {
    (b[at] * 256 + b[at + 1]) as u16
}

/// The number whose big-endian bytes are `b[at]` to `b[at + 3]`.
pub open spec fn u32_at(b: Seq<u8>, at: int) -> u32 {
    (b[at] * 16777216 + b[at + 1] * 65536 + b[at + 2] * 256 + b[at + 3]) as u32
}

/// A text field: the byte length of its UTF-8 form, then those bytes.
pub open spec fn text_field(s: Seq<char>) -> Seq<u8> {
    be32(encode_utf8(s).len() as u32) + encode_utf8(s)
}

/// Reading back what `be16` wrote gives the number again, whatever follows.
pub proof fn lemma_u16_round_trip(x: u16, rest: Seq<u8>)
    ensures
        u16_at(be16(x) + rest, 0) == x,
        (be16(x) + rest).len() == 2 + rest.len(),
        (be16(x) + rest).subrange(2, 2 + rest.len() as int) == rest,
{
    let b = be16(x) + rest;
    assert(b[0] == (x / 256) as u8);
    assert(b[1] == (x % 256) as u8);
    assert(b.subrange(2, 2 + rest.len() as int) =~= rest);
}

/// Reading back what `be32` wrote gives the number again, whatever follows.
pub proof fn lemma_u32_round_trip(x: u32, rest: Seq<u8>)
    ensures
        u32_at(be32(x) + rest, 0) == x,
        (be32(x) + rest).len() == 4 + rest.len(),
        (be32(x) + rest).subrange(4, 4 + rest.len() as int) == rest,
{
    let b = be32(x) + rest;
    assert(b[0] == (x / 16777216) as u8);
    assert(b[1] == (x / 65536 % 256) as u8);
    assert(b[2] == (x / 256 % 256) as u8);
    assert(b[3] == (x % 256) as u8);
    assert(b.subrange(4, 4 + rest.len() as int) =~= rest);
}

/// Appends `x` as two big-endian bytes.
pub fn write_u16(out: &mut Vec<u8>, x: u16)
    ensures
        final(out)@ == old(out)@ + be16(x),
{
    out.push((x / 256) as u8);
    out.push((x % 256) as u8);
    assert(out@ =~= old(out)@ + be16(x));
}

/// Appends `x` as four big-endian bytes.
pub fn write_u32(out: &mut Vec<u8>, x: u32)
    ensures
        final(out)@ == old(out)@ + be32(x),
{
    out.push((x / 16777216) as u8);
    out.push((x / 65536 % 256) as u8);
    out.push((x / 256 % 256) as u8);
    out.push((x % 256) as u8);
    assert(out@ =~= old(out)@ + be32(x));
}

/// Reads two big-endian bytes at `*pos` and steps over them.
pub fn read_u16(data: &[u8], pos: &mut usize) -> (r: Result<u16, DecodeError>)
    ensures
        r is Ok <==> *old(pos) + 2 <= data@.len(),
        r matches Ok(x) ==> x == u16_at(data@, *old(pos) as int) && *final(pos) == *old(pos) + 2,
        r matches Err(e) ==> e == DecodeError::UnexpectedEof && *final(pos) == *old(pos),
{
    let at: usize = *pos;
    if data.len() < at || data.len() - at < 2 {
        return Err(DecodeError::UnexpectedEof);
    }
    let hi: u16 = data[at] as u16;
    let lo: u16 = data[at + 1] as u16;
    *pos = at + 2;
    Ok(hi * 256 + lo)
}

/// Reads four big-endian bytes at `*pos` and steps over them.
pub fn read_u32(data: &[u8], pos: &mut usize) -> (r: Result<u32, DecodeError>)
    ensures
        r is Ok <==> *old(pos) + 4 <= data@.len(),
        r matches Ok(x) ==> x == u32_at(data@, *old(pos) as int) && *final(pos) == *old(pos) + 4,
        r matches Err(e) ==> e == DecodeError::UnexpectedEof && *final(pos) == *old(pos),
{
    let at: usize = *pos;
    if data.len() < at || data.len() - at < 4 {
        return Err(DecodeError::UnexpectedEof);
    }
    let b0: u32 = data[at] as u32;
    let b1: u32 = data[at + 1] as u32;
    let b2: u32 = data[at + 2] as u32;
    let b3: u32 = data[at + 3] as u32;
    *pos = at + 4;
    Ok(b0 * 16777216 + b1 * 65536 + b2 * 256 + b3)
}

/// What a text field at `at` holds and where the next field starts, or why
/// there is none.
pub open spec fn text_at(b: Seq<u8>, at: int) -> Result<(Seq<char>, int), DecodeError> {
    if at + 4 > b.len() {
        Err(DecodeError::UnexpectedEof)
    } else {
        let end = at + 4 + u32_at(b, at);
        if end > b.len() {
            Err(DecodeError::UnexpectedEof)
        } else if !valid_utf8(b.subrange(at + 4, end)) {
            Err(DecodeError::InvalidUtf8)
        } else {
            Ok((decode_utf8(b.subrange(at + 4, end)), end))
        }
    }
}

/// A text field that was written is read back as the same text, whatever
/// follows it.
pub proof fn lemma_text_round_trip(s: Seq<char>, rest: Seq<u8>)
    requires
        encode_utf8(s).len() <= u32::MAX,
    ensures
        text_at(text_field(s) + rest, 0) == Ok::<(Seq<char>, int), DecodeError>(
            (s, text_field(s).len() as int),
        ),
        text_field(s).len() == 4 + encode_utf8(s).len(),
{
    let body = encode_utf8(s);
    let n = body.len() as u32;
    let b = text_field(s) + rest;
    assert(b =~= be32(n) + (body + rest));
    lemma_u32_round_trip(n, body + rest);
    assert(b.subrange(4, 4 + n) =~= body);
    encode_utf8_valid_utf8(s);
    encode_utf8_decode_utf8(s);
}

/// `String::from_utf8`: the text that `bytes` encode, or `None` where they are
/// not UTF-8. UTF-8 is what `vstd::utf8` defines.
#[verifier::external_body]
fn string_from_utf8(bytes: Vec<u8>) -> (r: Option<String>)
    ensures
        r is Some <==> valid_utf8(bytes@),
        r matches Some(s) ==> s@ == decode_utf8(bytes@),
{
    match String::from_utf8(bytes) {
        Ok(s) => Some(s),
        Err(_) => None,
    }
}

/// Appends `s` as a text field. A text of more than `u32::MAX` bytes has no
/// length prefix and is refused; `out` is then left as it was.
pub fn write_string(out: &mut Vec<u8>, s: &str) -> (r: Result<(), EncodeError>)
    ensures
        r is Ok <==> encode_utf8(s@).len() <= u32::MAX,
        r is Ok ==> final(out)@ == old(out)@ + text_field(s@),
        r matches Err(e) ==> e == EncodeError::TooLong && final(out)@ == old(out)@,
{
    let bytes = s.as_bytes();
    if bytes.len() as u64 > 0xffff_ffff {
        return Err(EncodeError::TooLong);
    }
    write_u32(out, bytes.len() as u32);
    out.extend_from_slice(bytes);
    assert(out@ =~= old(out)@ + text_field(s@));
    Ok(())
}

/// Reads a text field at `*pos` and steps over it. On an error `*pos` stays.
pub fn read_string(data: &[u8], pos: &mut usize) -> (r: Result<String, DecodeError>)
    ensures
        match r {
            Ok(s) => text_at(data@, *old(pos) as int) == Ok::<(Seq<char>, int), DecodeError>(
                (s@, *final(pos) as int),
            ),
            Err(e) => text_at(data@, *old(pos) as int) == Err::<(Seq<char>, int), DecodeError>(e)
                && *final(pos) == *old(pos),
        },
{
    let start: usize = *pos;
    let mut at: usize = start;
    let n: usize = match read_u32(data, &mut at) {
        Ok(n) => n as usize,
        Err(e) => {
            return Err(e);
        },
    };
    if data.len() - at < n {
        return Err(DecodeError::UnexpectedEof);
    }
    let body = slice_to_vec(slice_subrange(data, at, at + n));
    match string_from_utf8(body) {
        Some(s) => {
            *pos = at + n;
            Ok(s)
        },
        None => Err(DecodeError::InvalidUtf8),
    }
}

/// Writing what was read at `at` gives the bytes that were read.
pub proof fn lemma_u16_read_back(b: Seq<u8>, at: int)
    requires
        0 <= at,
        at + 2 <= b.len(),
    ensures
        be16(u16_at(b, at)) == b.subrange(at, at + 2),
{
    let x = u16_at(b, at);
    assert(x == b[at] * 256 + b[at + 1]);
    assert(be16(x) =~= b.subrange(at, at + 2));
}

/// Writing what was read at `at` gives the bytes that were read.
pub proof fn lemma_u32_read_back(b: Seq<u8>, at: int)
    requires
        0 <= at,
        at + 4 <= b.len(),
    ensures
        be32(u32_at(b, at)) == b.subrange(at, at + 4),
{
    let x = u32_at(b, at);
    lemma_base256(b[at] as int, b[at + 1] as int, b[at + 2] as int, b[at + 3] as int);
    assert(x == b[at] * 16777216 + b[at + 1] * 65536 + b[at + 2] * 256 + b[at + 3]);
    assert(be32(x) =~= b.subrange(at, at + 4));
}

/// The digits of a number written to the base 256 are its digits.
proof fn lemma_base256(a: int, b: int, c: int, d: int)
    requires
        0 <= a < 256,
        0 <= b < 256,
        0 <= c < 256,
        0 <= d < 256,
    ensures
        (a * 16777216 + b * 65536 + c * 256 + d) / 16777216 == a,
        (a * 16777216 + b * 65536 + c * 256 + d) / 65536 % 256 == b,
        (a * 16777216 + b * 65536 + c * 256 + d) / 256 % 256 == c,
        (a * 16777216 + b * 65536 + c * 256 + d) % 256 == d,
        0 <= a * 16777216 + b * 65536 + c * 256 + d <= u32::MAX,
{
    let x = a * 16777216 + b * 65536 + c * 256 + d;
    assert(x / 16777216 == a);
    assert(x / 65536 == a * 256 + b);
    assert(x / 256 == a * 65536 + b * 256 + c);
}

/// A text field that was read is, written again, the bytes it was read from.
pub proof fn lemma_text_read_back(b: Seq<u8>, at: int)
    requires
        0 <= at,
        text_at(b, at) is Ok,
    ensures
        ({
            let (s, end) = text_at(b, at)->Ok_0;
            &&& encode_utf8(s).len() <= u32::MAX
            &&& at + 4 <= end <= b.len()
            &&& text_field(s) == b.subrange(at, end)
        }),
{
    let end = at + 4 + u32_at(b, at);
    let body = b.subrange(at + 4, end);
    decode_utf8_encode_utf8(body);
    lemma_u32_read_back(b, at);
    assert(text_field(decode_utf8(body)) =~= b.subrange(at, end));
}

} // verus!
