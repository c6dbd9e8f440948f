//! Little-endian primitives of the persisted binary formats.

use vstd::prelude::*;
use vstd::utf8::*;
use vstd::string::*;

verus! {

broadcast use vstd::utf8::encode_utf8_valid_utf8, vstd::utf8::encode_utf8_decode_utf8;

/// Why a persisted file could not be read back.
#[derive(Clone, Copy, Debug, PartialEq, Eq, Structural)]
pub enum DecodeError {
    /// The bytes end before the value being read does.
    UnexpectedEnd,
    /// A string's bytes are not well-formed UTF-8.
    InvalidUtf8,
}

pub open spec fn le_u16(v: u16) -> Seq<u8> {
    seq![(v % 256) as u8, (v / 256) as u8]
}

pub open spec fn le_u32(v: u32) -> Seq<u8> {
    seq![(v % 256) as u8, ((v / 256) % 256) as u8, ((v / 65536) % 256) as u8, (v / 16777216) as u8]
}

pub open spec fn le_i16(v: i16) -> Seq<u8> {
    le_u16(#[verifier::truncate] (v as u16))
}

pub open spec fn u16_at(b: Seq<u8>, p: int) -> u16 {
    (b[p] as int + b[p + 1] as int * 256) as u16
}

pub open spec fn u32_at(b: Seq<u8>, p: int) -> u32 {
    (b[p] as int + b[p + 1] as int * 256 + b[p + 2] as int * 65536 + b[p + 3] as int * 16777216) as u32
}

/// A string as it is stored: its UTF-8 byte length as a `u32`, then the bytes.
pub open spec fn enc_str(s: Seq<char>) -> Seq<u8> {
    le_u32(encode_utf8(s).len() as u32) + encode_utf8(s)
}

/// Whether a string's UTF-8 encoding fits the `u32` length prefix.
pub open spec fn str_fits(s: Seq<char>) -> bool {
    encode_utf8(s).len() <= u32::MAX
}

pub open spec fn parse_u16(b: Seq<u8>, p: int) -> Result<(u16, int), DecodeError> {
    if 0 <= p && p + 2 <= b.len() {
        Ok((u16_at(b, p), p + 2))
    } else {
        Err(DecodeError::UnexpectedEnd)
    }
}

pub open spec fn parse_i16(b: Seq<u8>, p: int) -> Result<(i16, int), DecodeError> {
    match parse_u16(b, p) {
        Ok((v, q)) => Ok((#[verifier::truncate] (v as i16), q)),
        Err(e) => Err(e),
    }
}

pub open spec fn parse_u32(b: Seq<u8>, p: int) -> Result<(u32, int), DecodeError> {
    if 0 <= p && p + 4 <= b.len() {
        Ok((u32_at(b, p), p + 4))
    } else {
        Err(DecodeError::UnexpectedEnd)
    }
}

#[verifier::opaque]
pub open spec fn parse_str(b: Seq<u8>, p: int) -> Result<(Seq<char>, int), DecodeError> {
    match parse_u32(b, p) {
        Ok((n, q)) => if q + n <= b.len() {
            if valid_utf8(b.subrange(q, q + n)) {
                Ok((decode_utf8(b.subrange(q, q + n)), q + n))
            } else {
                Err(DecodeError::InvalidUtf8)
            }
        } else {
            Err(DecodeError::UnexpectedEnd)
        },
        Err(e) => Err(e),
    }
}

/// `r` is what a parse that ended at `pos` returned, when the spec parse gave `p`.
pub open spec fn tracks<T>(r: Result<T, DecodeError>, pos: int, p: Result<(T, int), DecodeError>) -> bool {
    match p {
        Ok((v, q)) => r == Ok::<T, DecodeError>(v) && pos == q,
        Err(e) => r == Err::<T, DecodeError>(e),
    }
}

pub proof fn lemma_u16_round_trip(v: u16, pre: Seq<u8>, post: Seq<u8>)
    ensures
        parse_u16(pre + le_u16(v) + post, pre.len() as int) == Ok::<(u16, int), DecodeError>((v, pre.len() as int + 2)),
{
    let b = pre + le_u16(v) + post;
    let p = pre.len() as int;
    assert(b[p] == (v % 256) as u8);
    assert(b[p + 1] == (v / 256) as u8);
}

pub proof fn lemma_i16_round_trip(v: i16, pre: Seq<u8>, post: Seq<u8>)
    ensures
        parse_i16(pre + le_i16(v) + post, pre.len() as int) == Ok::<(i16, int), DecodeError>((v, pre.len() as int + 2)),
{
    let u = #[verifier::truncate] (v as u16);
    lemma_u16_round_trip(u, pre, post);
    assert((#[verifier::truncate] (u as i16)) == v) by (bit_vector)
        requires
            u == #[verifier::truncate] (v as u16);
}

pub proof fn lemma_u32_round_trip(v: u32, pre: Seq<u8>, post: Seq<u8>)
    ensures
        parse_u32(pre + le_u32(v) + post, pre.len() as int) == Ok::<(u32, int), DecodeError>((v, pre.len() as int + 4)),
{
    let b = pre + le_u32(v) + post;
    let p = pre.len() as int;
    assert(b[p] == (v % 256) as u8);
    assert(b[p + 1] == ((v / 256) % 256) as u8);
    assert(b[p + 2] == ((v / 65536) % 256) as u8);
    assert(b[p + 3] == (v / 16777216) as u8);
}

pub proof fn lemma_str_round_trip(s: Seq<char>, pre: Seq<u8>, post: Seq<u8>)
    requires
        str_fits(s),
    ensures
        parse_str(pre + enc_str(s) + post, pre.len() as int) == Ok::<(Seq<char>, int), DecodeError>(
            (s, pre.len() + enc_str(s).len() as int),
        ),
{
    reveal(parse_str);
    let e = encode_utf8(s);
    let n = e.len() as u32;
    let b = pre + enc_str(s) + post;
    assert(b =~= pre + le_u32(n) + (e + post));
    lemma_u32_round_trip(n, pre, e + post);
    let q = pre.len() as int + 4;
    assert(b.subrange(q, q + n) =~= e);
}

/// Relies on `String::from_utf8`: it succeeds exactly on well-formed UTF-8,
/// and then holds the characters those bytes encode.
#[verifier::external_body]
fn string_from_utf8(bytes: Vec<u8>) -> (r: Option<String>)
    ensures
        r is Some <==> valid_utf8(bytes@),
        r is Some ==> r->Some_0@ == decode_utf8(bytes@),
{
    String::from_utf8(bytes).ok()
}

/// Reads a little-endian `u16` at `*pos` and moves past it.
pub fn deserialize_u16(b: &[u8], pos: &mut usize) -> (r: Result<u16, DecodeError>)
    ensures
        tracks(r, *final(pos) as int, parse_u16(b@, *old(pos) as int)),
{
    if *pos <= b.len() && b.len() - *pos >= 2 {
        let p = *pos;
        let v = b[p] as u16 + b[p + 1] as u16 * 256;
        *pos = p + 2;
        Ok(v)
    } else {
        Err(DecodeError::UnexpectedEnd)
    }
}

/// Reads a little-endian two's-complement `i16` at `*pos` and moves past it.
pub fn deserialize_i16(b: &[u8], pos: &mut usize) -> (r: Result<i16, DecodeError>)
    ensures
        tracks(r, *final(pos) as int, parse_i16(b@, *old(pos) as int)),
{
    match deserialize_u16(b, pos) {
        Ok(v) => Ok(#[verifier::truncate] (v as i16)),
        Err(e) => Err(e),
    }
}

/// Reads a little-endian `u32` at `*pos` and moves past it.
pub fn deserialize_u32(b: &[u8], pos: &mut usize) -> (r: Result<u32, DecodeError>)
    ensures
        tracks(r, *final(pos) as int, parse_u32(b@, *old(pos) as int)),
{
    if *pos <= b.len() && b.len() - *pos >= 4 {
        let p = *pos;
        let v = b[p] as u32 + b[p + 1] as u32 * 256 + b[p + 2] as u32 * 65536 + b[p + 3] as u32 * 16777216;
        *pos = p + 4;
        Ok(v)
    } else {
        Err(DecodeError::UnexpectedEnd)
    }
}

/// Reads a length-prefixed UTF-8 string at `*pos` and moves past it.
pub fn deserialize_string(b: &[u8], pos: &mut usize) -> (r: Result<String, DecodeError>)
    ensures
        match parse_str(b@, *old(pos) as int) {
            Ok((s, q)) => r is Ok && r->Ok_0@ == s && *final(pos) == q,
            Err(e) => r == Err::<String, DecodeError>(e),
        },
{
    reveal(parse_str);
    let n = match deserialize_u32(b, pos) {
        Ok(n) => n as usize,
        Err(e) => return Err(e),
    };
    let q = *pos;
    if n > b.len() - q {
        return Err(DecodeError::UnexpectedEnd);
    }
    let mut bytes: Vec<u8> = Vec::new();
    let mut i: usize = 0;
    while i < n
        invariant
            q + n <= b.len(),
            i <= n,
            bytes@ =~= b@.subrange(q as int, q + i),
        decreases n - i,
    {
        bytes.push(b[q + i]);
        i = i + 1;
    }
    match string_from_utf8(bytes) {
        Some(s) => {
            *pos = q + n;
            Ok(s)
        },
        None => Err(DecodeError::InvalidUtf8),
    }
}

pub fn write_u16(out: &mut Vec<u8>, v: u16)
    ensures
        final(out)@ == old(out)@ + le_u16(v),
{
    out.push((v % 256) as u8);
    out.push((v / 256) as u8);
    assert(final(out)@ =~= old(out)@ + le_u16(v));
}

pub fn write_i16(out: &mut Vec<u8>, v: i16)
    ensures
        final(out)@ == old(out)@ + le_i16(v),
{
    write_u16(out, #[verifier::truncate] (v as u16));
}

pub fn write_u32(out: &mut Vec<u8>, v: u32)
    ensures
        final(out)@ == old(out)@ + le_u32(v),
{
    out.push((v % 256) as u8);
    out.push(((v / 256) % 256) as u8);
    out.push(((v / 65536) % 256) as u8);
    out.push((v / 16777216) as u8);
    assert(final(out)@ =~= old(out)@ + le_u32(v));
}

/// Appends `s` as its UTF-8 byte length, a `u32`, then its bytes.
pub fn write_string(out: &mut Vec<u8>, s: &str)
    requires
        str_fits(s@),
    ensures
        final(out)@ == old(out)@ + enc_str(s@),
{
    let bytes = s.as_bytes();
    write_u32(out, s.len() as u32);
    let ghost mid = out@;
    let mut i: usize = 0;
    while i < bytes.len()
        invariant
            bytes@ == encode_utf8(s@),
            i <= bytes@.len(),
            out@ =~= mid + bytes@.subrange(0, i as int),
        decreases bytes@.len() - i,
    {
        out.push(bytes[i]);
        i = i + 1;
    }
    assert(out@ =~= old(out)@ + enc_str(s@));
}

} // verus!
