//! Primitive fields of the binary wire format: big-endian integers and
//! length-prefixed UTF-8 text, each with a writer, a reader and the parser
//! (over the unread suffix of a buffer) that both are proved against.

use vstd::prelude::*;
use vstd::utf8::{decode_utf8, encode_utf8, valid_utf8};
use crate::external::string_from_utf8;

verus! {

broadcast use vstd::utf8::encode_utf8_valid_utf8, vstd::utf8::encode_utf8_decode_utf8;

/// Why a buffer could not be decoded.
#[derive(Debug, Clone, Copy, PartialEq, Eq, Structural)]
pub enum DecodeError {
    /// The buffer ended before an expected field.
    Truncated,
    /// A text field's bytes are not well-formed UTF-8.
    InvalidUtf8,
    /// The timestamp is outside the representable range.
    InvalidTimestamp,
}

/// Result of parsing one field from the unread suffix: the value and what
/// remains after it.
pub type Parsed<T> = Result<(T, Seq<u8>), DecodeError>;

pub open spec fn be16(v: u16) -> Seq<u8> {
    seq![(v >> 8u16) as u8, v as u8]
}

pub open spec fn from_be16(b: Seq<u8>) -> u16 {
    (((b[0] as u16) << 8u16) | (b[1] as u16)) as u16
}

pub open spec fn be64(v: u64) -> Seq<u8> {
    seq![
        (v >> 56u64) as u8, (v >> 48u64) as u8, (v >> 40u64) as u8, (v >> 32u64) as u8,
        (v >> 24u64) as u8, (v >> 16u64) as u8, (v >> 8u64) as u8, v as u8,
    ]
}

pub open spec fn from_be64(b: Seq<u8>) -> u64 {
    (((b[0] as u64) << 56u64) | ((b[1] as u64) << 48u64) | ((b[2] as u64) << 40u64)
        | ((b[3] as u64) << 32u64) | ((b[4] as u64) << 24u64) | ((b[5] as u64) << 16u64)
        | ((b[6] as u64) << 8u64) | (b[7] as u64)) as u64
}

/// A signed 64-bit integer on the wire: its two's-complement bits, big-endian.
pub open spec fn be_i64(v: i64) -> Seq<u8> {
    be64(v as u64)
}

/// The UTF-8 bytes of a text.
pub open spec fn utf8(s: Seq<char>) -> Seq<u8> {
    encode_utf8(s)
}

/// Text with a one-byte length prefix.
pub open spec fn text8(s: Seq<char>) -> Seq<u8> {
    seq![utf8(s).len() as u8] + utf8(s)
}

/// Whether `s` fits behind a one-byte length prefix.
pub open spec fn fits8(s: Seq<char>) -> bool {
    utf8(s).len() <= 255
}

pub open spec fn parse_u8(b: Seq<u8>) -> Parsed<u8> {
    if b.len() >= 1 {
        Ok((b[0], b.skip(1)))
    } else {
        Err(DecodeError::Truncated)
    }
}

pub open spec fn parse_u16(b: Seq<u8>) -> Parsed<u16> {
    if b.len() >= 2 {
        Ok((from_be16(b), b.skip(2)))
    } else {
        Err(DecodeError::Truncated)
    }
}

pub open spec fn parse_i64(b: Seq<u8>) -> Parsed<i64> {
    if b.len() >= 8 {
        Ok((from_be64(b) as i64, b.skip(8)))
    } else {
        Err(DecodeError::Truncated)
    }
}

pub open spec fn parse_bytes(b: Seq<u8>, n: nat) -> Parsed<Seq<u8>> {
    if b.len() >= n {
        Ok((b.take(n as int), b.skip(n as int)))
    } else {
        Err(DecodeError::Truncated)
    }
}

pub open spec fn parse_text(b: Seq<u8>, n: nat) -> Parsed<Seq<char>> {
    match parse_bytes(b, n) {
        Ok((x, rest)) => if valid_utf8(x) {
            Ok((decode_utf8(x), rest))
        } else {
            Err(DecodeError::InvalidUtf8)
        },
        Err(e) => Err(e),
    }
}

pub open spec fn parse_text8(b: Seq<u8>) -> Parsed<Seq<char>> {
    match parse_u8(b) {
        Ok((n, rest)) => parse_text(rest, n as nat),
        Err(e) => Err(e),
    }
}

/// Whether an executable read at `pos` of `b` agrees with the parser `p`
/// applied to the unread suffix.
pub open spec fn read_agrees<T, V>(
    b: Seq<u8>,
    pos: usize,
    r: Result<(T, usize), DecodeError>,
    p: Parsed<V>,
    view: spec_fn(T) -> V,
) -> bool {
    match r {
        Ok((v, q)) => pos <= q <= b.len() && p == Ok::<(V, Seq<u8>), DecodeError>(
            (view(v), b.skip(q as int)),
        ),
        Err(e) => p == Err::<(V, Seq<u8>), DecodeError>(e),
    }
}

pub fn read_u8(b: &[u8], pos: usize) -> (r: Result<(u8, usize), DecodeError>)
    requires
        pos <= b@.len(),
    ensures
        read_agrees(b@, pos, r, parse_u8(b@.skip(pos as int)), |v: u8| v),
{
    if pos < b.len() {
        assert(b@.skip(pos as int).skip(1) =~= b@.skip(pos + 1));
        Ok((b[pos], pos + 1))
    } else {
        Err(DecodeError::Truncated)
    }
}

pub fn read_u16(b: &[u8], pos: usize) -> (r: Result<(u16, usize), DecodeError>)
    requires
        pos <= b@.len(),
    ensures
        read_agrees(b@, pos, r, parse_u16(b@.skip(pos as int)), |v: u16| v),
{
    if b.len() - pos >= 2 {
        let v: u16 = ((b[pos] as u16) << 8u16) | (b[pos + 1] as u16);
        assert(b@.skip(pos as int).skip(2) =~= b@.skip(pos + 2));
        Ok((v, pos + 2))
    } else {
        Err(DecodeError::Truncated)
    }
}

pub fn read_i64(b: &[u8], pos: usize) -> (r: Result<(i64, usize), DecodeError>)
    requires
        pos <= b@.len(),
    ensures
        read_agrees(b@, pos, r, parse_i64(b@.skip(pos as int)), |v: i64| v),
{
    if b.len() - pos >= 8 {
        let v: u64 = ((b[pos] as u64) << 56u64) | ((b[pos + 1] as u64) << 48u64) | ((b[pos + 2] as u64) << 40u64)
            | ((b[pos + 3] as u64) << 32u64) | ((b[pos + 4] as u64) << 24u64) | ((b[pos + 5] as u64) << 16u64)
            | ((b[pos + 6] as u64) << 8u64) | (b[pos + 7] as u64);
        assert(b@.skip(pos as int).skip(8) =~= b@.skip(pos + 8));
        Ok((v as i64, pos + 8))
    } else {
        Err(DecodeError::Truncated)
    }
}

/// Copies `n` bytes starting at `pos`.
pub fn read_bytes(b: &[u8], pos: usize, n: usize) -> (r: Result<(Vec<u8>, usize), DecodeError>)
    requires
        pos <= b@.len(),
    ensures
        read_agrees(b@, pos, r, parse_bytes(b@.skip(pos as int), n as nat), |v: Vec<u8>| v@),
{
    if b.len() - pos >= n {
        let len: usize = b.len();
        let mut out: Vec<u8> = Vec::new();
        let mut i: usize = 0;
        while i < n
            invariant
                i <= n,
                len == b@.len(),
                pos + n <= b@.len(),
                out@ =~= b@.subrange(pos as int, pos + i),
            decreases n - i,
        {
            out.push(b[pos + i]);
            i = i + 1;
        }
        assert(b@.skip(pos as int).take(n as int) =~= out@);
        assert(b@.skip(pos as int).skip(n as int) =~= b@.skip(pos + n));
        Ok((out, pos + n))
    } else {
        Err(DecodeError::Truncated)
    }
}

/// Reads `n` bytes at `pos` as UTF-8 text.
pub fn read_text(b: &[u8], pos: usize, n: usize) -> (r: Result<(String, usize), DecodeError>)
    requires
        pos <= b@.len(),
    ensures
        read_agrees(b@, pos, r, parse_text(b@.skip(pos as int), n as nat), |v: String| v@),
{
    match read_bytes(b, pos, n) {
        Ok((bytes, q)) => match string_from_utf8(bytes) {
            Some(s) => Ok((s, q)),
            None => Err(DecodeError::InvalidUtf8),
        },
        Err(e) => Err(e),
    }
}

/// Reads text behind a one-byte length prefix.
pub fn read_text8(b: &[u8], pos: usize) -> (r: Result<(String, usize), DecodeError>)
    requires
        pos <= b@.len(),
    ensures
        read_agrees(b@, pos, r, parse_text8(b@.skip(pos as int)), |v: String| v@),
{
    match read_u8(b, pos) {
        Ok((n, q)) => {
            assert(b@.skip(pos as int).skip(1) == b@.skip(q as int));
            read_text(b, q, n as usize)
        },
        Err(e) => Err(e),
    }
}

pub fn write_u8(out: &mut Vec<u8>, v: u8)
    ensures
        final(out)@ == old(out)@.push(v),
{
    out.push(v);
}

pub fn write_u16(out: &mut Vec<u8>, v: u16)
    ensures
        final(out)@ == old(out)@ + be16(v),
{
    out.push((v >> 8u16) as u8);
    out.push(v as u8);
    assert(final(out)@ =~= old(out)@ + be16(v));
}

pub fn write_i64(out: &mut Vec<u8>, v: i64)
    ensures
        final(out)@ == old(out)@ + be_i64(v),
{
    let u: u64 = v as u64;
    out.push((u >> 56u64) as u8);
    out.push((u >> 48u64) as u8);
    out.push((u >> 40u64) as u8);
    out.push((u >> 32u64) as u8);
    out.push((u >> 24u64) as u8);
    out.push((u >> 16u64) as u8);
    out.push((u >> 8u64) as u8);
    out.push(u as u8);
    assert(final(out)@ =~= old(out)@ + be_i64(v));
}

pub fn write_bytes(out: &mut Vec<u8>, b: &[u8])
    ensures
        final(out)@ == old(out)@ + b@,
{
    let mut i: usize = 0;
    while i < b.len()
        invariant
            i <= b@.len(),
            out@ =~= old(out)@ + b@.take(i as int),
        decreases b@.len() - i,
    {
        out.push(b[i]);
        i = i + 1;
    }
    assert(b@.take(b@.len() as int) =~= b@);
}

/// Appends `s` behind its one-byte length prefix.
pub fn write_text8(out: &mut Vec<u8>, s: &str)
    requires
        fits8(s@),
    ensures
        final(out)@ == old(out)@ + text8(s@),
{
    let bytes = s.as_bytes();
    write_u8(out, bytes.len() as u8);
    write_bytes(out, bytes);
    assert(final(out)@ =~= old(out)@ + text8(s@));
}

pub proof fn lemma_u8_round_trip(v: u8, rest: Seq<u8>)
    ensures
        parse_u8(seq![v] + rest) == Ok::<(u8, Seq<u8>), DecodeError>((v, rest)),
{
    assert((seq![v] + rest).skip(1) =~= rest);
}

pub proof fn lemma_u16_round_trip(v: u16, rest: Seq<u8>)
    ensures
        parse_u16(be16(v) + rest) == Ok::<(u16, Seq<u8>), DecodeError>((v, rest)),
{
    let b = be16(v) + rest;
    assert(b.skip(2) =~= rest);
    let b0 = (v >> 8u16) as u8;
    let b1 = v as u8;
    assert((((b0 as u16) << 8u16) | (b1 as u16)) == v) by (bit_vector)
        requires
            b0 == (v >> 8u16) as u8,
            b1 == v as u8,
    ;
}

pub proof fn lemma_i64_round_trip(v: i64, rest: Seq<u8>)
    ensures
        parse_i64(be_i64(v) + rest) == Ok::<(i64, Seq<u8>), DecodeError>((v, rest)),
{
    let b = be_i64(v) + rest;
    assert(b.skip(8) =~= rest);
    let u = v as u64;
    let b0 = (u >> 56u64) as u8;
    let b1 = (u >> 48u64) as u8;
    let b2 = (u >> 40u64) as u8;
    let b3 = (u >> 32u64) as u8;
    let b4 = (u >> 24u64) as u8;
    let b5 = (u >> 16u64) as u8;
    let b6 = (u >> 8u64) as u8;
    let b7 = u as u8;
    assert((((b0 as u64) << 56u64) | ((b1 as u64) << 48u64) | ((b2 as u64) << 40u64)
        | ((b3 as u64) << 32u64) | ((b4 as u64) << 24u64) | ((b5 as u64) << 16u64)
        | ((b6 as u64) << 8u64) | (b7 as u64)) == u) by (bit_vector)
        requires
            b0 == (u >> 56u64) as u8,
            b1 == (u >> 48u64) as u8,
            b2 == (u >> 40u64) as u8,
            b3 == (u >> 32u64) as u8,
            b4 == (u >> 24u64) as u8,
            b5 == (u >> 16u64) as u8,
            b6 == (u >> 8u64) as u8,
            b7 == u as u8,
    ;
    assert(b[0] == b0 && b[1] == b1 && b[2] == b2 && b[3] == b3);
    assert(b[4] == b4 && b[5] == b5 && b[6] == b6 && b[7] == b7);
    assert(from_be64(b) == u);
    assert((v as u64) as i64 == v) by (bit_vector);
}

pub proof fn lemma_be64_injective(a: u64, b: u64)
    requires
        be64(a) == be64(b),
    ensures
        a == b,
{
    let x = be64(a);
    assert(x[0] == (a >> 56u64) as u8 && x[0] == (b >> 56u64) as u8);
    assert(x[1] == (a >> 48u64) as u8 && x[1] == (b >> 48u64) as u8);
    assert(x[2] == (a >> 40u64) as u8 && x[2] == (b >> 40u64) as u8);
    assert(x[3] == (a >> 32u64) as u8 && x[3] == (b >> 32u64) as u8);
    assert(x[4] == (a >> 24u64) as u8 && x[4] == (b >> 24u64) as u8);
    assert(x[5] == (a >> 16u64) as u8 && x[5] == (b >> 16u64) as u8);
    assert(x[6] == (a >> 8u64) as u8 && x[6] == (b >> 8u64) as u8);
    assert(x[7] == a as u8 && x[7] == b as u8);
    assert(a == b) by (bit_vector)
        requires
            (a >> 56u64) as u8 == (b >> 56u64) as u8,
            (a >> 48u64) as u8 == (b >> 48u64) as u8,
            (a >> 40u64) as u8 == (b >> 40u64) as u8,
            (a >> 32u64) as u8 == (b >> 32u64) as u8,
            (a >> 24u64) as u8 == (b >> 24u64) as u8,
            (a >> 16u64) as u8 == (b >> 16u64) as u8,
            (a >> 8u64) as u8 == (b >> 8u64) as u8,
            a as u8 == b as u8,
    ;
}

pub proof fn lemma_bytes_round_trip(x: Seq<u8>, rest: Seq<u8>)
    ensures
        parse_bytes(x + rest, x.len()) == Ok::<(Seq<u8>, Seq<u8>), DecodeError>((x, rest)),
{
    assert((x + rest).take(x.len() as int) =~= x);
    assert((x + rest).skip(x.len() as int) =~= rest);
}

pub proof fn lemma_text_round_trip(s: Seq<char>, rest: Seq<u8>)
    ensures
        parse_text(utf8(s) + rest, utf8(s).len()) == Ok::<(Seq<char>, Seq<u8>), DecodeError>(
            (s, rest),
        ),
{
    lemma_bytes_round_trip(utf8(s), rest);
}

pub proof fn lemma_text8_round_trip(s: Seq<char>, rest: Seq<u8>)
    requires
        fits8(s),
    ensures
        parse_text8(text8(s) + rest) == Ok::<(Seq<char>, Seq<u8>), DecodeError>((s, rest)),
{
    let n = utf8(s).len() as u8;
    assert(text8(s) + rest =~= seq![n] + (utf8(s) + rest));
    lemma_u8_round_trip(n, utf8(s) + rest);
    lemma_text_round_trip(s, rest);
}

} // verus!
