//! Fixed-width little-endian integers, as `bincode` writes and reads them
//! under its legacy configuration.

use vstd::bytes::*;
use vstd::prelude::*;
use vstd::slice::*;

verus! {

/// Why a byte string could not be decoded.
#[derive(Clone, Copy, Debug, PartialEq, Eq, Structural)]
pub enum CodecError {
    /// The input ended before the value was complete.
    UnexpectedEnd,
    /// A variant tag held a value that names no variant.
    UnknownVariant,
    /// The bytes of a string were not valid UTF-8.
    InvalidUtf8,
    /// A length or index does not fit the machine word.
    OutsideUsizeRange,
}

#[verifier::external_type_specification]
#[verifier::external_body]
pub struct ExBincodeDecodeError(bincode::error::DecodeError);

/// `bincode::encode_to_vec` on a `u16` with `bincode::config::legacy()`:
/// the two bytes of the value, least significant first.
#[verifier::external_body]
fn bincode_encode_u16(v: u16) -> (out: Vec<u8>)
    ensures
        out@ == spec_u16_to_le_bytes(v),
{
    bincode::encode_to_vec(v, bincode::config::legacy()).unwrap_or_default()
}

/// `bincode::encode_to_vec` on a `u32` with `bincode::config::legacy()`:
/// the four bytes of the value, least significant first.
#[verifier::external_body]
fn bincode_encode_u32(v: u32) -> (out: Vec<u8>)
    ensures
        out@ == spec_u32_to_le_bytes(v),
{
    bincode::encode_to_vec(v, bincode::config::legacy()).unwrap_or_default()
}

/// `bincode::encode_to_vec` on a `u64` with `bincode::config::legacy()`:
/// the eight bytes of the value, least significant first.
#[verifier::external_body]
fn bincode_encode_u64(v: u64) -> (out: Vec<u8>)
    ensures
        out@ == spec_u64_to_le_bytes(v),
{
    bincode::encode_to_vec(v, bincode::config::legacy()).unwrap_or_default()
}

/// `bincode::decode_from_slice` to a `u16` with `bincode::config::legacy()`:
/// it fails exactly when fewer than two bytes are there, and otherwise reads
/// the first two as a little-endian value and reports two bytes read.
#[verifier::external_body]
fn bincode_decode_u16(src: &[u8]) -> (r: Result<(u16, usize), bincode::error::DecodeError>)
    ensures
        r.is_ok() <==> src@.len() >= 2,
        r matches Ok((v, n)) ==> n == 2 && v == spec_u16_from_le_bytes(src@.subrange(0, 2)),
{
    bincode::decode_from_slice(src, bincode::config::legacy())
}

/// `bincode::decode_from_slice` to a `u32` with `bincode::config::legacy()`:
/// it fails exactly when fewer than four bytes are there, and otherwise reads
/// the first four as a little-endian value and reports four bytes read.
#[verifier::external_body]
fn bincode_decode_u32(src: &[u8]) -> (r: Result<(u32, usize), bincode::error::DecodeError>)
    ensures
        r.is_ok() <==> src@.len() >= 4,
        r matches Ok((v, n)) ==> n == 4 && v == spec_u32_from_le_bytes(src@.subrange(0, 4)),
{
    bincode::decode_from_slice(src, bincode::config::legacy())
}

/// `bincode::decode_from_slice` to a `u64` with `bincode::config::legacy()`:
/// it fails exactly when fewer than eight bytes are there, and otherwise reads
/// the first eight as a little-endian value and reports eight bytes read.
#[verifier::external_body]
fn bincode_decode_u64(src: &[u8]) -> (r: Result<(u64, usize), bincode::error::DecodeError>)
    ensures
        r.is_ok() <==> src@.len() >= 8,
        r matches Ok((v, n)) ==> n == 8 && v == spec_u64_from_le_bytes(src@.subrange(0, 8)),
{
    bincode::decode_from_slice(src, bincode::config::legacy())
}

/// What decoding yields: the value and the number of bytes it took.
pub type Parsed<T> = Result<(T, int), CodecError>;

/// The two's-complement word of a signed 16-bit value.
pub open spec fn i16_word(v: i16) -> u16 {
    if v >= 0 {
        v as u16
    } else {
        (v + 0x1_0000) as u16
    }
}

/// The signed value of a 16-bit two's-complement word.
pub open spec fn word_i16(w: u16) -> i16 {
    if w < 0x8000 {
        w as i16
    } else {
        (w - 0x1_0000) as i16
    }
}

/// The two's-complement word of a signed 32-bit value.
pub open spec fn i32_word(v: i32) -> u32 {
    if v >= 0 {
        v as u32
    } else {
        (v + 0x1_0000_0000) as u32
    }
}

/// The signed value of a 32-bit two's-complement word.
pub open spec fn word_i32(w: u32) -> i32 {
    if w < 0x8000_0000 {
        w as i32
    } else {
        (w - 0x1_0000_0000) as i32
    }
}

/// The bytes that stand for a 16-bit word.
pub open spec fn u16_bytes(v: u16) -> Seq<u8> {
    spec_u16_to_le_bytes(v)
}

/// The bytes that stand for a 32-bit word.
pub open spec fn u32_bytes(v: u32) -> Seq<u8> {
    spec_u32_to_le_bytes(v)
}

/// The bytes that stand for a 64-bit word.
pub open spec fn u64_bytes(v: u64) -> Seq<u8> {
    spec_u64_to_le_bytes(v)
}

/// The bytes that stand for a signed 16-bit value.
pub open spec fn i16_bytes(v: i16) -> Seq<u8> {
    u16_bytes(i16_word(v))
}

/// The bytes that stand for a signed 32-bit value.
pub open spec fn i32_bytes(v: i32) -> Seq<u8> {
    u32_bytes(i32_word(v))
}

/// The bytes that stand for a machine word: always eight of them.
pub open spec fn usize_bytes(v: usize) -> Seq<u8> {
    u64_bytes(v as u64)
}

/// Reading a 16-bit word from the front of `s`.
pub open spec fn parse_u16(s: Seq<u8>) -> Parsed<u16> {
    if s.len() >= 2 {
        Ok((spec_u16_from_le_bytes(s.subrange(0, 2)), 2))
    } else {
        Err(CodecError::UnexpectedEnd)
    }
}

/// Reading a 32-bit word from the front of `s`.
pub open spec fn parse_u32(s: Seq<u8>) -> Parsed<u32> {
    if s.len() >= 4 {
        Ok((spec_u32_from_le_bytes(s.subrange(0, 4)), 4))
    } else {
        Err(CodecError::UnexpectedEnd)
    }
}

/// Reading a 64-bit word from the front of `s`.
pub open spec fn parse_u64(s: Seq<u8>) -> Parsed<u64> {
    if s.len() >= 8 {
        Ok((spec_u64_from_le_bytes(s.subrange(0, 8)), 8))
    } else {
        Err(CodecError::UnexpectedEnd)
    }
}

/// Reading a signed 16-bit value from the front of `s`.
pub open spec fn parse_i16(s: Seq<u8>) -> Parsed<i16> {
    match parse_u16(s) {
        Ok((w, n)) => Ok((word_i16(w), n)),
        Err(e) => Err(e),
    }
}

/// Reading a signed 32-bit value from the front of `s`.
pub open spec fn parse_i32(s: Seq<u8>) -> Parsed<i32> {
    match parse_u32(s) {
        Ok((w, n)) => Ok((word_i32(w), n)),
        Err(e) => Err(e),
    }
}

/// Reading a machine word from the front of `s`: eight bytes, whose value
/// has to fit.
pub open spec fn parse_usize(s: Seq<u8>) -> Parsed<usize> {
    match parse_u64(s) {
        Ok((w, n)) => if w <= usize::MAX {
            Ok((w as usize, n))
        } else {
            Err(CodecError::OutsideUsizeRange)
        },
        Err(e) => Err(e),
    }
}

/// How an executable decoder's answer matches the model: the same value, and
/// the position moved on by the bytes taken; or the same error.
pub open spec fn decoded<T>(r: Result<(T, usize), CodecError>, model: Parsed<T>, pos: usize, len: nat) -> bool {
    match model {
        Ok((v, n)) => r matches Ok((x, p)) && x == v && p == pos + n && pos <= p <= len,
        Err(e) => r matches Err(f) && f == e,
    }
}

/// Skipping twice is skipping once by the sum.
pub proof fn lemma_skip_skip<T>(s: Seq<T>, a: int, b: int)
    requires
        0 <= a,
        0 <= b,
        a + b <= s.len(),
    ensures
        s.skip(a).skip(b) == s.skip(a + b),
{
    assert(s.skip(a).skip(b) =~= s.skip(a + b));
}

/// A 16-bit word written and read again is the same word.
pub proof fn lemma_parse_u16(v: u16, rest: Seq<u8>)
    ensures
        u16_bytes(v).len() == 2,
        parse_u16(u16_bytes(v) + rest) == Ok::<(u16, int), CodecError>((v, 2)),
{
    lemma_auto_spec_u16_to_from_le_bytes();
    assert((u16_bytes(v) + rest).subrange(0, 2) == u16_bytes(v));
}

/// A 32-bit word written and read again is the same word.
pub proof fn lemma_parse_u32(v: u32, rest: Seq<u8>)
    ensures
        u32_bytes(v).len() == 4,
        parse_u32(u32_bytes(v) + rest) == Ok::<(u32, int), CodecError>((v, 4)),
{
    lemma_auto_spec_u32_to_from_le_bytes();
    assert((u32_bytes(v) + rest).subrange(0, 4) == u32_bytes(v));
}

/// A 64-bit word written and read again is the same word.
pub proof fn lemma_parse_u64(v: u64, rest: Seq<u8>)
    ensures
        u64_bytes(v).len() == 8,
        parse_u64(u64_bytes(v) + rest) == Ok::<(u64, int), CodecError>((v, 8)),
{
    lemma_auto_spec_u64_to_from_le_bytes();
    assert((u64_bytes(v) + rest).subrange(0, 8) == u64_bytes(v));
}

/// A signed 16-bit value written and read again is the same value.
pub proof fn lemma_parse_i16(v: i16, rest: Seq<u8>)
    ensures
        i16_bytes(v).len() == 2,
        parse_i16(i16_bytes(v) + rest) == Ok::<(i16, int), CodecError>((v, 2)),
{
    lemma_parse_u16(i16_word(v), rest);
}

/// A signed 32-bit value written and read again is the same value.
pub proof fn lemma_parse_i32(v: i32, rest: Seq<u8>)
    ensures
        i32_bytes(v).len() == 4,
        parse_i32(i32_bytes(v) + rest) == Ok::<(i32, int), CodecError>((v, 4)),
{
    lemma_parse_u32(i32_word(v), rest);
}

/// A machine word written and read again is the same word.
pub proof fn lemma_parse_usize(v: usize, rest: Seq<u8>)
    ensures
        usize_bytes(v).len() == 8,
        parse_usize(usize_bytes(v) + rest) == Ok::<(usize, int), CodecError>((v, 8)),
{
    lemma_parse_u64(v as u64, rest);
}

/// Appends the two bytes of `v` to `out`.
pub fn put_u16(out: &mut Vec<u8>, v: u16)
    ensures
        final(out)@ == old(out)@ + u16_bytes(v),
{
    let mut b = bincode_encode_u16(v);
    out.append(&mut b);
}

/// Appends the four bytes of `v` to `out`.
pub fn put_u32(out: &mut Vec<u8>, v: u32)
    ensures
        final(out)@ == old(out)@ + u32_bytes(v),
{
    let mut b = bincode_encode_u32(v);
    out.append(&mut b);
}

/// Appends the eight bytes of `v` to `out`.
pub fn put_u64(out: &mut Vec<u8>, v: u64)
    ensures
        final(out)@ == old(out)@ + u64_bytes(v),
{
    let mut b = bincode_encode_u64(v);
    out.append(&mut b);
}

/// Appends the two bytes of the signed value `v` to `out`.
pub fn put_i16(out: &mut Vec<u8>, v: i16)
    ensures
        final(out)@ == old(out)@ + i16_bytes(v),
{
    let w: u16 = if v >= 0 {
        v as u16
    } else {
        (v as i32 + 0x1_0000) as u16
    };
    put_u16(out, w);
}

/// Appends the four bytes of the signed value `v` to `out`.
pub fn put_i32(out: &mut Vec<u8>, v: i32)
    ensures
        final(out)@ == old(out)@ + i32_bytes(v),
{
    let w: u32 = if v >= 0 {
        v as u32
    } else {
        (v as i64 + 0x1_0000_0000) as u32
    };
    put_u32(out, w);
}

/// Appends the eight bytes of the machine word `v` to `out`.
pub fn put_usize(out: &mut Vec<u8>, v: usize)
    ensures
        final(out)@ == old(out)@ + usize_bytes(v),
{
    put_u64(out, v as u64);
}

/// Reads a 16-bit word at `pos`.
pub fn take_u16(bytes: &[u8], pos: usize) -> (r: Result<(u16, usize), CodecError>)
    requires
        pos <= bytes@.len(),
    ensures
        decoded(r, parse_u16(bytes@.skip(pos as int)), pos, bytes@.len()),
{
    let rest = slice_subrange(bytes, pos, bytes.len());
    assert(rest@ == bytes@.skip(pos as int));
    match bincode_decode_u16(rest) {
        Ok((v, n)) => Ok((v, pos + n)),
        Err(_) => Err(CodecError::UnexpectedEnd),
    }
}

/// Reads a 32-bit word at `pos`.
pub fn take_u32(bytes: &[u8], pos: usize) -> (r: Result<(u32, usize), CodecError>)
    requires
        pos <= bytes@.len(),
    ensures
        decoded(r, parse_u32(bytes@.skip(pos as int)), pos, bytes@.len()),
{
    let rest = slice_subrange(bytes, pos, bytes.len());
    assert(rest@ == bytes@.skip(pos as int));
    match bincode_decode_u32(rest) {
        Ok((v, n)) => Ok((v, pos + n)),
        Err(_) => Err(CodecError::UnexpectedEnd),
    }
}

/// Reads a 64-bit word at `pos`.
pub fn take_u64(bytes: &[u8], pos: usize) -> (r: Result<(u64, usize), CodecError>)
    requires
        pos <= bytes@.len(),
    ensures
        decoded(r, parse_u64(bytes@.skip(pos as int)), pos, bytes@.len()),
{
    let rest = slice_subrange(bytes, pos, bytes.len());
    assert(rest@ == bytes@.skip(pos as int));
    match bincode_decode_u64(rest) {
        Ok((v, n)) => Ok((v, pos + n)),
        Err(_) => Err(CodecError::UnexpectedEnd),
    }
}

/// Reads a signed 16-bit value at `pos`.
pub fn take_i16(bytes: &[u8], pos: usize) -> (r: Result<(i16, usize), CodecError>)
    requires
        pos <= bytes@.len(),
    ensures
        decoded(r, parse_i16(bytes@.skip(pos as int)), pos, bytes@.len()),
{
    match take_u16(bytes, pos) {
        Ok((w, p)) => {
            let v: i16 = if w < 0x8000 {
                w as i16
            } else {
                (w as i32 - 0x1_0000) as i16
            };
            Ok((v, p))
        },
        Err(e) => Err(e),
    }
}

/// Reads a signed 32-bit value at `pos`.
pub fn take_i32(bytes: &[u8], pos: usize) -> (r: Result<(i32, usize), CodecError>)
    requires
        pos <= bytes@.len(),
    ensures
        decoded(r, parse_i32(bytes@.skip(pos as int)), pos, bytes@.len()),
{
    match take_u32(bytes, pos) {
        Ok((w, p)) => {
            let v: i32 = if w < 0x8000_0000 {
                w as i32
            } else {
                (w as i64 - 0x1_0000_0000) as i32
            };
            Ok((v, p))
        },
        Err(e) => Err(e),
    }
}

/// Reads a machine word at `pos`.
pub fn take_usize(bytes: &[u8], pos: usize) -> (r: Result<(usize, usize), CodecError>)
    requires
        pos <= bytes@.len(),
    ensures
        decoded(r, parse_usize(bytes@.skip(pos as int)), pos, bytes@.len()),
{
    match take_u64(bytes, pos) {
        Ok((w, p)) => {
            if w <= usize::MAX as u64 {
                Ok((w as usize, p))
            } else {
                Err(CodecError::OutsideUsizeRange)
            }
        },
        Err(e) => Err(e),
    }
}

/// The bytes of a run of values, each written by `enc`, one after another.
pub open spec fn repeat_bytes<T>(vs: Seq<T>, enc: spec_fn(T) -> Seq<u8>) -> Seq<u8>
    decreases vs.len(),
{
    if vs.len() == 0 {
        Seq::empty()
    } else {
        repeat_bytes(vs.drop_last(), enc) + enc(vs.last())
    }
}

/// Reading `count` values from the front of `s`, each by `item`, one after
/// another. The first value that cannot be read gives the error.
pub open spec fn parse_repeat<T>(
    s: Seq<u8>,
    count: nat,
    item: spec_fn(Seq<u8>) -> Parsed<T>,
) -> Parsed<Seq<T>>
    decreases count,
{
    if count == 0 {
        Ok((Seq::empty(), 0))
    } else {
        match parse_repeat(s, (count - 1) as nat, item) {
            Ok((vs, n)) => match item(s.skip(n)) {
                Ok((v, m)) => Ok((vs.push(v), n + m)),
                Err(e) => Err(e),
            },
            Err(e) => Err(e),
        }
    }
}

/// The bytes of a counted run: the number of values as a machine word, then
/// the values.
pub open spec fn counted_bytes<T>(vs: Seq<T>, enc: spec_fn(T) -> Seq<u8>) -> Seq<u8> {
    usize_bytes(vs.len() as usize) + repeat_bytes(vs, enc)
}

/// Reading a counted run from the front of `s`.
pub open spec fn parse_counted<T>(s: Seq<u8>, item: spec_fn(Seq<u8>) -> Parsed<T>) -> Parsed<
    Seq<T>,
> {
    match parse_usize(s) {
        Ok((count, n)) => match parse_repeat(s.skip(n), count as nat, item) {
            Ok((vs, m)) => Ok((vs, n + m)),
            Err(e) => Err(e),
        },
        Err(e) => Err(e),
    }
}

/// Whether `item` reads back what `enc` wrote for `v`, whatever follows.
pub open spec fn reads_back<T>(
    v: T,
    enc: spec_fn(T) -> Seq<u8>,
    item: spec_fn(Seq<u8>) -> Parsed<T>,
) -> bool {
    forall|tail: Seq<u8>| #[trigger]
        item(enc(v) + tail) == Ok::<(T, int), CodecError>((v, enc(v).len() as int))
}

/// An error among the first values is the error of the whole run.
pub proof fn lemma_parse_repeat_err<T>(
    s: Seq<u8>,
    k: nat,
    count: nat,
    item: spec_fn(Seq<u8>) -> Parsed<T>,
)
    requires
        k <= count,
        parse_repeat(s, k, item) is Err,
    ensures
        parse_repeat(s, count, item) == parse_repeat(s, k, item),
    decreases count,
{
    if k < count {
        lemma_parse_repeat_err(s, k, (count - 1) as nat, item);
    }
}

/// A run of values, each of which is read back as it was written, is read
/// back as it was written, whatever follows it.
pub proof fn lemma_parse_repeat<T>(
    vs: Seq<T>,
    rest: Seq<u8>,
    enc: spec_fn(T) -> Seq<u8>,
    item: spec_fn(Seq<u8>) -> Parsed<T>,
)
    requires
        forall|i: int| 0 <= i < vs.len() ==> reads_back(#[trigger] vs[i], enc, item),
    ensures
        parse_repeat(repeat_bytes(vs, enc) + rest, vs.len(), item) == Ok::<
            (Seq<T>, int),
            CodecError,
        >((vs, repeat_bytes(vs, enc).len() as int)),
    decreases vs.len(),
{
    if vs.len() > 0 {
        let front = vs.drop_last();
        let last = vs.last();
        let all = repeat_bytes(vs, enc) + rest;
        assert forall|i: int| 0 <= i < front.len() implies reads_back(
            #[trigger] front[i],
            enc,
            item,
        ) by {
            assert(0 <= i < vs.len() && front[i] == vs[i]);
        }
        lemma_parse_repeat(front, enc(last) + rest, enc, item);
        assert(all == repeat_bytes(front, enc) + (enc(last) + rest));
        assert(all.skip(repeat_bytes(front, enc).len() as int) == enc(last) + rest);
        assert(reads_back(vs[vs.len() - 1], enc, item));
        assert(item(enc(last) + rest) == Ok::<(T, int), CodecError>((last, enc(last).len() as int)));
        assert(front.push(last) == vs);
    } else {
        assert(vs == Seq::<T>::empty());
    }
}

/// A counted run of values, each of which is read back as it was written, is
/// read back as it was written, whatever follows it.
pub proof fn lemma_parse_counted<T>(
    vs: Seq<T>,
    rest: Seq<u8>,
    enc: spec_fn(T) -> Seq<u8>,
    item: spec_fn(Seq<u8>) -> Parsed<T>,
)
    requires
        vs.len() <= usize::MAX,
        forall|i: int| 0 <= i < vs.len() ==> reads_back(#[trigger] vs[i], enc, item),
    ensures
        parse_counted(counted_bytes(vs, enc) + rest, item) == Ok::<(Seq<T>, int), CodecError>(
            (vs, counted_bytes(vs, enc).len() as int),
        ),
{
    let body = repeat_bytes(vs, enc);
    let all = counted_bytes(vs, enc) + rest;
    lemma_parse_usize(vs.len() as usize, body + rest);
    assert(all == usize_bytes(vs.len() as usize) + (body + rest));
    assert(all.skip(8) == body + rest);
    lemma_parse_repeat(vs, rest, enc, item);
}

} // verus!
