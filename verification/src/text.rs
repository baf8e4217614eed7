//! Strings as the artifact holds them: length-prefixed, and padded with zero
//! bytes so that the coordinates that follow stay aligned.

use crate::wire::{
    lemma_parse_usize, lemma_skip_skip, parse_usize, put_usize, take_usize, usize_bytes, CodecError, Parsed,
};
use vstd::prelude::*;
use vstd::slice::*;
use vstd::string::*;
use vstd::utf8::*;

verus! {

/// The alignment of a coordinate, in bytes: strings are padded to it.
pub const ALIGNMENT: usize = 4;

/// `n` zero bytes.
pub open spec fn zeros(n: nat) -> Seq<u8> {
    Seq::new(n, |i: int| 0u8)
}

/// How many zero bytes follow a string of `len` bytes: at least one, at most
/// `ALIGNMENT`, and such that the whole is a multiple of `ALIGNMENT`.
pub open spec fn padding_len(len: nat) -> nat {
    (ALIGNMENT - len % (ALIGNMENT as nat)) as nat
}

/// The bytes of a string followed by its padding.
pub open spec fn padded(bytes: Seq<u8>) -> Seq<u8> {
    bytes + zeros(padding_len(bytes.len()))
}

/// The number of zero bytes at the end of `data`, counted up to `limit`.
pub open spec fn padding_in(data: Seq<u8>, limit: nat) -> nat
    decreases limit,
{
    if limit > 0 && data.len() > 0 && data.last() == 0 {
        1 + padding_in(data.drop_last(), (limit - 1) as nat)
    } else {
        0
    }
}

/// `data` without the zero bytes at its end, of which at most `ALIGNMENT`
/// are taken off.
pub open spec fn unpadded(data: Seq<u8>) -> Seq<u8> {
    data.take(data.len() - padding_in(data, ALIGNMENT as nat))
}

/// Whether the last byte of `bytes` is zero.
pub open spec fn ends_in_zero(bytes: Seq<u8>) -> bool {
    bytes.len() > 0 && bytes.last() == 0
}

/// The artifact's bytes for a string: the padded length, then the padded bytes.
pub open spec fn string_bytes(s: Seq<char>) -> Seq<u8> {
    let p = padded(encode_utf8(s));
    usize_bytes(p.len() as usize) + p
}

/// Reading a string from the front of `s`.
#[verifier::opaque]
pub open spec fn parse_string(s: Seq<u8>) -> Parsed<Seq<char>> {
    match parse_usize(s) {
        Ok((len, n)) => if s.len() - n >= len {
            let body = unpadded(s.subrange(n, n + len));
            if valid_utf8(body) {
                Ok((decode_utf8(body), n + len))
            } else {
                Err(CodecError::InvalidUtf8)
            }
        } else {
            Err(CodecError::UnexpectedEnd)
        },
        Err(e) => Err(e),
    }
}

/// The artifact's bytes for an optional string: a tag word, 0 or 1, and after
/// a 1 the string.
pub open spec fn option_string_bytes(s: Option<Seq<char>>) -> Seq<u8> {
    match s {
        None => usize_bytes(0),
        Some(t) => usize_bytes(1) + string_bytes(t),
    }
}

/// Reading an optional string from the front of `s`.
pub open spec fn parse_option_string(s: Seq<u8>) -> Parsed<Option<Seq<char>>> {
    match parse_usize(s) {
        Ok((tag, n)) => if tag == 0 {
            Ok((None, n))
        } else if tag == 1 {
            match parse_string(s.skip(n)) {
                Ok((t, m)) => Ok((Some(t), n + m)),
                Err(e) => Err(e),
            }
        } else {
            Err(CodecError::UnknownVariant)
        },
        Err(e) => Err(e),
    }
}

/// `String::from_utf8`: the bytes become a string exactly when they are valid
/// UTF-8, and the string then has those bytes.
#[verifier::external_body]
fn string_from_utf8(bytes: Vec<u8>) -> (r: Option<String>)
    ensures
        r.is_some() <==> valid_utf8(bytes@),
        r matches Some(s) ==> encode_utf8(s@) == bytes@,
{
    String::from_utf8(bytes).ok()
}

/// Pads a string before encoding, so that what follows it is aligned: the
/// string's bytes, then between one and `ALIGNMENT` zero bytes.
pub fn pad_string_alignment(string: &str) -> (out: Vec<u8>)
    ensures
        out@ == padded(string.spec_bytes()),
        out@.len() % (ALIGNMENT as nat) == 0,
{
    let bytes = string.as_bytes();
    let padding = ALIGNMENT - bytes.len() % ALIGNMENT;
    let mut out = slice_to_vec(bytes);
    let mut i: usize = 0;
    while i < padding
        invariant
            i <= padding,
            out@ == bytes@ + zeros(i as nat),
        decreases padding - i,
    {
        out.push(0u8);
        i = i + 1;
        assert(out@ == bytes@ + zeros(i as nat));
    }
    out
}

/// Whether a string is read back as it was written: it is, unless it ends in
/// a zero character, which reading takes for padding.
pub fn keeps_its_end(string: &str) -> (r: bool)
    ensures
        r == !ends_in_zero(string.spec_bytes()),
{
    let bytes = string.as_bytes();
    bytes.len() == 0 || bytes[bytes.len() - 1] != 0
}

/// The padding of a padded string is counted back exactly, provided the
/// string itself does not end in a zero byte.
pub proof fn lemma_padding_in(bytes: Seq<u8>, k: nat, limit: nat)
    requires
        !ends_in_zero(bytes),
        k <= limit,
    ensures
        padding_in(bytes + zeros(k), limit) == k,
    decreases k,
{
    let data = bytes + zeros(k);
    if k == 0 {
        assert(data == bytes);
    } else {
        assert(data.last() == 0);
        assert(data.drop_last() == bytes + zeros((k - 1) as nat));
        lemma_padding_in(bytes, (k - 1) as nat, (limit - 1) as nat);
    }
}

/// Taking the padding off a padded string gives the string back, provided it
/// does not end in a zero byte.
pub proof fn lemma_unpadded_padded(bytes: Seq<u8>)
    requires
        !ends_in_zero(bytes),
    ensures
        unpadded(padded(bytes)) == bytes,
{
    let k = padding_len(bytes.len());
    lemma_padding_in(bytes, k, ALIGNMENT as nat);
    assert(padded(bytes).take(bytes.len() as int) == bytes);
}

/// A string of the artifact.
#[derive(Debug)]
pub struct EncodableString(pub String);

impl View for EncodableString {
    type V = Seq<char>;

    open spec fn view(&self) -> Seq<char> {
        self.0@
    }
}

impl EncodableString {
    /// The string itself.
    pub fn as_ref(&self) -> (s: &str)
        ensures
            s@ == self@,
    {
        self.0.as_str()
    }

    /// Appends the string's bytes, as the artifact holds them, to `out`.
    pub fn encode(&self, out: &mut Vec<u8>)
        ensures
            final(out)@ == old(out)@ + string_bytes(self@),
    {
        put_string(out, self.0.as_str());
    }

    /// Reads a string at `pos`.
    pub fn decode(bytes: &[u8], pos: usize) -> (r: Result<(EncodableString, usize), CodecError>)
        requires
            pos <= bytes@.len(),
        ensures
            match parse_string(bytes@.skip(pos as int)) {
                Ok((v, n)) => r matches Ok((s, p)) && s@ == v && p == pos + n && pos <= p <= bytes@.len(),
                Err(e) => r matches Err(f) && f == e,
            },
    {
        match take_string(bytes, pos) {
            Ok((s, p)) => Ok((EncodableString(s), p)),
            Err(e) => Err(e),
        }
    }
}

/// An optional string of the artifact.
#[derive(Debug)]
pub struct EncodableOptionString(pub Option<String>);

impl View for EncodableOptionString {
    type V = Option<Seq<char>>;

    open spec fn view(&self) -> Option<Seq<char>> {
        match self.0 {
            Some(s) => Some(s@),
            None => None,
        }
    }
}

impl EncodableOptionString {
    /// A reference to the string, if there is one.
    pub fn as_ref(&self) -> (r: Option<&String>)
        ensures
            r.is_some() == self.0.is_some(),
            r matches Some(s) ==> Some(s@) == self@,
    {
        self.0.as_ref()
    }

    /// Appends the optional string's bytes, as the artifact holds them, to
    /// `out`.
    pub fn encode(&self, out: &mut Vec<u8>)
        ensures
            final(out)@ == old(out)@ + option_string_bytes(self@),
    {
        match &self.0 {
            None => {
                put_usize(out, 0);
            },
            Some(s) => {
                put_usize(out, 1);
                put_string(out, s.as_str());
                assert(out@ == old(out)@ + (usize_bytes(1) + string_bytes(s@)));
            },
        }
    }

    /// Reads an optional string at `pos`.
    pub fn decode(bytes: &[u8], pos: usize) -> (r: Result<
        (EncodableOptionString, usize),
        CodecError,
    >)
        requires
            pos <= bytes@.len(),
        ensures
            match parse_option_string(bytes@.skip(pos as int)) {
                Ok((v, n)) => r matches Ok((s, p)) && s@ == v && p == pos + n && pos <= p <= bytes@.len(),
                Err(e) => r matches Err(f) && f == e,
            },
    {
        match take_usize(bytes, pos) {
            Err(e) => Err(e),
            Ok((tag, p)) => {
                if tag == 0 {
                    Ok((EncodableOptionString(None), p))
                } else if tag == 1 {
                    proof {
                        lemma_skip_skip(bytes@, pos as int, 8);
                    }
                    match take_string(bytes, p) {
                        Ok((s, q)) => Ok((EncodableOptionString(Some(s)), q)),
                        Err(e) => Err(e),
                    }
                } else {
                    Err(CodecError::UnknownVariant)
                }
            },
        }
    }
}

/// Appends a string's bytes, as the artifact holds them, to `out`.
pub fn put_string(out: &mut Vec<u8>, s: &str)
    ensures
        final(out)@ == old(out)@ + string_bytes(s@),
{
    let mut data = pad_string_alignment(s);
    put_usize(out, data.len());
    out.append(&mut data);
    assert(out@ == old(out)@ + string_bytes(s@));
}

/// Reads a string at `pos`.
pub fn take_string(bytes: &[u8], pos: usize) -> (r: Result<(String, usize), CodecError>)
    requires
        pos <= bytes@.len(),
    ensures
        match parse_string(bytes@.skip(pos as int)) {
            Ok((v, n)) => r matches Ok((s, p)) && s@ == v && p == pos + n && pos <= p <= bytes@.len(),
            Err(e) => r matches Err(f) && f == e,
        },
{
    reveal(parse_string);
    let (len, p) = match take_usize(bytes, pos) {
        Ok(x) => x,
        Err(e) => {
            return Err(e);
        },
    };
    if bytes.len() - p < len {
        return Err(CodecError::UnexpectedEnd);
    }
    let data = slice_subrange(bytes, p, p + len);
    assert(data@ == bytes@.skip(pos as int).subrange(8, 8 + len));
    let mut keep: usize = len;
    let mut taken: usize = 0;
    assert(data@.take(len as int) == data@);
    while taken < ALIGNMENT && keep > 0 && data[keep - 1] == 0
        invariant
            keep + taken == len,
            taken <= ALIGNMENT,
            data@.len() == len,
            padding_in(data@, ALIGNMENT as nat) == taken + padding_in(
                data@.take(keep as int),
                (ALIGNMENT - taken) as nat,
            ),
        decreases keep,
    {
        assert(data@.take(keep as int).drop_last() == data@.take(keep - 1));
        keep = keep - 1;
        taken = taken + 1;
    }
    let body = slice_to_vec(slice_subrange(data, 0, keep));
    assert(body@ == unpadded(data@));
    match string_from_utf8(body) {
        Some(s) => {
            proof {
                encode_utf8_decode_utf8(s@);
            }
            Ok((s, p + len))
        },
        None => Err(CodecError::InvalidUtf8),
    }
}

/// A string that does not end in a zero character is read back as it was
/// written, whatever follows it.
pub proof fn lemma_parse_string(s: Seq<char>, rest: Seq<u8>)
    requires
        !ends_in_zero(encode_utf8(s)),
        padded(encode_utf8(s)).len() <= usize::MAX,
    ensures
        parse_string(string_bytes(s) + rest) == Ok::<(Seq<char>, int), CodecError>(
            (s, string_bytes(s).len() as int),
        ),
{
    reveal(parse_string);
    let raw = encode_utf8(s);
    let p = padded(raw);
    let all = string_bytes(s) + rest;
    lemma_parse_usize(p.len() as usize, p + rest);
    assert(all == usize_bytes(p.len() as usize) + (p + rest));
    assert(all.subrange(8, 8 + p.len() as int) == p);
    lemma_unpadded_padded(raw);
    encode_utf8_valid_utf8(s);
    encode_utf8_decode_utf8(s);
}

/// An optional string whose string does not end in a zero character is read
/// back as it was written, whatever follows it.
pub proof fn lemma_parse_option_string(s: Option<Seq<char>>, rest: Seq<u8>)
    requires
        s matches Some(t) ==> !ends_in_zero(encode_utf8(t)) && padded(encode_utf8(t)).len()
            <= usize::MAX,
    ensures
        parse_option_string(option_string_bytes(s) + rest) == Ok::<
            (Option<Seq<char>>, int),
            CodecError,
        >((s, option_string_bytes(s).len() as int)),
{
    match s {
        None => {
            lemma_parse_usize(0, rest);
        },
        Some(t) => {
            let all = option_string_bytes(s) + rest;
            lemma_parse_usize(1, string_bytes(t) + rest);
            assert(all == usize_bytes(1) + (string_bytes(t) + rest));
            assert(all.skip(8) == string_bytes(t) + rest);
            lemma_parse_string(t, rest);
        },
    }
}

} // verus!
