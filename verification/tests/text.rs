use rtz::text::{keeps_its_end, pad_string_alignment, put_string, take_string, EncodableOptionString, EncodableString};
use rtz::wire::CodecError;

#[test]
fn pads_to_the_next_multiple_of_four() {
    assert_eq!(pad_string_alignment("abc"), vec![b'a', b'b', b'c', 0]);
    assert_eq!(pad_string_alignment("ab"), vec![b'a', b'b', 0, 0]);
    assert_eq!(pad_string_alignment("a"), vec![b'a', 0, 0, 0]);
}

#[test]
fn pads_an_aligned_string_by_a_whole_word() {
    assert_eq!(pad_string_alignment("abcd"), vec![b'a', b'b', b'c', b'd', 0, 0, 0, 0]);
    assert_eq!(pad_string_alignment(""), vec![0, 0, 0, 0]);
}

#[test]
fn string_bytes_are_what_bincode_writes_for_the_padded_bytes() {
    let mut out = Vec::new();
    put_string(&mut out, "America/Los_Angeles");
    let expected = bincode::encode_to_vec(pad_string_alignment("America/Los_Angeles"), bincode::config::legacy()).unwrap();
    assert_eq!(out, expected);
    assert_eq!(out.len(), 8 + 20);
    assert_eq!(&out[..8], &[20, 0, 0, 0, 0, 0, 0, 0]);
}

#[test]
fn string_round_trip_drops_the_padding() {
    let mut out = vec![0xffu8];
    EncodableString("America/Los_Angeles".to_string()).encode(&mut out);
    out.push(7);
    let (s, p) = EncodableString::decode(&out, 1).unwrap();
    assert_eq!(s.as_ref(), "America/Los_Angeles");
    assert_eq!(p, out.len() - 1);
}

#[test]
fn option_string_round_trip() {
    let mut out = Vec::new();
    EncodableOptionString(None).encode(&mut out);
    EncodableOptionString(Some("مصر".to_string())).encode(&mut out);
    assert_eq!(&out[..8], &[0, 0, 0, 0, 0, 0, 0, 0]);
    assert_eq!(&out[8..16], &[1, 0, 0, 0, 0, 0, 0, 0]);
    let (a, p) = EncodableOptionString::decode(&out, 0).unwrap();
    assert!(a.as_ref().is_none());
    let (b, q) = EncodableOptionString::decode(&out, p).unwrap();
    assert_eq!(b.as_ref().unwrap(), "مصر");
    assert_eq!(q, out.len());
}

#[test]
fn truncated_string_is_an_unexpected_end() {
    let mut out = Vec::new();
    put_string(&mut out, "abcdef");
    out.pop();
    assert_eq!(take_string(&out, 0).err(), Some(CodecError::UnexpectedEnd));
    assert_eq!(take_string(&out[..5], 0).err(), Some(CodecError::UnexpectedEnd));
}

#[test]
fn bad_utf8_is_reported() {
    let bytes = [4u8, 0, 0, 0, 0, 0, 0, 0, 0xff, 0xfe, 0, 0];
    assert_eq!(take_string(&bytes, 0).err(), Some(CodecError::InvalidUtf8));
}

#[test]
fn unknown_option_tag_is_reported() {
    let bytes = [2u8, 0, 0, 0, 0, 0, 0, 0];
    assert_eq!(EncodableOptionString::decode(&bytes, 0).err(), Some(CodecError::UnknownVariant));
}

#[test]
fn a_string_that_ends_in_zero_loses_it() {
    let mut out = Vec::new();
    put_string(&mut out, "a\0");
    let (s, _) = take_string(&out, 0).unwrap();
    assert_eq!(s, "a");
}

#[test]
fn strings_that_end_in_zero_are_told_apart() {
    assert!(keeps_its_end(""));
    assert!(keeps_its_end("abc"));
    assert!(keeps_its_end("a\0b"));
    assert!(!keeps_its_end("a\0"));
    assert!(!keeps_its_end("\0"));
}
