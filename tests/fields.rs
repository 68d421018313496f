use pso_serial::serial::util::{
    read_array, read_ascii_len, read_utf16, read_utf16_len, write_array, write_ascii_len,
    write_utf16, write_utf16_len,
};
use pso_serial::serial::{Serial, SerialError};

fn written<T: Serial>(v: T) -> Vec<u8> {
    let mut out: Vec<u8> = Vec::new();
    v.serialize(&mut out);
    out
}

#[test]
fn integers_are_little_endian() {
    assert_eq!(written(0xABu8), vec![0xAB]);
    assert_eq!(written(-2i8), vec![0xFE]);
    assert_eq!(written(0x1234u16), vec![0x34, 0x12]);
    assert_eq!(written(-2i16), vec![0xFE, 0xFF]);
    assert_eq!(written(0x1234_5678u32), vec![0x78, 0x56, 0x34, 0x12]);
    assert_eq!(written(i32::MIN), vec![0, 0, 0, 0x80]);
    assert_eq!(written(0x0102_0304_0506_0708u64), vec![8, 7, 6, 5, 4, 3, 2, 1]);
    assert_eq!(written(-1i64), vec![0xFF; 8]);
}

#[test]
fn integers_round_trip() {
    let bytes = written(i64::MIN);
    assert_eq!(i64::deserialize(&bytes, 0), Ok((i64::MIN, 8)));
    let bytes = written(-12345i16);
    assert_eq!(i16::deserialize(&bytes, 0), Ok((-12345i16, 2)));
    let bytes = written(u64::MAX);
    assert_eq!(u64::deserialize(&bytes, 0), Ok((u64::MAX, 8)));
    assert_eq!(u32::deserialize(&[1, 0, 0, 0, 2, 0, 0, 0], 4), Ok((2u32, 8)));
}

#[test]
fn bool_reads_any_nonzero_as_true() {
    assert_eq!(written(true), vec![1]);
    assert_eq!(written(false), vec![0]);
    assert_eq!(bool::deserialize(&[0x7F], 0), Ok((true, 1)));
    assert_eq!(bool::deserialize(&[0], 0), Ok((false, 1)));
}

#[test]
fn short_primitive_reads_fail() {
    assert_eq!(u32::deserialize(&[1, 2, 3], 0), Err(SerialError::UnexpectedEnd));
    assert_eq!(u8::deserialize(&[1], 1), Err(SerialError::UnexpectedEnd));
}

#[test]
fn ascii_field_pads_and_reads_back() {
    let mut out: Vec<u8> = Vec::new();
    write_ascii_len("abc", 6, &mut out).unwrap();
    assert_eq!(out, vec![b'a', b'b', b'c', 0, 0, 0]);
    let (s, end) = read_ascii_len(6, &out, 0).unwrap();
    assert_eq!(s, "abc");
    assert_eq!(end, 6);
}

#[test]
fn ascii_field_truncates() {
    let mut out: Vec<u8> = Vec::new();
    write_ascii_len("abcdefgh", 4, &mut out).unwrap();
    assert_eq!(out, vec![b'a', b'b', b'c', b'd']);
    let (s, _) = read_ascii_len(4, &out, 0).unwrap();
    assert_eq!(s, "abcd");
}

#[test]
fn ascii_substitutes_unencodable() {
    let mut out: Vec<u8> = Vec::new();
    write_ascii_len("H\u{e9}", 3, &mut out).unwrap();
    assert_eq!(out, vec![b'H', b'?', 0]);
    let (s, _) = read_ascii_len(3, &[b'x', 0x80, b'y'], 0).unwrap();
    assert_eq!(s, "x\u{fffd}y");
    assert_eq!(read_ascii_len(4, &[1, 2], 0), Err(SerialError::UnexpectedEnd));
}

#[test]
fn utf16_terminated_text() {
    let mut out: Vec<u8> = Vec::new();
    write_utf16("A\u{20ac}", &mut out).unwrap();
    assert_eq!(out, vec![0x41, 0, 0xAC, 0x20, 0, 0]);
    out.extend_from_slice(&[0x42, 0]);
    let (s, end) = read_utf16(&out, 0).unwrap();
    assert_eq!(s, "A\u{20ac}");
    assert_eq!(end, 6);
}

#[test]
fn utf16_text_ends_with_source() {
    let (s, end) = read_utf16(&[0x41, 0, 0x42, 0, 0x43], 0).unwrap();
    assert_eq!(s, "AB");
    assert_eq!(end, 5);
    let mut out: Vec<u8> = Vec::new();
    write_utf16("\u{1F600}", &mut out).unwrap();
    assert_eq!(out, vec![0x3D, 0xD8, 0x00, 0xDE, 0, 0]);
}

#[test]
fn utf16_bounded_field() {
    let mut out: Vec<u8> = Vec::new();
    write_utf16_len("Hi", 4, &mut out).unwrap();
    assert_eq!(out, vec![0x48, 0, 0x69, 0, 0, 0, 0, 0]);
    let (s, end) = read_utf16_len(4, &out, 0).unwrap();
    assert_eq!(s, "Hi");
    assert_eq!(end, 8);
    let mut out: Vec<u8> = Vec::new();
    write_utf16_len("Hello", 2, &mut out).unwrap();
    assert_eq!(out, vec![0x48, 0, 0x65, 0]);
}

#[test]
fn utf16_bounded_field_stops_at_double_zero() {
    let field = vec![0x41, 0, 0, 0, 0x42, 0, 0x43, 0];
    let (s, end) = read_utf16_len(4, &field, 0).unwrap();
    assert_eq!(s, "A");
    assert_eq!(end, 8);
    let (s, _) = read_utf16_len(2, &[0, 0, 0x41, 0], 0).unwrap();
    assert_eq!(s, "");
    let (s, _) = read_utf16_len(2, &[0x41, 0, 0x42, 0], 0).unwrap();
    assert_eq!(s, "AB");
    assert_eq!(read_utf16_len(3, &[0x41, 0, 0x42, 0], 0), Err(SerialError::UnexpectedEnd));
}

#[test]
fn array_pads_with_defaults() {
    let mut out: Vec<u8> = Vec::new();
    write_array(&[7u16, 8], 4, &mut out);
    assert_eq!(out, vec![7, 0, 8, 0, 0, 0, 0, 0]);
    let (items, end) = read_array::<u16>(4, &out, 0).unwrap();
    assert_eq!(items, vec![7, 8, 0, 0]);
    assert_eq!(end, 8);
}

#[test]
fn array_truncates_extra_elements() {
    let mut out: Vec<u8> = Vec::new();
    write_array(&[1u8, 2, 3, 4, 5], 3, &mut out);
    assert_eq!(out, vec![1, 2, 3]);
    let (items, _) = read_array::<u8>(3, &out, 0).unwrap();
    assert_eq!(items, vec![1, 2, 3]);
    assert!(read_array::<u32>(2, &out, 0).is_err());
}
