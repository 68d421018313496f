use pso_serial::legacy::{round_up, round_up_remainder, Msg};
use pso_serial::serial::SerialError;

#[test]
fn test_msg_serial_size() {
    let msg = Msg::Unknown(0, 0, vec![0; 20]);
    let mut buf: Vec<u8> = Vec::new();
    msg.serialize(&mut buf).unwrap();
    assert_eq!(buf.len(), 24);
}

#[test]
fn test_msg_serial_padding() {
    let msg = Msg::Unknown(0, 0, vec![0; 21]);
    let mut buf: Vec<u8> = Vec::new();
    msg.serialize(&mut buf).unwrap();
    assert_eq!(buf.len(), 28);

    let msg = Msg::Unknown(0, 0, vec![0; 22]);
    let mut buf: Vec<u8> = Vec::new();
    msg.serialize(&mut buf).unwrap();
    assert_eq!(buf.len(), 28);

    let msg = Msg::Unknown(0, 0, vec![0; 23]);
    let mut buf: Vec<u8> = Vec::new();
    msg.serialize(&mut buf).unwrap();
    assert_eq!(buf.len(), 28);

    let msg = Msg::Unknown(0, 0, vec![0; 24]);
    let mut buf: Vec<u8> = Vec::new();
    msg.serialize(&mut buf).unwrap();
    assert_eq!(buf.len(), 28);
}

#[test]
fn legacy_header_is_big_endian_body_length() {
    let msg = Msg::Unknown(0x12, 0x34, vec![1, 2, 3, 4, 5]);
    let mut buf: Vec<u8> = Vec::new();
    msg.serialize(&mut buf).unwrap();
    assert_eq!(buf, vec![0x12, 0x34, 0x00, 0x08, 1, 2, 3, 4, 5, 0, 0, 0]);
}

#[test]
fn legacy_round_trip_aligned_body() {
    let msg = Msg::Unknown(7, 9, vec![0xAA; 16]);
    let mut buf: Vec<u8> = Vec::new();
    msg.serialize(&mut buf).unwrap();
    let (back, end) = Msg::deserialize(&buf, 0).unwrap();
    assert_eq!(back, msg);
    assert_eq!(end, 20);
}

#[test]
fn legacy_deserialize_trusts_length_field() {
    // A declared length of 3 is read as it stands.
    let bytes = vec![1, 2, 0, 3, 9, 8, 7, 6];
    let (msg, end) = Msg::deserialize(&bytes, 0).unwrap();
    assert_eq!(msg, Msg::Unknown(1, 2, vec![9, 8, 7]));
    assert_eq!(end, 7);
}

#[test]
fn legacy_short_reads_fail() {
    assert_eq!(Msg::deserialize(&[1, 2, 0], 0), Err(SerialError::UnexpectedEnd));
    assert_eq!(Msg::deserialize(&[1, 2, 0, 8, 1, 2], 0), Err(SerialError::UnexpectedEnd));
}

#[test]
fn legacy_oversized_body_is_refused() {
    let msg = Msg::Unknown(0, 0, vec![0; 65533]);
    let mut buf: Vec<u8> = vec![5];
    assert_eq!(msg.serialize(&mut buf), Err(SerialError::FrameTooLarge));
    assert_eq!(buf, vec![5]);
}

#[test]
fn legacy_round_up_values() {
    assert_eq!(round_up(20, 4), 20);
    assert_eq!(round_up(21, 4), 24);
    assert_eq!(round_up(0, 4), 0);
    assert_eq!(round_up_remainder(21, 4), 3);
    assert_eq!(round_up_remainder(24, 4), 0);
}
