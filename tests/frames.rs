use pso_serial::msg::login::{HlCheck, Redirect4, Redirect6, Welcome};
use pso_serial::msg::{round_up, round_up_remainder, Msg};
use pso_serial::serial::SerialError;

fn frame_of(msg: &Msg) -> Vec<u8> {
    let mut buf: Vec<u8> = Vec::new();
    msg.serialize(&mut buf).unwrap();
    buf
}

fn round_trip(msg: &Msg) -> Msg {
    let buf = frame_of(msg);
    let (back, end) = Msg::deserialize(&buf, 0).unwrap();
    assert_eq!(end, buf.len());
    back
}

fn welcome() -> Welcome {
    Welcome {
        copyright: "Phantasy Star Online Blue Burst Game Server.".to_string(),
        server_key: 0x1234_5678,
        client_key: 0x9ABC_DEF0,
    }
}

#[test]
fn round_up_exact_values() {
    assert_eq!(round_up(5, 4), 8);
    assert_eq!(round_up(8, 4), 8);
    assert_eq!(round_up(0, 4), 0);
    assert_eq!(round_up(65532, 4), 65532);
    assert_eq!(round_up_remainder(5, 4), 3);
    assert_eq!(round_up_remainder(6, 4), 2);
    assert_eq!(round_up_remainder(8, 4), 0);
}

#[test]
fn frame_length_rounds_whole_frame() {
    for n in 0..=4096usize {
        let buf = frame_of(&Msg::Unknown(0x60, 0, vec![0xEE; n]));
        let expected = (n + 4 + 3) / 4 * 4;
        assert_eq!(buf.len(), expected);
        assert_eq!(buf.len() % 4, 0);
        assert!(buf.len() >= 4);
        assert_eq!(u16::from_le_bytes([buf[2], buf[3]]) as usize, expected);
    }
}

#[test]
fn frame_header_is_little_endian_total_length() {
    let buf = frame_of(&Msg::Unknown(0x60, 0x01, vec![1, 2, 3, 4, 5]));
    assert_eq!(buf, vec![0x60, 0x01, 12, 0, 1, 2, 3, 4, 5, 0, 0, 0]);
}

#[test]
fn disconnect_has_empty_body() {
    let msg = Msg::Type05Disconnect;
    assert_eq!(frame_of(&msg), vec![0x05, 0, 4, 0]);
    assert_eq!(round_trip(&msg), msg);
}

#[test]
fn welcome_round_trips() {
    let login = Msg::LoginWelcome(3, welcome());
    let ship = Msg::ShipWelcome(0, welcome());
    let buf = frame_of(&login);
    assert_eq!(buf.len(), 76);
    assert_eq!(buf[0], 0x17);
    assert_eq!(buf[1], 3);
    assert_eq!(round_trip(&login), login);
    assert_eq!(frame_of(&ship)[0], 0x02);
    assert_eq!(round_trip(&ship), ship);
}

#[test]
fn redirect_shapes_round_trip_with_their_flags() {
    let r4 = Msg::Redirect4(Redirect4 { ip: vec![192, 168, 0, 1], port: 12000 });
    let r6 = Msg::Redirect6(Redirect6 { ip: (1..=16).collect(), port: 5278 });
    let b4 = frame_of(&r4);
    let b6 = frame_of(&r6);
    assert_eq!((b4[0], b4[1]), (0x19, 0));
    assert_eq!((b6[0], b6[1]), (0x19, 6));
    assert_eq!(round_trip(&r4), r4);
    assert_eq!(round_trip(&r6), r6);
}

#[test]
fn redirect_flags_select_shape() {
    let mut body = vec![10, 0, 0, 1, 0x10, 0x27, 0, 0];
    body.resize(20, 0);
    for flags in [0u8, 1, 5, 7, 255] {
        let mut bytes = vec![0x19, flags, 24, 0];
        bytes.extend_from_slice(&body);
        let (msg, _) = Msg::deserialize(&bytes, 0).unwrap();
        assert_eq!(msg, Msg::Redirect4(Redirect4 { ip: vec![10, 0, 0, 1], port: 10000 }));
    }
    let mut bytes = vec![0x19, 6, 24, 0];
    bytes.extend_from_slice(&body);
    let (msg, _) = Msg::deserialize(&bytes, 0).unwrap();
    assert!(matches!(msg, Msg::Redirect6(_)));
}

#[test]
fn hl_check_round_trips() {
    let msg = Msg::HlCheck(HlCheck { serial: 0xDEAD_BEEF, access_key: 42 });
    let buf = frame_of(&msg);
    assert_eq!(buf, vec![0xDB, 0, 12, 0, 0xEF, 0xBE, 0xAD, 0xDE, 42, 0, 0, 0]);
    assert_eq!(round_trip(&msg), msg);
}

#[test]
fn unknown_round_trips_when_aligned() {
    let msg = Msg::Unknown(0x60, 0x42, vec![9, 8, 7, 6, 5, 4, 3, 2]);
    assert_eq!(round_trip(&msg), msg);
}

#[test]
fn unknown_opcode_keeps_frame_verbatim() {
    let bytes = vec![0x99, 0x07, 12, 0, 1, 2, 3, 4, 5, 6, 7, 8, 0xFF];
    let (msg, end) = Msg::deserialize(&bytes, 0).unwrap();
    assert_eq!(msg, Msg::Unknown(0x99, 0x07, vec![1, 2, 3, 4, 5, 6, 7, 8]));
    assert_eq!(end, 12);
}

#[test]
fn unrounded_size_is_corrected() {
    // A declared size of 9 means a body of round_up(5, 4) = 8 bytes.
    let bytes = vec![0x99, 0, 9, 0, 1, 2, 3, 4, 5, 6, 7, 8];
    let (msg, end) = Msg::deserialize(&bytes, 0).unwrap();
    assert_eq!(msg, Msg::Unknown(0x99, 0, vec![1, 2, 3, 4, 5, 6, 7, 8]));
    assert_eq!(end, 12);
    // A declared size of 4 or less means no body.
    let (msg, end) = Msg::deserialize(&[0x99, 1, 2, 0], 0).unwrap();
    assert_eq!(msg, Msg::Unknown(0x99, 1, vec![]));
    assert_eq!(end, 4);
}

#[test]
fn frame_errors() {
    assert_eq!(Msg::deserialize(&[0x99, 0], 0), Err(SerialError::UnexpectedEnd));
    assert_eq!(Msg::deserialize(&[0x99, 0, 12, 0, 1, 2], 0), Err(SerialError::UnexpectedEnd));
    // A known opcode whose body is too short for its payload.
    assert_eq!(Msg::deserialize(&[0xDB, 0, 8, 0, 1, 2, 3, 4], 0), Err(SerialError::UnexpectedEnd));
    let mut buf: Vec<u8> = vec![1];
    let big = Msg::Unknown(0x60, 0, vec![0; 65529]);
    assert_eq!(big.serialize(&mut buf), Err(SerialError::FrameTooLarge));
    assert_eq!(buf, vec![1]);
    let fits = Msg::Unknown(0x60, 0, vec![0; 65528]);
    let mut buf: Vec<u8> = Vec::new();
    assert_eq!(fits.serialize(&mut buf), Ok(()));
    assert_eq!(buf.len(), 65532);
}
