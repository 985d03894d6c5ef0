use word_game::network::{Packet, MAJOR_VERSION, MINOR_VERSION};
use word_game::wire::{
    read_string, read_u16, read_u32, write_string, write_u16, write_u32, DecodeError,
};

fn encode(p: &Packet) -> Vec<u8> {
    let mut out = Vec::new();
    assert_eq!(p.write(&mut out), Ok(()));
    out
}

#[test]
fn u16_is_written_most_significant_byte_first() {
    let mut out = vec![9u8];
    write_u16(&mut out, 0x1234);
    assert_eq!(out, vec![9, 0x12, 0x34]);
}

#[test]
fn u32_is_written_most_significant_byte_first() {
    let mut out = Vec::new();
    write_u32(&mut out, 0x0102_0304);
    write_u32(&mut out, u32::MAX);
    assert_eq!(out, vec![1, 2, 3, 4, 255, 255, 255, 255]);
}

#[test]
fn integers_are_read_at_the_cursor() {
    let data = [0xAB, 0x12, 0x34, 0xDE, 0xAD, 0xBE, 0xEF];
    let mut pos = 1usize;
    assert_eq!(read_u16(&data, &mut pos), Ok(0x1234));
    assert_eq!(pos, 3);
    assert_eq!(read_u32(&data, &mut pos), Ok(0xDEAD_BEEF));
    assert_eq!(pos, 7);
}

#[test]
fn a_short_read_fails_and_leaves_the_cursor() {
    let data = [1u8, 2, 3];
    let mut pos = 2usize;
    assert_eq!(read_u16(&data, &mut pos), Err(DecodeError::UnexpectedEof));
    assert_eq!(pos, 2);
    let mut pos = 0usize;
    assert_eq!(read_u32(&data, &mut pos), Err(DecodeError::UnexpectedEof));
    assert_eq!(pos, 0);
    let mut pos = 17usize;
    assert_eq!(read_u16(&data, &mut pos), Err(DecodeError::UnexpectedEof));
    assert_eq!(pos, 17);
}

#[test]
fn text_is_length_prefixed_utf8() {
    let mut out = Vec::new();
    assert_eq!(write_string(&mut out, "hé"), Ok(()));
    assert_eq!(out, vec![0, 0, 0, 3, b'h', 0xC3, 0xA9]);
    let mut pos = 0usize;
    assert_eq!(read_string(&out, &mut pos), Ok("hé".to_string()));
    assert_eq!(pos, 7);
}

#[test]
fn text_errors_leave_the_cursor() {
    let cut = [0u8, 0, 0, 5, b'a', b'b'];
    let mut pos = 0usize;
    assert_eq!(read_string(&cut, &mut pos), Err(DecodeError::UnexpectedEof));
    assert_eq!(pos, 0);
    let bad = [0u8, 0, 0, 2, 0xC3, 0x28];
    assert_eq!(read_string(&bad, &mut pos), Err(DecodeError::InvalidUtf8));
    assert_eq!(pos, 0);
}

#[test]
fn client_info_layout() {
    let p = Packet::ClientInfo { major: 0x0102, minor: 0x0304 };
    assert_eq!(p.packet_id(), 0);
    assert_eq!(encode(&p), vec![0, 0, 1, 2, 3, 4]);
}

#[test]
fn add_word_layout() {
    let p = Packet::add_word("Cat");
    assert_eq!(p, Packet::AddWord { word: "Cat".to_string() });
    assert_eq!(p.packet_id(), 1);
    assert_eq!(encode(&p), vec![0, 1, 0, 0, 0, 3, b'C', b'a', b't']);
}

#[test]
fn no_payload_variants_are_the_tag_alone() {
    assert_eq!(Packet::ILost {}.packet_id(), 2);
    assert_eq!(Packet::WaitingToRestart.packet_id(), 3);
    assert_eq!(encode(&Packet::ILost {}), vec![0, 2]);
    assert_eq!(encode(&Packet::WaitingToRestart), vec![0, 3]);
}

#[test]
fn write_appends_to_what_is_there() {
    let mut out = vec![7u8, 7];
    assert_eq!(Packet::ILost {}.write(&mut out), Ok(()));
    assert_eq!(out, vec![7, 7, 0, 2]);
}

#[test]
fn client_info_announces_this_build() {
    assert_eq!(
        Packet::client_info(),
        Packet::ClientInfo { major: MAJOR_VERSION, minor: MINOR_VERSION }
    );
    assert_eq!((MAJOR_VERSION, MINOR_VERSION), (0, 2));
}

#[test]
fn round_trip_of_every_variant() {
    let long: String = "wörd ".repeat(40_000);
    let packets = vec![
        Packet::ClientInfo { major: 0, minor: 0 },
        Packet::ClientInfo { major: 1, minor: 2 },
        Packet::ClientInfo { major: u16::MAX, minor: u16::MAX },
        Packet::AddWord { word: String::new() },
        Packet::AddWord { word: "Dog".to_string() },
        Packet::AddWord { word: "naïve 日本語 🦀".to_string() },
        Packet::AddWord { word: long },
        Packet::ILost {},
        Packet::WaitingToRestart,
    ];
    for p in packets {
        assert_eq!(Packet::parse(&encode(&p)), Ok(p));
    }
}

#[test]
fn bytes_behind_the_packet_are_not_looked_at() {
    let mut bytes = encode(&Packet::add_word("Dog"));
    bytes.extend_from_slice(&[0xFF, 0xFE, 0xFD]);
    assert_eq!(Packet::parse(&bytes), Ok(Packet::add_word("Dog")));
    assert_eq!(Packet::parse(&[0, 2, 9, 9]), Ok(Packet::ILost {}));
}

#[test]
fn unknown_tag_is_rejected() {
    assert_eq!(Packet::parse(&[0, 99]), Err(DecodeError::UnrecognizedVariant(99)));
    assert_eq!(Packet::parse(&[0, 4]), Err(DecodeError::UnrecognizedVariant(4)));
    assert_eq!(
        Packet::parse(&[0xFF, 0xFF, 1, 2, 3]),
        Err(DecodeError::UnrecognizedVariant(0xFFFF))
    );
}

#[test]
fn truncated_payloads_are_rejected() {
    assert_eq!(Packet::parse(&[]), Err(DecodeError::UnexpectedEof));
    assert_eq!(Packet::parse(&[0]), Err(DecodeError::UnexpectedEof));
    assert_eq!(Packet::parse(&[0, 0, 1, 2, 3]), Err(DecodeError::UnexpectedEof));
    assert_eq!(Packet::parse(&[0, 1, 0, 0, 0]), Err(DecodeError::UnexpectedEof));
    assert_eq!(Packet::parse(&[0, 1, 0, 0, 0, 4, b'a', b'b', b'c']), Err(DecodeError::UnexpectedEof));
}

#[test]
fn text_that_is_not_utf8_is_rejected() {
    assert_eq!(Packet::parse(&[0, 1, 0, 0, 0, 1, 0xFF]), Err(DecodeError::InvalidUtf8));
    assert_eq!(
        Packet::parse(&[0, 1, 0, 0, 0, 3, 0xED, 0xA0, 0x80]),
        Err(DecodeError::InvalidUtf8)
    );
}
