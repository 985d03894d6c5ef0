use word_game::network::{
    check_handshake, connect, Connection, ConnectionError, HandshakeError, Packet,
};
use word_game::wire::DecodeError;

#[test]
fn version_mismatch_names_both_versions() {
    let first = Ok(Packet::ClientInfo { major: 2, minor: 0 });
    assert_eq!(
        check_handshake(1, 2, &first),
        Err(HandshakeError::VersionMismatch {
            local_major: 1,
            local_minor: 2,
            peer_major: 2,
            peer_minor: 0,
        })
    );
}

#[test]
fn equal_versions_shake_hands() {
    assert_eq!(check_handshake(1, 2, &Ok(Packet::ClientInfo { major: 1, minor: 2 })), Ok(()));
    assert_eq!(check_handshake(0, 0, &Ok(Packet::ClientInfo { major: 0, minor: 0 })), Ok(()));
}

#[test]
fn versions_that_agree_on_one_number_shake_hands() {
    assert_eq!(check_handshake(1, 2, &Ok(Packet::ClientInfo { major: 1, minor: 9 })), Ok(()));
    assert_eq!(check_handshake(1, 2, &Ok(Packet::ClientInfo { major: 7, minor: 2 })), Ok(()));
}

#[test]
fn the_first_packet_must_be_the_version() {
    assert_eq!(
        check_handshake(0, 2, &Ok(Packet::add_word("Hi"))),
        Err(HandshakeError::UnexpectedPacket(1))
    );
    assert_eq!(
        check_handshake(0, 2, &Ok(Packet::ILost {})),
        Err(HandshakeError::UnexpectedPacket(2))
    );
    assert_eq!(
        check_handshake(0, 2, &Ok(Packet::WaitingToRestart)),
        Err(HandshakeError::UnexpectedPacket(3))
    );
}

#[test]
fn a_silent_peer_times_the_handshake_out() {
    assert_eq!(
        check_handshake(0, 2, &Err(ConnectionError::TimedOut)),
        Err(HandshakeError::TimedOut)
    );
}

#[test]
fn a_garbled_first_frame_fails_the_handshake() {
    assert_eq!(
        check_handshake(0, 2, &Err(ConnectionError::Decode(DecodeError::InvalidUtf8))),
        Err(HandshakeError::Decode(DecodeError::InvalidUtf8))
    );
}

#[test]
fn connect_hands_the_connection_on() {
    let mut conn = Connection::new(5u8);
    conn.try_read(&[0, 0]);
    let conn = connect(conn, Ok(Packet::client_info())).unwrap();
    assert_eq!(conn.stream, 5);
    assert_eq!(conn.wanted(), 2);
}

#[test]
fn connect_judges_by_this_builds_version() {
    let refused = connect(Connection::new(()), Ok(Packet::ClientInfo { major: 1, minor: 3 }));
    assert_eq!(
        refused.unwrap_err(),
        HandshakeError::VersionMismatch {
            local_major: 0,
            local_minor: 2,
            peer_major: 1,
            peer_minor: 3,
        }
    );
    assert!(connect(Connection::new(()), Ok(Packet::ClientInfo { major: 0, minor: 7 })).is_ok());
    assert_eq!(
        connect(Connection::new(()), Err(ConnectionError::TimedOut)).unwrap_err(),
        HandshakeError::TimedOut
    );
    assert_eq!(
        connect(Connection::new(()), Ok(Packet::WaitingToRestart)).unwrap_err(),
        HandshakeError::UnexpectedPacket(3)
    );
}

#[test]
fn a_handshake_over_the_wire() {
    // Each end frames its version; the other end reads it off the bytes.
    let hello = Connection::new(()).send_packet(Packet::client_info()).unwrap();
    let mut conn = Connection::new(());
    let (used, polled) = conn.next_packet(&hello, 0, 10_000);
    assert_eq!(used, hello.len());
    let first = polled.map(|p| p.unwrap());
    assert!(connect(conn, first).is_ok());
}
