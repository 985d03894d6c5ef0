use word_game::network::{Connection, ConnectionError, Packet};
use word_game::wire::DecodeError;

fn frame(p: Packet) -> Vec<u8> {
    Connection::new(()).send_packet(p).unwrap()
}

fn feed_in_chunks(bytes: &[u8], size: usize) -> Packet {
    let mut conn = Connection::new(());
    let mut delivered = None;
    let mut fed = 0usize;
    for chunk in bytes.chunks(size) {
        assert!(delivered.is_none());
        let (used, polled) = conn.poll_next_packet(chunk);
        assert_eq!(used, chunk.len());
        fed += chunk.len();
        match polled {
            Ok(None) => assert!(fed < bytes.len()),
            Ok(Some(p)) => {
                assert_eq!(fed, bytes.len());
                delivered = Some(p);
            }
            Err(e) => panic!("{:?}", e),
        }
    }
    delivered.unwrap()
}

#[test]
fn a_frame_is_the_length_then_the_payload() {
    assert_eq!(frame(Packet::ILost {}), vec![0, 0, 0, 2, 0, 2]);
    assert_eq!(
        frame(Packet::add_word("Cat")),
        vec![0, 0, 0, 9, 0, 1, 0, 0, 0, 3, b'C', b'a', b't']
    );
    assert_eq!(
        frame(Packet::ClientInfo { major: 0, minor: 2 }),
        vec![0, 0, 0, 6, 0, 0, 0, 0, 0, 2]
    );
}

#[test]
fn framing_under_fragmentation() {
    let word = "Fragmentation ünder test";
    let bytes = frame(Packet::add_word(word));
    assert_eq!(feed_in_chunks(&bytes, 1), Packet::add_word(word));
    assert_eq!(feed_in_chunks(&bytes, 2), Packet::add_word(word));
    assert_eq!(feed_in_chunks(&bytes, bytes.len()), Packet::add_word(word));
    for size in 3..bytes.len() {
        assert_eq!(feed_in_chunks(&bytes, size), Packet::add_word(word));
    }
}

#[test]
fn every_variant_survives_byte_by_byte_delivery() {
    let make: [fn() -> Packet; 4] = [
        || Packet::ClientInfo { major: 1, minor: 2 },
        || Packet::AddWord { word: String::new() },
        || Packet::ILost {},
        || Packet::WaitingToRestart,
    ];
    for p in make {
        let bytes = frame(p());
        assert_eq!(feed_in_chunks(&bytes, 1), p());
    }
}

#[test]
fn a_poll_without_bytes_changes_nothing() {
    let mut conn = Connection::new(());
    assert_eq!(conn.poll_next_packet(&[]), (0, Ok(None)));
    assert_eq!(conn.wanted(), 4);
    assert_eq!(conn.poll_next_packet(&[0, 0]), (2, Ok(None)));
    assert_eq!(conn.poll_next_packet(&[]), (0, Ok(None)));
    assert_eq!(conn.wanted(), 2);
    assert_eq!(conn.poll_next_packet(&[0, 2, 0]), (3, Ok(None)));
    assert_eq!(conn.wanted(), 1);
    assert_eq!(conn.poll_next_packet(&[]), (0, Ok(None)));
    assert_eq!(conn.poll_next_packet(&[2]), (1, Ok(Some(Packet::ILost {}))));
    assert_eq!(conn.wanted(), 4);
}

#[test]
fn a_poll_stops_at_the_end_of_the_frame() {
    let mut bytes = frame(Packet::add_word("One"));
    let first = bytes.len();
    bytes.extend_from_slice(&frame(Packet::WaitingToRestart));
    bytes.extend_from_slice(&[0, 0]);
    let mut conn = Connection::new(());
    assert_eq!(conn.poll_next_packet(&bytes), (first, Ok(Some(Packet::add_word("One")))));
    assert_eq!(
        conn.poll_next_packet(&bytes[first..]),
        (6, Ok(Some(Packet::WaitingToRestart)))
    );
    assert_eq!(conn.poll_next_packet(&bytes[first + 6..]), (2, Ok(None)));
    assert_eq!(conn.wanted(), 2);
}

#[test]
fn try_read_takes_what_is_wanted_and_no_more() {
    let mut conn = Connection::new(());
    assert_eq!(conn.try_read(&[0, 0, 0, 3, 9, 9, 9, 9]), 4);
    assert_eq!(conn.wanted(), 3);
    assert_eq!(conn.try_read(&[1]), 1);
    assert_eq!(conn.try_read(&[2, 3, 4, 5]), 2);
    assert_eq!(conn.wanted(), 0);
    assert_eq!(conn.try_read(&[6]), 0);
}

#[test]
fn an_empty_frame_is_a_decode_error() {
    let mut conn = Connection::new(());
    assert_eq!(conn.poll_next_packet(&[0, 0, 0]), (3, Ok(None)));
    assert_eq!(conn.poll_next_packet(&[0, 0, 0]), (1, Err(DecodeError::UnexpectedEof)));
}

#[test]
fn a_decode_error_is_final() {
    let mut conn = Connection::new(());
    let bad = [0u8, 0, 0, 2, 0, 99];
    assert_eq!(conn.poll_next_packet(&bad), (6, Err(DecodeError::UnrecognizedVariant(99))));
    assert_eq!(conn.wanted(), 0);
    let good = frame(Packet::ILost {});
    assert_eq!(conn.poll_next_packet(&good), (0, Err(DecodeError::UnrecognizedVariant(99))));
    assert_eq!(conn.poll_next_packet(&[]), (0, Err(DecodeError::UnrecognizedVariant(99))));
}

#[test]
fn the_payload_ends_where_the_frame_ends() {
    // The frame announces one byte; the tag is cut although bytes follow.
    let mut conn = Connection::new(());
    assert_eq!(conn.poll_next_packet(&[0, 0, 0, 1, 0, 2]), (5, Err(DecodeError::UnexpectedEof)));
}

#[test]
fn a_large_frame_is_assembled() {
    let word: String = "x".repeat(100_000);
    let bytes = frame(Packet::add_word(&word));
    assert_eq!(bytes.len(), 4 + 2 + 4 + 100_000);
    assert_eq!(feed_in_chunks(&bytes, 8192), Packet::add_word(&word));
    assert_eq!(feed_in_chunks(&bytes, 1), Packet::add_word(&word));
}

#[test]
fn next_packet_polls_before_the_deadline() {
    let mut conn = Connection::new(());
    let bytes = frame(Packet::ILost {});
    assert_eq!(conn.next_packet(&bytes[..3], 0, 10_000), (3, Ok(None)));
    assert_eq!(conn.next_packet(&bytes[3..], 9_999, 10_000), (3, Ok(Some(Packet::ILost {}))));
}

#[test]
fn next_packet_times_out_at_the_deadline() {
    let mut conn = Connection::new(());
    let bytes = frame(Packet::ILost {});
    assert_eq!(conn.next_packet(&bytes[..3], 5, 10), (3, Ok(None)));
    assert_eq!(conn.next_packet(&bytes[3..], 10, 10), (0, Err(ConnectionError::TimedOut)));
    assert_eq!(conn.wanted(), 1);
    assert_eq!(conn.next_packet(&bytes[3..], 11, 10), (0, Err(ConnectionError::TimedOut)));
    assert_eq!(conn.next_packet(&[], 0, 0), (0, Err(ConnectionError::TimedOut)));
}

#[test]
fn next_packet_reports_decode_errors() {
    let mut conn = Connection::new(());
    assert_eq!(
        conn.next_packet(&[0, 0, 0, 3, 0, 1, 0], 1, 2),
        (7, Err(ConnectionError::Decode(DecodeError::UnexpectedEof)))
    );
}

#[test]
fn the_transport_is_carried_untouched() {
    let mut conn = Connection::new(41u8);
    let bytes = frame(Packet::WaitingToRestart);
    conn.poll_next_packet(&bytes);
    assert_eq!(conn.stream, 41);
}
