use std::time::Instant;

use lightning_core::measurements::Duration;
use lightning_core::pinger::{next_peer, ping_timeout, Message, MessageError, PendingPings};

#[test]
fn request_encoding() {
    let m = Message::Request { sender: 0x01020304, id: 7 };
    assert_eq!(m.encode(), vec![0, 4, 3, 2, 1, 7, 0, 0, 0]);
}

#[test]
fn response_encoding() {
    let m = Message::Response { sender: 1, id: u32::MAX };
    assert_eq!(m.encode(), vec![1, 1, 0, 0, 0, 255, 255, 255, 255]);
}

#[test]
fn decode_gives_back_encoded_messages() {
    for m in [
        Message::Request { sender: 0, id: 0 },
        Message::Request { sender: 123456, id: 987654321 },
        Message::Response { sender: u32::MAX, id: 42 },
    ] {
        assert_eq!(Message::decode(&m.encode()), Ok(m));
    }
}

#[test]
fn decode_rejects_bad_input() {
    assert_eq!(Message::decode(&[0; 8]), Err(MessageError::WrongLength));
    assert_eq!(Message::decode(&[0; 10]), Err(MessageError::WrongLength));
    assert_eq!(Message::decode(&[]), Err(MessageError::WrongLength));
    assert_eq!(Message::decode(&[2, 0, 0, 0, 0, 0, 0, 0, 0]), Err(MessageError::InvalidMagicByte));
    assert_eq!(
        Message::decode(&[1, 5, 0, 0, 0, 6, 0, 0, 0]),
        Ok(Message::Response { sender: 5, id: 6 })
    );
}

#[test]
fn pending_pings_settle_once() {
    let mut p = PendingPings::new();
    let at = Instant::now();
    p.sent(3, 77, at);
    p.sent(4, 78, at);
    assert_eq!(p.answered(3, 77), Some(at));
    assert_eq!(p.answered(3, 77), None);
    assert!(!p.timed_out(3, 77));
    assert!(p.timed_out(4, 78));
    assert!(!p.timed_out(4, 78));
    // An answer with the wrong id is not a pending ping.
    p.sent(5, 1, at);
    assert_eq!(p.answered(5, 2), None);
    assert!(p.pending.contains_key(&(5, 1)));
}

#[test]
fn peers_are_pinged_in_turn() {
    let registry = vec![9, 4, 7];
    assert_eq!(next_peer(&registry, 0), (9, 1));
    assert_eq!(next_peer(&registry, 1), (4, 2));
    assert_eq!(next_peer(&registry, 2), (7, 0));
}

#[test]
fn the_ping_timeout_defaults_to_fifteen_seconds() {
    assert_eq!(ping_timeout(None), Duration::from_millis(15_000));
    assert_eq!(ping_timeout(Some(Duration::from_millis(3_000))), Duration::from_millis(3_000));
}
