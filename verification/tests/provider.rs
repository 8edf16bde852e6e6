use lightning_core::provider::{read_response_header, EmptyMessage, HeaderError, InvalidStatus, PoolMessage, RejectReason, Status};

#[test]
fn status_bytes() {
    assert_eq!(Status::Accepted.to_byte(), 0);
    assert_eq!(Status::Failed(RejectReason::TooManyRequests).to_byte(), 1);
    assert_eq!(Status::Failed(RejectReason::ContentNotFound).to_byte(), 2);
    assert_eq!(Status::Failed(RejectReason::Other).to_byte(), 3);
    for b in 0..=3u8 {
        assert_eq!(Status::from_byte(b).unwrap().to_byte(), b);
    }
    assert_eq!(Status::from_byte(4), Err(InvalidStatus));
    assert_eq!(Status::from_byte(255), Err(InvalidStatus));
}

#[test]
fn message_framing() {
    let m = PoolMessage { service: 7, payload: b"hello".to_vec() };
    let bytes = m.to_bytes();
    assert_eq!(bytes, vec![7, b'h', b'e', b'l', b'l', b'o']);
    let back = PoolMessage::from_bytes(&bytes).unwrap();
    assert_eq!(back.service, 7);
    assert_eq!(back.payload, b"hello".to_vec());
    let only_service = PoolMessage::from_bytes(&[3]).unwrap();
    assert!(only_service.payload.is_empty());
    assert_eq!(PoolMessage::from_bytes(&[]).unwrap_err(), EmptyMessage);
}

#[test]
fn an_answer_header_is_one_status_byte() {
    assert_eq!(read_response_header(&[0]), Ok(Status::Accepted));
    assert_eq!(read_response_header(&[2]), Ok(Status::Failed(RejectReason::ContentNotFound)));
    assert_eq!(read_response_header(&[]), Err(HeaderError::InvalidData));
    assert_eq!(read_response_header(&[0, 0]), Err(HeaderError::InvalidData));
    assert_eq!(read_response_header(&[4]), Err(HeaderError::UnknownStatus));
}
