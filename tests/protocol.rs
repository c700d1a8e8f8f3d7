use wire_broker::codec::{DecodeError, RequestHeader, RequestMessage, ResponseHeader, ResponseMessage};
use wire_broker::connection::{respond, Connection, ConnectionError, Step};

fn request_frame(api_key: i16, api_version: i16, correlation_id: i32) -> Vec<u8> {
    let mut v = Vec::new();
    v.extend_from_slice(&8i32.to_be_bytes());
    v.extend_from_slice(&api_key.to_be_bytes());
    v.extend_from_slice(&api_version.to_be_bytes());
    v.extend_from_slice(&correlation_id.to_be_bytes());
    v
}

fn response_frame(correlation_id: i32) -> Vec<u8> {
    let mut v = Vec::new();
    v.extend_from_slice(&4i32.to_be_bytes());
    v.extend_from_slice(&correlation_id.to_be_bytes());
    v
}

fn response_of(step: Step) -> Vec<u8> {
    match step {
        Step::Respond(b) => b,
        other => panic!("expected a response, got {:?}", other),
    }
}

fn error_of(step: Step) -> ConnectionError {
    match step {
        Step::Fail(e) => e,
        other => panic!("expected a failure, got {:?}", other),
    }
}

#[test]
fn example_frame_is_answered() {
    let request = [0u8, 0, 0, 8, 0, 1, 0, 2, 0, 0, 0, 0x2A];
    let mut c = Connection::new();
    let bytes = response_of(c.on_data(&request));
    assert_eq!(bytes, vec![0u8, 0, 0, 4, 0, 0, 0, 0x2A]);
}

#[test]
fn echo_of_extreme_correlation_ids() {
    for cid in [0, 1, -1, 42, i32::MIN, i32::MAX, 0x01020304] {
        let mut c = Connection::new();
        let bytes = response_of(c.on_data(&request_frame(3, 7, cid)));
        assert_eq!(bytes, response_frame(cid));
        assert_eq!(i32::from_be_bytes([bytes[0], bytes[1], bytes[2], bytes[3]]), 4);
        assert_eq!(i32::from_be_bytes([bytes[4], bytes[5], bytes[6], bytes[7]]), cid);
    }
}

#[test]
fn size_prefix_counts_following_bytes() {
    let bytes = ResponseMessage::new(ResponseHeader { correlation_id: -77 }).to_bytes();
    let size = i32::from_be_bytes([bytes[0], bytes[1], bytes[2], bytes[3]]);
    assert_eq!(size as usize, bytes.len() - 4);
}

#[test]
fn api_key_and_version_do_not_change_response() {
    let mut a = Connection::new();
    let mut b = Connection::new();
    let ra = response_of(a.on_data(&request_frame(0, 0, 99)));
    let rb = response_of(b.on_data(&request_frame(-5, 300, 99)));
    assert_eq!(ra, rb);
}

#[test]
fn byte_at_a_time_delivery() {
    let frame = request_frame(1, 2, 123456);
    let mut c = Connection::new();
    for (i, byte) in frame.iter().enumerate() {
        let step = c.on_data(&[*byte]);
        if i + 1 < frame.len() {
            match step {
                Step::NeedMore(n) => assert!(n >= 1),
                other => panic!("answered early: {:?}", other),
            }
        } else {
            assert_eq!(response_of(step), response_frame(123456));
        }
    }
}

#[test]
fn need_more_counts_missing_bytes() {
    let frame = request_frame(1, 2, 5);
    let mut c = Connection::new();
    assert_eq!(c.wanted(), 4);
    match c.on_data(&frame[..2]) {
        Step::NeedMore(n) => assert_eq!(n, 2),
        other => panic!("unexpected {:?}", other),
    }
    match c.on_data(&frame[2..6]) {
        Step::NeedMore(n) => assert_eq!(n, 6),
        other => panic!("unexpected {:?}", other),
    }
    assert_eq!(c.wanted(), 6);
    assert_eq!(response_of(c.on_data(&frame[6..])), response_frame(5));
}

#[test]
fn truncated_frame_then_close() {
    let mut c = Connection::new();
    let mut bytes = 100i32.to_be_bytes().to_vec();
    bytes.extend_from_slice(&[0, 1, 0, 2, 0, 0, 0, 9]);
    match c.on_data(&bytes) {
        Step::NeedMore(n) => assert_eq!(n, 92),
        other => panic!("unexpected {:?}", other),
    }
    assert_eq!(error_of(c.on_closed()), ConnectionError::ClosedEarly);
}

#[test]
fn close_before_size_prefix() {
    let mut c = Connection::new();
    assert_eq!(error_of(c.on_closed()), ConnectionError::ClosedEarly);
    let _ = c.on_data(&[0, 0]);
    assert_eq!(error_of(c.on_closed()), ConnectionError::ClosedEarly);
}

#[test]
fn negative_size_is_refused() {
    let mut c = Connection::new();
    assert_eq!(error_of(c.on_data(&(-1i32).to_be_bytes())), ConnectionError::NegativeSize);
}

#[test]
fn payload_shorter_than_header_is_refused() {
    let mut c = Connection::new();
    let frame = [0u8, 0, 0, 3, 0, 1, 0];
    assert_eq!(
        error_of(c.on_data(&frame)),
        ConnectionError::Decode(DecodeError::InsufficientData)
    );
}

#[test]
fn bytes_after_frame_are_ignored() {
    let mut frame = request_frame(1, 1, 8);
    frame.extend_from_slice(&[0xFF, 0xFF, 0xFF]);
    let mut c = Connection::new();
    assert_eq!(response_of(c.on_data(&frame)), response_frame(8));
    assert_eq!(c.wanted(), 0);
    assert_eq!(response_of(c.on_closed()), response_frame(8));
}

#[test]
fn longer_payload_still_answered() {
    let mut frame = 12i32.to_be_bytes().to_vec();
    frame.extend_from_slice(&[0, 18, 0, 4, 0x7F, 0xFF, 0xFF, 0xFE, 0, 0, 1, 2]);
    let mut c = Connection::new();
    assert_eq!(response_of(c.on_data(&frame)), response_frame(0x7FFF_FFFE));
}

#[test]
fn interleaved_connections_keep_their_own_ids() {
    let mut conns: Vec<Connection> = (0..50).map(|_| Connection::new()).collect();
    let frames: Vec<Vec<u8>> = (0..50).map(|i| request_frame(1, 0, 1000 + i)).collect();
    let mut answers: Vec<Option<Vec<u8>>> = vec![None; 50];
    for pos in 0..12 {
        for i in (0..50).rev() {
            if let Step::Respond(b) = conns[i].on_data(&frames[i][pos..pos + 1]) {
                answers[i] = Some(b);
            }
        }
    }
    for i in 0..50 {
        assert_eq!(answers[i].clone().unwrap(), response_frame(1000 + i as i32));
    }
}

#[test]
fn malformed_connection_does_not_disturb_another() {
    let mut bad = Connection::new();
    let mut good = Connection::new();
    let frame = request_frame(2, 2, 31337);
    let _ = bad.on_data(&50i32.to_be_bytes());
    let _ = good.on_data(&frame[..5]);
    assert_eq!(error_of(bad.on_closed()), ConnectionError::ClosedEarly);
    assert_eq!(response_of(good.on_data(&frame[5..])), response_frame(31337));
}

#[test]
fn respond_decodes_payload() {
    let payload = [0u8, 1, 0, 2, 0xFF, 0xFF, 0xFF, 0xD6];
    assert_eq!(respond(&payload).unwrap(), response_frame(-42));
    assert_eq!(respond(&payload[..7]), Err(DecodeError::InsufficientData));
}

#[test]
fn request_header_fields_are_read_big_endian() {
    let payload = [0x01u8, 0x02, 0xFF, 0xFE, 0x0A, 0x0B, 0x0C, 0x0D, 0x99];
    let h = RequestHeader::read_from(&payload).unwrap();
    assert_eq!(h.request_api_key, 0x0102);
    assert_eq!(h.request_api_version, -2);
    assert_eq!(h.correlation_id, 0x0A0B0C0D);
    assert!(h.client_id.is_none());
    let m = RequestMessage::read_from(&payload).unwrap();
    assert_eq!(m.request_header.correlation_id, 0x0A0B0C0D);
    assert!(RequestHeader::read_from(&payload[..3]).is_err());
    assert_eq!(RequestMessage::read_from(&[]).err(), Some(DecodeError::InsufficientData));
}

#[test]
fn response_header_appends_correlation_id() {
    let mut buf = vec![9u8];
    ResponseHeader { correlation_id: 0x11223344 }.write_to(&mut buf);
    assert_eq!(buf, vec![9u8, 0x11, 0x22, 0x33, 0x44]);
    let m = ResponseMessage::new(ResponseHeader { correlation_id: 7 });
    assert_eq!(m.response_header.correlation_id, 7);
    assert_eq!(m.to_bytes(), vec![0u8, 0, 0, 4, 0, 0, 0, 7]);
}
