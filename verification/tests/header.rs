use bytes::{Bytes, BytesMut};
use dns_proxy::dns::header::{Header, ResponseCode};
use dns_proxy::dns::{DecodeError, MessageBytes};

#[test]
fn test_header_read() {
    let b = Bytes::from(&b"09\tE\x00\x00\x00\x00\x00\x00\x00\x00"[..]);
    let mut a = MessageBytes::from_bytes(b);
    let hs = Header::parse(&mut a).unwrap();
    assert_eq!(hs.id, 12345);
    assert_eq!(hs.question_response, 0);
    assert_eq!(hs.opcode, 1);
    assert_eq!(hs.authoritative_answer, 0);
    assert_eq!(hs.truncation, false);
    assert_eq!(hs.recursion_desired, true);
    assert_eq!(hs.response_code, ResponseCode::Refused);

    let b = Bytes::from(&b"\xd41\xfd\x00\x00\x00\x00\x00\x00\x00\x00\x00"[..]);
    let mut a = MessageBytes::from_bytes(b);
    let hs = Header::parse(&mut a).unwrap();
    assert_eq!(hs.id, 54321);
    assert_eq!(hs.question_response, 1);
    assert_eq!(hs.opcode, 15);
    assert_eq!(hs.authoritative_answer, 1);
    assert_eq!(hs.truncation, false);
    assert_eq!(hs.recursion_desired, true);
    assert_eq!(hs.response_code, ResponseCode::NoError);

    let b = Bytes::from(&b"\x00\x00\x02\x03\x00\x03\x00\x17\x00\x05\x00\x07"[..]);
    let mut a = MessageBytes::from_bytes(b);
    let hs = Header::parse(&mut a).unwrap();
    assert_eq!(hs.id, 0);
    assert_eq!(hs.question_response, 0);
    assert_eq!(hs.opcode, 0);
    assert_eq!(hs.authoritative_answer, 0);
    assert_eq!(hs.truncation, true);
    assert_eq!(hs.recursion_desired, false);
    assert_eq!(hs.response_code, ResponseCode::NameError);
    assert_eq!(hs.question_count, 3);
    assert_eq!(hs.answer_count, 23);
    assert_eq!(hs.nameserver_count, 5);
    assert_eq!(hs.additional_records_count, 7);
}

#[test]
fn test_header_write() {
    let a = Header {
        id: 123,
        question_response: 0,
        opcode: 3,
        authoritative_answer: 1,
        truncation: true,
        recursion_desired: false,
        recursion_available: true,
        z: 0,
        response_code: ResponseCode::Refused,
        question_count: 3,
        answer_count: 9,
        nameserver_count: 4,
        additional_records_count: 6,
    };

    let w = a.write(BytesMut::new());

    let mut mp = MessageBytes::from_bytes(w.freeze());
    assert_eq!(Header::parse(&mut mp).unwrap(), a);

    let a = Header {
        id: 432,
        question_response: 1,
        opcode: 2,
        authoritative_answer: 0,
        truncation: false,
        recursion_desired: true,
        recursion_available: false,
        z: 0,
        response_code: ResponseCode::ServerFailure,
        question_count: 1,
        answer_count: 3,
        nameserver_count: 6,
        additional_records_count: 3,
    };

    let w = a.write(BytesMut::new());

    let mut mp = MessageBytes::from_bytes(w.freeze());
    assert_eq!(Header::parse(&mut mp).unwrap(), a);
}

#[test]
fn header_bytes_are_exact() {
    let a = Header {
        id: 0x1234,
        question_response: 1,
        opcode: 2,
        authoritative_answer: 1,
        truncation: false,
        recursion_desired: true,
        recursion_available: true,
        z: 5,
        response_code: ResponseCode::NameError,
        question_count: 1,
        answer_count: 0x0203,
        nameserver_count: 0,
        additional_records_count: 0xffff,
    };
    let w = a.write(BytesMut::new());
    assert_eq!(
        &w[..],
        &[0x12, 0x34, 0x95, 0x83, 0x00, 0x01, 0x02, 0x03, 0x00, 0x00, 0xff, 0xff][..]
    );
    let mut mp = MessageBytes::from_bytes(w.freeze());
    let back = Header::parse(&mut mp).unwrap();
    assert_eq!(back.z, 0);
    assert_eq!(back, Header { z: 0, ..a });
    assert_eq!(mp.unread(), 0);
    assert_eq!(mp.position(), 12);
}

#[test]
fn header_reads_reserved_bits_and_folds_codes() {
    let b = Bytes::from(&b"\x00\x01\x00\x7f\x00\x00\x00\x00\x00\x00\x00\x00"[..]);
    let mut a = MessageBytes::from_bytes(b);
    let hs = Header::parse(&mut a).unwrap();
    assert_eq!(hs.z, 7);
    assert_eq!(hs.response_code, ResponseCode::NotImplemented);
    assert_eq!(ResponseCode::from_u16(4), ResponseCode::NotImplemented);
    assert_eq!(ResponseCode::from_u16(6), ResponseCode::NotImplemented);
    assert_eq!(ResponseCode::from_u16(15), ResponseCode::NotImplemented);
    assert_eq!(ResponseCode::from_u16(5), ResponseCode::Refused);
    assert_eq!(ResponseCode::default(), ResponseCode::NotImplemented);
}

#[test]
fn header_can_be_written_where_its_fields_fit() {
    let fits = Header {
        question_response: 1,
        opcode: 15,
        authoritative_answer: 1,
        z: 7,
        ..Header::default()
    };
    assert!(fits.can_write());
    assert!(Header::default().can_write());
    assert!(!Header { question_response: 2, ..fits }.can_write());
    assert!(!Header { opcode: 16, ..fits }.can_write());
    assert!(!Header { authoritative_answer: 2, ..fits }.can_write());
    assert!(!Header { z: 8, ..fits }.can_write());
    assert_eq!(Header::default().response_code, ResponseCode::NotImplemented);
    assert_eq!(Header::default().id, 0);
}

#[test]
fn header_short_buffer_is_truncated() {
    let b = Bytes::from(&b"\x00\x01\x00\x7f\x00\x00\x00\x00\x00\x00\x00"[..]);
    let mut a = MessageBytes::from_bytes(b);
    assert_eq!(Header::parse(&mut a), Err(DecodeError::Truncated));
    assert_eq!(a.position(), 0);
    assert_eq!(a.unread(), 11);
}
