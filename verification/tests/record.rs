use bytes::{Bytes, BytesMut};
use dns_proxy::dns::dname::DomainName;
use dns_proxy::dns::record::ResourceRecord;
use dns_proxy::dns::{DecodeError, MessageBytes, QType};

#[test]
fn test_record() {
    let b = Bytes::from(&b"\x02ns\x04alfa\x03net\x00\x00\x02\x00\x01\x00\x00\x0e\x10\x00\x02\xc0\x00\xc0\x03\x00\x05\x00\x01\x00\x00\x04\xb0\x00\x07\x04ip00\xc0\x03\xc0%\x00\x1c\x00\x01\x00\x00\x0e\x10\x00\x10\x00\x00\x00\x00\x00\x00\x00\x00\x00\x00\x00\x00\x00\x00\x00\x01\x02mx\xc0\x03\x00\x0f\x00\x01\x00\x00\x0e\x10\x00\x07\x00\n\x03::1\x00\x03txt\xc0\x03\x00\x10\x00\x01\x00\x00\x0e\x10\x00\t\x08Test 001"[..]);
    let mut a = MessageBytes::from_bytes(b);
    let hs = ResourceRecord::parse(&mut a).unwrap();
    assert_eq!(hs.domain_name.labels, vec!["ns", "alfa", "net"]);
    assert_eq!(hs.resource_type, QType::NS);
    assert_eq!(hs.resource_class, 1);
    assert_eq!(hs.ttl, 3600);
    assert_eq!(hs.resource_data, Bytes::from(&b"\xc0\0"[..]));

    let hs = ResourceRecord::parse(&mut a).unwrap();
    assert_eq!(hs.domain_name.labels, vec!["alfa", "net"]);
    assert_eq!(hs.resource_type, QType::CNAME);
    assert_eq!(hs.resource_class, 1);
    assert_eq!(hs.ttl, 1200);
    assert_eq!(hs.resource_data, Bytes::from(&b"\x04ip00\xc0\x03"[..]));

    let hs = ResourceRecord::parse(&mut a).unwrap();
    assert_eq!(hs.domain_name.labels, vec!["ip00", "alfa", "net"]);
    assert_eq!(hs.resource_type, QType::AAAA);
    assert_eq!(hs.resource_class, 1);
    assert_eq!(hs.ttl, 3600);
    assert_eq!(
        hs.resource_data,
        Bytes::from(&b"\0\0\0\0\0\0\0\0\0\0\0\0\0\0\0\x01"[..])
    );

    let hs = ResourceRecord::parse(&mut a).unwrap();
    assert_eq!(hs.domain_name.labels, vec!["mx", "alfa", "net"]);
    assert_eq!(hs.resource_type, QType::MX);
    assert_eq!(hs.resource_class, 1);
    assert_eq!(hs.ttl, 3600);
    assert_eq!(hs.resource_data, Bytes::from(&b"\0\n\x03::1\0"[..]));

    let hs = ResourceRecord::parse(&mut a).unwrap();
    assert_eq!(hs.domain_name.labels, vec!["txt", "alfa", "net"]);
    assert_eq!(hs.resource_type, QType::TXT);
    assert_eq!(hs.resource_class, 1);
    assert_eq!(hs.ttl, 3600);
    assert_eq!(hs.resource_data, Bytes::from(&b"\x08Test 001"[..]));
}

#[test]
fn record_test_write() {
    let b = Bytes::from(&b"aaaaaaaaa"[..]);
    let a = ResourceRecord {
        domain_name: DomainName::parse_url("alfa.example.com"),
        resource_type: QType::AAAA,
        resource_class: 1,
        ttl: 3600,
        data_length: b.len() as u16,
        resource_data: b,
    };

    let w = a.write(BytesMut::new());

    let mut mp = MessageBytes::from_bytes(w.freeze());
    assert_eq!(ResourceRecord::parse(&mut mp).unwrap(), a);

    let b = Bytes::from(&b"xxxxxxxxxx"[..]);
    let a = ResourceRecord {
        domain_name: DomainName::parse_url("mail.x.example.com"),
        resource_type: QType::TXT,
        resource_class: 1,
        ttl: 3412,
        data_length: b.len() as u16,
        resource_data: b,
    };

    let w = a.write(BytesMut::new());

    let mut mp = MessageBytes::from_bytes(w.freeze());
    assert_eq!(ResourceRecord::parse(&mut mp).unwrap(), a);
}

#[test]
fn record_bytes_are_exact() {
    let a = ResourceRecord {
        domain_name: DomainName::parse_url("a.bc"),
        resource_type: QType::A,
        resource_class: 1,
        ttl: 0x01020304,
        data_length: 4,
        resource_data: Bytes::from(&b"\x7f\x00\x00\x01"[..]),
    };
    let w = a.write(BytesMut::new());
    assert_eq!(
        &w[..],
        &b"\x01a\x02bc\x00\x00\x01\x00\x01\x01\x02\x03\x04\x00\x04\x7f\x00\x00\x01"[..]
    );
    let copy = a.clone();
    assert_eq!(copy, a);
}

#[test]
fn written_length_is_that_of_the_data() {
    let a = ResourceRecord {
        domain_name: DomainName::empty(),
        resource_type: QType::TXT,
        resource_class: 1,
        ttl: 1,
        data_length: 700,
        resource_data: Bytes::from(&b"abc"[..]),
    };
    let w = a.write(BytesMut::new());
    assert_eq!(&w[..], &b"\x00\x00\x10\x00\x01\x00\x00\x00\x01\x00\x03abc"[..]);
    let mut mp = MessageBytes::from_bytes(w.freeze());
    let back = ResourceRecord::parse(&mut mp).unwrap();
    assert_eq!(back.data_length, 3);
    assert_eq!(back.resource_data, a.resource_data);
    assert_ne!(back, a);
}

#[test]
fn record_with_less_data_than_declared_is_truncated() {
    let b = Bytes::from(&b"\x00\x00\x10\x00\x01\x00\x00\x00\x01\x00\x04abc"[..]);
    let mut mp = MessageBytes::from_bytes(b);
    assert_eq!(ResourceRecord::parse(&mut mp), Err(DecodeError::Truncated));
    assert_eq!(mp.position(), 0);
    let b = Bytes::from(&b"\x00\x00\x10\x00\x01\x00\x00\x00\x01\x00"[..]);
    let mut mp = MessageBytes::from_bytes(b);
    assert_eq!(ResourceRecord::parse(&mut mp), Err(DecodeError::Truncated));
}

#[test]
fn record_without_data_is_read() {
    let b = Bytes::from(&b"\x00\x00\x10\x00\x01\xff\xff\xff\xff\x00\x00rest"[..]);
    let mut mp = MessageBytes::from_bytes(b);
    let r = ResourceRecord::parse(&mut mp).unwrap();
    assert_eq!(r.ttl, u32::MAX);
    assert_eq!(r.data_length, 0);
    assert_eq!(r.resource_data, Bytes::new());
    assert_eq!(mp.unread(), 4);
}

#[test]
fn record_can_be_written_where_name_and_data_fit() {
    let mut r = ResourceRecord {
        domain_name: DomainName::parse_url("a.bc"),
        resource_type: QType::A,
        resource_class: 1,
        ttl: 1,
        data_length: 0,
        resource_data: Bytes::from(vec![9u8; 0xffff]),
    };
    assert!(r.can_write());
    let w = r.write(BytesMut::new());
    assert_eq!(&w[6..16], &b"\x00\x01\x00\x01\x00\x00\x00\x01\xff\xff"[..]);
    assert_eq!(w.len(), 16 + 0xffff);
    r.resource_data = Bytes::from(vec![9u8; 0x10000]);
    assert!(!r.can_write());
    r.resource_data = Bytes::new();
    r.domain_name = DomainName::parse_url(&"a".repeat(256));
    assert!(!r.can_write());
}
