use bytes::{Bytes, BytesMut};
use dns_proxy::dns::dname::DomainName;
use dns_proxy::dns::{DecodeError, MessageBytes};

#[test]
fn empty_name_is_the_root() {
    let root = DomainName::empty();
    assert!(root.labels.is_empty());
    let w = root.write(BytesMut::new());
    assert_eq!(&w[..], &b"\x00"[..]);
    let mut mp = MessageBytes::from_bytes(w.freeze());
    assert_eq!(DomainName::parse(&mut mp).unwrap(), root);
    assert_eq!(mp.unread(), 0);
}

#[test]
fn parse_url_splits_at_dots_and_drops_empty_labels() {
    assert_eq!(DomainName::parse_url("mail.google.com").labels, vec!["mail", "google", "com"]);
    assert_eq!(DomainName::parse_url("com").labels, vec!["com"]);
    assert_eq!(DomainName::parse_url("").labels, Vec::<String>::new());
    assert_eq!(DomainName::parse_url(".").labels, Vec::<String>::new());
    assert_eq!(DomainName::parse_url("...").labels, Vec::<String>::new());
    assert_eq!(DomainName::parse_url("example.com.").labels, vec!["example", "com"]);
    assert_eq!(DomainName::parse_url(".a..b.").labels, vec!["a", "b"]);
    assert_eq!(DomainName::parse_url("b\u{fc}cher.example").labels, vec!["b\u{fc}cher", "example"]);
    assert_eq!(DomainName::parse_url("\u{65e5}\u{672c}.\u{1f600}").labels, vec!["\u{65e5}\u{672c}", "\u{1f600}"]);
    assert_eq!(DomainName::parse_url(""), DomainName::empty());
}

#[test]
fn name_is_written_with_byte_lengths() {
    let name = DomainName::parse_url("b\u{fc}cher.example");
    let w = name.write(BytesMut::new());
    assert_eq!(&w[..], &b"\x07b\xc3\xbccher\x07example\x00"[..]);
    let mut mp = MessageBytes::from_bytes(w.freeze());
    assert_eq!(DomainName::parse(&mut mp).unwrap(), name);
}

#[test]
fn name_keeps_the_case_of_letters() {
    let b = Bytes::from(&b"\x03AbC\x03cOm\x00"[..]);
    let mut mp = MessageBytes::from_bytes(b);
    let name = DomainName::parse(&mut mp).unwrap();
    assert_eq!(name.labels, vec!["AbC", "cOm"]);
    assert_ne!(name, DomainName::parse_url("abc.com"));
}

#[test]
fn label_of_more_than_63_bytes_is_read_as_a_label() {
    let mut raw = vec![100u8];
    raw.extend(std::iter::repeat(b'a').take(100));
    raw.push(0);
    let mut mp = MessageBytes::from_bytes(Bytes::from(raw.clone()));
    let name = DomainName::parse(&mut mp).unwrap();
    assert_eq!(name.labels, vec!["a".repeat(100)]);
    assert_eq!(mp.position(), 102);
    let w = name.write(BytesMut::new());
    assert_eq!(&w[..], &raw[..]);
}

#[test]
fn name_behind_a_pointer_leaves_the_cursor_behind_the_pointer() {
    let b = Bytes::from(&b"\x03com\x00\x03abc\xc0\x00\x07"[..]);
    let mut mp = MessageBytes::from_bytes(b);
    assert_eq!(DomainName::parse(&mut mp).unwrap().labels, vec!["com"]);
    assert_eq!(mp.position(), 5);
    assert_eq!(DomainName::parse(&mut mp).unwrap().labels, vec!["abc", "com"]);
    assert_eq!(mp.position(), 11);
    assert_eq!(mp.unread(), 1);
}

#[test]
fn pointer_uses_all_fourteen_bits() {
    let mut raw = vec![0u8; 0x1234];
    raw.extend_from_slice(b"\x02ab\x00");
    raw.extend_from_slice(b"\x01x\xd2\x34");
    let mut mp = MessageBytes::from_bytes(Bytes::from(raw));
    for _ in 0..0x1234 {
        assert_eq!(DomainName::parse(&mut mp).unwrap(), DomainName::empty());
    }
    assert_eq!(DomainName::parse(&mut mp).unwrap().labels, vec!["ab"]);
    assert_eq!(DomainName::parse(&mut mp).unwrap().labels, vec!["x", "ab"]);
    assert_eq!(mp.unread(), 0);
}

#[test]
fn pointer_to_itself_is_refused() {
    let b = Bytes::from(&b"\xc0\x00"[..]);
    let mut mp = MessageBytes::from_bytes(b);
    assert_eq!(DomainName::parse(&mut mp), Err(DecodeError::BadPointer));
    assert_eq!(mp.position(), 0);
}

#[test]
fn pointer_into_its_own_run_is_refused() {
    let b = Bytes::from(&b"\x01a\xc0\x00"[..]);
    let mut mp = MessageBytes::from_bytes(b);
    assert_eq!(DomainName::parse(&mut mp), Err(DecodeError::BadPointer));
}

#[test]
fn pointer_forward_or_past_the_end_is_refused() {
    let b = Bytes::from(&b"\x01a\xc0\x05\x00\x01b\x00"[..]);
    let mut mp = MessageBytes::from_bytes(b);
    assert_eq!(DomainName::parse(&mut mp), Err(DecodeError::BadPointer));
    let b = Bytes::from(&b"\x00\x01a\xff\xff"[..]);
    let mut mp = MessageBytes::from_bytes(b);
    assert_eq!(DomainName::parse(&mut mp).unwrap(), DomainName::empty());
    assert_eq!(DomainName::parse(&mut mp), Err(DecodeError::BadPointer));
    assert_eq!(mp.position(), 1);
}

#[test]
fn pointers_in_a_circle_are_refused() {
    // The two bytes of the label at 1 read as a pointer to 902, where a pointer leads back to 1.
    let mut raw = b"\x02\xc3\x86\x00".to_vec();
    raw.resize(902, 0);
    raw.extend_from_slice(b"\xc0\x01");
    let mut mp = MessageBytes::from_bytes(Bytes::from(raw));
    assert_eq!(DomainName::parse(&mut mp).unwrap().labels, vec!["\u{c6}"]);
    for _ in 4..902 {
        assert_eq!(DomainName::parse(&mut mp).unwrap(), DomainName::empty());
    }
    assert_eq!(mp.position(), 902);
    assert_eq!(DomainName::parse(&mut mp), Err(DecodeError::BadPointer));
    assert_eq!(mp.position(), 902);
}

#[test]
fn pointer_cut_short_is_truncated() {
    let b = Bytes::from(&b"\x01a\xc0"[..]);
    let mut mp = MessageBytes::from_bytes(b);
    assert_eq!(DomainName::parse(&mut mp), Err(DecodeError::Truncated));
}

#[test]
fn label_that_is_not_text_is_refused() {
    let b = Bytes::from(&b"\x02\xff\xfe\x00"[..]);
    let mut mp = MessageBytes::from_bytes(b);
    assert_eq!(DomainName::parse(&mut mp), Err(DecodeError::InvalidLabel));
    assert_eq!(mp.position(), 0);
    // A label cut in the middle of a character.
    let b = Bytes::from(&b"\x01\xc3\x01\xbc\x00"[..]);
    let mut mp = MessageBytes::from_bytes(b);
    assert_eq!(DomainName::parse(&mut mp), Err(DecodeError::InvalidLabel));
}

#[test]
fn truncation_is_found_before_bad_text() {
    let b = Bytes::from(&b"\x05\xff\xfe"[..]);
    let mut mp = MessageBytes::from_bytes(b);
    assert_eq!(DomainName::parse(&mut mp), Err(DecodeError::Truncated));
}

#[test]
fn name_can_be_written_where_each_label_can_be_announced() {
    assert!(DomainName::empty().can_write());
    assert!(DomainName::parse_url("mail.google.com").can_write());
    let longest = DomainName { labels: vec!["a".repeat(191), "b".to_string()] };
    assert!(longest.can_write());
    let w = longest.write(BytesMut::new());
    assert_eq!(w.len(), 192 + 2 + 1);
    assert_eq!(w[0], 191);
    let mut mp = MessageBytes::from_bytes(w.freeze());
    assert_eq!(DomainName::parse(&mut mp).unwrap(), longest);
    let long = DomainName { labels: vec!["b".to_string(), "a".repeat(192)] };
    assert!(!long.can_write());
    let empty = DomainName { labels: vec!["b".to_string(), String::new(), "c".to_string()] };
    assert!(!empty.can_write());
    let wide = DomainName { labels: vec!["\u{65e5}".repeat(64)] };
    assert!(!wide.can_write());
    let wide = DomainName { labels: vec!["\u{65e5}".repeat(63)] };
    assert!(wide.can_write());
}
