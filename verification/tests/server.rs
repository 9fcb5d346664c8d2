use bytes::{Bytes, BytesMut};
use dns_proxy::dns::dname::DomainName;
use dns_proxy::dns::header::{Header, ResponseCode};
use dns_proxy::dns::message::Message;
use dns_proxy::dns::question::Question;
use dns_proxy::dns::record::ResourceRecord;
use dns_proxy::dns::{DecodeError, MessageBytes, QType};
use dns_proxy::server::frontend::{reply, respond};
use dns_proxy::server::upstream::{answers_of, frame, query, request_for, QUERY_ID};
use dns_proxy::server::{clone_records, copy_found, time_to_keep, Cache};
use std::time::{Duration, Instant};

/// Lets `span` pass.
fn wait(span: Duration) {
    let start = Instant::now();
    while start.elapsed() < span {
        std::hint::spin_loop();
    }
}

fn question(name: &str, query_type: QType) -> Question {
    Question { domain_name: DomainName::parse_url(name), query_type, query_class: 1 }
}

fn record(name: &str, ttl: u32, data: &[u8]) -> ResourceRecord {
    ResourceRecord {
        domain_name: DomainName::parse_url(name),
        resource_type: QType::AAAA,
        resource_class: 1,
        ttl,
        data_length: data.len() as u16,
        resource_data: Bytes::copy_from_slice(data),
    }
}

/// What an upstream server does with the framed query: it answers the one question with
/// `answers`, under the id of the query.
fn upstream(framed_query: &Bytes, answers: &[ResourceRecord]) -> Bytes {
    let announced = u16::from_be_bytes([framed_query[0], framed_query[1]]) as usize;
    assert_eq!(announced, framed_query.len() - 2);
    let mut mp = MessageBytes::from_bytes(framed_query.slice(2..));
    let q = Message::parse(&mut mp).unwrap();
    assert_eq!(mp.unread(), 0);
    let response = Message {
        header: Header {
            question_response: 1,
            recursion_available: true,
            answer_count: answers.len() as u16,
            ..q.header
        },
        question: q.question,
        answer: answers.to_vec(),
        authority: vec![],
        additional_records: vec![],
    };
    response.write(BytesMut::new()).freeze()
}

#[test]
fn query_asks_one_question_with_recursion() {
    let m = query(question("mail.google.com", QType::AAAA));
    assert_eq!(QUERY_ID, 123);
    assert_eq!(
        m.header,
        Header {
            id: 123,
            question_response: 0,
            opcode: 0,
            authoritative_answer: 0,
            truncation: false,
            recursion_desired: true,
            recursion_available: false,
            z: 0,
            response_code: ResponseCode::NoError,
            question_count: 1,
            answer_count: 0,
            nameserver_count: 0,
            additional_records_count: 0,
        }
    );
    assert_eq!(m.question, vec![question("mail.google.com", QType::AAAA)]);
    assert!(m.answer.is_empty());
    assert!(m.authority.is_empty());
    assert!(m.additional_records.is_empty());
}

#[test]
fn request_is_the_query_behind_its_length() {
    let out = request_for(question("mail.google.com", QType::AAAA)).unwrap();
    assert_eq!(
        &out[..],
        &b"\x00\x21\x00\x7b\x01\x00\x00\x01\x00\x00\x00\x00\x00\x00\x04mail\x06google\x03com\x00\x00\x1c\x00\x01"[..]
    );
}

#[test]
fn frame_puts_the_length_in_front() {
    assert_eq!(&frame(&Bytes::from(&b"abc"[..])).unwrap()[..], &b"\x00\x03abc"[..]);
    assert_eq!(&frame(&Bytes::new()).unwrap()[..], &b"\x00\x00"[..]);
    let long = Bytes::from(vec![7u8; 0x1234]);
    let out = frame(&long).unwrap();
    assert_eq!(out.len(), 0x1236);
    assert_eq!(&out[..2], &[0x12u8, 0x34][..]);
    assert_eq!(&out[2..], &long[..]);
}

#[test]
fn frame_holds_at_most_what_sixteen_bits_count() {
    let longest = Bytes::from(vec![1u8; 0xffff]);
    let out = frame(&longest).unwrap();
    assert_eq!(out.len(), 0x10001);
    assert_eq!(&out[..2], &[0xffu8, 0xff][..]);
    assert_eq!(frame(&Bytes::from(vec![1u8; 0x10000])), None);
    assert_eq!(frame(&Bytes::from(vec![1u8; 0x10002])), None);
}

#[test]
fn request_for_a_name_that_cannot_be_written_is_none() {
    let fits = "a".repeat(191);
    assert!(request_for(question(&fits, QType::A)).is_some());
    let long = "a".repeat(192);
    assert_eq!(request_for(question(&long, QType::A)), None);
    let two_bytes_each = "\u{fc}".repeat(96);
    assert_eq!(request_for(question(&two_bytes_each, QType::A)), None);
    let empty_label = Question {
        domain_name: DomainName { labels: vec![String::new()] },
        query_type: QType::A,
        query_class: 1,
    };
    assert_eq!(request_for(empty_label), None);
}

#[test]
fn request_for_a_query_too_long_for_a_frame_is_none() {
    let fits = vec!["a"; 32759].join(".");
    let out = request_for(question(&fits, QType::A)).unwrap();
    assert_eq!(out.len(), 0x10001);
    let long = vec!["a"; 32760].join(".");
    assert_eq!(request_for(question(&long, QType::A)), None);
}

#[test]
fn answers_of_gives_the_answer_section() {
    let q = request_for(question("a.example", QType::AAAA)).unwrap();
    let sent = [record("a.example", 60, b"0123456789abcdef"), record("a.example", 30, b"x")];
    let response = upstream(&q, &sent);
    let got = answers_of(response).unwrap();
    assert_eq!(got, sent.to_vec());
}

#[test]
fn answers_of_a_broken_response_is_an_error() {
    assert_eq!(answers_of(Bytes::from(&b"\x00\x01"[..])), Err(DecodeError::Truncated));
    let q = request_for(question("a.example", QType::AAAA)).unwrap();
    let response = upstream(&q, &[record("a.example", 60, b"0123")]);
    let cut = response.slice(..response.len() - 1);
    assert_eq!(answers_of(cut), Err(DecodeError::Truncated));
    assert_eq!(
        answers_of(Bytes::from(&b"\x00\x00\x00\x00\x00\x01\x00\x00\x00\x00\x00\x00\x01\xff\x00\x00\x01\x00\x01"[..])),
        Err(DecodeError::InvalidLabel)
    );
    assert_eq!(
        answers_of(Bytes::from(&b"\x00\x00\x00\x00\x00\x01\x00\x00\x00\x00\x00\x00\xc0\x0c\x00\x01\x00\x01"[..])),
        Err(DecodeError::BadPointer)
    );
}

#[test]
fn time_to_keep_is_that_of_the_first_record() {
    assert_eq!(time_to_keep(&vec![]), None);
    assert_eq!(time_to_keep(&vec![record("a", 7, b"")]), Some(7));
    assert_eq!(time_to_keep(&vec![record("a", 900, b""), record("a", 5, b"")]), Some(900));
    assert_eq!(time_to_keep(&vec![record("a", 0, b""), record("a", 5, b"")]), Some(0));
}

#[test]
fn clone_records_copies_every_record() {
    let records = vec![record("a.b", 1, b"one"), record("", 2, b"")];
    assert_eq!(clone_records(&records), records);
    assert_eq!(clone_records(&vec![]), vec![]);
}

#[test]
fn copy_found_copies_what_was_found() {
    let records = vec![record("a.b", 1, b"one"), record("", 2, b"")];
    assert_eq!(copy_found(Some(&records)), Some(records.clone()));
    assert_eq!(copy_found(Some(&vec![])), Some(vec![]));
    assert_eq!(copy_found(None), None);
}

#[test]
fn cache_returns_what_was_remembered() {
    let mut cache = Cache::new(10);
    let q = question("mail.google.com", QType::AAAA);
    assert_eq!(cache.lookup(&q), None);
    let records = vec![record("mail.google.com", 3600, b"0123456789abcdef"), record("x", 1, b"")];
    assert_eq!(cache.remember(q.clone(), &records), Some(3600));
    assert_eq!(cache.lookup(&q), Some(records.clone()));
    assert_eq!(cache.lookup(&q), Some(records));
    assert_eq!(cache.lookup(&question("mail.google.com", QType::A)), None);
    assert_eq!(cache.lookup(&question("Mail.google.com", QType::AAAA)), None);
    let other = Question { query_class: 3, ..q.clone() };
    assert_eq!(cache.lookup(&other), None);
}

#[test]
fn cache_keeps_the_newer_answer_to_a_question() {
    let mut cache = Cache::new(10);
    let q = question("a.example", QType::AAAA);
    cache.remember(q.clone(), &vec![record("a.example", 100, b"old")]);
    cache.remember(q.clone(), &vec![record("a.example", 100, b"new")]);
    assert_eq!(cache.lookup(&q), Some(vec![record("a.example", 100, b"new")]));
}

#[test]
fn cache_does_not_keep_an_empty_answer() {
    let mut cache = Cache::new(10);
    let q = question("a.example", QType::AAAA);
    assert_eq!(cache.remember(q.clone(), &vec![]), None);
    assert_eq!(cache.lookup(&q), None);
    cache.remember(q.clone(), &vec![record("a.example", 100, b"x")]);
    assert_eq!(cache.remember(q.clone(), &vec![]), None);
    assert_eq!(cache.lookup(&q), Some(vec![record("a.example", 100, b"x")]));
}

#[test]
fn cache_entry_lasts_as_long_as_its_first_record() {
    let mut cache = Cache::new(10);
    let short = question("short.example", QType::AAAA);
    let long = question("long.example", QType::AAAA);
    let short_records = vec![record("short.example", 1, b"a"), record("short.example", 3600, b"b")];
    let long_records = vec![record("long.example", 3600, b"a"), record("long.example", 1, b"b")];
    assert_eq!(cache.remember(short.clone(), &short_records), Some(1));
    assert_eq!(cache.remember(long.clone(), &long_records), Some(3600));
    assert_eq!(cache.lookup(&short), Some(short_records));
    assert_eq!(cache.lookup(&long), Some(long_records.clone()));
    wait(Duration::from_millis(1200));
    assert_eq!(cache.lookup(&short), None);
    assert_eq!(cache.lookup(&long), Some(long_records));
}

#[test]
fn cache_entry_with_no_time_to_live_is_gone_at_once() {
    let mut cache = Cache::new(10);
    let q = question("a.example", QType::AAAA);
    assert_eq!(cache.remember(q.clone(), &vec![record("a.example", 0, b"a")]), Some(0));
    wait(Duration::from_millis(5));
    assert_eq!(cache.lookup(&q), None);
}

#[test]
fn cache_never_holds_more_than_it_was_made_for() {
    let mut cache = Cache::new(3);
    let names = ["a.example", "b.example", "c.example", "d.example", "e.example"];
    for (i, name) in names.iter().enumerate() {
        cache.remember(question(name, QType::A), &vec![record(name, 3600, &[i as u8])]);
        let live = names.iter().filter(|n| cache.lookup(&question(n, QType::A)).is_some()).count();
        assert_eq!(live, (i + 1).min(3));
    }
    assert_eq!(cache.lookup(&question("a.example", QType::A)), None);
    assert_eq!(cache.lookup(&question("b.example", QType::A)), None);
    for (i, name) in names.iter().enumerate().skip(2) {
        assert_eq!(
            cache.lookup(&question(name, QType::A)),
            Some(vec![record(name, 3600, &[i as u8])])
        );
    }
}

#[test]
fn cache_remembering_again_makes_an_entry_the_youngest() {
    let mut cache = Cache::new(2);
    let a = question("a.example", QType::A);
    let b = question("b.example", QType::A);
    let c = question("c.example", QType::A);
    cache.remember(a.clone(), &vec![record("a.example", 3600, b"1")]);
    cache.remember(b.clone(), &vec![record("b.example", 3600, b"2")]);
    cache.remember(a.clone(), &vec![record("a.example", 3600, b"3")]);
    cache.remember(c.clone(), &vec![record("c.example", 3600, b"4")]);
    assert_eq!(cache.lookup(&a), Some(vec![record("a.example", 3600, b"3")]));
    assert_eq!(cache.lookup(&b), None);
    assert_eq!(cache.lookup(&c), Some(vec![record("c.example", 3600, b"4")]));
}

#[test]
fn cache_made_for_nothing_keeps_nothing() {
    let mut cache = Cache::new(0);
    let q = question("a.example", QType::A);
    assert_eq!(cache.remember(q.clone(), &vec![record("a.example", 3600, b"1")]), Some(3600));
    assert_eq!(cache.lookup(&q), None);
}

#[test]
fn reply_marks_the_response_and_counts_the_answers() {
    let request = Message {
        header: Header {
            id: 99,
            question_response: 0,
            opcode: 2,
            authoritative_answer: 0,
            truncation: false,
            recursion_desired: true,
            recursion_available: false,
            z: 3,
            response_code: ResponseCode::NoError,
            question_count: 2,
            answer_count: 7,
            nameserver_count: 1,
            additional_records_count: 1,
        },
        question: vec![question("a.example", QType::A), question("b.example", QType::MX)],
        answer: vec![record("stale", 1, b"s")],
        authority: vec![record("example", 5, b"ns")],
        additional_records: vec![record("ns.example", 6, b"ip")],
    };
    let first = vec![record("a.example", 10, b"a1"), record("a.example", 20, b"a2")];
    let second = vec![];
    let third = vec![record("b.example", 30, b"b1")];
    let m = reply(
        Message {
            header: request.header,
            question: request.question.clone(),
            answer: request.answer.clone(),
            authority: request.authority.clone(),
            additional_records: request.additional_records.clone(),
        },
        vec![first.clone(), second, third.clone()],
    )
    .unwrap();
    assert_eq!(m.header, Header { question_response: 1, answer_count: 3, ..request.header });
    assert_eq!(m.question, request.question);
    assert_eq!(m.answer, vec![first[0].clone(), first[1].clone(), third[0].clone()]);
    assert_eq!(m.authority, request.authority);
    assert_eq!(m.additional_records, request.additional_records);
}

#[test]
fn reply_without_answers_counts_none() {
    let request = query(question("a.example", QType::A));
    let m = reply(request, vec![]).unwrap();
    assert_eq!(m.header.question_response, 1);
    assert_eq!(m.header.answer_count, 0);
    assert_eq!(m.header.id, 123);
    assert!(m.answer.is_empty());
    assert_eq!(m.question, vec![question("a.example", QType::A)]);
}

/// One client exchange of the proxy, with `upstream` consulted where the cache has no answer.
/// Gives the reply and the number of upstream round trips.
fn serve(cache: &mut Cache, client: Bytes, answers: &[ResourceRecord]) -> (Bytes, usize) {
    let mut mp = MessageBytes::from_bytes(client);
    let request = Message::parse(&mut mp).unwrap();
    let mut trips = 0;
    let mut resolved = vec![];
    for q in request.question.iter() {
        let records = match cache.lookup(q) {
            Some(records) => records,
            None => {
                trips += 1;
                let sent = request_for(q.clone()).unwrap();
                let fetched = answers_of(upstream(&sent, answers)).unwrap();
                cache.remember(q.clone(), &fetched);
                fetched
            }
        };
        resolved.push(records);
    }
    (respond(request, resolved).unwrap(), trips)
}

#[test]
fn single_question_is_resolved_upstream_and_answered() {
    let mut cache = Cache::new(100);
    let client = Bytes::from(
        &b"[\xa3\x01\0\0\x01\0\0\0\0\0\0\x04mail\x06google\x03com\0\0\x1c\0\x01"[..],
    );
    let rdata = b"\x2a\x00\x14\x50\x40\x01\x08\x13\x00\x00\x00\x00\x00\x00\x20\x05";
    let sent = [record("mail.google.com", 3600, rdata)];
    let (out, trips) = serve(&mut cache, client, &sent);
    assert_eq!(trips, 1);
    let mut mp = MessageBytes::from_bytes(out);
    let m = Message::parse(&mut mp).unwrap();
    assert_eq!(mp.unread(), 0);
    assert_eq!(m.header.id, 23459);
    assert_eq!(m.header.question_response, 1);
    assert_eq!(m.header.answer_count, 1);
    assert_eq!(m.header.question_count, 1);
    assert_eq!(m.question, vec![question("mail.google.com", QType::AAAA)]);
    assert_eq!(m.answer.len(), 1);
    assert_eq!(&m.answer[0].resource_data[..], &rdata[..]);
    assert_eq!(m.answer[0].ttl, 3600);
    assert_eq!(m.answer[0], sent[0]);
}

#[test]
fn same_question_twice_is_resolved_upstream_once() {
    let mut cache = Cache::new(100);
    let client = Bytes::from(
        &b"[\xa3\x01\0\0\x01\0\0\0\0\0\0\x04mail\x06google\x03com\0\0\x1c\0\x01"[..],
    );
    let sent = [record("mail.google.com", 3600, b"0123456789abcdef")];
    let (first, trips) = serve(&mut cache, client.clone(), &sent);
    assert_eq!(trips, 1);
    let (second, trips) = serve(&mut cache, client, &[]);
    assert_eq!(trips, 0);
    assert_eq!(first, second);
}

#[test]
fn empty_answer_is_asked_for_again() {
    let mut cache = Cache::new(100);
    let client = Bytes::from(
        &b"[\xa3\x01\0\0\x01\0\0\0\0\0\0\x04mail\x06google\x03com\0\0\x1c\0\x01"[..],
    );
    let (out, trips) = serve(&mut cache, client.clone(), &[]);
    assert_eq!(trips, 1);
    let mut mp = MessageBytes::from_bytes(out);
    let m = Message::parse(&mut mp).unwrap();
    assert_eq!(m.header.question_response, 1);
    assert_eq!(m.header.answer_count, 0);
    assert!(m.answer.is_empty());
    let (_, trips) = serve(&mut cache, client, &[]);
    assert_eq!(trips, 1);
}

#[test]
fn several_questions_are_answered_in_their_order() {
    let mut cache = Cache::new(100);
    let a = question("a.example", QType::A);
    let b = question("b.example", QType::A);
    cache.remember(b.clone(), &vec![record("b.example", 3600, b"b1"), record("b.example", 3600, b"b2")]);
    let request = Message {
        header: Header { question_count: 3, ..query(a.clone()).header },
        question: vec![b.clone(), a.clone(), b.clone()],
        answer: vec![],
        authority: vec![],
        additional_records: vec![],
    };
    let client = request.write(BytesMut::new()).freeze();
    let (out, trips) = serve(&mut cache, client, &[record("a.example", 3600, b"a1")]);
    assert_eq!(trips, 1);
    let mut mp = MessageBytes::from_bytes(out);
    let m = Message::parse(&mut mp).unwrap();
    assert_eq!(m.header.answer_count, 5);
    let data: Vec<&[u8]> = m.answer.iter().map(|r| &r.resource_data[..]).collect();
    assert_eq!(data, vec![&b"b1"[..], &b"b2"[..], &b"a1"[..], &b"b1"[..], &b"b2"[..]]);
}

#[test]
fn reply_with_more_answers_than_can_be_counted_is_none() {
    let part: Vec<ResourceRecord> = (0..0x8000).map(|_| record("", 1, b"")).collect();
    let request = query(question("a.example", QType::A));
    let m = reply(request, vec![part.clone(), part[..0x7fff].to_vec()]).unwrap();
    assert_eq!(m.header.answer_count, 0xffff);
    assert_eq!(m.answer.len(), 0xffff);
    let request = query(question("a.example", QType::A));
    assert_eq!(reply(request, vec![part.clone(), part.clone()]), None);
    let request = query(question("a.example", QType::A));
    assert_eq!(respond(request, vec![part.clone(), vec![], part]), None);
}

#[test]
fn respond_to_a_request_with_wrong_counts_is_none() {
    let mut request = query(question("a.example", QType::A));
    request.header.question_count = 2;
    assert_eq!(respond(request, vec![vec![record("a.example", 1, b"x")]]), None);
    let mut request = query(question("a.example", QType::A));
    request.header.nameserver_count = 1;
    assert_eq!(respond(request, vec![]), None);
    let mut request = query(question("a.example", QType::A));
    request.header.answer_count = 9;
    assert!(respond(request, vec![vec![record("a.example", 1, b"x")]]).is_some());
}

#[test]
fn respond_with_what_cannot_be_written_is_none() {
    let request = query(question("a.example", QType::A));
    let long = "a".repeat(256);
    assert_eq!(respond(request, vec![vec![record(&long, 1, b"x")]]), None);
    let request = query(question("a.example", QType::A));
    let big = vec![0u8; 0x10000];
    assert_eq!(respond(request, vec![vec![record("a.example", 1, &big)]]), None);
    let request = query(question(&long, QType::A));
    assert_eq!(respond(request, vec![]), None);
    let mut request = query(question("a.example", QType::A));
    request.header.opcode = 16;
    assert_eq!(respond(request, vec![]), None);
}

#[test]
fn chain_of_compressed_names_in_five_records() {
    let raw = b"\x00\x07\x81\x80\x00\x00\x00\x05\x00\x00\x00\x00\
\x04alfa\x03net\x00\x00\x01\x00\x01\x00\x00\x00\x3c\x00\x00\
\x01x\xc0\x0c\x00\x01\x00\x01\x00\x00\x00\x3c\x00\x00\
\xc0\x0c\x00\x01\x00\x01\x00\x00\x00\x3c\x00\x00\
\x04mail\xc0\x20\x00\x01\x00\x01\x00\x00\x00\x3c\x00\x00\
\x04mail\xc0\x0c\x00\x01\x00\x01\x00\x00\x00\x3c\x00\x00";
    let got = answers_of(Bytes::from(&raw[..])).unwrap();
    let names: Vec<Vec<String>> = got.into_iter().map(|r| r.domain_name.labels).collect();
    assert_eq!(
        names,
        vec![
            vec!["alfa", "net"],
            vec!["x", "alfa", "net"],
            vec!["alfa", "net"],
            vec!["mail", "x", "alfa", "net"],
            vec!["mail", "alfa", "net"],
        ]
    );
}
