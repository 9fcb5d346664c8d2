//! What the client of the upstream server decides: the query to send for
//! a question, its frame, and what to make of the response.

use bytes::Bytes;
use vstd::prelude::*;
use crate::dns::{decoded, DecodeError, MessageBytes};
use crate::dns::header::{Header, ResponseCode};
use crate::dns::message::{record_views, Message, MessageView};
use crate::dns::numbers::{lemma_u16_read_back, u16_at, u16_bytes};
use crate::dns::question::{Question, QuestionView};
use crate::dns::record::ResourceRecord;
use crate::dns::wire::{as_slice, contents, freeze, new_buffer, put_slice, put_u16, remaining};

verus! {

/// The number that every query to the upstream server carries.
pub const QUERY_ID: u16 = 123;

/// The query that asks upstream for `question`: recursion is desired, the
/// question is the only one, and the other sections are empty.
pub open spec fn query_for(question: QuestionView) -> MessageView {
    MessageView {
        header: Header {
            id: QUERY_ID,
            question_response: 0,
            opcode: 0,
            authoritative_answer: 0,
            truncation: false,
            recursion_desired: true,
            recursion_available: false,
            z: 0,
            response_code: ResponseCode::NoError,
            question_count: 1,
            answer_count: 0,
            nameserver_count: 0,
            additional_records_count: 0,
        },
        question: seq![question],
        answer: seq![],
        authority: seq![],
        additional_records: seq![],
    }
}

/// The length of the payload fits the sixteen bits of a frame.
pub open spec fn payload_fits(payload: Seq<u8>) -> bool {
    payload.len() <= 0xffff
}

/// A message as it travels over a stream: behind its own length, as a
/// big-endian 16-bit number.
pub open spec fn framed(payload: Seq<u8>) -> Seq<u8> {
    u16_bytes(payload.len() as u16) + payload
}

/// A frame is read back: the number in its first two bytes is the length
/// of the payload, and the payload is what follows them.
pub proof fn lemma_frame_is_read(payload: Seq<u8>)
    requires
        payload_fits(payload),
    ensures
        framed(payload).len() == 2 + payload.len(),
        u16_at(framed(payload), 0) == payload.len(),
        framed(payload).skip(2) == payload,
{
    let n = payload.len() as u16;
    lemma_u16_read_back(n);
    assert(framed(payload)[0] == u16_bytes(n)[0]);
    assert(framed(payload)[1] == u16_bytes(n)[1]);
    assert(framed(payload).skip(2) =~= payload);
}

/// A query is read as it was meant: the bytes of the query for a question
/// that can be encoded decode to that query.
pub proof fn lemma_query_is_read(question: QuestionView)
    requires
        question.encodable(),
    ensures
        Message::at(query_for(question).wire(), 0) == decoded(
            query_for(question),
            query_for(question).wire().len() as int,
        ),
{
    let m = query_for(question);
    let w = m.wire();
    assert(w.subrange(0, w.len() as int) =~= w);
    Message::lemma_round_trip(m, w, 0);
}

/// The query that asks upstream for `question`.
pub fn query(question: Question) -> (m: Message)
    ensures
        m@ == query_for(question@),
{
    let mut questions: Vec<Question> = Vec::with_capacity(1);
    questions.push(question);
    let m = Message {
        header: Header {
            id: QUERY_ID,
            question_response: 0,
            opcode: 0,
            authoritative_answer: 0,
            truncation: false,
            recursion_desired: true,
            recursion_available: false,
            z: 0,
            response_code: ResponseCode::NoError,
            question_count: 1,
            answer_count: 0,
            nameserver_count: 0,
            additional_records_count: 0,
        },
        question: questions,
        answer: Vec::new(),
        authority: Vec::new(),
        additional_records: Vec::new(),
    };
    assert(m@.question =~= seq![question@]);
    assert(m@.answer =~= seq![]);
    assert(m@.authority =~= seq![]);
    assert(m@.additional_records =~= seq![]);
    m
}

/// Puts `payload` behind its length, for a stream. A payload whose length
/// does not fit sixteen bits cannot travel so: there is no frame for it.
pub fn frame(payload: &Bytes) -> (out: Option<Bytes>)
    ensures
        match out {
            Some(bytes) => payload_fits(contents(payload)) && contents(&bytes) == framed(
                contents(payload),
            ),
            None => !payload_fits(contents(payload)),
        },
{
    let n = remaining(payload);
    if n > 0xffff {
        return None;
    }
    let mut buffer = new_buffer();
    put_u16(&mut buffer, n as u16);
    put_slice(&mut buffer, as_slice(payload));
    assert(Seq::<u8>::empty() + u16_bytes(n as u16) + contents(payload) =~= framed(
        contents(payload),
    ));
    Some(freeze(buffer))
}

/// The bytes to send upstream, over a stream, to have `question` resolved:
/// the query in its frame. There are none where the name of the question
/// cannot be written, or makes the query too long for a frame.
pub fn request_for(question: Question) -> (out: Option<Bytes>)
    ensures
        match out {
            Some(bytes) => {
                &&& question@.encodable()
                &&& payload_fits(query_for(question@).wire())
                &&& contents(&bytes) == framed(query_for(question@).wire())
            },
            None => !question@.encodable() || !payload_fits(query_for(question@).wire()),
        },
{
    if !question.can_write() {
        return None;
    }
    let m = query(question);
    let buffer = m.write(new_buffer());
    assert(Seq::<u8>::empty() + query_for(question@).wire() =~= query_for(question@).wire());
    frame(&freeze(buffer))
}

/// The answer records of `response`, the message that upstream sent in a
/// frame. A response that cannot be decoded gives no records, but the reason.
pub fn answers_of(response: Bytes) -> (r: Result<Vec<ResourceRecord>, DecodeError>)
    ensures
        match Message::at(contents(&response), 0) {
            Ok((m, _)) => r matches Ok(records) && record_views(records@) == m.answer,
            Err(e) => r matches Err(f) && f == e,
        },
{
    let mut mp = MessageBytes::from_bytes(response);
    match Message::parse(&mut mp) {
        Ok(m) => Ok(m.answer),
        Err(e) => Err(e),
    }
}

} // verus!
