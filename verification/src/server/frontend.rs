//! What the front end decides once every question of a request has been
//! resolved: the reply, and its bytes.

use bytes::Bytes;
use vstd::prelude::*;
use crate::dns::decoded;
use crate::dns::header::Header;
use crate::dns::message::{record_views, Message, MessageView};
use crate::dns::record::{RecordView, ResourceRecord};
use crate::dns::wire::{contents, freeze, new_buffer};

verus! {

/// The reply to `request` with the given answers: the request with its
/// header marked as a response and counting the answers, and with the
/// answers in place of any it held. Questions, authority records and
/// additional records stay as they came.
pub open spec fn reply_to(request: MessageView, answer: Seq<RecordView>) -> MessageView {
    MessageView {
        header: Header {
            question_response: 1,
            answer_count: answer.len() as u16,
            ..request.header
        },
        answer,
        ..request
    }
}

/// A reply counts its sections rightly where the request did, as long as
/// the number of answers fits sixteen bits.
pub proof fn lemma_reply_counts(request: MessageView, answer: Seq<RecordView>)
    requires
        request.counts_agree(),
        answer.len() <= 0xffff,
    ensures
        reply_to(request, answer).counts_agree(),
        reply_to(request, answer).header.question_response == 1,
        reply_to(request, answer).answer == answer,
        reply_to(request, answer).question == request.question,
{
}

/// The reply to a valid request with valid answers is valid, as long as
/// the number of answers fits sixteen bits.
pub proof fn lemma_reply_is_valid(request: MessageView, answer: Seq<RecordView>)
    requires
        request.valid(),
        forall|i: int| 0 <= i < answer.len() ==> (#[trigger] answer[i]).valid(),
        answer.len() <= 0xffff,
    ensures
        reply_to(request, answer).valid(),
{
    let m = reply_to(request, answer);
    assert(m.header.fits());
    assert(m.counts_agree());
    assert(m.question == request.question);
    assert(m.authority == request.authority);
    assert(m.additional_records == request.additional_records);
}

/// A reply is read as it was meant: where request and answers are valid,
/// the bytes of the reply decode to a response that holds the questions of
/// the request, and the answers, each as it was given, under a header that
/// counts them.
pub proof fn lemma_reply_is_read(request: MessageView, answer: Seq<RecordView>)
    requires
        request.valid(),
        forall|i: int| 0 <= i < answer.len() ==> (#[trigger] answer[i]).valid(),
        answer.len() <= 0xffff,
    ensures
        Message::at(reply_to(request, answer).wire(), 0) matches Ok((m, end)) && {
            &&& end == reply_to(request, answer).wire().len()
            &&& m.header.question_response == 1
            &&& m.header.id == request.header.id
            &&& m.header.answer_count == answer.len()
            &&& m.question == request.question
            &&& m.answer == answer
            &&& m.authority == request.authority
            &&& m.additional_records == request.additional_records
        },
{
    let m = reply_to(request, answer);
    let w = m.wire();
    lemma_reply_is_valid(request, answer);
    assert(w.subrange(0, w.len() as int) =~= w);
    Message::lemma_round_trip(m, w, 0);
    assert(Message::at(w, 0) == decoded(m.normal(), w.len() as int));
}

/// What each of the answers holds.
pub open spec fn answer_views(resolved: Seq<Vec<ResourceRecord>>) -> Seq<Seq<RecordView>> {
    resolved.map_values(|records: Vec<ResourceRecord>| record_views(records@))
}

/// All the answers, those to the first question first.
pub open spec fn answers(resolved: Seq<Vec<ResourceRecord>>) -> Seq<RecordView> {
    answer_views(resolved).flatten()
}

/// The reply to `request`, where `resolved` holds the records that each of
/// its questions was resolved to, in the order of the questions: the answer
/// section holds all of them, in that order. There is no reply where the
/// answers are more than sixteen bits can count.
pub fn reply(request: Message, resolved: Vec<Vec<ResourceRecord>>) -> (r: Option<Message>)
    ensures
        match r {
            Some(m) => answers(resolved@).len() <= 0xffff && m@ == reply_to(
                request@,
                answers(resolved@),
            ),
            None => answers(resolved@).len() > 0xffff,
        },
{
    let ghost parts = resolved@;
    let mut answer: Vec<ResourceRecord> = Vec::new();
    assert(answer_views(parts.take(0)).flatten() =~= record_views(answer@));
    for part in it: resolved
        invariant
            it.seq() == parts,
            record_views(answer@) == answer_views(parts.take(it.index() as int)).flatten(),
    {
        let ghost so_far = record_views(answer@);
        let ghost done = answer_views(parts.take(it.index() as int));
        let ghost added = record_views(part@);
        let mut part = part;
        proof {
            done.lemma_flatten_push(added);
            assert(answer_views(parts.take(it.index() + 1)) =~= done.push(added));
        }
        answer.append(&mut part);
        assert(record_views(answer@) =~= so_far + added);
    }
    assert(parts.take(parts.len() as int) =~= parts);
    let n = answer.len();
    if n > 0xffff {
        return None;
    }
    Some(
        Message {
            header: Header { question_response: 1, answer_count: n as u16, ..request.header },
            question: request.question,
            answer,
            authority: request.authority,
            additional_records: request.additional_records,
        },
    )
}

/// The bytes of the reply to `request`, with the answers that `resolved`
/// holds for each of its questions, in order. There are none where the reply
/// cannot be written, or would not count its sections rightly: a client
/// never gets a message whose counts and contents differ.
pub fn respond(request: Message, resolved: Vec<Vec<ResourceRecord>>) -> (out: Option<Bytes>)
    ensures
        match out {
            Some(bytes) => {
                &&& reply_to(request@, answers(resolved@)).encodable()
                &&& contents(&bytes) == reply_to(
                    request@,
                    answers(resolved@),
                ).wire()
            },
            None => !reply_to(request@, answers(resolved@)).encodable(),
        },
{
    let ghost answer = answers(resolved@);
    match reply(request, resolved) {
        None => None,
        Some(m) => {
            if !m.can_write() {
                return None;
            }
            let buffer = m.write(new_buffer());
            assert(Seq::<u8>::empty() + reply_to(request@, answer).wire() =~= reply_to(
                request@,
                answer,
            ).wire());
            Some(freeze(buffer))
        },
    }
}

} // verus!
