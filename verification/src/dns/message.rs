//! Whole messages: a header and the four sections that it counts.

use bytes::BytesMut;
use vstd::prelude::*;
use crate::dns::{decoded, failed, DecodeError, Decoded, MessageBytes};
use crate::dns::dname::lemma_decoded_is_encodable;
use crate::dns::header::Header;
use crate::dns::numbers::{lemma_split_at, u16_at};
use crate::dns::question::{Question, QuestionView};
use crate::dns::record::{RecordView, ResourceRecord};
use crate::dns::wire::written;

verus! {

/// A message.
#[derive(Debug, PartialEq)]
pub struct Message {
    pub header: Header,
    pub question: Vec<Question>,
    pub answer: Vec<ResourceRecord>,
    pub authority: Vec<ResourceRecord>,
    pub additional_records: Vec<ResourceRecord>,
}

/// What a message holds.
pub ghost struct MessageView {
    pub header: Header,
    pub question: Seq<QuestionView>,
    pub answer: Seq<RecordView>,
    pub authority: Seq<RecordView>,
    pub additional_records: Seq<RecordView>,
}

/// What each of the questions holds.
pub open spec fn question_views(questions: Seq<Question>) -> Seq<QuestionView> {
    questions.map_values(|q: Question| q@)
}

/// What each of the records holds.
pub open spec fn record_views(records: Seq<ResourceRecord>) -> Seq<RecordView> {
    records.map_values(|r: ResourceRecord| r@)
}

impl View for Message {
    type V = MessageView;

    open spec fn view(&self) -> MessageView {
        MessageView {
            header: self.header,
            question: question_views(self.question@),
            answer: record_views(self.answer@),
            authority: record_views(self.authority@),
            additional_records: record_views(self.additional_records@),
        }
    }
}

/// The questions on the wire, one behind the other.
pub open spec fn questions_wire(questions: Seq<QuestionView>) -> Seq<u8> {
    questions.map_values(|q: QuestionView| q.wire()).flatten()
}

/// The records on the wire, one behind the other.
pub open spec fn records_wire(records: Seq<RecordView>) -> Seq<u8> {
    records.map_values(|r: RecordView| r.wire()).flatten()
}

/// The items `done`, and then those of `rest`, where there are any.
pub open spec fn preceded<T>(done: Seq<T>, rest: Decoded<Seq<T>>) -> Decoded<Seq<T>> {
    match rest {
        Ok((items, end)) => Ok((done + items, end)),
        Err(e) => Err(e),
    }
}

/// What decoding `count` questions from `pos` on gives: the questions and
/// the position behind the last, or the reason why the first that fails
/// does.
pub open spec fn questions_at(packet: Seq<u8>, pos: int, count: nat) -> Decoded<Seq<QuestionView>>
    decreases count,
{
    if count == 0 {
        Ok((seq![], pos))
    } else {
        match Question::at(packet, pos) {
            Err(e) => Err(e),
            Ok((q, next)) => preceded(seq![q], questions_at(packet, next, (count - 1) as nat)),
        }
    }
}

/// What decoding `count` records from `pos` on gives: the records and the
/// position behind the last, or the reason why the first that fails does.
pub open spec fn records_at(packet: Seq<u8>, pos: int, count: nat) -> Decoded<Seq<RecordView>>
    decreases count,
{
    if count == 0 {
        Ok((seq![], pos))
    } else {
        match ResourceRecord::at(packet, pos) {
            Err(e) => Err(e),
            Ok((r, next)) => preceded(seq![r], records_at(packet, next, (count - 1) as nat)),
        }
    }
}

impl MessageView {
    /// Each count of the header is the length of its section.
    pub open spec fn counts_agree(self) -> bool {
        &&& self.question.len() == self.header.question_count
        &&& self.answer.len() == self.header.answer_count
        &&& self.authority.len() == self.header.nameserver_count
        &&& self.additional_records.len() == self.header.additional_records_count
    }

    /// The message on the wire: the header, then the questions, the
    /// answers, the authority records and the additional records.
    pub open spec fn wire(self) -> Seq<u8> {
        self.header.wire() + questions_wire(self.question) + records_wire(self.answer)
            + records_wire(self.authority) + records_wire(self.additional_records)
    }

    /// The header fits its bits and counts the sections rightly, and every
    /// question and record can be encoded.
    pub open spec fn encodable(self) -> bool {
        &&& self.header.fits()
        &&& self.counts_agree()
        &&& forall|i: int|
            0 <= i < self.question.len() ==> (#[trigger] self.question[i]).encodable()
        &&& forall|i: int| 0 <= i < self.answer.len() ==> (#[trigger] self.answer[i]).encodable()
        &&& forall|i: int|
            0 <= i < self.authority.len() ==> (#[trigger] self.authority[i]).encodable()
        &&& forall|i: int|
            0 <= i < self.additional_records.len() ==> (
            #[trigger] self.additional_records[i]).encodable()
    }

    /// The message can be encoded, and every record of it is valid: so the
    /// message, but for the reserved bits of its header, is as it would be
    /// had it been decoded.
    pub open spec fn valid(self) -> bool {
        &&& self.header.fits()
        &&& self.counts_agree()
        &&& forall|i: int|
            0 <= i < self.question.len() ==> (#[trigger] self.question[i]).encodable()
        &&& forall|i: int| 0 <= i < self.answer.len() ==> (#[trigger] self.answer[i]).valid()
        &&& forall|i: int| 0 <= i < self.authority.len() ==> (#[trigger] self.authority[i]).valid()
        &&& forall|i: int|
            0 <= i < self.additional_records.len() ==> (
            #[trigger] self.additional_records[i]).valid()
    }

    /// What is valid can be encoded.
    pub proof fn lemma_valid_is_encodable(self)
        requires
            self.valid(),
        ensures
            self.encodable(),
    {
    }

    /// This message as it comes back from the wire: with the reserved bits
    /// of the header zero.
    pub open spec fn normal(self) -> MessageView {
        MessageView { header: self.header.normal(), ..self }
    }
}

/// Reads `count` questions, one behind the other.
fn parse_questions(mp: &mut MessageBytes, count: u16) -> (r: Result<Vec<Question>, DecodeError>)
    ensures
        final(mp).packet() == old(mp).packet(),
        questions_at(old(mp).packet(), old(mp).offset(), count as nat) == match r {
            Ok(questions) => decoded(question_views(questions@), final(mp).offset()),
            Err(e) => failed(e),
        },
{
    let ghost packet = mp.packet();
    let ghost start = mp.offset();
    let mut questions: Vec<Question> = Vec::with_capacity(count as usize);
    let mut i: u16 = 0;
    proof {
        let all = questions_at(packet, start, count as nat);
        if all is Ok {
            assert(question_views(questions@) + all->Ok_0.0 =~= all->Ok_0.0);
        }
    }
    while i < count
        invariant
            mp.packet() == packet,
            packet == old(mp).packet(),
            start == old(mp).offset(),
            i <= count,
            questions.len() == i,
            preceded(
                question_views(questions@),
                questions_at(packet, mp.offset(), (count - i) as nat),
            ) == questions_at(packet, start, count as nat),
        decreases count - i,
    {
        let ghost done = question_views(questions@);
        let ghost pos = mp.offset();
        match Question::parse(mp) {
            Err(e) => {
                return Err(e);
            },
            Ok(q) => {
                proof {
                    let rest = questions_at(packet, mp.offset(), (count - i - 1) as nat);
                    if rest is Ok {
                        assert(done + (seq![q@] + rest->Ok_0.0) =~= done.push(q@) + rest->Ok_0.0);
                    }
                }
                questions.push(q);
                assert(question_views(questions@) =~= done.push(q@));
            },
        }
        i += 1;
    }
    assert(question_views(questions@) + Seq::<QuestionView>::empty() =~= question_views(
        questions@,
    ));
    Ok(questions)
}

/// Reads `count` records, one behind the other.
fn parse_records(mp: &mut MessageBytes, count: u16) -> (r: Result<
    Vec<ResourceRecord>,
    DecodeError,
>)
    ensures
        final(mp).packet() == old(mp).packet(),
        records_at(old(mp).packet(), old(mp).offset(), count as nat) == match r {
            Ok(records) => decoded(record_views(records@), final(mp).offset()),
            Err(e) => failed(e),
        },
{
    let ghost packet = mp.packet();
    let ghost start = mp.offset();
    let mut records: Vec<ResourceRecord> = Vec::with_capacity(count as usize);
    let mut i: u16 = 0;
    proof {
        let all = records_at(packet, start, count as nat);
        if all is Ok {
            assert(record_views(records@) + all->Ok_0.0 =~= all->Ok_0.0);
        }
    }
    while i < count
        invariant
            mp.packet() == packet,
            packet == old(mp).packet(),
            start == old(mp).offset(),
            i <= count,
            records.len() == i,
            preceded(record_views(records@), records_at(packet, mp.offset(), (count - i) as nat))
                == records_at(packet, start, count as nat),
        decreases count - i,
    {
        let ghost done = record_views(records@);
        match ResourceRecord::parse(mp) {
            Err(e) => {
                return Err(e);
            },
            Ok(r) => {
                proof {
                    let rest = records_at(packet, mp.offset(), (count - i - 1) as nat);
                    if rest is Ok {
                        assert(done + (seq![r@] + rest->Ok_0.0) =~= done.push(r@) + rest->Ok_0.0);
                    }
                }
                records.push(r);
                assert(record_views(records@) =~= done.push(r@));
            },
        }
        i += 1;
    }
    assert(record_views(records@) + Seq::<RecordView>::empty() =~= record_views(records@));
    Ok(records)
}

/// Whether each of the questions can be written.
fn can_write_questions(questions: &Vec<Question>) -> (r: bool)
    ensures
        r == forall|i: int|
            0 <= i < questions.len() ==> (#[trigger] question_views(questions@)[i]).encodable(),
{
    let mut i: usize = 0;
    while i < questions.len()
        invariant
            i <= questions.len(),
            forall|j: int| 0 <= j < i ==> (#[trigger] question_views(questions@)[j]).encodable(),
        decreases questions.len() - i,
    {
        if !questions[i].can_write() {
            assert(!question_views(questions@)[i as int].encodable());
            return false;
        }
        i += 1;
    }
    true
}

/// Whether each of the records can be written.
fn can_write_records(records: &Vec<ResourceRecord>) -> (r: bool)
    ensures
        r == forall|i: int|
            0 <= i < records.len() ==> (#[trigger] record_views(records@)[i]).encodable(),
{
    let mut i: usize = 0;
    while i < records.len()
        invariant
            i <= records.len(),
            forall|j: int| 0 <= j < i ==> (#[trigger] record_views(records@)[j]).encodable(),
        decreases records.len() - i,
    {
        if !records[i].can_write() {
            assert(!record_views(records@)[i as int].encodable());
            return false;
        }
        i += 1;
    }
    true
}

/// Appends the questions to `msg`, in order.
fn write_questions(questions: &Vec<Question>, msg: BytesMut) -> (out: BytesMut)
    requires
        forall|i: int|
            0 <= i < questions.len() ==> (#[trigger] question_views(questions@)[i]).encodable(),
    ensures
        written(&out) == written(&msg) + questions_wire(question_views(questions@)),
{
    let ghost before = written(&msg);
    let ghost views = question_views(questions@);
    let mut msg = msg;
    let mut i: usize = 0;
    assert(questions_wire(views.take(0)) =~= Seq::<u8>::empty());
    while i < questions.len()
        invariant
            i <= questions.len(),
            views == question_views(questions@),
            forall|j: int| 0 <= j < questions.len() ==> (#[trigger] views[j]).encodable(),
            written(&msg) == before + questions_wire(views.take(i as int)),
        decreases questions.len() - i,
    {
        proof {
            let parts = views.take(i as int).map_values(|q: QuestionView| q.wire());
            parts.lemma_flatten_push(views[i as int].wire());
            assert(views.take(i + 1).map_values(|q: QuestionView| q.wire()) =~= parts.push(
                views[i as int].wire(),
            ));
        }
        assert(views[i as int] == questions[i as int]@);
        msg = questions[i].write(msg);
        assert(written(&msg) =~= before + questions_wire(views.take(i + 1)));
        i += 1;
    }
    assert(views.take(i as int) =~= views);
    msg
}

/// Appends the records to `msg`, in order.
fn write_records(records: &Vec<ResourceRecord>, msg: BytesMut) -> (out: BytesMut)
    requires
        forall|i: int|
            0 <= i < records.len() ==> (#[trigger] record_views(records@)[i]).encodable(),
    ensures
        written(&out) == written(&msg) + records_wire(record_views(records@)),
{
    let ghost before = written(&msg);
    let ghost views = record_views(records@);
    let mut msg = msg;
    let mut i: usize = 0;
    assert(records_wire(views.take(0)) =~= Seq::<u8>::empty());
    while i < records.len()
        invariant
            i <= records.len(),
            views == record_views(records@),
            forall|j: int| 0 <= j < records.len() ==> (#[trigger] views[j]).encodable(),
            written(&msg) == before + records_wire(views.take(i as int)),
        decreases records.len() - i,
    {
        proof {
            let parts = views.take(i as int).map_values(|r: RecordView| r.wire());
            parts.lemma_flatten_push(views[i as int].wire());
            assert(views.take(i + 1).map_values(|r: RecordView| r.wire()) =~= parts.push(
                views[i as int].wire(),
            ));
        }
        assert(views[i as int] == records[i as int]@);
        msg = records[i].write(msg);
        assert(written(&msg) =~= before + records_wire(views.take(i + 1)));
        i += 1;
    }
    assert(views.take(i as int) =~= views);
    msg
}

impl Message {
    /// What decoding a message at `pos` in `packet` gives: the message and
    /// the position behind it, or the reason why there is none. Each section
    /// holds as many items as the header counts for it.
    pub open spec fn at(packet: Seq<u8>, pos: int) -> Decoded<MessageView> {
        match Header::at(packet, pos) {
            Err(e) => Err(e),
            Ok((header, at_questions)) => match questions_at(
                packet,
                at_questions,
                header.question_count as nat,
            ) {
                Err(e) => Err(e),
                Ok((question, at_answers)) => match records_at(
                    packet,
                    at_answers,
                    header.answer_count as nat,
                ) {
                    Err(e) => Err(e),
                    Ok((answer, at_authority)) => match records_at(
                        packet,
                        at_authority,
                        header.nameserver_count as nat,
                    ) {
                        Err(e) => Err(e),
                        Ok((authority, at_additional)) => match records_at(
                            packet,
                            at_additional,
                            header.additional_records_count as nat,
                        ) {
                            Err(e) => Err(e),
                            Ok((additional_records, end)) => Ok(
                                (
                                    MessageView {
                                        header,
                                        question,
                                        answer,
                                        authority,
                                        additional_records,
                                    },
                                    end,
                                ),
                            ),
                        },
                    },
                },
            },
        }
    }

    /// Decodes the message under the cursor and moves the cursor behind
    /// it. Compression pointers are resolved against the whole packet. Where
    /// any part of the message cannot be decoded, there is no message, and
    /// nothing is read.
    pub fn parse(mp: &mut MessageBytes) -> (r: Result<Self, DecodeError>)
        ensures
            final(mp).packet() == old(mp).packet(),
            Message::at(old(mp).packet(), old(mp).offset()) == match r {
                Ok(m) => decoded(m@, final(mp).offset()),
                Err(e) => failed(e),
            },
            r matches Ok(m) ==> m@.counts_agree(),
            r is Err ==> final(mp).offset() == old(mp).offset(),
    {
        let mut cur = mp.clone();
        let header = match Header::parse(&mut cur) {
            Ok(h) => h,
            Err(e) => {
                return Err(e);
            },
        };
        proof {
            lemma_questions_at_len(cur.packet(), cur.offset(), header.question_count as nat);
        }
        let question = match parse_questions(&mut cur, header.question_count) {
            Ok(v) => v,
            Err(e) => {
                return Err(e);
            },
        };
        proof {
            lemma_records_at_len(cur.packet(), cur.offset(), header.answer_count as nat);
        }
        let answer = match parse_records(&mut cur, header.answer_count) {
            Ok(v) => v,
            Err(e) => {
                return Err(e);
            },
        };
        proof {
            lemma_records_at_len(cur.packet(), cur.offset(), header.nameserver_count as nat);
        }
        let authority = match parse_records(&mut cur, header.nameserver_count) {
            Ok(v) => v,
            Err(e) => {
                return Err(e);
            },
        };
        proof {
            lemma_records_at_len(
                cur.packet(),
                cur.offset(),
                header.additional_records_count as nat,
            );
        }
        let additional_records = match parse_records(&mut cur, header.additional_records_count) {
            Ok(v) => v,
            Err(e) => {
                return Err(e);
            },
        };
        *mp = cur;
        Ok(Message { header, question, answer, authority, additional_records })
    }

    /// Whether this message can be written: whether its header fits its
    /// bits and counts its sections rightly, and each question and record can
    /// be written.
    pub fn can_write(&self) -> (r: bool)
        ensures
            r == self@.encodable(),
    {
        self.header.can_write() && self.question.len() == self.header.question_count as usize
            && self.answer.len()
            == self.header.answer_count as usize && self.authority.len()
            == self.header.nameserver_count as usize && self.additional_records.len()
            == self.header.additional_records_count as usize && can_write_questions(&self.question)
            && can_write_records(&self.answer) && can_write_records(&self.authority)
            && can_write_records(&self.additional_records)
    }

    /// Appends this message to `msg`: the header, then the four sections
    /// in order.
    pub fn write(&self, msg: BytesMut) -> (out: BytesMut)
        requires
            self@.encodable(),
        ensures
            written(&out) == written(&msg) + self@.wire(),
    {
        let ghost before = written(&msg);
        let ghost m = self@;
        let msg = self.header.write(msg);
        let msg = write_questions(&self.question, msg);
        let msg = write_records(&self.answer, msg);
        let msg = write_records(&self.authority, msg);
        let msg = write_records(&self.additional_records, msg);
        proof {
            lemma_appended(
                before,
                m.header.wire(),
                questions_wire(m.question),
                records_wire(m.answer),
                records_wire(m.authority),
                records_wire(m.additional_records),
            );
        }
        msg
    }
}

/// Decoding a count of questions gives that many.
pub proof fn lemma_questions_at_len(packet: Seq<u8>, pos: int, count: nat)
    ensures
        questions_at(packet, pos, count) matches Ok((questions, _)) ==> questions.len() == count,
    decreases count,
{
    if count > 0 {
        if let Ok((q, next)) = Question::at(packet, pos) {
            lemma_questions_at_len(packet, next, (count - 1) as nat);
        }
    }
}

/// Decoding a count of records gives that many.
pub proof fn lemma_records_at_len(packet: Seq<u8>, pos: int, count: nat)
    ensures
        records_at(packet, pos, count) matches Ok((records, _)) ==> records.len() == count,
    decreases count,
{
    if count > 0 {
        if let Ok((r, next)) = ResourceRecord::at(packet, pos) {
            lemma_records_at_len(packet, next, (count - 1) as nat);
        }
    }
}

/// Every question that is decoded can be encoded.
pub proof fn lemma_decoded_questions_encodable(packet: Seq<u8>, pos: int, count: nat)
    ensures
        questions_at(packet, pos, count) matches Ok((questions, _)) ==> forall|i: int|
            0 <= i < questions.len() ==> (#[trigger] questions[i]).encodable(),
    decreases count,
{
    if count > 0 {
        if let Ok((q, next)) = Question::at(packet, pos) {
            lemma_decoded_is_encodable(packet, pos, pos);
            lemma_decoded_questions_encodable(packet, next, (count - 1) as nat);
            if let Ok((rest, _)) = questions_at(packet, next, (count - 1) as nat) {
                let questions = seq![q] + rest;
                assert forall|i: int| 0 <= i < questions.len() implies (
                #[trigger] questions[i]).encodable() by {
                    if i > 0 {
                        assert(questions[i] == rest[i - 1]);
                    }
                }
            }
        }
    }
}

/// Every record that is decoded is valid.
pub proof fn lemma_decoded_records_valid(packet: Seq<u8>, pos: int, count: nat)
    ensures
        records_at(packet, pos, count) matches Ok((records, _)) ==> forall|i: int|
            0 <= i < records.len() ==> (#[trigger] records[i]).valid(),
    decreases count,
{
    if count > 0 {
        if let Ok((r, next)) = ResourceRecord::at(packet, pos) {
            ResourceRecord::lemma_decoded_is_valid(packet, pos);
            lemma_decoded_records_valid(packet, next, (count - 1) as nat);
            if let Ok((rest, _)) = records_at(packet, next, (count - 1) as nat) {
                let records = seq![r] + rest;
                assert forall|i: int| 0 <= i < records.len() implies (#[trigger] records[i]).valid(
                ) by {
                    if i > 0 {
                        assert(records[i] == rest[i - 1]);
                    }
                }
            }
        }
    }
}

/// Decoding inverts encoding for questions in a row: wherever the bytes
/// of questions that can be encoded stand in a packet, decoding as many
/// there gives those questions, and the position behind the bytes.
pub proof fn lemma_questions_round_trip(questions: Seq<QuestionView>, packet: Seq<u8>, pos: int)
    requires
        forall|i: int| 0 <= i < questions.len() ==> (#[trigger] questions[i]).encodable(),
        0 <= pos,
        pos + questions_wire(questions).len() <= packet.len(),
        packet.subrange(pos, pos + questions_wire(questions).len()) == questions_wire(questions),
    ensures
        questions_at(packet, pos, questions.len()) == decoded(
            questions,
            pos + questions_wire(questions).len(),
        ),
    decreases questions.len(),
{
    if questions.len() == 0 {
        assert(questions_wire(questions) =~= Seq::<u8>::empty());
        assert(questions =~= Seq::<QuestionView>::empty());
    } else {
        let first = questions[0];
        let rest = questions.drop_first();
        let parts = questions.map_values(|q: QuestionView| q.wire());
        assert(parts.drop_first() =~= rest.map_values(|q: QuestionView| q.wire()));
        assert(parts.first() == first.wire());
        assert(questions_wire(questions) == first.wire() + questions_wire(rest));
        lemma_split_at(packet, pos, first.wire(), questions_wire(rest));
        Question::lemma_round_trip(first, packet, pos);
        assert forall|i: int| 0 <= i < rest.len() implies (#[trigger] rest[i]).encodable() by {
            assert(rest[i] == questions[i + 1]);
        }
        lemma_questions_round_trip(rest, packet, pos + first.wire().len());
        assert(seq![first] + rest =~= questions);
    }
}

/// Decoding inverts encoding for records in a row: wherever the bytes of
/// valid records stand in a packet, decoding as many there gives those
/// records, and the position behind the bytes.
pub proof fn lemma_records_round_trip(records: Seq<RecordView>, packet: Seq<u8>, pos: int)
    requires
        forall|i: int| 0 <= i < records.len() ==> (#[trigger] records[i]).valid(),
        0 <= pos,
        pos + records_wire(records).len() <= packet.len(),
        packet.subrange(pos, pos + records_wire(records).len()) == records_wire(records),
    ensures
        records_at(packet, pos, records.len()) == decoded(
            records,
            pos + records_wire(records).len(),
        ),
    decreases records.len(),
{
    if records.len() == 0 {
        assert(records_wire(records) =~= Seq::<u8>::empty());
        assert(records =~= Seq::<RecordView>::empty());
    } else {
        let first = records[0];
        let rest = records.drop_first();
        let parts = records.map_values(|r: RecordView| r.wire());
        assert(parts.drop_first() =~= rest.map_values(|r: RecordView| r.wire()));
        assert(parts.first() == first.wire());
        assert(records_wire(records) == first.wire() + records_wire(rest));
        lemma_split_at(packet, pos, first.wire(), records_wire(rest));
        ResourceRecord::lemma_round_trip(first, packet, pos);
        assert forall|i: int| 0 <= i < rest.len() implies (#[trigger] rest[i]).valid() by {
            assert(rest[i] == records[i + 1]);
        }
        lemma_records_round_trip(rest, packet, pos + first.wire().len());
        assert(seq![first] + rest =~= records);
    }
}

/// Five runs of bytes appended one by one are appended as one run.
proof fn lemma_appended(
    before: Seq<u8>,
    a: Seq<u8>,
    b: Seq<u8>,
    c: Seq<u8>,
    d: Seq<u8>,
    e: Seq<u8>,
)
    ensures
        before + a + b + c + d + e == before + (a + b + c + d + e),
{
    assert(before + a + b + c + d + e =~= before + (a + b + c + d + e));
}

/// Where five runs of bytes stand one behind the other, each stands at
/// its place.
proof fn lemma_five_parts(
    packet: Seq<u8>,
    pos: int,
    a: Seq<u8>,
    b: Seq<u8>,
    c: Seq<u8>,
    d: Seq<u8>,
    e: Seq<u8>,
)
    requires
        0 <= pos,
        pos + (a + b + c + d + e).len() <= packet.len(),
        packet.subrange(pos, pos + (a + b + c + d + e).len()) == a + b + c + d + e,
    ensures
        (a + b + c + d + e).len() == a.len() + b.len() + c.len() + d.len() + e.len(),
        packet.subrange(pos, pos + a.len()) == a,
        packet.subrange(pos + a.len(), pos + a.len() + b.len()) == b,
        packet.subrange(pos + a.len() + b.len(), pos + a.len() + b.len() + c.len()) == c,
        packet.subrange(
            pos + a.len() + b.len() + c.len(),
            pos + a.len() + b.len() + c.len() + d.len(),
        ) == d,
        packet.subrange(
            pos + a.len() + b.len() + c.len() + d.len(),
            pos + a.len() + b.len() + c.len() + d.len() + e.len(),
        ) == e,
{
    lemma_split_at(packet, pos, a + b + c + d, e);
    lemma_split_at(packet, pos, a + b + c, d);
    lemma_split_at(packet, pos, a + b, c);
    lemma_split_at(packet, pos, a, b);
}

/// A header and the sections that it counts, decoded one behind the
/// other, are the message that is decoded where the header stands.
proof fn lemma_sections_make_message(
    packet: Seq<u8>,
    pos: int,
    header: Header,
    question: Seq<QuestionView>,
    answer: Seq<RecordView>,
    authority: Seq<RecordView>,
    additional_records: Seq<RecordView>,
    at_questions: int,
    at_answers: int,
    at_authority: int,
    at_additional: int,
    end: int,
)
    requires
        Header::at(packet, pos) == decoded(header, at_questions),
        questions_at(packet, at_questions, header.question_count as nat) == decoded(
            question,
            at_answers,
        ),
        records_at(packet, at_answers, header.answer_count as nat) == decoded(answer, at_authority),
        records_at(packet, at_authority, header.nameserver_count as nat) == decoded(
            authority,
            at_additional,
        ),
        records_at(packet, at_additional, header.additional_records_count as nat) == decoded(
            additional_records,
            end,
        ),
    ensures
        Message::at(packet, pos) == decoded(
            MessageView { header, question, answer, authority, additional_records },
            end,
        ),
{
}

/// How many bytes of a message on the wire stand before its answers.
spec fn before_answers(m: MessageView) -> int {
    12 + questions_wire(m.question).len() as int
}

/// How many bytes of a message on the wire stand before its authority
/// records.
spec fn before_authority(m: MessageView) -> int {
    before_answers(m) + records_wire(m.answer).len()
}

/// How many bytes of a message on the wire stand before its additional
/// records.
spec fn before_additional(m: MessageView) -> int {
    before_authority(m) + records_wire(m.authority).len()
}

/// Where the bytes of a message stand in a packet, the bytes of its
/// header and of each of its sections stand at their places.
proof fn lemma_sections_stand(m: MessageView, packet: Seq<u8>, pos: int)
    requires
        0 <= pos,
        pos + m.wire().len() <= packet.len(),
        packet.subrange(pos, pos + m.wire().len()) == m.wire(),
    ensures
        m.wire().len() == before_additional(m) + records_wire(m.additional_records).len(),
        packet.subrange(pos, pos + 12) == m.header.wire(),
        packet.subrange(pos + 12, pos + before_answers(m)) == questions_wire(m.question),
        packet.subrange(pos + before_answers(m), pos + before_authority(m)) == records_wire(
            m.answer,
        ),
        packet.subrange(pos + before_authority(m), pos + before_additional(m)) == records_wire(
            m.authority,
        ),
        packet.subrange(pos + before_additional(m), pos + m.wire().len()) == records_wire(
            m.additional_records,
        ),
{
    let h = m.header.wire();
    let q = questions_wire(m.question);
    let an = records_wire(m.answer);
    let ns = records_wire(m.authority);
    let ar = records_wire(m.additional_records);
    assert(h.len() == 12);
    assert(m.wire() == h + q + an + ns + ar);
    lemma_five_parts(packet, pos, h, q, an, ns, ar);
}

/// The bytes of the valid message `m` stand at `pos` in `packet`.
spec fn stands(m: MessageView, packet: Seq<u8>, pos: int) -> bool {
    &&& m.valid()
    &&& 0 <= pos
    &&& pos + m.wire().len() <= packet.len()
    &&& packet.subrange(pos, pos + m.wire().len()) == m.wire()
}

/// Where a valid message stands, its header is decoded.
proof fn lemma_header_section(m: MessageView, packet: Seq<u8>, pos: int)
    requires
        stands(m, packet, pos),
    ensures
        Header::at(packet, pos) == decoded(m.header.normal(), pos + 12),
{
    lemma_sections_stand(m, packet, pos);
    m.header.lemma_round_trip(packet, pos);
}

/// Where a valid message stands, its questions are decoded behind the
/// header.
proof fn lemma_question_section(m: MessageView, packet: Seq<u8>, pos: int)
    requires
        stands(m, packet, pos),
    ensures
        questions_at(packet, pos + 12, m.header.question_count as nat) == decoded(
            m.question,
            pos + before_answers(m),
        ),
{
    lemma_sections_stand(m, packet, pos);
    lemma_questions_round_trip(m.question, packet, pos + 12);
}

/// Where a valid message stands, its answers are decoded behind the
/// questions.
proof fn lemma_answer_section(m: MessageView, packet: Seq<u8>, pos: int)
    requires
        stands(m, packet, pos),
    ensures
        records_at(packet, pos + before_answers(m), m.header.answer_count as nat) == decoded(
            m.answer,
            pos + before_authority(m),
        ),
{
    lemma_sections_stand(m, packet, pos);
    lemma_records_round_trip(m.answer, packet, pos + before_answers(m));
}

/// Where a valid message stands, its authority records are decoded behind
/// the answers.
proof fn lemma_authority_section(m: MessageView, packet: Seq<u8>, pos: int)
    requires
        stands(m, packet, pos),
    ensures
        records_at(packet, pos + before_authority(m), m.header.nameserver_count as nat) == decoded(
            m.authority,
            pos + before_additional(m),
        ),
{
    lemma_sections_stand(m, packet, pos);
    lemma_records_round_trip(m.authority, packet, pos + before_authority(m));
}

/// Where a valid message stands, its additional records are decoded
/// behind the authority records, to the end of the message.
proof fn lemma_additional_section(m: MessageView, packet: Seq<u8>, pos: int)
    requires
        stands(m, packet, pos),
    ensures
        records_at(
            packet,
            pos + before_additional(m),
            m.header.additional_records_count as nat,
        ) == decoded(m.additional_records, pos + m.wire().len()),
{
    lemma_sections_stand(m, packet, pos);
    lemma_records_round_trip(m.additional_records, packet, pos + before_additional(m));
}

impl Message {
    /// What is decoded is valid: the header of a decoded message fits its
    /// bits and counts the sections rightly, every question and record of it
    /// can be encoded, and every record has the length it says. So a decoded
    /// message can be written again.
    pub proof fn lemma_decoded_is_valid(packet: Seq<u8>, pos: int)
        requires
            0 <= pos,
        ensures
            Message::at(packet, pos) matches Ok((m, _)) ==> m.valid(),
    {
        if let Ok((header, at_questions)) = Header::at(packet, pos) {
            let questions = header.question_count as nat;
            let answers = header.answer_count as nat;
            let authorities = header.nameserver_count as nat;
            let additionals = header.additional_records_count as nat;
            Header::lemma_decoded_fits(
                u16_at(packet, pos),
                u16_at(packet, pos + 2),
                u16_at(packet, pos + 4),
                u16_at(packet, pos + 6),
                u16_at(packet, pos + 8),
                u16_at(packet, pos + 10),
            );
            lemma_questions_at_len(packet, at_questions, questions);
            lemma_decoded_questions_encodable(packet, at_questions, questions);
            if let Ok((question, at_answers)) = questions_at(packet, at_questions, questions) {
                lemma_records_at_len(packet, at_answers, answers);
                lemma_decoded_records_valid(packet, at_answers, answers);
                if let Ok((answer, at_authority)) = records_at(packet, at_answers, answers) {
                    lemma_records_at_len(packet, at_authority, authorities);
                    lemma_decoded_records_valid(packet, at_authority, authorities);
                    if let Ok((authority, at_additional)) = records_at(
                        packet,
                        at_authority,
                        authorities,
                    ) {
                        lemma_records_at_len(packet, at_additional, additionals);
                        lemma_decoded_records_valid(packet, at_additional, additionals);
                    }
                }
            }
        }
    }

    /// Decoding inverts encoding, but for the reserved bits of the header:
    /// wherever the bytes of a valid message stand in a packet, decoding
    /// there gives that message with `z` zero, and the position behind the
    /// bytes.
    pub proof fn lemma_round_trip(m: MessageView, packet: Seq<u8>, pos: int)
        requires
            m.valid(),
            0 <= pos,
            pos + m.wire().len() <= packet.len(),
            packet.subrange(pos, pos + m.wire().len()) == m.wire(),
        ensures
            Message::at(packet, pos) == decoded(m.normal(), pos + m.wire().len()),
    {
        lemma_header_section(m, packet, pos);
        lemma_question_section(m, packet, pos);
        lemma_answer_section(m, packet, pos);
        lemma_authority_section(m, packet, pos);
        lemma_additional_section(m, packet, pos);
        let at_questions = pos + 12;
        let at_answers = pos + before_answers(m);
        let at_authority = pos + before_authority(m);
        let at_additional = pos + before_additional(m);
        let end = pos + m.wire().len();
        lemma_sections_make_message(
            packet,
            pos,
            m.header.normal(),
            m.question,
            m.answer,
            m.authority,
            m.additional_records,
            at_questions,
            at_answers,
            at_authority,
            at_additional,
            end,
        );
    }
}

} // verus!
