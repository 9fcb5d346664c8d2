//! Questions: a name, and the type and class of the records asked for.

use bytes::BytesMut;
use vstd::prelude::*;
use crate::dns::{decoded, failed, DecodeError, Decoded, MessageBytes, QType};
use crate::dns::dname::{encodable, lemma_name_round_trip, name_wire, DomainName};
use crate::dns::numbers::{lemma_u16_at, u16_at, u16_bytes};
use crate::dns::wire::{put_u16, written};

verus! {

/// A question. Two questions are the same where their labels, types and
/// classes are: the case of letters counts.
#[derive(Debug, PartialEq, Hash, Eq)]
pub struct Question {
    pub domain_name: DomainName,
    pub query_type: QType,
    /// The class, as the number on the wire.
    pub query_class: u16,
}

/// What a question holds.
pub ghost struct QuestionView {
    pub name: Seq<Seq<char>>,
    pub query_type: QType,
    pub query_class: u16,
}

impl View for Question {
    type V = QuestionView;

    open spec fn view(&self) -> QuestionView {
        QuestionView {
            name: self.domain_name@,
            query_type: self.query_type,
            query_class: self.query_class,
        }
    }
}

impl Clone for Question {
    fn clone(&self) -> (r: Self)
        ensures
            r@ == self@,
    {
        Question {
            domain_name: self.domain_name.clone(),
            query_type: self.query_type,
            query_class: self.query_class,
        }
    }
}

impl QuestionView {
    /// The question on the wire: the name, then type and class, two bytes
    /// each.
    pub open spec fn wire(self) -> Seq<u8> {
        name_wire(self.name) + u16_bytes(self.query_type.code()) + u16_bytes(self.query_class)
    }

    /// The name can be encoded.
    pub open spec fn encodable(self) -> bool {
        encodable(self.name)
    }
}

impl Question {
    /// What decoding a question at `pos` in `packet` gives: the question
    /// and the position behind it, or the reason why there is none.
    pub open spec fn at(packet: Seq<u8>, pos: int) -> Decoded<QuestionView> {
        match DomainName::at(packet, pos) {
            Err(e) => Err(e),
            Ok((name, p)) => if packet.len() - p < 4 {
                Err(DecodeError::Truncated)
            } else {
                Ok(
                    (
                        QuestionView {
                            name,
                            query_type: QType::of_code(u16_at(packet, p)),
                            query_class: u16_at(packet, p + 2),
                        },
                        p + 4,
                    ),
                )
            },
        }
    }

    /// Decodes the question under the cursor and moves the cursor behind
    /// it. Where there is none, nothing is read.
    pub fn parse(mp: &mut MessageBytes) -> (r: Result<Self, DecodeError>)
        ensures
            final(mp).packet() == old(mp).packet(),
            Question::at(old(mp).packet(), old(mp).offset()) == match r {
                Ok(q) => decoded(q@, final(mp).offset()),
                Err(e) => failed(e),
            },
            r is Err ==> final(mp).offset() == old(mp).offset(),
    {
        let mut cur = mp.clone();
        let domain_name = match DomainName::parse(&mut cur) {
            Ok(name) => name,
            Err(e) => {
                return Err(e);
            },
        };
        if cur.unread() < 4 {
            return Err(DecodeError::Truncated);
        }
        let query_type = QType::from_u16(cur.get_u16());
        let query_class = cur.get_u16();
        *mp = cur;
        Ok(Question { domain_name, query_type, query_class })
    }

    /// Whether this question can be written: whether its name can.
    pub fn can_write(&self) -> (r: bool)
        ensures
            r == self@.encodable(),
    {
        self.domain_name.can_write()
    }

    /// Appends this question to `msg`.
    pub fn write(&self, msg: BytesMut) -> (out: BytesMut)
        requires
            self@.encodable(),
        ensures
            written(&out) == written(&msg) + self@.wire(),
    {
        let ghost before = written(&msg);
        let mut msg = self.domain_name.write(msg);
        put_u16(&mut msg, self.query_type.to_u16());
        put_u16(&mut msg, self.query_class);
        assert(written(&msg) =~= before + self@.wire());
        msg
    }

    /// Decoding inverts encoding: wherever the bytes of a question that can
    /// be encoded stand in a packet, decoding there gives that question, and
    /// the position behind the bytes.
    pub proof fn lemma_round_trip(q: QuestionView, packet: Seq<u8>, pos: int)
        requires
            q.encodable(),
            0 <= pos,
            pos + q.wire().len() <= packet.len(),
            packet.subrange(pos, pos + q.wire().len()) == q.wire(),
        ensures
            Question::at(packet, pos) == decoded(q, pos + q.wire().len()),
    {
        let w = q.wire();
        let n = name_wire(q.name).len() as int;
        let here = packet.subrange(pos, pos + w.len());
        assert(w.len() == n + 4);
        assert(packet.subrange(pos, pos + n) =~= name_wire(q.name)) by {
            assert forall|i: int| 0 <= i < n implies packet.subrange(pos, pos + n)[i] == name_wire(
                q.name,
            )[i] by {
                assert(here[i] == packet[pos + i]);
            }
        }
        lemma_name_round_trip(q.name, packet, pos);
        let p = pos + n;
        assert(packet.subrange(p, p + 2) =~= u16_bytes(q.query_type.code())) by {
            assert(here[n] == packet[p] && here[n + 1] == packet[p + 1]);
        }
        assert(packet.subrange(p + 2, p + 4) =~= u16_bytes(q.query_class)) by {
            assert(here[n + 2] == packet[p + 2] && here[n + 3] == packet[p + 3]);
        }
        lemma_u16_at(packet, p, q.query_type.code());
        lemma_u16_at(packet, p + 2, q.query_class);
        QType::lemma_of_code_inverts_code(q.query_type);
    }
}

} // verus!
