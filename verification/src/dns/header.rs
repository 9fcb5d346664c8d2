//! The fixed twelve bytes at the head of every message.

use bytes::BytesMut;
use vstd::prelude::*;
use crate::dns::{decoded, failed, DecodeError, Decoded, MessageBytes};
use crate::dns::numbers::{lemma_u16_at, u16_at, u16_bytes};
use crate::dns::wire::{put_u16, written};

verus! {

/// How a server answered.
#[derive(PartialEq, Eq, Structural, Debug, Copy, Clone)]
pub enum ResponseCode {
    NoError,
    FormatError,
    ServerFailure,
    NameError,
    NotImplemented,
    Refused,
}

impl Default for ResponseCode {
    fn default() -> (r: Self)
        ensures
            r == ResponseCode::NotImplemented,
    {
        ResponseCode::NotImplemented
    }
}

impl ResponseCode {
    /// The number that stands for this code in the low four bits of the
    /// flags.
    pub open spec fn code(self) -> u16 {
        match self {
            ResponseCode::NoError => 0,
            ResponseCode::FormatError => 1,
            ResponseCode::ServerFailure => 2,
            ResponseCode::NameError => 3,
            ResponseCode::NotImplemented => 4,
            ResponseCode::Refused => 5,
        }
    }

    /// The code that `var` stands for; the numbers that are reserved, and
    /// every number above them, are read as `NotImplemented`.
    pub open spec fn of_code(var: u16) -> ResponseCode {
        if var == 0 {
            ResponseCode::NoError
        } else if var == 1 {
            ResponseCode::FormatError
        } else if var == 2 {
            ResponseCode::ServerFailure
        } else if var == 3 {
            ResponseCode::NameError
        } else if var == 5 {
            ResponseCode::Refused
        } else {
            ResponseCode::NotImplemented
        }
    }

    /// The number that stands for this code.
    pub fn to_u16(self) -> (var: u16)
        ensures
            var == self.code(),
    {
        match self {
            ResponseCode::NoError => 0,
            ResponseCode::FormatError => 1,
            ResponseCode::ServerFailure => 2,
            ResponseCode::NameError => 3,
            ResponseCode::NotImplemented => 4,
            ResponseCode::Refused => 5,
        }
    }

    /// The code that `var` stands for.
    pub fn from_u16(var: u16) -> (r: Self)
        ensures
            r == ResponseCode::of_code(var),
    {
        match var {
            0 => ResponseCode::NoError,
            1 => ResponseCode::FormatError,
            2 => ResponseCode::ServerFailure,
            3 => ResponseCode::NameError,
            5 => ResponseCode::Refused,
            _ => ResponseCode::NotImplemented,
        }
    }

    /// Every code is read back from its own number.
    pub proof fn lemma_of_code_inverts_code(c: ResponseCode)
        ensures
            ResponseCode::of_code(c.code()) == c,
    {
    }
}

/// The header of a message.
#[derive(PartialEq, Eq, Structural, Debug, Copy, Clone)]
pub struct Header {
    /// The number by which a reply is matched to its query.
    pub id: u16,
    /// 0 in a query, 1 in a reply.
    pub question_response: u8,
    /// The kind of query, in four bits.
    pub opcode: u8,
    /// 1 where the answering server is an authority for the name.
    pub authoritative_answer: u8,
    /// Whether the message was cut short.
    pub truncation: bool,
    /// Whether the client asks for recursion.
    pub recursion_desired: bool,
    /// Whether the server offers recursion.
    pub recursion_available: bool,
    /// Three reserved bits. They are read, and never written.
    pub z: u8,
    pub response_code: ResponseCode,
    /// The number of questions that follow the header.
    pub question_count: u16,
    /// The number of answer records.
    pub answer_count: u16,
    /// The number of authority records.
    pub nameserver_count: u16,
    /// The number of additional records.
    pub additional_records_count: u16,
}

impl Default for Header {
    fn default() -> (h: Self)
        ensures
            h == (Header {
                id: 0,
                question_response: 0,
                opcode: 0,
                authoritative_answer: 0,
                truncation: false,
                recursion_desired: false,
                recursion_available: false,
                z: 0,
                response_code: ResponseCode::NotImplemented,
                question_count: 0,
                answer_count: 0,
                nameserver_count: 0,
                additional_records_count: 0,
            }),
    {
        Header {
            id: 0,
            question_response: 0,
            opcode: 0,
            authoritative_answer: 0,
            truncation: false,
            recursion_desired: false,
            recursion_available: false,
            z: 0,
            response_code: ResponseCode::NotImplemented,
            question_count: 0,
            answer_count: 0,
            nameserver_count: 0,
            additional_records_count: 0,
        }
    }
}

/// The number of bytes of a header on the wire.
pub const HEADER_LEN: usize = 12;

/// 1 for `true`, 0 for `false`.
pub open spec fn bit(b: bool) -> u16 {
    if b {
        1
    } else {
        0
    }
}

proof fn lemma_flag_bits(qr: u8, op: u8, aa: u8, tc: u16, rd: u16, ra: u16, rc: u16)
    by (bit_vector)
    requires
        qr <= 1,
        op <= 15,
        aa <= 1,
        tc <= 1,
        rd <= 1,
        ra <= 1,
        rc <= 5,
    ensures
        ({
            let f = ((qr as u16) << 15u16)
                | ((op as u16) << 11u16)
                | ((aa as u16) << 10u16)
                | (tc << 9u16)
                | (rd << 8u16)
                | (ra << 7u16)
                | (rc & 0b1111);
            &&& ((f >> 15u16) & 0b1) as u8 == qr
            &&& ((f >> 11u16) & 0b1111) as u8 == op
            &&& ((f >> 10u16) & 0b1) as u8 == aa
            &&& ((f >> 9u16) & 0b1) == tc
            &&& ((f >> 8u16) & 0b1) == rd
            &&& ((f >> 7u16) & 0b1) == ra
            &&& ((f >> 4u16) & 0b111) as u8 == 0
            &&& f & 0b1111 == rc
        }),
{
}

proof fn lemma_fields_fit(f: u16)
    by (bit_vector)
    ensures
        ((f >> 15u16) & 0b1) as u8 <= 1,
        ((f >> 11u16) & 0b1111) as u8 <= 15,
        ((f >> 10u16) & 0b1) as u8 <= 1,
        ((f >> 4u16) & 0b111) as u8 <= 7,
{
}

impl Header {
    /// Every field fits the bits that the wire format gives it.
    pub open spec fn fits(self) -> bool {
        &&& self.question_response <= 1
        &&& self.opcode <= 15
        &&& self.authoritative_answer <= 1
        &&& self.z <= 7
    }

    /// The sixteen flag bits as they are written: from the top, the
    /// query/response bit, four bits of opcode, the bits AA, TC, RD and RA,
    /// three zero bits, and four bits of response code.
    pub open spec fn flags(self) -> u16 {
        ((self.question_response as u16) << 15u16)
            | ((self.opcode as u16) << 11u16)
            | ((self.authoritative_answer as u16) << 10u16)
            | (bit(self.truncation) << 9u16)
            | (bit(self.recursion_desired) << 8u16)
            | (bit(self.recursion_available) << 7u16)
            | (self.response_code.code() & 0b1111)
    }

    /// The header that the six 16-bit words of the wire format stand for.
    pub open spec fn of_words(id: u16, flags: u16, qd: u16, an: u16, ns: u16, ar: u16) -> Header {
        Header {
            id,
            question_response: ((flags >> 15u16) & 0b1) as u8,
            opcode: ((flags >> 11u16) & 0b1111) as u8,
            authoritative_answer: ((flags >> 10u16) & 0b1) as u8,
            truncation: ((flags >> 9u16) & 0b1) == 1,
            recursion_desired: ((flags >> 8u16) & 0b1) == 1,
            recursion_available: ((flags >> 7u16) & 0b1) == 1,
            z: ((flags >> 4u16) & 0b111) as u8,
            response_code: ResponseCode::of_code(flags & 0b1111),
            question_count: qd,
            answer_count: an,
            nameserver_count: ns,
            additional_records_count: ar,
        }
    }

    /// The twelve bytes of this header on the wire.
    pub open spec fn wire(self) -> Seq<u8> {
        u16_bytes(self.id)
            + u16_bytes(self.flags())
            + u16_bytes(self.question_count)
            + u16_bytes(self.answer_count)
            + u16_bytes(self.nameserver_count)
            + u16_bytes(self.additional_records_count)
    }

    /// What decoding a header at `pos` in `packet` gives: the header and the
    /// position behind it, or the reason why there is none.
    pub open spec fn at(packet: Seq<u8>, pos: int) -> Decoded<Header> {
        if packet.len() - pos < 12 {
            Err(DecodeError::Truncated)
        } else {
            Ok(
                (
                    Header::of_words(
                        u16_at(packet, pos),
                        u16_at(packet, pos + 2),
                        u16_at(packet, pos + 4),
                        u16_at(packet, pos + 6),
                        u16_at(packet, pos + 8),
                        u16_at(packet, pos + 10),
                    ),
                    pos + 12,
                ),
            )
        }
    }

    /// This header as it comes back from the wire: with the reserved bits
    /// zero.
    pub open spec fn normal(self) -> Header {
        Header { z: 0, ..self }
    }

    /// The flag bits of a header that fits are read back as its fields.
    pub proof fn lemma_flags_read_back(self)
        requires
            self.fits(),
        ensures
            Header::of_words(
                self.id,
                self.flags(),
                self.question_count,
                self.answer_count,
                self.nameserver_count,
                self.additional_records_count,
            ) == self.normal(),
    {
        lemma_flag_bits(
            self.question_response,
            self.opcode,
            self.authoritative_answer,
            bit(self.truncation),
            bit(self.recursion_desired),
            bit(self.recursion_available),
            self.response_code.code(),
        );
    }

    /// Decoding inverts encoding, but for the reserved bits: wherever the
    /// twelve bytes of a header that fits stand in a packet, decoding there
    /// gives that header with `z` zero, and the position behind the bytes.
    pub proof fn lemma_round_trip(self, packet: Seq<u8>, pos: int)
        requires
            self.fits(),
            0 <= pos,
            pos + 12 <= packet.len(),
            packet.subrange(pos, pos + 12) == self.wire(),
        ensures
            Header::at(packet, pos) == decoded(self.normal(), pos + 12),
    {
        let w = self.wire();
        assert(w.len() == 12);
        let here = packet.subrange(pos, pos + 12);
        assert(here[0] == packet[pos] && here[1] == packet[pos + 1]);
        assert(here[2] == packet[pos + 2] && here[3] == packet[pos + 3]);
        assert(here[4] == packet[pos + 4] && here[5] == packet[pos + 5]);
        assert(here[6] == packet[pos + 6] && here[7] == packet[pos + 7]);
        assert(here[8] == packet[pos + 8] && here[9] == packet[pos + 9]);
        assert(here[10] == packet[pos + 10] && here[11] == packet[pos + 11]);
        assert(packet.subrange(pos, pos + 2) =~= u16_bytes(self.id));
        assert(packet.subrange(pos + 2, pos + 4) =~= u16_bytes(self.flags()));
        assert(packet.subrange(pos + 4, pos + 6) =~= u16_bytes(self.question_count));
        assert(packet.subrange(pos + 6, pos + 8) =~= u16_bytes(self.answer_count));
        assert(packet.subrange(pos + 8, pos + 10) =~= u16_bytes(self.nameserver_count));
        assert(packet.subrange(pos + 10, pos + 12) =~= u16_bytes(self.additional_records_count));
        lemma_u16_at(packet, pos, self.id);
        lemma_u16_at(packet, pos + 2, self.flags());
        lemma_u16_at(packet, pos + 4, self.question_count);
        lemma_u16_at(packet, pos + 6, self.answer_count);
        lemma_u16_at(packet, pos + 8, self.nameserver_count);
        lemma_u16_at(packet, pos + 10, self.additional_records_count);
        self.lemma_flags_read_back();
    }

    /// What is decoded fits: no six words give a field more bits than the
    /// wire format has for it.
    pub proof fn lemma_decoded_fits(id: u16, flags: u16, qd: u16, an: u16, ns: u16, ar: u16)
        ensures
            Header::of_words(id, flags, qd, an, ns, ar).fits(),
    {
        lemma_fields_fit(flags);
    }

    /// Decodes the header under the cursor and moves the cursor behind it.
    /// Where fewer than twelve bytes are left, nothing is read.
    pub fn parse(mp: &mut MessageBytes) -> (r: Result<Self, DecodeError>)
        ensures
            final(mp).packet() == old(mp).packet(),
            Header::at(old(mp).packet(), old(mp).offset()) == match r {
                Ok(h) => decoded(h, final(mp).offset()),
                Err(e) => failed(e),
            },
            r is Err ==> final(mp).offset() == old(mp).offset(),
    {
        if mp.unread() < HEADER_LEN {
            return Err(DecodeError::Truncated);
        }
        let id = mp.get_u16();
        let flags = mp.get_u16();
        let question_count = mp.get_u16();
        let answer_count = mp.get_u16();
        let nameserver_count = mp.get_u16();
        let additional_records_count = mp.get_u16();
        Ok(
            Header {
                id,
                question_response: ((flags >> 15) & 0b1) as u8,
                opcode: ((flags >> 11) & 0b1111) as u8,
                authoritative_answer: ((flags >> 10) & 0b1) as u8,
                truncation: ((flags >> 9) & 0b1) == 1,
                recursion_desired: ((flags >> 8) & 0b1) == 1,
                recursion_available: ((flags >> 7) & 0b1) == 1,
                z: ((flags >> 4) & 0b111) as u8,
                response_code: ResponseCode::from_u16(flags & 0b1111),
                question_count,
                answer_count,
                nameserver_count,
                additional_records_count,
            },
        )
    }

    /// Whether this header can be written: whether every field fits its
    /// bits.
    pub fn can_write(&self) -> (r: bool)
        ensures
            r == self.fits(),
    {
        self.question_response <= 1 && self.opcode <= 15 && self.authoritative_answer <= 1
            && self.z <= 7
    }

    /// Appends the twelve bytes of this header to `msg`. The reserved bits
    /// are written as zero, whatever `z` holds.
    pub fn write(&self, msg: BytesMut) -> (out: BytesMut)
        requires
            self.fits(),
        ensures
            written(&out) == written(&msg) + self.wire(),
    {
        let ghost before = written(&msg);
        let mut msg = msg;
        let mut flags: u16 = 0;
        flags |= (self.question_response as u16) << 15;
        assert(flags == (self.question_response as u16) << 15u16) by {
            let top = (self.question_response as u16) << 15u16;
            assert(0u16 | top == top) by (bit_vector);
        }
        flags |= (self.opcode as u16) << 11;
        flags |= (self.authoritative_answer as u16) << 10;
        flags |= (if self.truncation { 1u16 } else { 0u16 }) << 9;
        flags |= (if self.recursion_desired { 1u16 } else { 0u16 }) << 8;
        flags |= (if self.recursion_available { 1u16 } else { 0u16 }) << 7;
        flags |= self.response_code.to_u16() & 0b1111;
        put_u16(&mut msg, self.id);
        put_u16(&mut msg, flags);
        put_u16(&mut msg, self.question_count);
        put_u16(&mut msg, self.answer_count);
        put_u16(&mut msg, self.nameserver_count);
        put_u16(&mut msg, self.additional_records_count);
        assert(flags == self.flags());
        assert(written(&msg) =~= before + self.wire());
        msg
    }
}

} // verus!
