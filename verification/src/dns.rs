//! The DNS message format: parsing from and writing to byte buffers.

use bytes::Bytes;
use vstd::prelude::*;
use crate::dns::numbers::{u16_at, u32_at};
use crate::dns::wire::{advance, contents, copy_to_bytes, get_u16, get_u32, get_u8, remaining};

pub mod dname;
pub mod header;
pub mod message;
pub mod numbers;
pub mod question;
pub mod record;
pub mod text;
pub mod wire;

verus! {

/// Why a byte buffer could not be decoded.
#[derive(Debug, PartialEq, Eq, Clone, Copy)]
pub enum DecodeError {
    /// The buffer ended before the value did.
    Truncated,
    /// The bytes of a label are not well-formed UTF-8.
    InvalidLabel,
    /// A compression pointer does not lead strictly backward.
    BadPointer,
}

/// What decoding gives: a value and the position behind it, or the reason
/// why there is none.
pub type Decoded<T> = Result<(T, int), DecodeError>;

/// What a decoding gives that finds `value` and ends at `end`.
pub open spec fn decoded<T>(value: T, end: int) -> Decoded<T> {
    Ok((value, end))
}

/// What a decoding gives that fails for the reason `e`.
pub open spec fn failed<T>(e: DecodeError) -> Decoded<T> {
    Err(e)
}

/// The type of a resource record, or of the records a question asks for.
#[allow(non_camel_case_types)]
#[derive(PartialEq, Eq, Structural, Debug, Copy, Clone, Hash)]
pub enum QType {
    A,
    NS,
    CNAME,
    SOA,
    NULL,
    PTR,
    HINFO,
    MX,
    TXT,
    RP,
    AFSDB,
    SIG,
    KEY,
    AAAA,
    LOC,
    SRV,
    NAPTR,
    KX,
    CERT,
    A6,
    DNAME,
    OPT,
    APL,
    DS,
    SSHFP,
    IPSECKEY,
    RRSIG,
    NSEC,
    DNSKEY,
    DHCID,
    NSEC3,
    NSEC3PARAM,
    TLSA,
    HIP53,
    HIP55,
    CDS,
    CDNSKEY,
    OPENPGPKEY,
    CSYNC,
    ZONEMD,
    SVCB,
    HTTPS,
    SPF,
    EUI48,
    EUI64,
    TKEY,
    TSIG,
    IXFR,
    AXFR,
    ANY,
    URI,
    CAA,
    TA,
    DLV,
}

impl QType {
    /// The number that stands for this type on the wire.
    pub open spec fn code(self) -> u16 {
        match self {
            QType::A => 1,
            QType::NS => 2,
            QType::CNAME => 5,
            QType::SOA => 6,
            QType::NULL => 10,
            QType::PTR => 12,
            QType::HINFO => 13,
            QType::MX => 15,
            QType::TXT => 16,
            QType::RP => 17,
            QType::AFSDB => 18,
            QType::SIG => 24,
            QType::KEY => 25,
            QType::AAAA => 28,
            QType::LOC => 29,
            QType::SRV => 33,
            QType::NAPTR => 35,
            QType::KX => 36,
            QType::CERT => 37,
            QType::A6 => 38,
            QType::DNAME => 39,
            QType::OPT => 41,
            QType::APL => 42,
            QType::DS => 43,
            QType::SSHFP => 44,
            QType::IPSECKEY => 45,
            QType::RRSIG => 46,
            QType::NSEC => 47,
            QType::DNSKEY => 48,
            QType::DHCID => 49,
            QType::NSEC3 => 50,
            QType::NSEC3PARAM => 51,
            QType::TLSA => 52,
            QType::HIP53 => 53,
            QType::HIP55 => 55,
            QType::CDS => 59,
            QType::CDNSKEY => 60,
            QType::OPENPGPKEY => 61,
            QType::CSYNC => 62,
            QType::ZONEMD => 63,
            QType::SVCB => 64,
            QType::HTTPS => 65,
            QType::SPF => 99,
            QType::EUI48 => 108,
            QType::EUI64 => 109,
            QType::TKEY => 249,
            QType::TSIG => 250,
            QType::IXFR => 251,
            QType::AXFR => 252,
            QType::ANY => 255,
            QType::URI => 256,
            QType::CAA => 257,
            QType::TA => 32768,
            QType::DLV => 32769,
        }
    }

    /// The number that stands for this type on the wire.
    pub fn to_u16(self) -> (var: u16)
        ensures
            var == self.code(),
    {
        match self {
            QType::A => 1,
            QType::NS => 2,
            QType::CNAME => 5,
            QType::SOA => 6,
            QType::NULL => 10,
            QType::PTR => 12,
            QType::HINFO => 13,
            QType::MX => 15,
            QType::TXT => 16,
            QType::RP => 17,
            QType::AFSDB => 18,
            QType::SIG => 24,
            QType::KEY => 25,
            QType::AAAA => 28,
            QType::LOC => 29,
            QType::SRV => 33,
            QType::NAPTR => 35,
            QType::KX => 36,
            QType::CERT => 37,
            QType::A6 => 38,
            QType::DNAME => 39,
            QType::OPT => 41,
            QType::APL => 42,
            QType::DS => 43,
            QType::SSHFP => 44,
            QType::IPSECKEY => 45,
            QType::RRSIG => 46,
            QType::NSEC => 47,
            QType::DNSKEY => 48,
            QType::DHCID => 49,
            QType::NSEC3 => 50,
            QType::NSEC3PARAM => 51,
            QType::TLSA => 52,
            QType::HIP53 => 53,
            QType::HIP55 => 55,
            QType::CDS => 59,
            QType::CDNSKEY => 60,
            QType::OPENPGPKEY => 61,
            QType::CSYNC => 62,
            QType::ZONEMD => 63,
            QType::SVCB => 64,
            QType::HTTPS => 65,
            QType::SPF => 99,
            QType::EUI48 => 108,
            QType::EUI64 => 109,
            QType::TKEY => 249,
            QType::TSIG => 250,
            QType::IXFR => 251,
            QType::AXFR => 252,
            QType::ANY => 255,
            QType::URI => 256,
            QType::CAA => 257,
            QType::TA => 32768,
            QType::DLV => 32769,
        }
    }

    /// The type that `var` stands for: the one whose number it is, and
    /// `NULL` where it is the number of none.
    pub open spec fn of_code(var: u16) -> QType {
        if exists|k: QType| k.code() == var {
            choose|k: QType| k.code() == var
        } else {
            QType::NULL
        }
    }

    /// The type that `var` stands for. A number that stands for no type is
    /// read as `NULL`.
    pub fn from_u16(var: u16) -> (t: QType)
        ensures
            t == QType::of_code(var),
    {
        let t = match var {
            1 => QType::A,
            2 => QType::NS,
            5 => QType::CNAME,
            6 => QType::SOA,
            10 => QType::NULL,
            12 => QType::PTR,
            13 => QType::HINFO,
            15 => QType::MX,
            16 => QType::TXT,
            17 => QType::RP,
            18 => QType::AFSDB,
            24 => QType::SIG,
            25 => QType::KEY,
            28 => QType::AAAA,
            29 => QType::LOC,
            33 => QType::SRV,
            35 => QType::NAPTR,
            36 => QType::KX,
            37 => QType::CERT,
            38 => QType::A6,
            39 => QType::DNAME,
            41 => QType::OPT,
            42 => QType::APL,
            43 => QType::DS,
            44 => QType::SSHFP,
            45 => QType::IPSECKEY,
            46 => QType::RRSIG,
            47 => QType::NSEC,
            48 => QType::DNSKEY,
            49 => QType::DHCID,
            50 => QType::NSEC3,
            51 => QType::NSEC3PARAM,
            52 => QType::TLSA,
            53 => QType::HIP53,
            55 => QType::HIP55,
            59 => QType::CDS,
            60 => QType::CDNSKEY,
            61 => QType::OPENPGPKEY,
            62 => QType::CSYNC,
            63 => QType::ZONEMD,
            64 => QType::SVCB,
            65 => QType::HTTPS,
            99 => QType::SPF,
            108 => QType::EUI48,
            109 => QType::EUI64,
            249 => QType::TKEY,
            250 => QType::TSIG,
            251 => QType::IXFR,
            252 => QType::AXFR,
            255 => QType::ANY,
            256 => QType::URI,
            257 => QType::CAA,
            32768 => QType::TA,
            32769 => QType::DLV,
            _ => QType::NULL,
        };
        proof {
            if t.code() == var {
                Self::lemma_code_injective(t, QType::of_code(var));
            } else {
                assert(forall|k: QType| k.code() != var);
            }
        }
        t
    }

    /// No two types share a number.
    pub proof fn lemma_code_injective(a: QType, b: QType)
        requires
            a.code() == b.code(),
        ensures
            a == b,
    {
    }

    /// Every type is read back from its own number, so the only numbers
    /// that do not survive a decoding and an encoding are those of no type.
    pub proof fn lemma_of_code_inverts_code(t: QType)
        ensures
            QType::of_code(t.code()) == t,
    {
        Self::lemma_code_injective(t, QType::of_code(t.code()));
    }

    /// A number is read back from the type it stands for exactly when it is
    /// the number of some type; every other number comes back as that of
    /// `NULL`.
    pub proof fn lemma_code_of_code(var: u16)
        ensures
            (exists|k: QType| k.code() == var) ==> QType::of_code(var).code() == var,
            !(exists|k: QType| k.code() == var) ==> QType::of_code(var) == QType::NULL,
    {
    }
}

/// A packet under decoding: the whole packet, kept for the resolution of
/// compression pointers, and the part of it that has not been read yet.
#[derive(Debug)]
pub struct MessageBytes {
    packet: Bytes,
    rest: Bytes,
}

impl MessageBytes {
    /// The unread part is always a tail of the packet.
    #[verifier::type_invariant]
    spec fn cursor_in_packet(self) -> bool {
        &&& contents(&self.rest).len() <= contents(&self.packet).len()
        &&& contents(&self.rest) == contents(&self.packet).skip(
            contents(&self.packet).len() - contents(&self.rest).len(),
        )
    }

    /// All the bytes of the packet.
    pub closed spec fn packet(self) -> Seq<u8> {
        contents(&self.packet)
    }

    /// How many bytes of the packet have been read.
    pub closed spec fn offset(self) -> int {
        contents(&self.packet).len() - contents(&self.rest).len()
    }

    /// Starts decoding at the first byte of `b`.
    pub fn from_bytes(b: Bytes) -> (mp: Self)
        ensures
            mp.packet() == contents(&b),
            mp.offset() == 0,
    {
        let rest = b.clone();
        assert(contents(&b).skip(0) =~= contents(&b));
        MessageBytes { packet: b, rest }
    }

    /// How many bytes are left to read.
    pub fn unread(&self) -> (n: usize)
        ensures
            n == self.packet().len() - self.offset(),
    {
        remaining(&self.rest)
    }

    /// How many bytes the packet has.
    pub fn total(&self) -> (n: usize)
        ensures
            n == self.packet().len(),
    {
        remaining(&self.packet)
    }

    /// How many bytes have been read.
    pub fn position(&self) -> (n: usize)
        ensures
            n == self.offset(),
            0 <= self.offset() <= self.packet().len(),
    {
        proof {
            use_type_invariant(self);
        }
        remaining(&self.packet) - remaining(&self.rest)
    }

    /// A cursor of its own on the same packet, `pos` bytes from its start.
    pub(crate) fn at(&self, pos: usize) -> (mp: Self)
        requires
            pos <= self.packet().len(),
        ensures
            mp.packet() == self.packet(),
            mp.offset() == pos,
    {
        let mut rest = self.packet.clone();
        advance(&mut rest, pos);
        MessageBytes { packet: self.packet.clone(), rest }
    }

    /// Reads one byte.
    pub(crate) fn get_u8(&mut self) -> (r: u8)
        requires
            old(self).offset() + 1 <= old(self).packet().len(),
        ensures
            final(self).packet() == old(self).packet(),
            final(self).offset() == old(self).offset() + 1,
            r == old(self).packet()[old(self).offset()],
    {
        proof {
            use_type_invariant(&*self);
        }
        assert(contents(&self.rest).skip(1) =~= contents(&self.packet).skip(
            contents(&self.packet).len() - contents(&self.rest).len() + 1,
        ));
        get_u8(&mut self.rest)
    }

    /// Reads two bytes as a big-endian number.
    pub(crate) fn get_u16(&mut self) -> (r: u16)
        requires
            old(self).offset() + 2 <= old(self).packet().len(),
        ensures
            final(self).packet() == old(self).packet(),
            final(self).offset() == old(self).offset() + 2,
            r == u16_at(old(self).packet(), old(self).offset()),
    {
        proof {
            use_type_invariant(&*self);
        }
        assert(contents(&self.rest).skip(2) =~= contents(&self.packet).skip(
            contents(&self.packet).len() - contents(&self.rest).len() + 2,
        ));
        get_u16(&mut self.rest)
    }

    /// Reads four bytes as a big-endian number.
    pub(crate) fn get_u32(&mut self) -> (r: u32)
        requires
            old(self).offset() + 4 <= old(self).packet().len(),
        ensures
            final(self).packet() == old(self).packet(),
            final(self).offset() == old(self).offset() + 4,
            r == u32_at(old(self).packet(), old(self).offset()),
    {
        proof {
            use_type_invariant(&*self);
        }
        assert(contents(&self.rest).skip(4) =~= contents(&self.packet).skip(
            contents(&self.packet).len() - contents(&self.rest).len() + 4,
        ));
        get_u32(&mut self.rest)
    }

    /// Reads the next `len` bytes into a buffer of their own.
    pub(crate) fn take(&mut self, len: usize) -> (r: Bytes)
        requires
            old(self).offset() + len <= old(self).packet().len(),
        ensures
            final(self).packet() == old(self).packet(),
            final(self).offset() == old(self).offset() + len,
            contents(&r) == old(self).packet().subrange(
                old(self).offset(),
                old(self).offset() + len,
            ),
    {
        proof {
            use_type_invariant(&*self);
        }
        assert(contents(&self.rest).skip(len as int) =~= contents(&self.packet).skip(
            contents(&self.packet).len() - contents(&self.rest).len() + len,
        ));
        assert(contents(&self.rest).take(len as int) =~= contents(&self.packet).subrange(
            contents(&self.packet).len() - contents(&self.rest).len(),
            contents(&self.packet).len() - contents(&self.rest).len() + len,
        ));
        copy_to_bytes(&mut self.rest, len)
    }

    /// Moves the cursor `cnt` bytes on.
    pub(crate) fn skip(&mut self, cnt: usize)
        requires
            old(self).offset() + cnt <= old(self).packet().len(),
        ensures
            final(self).packet() == old(self).packet(),
            final(self).offset() == old(self).offset() + cnt,
    {
        proof {
            use_type_invariant(&*self);
        }
        assert(contents(&self.rest).skip(cnt as int) =~= contents(&self.packet).skip(
            contents(&self.packet).len() - contents(&self.rest).len() + cnt,
        ));
        advance(&mut self.rest, cnt)
    }
}

impl Clone for MessageBytes {
    /// A second cursor on the same packet, at the same place.
    fn clone(&self) -> (mp: Self)
        ensures
            mp.packet() == self.packet(),
            mp.offset() == self.offset(),
    {
        proof {
            use_type_invariant(self);
        }
        MessageBytes { packet: self.packet.clone(), rest: self.rest.clone() }
    }
}

} // verus!
