//! Resource records: a name, type, class and time to live, and the data of
//! the record as the bytes that stood on the wire.

use bytes::{Bytes, BytesMut};
use vstd::prelude::*;
use crate::dns::{decoded, failed, DecodeError, Decoded, MessageBytes, QType};
use crate::dns::dname::{
    encodable, lemma_decoded_is_encodable, lemma_name_end_advances, lemma_name_round_trip,
    name_wire, DomainName,
};
use crate::dns::numbers::{lemma_u16_at, lemma_u32_at, u16_at, u16_bytes, u32_at, u32_bytes};
use crate::dns::wire::{as_slice, contents, put_slice, put_u16, put_u32, remaining, written};

verus! {

/// A resource record. The data are kept as they stood on the wire: where
/// they hold names, these are not decoded, and a compression pointer among
/// them stays the two bytes it was.
#[derive(Debug, PartialEq)]
pub struct ResourceRecord {
    pub domain_name: DomainName,
    pub resource_type: QType,
    /// The class, as the number on the wire.
    pub resource_class: u16,
    /// For how many seconds the record may be kept.
    pub ttl: u32,
    /// The length of the data as the wire announced it. It is not what is
    /// written: that is the length that the data have.
    pub data_length: u16,
    pub resource_data: Bytes,
}

/// What a resource record holds.
pub ghost struct RecordView {
    pub name: Seq<Seq<char>>,
    pub resource_type: QType,
    pub resource_class: u16,
    pub ttl: u32,
    pub data_length: u16,
    pub data: Seq<u8>,
}

impl View for ResourceRecord {
    type V = RecordView;

    open spec fn view(&self) -> RecordView {
        RecordView {
            name: self.domain_name@,
            resource_type: self.resource_type,
            resource_class: self.resource_class,
            ttl: self.ttl,
            data_length: self.data_length,
            data: contents(&self.resource_data),
        }
    }
}

impl Clone for ResourceRecord {
    fn clone(&self) -> (r: Self)
        ensures
            r@ == self@,
    {
        ResourceRecord {
            domain_name: self.domain_name.clone(),
            resource_type: self.resource_type,
            resource_class: self.resource_class,
            ttl: self.ttl,
            data_length: self.data_length,
            resource_data: self.resource_data.clone(),
        }
    }
}

/// The number of bytes between the name of a record and its data.
pub const FIXED_LEN: usize = 10;

impl RecordView {
    /// The record on the wire: the name; type and class, two bytes each;
    /// the time to live, four bytes; the length of the data, two bytes; the
    /// data.
    pub open spec fn wire(self) -> Seq<u8> {
        name_wire(self.name) + u16_bytes(self.resource_type.code()) + u16_bytes(self.resource_class)
            + u32_bytes(self.ttl) + u16_bytes(self.data.len() as u16) + self.data
    }

    /// The name can be encoded, and the length of the data fits the
    /// sixteen bits that announce it.
    pub open spec fn encodable(self) -> bool {
        &&& encodable(self.name)
        &&& self.data.len() <= 0xffff
    }

    /// The record can be encoded, and `data_length` is the length that the
    /// data have: so the record is as it would be had it been decoded.
    pub open spec fn valid(self) -> bool {
        &&& self.encodable()
        &&& self.data_length == self.data.len()
    }
}

impl ResourceRecord {
    /// What decoding a record at `pos` in `packet` gives: the record and
    /// the position behind it, or the reason why there is none.
    pub open spec fn at(packet: Seq<u8>, pos: int) -> Decoded<RecordView> {
        match DomainName::at(packet, pos) {
            Err(e) => Err(e),
            Ok((name, p)) => if packet.len() - p < 10 {
                Err(DecodeError::Truncated)
            } else if packet.len() - (p + 10) < u16_at(packet, p + 8) {
                Err(DecodeError::Truncated)
            } else {
                Ok(
                    (
                        RecordView {
                            name,
                            resource_type: QType::of_code(u16_at(packet, p)),
                            resource_class: u16_at(packet, p + 2),
                            ttl: u32_at(packet, p + 4),
                            data_length: u16_at(packet, p + 8),
                            data: packet.subrange(p + 10, p + 10 + u16_at(packet, p + 8)),
                        },
                        p + 10 + u16_at(packet, p + 8),
                    ),
                )
            },
        }
    }

    /// Decodes the record under the cursor and moves the cursor behind it.
    /// Where there is none, nothing is read.
    pub fn parse(mp: &mut MessageBytes) -> (r: Result<Self, DecodeError>)
        ensures
            final(mp).packet() == old(mp).packet(),
            ResourceRecord::at(old(mp).packet(), old(mp).offset()) == match r {
                Ok(rr) => decoded(rr@, final(mp).offset()),
                Err(e) => failed(e),
            },
            r is Err ==> final(mp).offset() == old(mp).offset(),
    {
        let mut cur = mp.clone();
        let domain_name = match DomainName::parse(&mut cur) {
            Ok(name) => name,
            Err(e) => {
                return Err(e);
            },
        };
        if cur.unread() < FIXED_LEN {
            return Err(DecodeError::Truncated);
        }
        let resource_type = QType::from_u16(cur.get_u16());
        let resource_class = cur.get_u16();
        let ttl = cur.get_u32();
        let data_length = cur.get_u16();
        if cur.unread() < data_length as usize {
            return Err(DecodeError::Truncated);
        }
        let resource_data = cur.take(data_length as usize);
        *mp = cur;
        Ok(
            ResourceRecord {
                domain_name,
                resource_type,
                resource_class,
                ttl,
                data_length,
                resource_data,
            },
        )
    }

    /// Whether this record can be written: whether its name can, and the
    /// length of its data fits sixteen bits.
    pub fn can_write(&self) -> (r: bool)
        ensures
            r == self@.encodable(),
    {
        self.domain_name.can_write() && remaining(&self.resource_data) <= 0xffff
    }

    /// Appends this record to `msg`. The length written is the length that
    /// the data have; `data_length` is not consulted.
    pub fn write(&self, msg: BytesMut) -> (out: BytesMut)
        requires
            self@.encodable(),
        ensures
            written(&out) == written(&msg) + self@.wire(),
    {
        let ghost before = written(&msg);
        let mut msg = self.domain_name.write(msg);
        let n = remaining(&self.resource_data);
        put_u16(&mut msg, self.resource_type.to_u16());
        put_u16(&mut msg, self.resource_class);
        put_u32(&mut msg, self.ttl);
        put_u16(&mut msg, n as u16);
        put_slice(&mut msg, as_slice(&self.resource_data));
        assert(written(&msg) =~= before + self@.wire());
        msg
    }

    /// What is decoded is valid: the labels of a decoded record can be
    /// encoded, and its length is that of its data.
    pub proof fn lemma_decoded_is_valid(packet: Seq<u8>, pos: int)
        ensures
            ResourceRecord::at(packet, pos) matches Ok((r, _)) ==> r.valid(),
    {
        lemma_decoded_is_encodable(packet, pos, pos);
        lemma_name_end_advances(packet, pos);
    }

    /// Decoding inverts encoding: wherever the bytes of a valid record
    /// stand in a packet, decoding there gives that record, and the position
    /// behind the bytes.
    pub proof fn lemma_round_trip(r: RecordView, packet: Seq<u8>, pos: int)
        requires
            r.valid(),
            0 <= pos,
            pos + r.wire().len() <= packet.len(),
            packet.subrange(pos, pos + r.wire().len()) == r.wire(),
        ensures
            ResourceRecord::at(packet, pos) == decoded(r, pos + r.wire().len()),
    {
        let w = r.wire();
        let n = name_wire(r.name).len() as int;
        let d = r.data.len() as int;
        let here = packet.subrange(pos, pos + w.len());
        assert(w.len() == n + 10 + d);
        assert(packet.subrange(pos, pos + n) =~= name_wire(r.name)) by {
            assert forall|i: int| 0 <= i < n implies packet.subrange(pos, pos + n)[i] == name_wire(
                r.name,
            )[i] by {
                assert(here[i] == packet[pos + i]);
            }
        }
        lemma_name_round_trip(r.name, packet, pos);
        let p = pos + n;
        assert(packet.subrange(p, p + 2) =~= u16_bytes(r.resource_type.code())) by {
            assert(here[n] == packet[p] && here[n + 1] == packet[p + 1]);
        }
        assert(packet.subrange(p + 2, p + 4) =~= u16_bytes(r.resource_class)) by {
            assert(here[n + 2] == packet[p + 2] && here[n + 3] == packet[p + 3]);
        }
        assert(packet.subrange(p + 4, p + 8) =~= u32_bytes(r.ttl)) by {
            assert(here[n + 4] == packet[p + 4] && here[n + 5] == packet[p + 5]);
            assert(here[n + 6] == packet[p + 6] && here[n + 7] == packet[p + 7]);
        }
        assert(packet.subrange(p + 8, p + 10) =~= u16_bytes(r.data.len() as u16)) by {
            assert(here[n + 8] == packet[p + 8] && here[n + 9] == packet[p + 9]);
        }
        assert(packet.subrange(p + 10, p + 10 + d) =~= r.data) by {
            assert forall|i: int| 0 <= i < d implies packet.subrange(p + 10, p + 10 + d)[i]
                == r.data[i] by {
                assert(here[n + 10 + i] == packet[p + 10 + i]);
            }
        }
        lemma_u16_at(packet, p, r.resource_type.code());
        lemma_u16_at(packet, p + 2, r.resource_class);
        lemma_u32_at(packet, p + 4, r.ttl);
        lemma_u16_at(packet, p + 8, r.data.len() as u16);
        QType::lemma_of_code_inverts_code(r.resource_type);
    }
}

} // verus!
