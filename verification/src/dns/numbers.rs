//! Big-endian numbers, and runs of bytes in a packet.

use vstd::prelude::*;

verus! {

/// The 16-bit number whose big-endian bytes are `hi`, `lo`.
pub open spec fn be16(hi: u8, lo: u8) -> u16 {
    (hi as int * 256 + lo as int) as u16
}

/// The 32-bit number whose big-endian bytes are `b0`, `b1`, `b2`, `b3`.
pub open spec fn be32(b0: u8, b1: u8, b2: u8, b3: u8) -> u32 {
    (b0 as int * 16777216 + b1 as int * 65536 + b2 as int * 256 + b3 as int) as u32
}

/// The two bytes of `v`, the high one first.
pub open spec fn u16_bytes(v: u16) -> Seq<u8> {
    seq![(v / 256) as u8, (v % 256) as u8]
}

/// The four bytes of `v`, the highest first.
pub open spec fn u32_bytes(v: u32) -> Seq<u8> {
    seq![
        (v / 16777216) as u8,
        ((v / 65536) % 256) as u8,
        ((v / 256) % 256) as u8,
        (v % 256) as u8,
    ]
}

proof fn lemma_u16_split(v: u16)
    by (bit_vector)
    ensures
        v / 256 < 256,
        v % 256 < 256,
        (v / 256) * 256 + (v % 256) == v,
{
}

proof fn lemma_u32_split(v: u32)
    by (bit_vector)
    ensures
        v / 16777216 < 256,
        (v / 65536) % 256 < 256,
        (v / 256) % 256 < 256,
        v % 256 < 256,
        (v / 16777216) * 16777216 + ((v / 65536) % 256) * 65536 + ((v / 256) % 256) * 256 + (v
            % 256) == v,
{
}

/// A 16-bit number is read back from its two bytes.
pub proof fn lemma_u16_read_back(v: u16)
    ensures
        u16_bytes(v).len() == 2,
        be16(u16_bytes(v)[0], u16_bytes(v)[1]) == v,
{
    lemma_u16_split(v);
}

/// A 32-bit number is read back from its four bytes.
pub proof fn lemma_u32_read_back(v: u32)
    ensures
        u32_bytes(v).len() == 4,
        be32(u32_bytes(v)[0], u32_bytes(v)[1], u32_bytes(v)[2], u32_bytes(v)[3]) == v,
{
    lemma_u32_split(v);
}

/// The big-endian 16-bit number at `pos` in `packet`.
pub open spec fn u16_at(packet: Seq<u8>, pos: int) -> u16 {
    be16(packet[pos], packet[pos + 1])
}

/// The big-endian 32-bit number at `pos` in `packet`.
pub open spec fn u32_at(packet: Seq<u8>, pos: int) -> u32 {
    be32(packet[pos], packet[pos + 1], packet[pos + 2], packet[pos + 3])
}

/// Where `a` and then `b` stand at `pos`, `a` stands at `pos` and `b`
/// behind it.
pub proof fn lemma_split_at(packet: Seq<u8>, pos: int, a: Seq<u8>, b: Seq<u8>)
    requires
        0 <= pos,
        pos + a.len() + b.len() <= packet.len(),
        packet.subrange(pos, pos + a.len() + b.len()) == a + b,
    ensures
        packet.subrange(pos, pos + a.len()) == a,
        packet.subrange(pos + a.len(), pos + a.len() + b.len()) == b,
{
    let here = packet.subrange(pos, pos + a.len() + b.len());
    assert(packet.subrange(pos, pos + a.len()) =~= a) by {
        assert forall|i: int| 0 <= i < a.len() implies packet.subrange(pos, pos + a.len())[i]
            == a[i] by {
            assert(here[i] == packet[pos + i]);
            assert((a + b)[i] == a[i]);
        }
    }
    assert(packet.subrange(pos + a.len(), pos + a.len() + b.len()) =~= b) by {
        assert forall|i: int| 0 <= i < b.len() implies packet.subrange(
            pos + a.len(),
            pos + a.len() + b.len(),
        )[i] == b[i] by {
            assert(here[a.len() + i] == packet[pos + a.len() + i]);
            assert((a + b)[a.len() + i] == b[i]);
        }
    }
}

/// Where the two bytes of `v` stand at `pos`, `v` is read there.
pub proof fn lemma_u16_at(packet: Seq<u8>, pos: int, v: u16)
    requires
        0 <= pos,
        pos + 2 <= packet.len(),
        packet.subrange(pos, pos + 2) == u16_bytes(v),
    ensures
        u16_at(packet, pos) == v,
{
    lemma_u16_read_back(v);
    assert(packet.subrange(pos, pos + 2)[0] == packet[pos]);
    assert(packet.subrange(pos, pos + 2)[1] == packet[pos + 1]);
}

/// Where the four bytes of `v` stand at `pos`, `v` is read there.
pub proof fn lemma_u32_at(packet: Seq<u8>, pos: int, v: u32)
    requires
        0 <= pos,
        pos + 4 <= packet.len(),
        packet.subrange(pos, pos + 4) == u32_bytes(v),
    ensures
        u32_at(packet, pos) == v,
{
    lemma_u32_read_back(v);
    assert(packet.subrange(pos, pos + 4)[0] == packet[pos]);
    assert(packet.subrange(pos, pos + 4)[1] == packet[pos + 1]);
    assert(packet.subrange(pos, pos + 4)[2] == packet[pos + 2]);
    assert(packet.subrange(pos, pos + 4)[3] == packet[pos + 3]);
}

} // verus!
