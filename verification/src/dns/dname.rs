//! Domain names: sequences of labels, read from the wire with or without
//! compression and written without it.

use bytes::BytesMut;
use vstd::prelude::*;
use vstd::std_specs::iter::IteratorSpec;
use vstd::utf8::{decode_utf8, encode_utf8, valid_utf8};
use crate::dns::{decoded, failed, DecodeError, Decoded, MessageBytes};
use crate::dns::wire::{as_slice, put_slice, put_u8, written};

verus! {

/// A domain name: its labels, the leftmost first. The root is the name
/// without labels.
#[derive(Debug, PartialEq, Hash, Eq)]
pub struct DomainName {
    pub labels: Vec<String>,
}

/// The texts of a sequence of strings.
pub open spec fn texts(labels: Seq<String>) -> Seq<Seq<char>> {
    labels.map_values(|s: String| s@)
}

impl View for DomainName {
    type V = Seq<Seq<char>>;

    open spec fn view(&self) -> Seq<Seq<char>> {
        texts(self.labels@)
    }
}

impl Clone for DomainName {
    fn clone(&self) -> (r: Self)
        ensures
            r@ == self@,
    {
        let mut labels: Vec<String> = Vec::with_capacity(self.labels.len());
        let mut i: usize = 0;
        while i < self.labels.len()
            invariant
                i <= self.labels.len(),
                labels.len() == i,
                forall|j: int| 0 <= j < i ==> labels[j]@ == self.labels[j]@,
            decreases self.labels.len() - i,
        {
            labels.push(self.labels[i].clone());
            i += 1;
        }
        assert(texts(labels@) =~= texts(self.labels@));
        DomainName { labels }
    }
}

/// Every label takes at least one byte and fewer than `0xC0`: the sizes
/// that a length byte can announce.
pub open spec fn encodable(labels: Seq<Seq<char>>) -> bool {
    forall|i: int| 0 <= i < labels.len() ==> 1 <= #[trigger] encode_utf8(labels[i]).len() < 0xC0
}

/// A label on the wire: the number of its bytes, then its bytes.
pub open spec fn label_wire(label: Seq<char>) -> Seq<u8> {
    seq![encode_utf8(label).len() as u8] + encode_utf8(label)
}

/// The labels on the wire, one behind the other.
pub open spec fn labels_wire(labels: Seq<Seq<char>>) -> Seq<u8>
    decreases labels.len(),
{
    if labels.len() == 0 {
        seq![]
    } else {
        label_wire(labels[0]) + labels_wire(labels.drop_first())
    }
}

/// A name on the wire: its labels, then a zero byte. It holds no
/// compression pointer.
pub open spec fn name_wire(labels: Seq<Seq<char>>) -> Seq<u8> {
    labels_wire(labels) + seq![0u8]
}

/// One more label at the end adds its bytes at the end.
pub proof fn lemma_labels_wire_push(labels: Seq<Seq<char>>, label: Seq<char>)
    ensures
        labels_wire(labels.push(label)) == labels_wire(labels) + label_wire(label),
    decreases labels.len(),
{
    let pushed = labels.push(label);
    if labels.len() == 0 {
        assert(pushed.drop_first() =~= labels);
        assert(labels_wire(labels) =~= Seq::<u8>::empty());
        assert(labels_wire(pushed) == label_wire(label) + labels_wire(labels));
        assert(labels_wire(pushed) =~= labels_wire(labels) + label_wire(label));
    } else {
        lemma_labels_wire_push(labels.drop_first(), label);
        assert(pushed.drop_first() =~= labels.drop_first().push(label));
        assert(pushed[0] == labels[0]);
        assert(labels_wire(pushed) == label_wire(labels[0]) + labels_wire(pushed.drop_first()));
        assert(labels_wire(pushed) =~= labels_wire(labels) + label_wire(label));
    }
}

/// Where the first dot of `s` stands, and the length of `s` where it holds
/// none.
pub open spec fn first_dot(s: Seq<char>) -> int
    decreases s.len(),
{
    if s.len() == 0 || s[0] == '.' {
        0
    } else {
        1 + first_dot(s.drop_first())
    }
}

/// The labels of a name in dotted form: the runs of characters between the
/// dots, in order, without the empty ones.
pub open spec fn labels_of(s: Seq<char>) -> Seq<Seq<char>>
    decreases s.len(),
{
    if s.len() == 0 {
        seq![]
    } else {
        let k = first_dot(s);
        if k <= 0 {
            labels_of(s.drop_first())
        } else if k >= s.len() {
            seq![s]
        } else {
            seq![s.take(k)] + labels_of(s.skip(k + 1))
        }
    }
}

/// The first dot stands at `k` where a dot stands there and none before.
pub proof fn lemma_first_dot(s: Seq<char>, k: int)
    requires
        0 <= k <= s.len(),
        forall|j: int| 0 <= j < k ==> s[j] != '.',
        k == s.len() || s[k] == '.',
    ensures
        first_dot(s) == k,
    decreases k,
{
    if k > 0 {
        let t = s.drop_first();
        assert forall|j: int| 0 <= j < k - 1 implies t[j] != '.' by {
            assert(t[j] == s[j + 1]);
        }
        lemma_first_dot(t, k - 1);
    }
}

/// The first byte of a compression pointer, and every byte above it.
pub const POINTER_TAG: u8 = 0xC0;

/// Where a compression pointer of the bytes `hi`, `lo` leads: the number
/// in its low fourteen bits.
pub open spec fn pointer_target(hi: u8, lo: u8) -> int {
    (hi as int - 0xC0) * 256 + lo as int
}

/// The labels of the name that is read at `pos` in `packet`.
///
/// A zero byte ends the name. A byte of `0xC0` or more is the first of the
/// two bytes of a compression pointer, which ends the run of labels at hand:
/// the name goes on with the labels that are read where the pointer leads.
/// Any other byte announces a label of that many bytes of UTF-8.
///
/// A pointer must lead strictly backward: to before `limit`, the place
/// where the run of labels began that the pointer ends. So every pointer
/// leads to before the place that the one before it led to, and no chain of
/// pointers is endless.
pub open spec fn labels_at(packet: Seq<u8>, pos: int, limit: int) -> Result<
    Seq<Seq<char>>,
    DecodeError,
>
    decreases limit, packet.len() - pos,
{
    if pos < 0 || pos >= packet.len() {
        Err(DecodeError::Truncated)
    } else if packet[pos] == 0 {
        Ok(seq![])
    } else if packet[pos] >= POINTER_TAG {
        if pos + 1 >= packet.len() {
            Err(DecodeError::Truncated)
        } else {
            let target = pointer_target(packet[pos], packet[pos + 1]);
            if target >= limit {
                Err(DecodeError::BadPointer)
            } else {
                labels_at(packet, target, target)
            }
        }
    } else {
        let end = pos + 1 + packet[pos];
        if end > packet.len() {
            Err(DecodeError::Truncated)
        } else if !valid_utf8(packet.subrange(pos + 1, end)) {
            Err(DecodeError::InvalidLabel)
        } else {
            after(seq![decode_utf8(packet.subrange(pos + 1, end))], labels_at(packet, end, limit))
        }
    }
}

/// The labels `done`, and then those of `rest`, where there are any.
pub open spec fn after(done: Seq<Seq<char>>, rest: Result<Seq<Seq<char>>, DecodeError>) -> Result<
    Seq<Seq<char>>,
    DecodeError,
> {
    match rest {
        Ok(labels) => Ok(done + labels),
        Err(e) => Err(e),
    }
}

/// The position behind the name that stands at `pos`: behind its zero
/// byte, or behind its first pointer.
pub open spec fn name_end(packet: Seq<u8>, pos: int) -> int
    decreases packet.len() - pos,
{
    if pos < 0 || pos >= packet.len() {
        pos
    } else if packet[pos] == 0 {
        pos + 1
    } else if packet[pos] >= POINTER_TAG {
        pos + 2
    } else if pos + 1 + packet[pos] > packet.len() {
        pos
    } else {
        name_end(packet, pos + 1 + packet[pos])
    }
}

/// The two bytes of a compression pointer that leads to `target`.
pub open spec fn pointer_wire(target: int) -> Seq<u8> {
    seq![(0xC0 + target / 256) as u8, (target % 256) as u8]
}

/// Where labels stand written out at `pos`, they are read as written, and
/// decoding goes on behind them.
pub proof fn lemma_literal_labels(prefix: Seq<Seq<char>>, packet: Seq<u8>, pos: int, limit: int)
    requires
        encodable(prefix),
        0 <= pos,
        pos + labels_wire(prefix).len() <= packet.len(),
        packet.subrange(pos, pos + labels_wire(prefix).len()) == labels_wire(prefix),
    ensures
        labels_at(packet, pos, limit) == after(
            prefix,
            labels_at(packet, pos + labels_wire(prefix).len(), limit),
        ),
        name_end(packet, pos) == name_end(packet, pos + labels_wire(prefix).len()),
    decreases prefix.len(),
{
    let behind = labels_at(packet, pos + labels_wire(prefix).len(), limit);
    if prefix.len() == 0 {
        if behind is Ok {
            assert(prefix + behind->Ok_0 =~= behind->Ok_0);
        }
    } else {
        let label = prefix[0];
        let rest = prefix.drop_first();
        let e = encode_utf8(label);
        let n = e.len() as int;
        let w = labels_wire(prefix);
        let here = packet.subrange(pos, pos + w.len());
        assert(1 <= n < 0xC0);
        assert(w == label_wire(label) + labels_wire(rest));
        assert(w.len() == 1 + n + labels_wire(rest).len());
        assert(here[0] == packet[pos]);
        assert(w[0] == n as u8);
        assert(packet[pos] == n);
        let end = pos + 1 + n;
        assert(packet.subrange(pos + 1, end) =~= e) by {
            assert forall|i: int| 0 <= i < n implies packet.subrange(pos + 1, end)[i] == e[i] by {
                assert(here[1 + i] == packet[pos + 1 + i]);
                assert(w[1 + i] == e[i]);
            }
        }
        assert(packet.subrange(end, end + labels_wire(rest).len()) =~= labels_wire(rest)) by {
            assert forall|i: int| 0 <= i < labels_wire(rest).len() implies packet.subrange(
                end,
                end + labels_wire(rest).len(),
            )[i] == labels_wire(rest)[i] by {
                assert(here[1 + n + i] == packet[end + i]);
                assert(w[1 + n + i] == labels_wire(rest)[i]);
            }
        }
        vstd::utf8::encode_utf8_valid_utf8(label);
        vstd::utf8::encode_utf8_decode_utf8(label);
        assert forall|i: int| 0 <= i < rest.len() implies 1 <= #[trigger] encode_utf8(
            rest[i],
        ).len() < 0xC0 by {
            assert(rest[i] == prefix[i + 1]);
        }
        lemma_literal_labels(rest, packet, end, limit);
        assert(labels_at(packet, pos, limit) == after(seq![label], labels_at(packet, end, limit)));
        if behind is Ok {
            assert(seq![label] + (rest + behind->Ok_0) =~= prefix + behind->Ok_0);
        }
    }
}

/// What is decoded can be encoded: every label that is read took at least
/// one byte on the wire and fewer than `0xC0`, and takes as many again.
pub proof fn lemma_decoded_is_encodable(packet: Seq<u8>, pos: int, limit: int)
    ensures
        labels_at(packet, pos, limit) matches Ok(labels) ==> encodable(labels),
    decreases limit, packet.len() - pos,
{
    if pos < 0 || pos >= packet.len() || packet[pos] == 0 {
    } else if packet[pos] >= POINTER_TAG {
        if pos + 1 < packet.len() {
            let target = pointer_target(packet[pos], packet[pos + 1]);
            if target < limit {
                lemma_decoded_is_encodable(packet, target, target);
            }
        }
    } else {
        let end = pos + 1 + packet[pos];
        if end <= packet.len() {
            let raw = packet.subrange(pos + 1, end);
            if valid_utf8(raw) {
                lemma_decoded_is_encodable(packet, end, limit);
                if let Ok(rest) = labels_at(packet, end, limit) {
                    let labels = seq![decode_utf8(raw)] + rest;
                    vstd::utf8::decode_utf8_encode_utf8(raw);
                    assert forall|i: int| 0 <= i < labels.len() implies 1 <= #[trigger] encode_utf8(
                        labels[i],
                    ).len() < 0xC0 by {
                        if i > 0 {
                            assert(labels[i] == rest[i - 1]);
                        }
                    }
                }
            }
        }
    }
}

/// A name ends behind the place where it begins.
pub proof fn lemma_name_end_advances(packet: Seq<u8>, pos: int)
    ensures
        name_end(packet, pos) >= pos,
    decreases packet.len() - pos,
{
    if 0 <= pos < packet.len() && 0 < packet[pos] < POINTER_TAG && pos + 1 + packet[pos]
        <= packet.len() {
        lemma_name_end_advances(packet, pos + 1 + packet[pos]);
    }
}

/// Decoding inverts encoding: wherever the bytes of a name with encodable
/// labels stand in a packet, decoding there gives the labels of that name,
/// and the position behind the bytes.
pub proof fn lemma_name_round_trip(labels: Seq<Seq<char>>, packet: Seq<u8>, pos: int)
    requires
        encodable(labels),
        0 <= pos,
        pos + name_wire(labels).len() <= packet.len(),
        packet.subrange(pos, pos + name_wire(labels).len()) == name_wire(labels),
    ensures
        DomainName::at(packet, pos) == decoded(labels, pos + name_wire(labels).len()),
{
    let w = labels_wire(labels);
    let here = packet.subrange(pos, pos + name_wire(labels).len());
    assert(packet.subrange(pos, pos + w.len()) =~= w) by {
        assert forall|i: int| 0 <= i < w.len() implies packet.subrange(pos, pos + w.len())[i]
            == w[i] by {
            assert(here[i] == packet[pos + i]);
        }
    }
    lemma_literal_labels(labels, packet, pos, pos);
    assert(here[w.len() as int] == packet[pos + w.len()]);
    assert(packet[pos + w.len()] == 0);
    assert(labels + Seq::<Seq<char>>::empty() =~= labels);
}

/// A name that ends in a compression pointer is the labels before the
/// pointer and then the name that is read where the pointer leads, whether
/// that name is written out or compressed in its turn.
pub proof fn lemma_pointer_gives_name_at_target(
    prefix: Seq<Seq<char>>,
    packet: Seq<u8>,
    pos: int,
    target: int,
)
    requires
        encodable(prefix),
        0 <= target < pos,
        target < 0x4000,
        pos + labels_wire(prefix).len() + 2 <= packet.len(),
        packet.subrange(pos, pos + labels_wire(prefix).len()) == labels_wire(prefix),
        packet.subrange(pos + labels_wire(prefix).len(), pos + labels_wire(prefix).len() + 2)
            == pointer_wire(target),
    ensures
        DomainName::at(packet, pos) == match DomainName::at(packet, target) {
            Ok((suffix, _)) => decoded(prefix + suffix, pos + labels_wire(prefix).len() + 2),
            Err(e) => Err(e),
        },
{
    let p = pos + labels_wire(prefix).len();
    lemma_literal_labels(prefix, packet, pos, pos);
    assert(packet.subrange(p, p + 2)[0] == packet[p]);
    assert(packet.subrange(p, p + 2)[1] == packet[p + 1]);
    assert(pointer_target(packet[p], packet[p + 1]) == target);
}

/// Compression changes nothing of what is decoded: a name whose tail is
/// replaced by a pointer to an earlier place, where that tail stands written
/// out, decodes to the same labels as the whole name written out.
pub proof fn lemma_compressed_as_written_out(
    prefix: Seq<Seq<char>>,
    suffix: Seq<Seq<char>>,
    packet: Seq<u8>,
    pos: int,
    target: int,
)
    requires
        encodable(prefix),
        encodable(suffix),
        0 <= target < pos,
        target < 0x4000,
        target + name_wire(suffix).len() <= packet.len(),
        packet.subrange(target, target + name_wire(suffix).len()) == name_wire(suffix),
        pos + labels_wire(prefix).len() + 2 <= packet.len(),
        packet.subrange(pos, pos + labels_wire(prefix).len()) == labels_wire(prefix),
        packet.subrange(pos + labels_wire(prefix).len(), pos + labels_wire(prefix).len() + 2)
            == pointer_wire(target),
    ensures
        DomainName::at(packet, pos) == decoded(
            prefix + suffix,
            pos + labels_wire(prefix).len() + 2,
        ),
        DomainName::at(name_wire(prefix + suffix), 0) == decoded(
            prefix + suffix,
            name_wire(prefix + suffix).len() as int,
        ),
{
    lemma_name_round_trip(suffix, packet, target);
    lemma_pointer_gives_name_at_target(prefix, packet, pos, target);
    let whole = prefix + suffix;
    assert forall|i: int| 0 <= i < whole.len() implies 1 <= #[trigger] encode_utf8(whole[i]).len()
        < 0xC0 by {
        if i < prefix.len() {
            assert(whole[i] == prefix[i]);
        } else {
            assert(whole[i] == suffix[i - prefix.len()]);
        }
    }
    let w = name_wire(whole);
    assert(w.subrange(0, w.len() as int) =~= w);
    lemma_name_round_trip(whole, w, 0);
}

proof fn lemma_pointer_bits(hi: u8, lo: u8)
    by (bit_vector)
    requires
        hi >= 0xC0,
    ensures
        (((hi & 0x3f) as u16) << 8u16) | (lo as u16) == (hi - 0xC0) * 256 + lo,
{
}

impl DomainName {
    /// The root: the name without labels.
    pub fn empty() -> (r: Self)
        ensures
            r@ == Seq::<Seq<char>>::empty(),
    {
        let r = DomainName { labels: Vec::new() };
        assert(r@ =~= Seq::<Seq<char>>::empty());
        r
    }

    /// The name that `url` writes in dotted form. Dots at either end, and
    /// dots that follow a dot, stand for nothing.
    pub fn parse_url(url: &str) -> (r: Self)
        ensures
            r@ == labels_of(url@),
    {
        broadcast use vstd::string::group_string_axioms;

        let mut rest = url.chars();
        let mut labels: Vec<String> = Vec::new();
        let mut label = String::new();
        assert(label@ + url@ =~= url@);
        assert(texts(labels@) + labels_of(url@) =~= labels_of(url@));
        loop
            invariant
                rest.obeys_prophetic_iter_laws(),
                rest.decrease() is Some,
                forall|j: int| 0 <= j < label@.len() ==> label@[j] != '.',
                labels_of(url@) == texts(labels@) + labels_of(label@ + rest.remaining()),
            decreases rest.decrease()->0,
        {
            let ghost done = texts(labels@);
            let ghost run = label@;
            let ghost ahead = rest.remaining();
            match rest.next() {
                None => {
                    proof {
                        assert(run + ahead =~= run);
                        lemma_first_dot(run, run.len() as int);
                    }
                    if !label.as_str().is_empty() {
                        labels.push(label);
                        assert(texts(labels@) =~= done.push(run));
                        assert(done + seq![run] =~= done.push(run));
                    } else {
                        assert(done + Seq::<Seq<char>>::empty() =~= done);
                    }
                    return DomainName { labels };
                },
                Some(c) => {
                    let ghost all = run + ahead;
                    if c == '.' {
                        proof {
                            lemma_first_dot(all, run.len() as int);
                            assert(all.take(run.len() as int) =~= run);
                            assert(all.skip(run.len() as int + 1) =~= rest.remaining());
                            if run.len() == 0 {
                                assert(all.drop_first() =~= rest.remaining());
                            }
                        }
                        if !label.as_str().is_empty() {
                            labels.push(label);
                            assert(texts(labels@) =~= done.push(run));
                            assert(done + (seq![run] + labels_of(rest.remaining())) =~= done.push(
                                run,
                            ) + labels_of(rest.remaining()));
                        }
                        label = String::new();
                        assert(label@ + rest.remaining() =~= rest.remaining());
                    } else {
                        label.push(c);
                        assert(label@ + rest.remaining() =~= all);
                    }
                },
            }
        }
    }

    /// What decoding a name at `pos` in `packet` gives: its labels and the
    /// position behind it, or the reason why there is none.
    pub open spec fn at(packet: Seq<u8>, pos: int) -> Decoded<Seq<Seq<char>>> {
        match labels_at(packet, pos, pos) {
            Ok(labels) => Ok((labels, name_end(packet, pos))),
            Err(e) => Err(e),
        }
    }

    /// Reads the name under the cursor of `mp`, following compression
    /// pointers through the packet, and leaves `mp` as it is. Gives the
    /// labels, and how many bytes the name takes under the cursor.
    fn internal_parse(mp: &MessageBytes) -> (r: Result<(Vec<String>, usize), DecodeError>)
        ensures
            match labels_at(mp.packet(), mp.offset(), mp.offset()) {
                Ok(found) => {
                    &&& r matches Ok((labels, inline))
                    &&& texts(labels@) == found
                    &&& mp.offset() + inline == name_end(mp.packet(), mp.offset())
                    &&& mp.offset() + inline <= mp.packet().len()
                },
                Err(e) => r matches Err(f) && f == e,
            },
    {
        let start = mp.position();
        let total = mp.total();
        let ghost packet = mp.packet();
        let mut cur = mp.clone();
        let mut limit = start;
        let mut labels: Vec<String> = Vec::new();
        let mut inline: usize = 0;
        let mut jumped = false;
        assert(forall|rest: Seq<Seq<char>>| #[trigger] (texts(labels@) + rest) =~= rest);
        loop
            invariant
                cur.packet() == packet,
                mp.packet() == packet,
                total == packet.len(),
                start == mp.offset(),
                0 <= cur.offset() <= total,
                limit <= cur.offset(),
                after(texts(labels@), labels_at(packet, cur.offset(), limit as int)) == labels_at(
                    packet,
                    start as int,
                    start as int,
                ),
                !jumped ==> cur.offset() == start + inline && name_end(packet, cur.offset())
                    == name_end(packet, start as int),
                jumped ==> start + inline == name_end(packet, start as int),
                start + inline <= total,
            decreases limit, total - cur.offset(),
        {
            let ghost pos = cur.offset();
            let ghost done = texts(labels@);
            if cur.unread() == 0 {
                return Err(DecodeError::Truncated);
            }
            let len = cur.get_u8();
            if len == 0 {
                if !jumped {
                    inline += 1;
                }
                assert(done + seq![] =~= done);
                return Ok((labels, inline));
            }
            if len >= POINTER_TAG {
                if cur.unread() == 0 {
                    return Err(DecodeError::Truncated);
                }
                let lo = cur.get_u8();
                let target = ((((len & 0x3f) as u16) << 8) | (lo as u16)) as usize;
                proof {
                    lemma_pointer_bits(len, lo);
                }
                assert(target == pointer_target(len, lo));
                if target >= limit {
                    return Err(DecodeError::BadPointer);
                }
                if !jumped {
                    inline += 2;
                    jumped = true;
                }
                cur = mp.at(target);
                limit = target;
            } else {
                if cur.unread() < len as usize {
                    return Err(DecodeError::Truncated);
                }
                let label_buff = cur.take(len as usize);
                let ghost raw = packet.subrange(pos + 1, pos + 1 + len);
                match core::str::from_utf8(as_slice(&label_buff)) {
                    Err(_) => {
                        return Err(DecodeError::InvalidLabel);
                    },
                    Ok(label) => {
                        proof {
                            vstd::utf8::encode_utf8_decode_utf8(label@);
                        }
                        assert(decode_utf8(raw) == label@);
                        labels.push(label.to_owned());
                        assert(texts(labels@) =~= done.push(decode_utf8(raw)));
                    },
                }
                if !jumped {
                    inline += 1 + len as usize;
                }
                proof {
                    let rest = labels_at(packet, pos + 1 + len, limit as int);
                    if rest is Ok {
                        assert(done + (seq![decode_utf8(raw)] + rest->Ok_0) =~= done.push(
                            decode_utf8(raw),
                        ) + rest->Ok_0);
                    }
                }
            }
        }
    }

    /// Decodes the name under the cursor and moves the cursor behind it:
    /// behind its zero byte or, where it holds a compression pointer, behind
    /// the first one.
    pub fn parse(mp: &mut MessageBytes) -> (r: Result<Self, DecodeError>)
        ensures
            final(mp).packet() == old(mp).packet(),
            DomainName::at(old(mp).packet(), old(mp).offset()) == match r {
                Ok(name) => decoded(name@, final(mp).offset()),
                Err(e) => failed(e),
            },
            r is Err ==> final(mp).offset() == old(mp).offset(),
    {
        match DomainName::internal_parse(mp) {
            Ok((labels, inline)) => {
                mp.skip(inline);
                Ok(DomainName { labels })
            },
            Err(e) => Err(e),
        }
    }

    /// Whether this name can be written: whether each of its labels takes
    /// at least one byte and fewer than `0xC0`.
    pub fn can_write(&self) -> (r: bool)
        ensures
            r == encodable(self@),
    {
        let mut i: usize = 0;
        while i < self.labels.len()
            invariant
                i <= self.labels.len(),
                forall|j: int| 0 <= j < i ==> 1 <= #[trigger] encode_utf8(self@[j]).len() < 0xC0,
            decreases self.labels.len() - i,
        {
            let bytes = self.labels[i].as_str().as_bytes();
            assert(bytes@ == encode_utf8(self@[i as int]));
            if bytes.len() == 0 || bytes.len() >= 0xC0 {
                return false;
            }
            i += 1;
        }
        true
    }

    /// Appends this name to `msg`: each label behind the count of its
    /// bytes, then a zero byte. No compression pointer is written.
    pub fn write(&self, msg: BytesMut) -> (out: BytesMut)
        requires
            encodable(self@),
        ensures
            written(&out) == written(&msg) + name_wire(self@),
    {
        let ghost before = written(&msg);
        let mut msg = msg;
        let mut i: usize = 0;
        while i < self.labels.len()
            invariant
                i <= self.labels.len(),
                encodable(self@),
                written(&msg) == before + labels_wire(self@.take(i as int)),
            decreases self.labels.len() - i,
        {
            let bytes = self.labels[i].as_str().as_bytes();
            let n = bytes.len();
            let ghost so_far = written(&msg);
            proof {
                lemma_labels_wire_push(self@.take(i as int), self@[i as int]);
                assert(self@.take(i as int).push(self@[i as int]) =~= self@.take(i + 1));
                assert(bytes@ == encode_utf8(self@[i as int]));
            }
            put_u8(&mut msg, n as u8);
            put_slice(&mut msg, bytes);
            assert(written(&msg) =~= so_far + label_wire(self@[i as int]));
            assert(written(&msg) =~= before + labels_wire(self@.take(i + 1)));
            i += 1;
        }
        assert(self@.take(i as int) =~= self@);
        put_u8(&mut msg, 0);
        assert(written(&msg) =~= before + name_wire(self@));
        msg
    }
}

} // verus!
