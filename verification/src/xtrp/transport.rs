//! Messages over a byte channel, in the head-described framing.

use vstd::prelude::*;
use crate::codec::checksum::crc32;
use crate::math::{ceil_div, div_ceil, lemma_ceil_div, lemma_piece_starts_inside};
use crate::codec::packet::fragment;
use crate::wire::{u32_le, u32_of_le};
use crate::xtrp::config::{TransportConfig, HEADER_SIZE, MESSAGE_HEAD_SIZE};
use crate::xtrp::error::{Error, ErrorKind, Result};
use crate::xtrp::io::{Read, Write};
use crate::xtrp::protocol::{
    head_record, header_bytes, lemma_header_bytes_of_fields, parse_header, reserved_zeros,
    sealed_header, MessageHead, Packet, PacketHeader, PacketType,
};

verus! {

/// Number of packets that carry `len` bytes at `max_payload` bytes each.
pub open spec fn packets_for(len: nat, max_payload: nat) -> nat
    recommends
        max_payload > 0,
{
    ceil_div(len, max_payload)
}

/// A sequence number `n` steps after `seq`, wrapping at 2^32.
pub open spec fn seq_after(seq: u32, n: nat) -> u32 {
    ((seq + n) % 0x1_0000_0000) as u32
}

/// Whether `packet` confirms the packet that was sent with sequence `seq`:
/// it is an `Ack`, and its payload opens with `seq`, least significant byte
/// first.
pub open spec fn confirms(packet: Packet, seq: u32) -> bool {
    confirming(packet.header, packet.data@, seq)
}

/// Whether a packet made of `header` and `data` confirms the packet that
/// was sent with sequence `seq`.
pub open spec fn confirming(header: PacketHeader, data: Seq<u8>, seq: u32) -> bool {
    &&& header.pkt_type == PacketType::Ack.code()
    &&& data.len() >= 4
    &&& u32_of_le(data[0], data[1], data[2], data[3]) == seq
}

/// Whether `acks` are sound packets that confirm, one each and in order,
/// the packets sent from sequence `first_seq` on.
pub open spec fn answers(acks: Seq<(PacketHeader, Seq<u8>)>, first_seq: u32) -> bool {
    forall|i: int|
        0 <= i < acks.len() ==> sound((#[trigger] acks[i]).0, acks[i].1) && confirming(
            acks[i].0,
            acks[i].1,
            seq_after(first_seq, i as nat),
        )
}

/// Whether the bytes read grew from `before` to `after` by one sound
/// packet, which confirms the packet sent with sequence `seq`.
#[verifier::opaque]
pub open spec fn answered(seq: u32, before: Seq<u8>, after: Seq<u8>) -> bool {
    exists|header: PacketHeader, data: Seq<u8>| #[trigger]
        confirming(header, data, seq) && sound(header, data) && after == before + header_bytes(
            header,
        ) + data
}

/// Whether the bytes read grew from `before` to `after` by `count` sound
/// packets, which confirm, one each and in order, the packets sent from
/// sequence `first_seq` on.
#[verifier::opaque]
pub open spec fn confirmed(first_seq: u32, count: nat, before: Seq<u8>, after: Seq<u8>) -> bool {
    exists|acks: Seq<(PacketHeader, Seq<u8>)>| #[trigger]
        answers(acks, first_seq) && acks.len() == count && after == before + packets_wire(acks)
}

/// Nothing read confirms no packet.
pub proof fn lemma_confirmed_none(first_seq: u32, taken: Seq<u8>)
    ensures
        confirmed(first_seq, 0, taken, taken),
{
    reveal(confirmed);
    let none = Seq::<(PacketHeader, Seq<u8>)>::empty();
    assert(taken =~= taken + packets_wire(none));
    assert(answers(none, first_seq) && none.len() == 0);
}

/// The confirmation of the packet sent next, read behind those of the
/// `count` packets before it, makes `count + 1` confirmations.
pub proof fn lemma_confirmed_more(
    first_seq: u32,
    count: nat,
    before: Seq<u8>,
    between: Seq<u8>,
    after: Seq<u8>,
)
    requires
        confirmed(first_seq, count, before, between),
        answered(seq_after(first_seq, count), between, after),
    ensures
        confirmed(first_seq, count + 1, before, after),
{
    reveal(confirmed);
    reveal(answered);
    let acks = choose|acks: Seq<(PacketHeader, Seq<u8>)>| #[trigger]
        answers(acks, first_seq) && acks.len() == count && between == before + packets_wire(acks);
    let (header, data) = choose|header: PacketHeader, data: Seq<u8>| #[trigger]
        confirming(header, data, seq_after(first_seq, count)) && sound(header, data) && after
            == between + header_bytes(header) + data;
    lemma_one_more_answer(acks, (header, data), first_seq);
    lemma_one_more_packet(acks, (header, data), 0, 0, before, Seq::<u8>::empty());
    let more = acks.push((header, data));
    assert(answers(more, first_seq) && more.len() == count + 1 && after == before + packets_wire(
        more,
    ));
}

/// One more confirmation, of the packet sent next, keeps `answers`.
pub proof fn lemma_one_more_answer(
    acks: Seq<(PacketHeader, Seq<u8>)>,
    ack: (PacketHeader, Seq<u8>),
    first_seq: u32,
)
    requires
        answers(acks, first_seq),
        sound(ack.0, ack.1),
        confirming(ack.0, ack.1, seq_after(first_seq, acks.len())),
    ensures
        answers(acks.push(ack), first_seq),
{
    let more = acks.push(ack);
    assert forall|i: int| 0 <= i < more.len() implies sound((#[trigger] more[i]).0, more[i].1)
        && confirming(more[i].0, more[i].1, seq_after(first_seq, i as nat)) by {
        if i < acks.len() {
            assert(more[i] == acks[i]);
        }
    }
}

/// The bytes on the wire of the packet of type `pkt_type` and sequence
/// `seq` that carries `data`: its header, then `data`.
pub open spec fn packet_wire(pkt_type: PacketType, seq: u32, data: Seq<u8>) -> Seq<u8> {
    header_bytes(sealed_header(pkt_type, seq, data.len(), crc32(data))) + data
}

/// The bytes on the wire of the confirmation, sent with sequence
/// `send_seq`, of the packet received with sequence `seq`.
pub open spec fn ack_wire(send_seq: u32, seq: u32) -> Seq<u8> {
    packet_wire(PacketType::Ack, send_seq, u32_le(seq))
}

/// The bytes on the wire of the first `count` pieces of `data`, at
/// `max_payload` bytes each, the first of them sent with sequence `seq`.
pub open spec fn pieces_wire(data: Seq<u8>, max_payload: nat, seq: u32, count: nat) -> Seq<u8>
    decreases count,
{
    if count == 0 {
        Seq::<u8>::empty()
    } else {
        pieces_wire(data, max_payload, seq, (count - 1) as nat) + packet_wire(
            PacketType::MessageData,
            seq_after(seq, (count - 1) as nat),
            fragment(data, (count - 1) as nat, max_payload),
        )
    }
}

/// The payload of the head packet of message number `id`, which announces
/// `len` bytes in `count` pieces. The count field holds the low 32 bits of
/// `count`.
pub open spec fn head_payload(len: nat, id: u64, count: nat) -> Seq<u8> {
    head_record(len as u64, id, (count % 0x1_0000_0000) as u32, 0, reserved_zeros())
}

/// Number of packets that the message of `len` bytes is sent in: one where
/// it fits in one, else the head and the pieces.
pub open spec fn message_packets(len: nat, max_payload: nat) -> nat {
    if len <= max_payload {
        1
    } else {
        1 + packets_for(len, max_payload)
    }
}

/// The bytes on the wire of the message `data`, sent as message number `id`
/// from sequence `seq` on: one `Data` packet where `data` fits in one, else
/// a head packet and the pieces.
pub open spec fn message_wire(data: Seq<u8>, max_payload: nat, seq: u32, id: u64) -> Seq<u8> {
    if data.len() <= max_payload {
        packet_wire(PacketType::Data, seq, data)
    } else {
        let count = packets_for(data.len(), max_payload);
        packet_wire(PacketType::MessageHead, seq, head_payload(data.len(), id, count))
            + pieces_wire(data, max_payload, seq_after(seq, 1), count)
    }
}

/// Taking `a` steps and then `b` is taking `a + b`.
pub proof fn lemma_seq_after_after(seq: u32, a: nat, b: nat)
    ensures
        seq_after(seq_after(seq, a), b) == seq_after(seq, a + b),
{
    let m: int = 0x1_0000_0000;
    vstd::arithmetic::div_mod::lemma_add_mod_noop((seq + a) as int, b as int, m);
    vstd::arithmetic::div_mod::lemma_mod_twice((seq + a) as int, m);
    vstd::arithmetic::div_mod::lemma_small_mod(b % (m as nat), m as nat);
    vstd::arithmetic::div_mod::lemma_add_mod_noop(((seq + a) % m) as int, b as int, m);
}

/// Packets as they were read: each header with the payload that followed.
pub open spec fn packets_wire(packets: Seq<(PacketHeader, Seq<u8>)>) -> Seq<u8>
    decreases packets.len(),
{
    if packets.len() == 0 {
        Seq::<u8>::empty()
    } else {
        packets_wire(packets.drop_last()) + header_bytes(packets.last().0) + packets.last().1
    }
}

/// The payloads of the packets from number `from` on, joined in order.
pub open spec fn payloads_from(packets: Seq<(PacketHeader, Seq<u8>)>, from: nat) -> Seq<u8>
    decreases packets.len(),
{
    if packets.len() <= from {
        Seq::<u8>::empty()
    } else {
        payloads_from(packets.drop_last(), from) + packets.last().1
    }
}

/// The confirmations of `packets`, one each, the first of them sent with
/// sequence `send_seq`.
pub open spec fn acks_wire(packets: Seq<(PacketHeader, Seq<u8>)>, send_seq: u32) -> Seq<u8>
    decreases packets.len(),
{
    if packets.len() == 0 {
        Seq::<u8>::empty()
    } else {
        acks_wire(packets.drop_last(), send_seq) + ack_wire(
            seq_after(send_seq, (packets.len() - 1) as nat),
            packets.last().0.seq,
        )
    }
}

/// What one more packet adds to the bytes read, to the payloads joined and
/// to the confirmations, behind whatever was read and written before.
pub proof fn lemma_one_more_packet(
    packets: Seq<(PacketHeader, Seq<u8>)>,
    packet: (PacketHeader, Seq<u8>),
    from: nat,
    send_seq: u32,
    taken: Seq<u8>,
    handed: Seq<u8>,
)
    requires
        from <= packets.len(),
    ensures
        taken + packets_wire(packets.push(packet)) == taken + packets_wire(packets) + header_bytes(
            packet.0,
        ) + packet.1,
        payloads_from(packets.push(packet), from) == payloads_from(packets, from) + packet.1,
        handed + acks_wire(packets.push(packet), send_seq) == handed + acks_wire(packets, send_seq)
            + ack_wire(seq_after(send_seq, packets.len()), packet.0.seq),
{
    assert(packets.push(packet).drop_last() =~= packets);
    assert(taken + packets_wire(packets.push(packet)) =~= taken + packets_wire(packets)
        + header_bytes(packet.0) + packet.1);
    assert(handed + acks_wire(packets.push(packet), send_seq) =~= handed + acks_wire(
        packets,
        send_seq,
    ) + ack_wire(seq_after(send_seq, packets.len()), packet.0.seq));
}

/// Zeros are what no payload at all gives, whatever the length wanted.
pub proof fn lemma_nothing_joined(first: (PacketHeader, Seq<u8>), zeros: Seq<u8>)
    requires
        forall|i: int| 0 <= i < zeros.len() ==> zeros[i] == 0,
    ensures
        payloads_from(seq![first], 1) == Seq::<u8>::empty(),
        zeros == cut_to(payloads_from(seq![first], 1), zeros.len()),
{
    assert(zeros =~= cut_to(Seq::<u8>::empty(), zeros.len()));
}

/// Placing the next payload keeps the bytes held equal to the payloads
/// joined so far, cut to the length wanted.
pub proof fn lemma_placed_is_cut(
    held: Seq<u8>,
    joined: Seq<u8>,
    chunk: Seq<u8>,
    offset: int,
    end: int,
    after: Seq<u8>,
)
    requires
        held == cut_to(joined, held.len()),
        offset == vstd::math::min(held.len() as int, joined.len() as int),
        end == offset + vstd::math::min(chunk.len() as int, held.len() - offset),
        after == held.subrange(0, offset) + chunk.subrange(0, end - offset) + held.subrange(
            end,
            held.len() as int,
        ),
    ensures
        after == cut_to(joined + chunk, held.len()),
        end == vstd::math::min(held.len() as int, (joined + chunk).len() as int),
{
    assert(after =~= cut_to(joined + chunk, held.len()));
}

/// The first `total` bytes of `bytes`, with zeros behind them where `bytes`
/// is shorter.
pub open spec fn cut_to(bytes: Seq<u8>, total: nat) -> Seq<u8> {
    Seq::new(
        total,
        |i: int|
            if i < bytes.len() {
                bytes[i]
            } else {
                0u8
            },
    )
}

/// The length of the message that a head payload announces, as far as this
/// machine can hold it.
pub open spec fn announced_len(head: Seq<u8>) -> nat
    recommends
        head.len() >= 32,
{
    (crate::wire::u64_of_le(head.subrange(0, 8)) as usize) as nat
}

/// The number of pieces that a head payload announces.
pub open spec fn announced_count(head: Seq<u8>) -> nat
    recommends
        head.len() >= 32,
{
    u32_of_le(head[16], head[17], head[18], head[19]) as nat
}

/// Whether `packets`, read in this order, are one message, and `message`
/// is what they carry. They are either one `Data` packet, whose payload is
/// the message, or a `MessageHead` packet and the `MessageData` packets that
/// it announces, whose payloads joined and cut to the announced length are
/// the message.
pub open spec fn spells(packets: Seq<(PacketHeader, Seq<u8>)>, message: Seq<u8>) -> bool {
    &&& packets.len() >= 1
    &&& forall|i: int| 0 <= i < packets.len() ==> sound((#[trigger] packets[i]).0, packets[i].1)
    &&& if packets[0].0.pkt_type == PacketType::Data.code() {
        &&& packets.len() == 1
        &&& message == packets[0].1
    } else {
        &&& packets[0].0.pkt_type == PacketType::MessageHead.code()
        &&& packets[0].1.len() >= MESSAGE_HEAD_SIZE
        &&& packets.len() == 1 + announced_count(packets[0].1)
        &&& forall|i: int|
            1 <= i < packets.len() ==> (#[trigger] packets[i]).0.pkt_type
                == PacketType::MessageData.code()
        &&& message == cut_to(payloads_from(packets, 1), announced_len(packets[0].1))
    }
}

/// Whether `packets` are the packet `first` and `count` sound `MessageData`
/// packets behind it, whose payloads joined and cut to `total` bytes are
/// `message`.
pub open spec fn follows(
    packets: Seq<(PacketHeader, Seq<u8>)>,
    first: (PacketHeader, Seq<u8>),
    count: nat,
    total: nat,
    message: Seq<u8>,
) -> bool {
    &&& packets.len() == 1 + count
    &&& packets[0] == first
    &&& forall|i: int|
        1 <= i < packets.len() ==> sound((#[trigger] packets[i]).0, packets[i].1)
            && packets[i].0.pkt_type == PacketType::MessageData.code()
    &&& message == cut_to(payloads_from(packets, 1), total)
}

/// Whether `n` bytes, as many as there are in `source` or as the buffer
/// takes, went from the front of `source` to the front of a buffer that
/// held `before` and now holds `after`, and `rest` is what is left of
/// `source`.
pub open spec fn handed_out(
    source: Seq<u8>,
    before: Seq<u8>,
    after: Seq<u8>,
    rest: Seq<u8>,
    n: usize,
) -> bool {
    &&& n == vstd::math::min(before.len() as int, source.len() as int)
    &&& after == source.subrange(0, n as int) + before.subrange(n as int, before.len() as int)
    &&& rest == source.subrange(n as int, source.len() as int)
}

/// The payload of the head packet of message number `id`, which announces
/// `len` bytes in `count` pieces.
pub fn announcement(len: usize, id: u64, count: usize) -> (bytes: [u8; MESSAGE_HEAD_SIZE])
    ensures
        bytes@ == head_payload(len as nat, id, count as nat),
{
    let announced = (count as u64 % 0x1_0000_0000) as u32;
    let head = MessageHead::new(len as u64, id, announced);
    head.to_bytes()
}

/// Reads what the payload of a head packet announces: the length of the
/// message, as far as this machine can hold it, and the number of its
/// pieces. A payload shorter than a head record is an invalid packet;
/// what follows the record is ignored.
pub fn announced(payload: &[u8]) -> (r: Result<(usize, u32)>)
    ensures
        r is Ok <==> payload@.len() >= MESSAGE_HEAD_SIZE,
        r matches Ok(found) ==> found.0 == announced_len(payload@) && found.1 == announced_count(
            payload@,
        ),
        r matches Err(e) ==> e.spec_kind() == ErrorKind::InvalidPacket,
{
    if payload.len() < MESSAGE_HEAD_SIZE {
        return Err(Error::new(ErrorKind::InvalidPacket));
    }
    let mut head_bytes = [0u8;MESSAGE_HEAD_SIZE];
    let mut i: usize = 0;
    while i < MESSAGE_HEAD_SIZE
        invariant
            i <= MESSAGE_HEAD_SIZE,
            payload@.len() >= MESSAGE_HEAD_SIZE,
            forall|k: int| 0 <= k < i ==> head_bytes@[k] == payload@[k],
        decreases MESSAGE_HEAD_SIZE - i,
    {
        head_bytes[i] = payload[i];
        i = i + 1;
    }
    let head = match MessageHead::from_bytes(&head_bytes) {
        Ok(h) => h,
        Err(e) => {
            return Err(e);
        },
    };
    let total = #[verifier::truncate] (head.total_length as usize);
    proof {
        assert(head_bytes@.subrange(0, 8) =~= payload@.subrange(0, 8));
    }
    Ok((total, head.packet_count))
}

/// How a message opens.
#[derive(Debug, Clone, Copy, PartialEq, Eq, Structural)]
pub enum Opening {
    /// With a `Data` packet, which is the whole message.
    Whole,
    /// With a `MessageHead` packet, which announces the pieces.
    Announced,
}

/// How the message opens whose first packet has a header of type
/// `pkt_type`, if such a packet may open one.
pub open spec fn opening_of(pkt_type: u8) -> Option<Opening> {
    match PacketType::of_code(pkt_type) {
        Some(PacketType::Data) => Some(Opening::Whole),
        Some(PacketType::MessageHead) => Some(Opening::Announced),
        _ => None,
    }
}

/// Tests the header of the packet that opens a message, before its
/// payload is read: a `Data` packet is a whole message, a `MessageHead`
/// packet announces one, and any other packet is an invalid packet.
pub fn opening(header: &PacketHeader) -> (r: Result<Opening>)
    ensures
        match opening_of(header.pkt_type) {
            Some(o) => r == Ok::<Opening, Error>(o),
            None => r matches Err(e) && e.spec_kind() == ErrorKind::InvalidPacket,
        },
{
    match PacketType::from_u8(header.pkt_type) {
        Some(PacketType::Data) => Ok(Opening::Whole),
        Some(PacketType::MessageHead) => Ok(Opening::Announced),
        _ => Err(Error::new(ErrorKind::InvalidPacket)),
    }
}

/// Tests the header of a packet that is to be a piece of a message,
/// before its payload is read: anything but a `MessageData` packet is an
/// invalid packet.
pub fn piece_of(header: &PacketHeader) -> (r: Result<()>)
    ensures
        r is Ok <==> header.pkt_type == PacketType::MessageData.code(),
        r matches Err(e) ==> e.spec_kind() == ErrorKind::InvalidPacket,
{
    match PacketType::from_u8(header.pkt_type) {
        Some(PacketType::MessageData) => Ok(()),
        _ => Err(Error::new(ErrorKind::InvalidPacket)),
    }
}

/// Whether a packet with a header of type `pkt_type` may stand where it
/// stands: as the first packet of a message, or as a piece.
pub open spec fn may_stand(first: bool, pkt_type: u8) -> bool {
    if first {
        opening_of(pkt_type) is Some
    } else {
        pkt_type == PacketType::MessageData.code()
    }
}

/// Whether the bytes `rest`, read behind the packets that were taken
/// whole, explain a failure of kind `kind`. `first` says whether they
/// stand where a message opens.
///
/// Nothing read behind the packets explains any failure: the channel
/// failed, or a confirmation did not go out, or a head record was too
/// short. A header alone explains the error of reading it, an invalid
/// packet where its type may not stand there, and any failure where its
/// payload was still to come. A header with all of its payload explains a
/// checksum mismatch, which it then is.
pub open spec fn explains(first: bool, rest: Seq<u8>, kind: ErrorKind) -> bool {
    ||| rest.len() == 0
    ||| rest.len() >= 16 && (match parse_header(rest.subrange(0, 16)) {
        Err(k) => rest.len() == 16 && kind == k,
        Ok(h) => if !may_stand(first, h.pkt_type) {
            rest.len() == 16 && kind == ErrorKind::InvalidPacket
        } else {
            ||| rest.len() == 16 && h.length > 0
            ||| rest.len() == 16 + h.length && h.crc32 != crc32(
                rest.subrange(16, rest.len() as int),
            ) && kind == ErrorKind::CrcMismatch
        },
    })
}

/// A front of a front is a front.
pub proof fn lemma_front_of_front(a: Seq<u8>, b: Seq<u8>, c: Seq<u8>)
    requires
        a.is_prefix_of(b),
        b.is_prefix_of(c),
    ensures
        a.is_prefix_of(c),
{
    assert(a =~= c.subrange(0, a.len() as int));
}

/// The bytes of a packet on the wire: its header, then its payload.
pub fn packet_bytes(packet: &Packet) -> (bytes: Vec<u8>)
    ensures
        bytes@ == header_bytes(packet.header) + packet.data@,
{
    let header = packet.header.to_bytes();
    let mut bytes: Vec<u8> = Vec::new();
    let mut i: usize = 0;
    while i < HEADER_SIZE
        invariant
            i <= HEADER_SIZE,
            header@ == header_bytes(packet.header),
            bytes@ == header@.subrange(0, i as int),
        decreases HEADER_SIZE - i,
    {
        bytes.push(header[i]);
        assert(bytes@ =~= header@.subrange(0, i + 1));
        i = i + 1;
    }
    assert(bytes@ =~= header@);
    let mut k: usize = 0;
    while k < packet.data.len()
        invariant
            k <= packet.data@.len(),
            bytes@ == header_bytes(packet.header) + packet.data@.subrange(0, k as int),
        decreases packet.data@.len() - k,
    {
        bytes.push(packet.data[k]);
        assert(bytes@ =~= header_bytes(packet.header) + packet.data@.subrange(0, k + 1));
        k = k + 1;
    }
    assert(packet.data@.subrange(0, packet.data@.len() as int) =~= packet.data@);
    bytes
}

/// Whether `header` is a header of this framing that announces `data`: the
/// magic number and the version are right, and the length and the checksum
/// are those of `data`.
pub open spec fn sound(header: PacketHeader, data: Seq<u8>) -> bool {
    &&& header.magic == crate::xtrp::config::MAGIC
    &&& header.version == crate::xtrp::config::VERSION
    &&& header.length == data.len()
    &&& header.crc32 == crc32(data)
}

/// Tests the answer to a packet sent with sequence `seq`: anything but its
/// confirmation is an invalid packet.
pub fn check_ack(answer: &Packet, seq: u32) -> (r: Result<()>)
    ensures
        r is Ok <==> confirms(*answer, seq),
        r matches Err(e) ==> e.spec_kind() == ErrorKind::InvalidPacket,
{
    if answer.header.pkt_type != PacketType::Ack.to_u8() {
        return Err(Error::new(ErrorKind::InvalidPacket));
    }
    if answer.data.len() < 4 {
        return Err(Error::new(ErrorKind::InvalidPacket));
    }
    let ack_seq = crate::wire::get_u32_le(answer.data.as_slice(), 0);
    if ack_seq != seq {
        return Err(Error::new(ErrorKind::InvalidPacket));
    }
    Ok(())
}

/// Joins a header to the payload read for it, and tests the checksum.
pub fn sealed_packet(header: PacketHeader, data: Vec<u8>) -> (r: Result<Packet>)
    ensures
        r is Ok <==> header.crc32 == crc32(data@),
        r matches Ok(p) ==> p.header == header && p.data@ == data@,
        r matches Err(e) ==> e.spec_kind() == ErrorKind::CrcMismatch,
{
    let packet = Packet { header, data };
    if !packet.verify_crc() {
        return Err(Error::new(ErrorKind::CrcMismatch));
    }
    Ok(packet)
}

/// Number of packets that carry `len` bytes at `max_payload` bytes each.
pub fn packet_count(len: usize, max_payload: usize) -> (n: usize)
    requires
        max_payload > 0,
    ensures
        n == packets_for(len as nat, max_payload as nat),
        n * max_payload >= len,
        len > 0 ==> (n - 1) * max_payload < len,
{
    proof {
        lemma_ceil_div(len as nat, max_payload as nat);
    }
    div_ceil(len, max_payload)
}

/// Copies into `result`, from `offset` on, as much of `chunk` as still
/// fits, and returns the offset behind what was copied.
pub fn place_chunk(result: &mut Vec<u8>, offset: usize, chunk: &[u8]) -> (end: usize)
    requires
        offset <= old(result)@.len(),
    ensures
        end == offset + vstd::math::min(chunk@.len() as int, old(result)@.len() - offset),
        final(result)@ == old(result)@.subrange(0, offset as int) + chunk@.subrange(
            0,
            end - offset,
        ) + old(result)@.subrange(end as int, old(result)@.len() as int),
{
    let room = result.len() - offset;
    let to_copy = if chunk.len() < room {
        chunk.len()
    } else {
        room
    };
    let mut i: usize = 0;
    while i < to_copy
        invariant
            i <= to_copy,
            to_copy <= chunk@.len(),
            offset + to_copy <= result@.len() <= usize::MAX,
            result@.len() == old(result)@.len(),
            result@ == old(result)@.subrange(0, offset as int) + chunk@.subrange(0, i as int)
                + old(result)@.subrange(offset + i, old(result)@.len() as int),
        decreases to_copy - i,
    {
        result[offset + i] = chunk[i];
        assert(result@ =~= old(result)@.subrange(0, offset as int) + chunk@.subrange(0, i + 1)
            + old(result)@.subrange(offset + i + 1, old(result)@.len() as int));
        i = i + 1;
    }
    offset + to_copy
}

/// The payload of the last packet taken by `read`, and how far it has been
/// handed out.
struct Pending {
    bytes: Vec<u8>,
    pos: usize,
}

impl Pending {
    #[verifier::type_invariant]
    spec fn inv(self) -> bool {
        self.pos <= self.bytes@.len()
    }

    /// The bytes not handed out yet.
    closed spec fn left(&self) -> Seq<u8> {
        self.bytes@.subrange(self.pos as int, self.bytes@.len() as int)
    }

    fn new() -> (p: Self)
        ensures
            p.left() == Seq::<u8>::empty(),
    {
        let p = Pending { bytes: Vec::new(), pos: 0 };
        assert(p.left() =~= Seq::<u8>::empty());
        p
    }

    fn is_used_up(&self) -> (b: bool)
        ensures
            b == (self.left().len() == 0),
    {
        proof {
            use_type_invariant(self);
        }
        self.pos >= self.bytes.len()
    }

    fn refill(&mut self, data: Vec<u8>)
        ensures
            final(self).left() == data@,
    {
        proof {
            use_type_invariant(&*self);
        }
        self.pos = 0;
        self.bytes = data;
        assert(self.left() =~= data@);
    }

    /// Moves bytes to the front of `buf`: as many as are left, or as `buf`
    /// takes.
    fn take(&mut self, buf: &mut [u8]) -> (n: usize)
        ensures
            n == vstd::math::min(old(buf)@.len() as int, old(self).left().len() as int),
            final(buf)@ == old(self).left().subrange(0, n as int) + old(buf)@.subrange(
                n as int,
                old(buf)@.len() as int,
            ),
            final(self).left() == old(self).left().subrange(
                n as int,
                old(self).left().len() as int,
            ),
    {
        proof {
            use_type_invariant(&*self);
        }
        let left = self.bytes.len() - self.pos;
        let n = if buf.len() < left {
            buf.len()
        } else {
            left
        };
        let mut i: usize = 0;
        while i < n
            invariant
                i <= n,
                n <= buf@.len(),
                buf@.len() == old(buf)@.len(),
                self.pos + n <= self.bytes@.len() <= usize::MAX,
                self.pos == old(self).pos,
                self.bytes@ == old(self).bytes@,
                buf@ == old(self).left().subrange(0, i as int) + old(buf)@.subrange(
                    i as int,
                    old(buf)@.len() as int,
                ),
            decreases n - i,
        {
            buf[i] = self.bytes[self.pos + i];
            assert(buf@ =~= old(self).left().subrange(0, i + 1) + old(buf)@.subrange(
                i + 1,
                old(buf)@.len() as int,
            ));
            i = i + 1;
        }
        self.pos = self.pos + n;
        assert(self.left() =~= old(self).left().subrange(n as int, old(self).left().len() as int));
        n
    }
}

/// A transport that sends and receives whole messages over a byte channel.
pub struct XTransport<T> {
    inner: T,
    send_seq: u32,
    recv_seq: u32,
    next_message_id: u64,
    pending: Pending,
    config: TransportConfig,
    handed: Ghost<Seq<u8>>,
    taken: Ghost<Seq<u8>>,
}

impl<T: Read + Write> XTransport<T> {
    /// Sequence number of the next packet to send.
    pub closed spec fn send_seq(&self) -> u32 {
        self.send_seq
    }

    /// Sequence number expected after the last packet taken by `read`.
    pub closed spec fn recv_seq(&self) -> u32 {
        self.recv_seq
    }

    /// Number of the next large message.
    pub closed spec fn next_message_id(&self) -> u64 {
        self.next_message_id
    }

    /// Most payload bytes a packet carries.
    pub closed spec fn max_payload(&self) -> usize {
        self.config.max_payload_size
    }

    /// Whether every packet is confirmed.
    pub closed spec fn waits_for_ack(&self) -> bool {
        self.config.wait_for_ack
    }

    /// Bytes of the last packet that `read` has not handed out yet.
    pub closed spec fn unread(&self) -> Seq<u8> {
        self.pending.left()
    }

    /// Every byte that this transport has offered to its channel for
    /// writing, in order, whether or not the channel took it.
    pub closed spec fn handed(&self) -> Seq<u8> {
        self.handed@
    }

    /// Every byte that this transport has read from its channel, in order:
    /// the headers and payloads that were read whole.
    pub closed spec fn taken(&self) -> Seq<u8> {
        self.taken@
    }

    /// Whether `self` is `before` after it has read `packets` and nothing
    /// else, and has confirmed each of them where packets are confirmed.
    pub open spec fn has_read(&self, before: &Self, packets: Seq<(PacketHeader, Seq<u8>)>) -> bool {
        &&& self.taken() == before.taken() + packets_wire(packets)
        &&& before.waits_for_ack() ==> self.handed() == before.handed() + acks_wire(
            packets,
            before.send_seq(),
        ) && self.send_seq() == seq_after(before.send_seq(), packets.len())
    }

    /// Whether `self` is `before` after it has read the packet made of
    /// `header` and `data`, of any known type, and has confirmed it where
    /// packets are confirmed and it is no confirmation itself.
    pub open spec fn has_taken(&self, before: &Self, header: PacketHeader, data: Seq<u8>) -> bool {
        let confirmed = before.waits_for_ack() && header.pkt_type != PacketType::Ack.code();
        &&& sound(header, data)
        &&& PacketType::of_code(header.pkt_type) is Some
        &&& self.taken() == before.taken() + header_bytes(header) + data
        &&& self.recv_seq() == seq_after(header.seq, 1)
        &&& self.handed() == before.handed() + (if confirmed {
            ack_wire(before.send_seq(), header.seq)
        } else {
            Seq::<u8>::empty()
        })
        &&& self.send_seq() == (if confirmed {
            seq_after(before.send_seq(), 1)
        } else {
            before.send_seq()
        })
    }

    /// Whether `self` is `before` after it has read one packet, as
    /// `has_taken` says, and has moved the front of its payload to a buffer
    /// that held `buf_before` and now holds `buf_after`, `n` bytes in all.
    pub open spec fn has_fetched(
        &self,
        before: &Self,
        buf_before: Seq<u8>,
        buf_after: Seq<u8>,
        n: usize,
    ) -> bool {
        exists|header: PacketHeader, data: Seq<u8>| #[trigger]
            self.has_taken(before, header, data) && handed_out(
                data,
                buf_before,
                buf_after,
                self.unread(),
                n,
            )
    }

    /// Whether `self` is `before` after it has read the confirmation of the
    /// packet that `before` sends next, where packets are confirmed, and
    /// nothing else.
    pub open spec fn has_answer(&self, before: &Self) -> bool {
        if before.waits_for_ack() {
            answered(before.send_seq(), before.taken(), self.taken())
        } else {
            self.taken() == before.taken()
        }
    }

    /// Whether `self` is `before` after it has read the confirmations of
    /// the `count` packets that `before` sends next, where packets are
    /// confirmed, and nothing else.
    pub open spec fn has_confirmed(&self, before: &Self, count: nat) -> bool {
        if before.waits_for_ack() {
            confirmed(before.send_seq(), count, before.taken(), self.taken())
        } else {
            self.taken() == before.taken()
        }
    }

    /// Whether `self` is `before` after it has read `packets`, all sound,
    /// and maybe more, and has confirmed `packets` and nothing else where
    /// packets are confirmed.
    pub open spec fn confirmed_so_far(
        &self,
        before: &Self,
        packets: Seq<(PacketHeader, Seq<u8>)>,
    ) -> bool {
        &&& forall|i: int| 0 <= i < packets.len() ==> sound((#[trigger] packets[i]).0, packets[i].1)
        &&& (before.taken() + packets_wire(packets)).is_prefix_of(self.taken())
        &&& self.handed() == (if before.waits_for_ack() {
            before.handed() + acks_wire(packets, before.send_seq())
        } else {
            before.handed()
        })
    }

    /// Whether `self` is `before` after it has read `packets`, all sound,
    /// and behind them the bytes `rest`, and has confirmed `packets` and
    /// nothing else where packets are confirmed.
    pub open spec fn stopped(
        &self,
        before: &Self,
        packets: Seq<(PacketHeader, Seq<u8>)>,
        rest: Seq<u8>,
    ) -> bool {
        &&& self.confirmed_so_far(before, packets)
        &&& self.taken() == before.taken() + packets_wire(packets) + rest
    }

    /// What holds of `self` where reading a message has failed with an
    /// error of kind `kind` since it was `before`: only packets that were
    /// read whole and passed their checksum test have been confirmed, one
    /// confirmation each and in order, and what was read behind them
    /// explains the failure, as `explains` says. A packet that failed has
    /// not been confirmed.
    pub open spec fn has_failed(&self, before: &Self, kind: ErrorKind) -> bool {
        exists|packets: Seq<(PacketHeader, Seq<u8>)>, rest: Seq<u8>| #[trigger]
            self.stopped(before, packets, rest) && explains(packets.len() == 0, rest, kind)
    }

    /// What holds of `self` where reading a header has failed with an
    /// error of kind `kind` since it was `before`: either no header was
    /// read whole, or sixteen bytes were, and reading them as a header
    /// gives that error.
    pub open spec fn header_failed(&self, before: &Self, kind: ErrorKind) -> bool {
        ||| self.taken() == before.taken()
        ||| exists|bytes: Seq<u8>| #[trigger]
            parse_header(bytes) == Err::<PacketHeader, ErrorKind>(kind) && bytes.len() == 16
                && self.taken() == before.taken() + bytes
    }

    /// What holds of `self` where reading the payload that `header`
    /// announces has failed with an error of kind `kind` since it was
    /// `before`: either the payload, which is not empty, was not read
    /// whole, or it was, and its checksum is not the one in the header,
    /// which is a checksum mismatch.
    pub open spec fn payload_refused(&self, before: &Self, header: PacketHeader, kind: ErrorKind) -> bool {
        ||| self.taken() == before.taken() && header.length > 0
        ||| exists|data: Seq<u8>| #[trigger]
            crc32(data) != header.crc32 && data.len() == header.length && self.taken()
                == before.taken() + data && kind == ErrorKind::CrcMismatch
    }

    /// Whether `self` is `before` after the payload `data` of the packet
    /// with header `header` has been read and found sound, and its
    /// confirmation has been offered to the channel.
    pub open spec fn has_offered_ack(&self, before: &Self, header: PacketHeader, data: Seq<u8>) -> bool {
        &&& before.waits_for_ack()
        &&& sound(header, data)
        &&& self.taken() == before.taken() + data
        &&& self.handed() == before.handed() + ack_wire(before.send_seq(), header.seq)
        &&& self.send_seq() == seq_after(before.send_seq(), 1)
    }

    /// What holds of `self` where reading and confirming the payload of the
    /// packet with header `header` has failed since it was `before`:
    /// either nothing was offered to the channel, or the payload was sound
    /// and it was the confirmation that the channel did not take.
    pub open spec fn payload_failed(&self, before: &Self, header: PacketHeader, kind: ErrorKind) -> bool {
        ||| (self.handed() == before.handed() && self.send_seq() == before.send_seq()
            && self.payload_refused(before, header, kind))
        ||| exists|data: Seq<u8>| #[trigger] self.has_offered_ack(before, header, data)
    }

    /// Whether `self` is `before` with nothing read or written since.
    pub open spec fn same_traffic(&self, before: &Self) -> bool {
        &&& self.handed() == before.handed()
        &&& self.taken() == before.taken()
        &&& self.send_seq() == before.send_seq()
        &&& self.recv_seq() == before.recv_seq()
    }

    /// Whether `self` is `before` after it has read one message, `message`,
    /// and nothing else.
    pub open spec fn has_read_message(&self, before: &Self, message: Seq<u8>) -> bool {
        exists|packets: Seq<(PacketHeader, Seq<u8>)>| #[trigger]
            spells(packets, message) && self.has_read(before, packets)
    }

    /// Whether `self` is `before` after it has read the packet `first` and
    /// `count` pieces that make up `message`.
    pub open spec fn has_read_pieces(
        &self,
        before: &Self,
        first: (PacketHeader, Seq<u8>),
        count: nat,
        total: nat,
        message: Seq<u8>,
    ) -> bool {
        exists|packets: Seq<(PacketHeader, Seq<u8>)>| #[trigger]
            follows(packets, first, count, total, message) && self.has_read(before, packets)
    }

    /// What the options and counters of `self` and `other` have in common
    /// when a call has only moved bytes.
    pub open spec fn same_options(&self, other: &Self) -> bool {
        &&& self.max_payload() == other.max_payload()
        &&& self.waits_for_ack() == other.waits_for_ack()
    }

    pub fn new(inner: T, config: TransportConfig) -> (t: Self)
        ensures
            t.send_seq() == 0,
            t.recv_seq() == 0,
            t.next_message_id() == 1,
            t.max_payload() == config.max_payload_size,
            t.waits_for_ack() == config.wait_for_ack,
            t.unread() == Seq::<u8>::empty(),
            t.handed() == Seq::<u8>::empty(),
            t.taken() == Seq::<u8>::empty(),
    {
        let t = XTransport {
            inner,
            send_seq: 0,
            recv_seq: 0,
            next_message_id: 1,
            pending: Pending::new(),
            config,
            handed: Ghost(Seq::empty()),
            taken: Ghost(Seq::empty()),
        };
        t
    }

    /// The byte channel underneath.
    pub closed spec fn spec_inner(&self) -> T {
        self.inner
    }

    /// The byte channel underneath.
    pub fn inner(&self) -> (t: &T)
        ensures
            *t == self.spec_inner(),
    {
        &self.inner
    }

    /// The byte channel underneath, to call or to change.
    pub fn inner_mut(&mut self) -> (t: &mut T)
        ensures
            *t == old(self).spec_inner(),
            final(self).spec_inner() == *final(t),
            final(self).send_seq() == old(self).send_seq(),
            final(self).recv_seq() == old(self).recv_seq(),
            final(self).next_message_id() == old(self).next_message_id(),
            final(self).same_options(old(self)),
            final(self).unread() == old(self).unread(),
            final(self).handed() == old(self).handed(),
            final(self).taken() == old(self).taken(),
    {
        &mut self.inner
    }

    /// Gives the byte channel back. Payload bytes not yet read are lost.
    pub fn into_inner(self) -> (t: T)
        ensures
            t == self.spec_inner(),
    {
        self.inner
    }

    /// Sends one packet and, where packets are confirmed and this is none
    /// itself, waits for its confirmation. The sequence number is taken
    /// whether or not the channel accepts the bytes.
    fn send_packet(&mut self, pkt_type: PacketType, data: &[u8]) -> (r: Result<()>)
        ensures
            final(self).send_seq() == seq_after(old(self).send_seq(), 1),
            final(self).recv_seq() == old(self).recv_seq(),
            final(self).next_message_id() == old(self).next_message_id(),
            final(self).same_options(old(self)),
            final(self).unread() == old(self).unread(),
            final(self).handed() == old(self).handed() + packet_wire(
                pkt_type,
                old(self).send_seq(),
                data@,
            ),
            old(self).taken().is_prefix_of(final(self).taken()),
            !old(self).waits_for_ack() || pkt_type == PacketType::Ack ==> final(self).taken() == old(self).taken(),
            r is Ok && pkt_type != PacketType::Ack ==> final(self).has_answer(old(self)),
    {
        let packet = Packet::new(pkt_type, self.send_seq, vstd::slice::slice_to_vec(data));
        let seq = packet.header.seq;
        self.send_seq = self.send_seq.wrapping_add(1);
        let combined = packet_bytes(&packet);
        self.handed = Ghost(self.handed@ + combined@);
        match self.inner.write_all(combined.as_slice()) {
            Ok(()) => {},
            Err(e) => {
                return Err(e);
            },
        }
        if self.config.wait_for_ack && pkt_type.to_u8() != PacketType::Ack.to_u8() {
            match self.recv_packet_internal() {
                Ok(answer) => {
                    let checked = check_ack(&answer, seq);
                    proof {
                        if checked is Ok {
                            assert(seq == old(self).send_seq());
                            assert(confirming(answer.header, answer.data@, old(self).send_seq()));
                            assert(sound(answer.header, answer.data@));
                            assert(self.taken() == old(self).taken() + header_bytes(answer.header)
                                + answer.data@);
                            reveal(answered);
                            assert(self.has_answer(old(self)));
                        }
                    }
                    return checked;
                },
                Err(e) => {
                    return Err(e);
                },
            }
        }
        Ok(())
    }

    /// Confirms the packet received with sequence `seq`.
    fn send_ack(&mut self, seq: u32) -> (r: Result<()>)
        ensures
            final(self).send_seq() == seq_after(old(self).send_seq(), 1),
            final(self).recv_seq() == old(self).recv_seq(),
            final(self).next_message_id() == old(self).next_message_id(),
            final(self).same_options(old(self)),
            final(self).unread() == old(self).unread(),
            final(self).handed() == old(self).handed() + ack_wire(old(self).send_seq(), seq),
            final(self).taken() == old(self).taken(),
    {
        let mut ack_data: Vec<u8> = Vec::new();
        ack_data.push((seq % 0x100) as u8);
        ack_data.push((seq / 0x100 % 0x100) as u8);
        ack_data.push((seq / 0x1_0000 % 0x100) as u8);
        ack_data.push((seq / 0x100_0000) as u8);
        assert(ack_data@ =~= u32_le(seq));
        let packet = Packet::new(PacketType::Ack, self.send_seq, ack_data);
        self.send_seq = self.send_seq.wrapping_add(1);
        let combined = packet_bytes(&packet);
        self.handed = Ghost(self.handed@ + combined@);
        self.inner.write_all(combined.as_slice())
    }

    /// Reads the header of the next packet.
    fn read_header(&mut self) -> (r: Result<PacketHeader>)
        ensures
            final(self).send_seq() == old(self).send_seq(),
            final(self).recv_seq() == old(self).recv_seq(),
            final(self).next_message_id() == old(self).next_message_id(),
            final(self).same_options(old(self)),
            final(self).unread() == old(self).unread(),
            final(self).handed() == old(self).handed(),
            old(self).taken().is_prefix_of(final(self).taken()),
            r matches Ok(h) ==> h.magic == crate::xtrp::config::MAGIC && h.version
                == crate::xtrp::config::VERSION && final(self).taken() == old(self).taken()
                + header_bytes(h),
            r matches Err(e) ==> final(self).header_failed(old(self), e.spec_kind()),
    {
        let mut header_buf = [0u8;HEADER_SIZE];
        match self.inner.read_exact(&mut header_buf) {
            Ok(()) => {},
            Err(e) => {
                return Err(e);
            },
        }
        self.taken = Ghost(self.taken@ + header_buf@);
        proof {
            lemma_header_bytes_of_fields(header_buf@);
        }
        let r = PacketHeader::from_bytes(&header_buf);
        proof {
            if r is Err {
                assert(parse_header(header_buf@) == Err::<PacketHeader, ErrorKind>(
                    r->Err_0.spec_kind(),
                ));
            }
        }
        r
    }

    /// Reads the payload that `header` announces, and tests its checksum.
    fn read_payload(&mut self, header: PacketHeader) -> (r: Result<Packet>)
        requires
            header.magic == crate::xtrp::config::MAGIC,
            header.version == crate::xtrp::config::VERSION,
        ensures
            final(self).send_seq() == old(self).send_seq(),
            final(self).recv_seq() == old(self).recv_seq(),
            final(self).next_message_id() == old(self).next_message_id(),
            final(self).same_options(old(self)),
            final(self).unread() == old(self).unread(),
            final(self).handed() == old(self).handed(),
            old(self).taken().is_prefix_of(final(self).taken()),
            r matches Ok(p) ==> p.header == header && sound(p.header, p.data@)
                && final(self).taken() == old(self).taken() + p.data@,
            r matches Err(e) ==> final(self).payload_refused(old(self), header, e.spec_kind()),
    {
        let mut data: Vec<u8> = vec![0u8; header.length as usize];
        match self.inner.read_exact(data.as_mut_slice()) {
            Ok(()) => {},
            Err(e) => {
                return Err(e);
            },
        }
        self.taken = Ghost(self.taken@ + data@);
        let ghost read = data@;
        let r = sealed_packet(header, data);
        proof {
            if r is Err {
                assert(crc32(read) != header.crc32 && read.len() == header.length);
            }
        }
        r
    }

    /// Reads the payload that `header` announces, tests its checksum, and
    /// confirms the packet where packets are confirmed.
    fn read_confirmed(&mut self, header: PacketHeader) -> (r: Result<Packet>)
        requires
            header.magic == crate::xtrp::config::MAGIC,
            header.version == crate::xtrp::config::VERSION,
        ensures
            final(self).recv_seq() == old(self).recv_seq(),
            final(self).next_message_id() == old(self).next_message_id(),
            final(self).same_options(old(self)),
            final(self).unread() == old(self).unread(),
            old(self).taken().is_prefix_of(final(self).taken()),
            old(self).handed().is_prefix_of(final(self).handed()),
            !old(self).waits_for_ack() ==> final(self).send_seq() == old(self).send_seq()
                && final(self).handed() == old(self).handed(),
            r matches Ok(p) ==> p.header == header && sound(p.header, p.data@)
                && final(self).taken() == old(self).taken() + p.data@
                && (old(self).waits_for_ack()
                ==> final(self).handed() == old(self).handed()
                + ack_wire(old(self).send_seq(), header.seq)
                && final(self).send_seq() == seq_after(old(self).send_seq(), 1)),
            r matches Err(e) ==> final(self).payload_failed(old(self), header, e.spec_kind()),
    {
        let packet = match self.read_payload(header) {
            Ok(p) => p,
            Err(e) => {
                return Err(e);
            },
        };
        if self.config.wait_for_ack {
            match self.send_ack(header.seq) {
                Ok(()) => {},
                Err(e) => {
                    assert(self.has_offered_ack(old(self), header, packet.data@));
                    return Err(e);
                },
            }
        }
        Ok(packet)
    }

    /// Reads one packet, header first, and tests its checksum.
    fn recv_packet_internal(&mut self) -> (r: Result<Packet>)
        ensures
            final(self).send_seq() == old(self).send_seq(),
            final(self).recv_seq() == old(self).recv_seq(),
            final(self).next_message_id() == old(self).next_message_id(),
            final(self).same_options(old(self)),
            final(self).unread() == old(self).unread(),
            final(self).handed() == old(self).handed(),
            old(self).taken().is_prefix_of(final(self).taken()),
            r matches Ok(p) ==> sound(p.header, p.data@)
                && final(self).taken() == old(self).taken() + header_bytes(p.header) + p.data@,
    {
        let header = match self.read_header() {
            Ok(h) => h,
            Err(e) => {
                return Err(e);
            },
        };
        let ghost read = self.taken();
        let r = self.read_payload(header);
        proof {
            lemma_front_of_front(old(self).taken(), read, self.taken());
        }
        r
    }

    /// Reads one packet and confirms it where packets are confirmed.
    fn recv_packet(&mut self) -> (r: Result<Packet>)
        ensures
            final(self).next_message_id() == old(self).next_message_id(),
            final(self).same_options(old(self)),
            final(self).unread() == old(self).unread(),
            old(self).taken().is_prefix_of(final(self).taken()),
            old(self).handed().is_prefix_of(final(self).handed()),
            !old(self).waits_for_ack() ==> final(self).handed() == old(self).handed(),
            !old(self).waits_for_ack() ==> final(self).send_seq() == old(self).send_seq(),
            r is Err ==> final(self).recv_seq() == old(self).recv_seq(),
            r matches Ok(p) ==> final(self).has_taken(old(self), p.header, p.data@),
    {
        let packet = match self.recv_packet_internal() {
            Ok(p) => p,
            Err(e) => {
                return Err(e);
            },
        };
        let pkt_type = match PacketType::from_u8(packet.header.pkt_type) {
            Some(t) => t,
            None => {
                return Err(Error::new(ErrorKind::InvalidPacket));
            },
        };
        if self.config.wait_for_ack && pkt_type.to_u8() != PacketType::Ack.to_u8() {
            match self.send_ack(packet.header.seq) {
                Ok(()) => {},
                Err(e) => {
                    return Err(e);
                },
            }
        }
        self.recv_seq = packet.header.seq.wrapping_add(1);
        assert(self.handed() =~= old(self).handed() + (if old(self).waits_for_ack()
            && packet.header.pkt_type != PacketType::Ack.code() {
            ack_wire(old(self).send_seq(), packet.header.seq)
        } else {
            Seq::<u8>::empty()
        }));
        Ok(packet)
    }

    /// Takes the next message number and sends the head packet that
    /// announces `len` bytes in `count` pieces under it.
    fn send_head(&mut self, len: usize, count: usize) -> (r: Result<()>)
        ensures
            final(self).same_options(old(self)),
            final(self).recv_seq() == old(self).recv_seq(),
            final(self).unread() == old(self).unread(),
            final(self).send_seq() == seq_after(old(self).send_seq(), 1),
            final(self).next_message_id() == (if old(self).next_message_id() == u64::MAX {
                0
            } else {
                (old(self).next_message_id() + 1) as u64
            }),
            final(self).handed() == old(self).handed() + packet_wire(
                PacketType::MessageHead,
                old(self).send_seq(),
                head_payload(len as nat, old(self).next_message_id(), count as nat),
            ),
            old(self).taken().is_prefix_of(final(self).taken()),
            !old(self).waits_for_ack() ==> final(self).taken() == old(self).taken(),
            r is Ok ==> final(self).has_answer(old(self)),
    {
        let message_id = self.next_message_id;
        self.next_message_id = self.next_message_id.wrapping_add(1);
        let head_bytes = announcement(len, message_id, count);
        self.send_packet(PacketType::MessageHead, &head_bytes)
    }

    /// Sends `data` in `count` `MessageData` packets of `max_payload` bytes,
    /// the last one shorter where the bytes run out.
    #[verifier::rlimit(50)]
    fn send_pieces(
        &mut self,
        data: &[u8],
        count: usize,
        Ghost(start): Ghost<Self>,
        Ghost(base): Ghost<nat>,
    ) -> (r: Result<()>)
        requires
            old(self).max_payload() > 0,
            count == packets_for(data@.len(), old(self).max_payload() as nat),
            old(self).waits_for_ack() == start.waits_for_ack(),
            old(self).send_seq() == seq_after(start.send_seq(), base),
            old(self).has_confirmed(&start, base),
        ensures
            r is Ok ==> final(self).has_confirmed(&start, base + count as nat),
            final(self).same_options(old(self)),
            final(self).recv_seq() == old(self).recv_seq(),
            final(self).next_message_id() == old(self).next_message_id(),
            final(self).unread() == old(self).unread(),
            old(self).handed().is_prefix_of(final(self).handed()),
            old(self).taken().is_prefix_of(final(self).taken()),
            !old(self).waits_for_ack() ==> final(self).taken() == old(self).taken(),
            r is Ok ==> final(self).send_seq() == seq_after(old(self).send_seq(), count as nat),
            r is Ok ==> final(self).handed() == old(self).handed() + pieces_wire(
                data@,
                old(self).max_payload() as nat,
                old(self).send_seq(),
                count as nat,
            ),
    {
        let max = self.config.max_payload_size;
        let mut sent: usize = 0;
        assert(seq_after(self.send_seq(), 0) == self.send_seq());
        assert(self.handed() + pieces_wire(data@, max as nat, self.send_seq(), 0) =~= self.handed());
        while sent < count
            invariant
                sent <= count,
                max > 0,
                max == old(self).max_payload(),
                count == packets_for(data@.len(), max as nat),
                self.same_options(old(self)),
                self.recv_seq() == old(self).recv_seq(),
                self.unread() == old(self).unread(),
                self.next_message_id() == old(self).next_message_id(),
                self.send_seq() == seq_after(old(self).send_seq(), sent as nat),
                old(self).waits_for_ack() == start.waits_for_ack(),
                old(self).send_seq() == seq_after(start.send_seq(), base),
                self.has_confirmed(&start, base + sent as nat),
                self.handed() == old(self).handed() + pieces_wire(
                    data@,
                    max as nat,
                    old(self).send_seq(),
                    sent as nat,
                ),
                old(self).taken().is_prefix_of(self.taken()),
                !old(self).waits_for_ack() ==> self.taken() == old(self).taken(),
            decreases count - sent,
        {
            let len = data.len();
            proof {
                lemma_piece_starts_inside(len as nat, max as nat, sent as nat);
            }
            let from = sent * max;
            let end = if len - from < max {
                data.len()
            } else {
                from + max
            };
            proof {
                lemma_seq_after_after(old(self).send_seq(), sent as nat, 1);
                assert((sent + 1) * max == from + max) by (nonlinear_arith)
                    requires
                        from == sent * max,
                ;
                assert(data@.subrange(from as int, end as int) == fragment(
                    data@,
                    sent as nat,
                    max as nat,
                ));
            }
            let ghost ready = *self;
            match self.send_packet(PacketType::MessageData, &data[from..end]) {
                Ok(()) => {},
                Err(e) => {
                    assert(old(self).handed().is_prefix_of(self.handed()));
                    return Err(e);
                },
            }
            proof {
                lemma_seq_after_after(start.send_seq(), base, sent as nat);
                if start.waits_for_ack() {
                    lemma_confirmed_more(
                        start.send_seq(),
                        base + sent as nat,
                        start.taken(),
                        ready.taken(),
                        self.taken(),
                    );
                }
            }
            sent = sent + 1;
            assert(self.handed() =~= old(self).handed() + pieces_wire(
                data@,
                max as nat,
                old(self).send_seq(),
                sent as nat,
            ));
        }
        Ok(())
    }

    /// Sends `data` as one message: in a single `Data` packet where it
    /// fits, else as a `MessageHead` packet followed by its `MessageData`
    /// packets, and flushes the channel.
    ///
    /// Whether the call succeeds is for the channel to decide. Where it
    /// does, the bytes offered to the channel are those of `message_wire`,
    /// one sequence number was used for each packet, the message number was
    /// used if and only if the message needed a head, and each packet was
    /// confirmed where packets are confirmed. Where it fails, what was
    /// offered and read before is still the front of what was offered and
    /// read.
    pub fn send_message(&mut self, data: &[u8]) -> (r: Result<()>)
        requires
            old(self).max_payload() > 0 || data@.len() == 0,
        ensures
            final(self).same_options(old(self)),
            final(self).recv_seq() == old(self).recv_seq(),
            final(self).unread() == old(self).unread(),
            data@.len() <= old(self).max_payload() ==> final(self).send_seq() == seq_after(
                old(self).send_seq(),
                1,
            ) && final(self).next_message_id() == old(self).next_message_id(),
            data@.len() > old(self).max_payload()
                ==> final(self).next_message_id() == (if old(self).next_message_id() == u64::MAX {
                0
            } else {
                (old(self).next_message_id() + 1) as u64
            }),
            r is Ok && data@.len() > old(self).max_payload() ==> final(self).send_seq()
                == seq_after(
                old(self).send_seq(),
                1 + packets_for(data@.len(), old(self).max_payload() as nat),
            ),
            r is Ok ==> final(self).handed() == old(self).handed() + message_wire(
                data@,
                old(self).max_payload() as nat,
                old(self).send_seq(),
                old(self).next_message_id(),
            ),
            old(self).handed().is_prefix_of(final(self).handed()),
            old(self).taken().is_prefix_of(final(self).taken()),
            !old(self).waits_for_ack() ==> final(self).taken() == old(self).taken(),
            r is Ok ==> final(self).has_confirmed(
                old(self),
                message_packets(data@.len(), old(self).max_payload() as nat),
            ),
    {
        let max = self.config.max_payload_size;
        proof {
            lemma_confirmed_none(old(self).send_seq(), old(self).taken());
            assert(seq_after(old(self).send_seq(), 0) == old(self).send_seq());
        }
        if data.len() <= max {
            match self.send_packet(PacketType::Data, data) {
                Ok(()) => {},
                Err(e) => {
                    return Err(e);
                },
            }
            proof {
                if old(self).waits_for_ack() {
                    lemma_confirmed_more(
                        old(self).send_seq(),
                        0,
                        old(self).taken(),
                        old(self).taken(),
                        self.taken(),
                    );
                }
            }
        } else {
            let count = packet_count(data.len(), max);
            match self.send_head(data.len(), count) {
                Ok(()) => {},
                Err(e) => {
                    return Err(e);
                },
            }
            proof {
                if old(self).waits_for_ack() {
                    lemma_confirmed_more(
                        old(self).send_seq(),
                        0,
                        old(self).taken(),
                        old(self).taken(),
                        self.taken(),
                    );
                }
            }
            match self.send_pieces(data, count, Ghost(*old(self)), Ghost(1)) {
                Ok(()) => {},
                Err(e) => {
                    return Err(e);
                },
            }
            proof {
                lemma_seq_after_after(old(self).send_seq(), 1, count as nat);
            }
        }
        self.inner.flush()
    }

    /// Where reading the next header fails, the packets read so far are
    /// those confirmed, and what was read of the header explains the
    /// failure.
    proof fn lemma_failed_at_header(
        start: &Self,
        at_head: &Self,
        now: &Self,
        got: Seq<(PacketHeader, Seq<u8>)>,
        kind: ErrorKind,
    )
        requires
            at_head.has_read(start, got),
            !start.waits_for_ack() ==> at_head.handed() == start.handed(),
            forall|i: int| 0 <= i < got.len() ==> sound((#[trigger] got[i]).0, got[i].1),
            now.handed() == at_head.handed(),
            now.header_failed(at_head, kind),
        ensures
            now.has_failed(start, kind),
    {
        let none = Seq::<u8>::empty();
        if now.taken() == at_head.taken() {
            assert(now.taken() =~= start.taken() + packets_wire(got) + none);
            assert((start.taken() + packets_wire(got)).is_prefix_of(now.taken()));
            assert(now.stopped(start, got, none));
        } else {
            let bytes = choose|bytes: Seq<u8>| #[trigger]
                parse_header(bytes) == Err::<PacketHeader, ErrorKind>(kind) && bytes.len() == 16
                    && now.taken() == at_head.taken() + bytes;
            assert(bytes.subrange(0, 16) =~= bytes);
            assert((start.taken() + packets_wire(got)).is_prefix_of(now.taken())) by {
                assert(now.taken().subrange(0, at_head.taken().len() as int) =~= at_head.taken());
            }
            assert(now.stopped(start, got, bytes));
        }
    }

    /// Where the next header is of a type that may not stand there, the
    /// packets read so far are those confirmed, and the header explains
    /// the invalid packet.
    proof fn lemma_failed_at_type(
        start: &Self,
        at_head: &Self,
        now: &Self,
        got: Seq<(PacketHeader, Seq<u8>)>,
        header: PacketHeader,
    )
        requires
            at_head.has_read(start, got),
            !start.waits_for_ack() ==> at_head.handed() == start.handed(),
            forall|i: int| 0 <= i < got.len() ==> sound((#[trigger] got[i]).0, got[i].1),
            now.handed() == at_head.handed(),
            now.taken() == at_head.taken() + header_bytes(header),
            header.magic == crate::xtrp::config::MAGIC,
            header.version == crate::xtrp::config::VERSION,
            !may_stand(got.len() == 0, header.pkt_type),
        ensures
            now.has_failed(start, ErrorKind::InvalidPacket),
    {
        let rest = header_bytes(header);
        crate::xtrp::protocol::lemma_header_roundtrip(header);
        assert(rest.subrange(0, 16) =~= rest);
        assert((start.taken() + packets_wire(got)).is_prefix_of(now.taken())) by {
            assert(now.taken().subrange(0, at_head.taken().len() as int) =~= at_head.taken());
        }
        assert(now.stopped(start, got, rest));
    }

    /// Where reading or confirming the payload of the next packet fails,
    /// the packets confirmed are those read so far, and the next one if
    /// its confirmation was offered; what was read behind them explains
    /// the failure.
    proof fn lemma_failed_at(
        start: &Self,
        at_head: &Self,
        at_payload: &Self,
        now: &Self,
        got: Seq<(PacketHeader, Seq<u8>)>,
        header: PacketHeader,
        kind: ErrorKind,
    )
        requires
            at_head.has_read(start, got),
            at_head.waits_for_ack() == start.waits_for_ack(),
            at_payload.waits_for_ack() == start.waits_for_ack(),
            !start.waits_for_ack() ==> at_head.handed() == start.handed(),
            forall|i: int| 0 <= i < got.len() ==> sound((#[trigger] got[i]).0, got[i].1),
            at_payload.handed() == at_head.handed(),
            at_payload.send_seq() == at_head.send_seq(),
            at_payload.taken() == at_head.taken() + header_bytes(header),
            header.magic == crate::xtrp::config::MAGIC,
            header.version == crate::xtrp::config::VERSION,
            may_stand(got.len() == 0, header.pkt_type),
            now.payload_failed(at_payload, header, kind),
        ensures
            now.has_failed(start, kind),
    {
        crate::xtrp::protocol::lemma_header_roundtrip(header);
        let head = header_bytes(header);
        if now.handed() == at_payload.handed() && now.send_seq() == at_payload.send_seq()
            && now.payload_refused(at_payload, header, kind) {
            if now.taken() == at_payload.taken() && header.length > 0 {
                assert(head.subrange(0, 16) =~= head);
                assert((start.taken() + packets_wire(got)).is_prefix_of(now.taken())) by {
                    assert(now.taken().subrange(0, at_head.taken().len() as int)
                        =~= at_head.taken());
                }
                assert(now.stopped(start, got, head));
            } else {
                let data = choose|data: Seq<u8>| #[trigger]
                    crc32(data) != header.crc32 && data.len() == header.length && now.taken()
                        == at_payload.taken() + data && kind == ErrorKind::CrcMismatch;
                let rest = head + data;
                assert(rest.subrange(0, 16) =~= head);
                assert(rest.subrange(16, rest.len() as int) =~= data);
                assert(now.taken() =~= start.taken() + packets_wire(got) + rest);
                assert((start.taken() + packets_wire(got)).is_prefix_of(now.taken())) by {
                    assert(now.taken().subrange(0, at_head.taken().len() as int)
                        =~= at_head.taken());
                }
                assert(now.stopped(start, got, rest));
            }
        } else {
            let data = choose|data: Seq<u8>| #[trigger] now.has_offered_ack(at_payload, header, data);
            lemma_one_more_packet(
                got,
                (header, data),
                0,
                start.send_seq(),
                start.taken(),
                start.handed(),
            );
            let more = got.push((header, data));
            let none = Seq::<u8>::empty();
            assert(now.taken() =~= start.taken() + packets_wire(more));
            assert(now.taken() =~= start.taken() + packets_wire(more) + none);
            assert(now.stopped(start, more, none));
        }
    }

    /// Reads the `count` pieces that follow the head packet `first` and
    /// joins them into a message of `total` bytes. `start` is this transport
    /// as it was before it read `first`.
    fn recv_pieces(
        &mut self,
        total: usize,
        count: u32,
        Ghost(start): Ghost<Self>,
        Ghost(first): Ghost<(PacketHeader, Seq<u8>)>,
    ) -> (r: Result<Vec<u8>>)
        requires
            old(self).has_read(&start, seq![first]),
            sound(first.0, first.1),
            old(self).same_options(&start),
            start.taken().is_prefix_of(old(self).taken()),
            start.handed().is_prefix_of(old(self).handed()),
            !start.waits_for_ack() ==> old(self).send_seq() == start.send_seq() && old(self).handed() == start.handed(),
        ensures
            final(self).same_options(old(self)),
            final(self).recv_seq() == old(self).recv_seq(),
            final(self).next_message_id() == old(self).next_message_id(),
            final(self).unread() == old(self).unread(),
            !start.waits_for_ack() ==> final(self).send_seq() == start.send_seq()
                && final(self).handed() == start.handed(),
            start.taken().is_prefix_of(final(self).taken()),
            start.handed().is_prefix_of(final(self).handed()),
            r matches Ok(message) ==> final(self).has_read_pieces(
                &start,
                first,
                count as nat,
                total as nat,
                message@,
            ),
            r matches Err(e) ==> final(self).has_failed(&start, e.spec_kind()),
    {
        let ghost mut got = seq![first];
        let mut result: Vec<u8> = vec![0u8; total];
        let mut offset: usize = 0;
        let mut received: u32 = 0;
        proof {
            lemma_nothing_joined(first, result@);
        }
        while received < count
            invariant
                received <= count,
                offset <= result@.len(),
                result@.len() == total,
                self.same_options(old(self)),
                self.same_options(&start),
                self.recv_seq() == old(self).recv_seq(),
                self.next_message_id() == old(self).next_message_id(),
                self.unread() == old(self).unread(),
                !start.waits_for_ack() ==> self.send_seq() == start.send_seq() && self.handed()
                    == start.handed(),
                start.taken().is_prefix_of(self.taken()),
                start.handed().is_prefix_of(self.handed()),
                self.has_read(&start, got),
                got.len() == 1 + received,
                got[0] == first,
                sound(first.0, first.1),
                forall|i: int|
                    1 <= i < got.len() ==> sound((#[trigger] got[i]).0, got[i].1) && got[i].0.pkt_type
                        == PacketType::MessageData.code(),
                result@ == cut_to(payloads_from(got, 1), total as nat),
                offset == vstd::math::min(total as int, payloads_from(got, 1).len() as int),
            decreases count - received,
        {
            let ghost at_head = *self;
            let header = match self.read_header() {
                Ok(h) => h,
                Err(e) => {
                    proof {
                        Self::lemma_failed_at_header(&start, &at_head, self, got, e.spec_kind());
                    }
                    return Err(e);
                },
            };
            match piece_of(&header) {
                Ok(()) => {},
                Err(e) => {
                    proof {
                        Self::lemma_failed_at_type(&start, &at_head, self, got, header);
                    }
                    return Err(e);
                },
            }
            let ghost at_payload = *self;
            let piece = match self.read_confirmed(header) {
                Ok(p) => p,
                Err(e) => {
                    proof {
                        Self::lemma_failed_at(
                            &start,
                            &at_head,
                            &at_payload,
                            self,
                            got,
                            header,
                            e.spec_kind(),
                        );
                    }
                    return Err(e);
                },
            };
            assert(self.taken() =~= at_head.taken() + header_bytes(piece.header) + piece.data@);
            let ghost joined = payloads_from(got, 1);
            let ghost held = result@;
            let ghost before = offset;
            proof {
                lemma_one_more_packet(
                    got,
                    (piece.header, piece.data@),
                    1,
                    start.send_seq(),
                    start.taken(),
                    start.handed(),
                );
                lemma_seq_after_after(start.send_seq(), got.len(), 1);
                got = got.push((piece.header, piece.data@));
            }
            offset = place_chunk(&mut result, offset, piece.data.as_slice());
            received = received + 1;
            proof {
                lemma_placed_is_cut(
                    held,
                    joined,
                    piece.data@,
                    before as int,
                    offset as int,
                    result@,
                );
            }
        }
        assert(follows(got, first, count as nat, total as nat, result@) && self.has_read(
            &start,
            got,
        ));
        Ok(result)
    }

    /// Receives one message: the payload of a `Data` packet, or the pieces
    /// that follow a `MessageHead` packet, joined in the order in which
    /// they arrive and cut to the length that the head announces.
    ///
    /// Every packet must pass its checksum test, and the first one must be
    /// a `Data` or a `MessageHead` packet: anything else is an invalid
    /// packet. What is returned depends on what the channel delivers:
    /// where the call succeeds, the bytes read are packets that spell the
    /// message returned, as `spells` says, and each of them was confirmed
    /// where packets are confirmed. The options and the message number stay
    /// as they are, and sequence numbers are used only for confirmations.
    ///
    /// The type of a packet is tested on its header, as `opening` and
    /// `piece_of` say, before its payload is read; the checksum is tested
    /// as `sealed_packet` says, before the packet is confirmed. Where the
    /// call fails, only packets that passed both tests have been
    /// confirmed, and what was read behind them explains the failure, as
    /// `has_failed` says: a packet read whole whose checksum is wrong
    /// gives a checksum mismatch.
    pub fn recv_message(&mut self) -> (r: Result<Vec<u8>>)
        ensures
            final(self).same_options(old(self)),
            final(self).recv_seq() == old(self).recv_seq(),
            final(self).next_message_id() == old(self).next_message_id(),
            final(self).unread() == old(self).unread(),
            !old(self).waits_for_ack() ==> final(self).send_seq() == old(self).send_seq()
                && final(self).handed() == old(self).handed(),
            old(self).taken().is_prefix_of(final(self).taken()),
            old(self).handed().is_prefix_of(final(self).handed()),
            r matches Ok(message) ==> final(self).has_read_message(old(self), message@),
            r matches Err(e) ==> final(self).has_failed(old(self), e.spec_kind()),
    {
        let ghost none = Seq::<(PacketHeader, Seq<u8>)>::empty();
        proof {
            assert(old(self).taken() + packets_wire(none) =~= old(self).taken());
            assert(old(self).handed() + acks_wire(none, old(self).send_seq()) =~= old(self).handed());
            assert(seq_after(old(self).send_seq(), 0) == old(self).send_seq());
            assert(old(self).has_read(old(self), none));
        }
        let header = match self.read_header() {
            Ok(h) => h,
            Err(e) => {
                proof {
                    Self::lemma_failed_at_header(old(self), old(self), self, none, e.spec_kind());
                }
                return Err(e);
            },
        };
        let kind = match opening(&header) {
            Ok(kind) => kind,
            Err(e) => {
                proof {
                    Self::lemma_failed_at_type(old(self), old(self), self, none, header);
                }
                return Err(e);
            },
        };
        let ghost at_payload = *self;
        let packet = match self.read_confirmed(header) {
            Ok(p) => p,
            Err(e) => {
                proof {
                    Self::lemma_failed_at(
                        old(self),
                        old(self),
                        &at_payload,
                        self,
                        none,
                        header,
                        e.spec_kind(),
                    );
                }
                return Err(e);
            },
        };
        let ghost first = (packet.header, packet.data@);
        let ghost got = none.push(first);
        proof {
            lemma_one_more_packet(
                none,
                first,
                0,
                old(self).send_seq(),
                old(self).taken(),
                old(self).handed(),
            );
            assert(self.taken() =~= old(self).taken() + header_bytes(packet.header) + packet.data@);
            assert(self.has_read(old(self), got));
        }
        match kind {
            Opening::Whole => {
                assert(spells(got, packet.data@));
                Ok(packet.data)
            },
            Opening::Announced => {
                let (total, count) = match announced(packet.data.as_slice()) {
                    Ok(found) => found,
                    Err(e) => {
                        proof {
                            let nothing = Seq::<u8>::empty();
                            assert(self.taken() =~= old(self).taken() + packets_wire(got) + nothing);
                            assert((old(self).taken() + packets_wire(got)).is_prefix_of(
                                self.taken(),
                            ));
                            assert(self.stopped(old(self), got, nothing));
                        }
                        return Err(e);
                    },
                };
                let result = match self.recv_pieces(total, count, Ghost(*old(self)), Ghost(first)) {
                    Ok(m) => m,
                    Err(e) => {
                        return Err(e);
                    },
                };
                proof {
                    let packets = choose|packets: Seq<(PacketHeader, Seq<u8>)>| #[trigger]
                        follows(packets, first, count as nat, total as nat, result@)
                            && self.has_read(old(self), packets);
                    assert(spells(packets, result@) && self.has_read(old(self), packets));
                }
                Ok(result)
            },
        }
    }
}

impl<T: Read + Write> Read for XTransport<T> {
    /// Hands out payload bytes of the packets received, fetching the next
    /// packet when the last one is used up.
    ///
    /// While bytes of the last packet are left, nothing is read from the
    /// channel and the call cannot fail. A failed call leaves the buffer
    /// and the bytes left as they were.
    fn read(&mut self, buf: &mut [u8]) -> (r: Result<usize>)
        ensures
            final(self).same_options(old(self)),
            final(self).next_message_id() == old(self).next_message_id(),
            old(self).unread().len() > 0 ==> final(self).same_traffic(old(self)) && r is Ok
                && handed_out(
                old(self).unread(),
                old(buf)@,
                final(buf)@,
                final(self).unread(),
                r->Ok_0,
            ),
            old(self).unread().len() == 0 ==> (match r {
                Ok(n) => final(self).has_fetched(old(self), old(buf)@, final(buf)@, n),
                Err(_) => final(self).unread() == old(self).unread() && final(buf)@ == old(buf)@
                    && final(self).recv_seq() == old(self).recv_seq(),
            }),
    {
        if self.pending.is_used_up() {
            let packet = match self.recv_packet() {
                Ok(p) => p,
                Err(e) => {
                    return Err(e);
                },
            };
            let ghost header = packet.header;
            let ghost data = packet.data@;
            self.pending.refill(packet.data);
            let n = self.pending.take(buf);
            assert(self.has_taken(old(self), header, data) && handed_out(
                data,
                old(buf)@,
                buf@,
                self.unread(),
                n,
            ));
            return Ok(n);
        }
        Ok(self.pending.take(buf))
    }
}

impl<T: Read + Write> Write for XTransport<T> {
    /// Sends the front of `buf`, as much as one packet carries, as a
    /// `Data` packet.
    ///
    /// An empty `buf` sends nothing. Otherwise one packet is offered to the
    /// channel and one sequence number used, whether or not the call
    /// succeeds.
    fn write(&mut self, buf: &[u8]) -> (r: Result<usize>)
        ensures
            final(self).same_options(old(self)),
            final(self).next_message_id() == old(self).next_message_id(),
            final(self).unread() == old(self).unread(),
            final(self).recv_seq() == old(self).recv_seq(),
            old(self).taken().is_prefix_of(final(self).taken()),
            !old(self).waits_for_ack() ==> final(self).taken() == old(self).taken(),
            buf@.len() == 0 ==> r == Ok::<usize, Error>(0) && final(self).same_traffic(old(self)),
            buf@.len() > 0 ==> final(self).send_seq() == seq_after(old(self).send_seq(), 1)
                && final(self).handed() == old(self).handed() + packet_wire(
                PacketType::Data,
                old(self).send_seq(),
                buf@.subrange(0, vstd::math::min(buf@.len() as int, old(self).max_payload() as int)),
            ),
            r matches Ok(n) ==> n == vstd::math::min(
                buf@.len() as int,
                old(self).max_payload() as int,
            ),
            r is Ok && buf@.len() > 0 ==> final(self).has_answer(old(self)),
    {
        if buf.len() == 0 {
            return Ok(0);
        }
        let max = self.config.max_payload_size;
        let to_send = if buf.len() < max {
            buf.len()
        } else {
            max
        };
        match self.send_packet(PacketType::Data, &buf[0..to_send]) {
            Ok(()) => {},
            Err(e) => {
                return Err(e);
            },
        }
        Ok(to_send)
    }

    /// Flushes the channel. Nothing is sent or read.
    fn flush(&mut self) -> (r: Result<()>)
        ensures
            final(self).same_options(old(self)),
            final(self).same_traffic(old(self)),
            final(self).next_message_id() == old(self).next_message_id(),
            final(self).unread() == old(self).unread(),
    {
        self.inner.flush()
    }
}

} // verus!
