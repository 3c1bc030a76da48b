//! What is sent as a message is read back as that message, and what has
//! been spoiled on the way is refused.

use vstd::prelude::*;
use crate::codec::checksum::crc32;
use crate::codec::packet::{
    fragment, joined_fragments, lemma_fragment_bounds, lemma_fragments_cover,
};
use crate::xtrp::protocol::{
    header_bytes, lemma_head_record_fields, reserved_zeros, sealed_header, PacketHeader, PacketType,
};
use crate::xtrp::transport::{
    announced_count, announced_len, cut_to, head_payload, lemma_one_more_packet, message_wire,
    packet_wire, packets_for, packets_wire, payloads_from, pieces_wire, seq_after, sound, spells,
};

verus! {

/// The packet of type `pkt_type` and sequence `seq` that carries `data`.
pub open spec fn packet_of(pkt_type: PacketType, seq: u32, data: Seq<u8>) -> (PacketHeader, Seq<u8>) {
    (sealed_header(pkt_type, seq, data.len(), crc32(data)), data)
}

/// The head packet of the message `data`, and its first `count` pieces, as
/// they are sent from sequence `seq` on.
pub open spec fn head_and_pieces(
    data: Seq<u8>,
    max_payload: nat,
    seq: u32,
    id: u64,
    count: nat,
) -> Seq<(PacketHeader, Seq<u8>)>
    decreases count,
{
    if count == 0 {
        seq![
            packet_of(
                PacketType::MessageHead,
                seq,
                head_payload(data.len(), id, packets_for(data.len(), max_payload)),
            ),
        ]
    } else {
        head_and_pieces(data, max_payload, seq, id, (count - 1) as nat).push(
            packet_of(
                PacketType::MessageData,
                seq_after(seq_after(seq, 1), (count - 1) as nat),
                fragment(data, (count - 1) as nat, max_payload),
            ),
        )
    }
}

/// The packets that the message `data` is sent in.
pub open spec fn packets_of_message(data: Seq<u8>, max_payload: nat, seq: u32, id: u64) -> Seq<
    (PacketHeader, Seq<u8>),
> {
    if data.len() <= max_payload {
        seq![packet_of(PacketType::Data, seq, data)]
    } else {
        head_and_pieces(data, max_payload, seq, id, packets_for(data.len(), max_payload))
    }
}

/// A packet that carries no more than its length field can say is sound.
pub proof fn lemma_packet_of_is_sound(pkt_type: PacketType, seq: u32, data: Seq<u8>)
    requires
        data.len() <= 0xFFFF,
    ensures
        sound(packet_of(pkt_type, seq, data).0, packet_of(pkt_type, seq, data).1),
        packet_of(pkt_type, seq, data).0.pkt_type == pkt_type.code(),
        packets_wire(seq![packet_of(pkt_type, seq, data)]) == packet_wire(pkt_type, seq, data),
{
    let one = seq![packet_of(pkt_type, seq, data)];
    assert(one.drop_last() =~= Seq::<(PacketHeader, Seq<u8>)>::empty());
    assert(packets_wire(one.drop_last()) =~= Seq::<u8>::empty());
    assert(packets_wire(one) =~= packet_wire(pkt_type, seq, data));
}

/// What a head payload announces is what it was made to announce.
pub proof fn lemma_head_payload_announces(len: nat, id: u64, count: nat)
    requires
        len <= usize::MAX,
        count < 0x1_0000_0000,
    ensures
        head_payload(len, id, count).len() == 32,
        announced_len(head_payload(len, id, count)) == len,
        announced_count(head_payload(len, id, count)) == count,
{
    lemma_head_record_fields(len as u64, id, count as u32, 0, reserved_zeros());
}

/// The head and the first `count` pieces are sound packets; on the wire
/// they are the head and `pieces_wire`, and the payloads behind the head
/// are the first `count` fragments joined.
pub proof fn lemma_head_and_pieces(data: Seq<u8>, max_payload: nat, seq: u32, id: u64, count: nat)
    requires
        0 < max_payload <= 0xFFFF,
        max_payload < data.len(),
        count <= packets_for(data.len(), max_payload),
    ensures
        head_and_pieces(data, max_payload, seq, id, count).len() == 1 + count,
        head_and_pieces(data, max_payload, seq, id, count)[0] == packet_of(
            PacketType::MessageHead,
            seq,
            head_payload(data.len(), id, packets_for(data.len(), max_payload)),
        ),
        forall|i: int|
            1 <= i <= count ==> sound(
                (#[trigger] head_and_pieces(data, max_payload, seq, id, count)[i]).0,
                head_and_pieces(data, max_payload, seq, id, count)[i].1,
            ) && head_and_pieces(data, max_payload, seq, id, count)[i].0.pkt_type
                == PacketType::MessageData.code(),
        packets_wire(head_and_pieces(data, max_payload, seq, id, count)) == packet_wire(
            PacketType::MessageHead,
            seq,
            head_payload(data.len(), id, packets_for(data.len(), max_payload)),
        ) + pieces_wire(data, max_payload, seq_after(seq, 1), count),
        payloads_from(head_and_pieces(data, max_payload, seq, id, count), 1) == joined_fragments(
            data,
            count,
            max_payload,
        ),
    decreases count,
{
    let head = head_payload(data.len(), id, packets_for(data.len(), max_payload));
    let all = head_and_pieces(data, max_payload, seq, id, count);
    if count == 0 {
        assert(head.len() == 32);
        lemma_packet_of_is_sound(PacketType::MessageHead, seq, head);
        assert(packets_wire(all) =~= packet_wire(PacketType::MessageHead, seq, head) + pieces_wire(
            data,
            max_payload,
            seq_after(seq, 1),
            0,
        ));
        assert(payloads_from(all, 1) =~= joined_fragments(data, 0, max_payload));
    } else {
        let before = head_and_pieces(data, max_payload, seq, id, (count - 1) as nat);
        let piece = fragment(data, (count - 1) as nat, max_payload);
        let last = packet_of(
            PacketType::MessageData,
            seq_after(seq_after(seq, 1), (count - 1) as nat),
            piece,
        );
        lemma_head_and_pieces(data, max_payload, seq, id, (count - 1) as nat);
        lemma_fragment_bounds(data.len(), (count - 1) as nat, max_payload);
        lemma_packet_of_is_sound(
            PacketType::MessageData,
            seq_after(seq_after(seq, 1), (count - 1) as nat),
            piece,
        );
        lemma_one_more_packet(before, last, 1, 0, Seq::<u8>::empty(), Seq::<u8>::empty());
        assert(Seq::<u8>::empty() + packets_wire(all) =~= packets_wire(all));
        assert(Seq::<u8>::empty() + packets_wire(before) =~= packets_wire(before));
        assert(packets_wire(all) =~= packet_wire(PacketType::MessageHead, seq, head) + pieces_wire(
            data,
            max_payload,
            seq_after(seq, 1),
            count,
        ));
        assert forall|i: int| 1 <= i <= count implies sound((#[trigger] all[i]).0, all[i].1)
            && all[i].0.pkt_type == PacketType::MessageData.code() by {
            if i < count {
                assert(all[i] == before[i]);
            }
        }
    }
}

/// A message that is sent is read back. The bytes that are offered to the
/// channel for the message `data` are those of packets that spell `data`,
/// provided that a packet's length field can hold the largest payload, the
/// head can hold the number of pieces, and this machine the length.
pub proof fn lemma_sent_message_spells(data: Seq<u8>, max_payload: nat, seq: u32, id: u64)
    requires
        max_payload <= 0xFFFF,
        max_payload > 0 || data.len() == 0,
        data.len() <= usize::MAX,
        packets_for(data.len(), max_payload) < 0x1_0000_0000,
    ensures
        spells(packets_of_message(data, max_payload, seq, id), data),
        packets_wire(packets_of_message(data, max_payload, seq, id)) == message_wire(
            data,
            max_payload,
            seq,
            id,
        ),
{
    let packets = packets_of_message(data, max_payload, seq, id);
    if data.len() <= max_payload {
        lemma_packet_of_is_sound(PacketType::Data, seq, data);
    } else {
        let count = packets_for(data.len(), max_payload);
        lemma_head_and_pieces(data, max_payload, seq, id, count);
        lemma_head_payload_announces(data.len(), id, count);
        lemma_packet_of_is_sound(
            PacketType::MessageHead,
            seq,
            head_payload(data.len(), id, count),
        );
        lemma_fragments_cover(data, max_payload);
        assert(cut_to(data, data.len()) =~= data);
        assert forall|i: int| 0 <= i < packets.len() implies sound(
            (#[trigger] packets[i]).0,
            packets[i].1,
        ) by {}
    }
}

/// Whether every packet of `packets` is sound.
pub open spec fn all_sound(packets: Seq<(PacketHeader, Seq<u8>)>) -> bool {
    forall|i: int| 0 <= i < packets.len() ==> sound((#[trigger] packets[i]).0, packets[i].1)
}

/// The bytes of packets are those of the first packet, then those of the
/// others.
pub proof fn lemma_wire_from_the_front(packets: Seq<(PacketHeader, Seq<u8>)>)
    requires
        packets.len() > 0,
    ensures
        packets_wire(packets) == header_bytes(packets[0].0) + packets[0].1 + packets_wire(
            packets.subrange(1, packets.len() as int),
        ),
    decreases packets.len(),
{
    let rest = packets.subrange(1, packets.len() as int);
    let none = Seq::<(PacketHeader, Seq<u8>)>::empty();
    if packets.len() == 1 {
        assert(packets.drop_last() =~= none);
        assert(rest =~= none);
        assert(packets_wire(none) =~= Seq::<u8>::empty());
        assert(packets_wire(packets) =~= header_bytes(packets[0].0) + packets[0].1 + packets_wire(
            rest,
        ));
    } else {
        let front = packets.drop_last();
        lemma_wire_from_the_front(front);
        assert(rest.drop_last() =~= front.subrange(1, front.len() as int));
        assert(rest.last() == packets.last());
        assert(front[0] == packets[0]);
        assert(packets_wire(packets) =~= header_bytes(packets[0].0) + packets[0].1 + packets_wire(
            rest,
        ));
    }
}

/// The first packet of a row of bytes is told by the bytes: its header by
/// the first sixteen, its payload by as many as the header announces.
pub proof fn lemma_first_packet_is_told(
    s: Seq<u8>,
    header: PacketHeader,
    data: Seq<u8>,
    rest: Seq<u8>,
)
    requires
        s == header_bytes(header) + data + rest,
        header.length == data.len(),
    ensures
        s.len() >= 16,
        header == crate::xtrp::protocol::header_of_bytes(s.subrange(0, 16)),
        data == s.subrange(16, 16 + header.length),
        rest == s.subrange(16 + header.length, s.len() as int),
{
    crate::xtrp::protocol::lemma_header_fields(header);
    assert(s.subrange(0, 16) =~= header_bytes(header));
    assert(s.subrange(16, 16 + header.length) =~= data);
    assert(s.subrange(16 + header.length, s.len() as int) =~= rest);
}

/// The packets behind the first of a row of sound packets are sound.
pub proof fn lemma_rest_is_sound(p: Seq<(PacketHeader, Seq<u8>)>)
    requires
        all_sound(p),
        p.len() > 0,
    ensures
        all_sound(p.subrange(1, p.len() as int)),
        sound(p[0].0, p[0].1),
        p == seq![p[0]] + p.subrange(1, p.len() as int),
{
    let rest = p.subrange(1, p.len() as int);
    assert forall|i: int| 0 <= i < rest.len() implies sound((#[trigger] rest[i]).0, rest[i].1) by {
        assert(rest[i] == p[i + 1]);
    }
    assert(p =~= seq![p[0]] + rest);
}

/// Bytes can be read as sound packets in one way only: two rows of sound
/// packets with the same bytes are the same row.
pub proof fn lemma_packets_read_one_way(
    p: Seq<(PacketHeader, Seq<u8>)>,
    q: Seq<(PacketHeader, Seq<u8>)>,
)
    requires
        all_sound(p),
        all_sound(q),
        packets_wire(p) == packets_wire(q),
    ensures
        p == q,
    decreases p.len(),
{
    let s = packets_wire(p);
    if p.len() == 0 {
        if q.len() > 0 {
            lemma_wire_from_the_front(q);
            lemma_rest_is_sound(q);
            lemma_first_packet_is_told(
                s,
                q[0].0,
                q[0].1,
                packets_wire(q.subrange(1, q.len() as int)),
            );
        }
        assert(p =~= q);
    } else if q.len() == 0 {
        lemma_wire_from_the_front(p);
        lemma_rest_is_sound(p);
        lemma_first_packet_is_told(s, p[0].0, p[0].1, packets_wire(p.subrange(1, p.len() as int)));
    } else {
        let rest_p = p.subrange(1, p.len() as int);
        let rest_q = q.subrange(1, q.len() as int);
        lemma_wire_from_the_front(p);
        lemma_wire_from_the_front(q);
        lemma_rest_is_sound(p);
        lemma_rest_is_sound(q);
        lemma_first_packet_is_told(s, p[0].0, p[0].1, packets_wire(rest_p));
        lemma_first_packet_is_told(s, q[0].0, q[0].1, packets_wire(rest_q));
        assert(p[0].0 == q[0].0);
        assert(p[0].1 == q[0].1);
        assert(p[0] == q[0]);
        lemma_packets_read_one_way(rest_p, rest_q);
    }
}

/// What was sent as a message can only be read back as that message: if
/// the bytes that are read for a message are those that were offered to
/// the channel for the message `data`, the message read is `data`.
pub proof fn lemma_read_back(
    data: Seq<u8>,
    max_payload: nat,
    seq: u32,
    id: u64,
    packets: Seq<(PacketHeader, Seq<u8>)>,
    message: Seq<u8>,
)
    requires
        max_payload <= 0xFFFF,
        max_payload > 0 || data.len() == 0,
        data.len() <= usize::MAX,
        packets_for(data.len(), max_payload) < 0x1_0000_0000,
        spells(packets, message),
        packets_wire(packets) == message_wire(data, max_payload, seq, id),
    ensures
        message == data,
{
    lemma_sent_message_spells(data, max_payload, seq, id);
    let sent = packets_of_message(data, max_payload, seq, id);
    lemma_packets_read_one_way(packets, sent);
}

/// A packet that is sound no longer is once one byte of its payload has
/// changed: the reader refuses it with a checksum mismatch, as
/// `sealed_packet` says, and does not confirm it.
pub proof fn lemma_corrupt_payload_is_not_sound(
    header: PacketHeader,
    data: Seq<u8>,
    at: int,
    byte: u8,
)
    requires
        sound(header, data),
        0 <= at < data.len(),
        byte != data[at],
    ensures
        !sound(header, data.update(at, byte)),
        header.crc32 != crc32(data.update(at, byte)),
{
    crate::codec::checksum::lemma_crc32_detects_one_byte(data, data.update(at, byte), at);
}

/// A packet that is sound no longer is once its checksum field has
/// changed.
pub proof fn lemma_corrupt_checksum_is_not_sound(header: PacketHeader, data: Seq<u8>, crc: u32)
    requires
        sound(header, data),
        crc != header.crc32,
    ensures
        !sound(PacketHeader { crc32: crc, ..header }, data),
{
}

} // verus!
