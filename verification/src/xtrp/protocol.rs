//! Packets of the head-described framing: the 16-byte header, the 32-byte
//! head record of a large message, and the checksummed packet.

use vstd::prelude::*;
use crate::wire::{
    get_u16_le, get_u32_le, get_u64_le, lemma_u16_le_bytes, lemma_u16_le_roundtrip,
    lemma_u32_le_bytes, lemma_u32_le_roundtrip, lemma_u64_le_roundtrip, put_u16_le, put_u32_le,
    put_u64_le, u16_le, u16_of_le, u32_le, u32_of_le, u64_le, u64_of_le,
};
use crate::codec::checksum::crc32;
use crate::xtrp::config::{HEADER_SIZE, MAGIC, MESSAGE_HEAD_SIZE, VERSION};
use crate::xtrp::error::{Error, ErrorKind, Result};

verus! {

/// What a packet carries.
#[derive(Debug, Clone, Copy, PartialEq, Eq, Structural)]
pub enum PacketType {
    /// A whole message in one packet.
    Data,
    /// The head record of a message of several packets.
    MessageHead,
    /// One piece of a message of several packets.
    MessageData,
    /// The confirmation of one packet.
    Ack,
}

impl PacketType {
    /// The byte that stands for this type on the wire.
    pub open spec fn code(self) -> u8 {
        match self {
            PacketType::Data => 0,
            PacketType::MessageHead => 1,
            PacketType::MessageData => 2,
            PacketType::Ack => 3,
        }
    }

    /// The type that a wire byte stands for, if any.
    pub open spec fn of_code(value: u8) -> Option<PacketType> {
        if value == 0 {
            Some(PacketType::Data)
        } else if value == 1 {
            Some(PacketType::MessageHead)
        } else if value == 2 {
            Some(PacketType::MessageData)
        } else if value == 3 {
            Some(PacketType::Ack)
        } else {
            None
        }
    }

    pub fn from_u8(value: u8) -> (t: Option<Self>)
        ensures
            t == Self::of_code(value),
    {
        match value {
            0 => Some(PacketType::Data),
            1 => Some(PacketType::MessageHead),
            2 => Some(PacketType::MessageData),
            3 => Some(PacketType::Ack),
            _ => None,
        }
    }

    pub fn to_u8(self) -> (value: u8)
        ensures
            value == self.code(),
    {
        match self {
            PacketType::Data => 0,
            PacketType::MessageHead => 1,
            PacketType::MessageData => 2,
            PacketType::Ack => 3,
        }
    }
}

/// Every type is read back from its own wire byte, and no other byte
/// stands for it.
pub proof fn lemma_packet_type_code_roundtrip(t: PacketType, value: u8)
    ensures
        PacketType::of_code(t.code()) == Some(t),
        PacketType::of_code(value) == Some(t) ==> value == t.code(),
{
}

/// The header that opens every packet.
#[derive(Debug, Clone, Copy, PartialEq, Eq, Structural)]
pub struct PacketHeader {
    pub magic: u32,
    pub version: u8,
    pub pkt_type: u8,
    pub seq: u32,
    pub length: u16,
    pub crc32: u32,
}

/// The 16 bytes of a header: magic, version, type, sequence, payload length
/// and checksum, every integer least significant byte first.
pub open spec fn header_bytes(h: PacketHeader) -> Seq<u8> {
    u32_le(h.magic) + seq![h.version, h.pkt_type] + u32_le(h.seq) + u16_le(h.length) + u32_le(
        h.crc32,
    )
}

/// The header whose fields 16 bytes spell out, whatever they say.
pub open spec fn header_of_bytes(s: Seq<u8>) -> PacketHeader
    recommends
        s.len() == 16,
{
    PacketHeader {
        magic: u32_of_le(s[0], s[1], s[2], s[3]),
        version: s[4],
        pkt_type: s[5],
        seq: u32_of_le(s[6], s[7], s[8], s[9]),
        length: u16_of_le(s[10], s[11]),
        crc32: u32_of_le(s[12], s[13], s[14], s[15]),
    }
}

/// What reading 16 bytes as a header yields: the magic number is tested
/// first, then the version.
pub open spec fn parse_header(s: Seq<u8>) -> core::result::Result<PacketHeader, ErrorKind>
    recommends
        s.len() == 16,
{
    let h = header_of_bytes(s);
    if h.magic != MAGIC {
        Err(ErrorKind::InvalidMagic)
    } else if h.version != VERSION {
        Err(ErrorKind::InvalidVersion)
    } else {
        Ok(h)
    }
}

impl PacketHeader {
    pub fn new(pkt_type: PacketType, seq: u32, length: u16) -> (h: Self)
        ensures
            h == (PacketHeader {
                magic: MAGIC,
                version: VERSION,
                pkt_type: pkt_type.code(),
                seq,
                length,
                crc32: 0,
            }),
    {
        PacketHeader { magic: MAGIC, version: VERSION, pkt_type: pkt_type.to_u8(), seq, length, crc32: 0 }
    }

    pub fn to_bytes(&self) -> (buf: [u8; HEADER_SIZE])
        ensures
            buf@ == header_bytes(*self),
    {
        let mut buf = [0u8;HEADER_SIZE];
        put_u32_le(&mut buf, 0, self.magic);
        buf[4] = self.version;
        buf[5] = self.pkt_type;
        put_u32_le(&mut buf, 6, self.seq);
        put_u16_le(&mut buf, 10, self.length);
        put_u32_le(&mut buf, 12, self.crc32);
        proof {
            let s = buf@;
            assert(s.subrange(0, 4) == u32_le(self.magic));
            assert(s.subrange(6, 10) == u32_le(self.seq));
            assert(s.subrange(10, 12) == u16_le(self.length));
            assert(s.subrange(12, 16) == u32_le(self.crc32));
            assert(s =~= s.subrange(0, 4) + seq![s[4], s[5]] + s.subrange(6, 10) + s.subrange(
                10,
                12,
            ) + s.subrange(12, 16));
        }
        buf
    }

    pub fn from_bytes(buf: &[u8; HEADER_SIZE]) -> (r: Result<Self>)
        ensures
            match parse_header(buf@) {
                Ok(h) => r == Ok::<PacketHeader, Error>(h),
                Err(kind) => r is Err && r->Err_0.spec_kind() == kind,
            },
    {
        let magic = get_u32_le(buf, 0);
        if magic != MAGIC {
            return Err(Error::new(ErrorKind::InvalidMagic));
        }
        let version = buf[4];
        if version != VERSION {
            return Err(Error::new(ErrorKind::InvalidVersion));
        }
        let pkt_type = buf[5];
        let seq = get_u32_le(buf, 6);
        let length = get_u16_le(buf, 10);
        let crc32 = get_u32_le(buf, 12);
        Ok(PacketHeader { magic, version, pkt_type, seq, length, crc32 })
    }
}

/// A header of this framing and version is read back from its own bytes
/// unchanged.
pub proof fn lemma_header_roundtrip(h: PacketHeader)
    requires
        h.magic == MAGIC,
        h.version == VERSION,
    ensures
        header_bytes(h).len() == HEADER_SIZE,
        parse_header(header_bytes(h)) == Ok::<PacketHeader, ErrorKind>(h),
{
    lemma_header_fields(h);
}

/// The fields that the bytes of a header spell out are its own.
pub proof fn lemma_header_fields(h: PacketHeader)
    ensures
        header_bytes(h).len() == 16,
        header_of_bytes(header_bytes(h)) == h,
{
    let s = header_bytes(h);
    lemma_u32_le_roundtrip(h.magic);
    lemma_u32_le_roundtrip(h.seq);
    lemma_u16_le_roundtrip(h.length);
    lemma_u32_le_roundtrip(h.crc32);
    assert(s.len() == 16);
    assert(s[0] == u32_le(h.magic)[0] && s[1] == u32_le(h.magic)[1] && s[2] == u32_le(h.magic)[2]
        && s[3] == u32_le(h.magic)[3]);
    assert(s[4] == h.version && s[5] == h.pkt_type);
    assert(s[6] == u32_le(h.seq)[0] && s[7] == u32_le(h.seq)[1] && s[8] == u32_le(h.seq)[2] && s[9]
        == u32_le(h.seq)[3]);
    assert(s[10] == u16_le(h.length)[0] && s[11] == u16_le(h.length)[1]);
    assert(s[12] == u32_le(h.crc32)[0] && s[13] == u32_le(h.crc32)[1] && s[14] == u32_le(
        h.crc32,
    )[2] && s[15] == u32_le(h.crc32)[3]);
}

/// Sixteen bytes are the bytes of the header that they spell out.
pub proof fn lemma_header_bytes_of_fields(s: Seq<u8>)
    requires
        s.len() == 16,
    ensures
        header_bytes(header_of_bytes(s)) == s,
{
    lemma_u32_le_bytes(s[0], s[1], s[2], s[3]);
    lemma_u32_le_bytes(s[6], s[7], s[8], s[9]);
    lemma_u16_le_bytes(s[10], s[11]);
    lemma_u32_le_bytes(s[12], s[13], s[14], s[15]);
    assert(header_bytes(header_of_bytes(s)) =~= s);
}

/// The record that announces a message of several packets.
#[derive(Debug, Clone, Copy)]
pub struct MessageHead {
    /// Length of the whole message in bytes.
    pub total_length: u64,
    /// Number that tells this message from others of the same sender.
    pub message_id: u64,
    /// Number of `MessageData` packets that follow.
    pub packet_count: u32,
    pub flags: u32,
    pub reserved: [u8; 8],
}

/// The reserved bytes of a head record that this library writes: eight
/// zeros.
pub open spec fn reserved_zeros() -> Seq<u8> {
    Seq::new(8, |i: int| 0u8)
}

/// The bytes of a head record with the given fields, every integer least
/// significant byte first.
pub open spec fn head_record(
    total_length: u64,
    message_id: u64,
    packet_count: u32,
    flags: u32,
    reserved: Seq<u8>,
) -> Seq<u8> {
    u64_le(total_length) + u64_le(message_id) + u32_le(packet_count) + u32_le(flags) + reserved
}

/// The 32 bytes of a head record.
pub open spec fn head_bytes(h: MessageHead) -> Seq<u8> {
    head_record(h.total_length, h.message_id, h.packet_count, h.flags, h.reserved@)
}

impl MessageHead {
    pub fn new(total_length: u64, message_id: u64, packet_count: u32) -> (h: Self)
        ensures
            h.total_length == total_length,
            h.message_id == message_id,
            h.packet_count == packet_count,
            h.flags == 0,
            h.reserved@ == reserved_zeros(),
    {
        let h = MessageHead { total_length, message_id, packet_count, flags: 0, reserved: [0u8;8] };
        assert(h.reserved@ =~= reserved_zeros());
        h
    }

    pub fn to_bytes(&self) -> (buf: [u8; MESSAGE_HEAD_SIZE])
        ensures
            buf@ == head_bytes(*self),
    {
        let mut buf = [0u8;MESSAGE_HEAD_SIZE];
        put_u64_le(&mut buf, 0, self.total_length);
        put_u64_le(&mut buf, 8, self.message_id);
        put_u32_le(&mut buf, 16, self.packet_count);
        put_u32_le(&mut buf, 20, self.flags);
        let mut i: usize = 0;
        while i < 8
            invariant
                i <= 8,
                buf@.subrange(0, 8) == u64_le(self.total_length),
                buf@.subrange(8, 16) == u64_le(self.message_id),
                buf@.subrange(16, 20) == u32_le(self.packet_count),
                buf@.subrange(20, 24) == u32_le(self.flags),
                forall|k: int| 0 <= k < i ==> buf@[24 + k] == self.reserved@[k],
            decreases 8 - i,
        {
            let ghost before = buf@;
            buf[24 + i] = self.reserved[i];
            assert(buf@.subrange(0, 8) =~= before.subrange(0, 8));
            assert(buf@.subrange(8, 16) =~= before.subrange(8, 16));
            assert(buf@.subrange(16, 20) =~= before.subrange(16, 20));
            assert(buf@.subrange(20, 24) =~= before.subrange(20, 24));
            i = i + 1;
        }
        proof {
            let s = buf@;
            assert(s.subrange(24, 32) =~= self.reserved@);
            assert(s =~= s.subrange(0, 8) + s.subrange(8, 16) + s.subrange(16, 20) + s.subrange(
                20,
                24,
            ) + s.subrange(24, 32));
        }
        buf
    }

    /// Reads a head record. Every 32 bytes are one, so this never fails.
    pub fn from_bytes(buf: &[u8; MESSAGE_HEAD_SIZE]) -> (r: Result<Self>)
        ensures
            r matches Ok(h) && h.total_length == u64_of_le(buf@.subrange(0, 8)) && h.message_id
                == u64_of_le(buf@.subrange(8, 16)) && h.packet_count == u32_of_le(
                buf@[16],
                buf@[17],
                buf@[18],
                buf@[19],
            ) && h.flags == u32_of_le(buf@[20], buf@[21], buf@[22], buf@[23]) && h.reserved@
                == buf@.subrange(24, 32),
    {
        let total_length = get_u64_le(buf, 0);
        let message_id = get_u64_le(buf, 8);
        let packet_count = get_u32_le(buf, 16);
        let flags = get_u32_le(buf, 20);
        let mut reserved = [0u8;8];
        let mut i: usize = 0;
        while i < 8
            invariant
                i <= 8,
                forall|k: int| 0 <= k < i ==> reserved@[k] == buf@[24 + k],
            decreases 8 - i,
        {
            reserved[i] = buf[24 + i];
            i = i + 1;
        }
        assert(reserved@ =~= buf@.subrange(24, 32));
        Ok(MessageHead { total_length, message_id, packet_count, flags, reserved })
    }
}

/// The fields that the bytes of a head record spell out are those that it
/// was made of.
pub proof fn lemma_head_record_fields(
    total_length: u64,
    message_id: u64,
    packet_count: u32,
    flags: u32,
    reserved: Seq<u8>,
)
    requires
        reserved.len() == 8,
    ensures
        ({
            let s = head_record(total_length, message_id, packet_count, flags, reserved);
            &&& s.len() == MESSAGE_HEAD_SIZE
            &&& u64_of_le(s.subrange(0, 8)) == total_length
            &&& u64_of_le(s.subrange(8, 16)) == message_id
            &&& u32_of_le(s[16], s[17], s[18], s[19]) == packet_count
            &&& u32_of_le(s[20], s[21], s[22], s[23]) == flags
            &&& s.subrange(24, 32) == reserved
        }),
{
    let s = head_record(total_length, message_id, packet_count, flags, reserved);
    lemma_u64_le_roundtrip(total_length);
    lemma_u64_le_roundtrip(message_id);
    lemma_u32_le_roundtrip(packet_count);
    lemma_u32_le_roundtrip(flags);
    assert(s.subrange(0, 8) =~= u64_le(total_length));
    assert(s.subrange(8, 16) =~= u64_le(message_id));
    assert(s.subrange(16, 20) =~= u32_le(packet_count));
    assert(s.subrange(20, 24) =~= u32_le(flags));
    assert(s.subrange(24, 32) =~= reserved);
    assert(s[16] == s.subrange(16, 20)[0] && s[17] == s.subrange(16, 20)[1] && s[18]
        == s.subrange(16, 20)[2] && s[19] == s.subrange(16, 20)[3]);
    assert(s[20] == s.subrange(20, 24)[0] && s[21] == s.subrange(20, 24)[1] && s[22]
        == s.subrange(20, 24)[2] && s[23] == s.subrange(20, 24)[3]);
}

/// A head record is read back from its own bytes unchanged.
pub proof fn lemma_head_roundtrip(h: MessageHead)
    ensures
        head_bytes(h).len() == MESSAGE_HEAD_SIZE,
        u64_of_le(head_bytes(h).subrange(0, 8)) == h.total_length,
        u64_of_le(head_bytes(h).subrange(8, 16)) == h.message_id,
        u32_of_le(head_bytes(h)[16], head_bytes(h)[17], head_bytes(h)[18], head_bytes(h)[19])
            == h.packet_count,
        u32_of_le(head_bytes(h)[20], head_bytes(h)[21], head_bytes(h)[22], head_bytes(h)[23])
            == h.flags,
        head_bytes(h).subrange(24, 32) == h.reserved@,
{
    assert(h.reserved@.len() == 8);
    lemma_head_record_fields(h.total_length, h.message_id, h.packet_count, h.flags, h.reserved@);
}

/// Calls `crc32fast::hash`, which runs a fresh hasher over `data` and
/// returns its final value. The crate documents that value as the CRC-32
/// of IEEE 802.3, which is the checksum that `crc32` states; that the two
/// agree is taken on trust here.
#[verifier::external_body]
fn payload_checksum(data: &[u8]) -> (crc: u32)
    ensures
        crc == crc32(data@),
{
    crc32fast::hash(data)
}

/// A header with the payload it announces.
pub struct Packet {
    pub header: PacketHeader,
    pub data: Vec<u8>,
}

/// The header of a packet of type `pkt_type` and sequence `seq` whose
/// payload has `len` bytes and checksum `crc`. The length field holds the
/// low 16 bits of `len`.
pub open spec fn sealed_header(pkt_type: PacketType, seq: u32, len: nat, crc: u32) -> PacketHeader {
    PacketHeader {
        magic: MAGIC,
        version: VERSION,
        pkt_type: pkt_type.code(),
        seq,
        length: (len % 0x1_0000) as u16,
        crc32: crc,
    }
}

impl Packet {
    /// Builds the packet that carries `data`, with the checksum of `data`
    /// in its header.
    pub fn new(pkt_type: PacketType, seq: u32, data: Vec<u8>) -> (p: Self)
        ensures
            p.data@ == data@,
            p.header == sealed_header(pkt_type, seq, data@.len(), crc32(data@)),
    {
        let crc = payload_checksum(data.as_slice());
        Packet::with_checksum(pkt_type, seq, data, crc)
    }

    /// Builds the packet that carries `data` and states `crc` as its
    /// checksum.
    pub fn with_checksum(pkt_type: PacketType, seq: u32, data: Vec<u8>, crc: u32) -> (p: Self)
        ensures
            p.data@ == data@,
            p.header == sealed_header(pkt_type, seq, data@.len(), crc),
    {
        let length = (data.len() % 0x1_0000) as u16;
        let mut header = PacketHeader::new(pkt_type, seq, length);
        header.crc32 = crc;
        Packet { header, data }
    }

    /// Whether the checksum in the header is the checksum of the payload.
    pub fn verify_crc(&self) -> (ok: bool)
        ensures
            ok == (self.header.crc32 == crc32(self.data@)),
    {
        let computed = payload_checksum(self.data.as_slice());
        self.matches_checksum(computed)
    }

    /// Whether the checksum in the header is `computed`.
    pub fn matches_checksum(&self, computed: u32) -> (ok: bool)
        ensures
            ok == (self.header.crc32 == computed),
    {
        computed == self.header.crc32
    }
}

/// A packet built by `Packet::new` passes its own checksum test.
pub proof fn lemma_new_packet_verifies(pkt_type: PacketType, seq: u32, data: Seq<u8>)
    ensures
        sealed_header(pkt_type, seq, data.len(), crc32(data)).crc32 == crc32(
            data,
        ),
{
}

} // verus!
