//! The frame: what travels on the wire.
//!
//! ```text
//!  0                   1                   2                   3
//!  0 1 2 3 4 5 6 7 8 9 0 1 2 3 4 5 6 7 8 9 0 1 2 3 4 5 6 7 8 9 0 1
//! +---------------+---------------+-------------------------------+
//! |    Version    |     Type      |             Flags             |
//! +---------------+---------------+-------------------------------+
//! |                        Sequence Number                        |
//! +---------------------------------------------------------------+
//! |                     Acknowledgment Number                     |
//! +-------------------------------+---------------+---------------+
//! |           Packet ID           | Fragment Idx  |  Total Frags  |
//! +-------------------------------+---------------+---------------+
//! |        Payload Length         |           Reserved            |
//! +-------------------------------+-------------------------------+
//! |                             CRC32                             |
//! +---------------------------------------------------------------+
//! |                           Payload...                          |
//! ```
//!
//! All integers are big-endian. The checksum covers the first 20 bytes of
//! the header followed by the payload.

use vstd::prelude::*;
use crate::codec::checksum::{concat, contents, crc32, lemma_crc32_detects_one_byte, Crc32};
use crate::error::{Error, Result};
use crate::wire::{
    get_u16_be, get_u32_be, lemma_u16_be_roundtrip, lemma_u32_be_bytes, lemma_u32_be_roundtrip,
    put_u16_be, put_u32_be, u16_be, u16_of_be, u32_be, u32_of_be,
};
use crate::VERSION;

verus! {

/// Size of the frame header in bytes.
pub const FRAME_HEADER_SIZE: usize = 24;

/// Number of header bytes that the checksum covers.
pub const CHECKED_HEADER_SIZE: usize = 20;

/// Longest payload of a frame.
pub const MAX_PAYLOAD_SIZE: usize = 65535;

/// What a frame is for.
#[derive(Debug, Clone, Copy, PartialEq, Eq, Structural)]
pub enum FrameType {
    /// Carries a fragment of a packet.
    Data,
    /// Acknowledges all frames before a sequence number.
    Ack,
    /// Asks for one frame again.
    Nack,
    /// Asks the peer whether it is there.
    Ping,
    /// Answers a ping.
    Pong,
    /// Ends the connection at once.
    Reset,
    /// Announces a new window size.
    WindowUpdate,
    /// Opens a connection.
    Sync,
    /// Accepts a connection.
    SyncAck,
    /// Asks to close the connection.
    Fin,
    /// Agrees to close the connection.
    FinAck,
}

impl FrameType {
    /// The tag that stands for this type on the wire.
    pub open spec fn code(self) -> u8 {
        match self {
            FrameType::Data => 0x01,
            FrameType::Ack => 0x02,
            FrameType::Nack => 0x03,
            FrameType::Ping => 0x04,
            FrameType::Pong => 0x05,
            FrameType::Reset => 0x06,
            FrameType::WindowUpdate => 0x07,
            FrameType::Sync => 0x08,
            FrameType::SyncAck => 0x09,
            FrameType::Fin => 0x0A,
            FrameType::FinAck => 0x0B,
        }
    }

    /// The type that a tag stands for, if any.
    pub open spec fn of_code(value: u8) -> Option<FrameType> {
        if value == 0x01 {
            Some(FrameType::Data)
        } else if value == 0x02 {
            Some(FrameType::Ack)
        } else if value == 0x03 {
            Some(FrameType::Nack)
        } else if value == 0x04 {
            Some(FrameType::Ping)
        } else if value == 0x05 {
            Some(FrameType::Pong)
        } else if value == 0x06 {
            Some(FrameType::Reset)
        } else if value == 0x07 {
            Some(FrameType::WindowUpdate)
        } else if value == 0x08 {
            Some(FrameType::Sync)
        } else if value == 0x09 {
            Some(FrameType::SyncAck)
        } else if value == 0x0A {
            Some(FrameType::Fin)
        } else if value == 0x0B {
            Some(FrameType::FinAck)
        } else {
            None
        }
    }

    pub fn from_u8(value: u8) -> (t: Option<Self>)
        ensures
            t == Self::of_code(value),
    {
        match value {
            0x01 => Some(FrameType::Data),
            0x02 => Some(FrameType::Ack),
            0x03 => Some(FrameType::Nack),
            0x04 => Some(FrameType::Ping),
            0x05 => Some(FrameType::Pong),
            0x06 => Some(FrameType::Reset),
            0x07 => Some(FrameType::WindowUpdate),
            0x08 => Some(FrameType::Sync),
            0x09 => Some(FrameType::SyncAck),
            0x0A => Some(FrameType::Fin),
            0x0B => Some(FrameType::FinAck),
            _ => None,
        }
    }

    pub fn to_u8(self) -> (value: u8)
        ensures
            value == self.code(),
    {
        match self {
            FrameType::Data => 0x01,
            FrameType::Ack => 0x02,
            FrameType::Nack => 0x03,
            FrameType::Ping => 0x04,
            FrameType::Pong => 0x05,
            FrameType::Reset => 0x06,
            FrameType::WindowUpdate => 0x07,
            FrameType::Sync => 0x08,
            FrameType::SyncAck => 0x09,
            FrameType::Fin => 0x0A,
            FrameType::FinAck => 0x0B,
        }
    }

    /// Whether frames of this type carry a payload: only data frames do.
    pub fn has_payload(&self) -> (b: bool)
        ensures
            b == (*self == FrameType::Data),
    {
        match self {
            FrameType::Data => true,
            _ => false,
        }
    }

    /// Whether frames of this type are acknowledged.
    pub fn requires_ack(&self) -> (b: bool)
        ensures
            b == (*self == FrameType::Data || *self == FrameType::Sync || *self
                == FrameType::Fin),
    {
        match self {
            FrameType::Data | FrameType::Sync | FrameType::Fin => true,
            _ => false,
        }
    }
}

/// Every type is read back from its own tag, and no other tag stands for
/// it.
pub proof fn lemma_frame_type_code_roundtrip(t: FrameType, value: u8)
    ensures
        FrameType::of_code(t.code()) == Some(t),
        FrameType::of_code(value) == Some(t) ==> value == t.code(),
{
}

/// The flag bit of the first fragment of a packet.
pub const FLAG_FIRST_FRAGMENT: u16 = 0x01;

/// The flag bit of the last fragment of a packet.
pub const FLAG_LAST_FRAGMENT: u16 = 0x02;

/// The flag bit of urgent data.
pub const FLAG_URGENT: u16 = 0x04;

/// The flag bit of a compressed payload.
pub const FLAG_COMPRESSED: u16 = 0x08;

/// The flag bit of an encrypted payload.
pub const FLAG_ENCRYPTED: u16 = 0x10;

/// The flags of a frame, one bit each.
#[derive(Debug, Clone, Copy, PartialEq, Eq, Structural)]
pub struct FrameFlags(pub u16);

impl Default for FrameFlags {
    fn default() -> (f: Self)
        ensures
            f.0 == 0,
    {
        FrameFlags(0)
    }
}

impl FrameFlags {
    /// Whether all the bits of `other` are set here.
    pub open spec fn has(self, other: FrameFlags) -> bool {
        self.0 & other.0 == other.0
    }

    /// No flag.
    pub fn none() -> (f: Self)
        ensures
            f.0 == 0,
    {
        FrameFlags(0)
    }

    /// The flag of the first fragment of a packet.
    pub fn first_fragment() -> (f: Self)
        ensures
            f.0 == FLAG_FIRST_FRAGMENT,
    {
        FrameFlags(FLAG_FIRST_FRAGMENT)
    }

    /// The flag of the last fragment of a packet.
    pub fn last_fragment() -> (f: Self)
        ensures
            f.0 == FLAG_LAST_FRAGMENT,
    {
        FrameFlags(FLAG_LAST_FRAGMENT)
    }

    /// The flag of urgent data.
    pub fn urgent() -> (f: Self)
        ensures
            f.0 == FLAG_URGENT,
    {
        FrameFlags(FLAG_URGENT)
    }

    /// The flag of a compressed payload.
    pub fn compressed() -> (f: Self)
        ensures
            f.0 == FLAG_COMPRESSED,
    {
        FrameFlags(FLAG_COMPRESSED)
    }

    /// The flag of an encrypted payload.
    pub fn encrypted() -> (f: Self)
        ensures
            f.0 == FLAG_ENCRYPTED,
    {
        FrameFlags(FLAG_ENCRYPTED)
    }

    pub fn from_bits(bits: u16) -> (f: Self)
        ensures
            f.0 == bits,
    {
        FrameFlags(bits)
    }

    pub fn bits(&self) -> (b: u16)
        ensures
            b == self.0,
    {
        self.0
    }

    /// Whether all the bits of `other` are set.
    pub fn contains(&self, other: Self) -> (b: bool)
        ensures
            b == self.has(other),
    {
        (self.0 & other.0) == other.0
    }

    /// Sets the bits of `other`.
    pub fn insert(&mut self, other: Self)
        ensures
            final(self).0 == old(self).0 | other.0,
            final(self).has(other),
    {
        let before = self.0;
        let added = other.0;
        self.0 = before | added;
        assert((before | added) & added == added) by (bit_vector);
    }

    /// Clears the bits of `other`.
    pub fn remove(&mut self, other: Self)
        ensures
            final(self).0 == old(self).0 & !other.0,
            final(self).0 & other.0 == 0,
    {
        let before = self.0;
        let gone = other.0;
        self.0 = before & !gone;
        assert((before & !gone) & gone == 0) by (bit_vector);
    }

    /// The flags that are set here or in `other`.
    pub fn union(self, other: Self) -> (f: Self)
        ensures
            f.0 == self.0 | other.0,
            f.has(self),
            f.has(other),
    {
        let a = self.0;
        let b = other.0;
        assert((a | b) & a == a && (a | b) & b == b) by (bit_vector);
        FrameFlags(a | b)
    }
}

/// The flags of fragment `index` of `total`: first where the index is
/// zero, last where it is the last index.
pub open spec fn fragment_flags(index: u8, total: u8) -> u16 {
    if index == 0 && index + 1 == total {
        0x03
    } else if index == 0 {
        0x01
    } else if index + 1 == total {
        0x02
    } else {
        0x00
    }
}

/// The flags of a fragment say whether it is the first and whether it is
/// the last, and nothing else.
pub proof fn lemma_fragment_flags(index: u8, total: u8)
    ensures
        FrameFlags(fragment_flags(index, total)).has(FrameFlags(FLAG_FIRST_FRAGMENT)) <==> index
            == 0,
        FrameFlags(fragment_flags(index, total)).has(FrameFlags(FLAG_LAST_FRAGMENT)) <==> index
            + 1 == total,
        fragment_flags(index, total) & !0x03u16 == 0,
{
    assert(0x03u16 & 0x01 == 0x01 && 0x03u16 & 0x02 == 0x02 && 0x01u16 & 0x01 == 0x01 && 0x01u16
        & 0x02 != 0x02 && 0x02u16 & 0x02 == 0x02 && 0x02u16 & 0x01 != 0x01 && 0x00u16 & 0x01
        != 0x01 && 0x00u16 & 0x02 != 0x02 && 0x03u16 & !0x03u16 == 0 && 0x02u16 & !0x03u16 == 0
        && 0x01u16 & !0x03u16 == 0 && 0x00u16 & !0x03u16 == 0) by (bit_vector);
}

/// A frame. The payload is borrowed from whoever built or received the
/// frame.
#[derive(Debug, Clone)]
pub struct Frame<'a> {
    /// Protocol version.
    pub version: u8,
    pub frame_type: FrameType,
    pub flags: FrameFlags,
    /// Sequence number of this frame.
    pub sequence: u32,
    /// The sequence number that the sender expects next from its peer.
    pub ack: u32,
    /// The packet that this fragment belongs to.
    pub packet_id: u16,
    /// Index of this fragment in its packet, from zero.
    pub fragment_index: u8,
    /// Number of fragments of the packet.
    pub total_fragments: u8,
    /// Checksum of header and payload; set when a frame is read, and
    /// computed anew when it is written.
    pub checksum: u32,
    pub payload: &'a [u8],
}

/// A frame as a value, with its payload as a byte string.
pub struct FrameView {
    pub version: u8,
    pub frame_type: FrameType,
    pub flags: u16,
    pub sequence: u32,
    pub ack: u32,
    pub packet_id: u16,
    pub fragment_index: u8,
    pub total_fragments: u8,
    pub checksum: u32,
    pub payload: Seq<u8>,
}

impl<'a> View for Frame<'a> {
    type V = FrameView;

    open spec fn view(&self) -> FrameView {
        FrameView {
            version: self.version,
            frame_type: self.frame_type,
            flags: self.flags.0,
            sequence: self.sequence,
            ack: self.ack,
            packet_id: self.packet_id,
            fragment_index: self.fragment_index,
            total_fragments: self.total_fragments,
            checksum: self.checksum,
            payload: self.payload@,
        }
    }
}

/// A frame without payload of the given type, with sequence and
/// acknowledgment number as given and everything else zero.
pub open spec fn control_frame(frame_type: FrameType, sequence: u32, ack: u32) -> FrameView {
    FrameView {
        version: VERSION,
        frame_type,
        flags: 0,
        sequence,
        ack,
        packet_id: 0,
        fragment_index: 0,
        total_fragments: 0,
        checksum: 0,
        payload: Seq::<u8>::empty(),
    }
}

/// The data frame that carries one fragment.
pub open spec fn data_frame(
    sequence: u32,
    ack: u32,
    packet_id: u16,
    fragment_index: u8,
    total_fragments: u8,
    payload: Seq<u8>,
) -> FrameView {
    FrameView {
        version: VERSION,
        frame_type: FrameType::Data,
        flags: fragment_flags(fragment_index, total_fragments),
        sequence,
        ack,
        packet_id,
        fragment_index,
        total_fragments,
        checksum: 0,
        payload,
    }
}

/// The first 20 bytes of the header of a frame: all of it but the
/// checksum. The length field holds the length of the payload.
pub open spec fn header_prefix(f: FrameView) -> Seq<u8> {
    seq![f.version, f.frame_type.code()] + u16_be(f.flags) + u32_be(f.sequence) + u32_be(f.ack)
        + u16_be(f.packet_id) + seq![f.fragment_index, f.total_fragments] + u16_be(
        f.payload.len() as u16,
    ) + seq![0u8, 0u8]
}

/// The checksum of a frame: that of the first 20 header bytes followed by
/// the payload.
pub open spec fn frame_checksum(f: FrameView) -> u32 {
    crc32(header_prefix(f) + f.payload)
}

/// A frame on the wire: header, with its checksum, then payload.
pub open spec fn wire_bytes(f: FrameView) -> Seq<u8> {
    header_prefix(f) + u32_be(frame_checksum(f)) + f.payload
}

/// The frame whose header `s` opens with and whose payload has `len`
/// bytes, of type `frame_type`.
pub open spec fn frame_at(s: Seq<u8>, frame_type: FrameType, len: int) -> FrameView {
    FrameView {
        version: s[0],
        frame_type,
        flags: u16_of_be(s[2], s[3]),
        sequence: u32_of_be(s[4], s[5], s[6], s[7]),
        ack: u32_of_be(s[8], s[9], s[10], s[11]),
        packet_id: u16_of_be(s[12], s[13]),
        fragment_index: s[14],
        total_fragments: s[15],
        checksum: u32_of_be(s[20], s[21], s[22], s[23]),
        payload: s.subrange(24, 24 + len),
    }
}

/// What reading a frame from the front of `s` yields: the frame and the
/// number of bytes it took, or the first of these errors that applies:
/// fewer than 24 bytes, a version other than this one, an unknown type,
/// fewer bytes than the header announces, a checksum other than the one
/// computed over the bytes.
pub open spec fn parse_frame(s: Seq<u8>) -> core::result::Result<(FrameView, nat), Error> {
    if s.len() < 24 {
        Err(Error::BufferTooSmall)
    } else if s[0] != VERSION {
        Err(Error::VersionMismatch)
    } else if FrameType::of_code(s[1]) is None {
        Err(Error::InvalidFrame)
    } else {
        let len = u16_of_be(s[16], s[17]) as int;
        if s.len() < 24 + len {
            Err(Error::BufferTooSmall)
        } else if u32_of_be(s[20], s[21], s[22], s[23]) != crc32(
            s.subrange(0, 20) + s.subrange(24, 24 + len),
        ) {
            Err(Error::ChecksumMismatch)
        } else {
            Ok((frame_at(s, FrameType::of_code(s[1])->Some_0, len), (24 + len) as nat))
        }
    }
}

/// What writing a frame into a buffer of `room` bytes fails with, if it
/// fails: the buffer is tested first, then the payload.
pub open spec fn serialize_error(f: FrameView, room: nat) -> Option<Error> {
    if room < 24 + f.payload.len() {
        Some(Error::BufferTooSmall)
    } else if f.payload.len() > 65535 {
        Some(Error::PayloadTooLarge)
    } else {
        None
    }
}

/// What is wrong with a frame, if anything: the version is tested first,
/// then the fragment index, then the payload.
pub open spec fn frame_defect(f: FrameView) -> Option<Error> {
    if f.version != VERSION {
        Some(Error::VersionMismatch)
    } else if f.total_fragments > 0 && f.fragment_index >= f.total_fragments {
        Some(Error::InvalidFragmentIndex)
    } else if f.payload.len() > 65535 {
        Some(Error::PayloadTooLarge)
    } else {
        None
    }
}

impl<'a> Frame<'a> {
    /// A frame without payload.
    fn control(frame_type: FrameType, sequence: u32, ack: u32) -> (f: Frame<'static>)
        ensures
            f@ == control_frame(frame_type, sequence, ack),
    {
        let payload: &'static [u8] = &[];
        assert(payload@ =~= Seq::<u8>::empty());
        Frame {
            version: VERSION,
            frame_type,
            flags: FrameFlags(0),
            sequence,
            ack,
            packet_id: 0,
            fragment_index: 0,
            total_fragments: 0,
            checksum: 0,
            payload,
        }
    }

    /// The data frame for fragment `fragment_index` of `total_fragments`
    /// of packet `packet_id`. The first fragment is flagged as first, the
    /// last one as last.
    pub fn new_data(
        sequence: u32,
        ack: u32,
        packet_id: u16,
        fragment_index: u8,
        total_fragments: u8,
        payload: &'a [u8],
    ) -> (f: Self)
        ensures
            f@ == data_frame(sequence, ack, packet_id, fragment_index, total_fragments, payload@),
    {
        let first = fragment_index == 0;
        let last = fragment_index as u16 + 1 == total_fragments as u16;
        let flags: u16 = if first && last {
            0x03
        } else if first {
            0x01
        } else if last {
            0x02
        } else {
            0x00
        };
        Frame {
            version: VERSION,
            frame_type: FrameType::Data,
            flags: FrameFlags(flags),
            sequence,
            ack,
            packet_id,
            fragment_index,
            total_fragments,
            checksum: 0,
            payload,
        }
    }

    /// The frame that acknowledges everything before `ack`.
    pub fn new_ack(ack: u32) -> (f: Frame<'static>)
        ensures
            f@ == control_frame(FrameType::Ack, 0, ack),
    {
        Frame::control(FrameType::Ack, 0, ack)
    }

    /// The frame that asks for frame `sequence` again.
    pub fn new_nack(sequence: u32) -> (f: Frame<'static>)
        ensures
            f@ == control_frame(FrameType::Nack, sequence, 0),
    {
        Frame::control(FrameType::Nack, sequence, 0)
    }

    pub fn new_ping(sequence: u32) -> (f: Frame<'static>)
        ensures
            f@ == control_frame(FrameType::Ping, sequence, 0),
    {
        Frame::control(FrameType::Ping, sequence, 0)
    }

    /// The answer to the ping with the same sequence number.
    pub fn new_pong(sequence: u32) -> (f: Frame<'static>)
        ensures
            f@ == control_frame(FrameType::Pong, sequence, 0),
    {
        Frame::control(FrameType::Pong, sequence, 0)
    }

    /// The frame that opens a connection whose first sequence number is
    /// `sequence`.
    pub fn new_sync(sequence: u32) -> (f: Frame<'static>)
        ensures
            f@ == control_frame(FrameType::Sync, sequence, 0),
    {
        Frame::control(FrameType::Sync, sequence, 0)
    }

    /// The frame that accepts a connection.
    pub fn new_sync_ack(sequence: u32, ack: u32) -> (f: Frame<'static>)
        ensures
            f@ == control_frame(FrameType::SyncAck, sequence, ack),
    {
        Frame::control(FrameType::SyncAck, sequence, ack)
    }

    /// The frame that asks to close the connection.
    pub fn new_fin(sequence: u32) -> (f: Frame<'static>)
        ensures
            f@ == control_frame(FrameType::Fin, sequence, 0),
    {
        Frame::control(FrameType::Fin, sequence, 0)
    }

    /// The frame that agrees to close the connection.
    pub fn new_fin_ack(sequence: u32, ack: u32) -> (f: Frame<'static>)
        ensures
            f@ == control_frame(FrameType::FinAck, sequence, ack),
    {
        Frame::control(FrameType::FinAck, sequence, ack)
    }

    /// The frame that ends the connection at once.
    pub fn new_reset(sequence: u32) -> (f: Frame<'static>)
        ensures
            f@ == control_frame(FrameType::Reset, sequence, 0),
    {
        Frame::control(FrameType::Reset, sequence, 0)
    }

    /// The frame that announces a window of `window_size` frames; the size
    /// travels in the sequence field.
    pub fn new_window_update(window_size: u32) -> (f: Frame<'static>)
        ensures
            f@ == control_frame(FrameType::WindowUpdate, window_size, 0),
    {
        Frame::control(FrameType::WindowUpdate, window_size, 0)
    }

    /// Number of bytes of this frame on the wire, where that number can be
    /// held.
    pub fn wire_size(&self) -> (n: usize)
        requires
            self.payload@.len() + FRAME_HEADER_SIZE <= usize::MAX,
        ensures
            n == FRAME_HEADER_SIZE + self.payload@.len(),
    {
        FRAME_HEADER_SIZE + self.payload.len()
    }

    /// Writes the frame to the front of `buf` and returns the number of
    /// bytes written. The checksum is computed here; the `checksum` field
    /// is not read. On failure `buf` is left as it was.
    pub fn serialize(&self, buf: &mut [u8]) -> (r: Result<usize>)
        ensures
            final(buf)@.len() == old(buf)@.len(),
            match serialize_error(self@, old(buf)@.len()) {
                Some(e) => r == Err::<usize, Error>(e) && final(buf)@ == old(buf)@,
                None => r == Ok::<usize, Error>((24 + self.payload@.len()) as usize) && final(buf)@
                    == wire_bytes(self@) + old(buf)@.subrange(
                    24 + self.payload@.len() as int,
                    old(buf)@.len() as int,
                ),
            },
    {
        let len = self.payload.len();
        let room = buf.len();
        if room < FRAME_HEADER_SIZE || room - FRAME_HEADER_SIZE < len {
            return Err(Error::BufferTooSmall);
        }
        if len > MAX_PAYLOAD_SIZE {
            return Err(Error::PayloadTooLarge);
        }
        let total = FRAME_HEADER_SIZE + len;
        buf[0] = self.version;
        buf[1] = self.frame_type.to_u8();
        put_u16_be(buf, 2, self.flags.0);
        put_u32_be(buf, 4, self.sequence);
        put_u32_be(buf, 8, self.ack);
        put_u16_be(buf, 12, self.packet_id);
        buf[14] = self.fragment_index;
        buf[15] = self.total_fragments;
        put_u16_be(buf, 16, len as u16);
        buf[18] = 0;
        buf[19] = 0;
        proof {
            let s = buf@;
            assert(s.subrange(2, 4) == u16_be(self.flags.0));
            assert(s.subrange(4, 8) == u32_be(self.sequence));
            assert(s.subrange(8, 12) == u32_be(self.ack));
            assert(s.subrange(12, 14) == u16_be(self.packet_id));
            assert(s.subrange(16, 18) == u16_be(len as u16));
            assert(s.subrange(0, 20) =~= seq![s[0], s[1]] + s.subrange(2, 4) + s.subrange(4, 8)
                + s.subrange(8, 12) + s.subrange(12, 14) + seq![s[14], s[15]] + s.subrange(16, 18)
                + seq![s[18], s[19]]);
            assert(s.subrange(0, 20) == header_prefix(self@));
        }
        let mut i: usize = 0;
        while i < len
            invariant
                i <= len,
                len == self.payload@.len(),
                total == 24 + len,
                total <= buf@.len(),
                buf@.len() == old(buf)@.len(),
                buf@.subrange(0, 20) == header_prefix(self@),
                buf@.subrange(24, 24 + i) == self.payload@.subrange(0, i as int),
                forall|k: int| total <= k < buf@.len() ==> buf@[k] == old(buf)@[k],
            decreases len - i,
        {
            let ghost before = buf@;
            buf[FRAME_HEADER_SIZE + i] = self.payload[i];
            assert(buf@.subrange(0, 20) =~= before.subrange(0, 20));
            assert(buf@.subrange(24, 24 + i + 1) =~= before.subrange(24, 24 + i).push(
                self.payload@[i as int],
            ));
            assert(self.payload@.subrange(0, i + 1) =~= self.payload@.subrange(0, i as int).push(
                self.payload@[i as int],
            ));
            i = i + 1;
        }
        assert(self.payload@.subrange(0, len as int) =~= self.payload@);
        let checksum = {
            let parts: [&[u8]; 2] = [&buf[0..CHECKED_HEADER_SIZE], self.payload];
            proof {
                let c = contents(parts@);
                assert(c.len() == 2);
                assert(c.drop_last().drop_last() =~= Seq::<Seq<u8>>::empty());
                assert(c.drop_last().last() == buf@.subrange(0, 20));
                assert(c.last() == self.payload@);
                assert(concat(c) =~= buf@.subrange(0, 20) + self.payload@) by {
                    reveal_with_fuel(concat, 3);
                }
            }
            Crc32::compute_slices(&parts)
        };
        let ghost before = buf@;
        put_u32_be(buf, 20, checksum);
        proof {
            let s = buf@;
            assert(s.subrange(0, 20) =~= before.subrange(0, 20));
            assert(s.subrange(24, 24 + len) =~= before.subrange(24, 24 + len));
            assert(s =~= wire_bytes(self@) + old(buf)@.subrange(24 + len, old(buf)@.len() as int))
                by {
                assert(s =~= s.subrange(0, 20) + s.subrange(20, 24) + s.subrange(24, 24 + len)
                    + s.subrange(24 + len, s.len() as int));
                assert(s.subrange(24 + len, s.len() as int) =~= old(buf)@.subrange(
                    24 + len,
                    old(buf)@.len() as int,
                ));
            }
        }
        Ok(total)
    }

    /// Reads a frame from the front of `buf`, and returns it with the
    /// number of bytes it took. The payload of the frame is a part of
    /// `buf`.
    pub fn deserialize(buf: &'a [u8]) -> (r: Result<(Self, usize)>)
        ensures
            match parse_frame(buf@) {
                Ok((frame, taken)) => r matches Ok((f, n)) && f@ == frame && n == taken,
                Err(e) => r matches Err(x) && x == e,
            },
    {
        if buf.len() < FRAME_HEADER_SIZE {
            return Err(Error::BufferTooSmall);
        }
        let version = buf[0];
        if version != VERSION {
            return Err(Error::VersionMismatch);
        }
        let frame_type = match FrameType::from_u8(buf[1]) {
            Some(t) => t,
            None => {
                return Err(Error::InvalidFrame);
            },
        };
        let flags = FrameFlags::from_bits(get_u16_be(buf, 2));
        let sequence = get_u32_be(buf, 4);
        let ack = get_u32_be(buf, 8);
        let packet_id = get_u16_be(buf, 12);
        let fragment_index = buf[14];
        let total_fragments = buf[15];
        let payload_len = get_u16_be(buf, 16) as usize;
        let stored_checksum = get_u32_be(buf, 20);
        let total_size = FRAME_HEADER_SIZE + payload_len;
        if buf.len() < total_size {
            return Err(Error::BufferTooSmall);
        }
        let payload = &buf[FRAME_HEADER_SIZE..total_size];
        let computed_checksum = {
            let parts: [&[u8]; 2] = [&buf[0..CHECKED_HEADER_SIZE], payload];
            proof {
                let c = contents(parts@);
                assert(c.len() == 2);
                assert(c.drop_last().drop_last() =~= Seq::<Seq<u8>>::empty());
                assert(c.drop_last().last() == buf@.subrange(0, 20));
                assert(c.last() == payload@);
                assert(concat(c) =~= buf@.subrange(0, 20) + payload@) by {
                    reveal_with_fuel(concat, 3);
                }
            }
            Crc32::compute_slices(&parts)
        };
        if stored_checksum != computed_checksum {
            return Err(Error::ChecksumMismatch);
        }
        Ok(
            (
                Frame {
                    version,
                    frame_type,
                    flags,
                    sequence,
                    ack,
                    packet_id,
                    fragment_index,
                    total_fragments,
                    checksum: stored_checksum,
                    payload,
                },
                total_size,
            ),
        )
    }

    /// Tests the frame: its version, its fragment index, the length of its
    /// payload.
    pub fn validate(&self) -> (r: Result<()>)
        ensures
            match frame_defect(self@) {
                Some(e) => r == Err::<(), Error>(e),
                None => r is Ok,
            },
    {
        if self.version != VERSION {
            return Err(Error::VersionMismatch);
        }
        if self.total_fragments > 0 && self.fragment_index >= self.total_fragments {
            return Err(Error::InvalidFragmentIndex);
        }
        if self.payload.len() > MAX_PAYLOAD_SIZE {
            return Err(Error::PayloadTooLarge);
        }
        Ok(())
    }

    /// Whether this is flagged as the first fragment of its packet.
    pub fn is_first_fragment(&self) -> (b: bool)
        ensures
            b == self.flags.has(FrameFlags(FLAG_FIRST_FRAGMENT)),
    {
        self.flags.contains(FrameFlags::first_fragment())
    }

    /// Whether this is flagged as the last fragment of its packet.
    pub fn is_last_fragment(&self) -> (b: bool)
        ensures
            b == self.flags.has(FrameFlags(FLAG_LAST_FRAGMENT)),
    {
        self.flags.contains(FrameFlags::last_fragment())
    }

    /// Whether the packet of this frame has no other fragment.
    pub fn is_single_fragment(&self) -> (b: bool)
        ensures
            b == (self.total_fragments == 1),
    {
        self.total_fragments == 1
    }
}

/// The bytes of a frame on the wire, field by field.
pub proof fn lemma_wire_layout(f: FrameView)
    requires
        f.payload.len() <= 65535,
    ensures
        wire_bytes(f).len() == 24 + f.payload.len(),
        wire_bytes(f).subrange(0, 20) == header_prefix(f),
        wire_bytes(f).subrange(20, 24) == u32_be(frame_checksum(f)),
        wire_bytes(f).subrange(24, 24 + f.payload.len() as int) == f.payload,
        wire_bytes(f)[0] == f.version,
        wire_bytes(f)[1] == f.frame_type.code(),
        u16_of_be(wire_bytes(f)[2], wire_bytes(f)[3]) == f.flags,
        u32_of_be(wire_bytes(f)[4], wire_bytes(f)[5], wire_bytes(f)[6], wire_bytes(f)[7])
            == f.sequence,
        u32_of_be(wire_bytes(f)[8], wire_bytes(f)[9], wire_bytes(f)[10], wire_bytes(f)[11])
            == f.ack,
        u16_of_be(wire_bytes(f)[12], wire_bytes(f)[13]) == f.packet_id,
        wire_bytes(f)[14] == f.fragment_index,
        wire_bytes(f)[15] == f.total_fragments,
        u16_of_be(wire_bytes(f)[16], wire_bytes(f)[17]) == f.payload.len(),
        wire_bytes(f)[18] == 0,
        wire_bytes(f)[19] == 0,
        u32_of_be(wire_bytes(f)[20], wire_bytes(f)[21], wire_bytes(f)[22], wire_bytes(f)[23])
            == frame_checksum(f),
{
    let s = wire_bytes(f);
    let p = header_prefix(f);
    let len16 = f.payload.len() as u16;
    lemma_u16_be_roundtrip(f.flags);
    lemma_u32_be_roundtrip(f.sequence);
    lemma_u32_be_roundtrip(f.ack);
    lemma_u16_be_roundtrip(f.packet_id);
    lemma_u16_be_roundtrip(len16);
    lemma_u32_be_roundtrip(frame_checksum(f));
    assert(p.len() == 20);
    assert(s.subrange(0, 20) =~= p);
    assert(s.subrange(20, 24) =~= u32_be(frame_checksum(f)));
    assert(s.subrange(24, 24 + f.payload.len() as int) =~= f.payload);
    assert(p[0] == f.version && p[1] == f.frame_type.code());
    assert(p[2] == u16_be(f.flags)[0] && p[3] == u16_be(f.flags)[1]);
    assert(p[4] == u32_be(f.sequence)[0] && p[5] == u32_be(f.sequence)[1] && p[6] == u32_be(
        f.sequence,
    )[2] && p[7] == u32_be(f.sequence)[3]);
    assert(p[8] == u32_be(f.ack)[0] && p[9] == u32_be(f.ack)[1] && p[10] == u32_be(f.ack)[2]
        && p[11] == u32_be(f.ack)[3]);
    assert(p[12] == u16_be(f.packet_id)[0] && p[13] == u16_be(f.packet_id)[1]);
    assert(p[14] == f.fragment_index && p[15] == f.total_fragments);
    assert(p[16] == u16_be(len16)[0] && p[17] == u16_be(len16)[1]);
    assert(p[18] == 0 && p[19] == 0);
    assert(forall|i: int| 0 <= i < 20 ==> s[i] == p[i]);
    assert(s[20] == u32_be(frame_checksum(f))[0] && s[21] == u32_be(frame_checksum(f))[1] && s[22]
        == u32_be(frame_checksum(f))[2] && s[23] == u32_be(frame_checksum(f))[3]);
}

/// Reading what was written gives back the frame: every header field and
/// the payload, byte for byte, with the checksum that was computed for it,
/// and takes exactly the bytes written.
///
/// This holds of every frame that can be written and read at all: one of
/// this version whose payload fits the 16-bit length.
pub proof fn lemma_frame_roundtrip(f: FrameView)
    requires
        f.version == VERSION,
        f.payload.len() <= 65535,
    ensures
        serialize_error(f, wire_bytes(f).len()) is None,
        parse_frame(wire_bytes(f)) == Ok::<(FrameView, nat), Error>(
            (FrameView { checksum: frame_checksum(f), ..f }, (24 + f.payload.len()) as nat),
        ),
{
    lemma_wire_layout(f);
    lemma_frame_type_code_roundtrip(f.frame_type, 0);
    let s = wire_bytes(f);
    let len = f.payload.len() as int;
    assert(u16_of_be(s[16], s[17]) as int == len);
    assert(s.subrange(0, 20) + s.subrange(24, 24 + len) == header_prefix(f) + f.payload);
    let got = frame_at(s, f.frame_type, len);
    assert(got.payload == f.payload);
    assert(got == (FrameView { checksum: frame_checksum(f), ..f }));
}

/// Four bytes that differ somewhere stand for different 32-bit values.
proof fn lemma_u32_of_be_apart(a: Seq<u8>, b: Seq<u8>)
    requires
        a.len() == 4,
        b.len() == 4,
        a != b,
    ensures
        u32_of_be(a[0], a[1], a[2], a[3]) != u32_of_be(b[0], b[1], b[2], b[3]),
{
    lemma_u32_be_bytes(a[0], a[1], a[2], a[3]);
    lemma_u32_be_bytes(b[0], b[1], b[2], b[3]);
    if u32_of_be(a[0], a[1], a[2], a[3]) == u32_of_be(b[0], b[1], b[2], b[3]) {
        assert(a =~= seq![a[0], a[1], a[2], a[3]]);
        assert(b =~= seq![b[0], b[1], b[2], b[3]]);
    }
}

/// A written frame in which one byte has been changed is rejected with a
/// checksum mismatch.
///
/// Three places are left out, because the reader tests them before it
/// gets to the checksum: the version byte, the two bytes of the payload
/// length, and a type tag that is changed into an unknown one.
pub proof fn lemma_corruption_detected(f: FrameView, at: int, byte: u8)
    requires
        f.version == VERSION,
        f.payload.len() <= 65535,
        0 <= at < 24 + f.payload.len(),
        byte != wire_bytes(f)[at],
        at != 0,
        at != 16,
        at != 17,
        at == 1 ==> FrameType::of_code(byte) is Some,
    ensures
        parse_frame(wire_bytes(f).update(at, byte)) == Err::<(FrameView, nat), Error>(
            Error::ChecksumMismatch,
        ),
{
    lemma_wire_layout(f);
    lemma_frame_type_code_roundtrip(f.frame_type, 0);
    let s = wire_bytes(f);
    let t = s.update(at, byte);
    let len = f.payload.len() as int;
    assert(t.len() == 24 + len);
    assert(t[0] == VERSION);
    assert(FrameType::of_code(t[1]) is Some);
    assert(u16_of_be(t[16], t[17]) as int == len);
    let covered = s.subrange(0, 20) + s.subrange(24, 24 + len);
    let covered_now = t.subrange(0, 20) + t.subrange(24, 24 + len);
    assert(covered == header_prefix(f) + f.payload);
    let stored = u32_of_be(s[20], s[21], s[22], s[23]);
    let stored_now = u32_of_be(t[20], t[21], t[22], t[23]);
    assert(stored == crc32(covered));
    if 20 <= at < 24 {
        assert(covered_now =~= covered);
        let a = s.subrange(20, 24);
        let b = t.subrange(20, 24);
        assert(a[at - 20] != b[at - 20]);
        lemma_u32_of_be_apart(a, b);
    } else {
        assert(stored_now == stored);
        let k = if at < 20 {
            at
        } else {
            at - 4
        };
        assert(covered.len() == covered_now.len());
        assert(covered[k] != covered_now[k]);
        assert forall|i: int| 0 <= i < covered.len() && i != k implies covered[i]
            == covered_now[i] by {
            if i < 20 {
                assert(covered[i] == s[i] && covered_now[i] == t[i]);
            } else {
                assert(covered[i] == s[i + 4] && covered_now[i] == t[i + 4]);
            }
        }
        lemma_crc32_detects_one_byte(covered, covered_now, k);
    }
}

/// A written frame in which one byte has been changed in a place that the
/// reader tests before the checksum is rejected there: with a version
/// mismatch for the version byte, as an invalid frame for a type tag that
/// has become unknown, and as too short where the payload length has
/// grown. Nothing is said of a payload length that has shrunk.
pub proof fn lemma_corruption_rejected_early(f: FrameView, at: int, byte: u8)
    requires
        f.version == VERSION,
        f.payload.len() <= 65535,
        byte != wire_bytes(f)[at],
        at == 0 || at == 1 || at == 16 || at == 17,
        at == 1 ==> FrameType::of_code(byte) is None,
        at == 16 ==> u16_of_be(byte, wire_bytes(f)[17]) > f.payload.len(),
        at == 17 ==> u16_of_be(wire_bytes(f)[16], byte) > f.payload.len(),
    ensures
        parse_frame(wire_bytes(f).update(at, byte)) == Err::<(FrameView, nat), Error>(
            if at == 0 {
                Error::VersionMismatch
            } else if at == 1 {
                Error::InvalidFrame
            } else {
                Error::BufferTooSmall
            },
        ),
{
    lemma_wire_layout(f);
    lemma_frame_type_code_roundtrip(f.frame_type, 0);
    let t = wire_bytes(f).update(at, byte);
    assert(t.len() == 24 + f.payload.len());
}

/// A written frame in which one bit has been flipped is rejected with a
/// checksum mismatch, with the same three places left out as for a
/// changed byte.
pub proof fn lemma_bit_flip_detected(f: FrameView, at: int, bit: u8)
    requires
        f.version == VERSION,
        f.payload.len() <= 65535,
        0 <= at < 24 + f.payload.len(),
        bit < 8,
        at != 0,
        at != 16,
        at != 17,
        at == 1 ==> FrameType::of_code(wire_bytes(f)[at] ^ (1u8 << bit)) is Some,
    ensures
        parse_frame(wire_bytes(f).update(at, wire_bytes(f)[at] ^ (1u8 << bit))) == Err::<
            (FrameView, nat),
            Error,
        >(Error::ChecksumMismatch),
{
    let x = wire_bytes(f)[at];
    assert(x ^ (1u8 << bit) != x) by (bit_vector)
        requires
            bit < 8,
    ;
    lemma_corruption_detected(f, at, x ^ (1u8 << bit));
}

} // verus!
