//! Frames, packets and the checksum that guards them.
//!
//! - [`Frame`]: the unit on the wire, a 24-byte header and a payload
//! - [`Packet`]: an application message, cut into fragments for sending
//! - [`Crc32`]: the checksum over header and payload

pub mod checksum;

pub use checksum::Crc32;
pub mod frame;

pub use crate::MAX_FRAME_SIZE;
pub use frame::{Frame, FrameFlags, FrameType, FRAME_HEADER_SIZE};
pub mod packet;

pub use packet::{OwnedPacket, Packet, PacketBuffer};
