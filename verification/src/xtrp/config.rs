//! Constants and options of the head-described framing.

use vstd::prelude::*;

verus! {

/// The four bytes "XTRP" that open every packet header.
pub const MAGIC: u32 = 0x58545250;

/// Version of this framing.
pub const VERSION: u8 = 0x01;

/// Size of a packet header in bytes.
pub const HEADER_SIZE: usize = 16;

/// Size of the head record of a large message in bytes.
pub const MESSAGE_HEAD_SIZE: usize = 32;

/// Default upper bound on a whole packet, header included.
pub const DEFAULT_MAX_FRAME_SIZE: usize = 4096;

/// Options of a transport.
pub struct TransportConfig {
    /// Most payload bytes a single packet carries.
    pub max_payload_size: usize,
    /// Whether every packet sent is confirmed by an `Ack` packet before
    /// the next one goes out.
    pub wait_for_ack: bool,
}

impl TransportConfig {
    pub fn new() -> (c: Self)
        ensures
            c.max_payload_size == DEFAULT_MAX_FRAME_SIZE - HEADER_SIZE,
            !c.wait_for_ack,
    {
        TransportConfig { max_payload_size: DEFAULT_MAX_FRAME_SIZE - HEADER_SIZE, wait_for_ack: false }
    }

    /// Sets the payload bound to what is left of `frame_size` after the
    /// header, or to zero where the header alone does not fit.
    pub fn with_max_frame_size(self, frame_size: usize) -> (c: Self)
        ensures
            c.max_payload_size == if frame_size >= HEADER_SIZE {
                frame_size - HEADER_SIZE
            } else {
                0
            },
            c.wait_for_ack == self.wait_for_ack,
    {
        let mut c = self;
        c.max_payload_size = frame_size.saturating_sub(HEADER_SIZE);
        c
    }

    pub fn with_ack(self, wait_for_ack: bool) -> (c: Self)
        ensures
            c.wait_for_ack == wait_for_ack,
            c.max_payload_size == self.max_payload_size,
    {
        let mut c = self;
        c.wait_for_ack = wait_for_ack;
        c
    }
}

impl Default for TransportConfig {
    fn default() -> (c: Self)
        ensures
            c.max_payload_size == DEFAULT_MAX_FRAME_SIZE - HEADER_SIZE,
            !c.wait_for_ack,
    {
        TransportConfig::new()
    }
}

} // verus!
