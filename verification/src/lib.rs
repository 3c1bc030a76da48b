//! A reliable, message-oriented transport over any ordered byte carrier.
//!
//! The crate root holds the frame-based engine: checksummed frames
//! ([`codec`]), the buffers behind the send and receive paths ([`buffer`]),
//! reassembly and retransmission ([`reliable`]), the two channel halves
//! ([`channel`]) and the carriers they write to ([`transport`]).
//! [`engine`] runs one connection over them. [`stream`] is the byte-stream
//! flavour of the two channel halves, and
//! [`xtrp`] is the alternate framing in which a large message is announced
//! by a head record.
//!
//! Every function is verified against its contract; the few places where an
//! outside crate is called are marked as such.
//!
//! What a carrier does with the bytes it is given is not for this crate to
//! say. A function that writes to a carrier states what it handed over, in
//! a record that exists only in the proofs (`offered` for the channel
//! halves, `handed` and `taken` for the transport of [`xtrp`]), and what
//! holds whatever the carrier made of it. What is decided on the bytes that
//! came back is decided in functions of their own, with exact contracts.

pub mod buffer;
pub mod channel;
pub mod codec;
pub mod config;
pub mod engine;
pub mod error;
pub mod math;
pub mod reliable;
pub mod stream;
pub mod transport;
pub mod wire;
pub mod xtrp;

use vstd::prelude::*;

verus! {

/// Version byte carried by every frame.
pub const VERSION: u8 = 0x01;

/// Largest frame on the wire: the header plus the longest payload that the
/// 16-bit payload length can announce.
pub const MAX_FRAME_SIZE: usize = 65559;

/// Largest application message.
pub const MAX_PACKET_SIZE: usize = 65535;

} // verus!
