//! The head-described framing.
//!
//! Every packet starts with a 16-byte little-endian header that opens with
//! the magic number. A message that fits one packet travels as a single
//! `Data` packet; a larger one is announced by a `MessageHead` packet whose
//! payload is a 32-byte head record, followed by its `MessageData` packets.

pub mod config;
pub mod error;
pub mod io;
pub mod protocol;
pub mod roundtrip;
pub mod transport;
