//! The two halves of a connection.
//!
//! The [`Sender`] cuts packets into frames, writes them to the carrier and
//! keeps them until they are acknowledged. The [`Receiver`] takes frames,
//! puts packets together and says what to acknowledge.

use vstd::prelude::*;

pub mod receiver;
pub mod sender;

pub use receiver::Receiver;
pub use sender::Sender;

verus! {

/// How far a channel is from being closed.
#[derive(Debug, Clone, Copy, PartialEq, Eq, Structural)]
pub enum ChannelState {
    /// In use.
    Open,
    /// One side has asked to close.
    Closing,
    /// Done with.
    Closed,
}

} // verus!
