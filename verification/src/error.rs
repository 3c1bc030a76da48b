//! Errors of the frame-based engine.

use vstd::prelude::*;

verus! {

/// What a call of the engine can fail with.
#[derive(Debug, Clone, Copy, PartialEq, Eq, Structural)]
pub enum Error {
    /// A buffer handed in is shorter than what has to go into it, or than
    /// what it is said to hold.
    BufferTooSmall,
    /// No room is left to store more.
    BufferFull,
    /// The checksum of a frame is not the one it carries.
    ChecksumMismatch,
    /// The type tag of a frame is unknown.
    InvalidFrame,
    /// The version of a frame is not the one spoken here.
    VersionMismatch,
    /// A sequence number lies outside the window.
    SequenceOutOfRange,
    /// A segment lies too far ahead of what is expected, or no segment
    /// starts at the sequence number given.
    InvalidSequence,
    /// A payload is longer than a frame carries.
    PayloadTooLarge,
    /// A message is longer than a packet carries.
    PacketTooLarge,
    /// The send window has too few free slots.
    WindowFull,
    /// The channel is not open.
    ChannelClosed,
    /// The connection is not in the state that the call needs.
    InvalidState,
    /// Nothing is ready; try again later.
    WouldBlock,
    /// A frame was sent as often as allowed and never acknowledged.
    MaxRetriesExceeded,
    /// The packet asked for is not complete.
    IncompleteFragment,
    /// A fragment index is not below the number of fragments.
    InvalidFragmentIndex,
    /// A reassembly took too long and was given up.
    FragmentTimeout,
    /// The carrier failed.
    IoError,
}

pub type Result<T> = core::result::Result<T, Error>;

/// The text that describes each error.
pub open spec fn error_text(e: Error) -> Seq<char> {
    match e {
        Error::BufferTooSmall => "buffer too small"@,
        Error::BufferFull => "buffer full"@,
        Error::ChecksumMismatch => "checksum mismatch"@,
        Error::InvalidFrame => "invalid frame"@,
        Error::VersionMismatch => "version mismatch"@,
        Error::SequenceOutOfRange => "sequence out of range"@,
        Error::InvalidSequence => "invalid sequence"@,
        Error::PayloadTooLarge => "payload too large"@,
        Error::PacketTooLarge => "packet too large"@,
        Error::WindowFull => "window full"@,
        Error::ChannelClosed => "channel closed"@,
        Error::InvalidState => "invalid state"@,
        Error::WouldBlock => "would block"@,
        Error::MaxRetriesExceeded => "maximum retransmissions exceeded"@,
        Error::IncompleteFragment => "incomplete fragment"@,
        Error::InvalidFragmentIndex => "invalid fragment index"@,
        Error::FragmentTimeout => "fragment timeout"@,
        Error::IoError => "i/o error"@,
    }
}

impl Error {
    /// The description of the error, as a reader would want it printed.
    pub fn message(&self) -> (text: &'static str)
        ensures
            text@ == error_text(*self),
    {
        match self {
            Error::BufferTooSmall => "buffer too small",
            Error::BufferFull => "buffer full",
            Error::ChecksumMismatch => "checksum mismatch",
            Error::InvalidFrame => "invalid frame",
            Error::VersionMismatch => "version mismatch",
            Error::SequenceOutOfRange => "sequence out of range",
            Error::InvalidSequence => "invalid sequence",
            Error::PayloadTooLarge => "payload too large",
            Error::PacketTooLarge => "packet too large",
            Error::WindowFull => "window full",
            Error::ChannelClosed => "channel closed",
            Error::InvalidState => "invalid state",
            Error::WouldBlock => "would block",
            Error::MaxRetriesExceeded => "maximum retransmissions exceeded",
            Error::IncompleteFragment => "incomplete fragment",
            Error::InvalidFragmentIndex => "invalid fragment index",
            Error::FragmentTimeout => "fragment timeout",
            Error::IoError => "i/o error",
        }
    }

    /// Whether the error says no more than "not now": the caller may try
    /// the same call again later.
    pub fn is_transient(&self) -> (b: bool)
        ensures
            b == (*self == Error::WouldBlock || *self == Error::WindowFull || *self
                == Error::BufferFull),
    {
        match self {
            Error::WouldBlock | Error::WindowFull | Error::BufferFull => true,
            _ => false,
        }
    }
}

} // verus!
