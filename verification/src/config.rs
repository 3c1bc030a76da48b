//! Options of a connection.

use vstd::prelude::*;
use crate::codec::frame::FRAME_HEADER_SIZE;

verus! {

/// Options of a connection. Times are in milliseconds.
#[derive(Debug, Clone, Copy, PartialEq, Eq, Structural)]
pub struct Config {
    /// Upper bound on a whole frame, header included.
    pub max_frame_size: usize,
    /// Most frames in flight at once.
    pub window_size: u16,
    /// How long to wait for an acknowledgment before the first
    /// retransmission.
    pub retransmit_timeout_ms: u32,
    /// How often a frame is sent before it is given up.
    pub max_retransmit: u8,
    /// Whether the receiver tests the checksum of every frame.
    pub enable_checksum: bool,
    /// How long a packet may take to be put together.
    pub fragment_timeout_ms: u32,
    /// Most packets that are put together at once.
    pub max_pending_fragments: usize,
    /// How long an acknowledgment may wait for a data frame to travel
    /// with; zero sends it at once.
    pub delayed_ack_ms: u32,
}

/// The options that a connection has unless told otherwise.
pub open spec fn default_config() -> Config {
    Config {
        max_frame_size: 1024,
        window_size: 32,
        retransmit_timeout_ms: 1000,
        max_retransmit: 5,
        enable_checksum: true,
        fragment_timeout_ms: 5000,
        max_pending_fragments: 16,
        delayed_ack_ms: 40,
    }
}

/// Options for short delays: small frames, short timeouts, a small
/// window.
pub open spec fn low_latency_config() -> Config {
    Config {
        max_frame_size: 256,
        window_size: 8,
        retransmit_timeout_ms: 100,
        max_retransmit: 3,
        enable_checksum: true,
        fragment_timeout_ms: 1000,
        max_pending_fragments: 4,
        delayed_ack_ms: 0,
    }
}

/// Options for much data: large frames, long timeouts, a large window.
pub open spec fn high_throughput_config() -> Config {
    Config {
        max_frame_size: 8192,
        window_size: 256,
        retransmit_timeout_ms: 3000,
        max_retransmit: 8,
        enable_checksum: true,
        fragment_timeout_ms: 10000,
        max_pending_fragments: 16,
        delayed_ack_ms: 100,
    }
}

impl Config {
    /// Most payload bytes of a frame: what the frame size leaves after the
    /// header, or nothing where the header alone does not fit.
    pub open spec fn payload_size(&self) -> usize {
        if self.max_frame_size >= FRAME_HEADER_SIZE {
            (self.max_frame_size - FRAME_HEADER_SIZE) as usize
        } else {
            0
        }
    }

    pub fn new() -> (c: Self)
        ensures
            c == default_config(),
    {
        Config {
            max_frame_size: 1024,
            window_size: 32,
            retransmit_timeout_ms: 1000,
            max_retransmit: 5,
            enable_checksum: true,
            fragment_timeout_ms: 5000,
            max_pending_fragments: 16,
            delayed_ack_ms: 40,
        }
    }

    pub fn low_latency() -> (c: Self)
        ensures
            c == low_latency_config(),
    {
        Config {
            max_frame_size: 256,
            window_size: 8,
            retransmit_timeout_ms: 100,
            max_retransmit: 3,
            enable_checksum: true,
            fragment_timeout_ms: 1000,
            max_pending_fragments: 4,
            delayed_ack_ms: 0,
        }
    }

    pub fn high_throughput() -> (c: Self)
        ensures
            c == high_throughput_config(),
    {
        Config {
            max_frame_size: 8192,
            window_size: 256,
            retransmit_timeout_ms: 3000,
            max_retransmit: 8,
            enable_checksum: true,
            fragment_timeout_ms: 10000,
            max_pending_fragments: 16,
            delayed_ack_ms: 100,
        }
    }

    /// Whether the options can be used: a frame has room for its header
    /// and at least one byte, and at least one frame may be in flight.
    pub open spec fn usable(&self) -> bool {
        self.max_frame_size > FRAME_HEADER_SIZE && self.window_size > 0
    }

    /// Whether the options can be used.
    pub fn is_usable(&self) -> (b: bool)
        ensures
            b == self.usable(),
    {
        self.max_frame_size > FRAME_HEADER_SIZE && self.window_size > 0
    }

    pub fn with_max_frame_size(self, max_frame_size: usize) -> (c: Self)
        ensures
            c == (Config { max_frame_size, ..self }),
    {
        let mut c = self;
        c.max_frame_size = max_frame_size;
        c
    }

    pub fn with_window_size(self, window_size: u16) -> (c: Self)
        ensures
            c == (Config { window_size, ..self }),
    {
        let mut c = self;
        c.window_size = window_size;
        c
    }

    pub fn with_retransmit_timeout_ms(self, retransmit_timeout_ms: u32) -> (c: Self)
        ensures
            c == (Config { retransmit_timeout_ms, ..self }),
    {
        let mut c = self;
        c.retransmit_timeout_ms = retransmit_timeout_ms;
        c
    }

    pub fn with_max_retransmit(self, max_retransmit: u8) -> (c: Self)
        ensures
            c == (Config { max_retransmit, ..self }),
    {
        let mut c = self;
        c.max_retransmit = max_retransmit;
        c
    }

    pub fn with_fragment_timeout_ms(self, fragment_timeout_ms: u32) -> (c: Self)
        ensures
            c == (Config { fragment_timeout_ms, ..self }),
    {
        let mut c = self;
        c.fragment_timeout_ms = fragment_timeout_ms;
        c
    }

    /// Most payload bytes of a frame.
    #[verifier::when_used_as_spec(payload_size)]
    pub fn max_payload_size(&self) -> (n: usize)
        ensures
            n == self.payload_size(),
    {
        self.max_frame_size.saturating_sub(FRAME_HEADER_SIZE)
    }
}

impl Default for Config {
    fn default() -> (c: Self)
        ensures
            c == default_config(),
    {
        Config::new()
    }
}

} // verus!
