//! Options of a byte-stream connection.

use vstd::prelude::*;

verus! {

/// Options of a byte-stream connection. Times are in milliseconds.
#[derive(Debug, Clone, Copy, PartialEq, Eq, Structural)]
pub struct Config {
    /// Bytes that the sender keeps until they are acknowledged.
    pub send_buffer_size: usize,
    /// Bytes that the receiver keeps until they are read.
    pub recv_buffer_size: usize,
    /// Most segments in flight, and most segments kept out of order.
    pub max_segments: usize,
    /// Most bytes of a segment.
    pub max_segment_size: usize,
    /// The timeout before the first retransmission.
    pub rto_initial_ms: u64,
    pub rto_min_ms: u64,
    pub rto_max_ms: u64,
    /// How often a segment is sent before it is given up.
    pub max_retries: u8,
    /// How long an acknowledgment may wait for data to travel with; zero
    /// sends it at once.
    pub delayed_ack_ms: u64,
}

/// The options that a byte-stream connection has unless told otherwise.
pub open spec fn default_config() -> Config {
    Config {
        send_buffer_size: 4096,
        recv_buffer_size: 4096,
        max_segments: 32,
        max_segment_size: 1024,
        rto_initial_ms: 1000,
        rto_min_ms: 200,
        rto_max_ms: 30000,
        max_retries: 5,
        delayed_ack_ms: 40,
    }
}

impl Config {
    pub fn new() -> (c: Self)
        ensures
            c == default_config(),
    {
        Config {
            send_buffer_size: 4096,
            recv_buffer_size: 4096,
            max_segments: 32,
            max_segment_size: 1024,
            rto_initial_ms: 1000,
            rto_min_ms: 200,
            rto_max_ms: 30000,
            max_retries: 5,
            delayed_ack_ms: 40,
        }
    }

    pub fn with_buffer_sizes(self, send_buffer_size: usize, recv_buffer_size: usize) -> (c: Self)
        ensures
            c == (Config { send_buffer_size, recv_buffer_size, ..self }),
    {
        let mut c = self;
        c.send_buffer_size = send_buffer_size;
        c.recv_buffer_size = recv_buffer_size;
        c
    }

    pub fn with_max_segments(self, max_segments: usize) -> (c: Self)
        ensures
            c == (Config { max_segments, ..self }),
    {
        let mut c = self;
        c.max_segments = max_segments;
        c
    }

    pub fn with_max_segment_size(self, max_segment_size: usize) -> (c: Self)
        ensures
            c == (Config { max_segment_size, ..self }),
    {
        let mut c = self;
        c.max_segment_size = max_segment_size;
        c
    }

    pub fn with_max_retries(self, max_retries: u8) -> (c: Self)
        ensures
            c == (Config { max_retries, ..self }),
    {
        let mut c = self;
        c.max_retries = max_retries;
        c
    }

    pub fn with_delayed_ack_ms(self, delayed_ack_ms: u64) -> (c: Self)
        ensures
            c == (Config { delayed_ack_ms, ..self }),
    {
        let mut c = self;
        c.delayed_ack_ms = delayed_ack_ms;
        c
    }
}

impl Default for Config {
    fn default() -> (c: Self)
        ensures
            c == default_config(),
    {
        Config::new()
    }
}

} // verus!
