//! The buffers behind the send and receive paths.
//!
//! - [`RingBuffer`]: a byte queue of fixed capacity
//! - [`SendWindow`]: the frames sent and not yet acknowledged
//! - [`ReceiveWindow`]: which sequence numbers have arrived

pub mod ring;

pub use ring::RingBuffer;
pub mod window;

pub use window::{ReceiveWindow, RetransmitIter, SendWindow, WindowEntry};
