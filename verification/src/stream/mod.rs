//! The two halves of a connection that carries a stream of bytes.
//!
//! Here a sequence number counts bytes, not frames. The [`Sender`] keeps
//! the bytes written in a ring until they are acknowledged and cuts
//! segments from it; the [`Receiver`] puts segments into a ring, in order
//! or not, and hands the bytes out in order.

pub mod config;
pub mod receiver;
pub mod sender;
pub mod time;

pub use config::Config;
pub use receiver::Receiver;
pub use sender::Sender;
pub use time::{Duration, Instant};
