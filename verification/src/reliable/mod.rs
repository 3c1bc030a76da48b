//! What makes the transport reliable.
//!
//! - [`Reassembler`]: puts the fragments of a packet together, in whatever
//!   order they arrive
//! - [`RetransmitManager`]: keeps track of the frames that wait for an
//!   acknowledgment, and of when to send them again

pub mod reassembler;
pub mod retransmit;

pub use reassembler::{Reassembler, ReassemblyEntry};
pub use retransmit::{PendingFrame, RetransmitManager, RetransmitStats, RetransmitTimer};
