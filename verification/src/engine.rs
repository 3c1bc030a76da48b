//! The protocol engine: one connection, from handshake to close.
//!
//! The engine owns a [`Sender`] and a [`Receiver`] and borrows the carrier
//! for each call. Nothing happens in the background: the caller calls
//! `poll`, or `send` and `recv`, often enough, and passes the time.
//!
//! ```text
//! IDLE -> CONNECTING -> CONNECTED -> CLOSING -> CLOSED
//! IDLE -> ACCEPTING  -> CONNECTED
//! ```
//!
//! A reset from the peer, and a failure of the carrier, close the
//! connection from any state.

use vstd::prelude::*;
use crate::channel::receiver::Receiver;
use crate::buffer::window::{seq_plus, SendWindow};
use crate::channel::sender::Sender;
use crate::codec::packet::fragments_of_len;
use crate::codec::frame::{
    control_frame, parse_frame, Frame, FrameType, FrameView, FRAME_HEADER_SIZE,
};
use crate::config::Config;
use crate::error::{Error, Result};
use crate::reliable::retransmit::bumped_by;
use crate::transport::Transport;
use crate::wire::{get_u16_be, u16_of_be};

verus! {

/// Most frames taken in one call of `process_incoming`.
pub const MAX_FRAMES_PER_CALL: usize = 4096;

/// How far a connection has got.
#[derive(Debug, Clone, Copy, PartialEq, Eq, Structural)]
pub enum ConnectionState {
    /// Nothing has happened yet.
    Idle,
    /// A sync has been sent; its answer is awaited.
    Connecting,
    /// A sync has arrived; it is for the caller to accept.
    Accepting,
    /// Messages can be sent and received.
    Connected,
    /// One side has asked to close.
    Closing,
    /// Done with.
    Closed,
}

/// What a frame does to the state of a connection: a sync takes an idle
/// connection to accepting, its answer takes a connecting one to
/// connected, a fin takes a connected one to closing, its answer takes a
/// closing one to closed, and a reset closes whatever there is. Nothing
/// else changes the state.
pub open spec fn state_after(state: ConnectionState, frame_type: FrameType) -> ConnectionState {
    match (state, frame_type) {
        (_, FrameType::Reset) => ConnectionState::Closed,
        (ConnectionState::Idle, FrameType::Sync) => ConnectionState::Accepting,
        (ConnectionState::Connecting, FrameType::SyncAck) => ConnectionState::Connected,
        (ConnectionState::Connected, FrameType::Fin) => ConnectionState::Closing,
        (ConnectionState::Closing, FrameType::FinAck) => ConnectionState::Closed,
        (state, _) => state,
    }
}

/// The state that a frame of type `frame_type` leaves a connection in.
pub fn next_state(state: ConnectionState, frame_type: FrameType) -> (next: ConnectionState)
    ensures
        next == state_after(state, frame_type),
{
    match frame_type {
        FrameType::Reset => ConnectionState::Closed,
        FrameType::Sync => match state {
            ConnectionState::Idle => ConnectionState::Accepting,
            _ => state,
        },
        FrameType::SyncAck => match state {
            ConnectionState::Connecting => ConnectionState::Connected,
            _ => state,
        },
        FrameType::Fin => match state {
            ConnectionState::Connected => ConnectionState::Closing,
            _ => state,
        },
        FrameType::FinAck => match state {
            ConnectionState::Closing => ConnectionState::Closed,
            _ => state,
        },
        _ => state,
    }
}

/// Once closed, a connection stays closed, whatever arrives.
pub proof fn lemma_closed_stays_closed(frame_type: FrameType)
    ensures
        state_after(ConnectionState::Closed, frame_type) == ConnectionState::Closed,
{
}

/// A reset closes the connection from any state.
pub proof fn lemma_reset_closes(state: ConnectionState)
    ensures
        state_after(state, FrameType::Reset) == ConnectionState::Closed,
{
}

/// The length that the first 24 bytes of `header` announce for the frame
/// that they open, if it is a frame of this version that fits in
/// `capacity` bytes.
pub open spec fn announced_extent(header: Seq<u8>, capacity: nat) -> Option<nat>
    recommends
        header.len() >= FRAME_HEADER_SIZE,
{
    let total = FRAME_HEADER_SIZE + u16_of_be(header[16], header[17]);
    if header[0] != crate::VERSION || total > capacity {
        None
    } else {
        Some(total as nat)
    }
}

/// How long the frame is that `header` opens, payload included, or `None`
/// where it is of another version or too long for a buffer of `capacity`
/// bytes.
pub fn frame_extent(header: &[u8], capacity: usize) -> (total: Option<usize>)
    requires
        header@.len() >= FRAME_HEADER_SIZE,
    ensures
        match announced_extent(header@, capacity as nat) {
            Some(n) => total == Some(n as usize) && FRAME_HEADER_SIZE <= n <= capacity,
            None => total is None,
        },
{
    if header[0] != crate::VERSION {
        return None;
    }
    let payload_len = get_u16_be(header, 16) as usize;
    if capacity < FRAME_HEADER_SIZE || payload_len > capacity - FRAME_HEADER_SIZE {
        return None;
    }
    Some(FRAME_HEADER_SIZE + payload_len)
}

/// Counts of what went over a connection. Each count stops at the largest
/// number it can hold.
#[derive(Debug, Clone, Copy, PartialEq, Eq, Structural)]
pub struct ProtocolStats {
    /// Frames sent, acknowledgments aside.
    pub packets_sent: u64,
    /// Frames received and understood, acknowledgments aside.
    pub packets_received: u64,
    /// Bytes of messages sent.
    pub bytes_sent: u64,
    /// Bytes of messages handed to the caller.
    pub bytes_received: u64,
    /// Frames dropped because their checksum was wrong.
    pub checksum_errors: u64,
    /// Frames dropped because they were not frames of this protocol.
    pub invalid_frames: u64,
}

impl ProtocolStats {
    /// Whether all counts are zero.
    pub open spec fn is_zero(&self) -> bool {
        &&& self.packets_sent == 0
        &&& self.packets_received == 0
        &&& self.bytes_sent == 0
        &&& self.bytes_received == 0
        &&& self.checksum_errors == 0
        &&& self.invalid_frames == 0
    }

    pub fn new() -> (s: Self)
        ensures
            s.is_zero(),
    {
        ProtocolStats {
            packets_sent: 0,
            packets_received: 0,
            bytes_sent: 0,
            bytes_received: 0,
            checksum_errors: 0,
            invalid_frames: 0,
        }
    }
}

impl Default for ProtocolStats {
    fn default() -> (s: Self)
        ensures
            s.is_zero(),
    {
        ProtocolStats::new()
    }
}

/// Whether a frame of type `frame_type` counts as a packet in the
/// statistics: every frame but an acknowledgment does.
pub open spec fn counts_as_packet(frame_type: FrameType) -> bool {
    frame_type != FrameType::Ack
}

/// One connection: a send window of `W` frames of at most `F` bytes, and
/// on the receiving side up to `E` packets of at most `N` bytes put
/// together at once.
pub struct Protocol<const W: usize, const F: usize, const E: usize, const N: usize> {
    config: Config,
    state: ConnectionState,
    sender: Sender<W, F>,
    receiver: Receiver<W, E, N>,
    /// The sequence number that the peer opened with.
    peer_initial_seq: u32,
    stats: ProtocolStats,
    /// Bytes of the frame that is arriving.
    rx_buf: [u8; F],
    rx_len: usize,
    /// Whether an acknowledgment is owed, and since when.
    ack_due: bool,
    ack_due_since: u64,
}

impl<const W: usize, const F: usize, const E: usize, const N: usize> Protocol<W, F, E, N> {
    pub closed spec fn spec_state(&self) -> ConnectionState {
        self.state
    }

    pub closed spec fn spec_config(&self) -> Config {
        self.config
    }

    pub closed spec fn spec_stats(&self) -> ProtocolStats {
        self.stats
    }

    pub closed spec fn sender(&self) -> Sender<W, F> {
        self.sender
    }

    pub closed spec fn receiver(&self) -> Receiver<W, E, N> {
        self.receiver
    }

    /// Whether an acknowledgment is owed to the peer.
    pub closed spec fn owes_ack(&self) -> bool {
        self.ack_due
    }

    /// Number of bytes that are there of the frame that is arriving.
    pub closed spec fn arriving_len(&self) -> usize {
        self.rx_len
    }

    /// The buffer in which a frame arrives, all `F` bytes of it.
    pub closed spec fn arriving(&self) -> Seq<u8> {
        self.rx_buf@
    }

    /// Since when the acknowledgment has been owed.
    pub closed spec fn owed_since(&self) -> u64 {
        self.ack_due_since
    }

    /// Whether `self` and `before` differ in nothing but the counts.
    pub closed spec fn same_but_stats(&self, before: &Self) -> bool {
        &&& self.config == before.config
        &&& self.state == before.state
        &&& self.sender == before.sender
        &&& self.receiver == before.receiver
        &&& self.peer_initial_seq == before.peer_initial_seq
        &&& self.rx_buf == before.rx_buf
        &&& self.rx_len == before.rx_len
        &&& self.ack_due == before.ack_due
        &&& self.ack_due_since == before.ack_due_since
    }

    /// What `same_but_stats` says, for those who cannot look inside.
    pub proof fn lemma_same_but_stats(&self, before: &Self)
        requires
            self.same_but_stats(before),
        ensures
            self.spec_config() == before.spec_config(),
            self.spec_state() == before.spec_state(),
            self.sender() == before.sender(),
            self.receiver() == before.receiver(),
            self.spec_peer_initial() == before.spec_peer_initial(),
            self.arriving() == before.arriving(),
            self.arriving_len() == before.arriving_len(),
            self.owes_ack() == before.owes_ack(),
            self.owed_since() == before.owed_since(),
    {
    }

    /// Whether the acknowledgment owed has been owed for the delay allowed
    /// at `now`.
    pub open spec fn ack_is_due(&self, now: u64) -> bool {
        self.owes_ack() && now.saturating_sub(self.owed_since())
            >= self.spec_config().delayed_ack_ms as u64
    }

    /// Whether `self` is `before` after the bytes `bytes` have been read as
    /// a frame at `now`, with `r` as the result. A frame is dealt with as
    /// `has_dealt_with` says, and the state moves as `state_after` says,
    /// unless the carrier fails, which closes the connection; that the
    /// carrier would block is no failure. Bytes with a wrong checksum are
    /// counted as such, any other bytes that are no frame as invalid, and
    /// nothing else changes.
    pub open spec fn has_accepted(&self, before: &Self, bytes: Seq<u8>, now: u64, r: Result<()>) -> bool {
        match parse_frame(bytes) {
            Ok((frame, _)) => exists|dealt: Result<()>| #[trigger]
                self.has_dealt_with(before, frame, now, dealt) && (match dealt {
                    Ok(_) => r is Ok,
                    Err(Error::WouldBlock) => r is Ok,
                    Err(e) => r == Err::<(), Error>(e),
                }) && self.spec_state() == (if dealt == Err::<(), Error>(Error::IoError) {
                    ConnectionState::Closed
                } else {
                    state_after(before.spec_state(), frame.frame_type)
                }),
            Err(e) => {
                &&& r is Ok
                &&& self.same_but_stats(before)
                &&& self.spec_stats() == (if e == Error::ChecksumMismatch {
                    ProtocolStats {
                        checksum_errors: bumped_by(before.spec_stats().checksum_errors, 1),
                        ..before.spec_stats()
                    }
                } else {
                    ProtocolStats {
                        invalid_frames: bumped_by(before.spec_stats().invalid_frames, 1),
                        ..before.spec_stats()
                    }
                })
            },
        }
    }

    /// Whether the receiving half of `self` is that of `before` after the
    /// messages that had taken too long to put together at `now` have been
    /// given up: none is left that is as old as the timeout, and nothing
    /// else has changed.
    pub open spec fn receiver_cleaned(&self, before: &Self, now: u64) -> bool {
        &&& self.receiver().window() == before.receiver().window()
        &&& self.receiver().spec_state() == before.receiver().spec_state()
        &&& self.receiver().same_staged(&before.receiver())
        &&& forall|i: int|
            0 <= i < E ==> !(#[trigger] self.receiver().reassembler().entry(i)).timed_out(
                now,
                self.receiver().reassembler().spec_timeout(),
            )
        &&& forall|i: int|
            0 <= i < E ==> (if before.receiver().reassembler().entry(i).timed_out(
                now,
                before.receiver().reassembler().spec_timeout(),
            ) {
                before.receiver().reassembler().entry(i).closed(
                    &#[trigger] self.receiver().reassembler().entry(i),
                )
            } else {
                self.receiver().reassembler().entry(i) == before.receiver().reassembler().entry(i)
            })
    }

    /// Whether `self` is `before` after it has settled what was due at
    /// `now`, with `r` as the result. `looked` is the sending half after
    /// its look for frames to send again, of which the carrier took
    /// `resent`; `acked` is what became of the acknowledgment, where one
    /// was due.
    ///
    /// The acknowledgment goes out if it has been owed for the delay
    /// allowed, and is no longer owed if the carrier took it. That the
    /// carrier would block is no failure; any other failure of the carrier
    /// ends the call. Where the call succeeds, the messages that have
    /// taken too long to put together are given up.
    pub open spec fn has_settled(
        &self,
        before: &Self,
        now: u64,
        r: Result<usize>,
        looked: Sender<W, F>,
        resent: usize,
        acked: Result<()>,
    ) -> bool {
        &&& looked.has_looked(&before.sender(), now, resent)
        &&& self.spec_stats() == before.spec_stats()
        &&& self.arriving_len() == before.arriving_len()
        &&& self.spec_peer_initial() == before.spec_peer_initial()
        &&& if before.ack_is_due(now) {
            &&& self.sender().same_but_scratch(&looked)
            &&& self.sender().offered() == Sender::<W, F>::with_frame(
                looked.offered(),
                control_frame(FrameType::Ack, 0, before.receiver().window().spec_expected()),
            )
            &&& self.owes_ack() == !(acked is Ok)
            &&& r == (match acked {
                Ok(_) => Ok::<usize, Error>(resent),
                Err(Error::WouldBlock) => Ok::<usize, Error>(resent),
                Err(e) => Err::<usize, Error>(e),
            })
            &&& self.spec_state() == (if acked == Err::<(), Error>(Error::IoError) {
                ConnectionState::Closed
            } else {
                before.spec_state()
            })
        } else {
            &&& self.sender() == looked
            &&& self.owes_ack() == before.owes_ack()
            &&& r == Ok::<usize, Error>(resent)
            &&& self.spec_state() == before.spec_state()
        }
        &&& if r is Ok {
            self.receiver_cleaned(before, now)
        } else {
            self.receiver() == before.receiver()
        }
    }

    /// The sequence number that the peer opened with.
    pub closed spec fn spec_peer_initial(&self) -> u32 {
        self.peer_initial_seq
    }

    /// Whether both halves are well formed and the frame that is arriving
    /// fits its buffer.
    pub closed spec fn wf(&self) -> bool {
        &&& self.sender.wf()
        &&& self.receiver.wf()
        &&& self.rx_len <= F
    }

    /// What `wf` says, for those who cannot look inside.
    pub proof fn lemma_wf(&self)
        requires
            self.wf(),
        ensures
            self.sender().wf(),
            self.receiver().wf(),
    {
    }

    /// An idle connection with the options of `config`.
    pub fn new(config: Config) -> (p: Self)
        requires
            config.max_frame_size > FRAME_HEADER_SIZE,
        ensures
            p.wf(),
            p.spec_state() == ConnectionState::Idle,
            p.spec_config() == config,
            p.spec_stats().is_zero(),
            !p.owes_ack(),
            !p.receiver().ready(),
    {
        Protocol {
            config,
            state: ConnectionState::Idle,
            sender: Sender::new(&config),
            receiver: Receiver::new(&config),
            peer_initial_seq: 0,
            stats: ProtocolStats::new(),
            rx_buf: [0u8;F],
            rx_len: 0,
            ack_due: false,
            ack_due_since: 0,
        }
    }

    #[verifier::when_used_as_spec(spec_state)]
    pub fn state(&self) -> (s: ConnectionState)
        ensures
            s == self.spec_state(),
    {
        self.state
    }

    pub fn config(&self) -> (c: &Config)
        ensures
            *c == self.spec_config(),
    {
        &self.config
    }

    pub fn stats(&self) -> (s: &ProtocolStats)
        ensures
            *s == self.spec_stats(),
    {
        &self.stats
    }

    /// Number of frames sent again so far.
    pub fn retransmissions(&self) -> (n: u64)
        ensures
            n == self.sender().retransmit().spec_stats().retransmissions,
    {
        self.sender.stats().retransmissions
    }

    /// Whether a message waits to be received.
    pub fn has_data(&self) -> (b: bool)
        ensures
            b == self.receiver().ready(),
    {
        self.receiver.has_data()
    }

    /// Whether `self` and `other` agree in the options and in the
    /// sequence number the peer opened with.
    pub open spec fn same_setup(&self, other: &Self) -> bool {
        self.spec_config() == other.spec_config()
    }

    /// Whether `self` is `before` after it has handed the control frame
    /// `frame` to the carrier, and has counted it if it was `taken`. The
    /// receiving half, the acknowledgment owed and the frame that is
    /// arriving are as they were; a buffer too short for a frame lets
    /// none go out.
    pub open spec fn has_sent_control(&self, before: &Self, frame: FrameView, taken: bool) -> bool {
        &&& self.receiver() == before.receiver()
        &&& self.owes_ack() == before.owes_ack()
        &&& self.arriving_len() == before.arriving_len()
        &&& self.spec_peer_initial() == before.spec_peer_initial()
        &&& self.sender().offered() == Sender::<W, F>::with_frame(before.sender().offered(), frame)
        &&& self.spec_stats() == (ProtocolStats {
            packets_sent: bumped_by(
                before.spec_stats().packets_sent,
                if taken && counts_as_packet(frame.frame_type) {
                    1
                } else {
                    0
                },
            ),
            ..before.spec_stats()
        })
    }

    /// What holds of `self` whenever it is `before` after frames have
    /// arrived and have been answered: the bytes of messages are counted
    /// as before, and the frames handed to the carrier before are still
    /// the first of those handed to it.
    pub open spec fn has_moved_on(&self, before: &Self) -> bool {
        &&& self.spec_stats().bytes_sent == before.spec_stats().bytes_sent
        &&& self.spec_stats().bytes_received == before.spec_stats().bytes_received
        &&& before.sender().offered().is_prefix_of(self.sender().offered())
    }

    /// Whether the counts of `self` are those of `before` after a frame of
    /// type `frame_type` has arrived and, if `sent`, a frame that counts as
    /// a packet has gone out.
    pub open spec fn has_counted(&self, before: &Self, frame_type: FrameType, sent: bool) -> bool {
        self.spec_stats() == (ProtocolStats {
            packets_received: bumped_by(
                before.spec_stats().packets_received,
                if counts_as_packet(frame_type) {
                    1
                } else {
                    0
                },
            ),
            packets_sent: bumped_by(
                before.spec_stats().packets_sent,
                if sent {
                    1
                } else {
                    0
                },
            ),
            ..before.spec_stats()
        })
    }

    /// Whether the receiving half of `self` is that of `before` after it
    /// has seen a frame of type `frame_type` that carries no data: a fin
    /// leaves it closing, a reset closed, and nothing else has changed.
    pub open spec fn receiver_saw(&self, before: &Self, frame_type: FrameType) -> bool {
        &&& self.receiver().spec_state() == before.receiver().state_after(frame_type)
        &&& self.receiver().window() == before.receiver().window()
        &&& self.receiver().reassembler() == before.receiver().reassembler()
        &&& self.receiver().same_staged(&before.receiver())
    }

    /// Whether the receiving half of `self` is that of `before` after it
    /// has been told that the peer starts at `seq`: it awaits the frame
    /// after `seq`, with nothing noted as arrived.
    pub open spec fn receiver_started(&self, before: &Self, seq: u32) -> bool {
        &&& self.spec_peer_initial() == seq
        &&& self.receiver().spec_state() == before.receiver().spec_state()
        &&& self.receiver().same_staged(&before.receiver())
        &&& self.receiver().reassembler() == before.receiver().reassembler()
        &&& self.receiver().window().spec_expected() == seq.wrapping_add(1)
        &&& self.receiver().window().limit() == before.receiver().window().limit()
        &&& forall|i: int| 0 <= i < W ==> !self.receiver().window().mark(i)
    }

    /// Whether `self` is `before` after it has dealt with the data frame
    /// `frame` at `now`, where `taken` is what the receiving half made of
    /// it and `acked` the sending half once it had taken the
    /// acknowledgment that the frame carries. The acknowledgment is owed
    /// if the frame completed a message; it goes out at once where no
    /// delay is allowed, and is no longer owed if the carrier took it.
    pub open spec fn has_taken_data(
        &self,
        before: &Self,
        frame: FrameView,
        now: u64,
        r: Result<()>,
        taken: Result<bool>,
        acked: Sender<W, F>,
    ) -> bool {
        &&& before.receiver().data_taken(
            &self.receiver(),
            frame.sequence,
            frame.packet_id,
            frame.fragment_index,
            frame.total_fragments,
            frame.payload,
            now,
            taken,
        )
        &&& acked.took_ack(&before.sender(), frame.ack.wrapping_sub(1), now)
        &&& if taken == Ok::<bool, Error>(true) && before.spec_config().delayed_ack_ms == 0 {
            &&& self.sender().same_but_scratch(&acked)
            &&& self.sender().offered() == Sender::<W, F>::with_frame(
                acked.offered(),
                control_frame(FrameType::Ack, 0, self.receiver().window().spec_expected()),
            )
            &&& self.owes_ack() == r is Err
        } else {
            &&& self.sender() == acked
            &&& r is Ok
            &&& self.owes_ack() == (before.owes_ack() || taken == Ok::<bool, Error>(true))
        }
    }

    /// Whether `self` is `before` after it has dealt with `frame`, which
    /// arrived at `now`, with `r` as the result.
    ///
    /// Data goes to the receiving half, and the acknowledgment that it
    /// carries to the sending half. An acknowledgment goes to the sending
    /// half. A request to send again is served from the window. A ping is
    /// answered with a pong. A pong acknowledges its ping. A sync that
    /// finds the connection idle, and the answer to a sync that finds it
    /// connecting, say where the peer starts; the answer is acknowledged.
    /// A fin that finds the connection connected is answered. Fin and
    /// reset are shown to the receiving half. Every other frame is only
    /// counted.
    pub open spec fn has_dealt_with(
        &self,
        before: &Self,
        frame: FrameView,
        now: u64,
        r: Result<()>,
    ) -> bool {
        let same_peer = self.spec_peer_initial() == before.spec_peer_initial();
        let same_owed = self.owes_ack() == before.owes_ack();
        match frame.frame_type {
            FrameType::Data => {
                &&& same_peer
                &&& self.has_counted(before, frame.frame_type, false)
                &&& exists|taken: Result<bool>, acked: Sender<W, F>| #[trigger]
                    self.has_taken_data(before, frame, now, r, taken, acked)
            },
            FrameType::Ack => {
                &&& r is Ok
                &&& same_peer
                &&& same_owed
                &&& self.has_counted(before, frame.frame_type, false)
                &&& self.receiver() == before.receiver()
                &&& self.sender().took_ack(&before.sender(), frame.ack.wrapping_sub(1), now)
            },
            FrameType::Nack => {
                let held = before.sender().window().in_range(frame.sequence)
                    && before.sender().window().holds(frame.sequence);
                &&& same_peer
                &&& same_owed
                &&& self.has_counted(before, frame.frame_type, false)
                &&& self.receiver() == before.receiver()
                &&& self.sender().same_counters(&before.sender())
                &&& self.sender().offered() == (if held {
                    before.sender().offered().push(
                        before.sender().window().entry(SendWindow::<W, F>::slot(frame.sequence)).frame(),
                    )
                } else {
                    before.sender().offered()
                })
                &&& !held ==> r is Ok && self.sender().window() == before.sender().window()
                    && self.sender().retransmit() == before.sender().retransmit()
            },
            FrameType::Ping => {
                &&& same_peer
                &&& same_owed
                &&& self.has_counted(before, frame.frame_type, r is Ok)
                &&& self.receiver() == before.receiver()
                &&& self.sender().same_but_scratch(&before.sender())
                &&& self.sender().offered() == Sender::<W, F>::with_frame(
                    before.sender().offered(),
                    control_frame(FrameType::Pong, frame.sequence, 0),
                )
            },
            FrameType::Pong => {
                &&& r is Ok
                &&& same_peer
                &&& same_owed
                &&& self.has_counted(before, frame.frame_type, false)
                &&& self.receiver() == before.receiver()
                &&& self.sender().took_single_ack(&before.sender(), frame.sequence, now)
            },
            FrameType::Sync => {
                &&& r is Ok
                &&& same_owed
                &&& self.has_counted(before, frame.frame_type, false)
                &&& self.sender() == before.sender()
                &&& if before.spec_state() == ConnectionState::Idle {
                    self.receiver_started(before, frame.sequence)
                } else {
                    same_peer && self.receiver() == before.receiver()
                }
            },
            FrameType::SyncAck => {
                &&& same_owed
                &&& self.has_counted(before, frame.frame_type, false)
                &&& if before.spec_state() == ConnectionState::Connecting {
                    &&& self.receiver_started(before, frame.sequence)
                    &&& self.sender().same_but_scratch(&before.sender())
                    &&& self.sender().offered() == Sender::<W, F>::with_frame(
                        before.sender().offered(),
                        control_frame(FrameType::Ack, 0, frame.sequence.wrapping_add(1)),
                    )
                } else {
                    &&& r is Ok
                    &&& same_peer
                    &&& self.receiver() == before.receiver()
                    &&& self.sender() == before.sender()
                }
            },
            FrameType::Fin => {
                &&& same_peer
                &&& same_owed
                &&& self.receiver_saw(before, frame.frame_type)
                &&& if before.spec_state() == ConnectionState::Connected {
                    &&& self.has_counted(before, frame.frame_type, r is Ok)
                    &&& self.sender().same_but_scratch(&before.sender())
                    &&& self.sender().offered() == Sender::<W, F>::with_frame(
                        before.sender().offered(),
                        control_frame(
                            FrameType::FinAck,
                            before.sender().window().spec_next(),
                            frame.sequence.wrapping_add(1),
                        ),
                    )
                } else {
                    &&& r is Ok
                    &&& self.has_counted(before, frame.frame_type, false)
                    &&& self.sender() == before.sender()
                }
            },
            FrameType::Reset => {
                &&& r is Ok
                &&& same_peer
                &&& same_owed
                &&& self.has_counted(before, frame.frame_type, false)
                &&& self.receiver_saw(before, frame.frame_type)
                &&& self.sender() == before.sender()
            },
            _ => {
                &&& r is Ok
                &&& same_peer
                &&& same_owed
                &&& self.has_counted(before, frame.frame_type, false)
                &&& self.receiver() == before.receiver()
                &&& self.sender() == before.sender()
            },
        }
    }

    /// The state after a call that ended with `r`, where `wanted` is the
    /// state that success leads to: a failure of the carrier closes the
    /// connection, any other failure leaves it as it was.
    pub open spec fn state_by<R>(
        &self,
        r: core::result::Result<R, Error>,
        wanted: ConnectionState,
    ) -> ConnectionState {
        match r {
            Ok(_) => wanted,
            Err(Error::IoError) => ConnectionState::Closed,
            Err(_) => self.spec_state(),
        }
    }

    /// Notes a frame of type `frame_type` as sent.
    fn count_sent(&mut self, frame_type: FrameType)
        ensures
            final(self).stats == (ProtocolStats {
                packets_sent: bumped_by(
                    old(self).stats.packets_sent,
                    if counts_as_packet(frame_type) {
                        1
                    } else {
                        0
                    },
                ),
                ..old(self).stats
            }),
            final(self).config == old(self).config,
            final(self).state == old(self).state,
            final(self).sender == old(self).sender,
            final(self).receiver == old(self).receiver,
            final(self).peer_initial_seq == old(self).peer_initial_seq,
            final(self).rx_buf == old(self).rx_buf,
            final(self).rx_len == old(self).rx_len,
            final(self).ack_due == old(self).ack_due,
            final(self).ack_due_since == old(self).ack_due_since,
    {
        match frame_type {
            FrameType::Ack => {},
            _ => {
                self.stats.packets_sent = self.stats.packets_sent.saturating_add(1);
            },
        }
    }

    /// Sends a frame without payload, counts it, and closes the
    /// connection if the carrier fails.
    fn emit<T: Transport>(&mut self, transport: &mut T, frame: &Frame<'_>) -> (r: Result<()>)
        requires
            old(self).wf(),
            old(transport).inv(),
            frame.payload@.len() == 0,
        ensures
            final(self).wf(),
            final(transport).inv(),
            final(self).same_setup(old(self)),
            final(self).spec_state() == old(self).state_by(r, old(self).spec_state()),
            final(self).receiver() == old(self).receiver(),
            final(self).sender().same_but_scratch(&old(self).sender()),
            final(self).sender().offered() == Sender::<W, F>::with_frame(
                old(self).sender().offered(),
                frame@,
            ),
            final(self).owes_ack() == old(self).owes_ack(),
            final(self).ack_due_since == old(self).ack_due_since,
            final(self).peer_initial_seq == old(self).peer_initial_seq,
            final(self).rx_len == old(self).rx_len,
            final(self).rx_buf == old(self).rx_buf,
            final(self).spec_stats() == (ProtocolStats {
                packets_sent: bumped_by(
                    old(self).spec_stats().packets_sent,
                    if r is Ok && counts_as_packet(frame.frame_type) {
                        1
                    } else {
                        0
                    },
                ),
                ..old(self).spec_stats()
            }),
    {
        match self.sender.send_control(transport, frame) {
            Ok(()) => {
                self.count_sent(frame.frame_type);
                Ok(())
            },
            Err(e) => {
                self.note_failure(e);
                Err(e)
            },
        }
    }

    /// Closes the connection if `e` is a failure of the carrier.
    fn note_failure(&mut self, e: Error)
        ensures
            final(self).state == (if e == Error::IoError {
                ConnectionState::Closed
            } else {
                old(self).state
            }),
            final(self).config == old(self).config,
            final(self).stats == old(self).stats,
            final(self).sender == old(self).sender,
            final(self).receiver == old(self).receiver,
            final(self).peer_initial_seq == old(self).peer_initial_seq,
            final(self).rx_buf == old(self).rx_buf,
            final(self).rx_len == old(self).rx_len,
            final(self).ack_due == old(self).ack_due,
            final(self).ack_due_since == old(self).ack_due_since,
    {
        match e {
            Error::IoError => {
                self.state = ConnectionState::Closed;
            },
            _ => {},
        }
    }

    /// Opens the connection: sends a sync with the first sequence number,
    /// which is used up by it, and awaits its answer. Fails with
    /// `InvalidState` where the connection is not idle.
    pub fn connect<T: Transport>(&mut self, transport: &mut T, now: u64) -> (r: Result<()>)
        requires
            old(self).wf(),
            old(transport).inv(),
        ensures
            final(self).wf(),
            final(transport).inv(),
            final(self).same_setup(old(self)),
            old(self).spec_state() != ConnectionState::Idle ==> r == Err::<(), Error>(
                Error::InvalidState,
            ) && *final(self) == *old(self),
            old(self).spec_state() == ConnectionState::Idle
                ==> final(self).spec_state() == old(self).state_by(r, ConnectionState::Connecting)
                && final(self).has_sent_control(
                old(self),
                control_frame(FrameType::Sync, old(self).sender().window().spec_next(), 0),
                r is Ok,
            ),
            r is Ok ==> final(self).sender().starts_at(
                old(self).sender().window().spec_next().wrapping_add(1),
            ),
    {
        match self.state {
            ConnectionState::Idle => {},
            _ => {
                return Err(Error::InvalidState);
            },
        }
        let seq = self.sender.window_next();
        let frame = Frame::new_sync(seq);
        match self.emit(transport, &frame) {
            Ok(()) => {},
            Err(e) => {
                return Err(e);
            },
        }
        self.sender.start_at(seq.wrapping_add(1));
        self.state = ConnectionState::Connecting;
        Ok(())
    }

    /// Accepts the connection that the peer has opened: answers its sync.
    /// Fails with `InvalidState` where no sync has arrived.
    pub fn accept<T: Transport>(&mut self, transport: &mut T, now: u64) -> (r: Result<()>)
        requires
            old(self).wf(),
            old(transport).inv(),
        ensures
            final(self).wf(),
            final(transport).inv(),
            final(self).same_setup(old(self)),
            old(self).spec_state() != ConnectionState::Accepting ==> r == Err::<(), Error>(
                Error::InvalidState,
            ) && *final(self) == *old(self),
            old(self).spec_state() == ConnectionState::Accepting ==> final(self).spec_state()
                == old(self).state_by(r, ConnectionState::Connected) && final(self).has_sent_control(
                old(self),
                control_frame(
                    FrameType::SyncAck,
                    old(self).sender().window().spec_next(),
                    old(self).spec_peer_initial().wrapping_add(1),
                ),
                r is Ok,
            ),
            r is Ok ==> final(self).sender().starts_at(
                old(self).sender().window().spec_next().wrapping_add(1),
            ),
    {
        match self.state {
            ConnectionState::Accepting => {},
            _ => {
                return Err(Error::InvalidState);
            },
        }
        let seq = self.sender.window_next();
        let frame = Frame::new_sync_ack(seq, self.peer_initial_seq.wrapping_add(1));
        match self.emit(transport, &frame) {
            Ok(()) => {},
            Err(e) => {
                return Err(e);
            },
        }
        self.sender.start_at(seq.wrapping_add(1));
        self.state = ConnectionState::Connected;
        Ok(())
    }

    /// Sends `data` as one message. The acknowledgment owed to the peer
    /// travels with it. Fails with `InvalidState` where the connection is
    /// not connected, and as `Sender::send_packet` does.
    pub fn send<T: Transport>(&mut self, transport: &mut T, data: &[u8], now: u64) -> (r: Result<
        usize,
    >)
        requires
            old(self).wf(),
            old(transport).inv(),
        ensures
            final(self).wf(),
            final(transport).inv(),
            final(self).same_setup(old(self)),
            final(self).receiver() == old(self).receiver(),
            old(self).spec_state() != ConnectionState::Connected ==> r == Err::<usize, Error>(
                Error::InvalidState,
            ) && *final(self) == *old(self),
            old(self).spec_state() == ConnectionState::Connected ==> {
                &&& final(self).spec_state() == old(self).state_by(r, ConnectionState::Connected)
                &&& final(self).sender().spec_ack() == old(self).receiver().window().spec_expected()
                &&& old(self).sender().refusal(data@.len()) matches Some(e) ==> r == Err::<
                    usize,
                    Error,
                >(e) && final(self).sender().offered() == old(self).sender().offered()
                &&& r matches Ok(n) ==> n == fragments_of_len(
                    data@.len(),
                    old(self).sender().spec_max_payload() as nat,
                ) && final(self).sender().offered() == old(self).sender().offered() + old(self).sender().frames_with(
                    old(self).receiver().window().spec_expected(),
                    data@,
                    n as nat,
                ) && final(self).sender().window().spec_next() == seq_plus(
                    old(self).sender().window().spec_next(),
                    n as int,
                )
                &&& r is Ok ==> !final(self).owes_ack() && final(self).spec_stats()
                    == (ProtocolStats {
                    packets_sent: bumped_by(old(self).spec_stats().packets_sent, 1),
                    bytes_sent: bumped_by(old(self).spec_stats().bytes_sent, data@.len() as int),
                    ..old(self).spec_stats()
                })
                &&& r is Err ==> final(self).spec_stats() == old(self).spec_stats()
            },
    {
        match self.state {
            ConnectionState::Connected => {},
            _ => {
                return Err(Error::InvalidState);
            },
        }
        self.sender.set_ack(self.receiver.expected_sequence());
        match self.sender.send_packet(transport, data, now) {
            Ok(n) => {
                self.ack_due = false;
                self.stats.packets_sent = self.stats.packets_sent.saturating_add(1);
                self.stats.bytes_sent = self.stats.bytes_sent.saturating_add(data.len() as u64);
                Ok(n)
            },
            Err(e) => {
                self.note_failure(e);
                Err(e)
            },
        }
    }

    /// Takes what has arrived, and copies the message that waits to the
    /// front of `dst`. Fails with `WouldBlock` where no message waits, and
    /// with `BufferTooSmall` where `dst` is too short for it.
    pub fn recv<T: Transport>(&mut self, transport: &mut T, dst: &mut [u8], now: u64) -> (r: Result<
        usize,
    >)
        requires
            old(self).wf(),
            old(transport).inv(),
        ensures
            final(self).wf(),
            final(transport).inv(),
            final(self).same_setup(old(self)),
            final(dst)@.len() == old(dst)@.len(),
            final(self).spec_stats().bytes_sent == old(self).spec_stats().bytes_sent,
            old(self).sender().offered().is_prefix_of(final(self).sender().offered()),
            r matches Ok(n) ==> n <= old(dst)@.len() && !final(self).receiver().ready()
                && final(self).spec_stats().bytes_received == bumped_by(
                old(self).spec_stats().bytes_received,
                n as int,
            ),
            r is Err ==> final(dst)@ == old(dst)@ && final(self).spec_stats().bytes_received
                == old(self).spec_stats().bytes_received,
            r == Err::<usize, Error>(Error::IoError) ==> final(self).spec_state()
                == ConnectionState::Closed,
    {
        match self.process_incoming(transport, now) {
            Ok(_) => {},
            Err(e) => {
                return Err(e);
            },
        }
        self.take_message(dst)
    }

    /// Copies the message that waits to the front of `dst`, lets go of it,
    /// and counts its bytes. Fails with `WouldBlock` where no message
    /// waits, and with `BufferTooSmall` where `dst` is too short for it;
    /// nothing changes then.
    pub fn take_message(&mut self, dst: &mut [u8]) -> (r: Result<usize>)
        requires
            old(self).wf(),
        ensures
            final(self).wf(),
            final(dst)@.len() == old(dst)@.len(),
            final(self).same_setup(old(self)),
            final(self).spec_state() == old(self).spec_state(),
            final(self).sender() == old(self).sender(),
            final(self).owes_ack() == old(self).owes_ack(),
            final(self).arriving_len() == old(self).arriving_len(),
            final(self).spec_peer_initial() == old(self).spec_peer_initial(),
            final(self).receiver().window() == old(self).receiver().window(),
            final(self).receiver().reassembler() == old(self).receiver().reassembler(),
            final(self).receiver().spec_state() == old(self).receiver().spec_state(),
            r == (if !old(self).receiver().ready() {
                Err::<usize, Error>(Error::WouldBlock)
            } else if old(dst)@.len() < old(self).receiver().staged().len() {
                Err::<usize, Error>(Error::BufferTooSmall)
            } else {
                Ok::<usize, Error>(old(self).receiver().staged().len() as usize)
            }),
            r is Err ==> final(dst)@ == old(dst)@
                && final(self).spec_stats() == old(self).spec_stats()
                && final(self).receiver().same_staged(&old(self).receiver()),
            r matches Ok(n) ==> {
                &&& final(dst)@ == old(self).receiver().staged() + old(dst)@.subrange(
                    old(self).receiver().staged().len() as int,
                    old(dst)@.len() as int,
                )
                &&& !final(self).receiver().ready()
                &&& final(self).receiver().staged() == Seq::<u8>::empty()
                &&& final(self).spec_stats() == (ProtocolStats {
                    bytes_received: bumped_by(old(self).spec_stats().bytes_received, n as int),
                    ..old(self).spec_stats()
                })
            },
    {
        match self.receiver.read(dst) {
            Ok(n) => {
                self.stats.bytes_received = self.stats.bytes_received.saturating_add(n as u64);
                Ok(n)
            },
            Err(e) => Err(e),
        }
    }

    /// Reads more of the frame that is arriving, until `upto` bytes are
    /// there in all or the carrier has nothing more. Returns whether that
    /// many bytes are there.
    fn fill<T: Transport>(&mut self, transport: &mut T, upto: usize) -> (r: Result<bool>)
        requires
            old(self).wf(),
            old(transport).inv(),
            old(self).rx_len <= upto <= F,
        ensures
            final(self).wf(),
            final(transport).inv(),
            old(self).rx_len <= final(self).rx_len <= upto,
            r == Ok::<bool, Error>(true) ==> final(self).rx_len == upto,
            r matches Err(e) ==> e != Error::WouldBlock,
            final(self).rx_buf@.subrange(0, old(self).rx_len as int) == old(self).rx_buf@.subrange(
                0,
                old(self).rx_len as int,
            ),
            final(self).config == old(self).config,
            final(self).state == (if r == Err::<bool, Error>(Error::IoError) {
                ConnectionState::Closed
            } else {
                old(self).state
            }),
            final(self).stats == old(self).stats,
            final(self).sender == old(self).sender,
            final(self).receiver == old(self).receiver,
            final(self).peer_initial_seq == old(self).peer_initial_seq,
            final(self).ack_due == old(self).ack_due,
            final(self).ack_due_since == old(self).ack_due_since,
    {
        assert(self.rx_buf@.subrange(0, self.rx_len as int) =~= old(self).rx_buf@.subrange(
            0,
            self.rx_len as int,
        ));
        while self.rx_len < upto
            invariant
                self.wf(),
                transport.inv(),
                upto <= F,
                old(self).rx_len <= self.rx_len <= upto,
                self.rx_buf@.subrange(0, old(self).rx_len as int) == old(self).rx_buf@.subrange(
                    0,
                    old(self).rx_len as int,
                ),
                self.config == old(self).config,
                self.state == old(self).state,
                self.stats == old(self).stats,
                self.sender == old(self).sender,
                self.receiver == old(self).receiver,
                self.peer_initial_seq == old(self).peer_initial_seq,
                self.ack_due == old(self).ack_due,
                self.ack_due_since == old(self).ack_due_since,
            decreases upto - self.rx_len,
        {
            let ghost before = self.rx_buf@;
            let got = {
                let whole: &mut [u8] = &mut self.rx_buf;
                let (front, _) = whole.split_at_mut(upto);
                let (_, gap) = front.split_at_mut(self.rx_len);
                transport.read(gap)
            };
            assert(self.rx_buf@.subrange(0, old(self).rx_len as int) =~= before.subrange(
                0,
                old(self).rx_len as int,
            ));
            match got {
                Ok(n) => {
                    if n == 0 {
                        return Ok(false);
                    }
                    self.rx_len = self.rx_len + n;
                },
                Err(Error::WouldBlock) => {
                    return Ok(false);
                },
                Err(e) => {
                    self.note_failure(e);
                    return Err(e);
                },
            }
        }
        Ok(true)
    }

    /// Takes the frames that have arrived, one by one, and deals with
    /// each: data goes to the receiver, acknowledgments to the sender, and
    /// the frames of the handshake and of closing move the state. Returns
    /// the number of frames dealt with.
    ///
    /// The call ends when the carrier has nothing more, without failure,
    /// and at the latest after `MAX_FRAMES_PER_CALL` frames. A frame of
    /// another version, of an unknown type, too long for the buffer, or
    /// with a wrong checksum is counted and dropped. A failure of the
    /// carrier other than `WouldBlock` ends the call and closes the
    /// connection.
    pub fn process_incoming<T: Transport>(&mut self, transport: &mut T, now: u64) -> (r: Result<
        usize,
    >)
        requires
            old(self).wf(),
            old(transport).inv(),
        ensures
            final(self).wf(),
            final(transport).inv(),
            final(self).same_setup(old(self)),
            final(self).has_moved_on(old(self)),
            r matches Ok(n) ==> n <= MAX_FRAMES_PER_CALL,
            r matches Err(e) ==> e != Error::WouldBlock,
            r == Err::<usize, Error>(Error::IoError) ==> final(self).spec_state()
                == ConnectionState::Closed,
            F < FRAME_HEADER_SIZE ==> r == Ok::<usize, Error>(0) && *final(self) == *old(self),
    {
        let mut frames: usize = 0;
        let mut reads: usize = 0;
        while reads < MAX_FRAMES_PER_CALL
            invariant
                self.wf(),
                transport.inv(),
                self.same_setup(old(self)),
                self.has_moved_on(old(self)),
                frames <= reads <= MAX_FRAMES_PER_CALL,
                F < FRAME_HEADER_SIZE ==> frames == 0 && *self == *old(self),
            decreases MAX_FRAMES_PER_CALL - reads,
        {
            reads = reads + 1;
            if F < FRAME_HEADER_SIZE {
                return Ok(frames);
            }
            if self.rx_len < FRAME_HEADER_SIZE {
                match self.fill(transport, FRAME_HEADER_SIZE) {
                    Ok(true) => {},
                    Ok(false) => {
                        return Ok(frames);
                    },
                    Err(e) => {
                        return Err(e);
                    },
                }
            }
            let total = match frame_extent(&self.rx_buf, F) {
                Some(total) => total,
                None => {
                    self.stats.invalid_frames = self.stats.invalid_frames.saturating_add(1);
                    self.rx_len = 0;
                    continue ;
                },
            };
            if self.rx_len > total {
                self.rx_len = 0;
                continue ;
            }
            match self.fill(transport, total) {
                Ok(true) => {},
                Ok(false) => {
                    return Ok(frames);
                },
                Err(e) => {
                    return Err(e);
                },
            }
            self.rx_len = 0;
            match self.take_frame(transport, total, now) {
                Ok(()) => {
                    frames = frames + 1;
                },
                Err(e) => {
                    return Err(e);
                },
            }
        }
        Ok(frames)
    }

    /// Reads the frame that has arrived whole, of `total` bytes, and
    /// deals with it. A frame that cannot be read is counted and dropped.
    fn take_frame<T: Transport>(&mut self, transport: &mut T, total: usize, now: u64) -> (r: Result<
        (),
    >)
        requires
            old(self).wf(),
            old(transport).inv(),
            FRAME_HEADER_SIZE <= total <= F,
        ensures
            final(self).wf(),
            final(transport).inv(),
            final(self).same_setup(old(self)),
            final(self).rx_len == old(self).rx_len,
            final(self).has_moved_on(old(self)),
            r matches Err(e) ==> e != Error::WouldBlock,
            r == Err::<(), Error>(Error::IoError) ==> final(self).spec_state()
                == ConnectionState::Closed,
            final(self).has_accepted(
                old(self),
                old(self).arriving().subrange(0, total as int),
                now,
                r,
            ),
    {
        let copy = self.rx_buf;
        self.accept_frame(transport, &copy.as_slice()[0..total], now)
    }

    /// Reads `bytes` as one frame that arrived at `now`, and deals with
    /// it, as `has_accepted` says. Bytes that are no frame are counted
    /// and dropped, which is no failure.
    pub fn accept_frame<T: Transport>(&mut self, transport: &mut T, bytes: &[u8], now: u64) -> (r:
        Result<()>)
        requires
            old(self).wf(),
            old(transport).inv(),
        ensures
            final(self).wf(),
            final(transport).inv(),
            final(self).same_setup(old(self)),
            final(self).arriving_len() == old(self).arriving_len(),
            final(self).has_moved_on(old(self)),
            r matches Err(e) ==> e != Error::WouldBlock,
            r == Err::<(), Error>(Error::IoError) ==> final(self).spec_state()
                == ConnectionState::Closed,
            final(self).has_accepted(old(self), bytes@, now, r),
    {
        let parsed = Frame::deserialize(bytes);
        match parsed {
            Ok((frame, _)) => {
                let dealt = self.dispatch(transport, &frame, now);
                let r = match dealt {
                    Ok(()) => Ok(()),
                    Err(Error::WouldBlock) => Ok(()),
                    Err(e) => Err(e),
                };
                assert(self.has_dealt_with(old(self), frame@, now, dealt));
                r
            },
            Err(Error::ChecksumMismatch) => {
                self.stats.checksum_errors = self.stats.checksum_errors.saturating_add(1);
                Ok(())
            },
            Err(_) => {
                self.stats.invalid_frames = self.stats.invalid_frames.saturating_add(1);
                Ok(())
            },
        }
    }

    /// Deals with one frame that arrived at `now`.
    ///
    /// Data goes to the receiver; if it completes a message, an
    /// acknowledgment is owed, and goes out at once where no delay is
    /// allowed. The acknowledgment number that a data frame or an
    /// acknowledgment carries names the next frame awaited, so everything
    /// before it counts as acknowledged. A ping is answered, a pong
    /// acknowledges its ping, a request to send again is served from the
    /// window. A sync is noted, its answer is acknowledged, a fin is
    /// answered. The state moves as `state_after` says. Frames that the
    /// receiver refuses are dropped without failure.
    pub fn dispatch<T: Transport>(&mut self, transport: &mut T, frame: &Frame<'_>, now: u64) -> (r:
        Result<()>)
        requires
            old(self).wf(),
            old(transport).inv(),
        ensures
            final(self).wf(),
            final(transport).inv(),
            final(self).same_setup(old(self)),
            final(self).arriving_len() == old(self).arriving_len(),
            final(self).spec_state() == (if r == Err::<(), Error>(Error::IoError) {
                ConnectionState::Closed
            } else {
                state_after(old(self).spec_state(), frame.frame_type)
            }),
            final(self).has_dealt_with(old(self), frame@, now, r),
            final(self).has_moved_on(old(self)),
    {
        let before = self.state;
        match frame.frame_type {
            FrameType::Ack => {},
            _ => {
                self.stats.packets_received = self.stats.packets_received.saturating_add(1);
            },
        }
        self.state = next_state(before, frame.frame_type);
        match frame.frame_type {
            FrameType::Data => {
                self.sender.process_ack(frame.ack.wrapping_sub(1), now);
                let ghost acked = self.sender;
                let taken = self.receiver.process_frame(frame, now);
                let outcome = match taken {
                    Ok(true) => {
                        self.ack_due = true;
                        self.ack_due_since = now;
                        if self.config.delayed_ack_ms == 0 {
                            self.send_owed_ack(transport)
                        } else {
                            Ok(())
                        }
                    },
                    _ => Ok(()),
                };
                assert(self.has_taken_data(old(self), frame@, now, outcome, taken, acked));
                outcome
            },
            FrameType::Ack => {
                self.sender.process_ack(frame.ack.wrapping_sub(1), now);
                Ok(())
            },
            FrameType::Nack => {
                match self.sender.resend(transport, frame.sequence, now) {
                    Ok(_) => Ok(()),
                    Err(e) => {
                        self.note_failure(e);
                        Err(e)
                    },
                }
            },
            FrameType::Ping => {
                let pong = Frame::new_pong(frame.sequence);
                self.emit(transport, &pong)
            },
            FrameType::Pong => {
                self.sender.process_selective_ack(frame.sequence, now);
                Ok(())
            },
            FrameType::Sync => {
                match before {
                    ConnectionState::Idle => {
                        self.peer_initial_seq = frame.sequence;
                        self.receiver.start_at(frame.sequence.wrapping_add(1));
                    },
                    _ => {},
                }
                Ok(())
            },
            FrameType::SyncAck => {
                match before {
                    ConnectionState::Connecting => {
                        self.peer_initial_seq = frame.sequence;
                        self.receiver.start_at(frame.sequence.wrapping_add(1));
                        let ack = Frame::new_ack(frame.sequence.wrapping_add(1));
                        self.emit(transport, &ack)
                    },
                    _ => Ok(()),
                }
            },
            FrameType::Fin => {
                let _ = self.receiver.process_frame(frame, now);
                match before {
                    ConnectionState::Connected => {
                        let answer = Frame::new_fin_ack(
                            self.sender.window_next(),
                            frame.sequence.wrapping_add(1),
                        );
                        self.emit(transport, &answer)
                    },
                    _ => Ok(()),
                }
            },
            FrameType::Reset => {
                let _ = self.receiver.process_frame(frame, now);
                Ok(())
            },
            _ => Ok(()),
        }
    }

    /// Sends the acknowledgment that is owed.
    fn send_owed_ack<T: Transport>(&mut self, transport: &mut T) -> (r: Result<()>)
        requires
            old(self).wf(),
            old(transport).inv(),
        ensures
            final(self).wf(),
            final(transport).inv(),
            final(self).same_setup(old(self)),
            final(self).spec_state() == old(self).state_by(r, old(self).spec_state()),
            final(self).receiver() == old(self).receiver(),
            final(self).spec_stats() == old(self).spec_stats(),
            final(self).peer_initial_seq == old(self).peer_initial_seq,
            final(self).rx_len == old(self).rx_len,
            final(self).sender().same_but_scratch(&old(self).sender()),
            final(self).sender().offered() == Sender::<W, F>::with_frame(
                old(self).sender().offered(),
                control_frame(FrameType::Ack, 0, old(self).receiver().window().spec_expected()),
            ),
            r is Ok ==> !final(self).owes_ack(),
            r is Err ==> final(self).owes_ack() == old(self).owes_ack(),
    {
        let ack = Frame::new_ack(self.receiver.expected_sequence());
        match self.emit(transport, &ack) {
            Ok(()) => {
                self.ack_due = false;
                Ok(())
            },
            Err(e) => Err(e),
        }
    }

    /// Makes progress: takes what has arrived, sends again what has
    /// waited too long, sends the acknowledgment that has been owed for
    /// the delay allowed, and gives up the messages that have taken too
    /// long to put together. Returns the number of frames sent again.
    pub fn poll<T: Transport>(&mut self, transport: &mut T, now: u64) -> (r: Result<usize>)
        requires
            old(self).wf(),
            old(transport).inv(),
        ensures
            final(self).wf(),
            final(transport).inv(),
            final(self).same_setup(old(self)),
            final(self).has_moved_on(old(self)),
            r matches Err(e) ==> e != Error::WouldBlock,
            r == Err::<usize, Error>(Error::IoError) ==> final(self).spec_state()
                == ConnectionState::Closed,
            r is Ok ==> forall|i: int|
                0 <= i < E ==> !(#[trigger] final(self).receiver().reassembler().entry(i)).timed_out(
                    now,
                    final(self).receiver().reassembler().spec_timeout(),
                ),
    {
        match self.process_incoming(transport, now) {
            Ok(_) => {},
            Err(e) => {
                return Err(e);
            },
        }
        self.settle(transport, now)
    }

    /// Does what is due at `now`, once what has arrived is dealt with:
    /// sends again what has waited too long, sends the acknowledgment that
    /// has been owed for the delay allowed, and gives up the messages that
    /// have taken too long to put together, as `has_settled` says. Returns
    /// the number of frames sent again that the carrier took.
    pub fn settle<T: Transport>(&mut self, transport: &mut T, now: u64) -> (r: Result<usize>)
        requires
            old(self).wf(),
            old(transport).inv(),
        ensures
            final(self).wf(),
            final(transport).inv(),
            final(self).same_setup(old(self)),
            final(self).has_moved_on(old(self)),
            r matches Err(e) ==> e != Error::WouldBlock,
            r == Err::<usize, Error>(Error::IoError) ==> final(self).spec_state()
                == ConnectionState::Closed,
            exists|looked: Sender<W, F>, resent: usize, acked: Result<()>| #[trigger]
                final(self).has_settled(old(self), now, r, looked, resent, acked),
    {
        let resent = match self.sender.check_retransmit(transport, now) {
            Ok(n) => n,
            Err(_) => 0,
        };
        let ghost looked = self.sender;
        let due = self.ack_due && now.saturating_sub(self.ack_due_since)
            >= self.config.delayed_ack_ms as u64;
        let acked = if due {
            self.send_owed_ack(transport)
        } else {
            Ok(())
        };
        let r = match acked {
            Ok(()) => Ok(resent),
            Err(Error::WouldBlock) => Ok(resent),
            Err(e) => Err(e),
        };
        if r.is_ok() {
            self.receiver.cleanup(now);
        }
        assert(self.has_settled(old(self), now, r, looked, resent, acked));
        r
    }

    /// Asks to close the connection: sends a fin. Fails with
    /// `InvalidState` where the connection is not connected.
    pub fn close<T: Transport>(&mut self, transport: &mut T) -> (r: Result<()>)
        requires
            old(self).wf(),
            old(transport).inv(),
        ensures
            final(self).wf(),
            final(transport).inv(),
            final(self).same_setup(old(self)),
            old(self).spec_state() != ConnectionState::Connected ==> r == Err::<(), Error>(
                Error::InvalidState,
            ) && *final(self) == *old(self),
            old(self).spec_state() == ConnectionState::Connected ==> final(self).spec_state()
                == old(self).state_by(r, ConnectionState::Closing) && final(self).has_sent_control(
                old(self),
                control_frame(FrameType::Fin, old(self).sender().window().spec_next(), 0),
                r is Ok,
            ) && final(self).sender().same_but_scratch(&old(self).sender()),
    {
        match self.state {
            ConnectionState::Connected => {},
            _ => {
                return Err(Error::InvalidState);
            },
        }
        let frame = Frame::new_fin(self.sender.window_next());
        match self.emit(transport, &frame) {
            Ok(()) => {},
            Err(e) => {
                return Err(e);
            },
        }
        self.state = ConnectionState::Closing;
        Ok(())
    }

    /// Asks the peer whether it is there. Returns the sequence number of
    /// the ping. Fails with `InvalidState` where the connection is not
    /// connected.
    pub fn ping<T: Transport>(&mut self, transport: &mut T, now: u64) -> (r: Result<u32>)
        requires
            old(self).wf(),
            old(transport).inv(),
        ensures
            final(self).wf(),
            final(transport).inv(),
            final(self).same_setup(old(self)),
            final(self).receiver() == old(self).receiver(),
            old(self).spec_state() != ConnectionState::Connected ==> r == Err::<u32, Error>(
                Error::InvalidState,
            ) && *final(self) == *old(self),
            old(self).spec_state() == ConnectionState::Connected ==> final(self).spec_state()
                == old(self).state_by(r, ConnectionState::Connected) && final(self).has_sent_control(
                old(self),
                control_frame(FrameType::Ping, old(self).sender().window().spec_next(), 0),
                r is Ok,
            ),
            r matches Ok(seq) ==> seq == old(self).sender().window().spec_next(),
    {
        match self.state {
            ConnectionState::Connected => {},
            _ => {
                return Err(Error::InvalidState);
            },
        }
        match self.sender.send_ping(transport, now) {
            Ok(seq) => {
                self.stats.packets_sent = self.stats.packets_sent.saturating_add(1);
                Ok(seq)
            },
            Err(e) => {
                self.note_failure(e);
                Err(e)
            },
        }
    }

    /// Ends the connection at once: tells the peer, if the carrier takes
    /// it, and closes whatever the carrier does. Both halves start over.
    pub fn reset<T: Transport>(&mut self, transport: &mut T) -> (r: Result<()>)
        requires
            old(self).wf(),
            old(transport).inv(),
        ensures
            final(self).wf(),
            final(transport).inv(),
            final(self).same_setup(old(self)),
            final(self).spec_state() == ConnectionState::Closed,
            !final(self).owes_ack(),
            !final(self).receiver().ready(),
            final(self).arriving_len() == 0,
            final(self).sender().offered() == Sender::<W, F>::with_frame(
                old(self).sender().offered(),
                control_frame(FrameType::Reset, old(self).sender().window().spec_next(), 0),
            ),
            final(self).sender().starts_at(0),
            final(self).receiver().window().spec_expected() == 0,
            final(self).spec_stats() == (ProtocolStats {
                packets_sent: bumped_by(
                    old(self).spec_stats().packets_sent,
                    if r is Ok {
                        1
                    } else {
                        0
                    },
                ),
                ..old(self).spec_stats()
            }),
    {
        let frame = Frame::new_reset(self.sender.window_next());
        let sent = self.emit(transport, &frame);
        self.sender.reset();
        self.receiver.reset();
        self.rx_len = 0;
        self.ack_due = false;
        self.state = ConnectionState::Closed;
        sent
    }
}

} // verus!
