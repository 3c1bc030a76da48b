//! The sending half of a connection.

use vstd::prelude::*;
use crate::buffer::window::{lemma_seq_plus_plus, seq_plus, SendWindow, WindowEntry};
use crate::channel::ChannelState;
use crate::codec::frame::{
    control_frame, data_frame, wire_bytes, Frame, FrameType, FrameView, FRAME_HEADER_SIZE,
};
use crate::codec::packet::{fragment, fragments_of_len, Packet};
use crate::config::Config;
use crate::error::{Error, Result};
use crate::math::{count_marked, least, lemma_ceil_div, lemma_count_marked_update};
use crate::reliable::retransmit::{
    batch_items, batch_new, batch_push, batch_slice, bumped_by, retired, PendingFrame,
    RetransmitManager, RetransmitStats, RetransmitTimer,
};
use crate::transport::Transport;
use crate::MAX_PACKET_SIZE;

verus! {

/// The sending half: a send window of `W` frames of at most `F` bytes,
/// and the list of the frames that wait for an acknowledgment.
pub struct Sender<const W: usize, const F: usize> {
    window: SendWindow<W, F>,
    retransmit: RetransmitManager<W>,
    next_packet_id: u16,
    /// The acknowledgment number that goes out with every data frame.
    ack_num: u32,
    max_payload: usize,
    state: ChannelState,
    /// Where frames are written before they go to the carrier.
    frame_buf: [u8; F],
    offered: Ghost<Seq<Seq<u8>>>,
}

impl<const W: usize, const F: usize> Sender<W, F> {
    pub closed spec fn window(&self) -> SendWindow<W, F> {
        self.window
    }

    pub closed spec fn retransmit(&self) -> RetransmitManager<W> {
        self.retransmit
    }

    pub closed spec fn spec_next_packet_id(&self) -> u16 {
        self.next_packet_id
    }

    pub closed spec fn spec_ack(&self) -> u32 {
        self.ack_num
    }

    pub closed spec fn spec_max_payload(&self) -> usize {
        self.max_payload
    }

    pub closed spec fn spec_state(&self) -> ChannelState {
        self.state
    }

    /// The bytes of the frame written last, as they were handed to the
    /// carrier, followed by whatever else the buffer holds.
    pub closed spec fn scratch(&self) -> Seq<u8> {
        self.frame_buf@
    }

    /// Every frame that this sender has handed to a carrier, in order,
    /// whether or not the carrier took it.
    pub closed spec fn offered(&self) -> Seq<Seq<u8>> {
        self.offered@
    }

    /// Whether window and list are well formed, and a frame carries at
    /// least one byte of payload.
    pub closed spec fn wf(&self) -> bool {
        &&& self.window.wf()
        &&& self.retransmit.wf()
        &&& self.max_payload > 0
    }

    /// What `wf` says, for those who cannot look inside.
    pub proof fn lemma_wf(&self)
        requires
            self.wf(),
        ensures
            self.window().wf(),
            self.retransmit().wf(),
            self.spec_max_payload() > 0,
            self.scratch().len() == F,
    {
    }

    /// The frames handed to the carrier after the control frame `frame` has
    /// joined `offered`. A buffer too short for a frame lets none go out.
    pub open spec fn with_frame(offered: Seq<Seq<u8>>, frame: FrameView) -> Seq<Seq<u8>> {
        if F >= FRAME_HEADER_SIZE {
            offered.push(wire_bytes(frame))
        } else {
            offered
        }
    }

    /// Whether `self` and `other` differ in nothing but the buffer in
    /// which frames are written, and the frames handed to the carrier.
    pub open spec fn same_but_scratch(&self, other: &Self) -> bool {
        &&& self.window() == other.window()
        &&& self.retransmit() == other.retransmit()
        &&& self.spec_next_packet_id() == other.spec_next_packet_id()
        &&& self.spec_ack() == other.spec_ack()
        &&& self.spec_max_payload() == other.spec_max_payload()
        &&& self.spec_state() == other.spec_state()
    }

    /// A sender for a connection with the options of `config`. The
    /// timeout starts at the retransmit timeout, doubles, and stops at
    /// thirty times that.
    pub fn new(config: &Config) -> (s: Self)
        requires
            config.max_frame_size > FRAME_HEADER_SIZE,
        ensures
            s.wf(),
            s.spec_state() == ChannelState::Open,
            s.spec_next_packet_id() == 0,
            s.spec_ack() == 0,
            s.spec_max_payload() == config.payload_size(),
            s.window().spec_base() == 0,
            s.window().spec_next() == 0,
            s.window().spec_in_flight() == 0,
            s.window().limit() == SendWindow::<W, F>::limit_for(config.window_size as usize),
            s.window().consistent(),
            s.retransmit().spec_count() == 0,
            s.retransmit().spec_max_attempts() == config.max_retransmit,
            s.retransmit().spec_timer().base() == config.retransmit_timeout_ms,
            s.retransmit().spec_timer().current() == config.retransmit_timeout_ms,
            s.retransmit().spec_timer().max() == config.retransmit_timeout_ms * 30,
            s.retransmit().spec_timer().factor() == 2,
            s.retransmit().spec_stats().is_zero(),
            s.offered() == Seq::<Seq<u8>>::empty(),
    {
        let timer = RetransmitTimer::new(
            config.retransmit_timeout_ms as u64,
            config.retransmit_timeout_ms as u64 * 30,
            2,
        );
        Sender {
            window: SendWindow::new(config.window_size as usize, 0),
            retransmit: RetransmitManager::new(config.max_retransmit, timer),
            next_packet_id: 0,
            ack_num: 0,
            max_payload: config.max_payload_size(),
            state: ChannelState::Open,
            frame_buf: [0u8;F],
            offered: Ghost(Seq::empty()),
        }
    }

    #[verifier::when_used_as_spec(spec_state)]
    pub fn state(&self) -> (s: ChannelState)
        ensures
            s == self.spec_state(),
    {
        self.state
    }

    /// The sequence number that the next frame gets.
    pub fn window_next(&self) -> (s: u32)
        ensures
            s == self.window().spec_next(),
    {
        self.window.next_sequence()
    }

    /// Number of frames in flight.
    pub fn in_flight(&self) -> (n: usize)
        ensures
            n == self.window().spec_in_flight(),
    {
        self.window.in_flight()
    }

    /// Whether a frame could go out now: the channel is open and the
    /// window is not full.
    pub fn can_send(&self) -> (b: bool)
        ensures
            b == (self.spec_state() == ChannelState::Open && self.window().spec_in_flight()
                < self.window().limit()),
    {
        self.state == ChannelState::Open && !self.window.is_full()
    }

    /// Sets the acknowledgment number that goes out with every data
    /// frame.
    pub fn set_ack(&mut self, ack: u32)
        ensures
            old(self).wf() ==> final(self).wf(),
            final(self).spec_ack() == ack,
            final(self).window() == old(self).window(),
            final(self).retransmit() == old(self).retransmit(),
            final(self).spec_next_packet_id() == old(self).spec_next_packet_id(),
            final(self).spec_max_payload() == old(self).spec_max_payload(),
            final(self).spec_state() == old(self).spec_state(),
            final(self).scratch() == old(self).scratch(),
            final(self).offered() == old(self).offered(),
    {
        self.ack_num = ack;
    }

    /// Sends frame `sequence` again, as it went out the first time, if
    /// the window still holds it, and notes it as sent again at
    /// `timestamp` if the carrier took it. Returns whether the window held
    /// the frame.
    pub fn resend<T: Transport>(&mut self, transport: &mut T, sequence: u32, timestamp: u64) -> (r:
        Result<bool>)
        requires
            old(self).wf(),
            old(transport).inv(),
        ensures
            final(self).wf(),
            final(transport).inv(),
            final(self).same_counters(old(self)),
            final(self).retransmit().spec_count() == old(self).retransmit().spec_count(),
            r matches Ok(held) ==> held == (old(self).window().in_range(sequence)
                && old(self).window().holds(sequence)),
            !(old(self).window().in_range(sequence) && old(self).window().holds(sequence)) ==> r
                == Ok::<bool, Error>(false) && final(self).window() == old(self).window()
                    && final(self).retransmit() == old(self).retransmit(),
            final(self).offered() == (if old(self).window().in_range(sequence) && old(self).window().holds(sequence) {
                old(self).offered().push(old(self).window().entry(SendWindow::<W, F>::slot(sequence)).frame())
            } else {
                old(self).offered()
            }),
    {
        let sent = match self.window.get_entry(sequence) {
            Some(entry) => {
                self.offered = Ghost(self.offered@.push(entry.frame()));
                transport.write_all(entry.frame_data())
            },
            None => {
                return Ok(false);
            },
        };
        self.keep_resent(sent, sequence, timestamp)
    }

    /// Deals with the answer `wrote` of the carrier to frame `sequence`,
    /// which the window holds and which was handed to it again at
    /// `timestamp`.
    ///
    /// Where the carrier did not take the frame, the failure is handed on
    /// and nothing changes. Where it did, the frame is noted as sent once
    /// more, at `timestamp`: in the window, and in the first slot of the
    /// list in which a frame of that number waits, if there is one.
    pub fn keep_resent(&mut self, wrote: Result<()>, sequence: u32, timestamp: u64) -> (r: Result<
        bool,
    >)
        requires
            old(self).wf(),
            old(self).window().in_range(sequence),
            old(self).window().holds(sequence),
        ensures
            final(self).wf(),
            final(self).same_counters(old(self)),
            final(self).offered() == old(self).offered(),
            final(self).retransmit().spec_count() == old(self).retransmit().spec_count(),
            wrote matches Err(e) ==> r == Err::<bool, Error>(e) && *final(self) == *old(self),
            wrote is Ok ==> {
                let at = SendWindow::<W, F>::slot(sequence);
                let waiting = old(self).retransmit().waiting_at(sequence);
                &&& r == Ok::<bool, Error>(true)
                &&& final(self).window().entry(at) == (WindowEntry {
                    sent_time: timestamp,
                    transmit_count: (if old(self).window().entry(at).transmit_count == 255 {
                        255u8
                    } else {
                        (old(self).window().entry(at).transmit_count + 1) as u8
                    }),
                    ..old(self).window().entry(at)
                })
                &&& forall|j: int|
                    0 <= j < W && j != at ==> final(self).window().entry(j) == old(self).window().entry(j)
                &&& if waiting < W {
                    &&& final(self).retransmit().same_but(&old(self).retransmit(), waiting)
                    &&& final(self).retransmit().frame(waiting)
                        == RetransmitManager::<W>::noted_again(
                        old(self).retransmit().frame(waiting),
                        timestamp,
                    )
                    &&& final(self).retransmit().spec_stats() == (RetransmitStats {
                        retransmissions: bumped_by(
                            old(self).retransmit().spec_stats().retransmissions,
                            1,
                        ),
                        ..old(self).retransmit().spec_stats()
                    })
                } else {
                    final(self).retransmit() == old(self).retransmit()
                }
            },
    {
        match wrote {
            Ok(()) => {},
            Err(e) => {
                return Err(e);
            },
        }
        let _ = self.retransmit.mark_retransmitted(sequence, timestamp);
        let _ = self.window.mark_retransmitted(sequence, timestamp);
        Ok(true)
    }

    /// Writes a frame without payload into the buffer and hands it to the
    /// carrier: for the frames of the handshake and of closing, which the
    /// channel does not send of its own.
    pub fn send_control<T: Transport>(&mut self, transport: &mut T, frame: &Frame<'_>) -> (r: Result<
        (),
    >)
        requires
            old(transport).inv(),
            frame.payload@.len() == 0,
        ensures
            final(transport).inv(),
            final(self).same_but_scratch(old(self)),
            old(self).wf() ==> final(self).wf(),
            F < FRAME_HEADER_SIZE ==> r == Err::<(), Error>(Error::BufferTooSmall),
            F >= FRAME_HEADER_SIZE ==> final(self).scratch().subrange(0, FRAME_HEADER_SIZE as int)
                == wire_bytes(frame@),
            final(self).offered() == Self::with_frame(old(self).offered(), frame@),
    {
        let r = self.emit(transport, frame);
        proof {
            Self::lemma_front(self.scratch(), wire_bytes(frame@), old(self).scratch());
        }
        r
    }

    /// Writes a frame without payload into the buffer and hands it to the
    /// carrier.
    fn emit<T: Transport>(&mut self, transport: &mut T, frame: &Frame<'_>) -> (r: Result<()>)
        requires
            old(transport).inv(),
            frame.payload@.len() == 0,
        ensures
            final(transport).inv(),
            final(self).same_but_scratch(old(self)),
            old(self).wf() ==> final(self).wf(),
            F < FRAME_HEADER_SIZE ==> r == Err::<(), Error>(Error::BufferTooSmall)
                && final(self).scratch() == old(self).scratch(),
            F >= FRAME_HEADER_SIZE
                ==> final(self).scratch() == wire_bytes(frame@)
                + old(self).scratch().subrange(FRAME_HEADER_SIZE as int, F as int),
            final(self).offered() == Self::with_frame(old(self).offered(), frame@),
    {
        let size = match frame.serialize(&mut self.frame_buf) {
            Ok(size) => size,
            Err(e) => {
                return Err(e);
            },
        };
        assert(self.frame_buf@.subrange(0, size as int) =~= wire_bytes(frame@));
        self.offered = Ghost(self.offered@.push(wire_bytes(frame@)));
        transport.write_all(&self.frame_buf[0..size])
    }

    /// Sends the frame that acknowledges everything before `ack`.
    ///
    /// The frame is written into the buffer and handed to the carrier
    /// whole; the result is what the carrier makes of it. Nothing else
    /// changes. Fails before anything is sent where the buffer is too
    /// short for a frame.
    pub fn send_ack<T: Transport>(&mut self, transport: &mut T, ack: u32) -> (r: Result<()>)
        requires
            old(transport).inv(),
        ensures
            final(transport).inv(),
            final(self).same_but_scratch(old(self)),
            old(self).wf() ==> final(self).wf(),
            F < FRAME_HEADER_SIZE ==> r == Err::<(), Error>(Error::BufferTooSmall),
            F >= FRAME_HEADER_SIZE ==> final(self).scratch().subrange(0, FRAME_HEADER_SIZE as int)
                == wire_bytes(control_frame(FrameType::Ack, 0, ack)),
            final(self).offered() == Self::with_frame(
                old(self).offered(),
                control_frame(FrameType::Ack, 0, ack),
            ),
    {
        let frame = Frame::new_ack(ack);
        let r = self.emit(transport, &frame);
        proof {
            Self::lemma_front(self.scratch(), wire_bytes(frame@), old(self).scratch());
        }
        r
    }

    /// Sends the frame that asks for frame `sequence` again.
    pub fn send_nack<T: Transport>(&mut self, transport: &mut T, sequence: u32) -> (r: Result<()>)
        requires
            old(transport).inv(),
        ensures
            final(transport).inv(),
            final(self).same_but_scratch(old(self)),
            old(self).wf() ==> final(self).wf(),
            F < FRAME_HEADER_SIZE ==> r == Err::<(), Error>(Error::BufferTooSmall),
            F >= FRAME_HEADER_SIZE ==> final(self).scratch().subrange(0, FRAME_HEADER_SIZE as int)
                == wire_bytes(control_frame(FrameType::Nack, sequence, 0)),
            final(self).offered() == Self::with_frame(
                old(self).offered(),
                control_frame(FrameType::Nack, sequence, 0),
            ),
    {
        let frame = Frame::new_nack(sequence);
        let r = self.emit(transport, &frame);
        proof {
            Self::lemma_front(self.scratch(), wire_bytes(frame@), old(self).scratch());
        }
        r
    }

    /// Sends a ping with the next sequence number and, if the carrier took
    /// it, lists it as waiting, so that the pong measures the round trip.
    /// Returns the sequence number of the ping.
    pub fn send_ping<T: Transport>(&mut self, transport: &mut T, timestamp: u64) -> (r: Result<u32>)
        requires
            old(self).wf(),
            old(transport).inv(),
        ensures
            final(self).wf(),
            final(transport).inv(),
            final(self).window() == old(self).window(),
            final(self).spec_next_packet_id() == old(self).spec_next_packet_id(),
            final(self).spec_ack() == old(self).spec_ack(),
            final(self).spec_max_payload() == old(self).spec_max_payload(),
            final(self).spec_state() == old(self).spec_state(),
            F < FRAME_HEADER_SIZE ==> r == Err::<u32, Error>(Error::BufferTooSmall),
            F >= FRAME_HEADER_SIZE ==> final(self).scratch().subrange(0, FRAME_HEADER_SIZE as int)
                == wire_bytes(control_frame(FrameType::Ping, old(self).window().spec_next(), 0)),
            final(self).offered() == Self::with_frame(
                old(self).offered(),
                control_frame(FrameType::Ping, old(self).window().spec_next(), 0),
            ),
            r matches Ok(seq) ==> {
                &&& seq == old(self).window().spec_next()
                &&& old(self).retransmit().free_at() < W
                &&& final(self).retransmit().spec_count() == old(self).retransmit().spec_count()
                    + 1
                &&& final(self).retransmit().frame(old(self).retransmit().free_at())
                    == (crate::reliable::retransmit::PendingFrame {
                    sequence: seq,
                    last_sent: timestamp,
                    attempts: 1,
                    active: true,
                })
            },
            r is Err ==> final(self).retransmit() == old(self).retransmit(),
    {
        let seq = self.window.next_sequence();
        let frame = Frame::new_ping(seq);
        let sent = self.emit(transport, &frame);
        proof {
            Self::lemma_front(self.scratch(), wire_bytes(frame@), old(self).scratch());
        }
        self.keep_ping(sent, seq, timestamp)
    }

    /// Deals with the answer `wrote` of the carrier to the ping with
    /// sequence number `seq`, handed to it at `timestamp`.
    ///
    /// A ping that the carrier did not take is not listed: the failure is
    /// handed on and nothing changes. One that it took is listed as
    /// waiting since `timestamp`, so that its pong measures the round
    /// trip, and `seq` is returned. Where the list has no free slot, the
    /// call fails with `BufferFull` and nothing changes.
    pub fn keep_ping(&mut self, wrote: Result<()>, seq: u32, timestamp: u64) -> (r: Result<u32>)
        requires
            old(self).wf(),
        ensures
            final(self).wf(),
            final(self).same_but_list(old(self)),
            wrote matches Err(e) ==> r == Err::<u32, Error>(e) && *final(self) == *old(self),
            wrote is Ok ==> (if old(self).retransmit().free_at() < W {
                &&& r == Ok::<u32, Error>(seq)
                &&& final(self).retransmit().spec_count() == old(self).retransmit().spec_count() + 1
                &&& final(self).retransmit().spec_stats() == (RetransmitStats {
                    frames_sent: bumped_by(old(self).retransmit().spec_stats().frames_sent, 1),
                    ..old(self).retransmit().spec_stats()
                })
                &&& final(self).retransmit().same_but(
                    &old(self).retransmit(),
                    old(self).retransmit().free_at(),
                )
                &&& final(self).retransmit().frame(old(self).retransmit().free_at())
                    == Self::first_wait(seq, timestamp)
            } else {
                r == Err::<u32, Error>(Error::BufferFull) && *final(self) == *old(self)
            }),
    {
        match wrote {
            Ok(()) => {},
            Err(e) => {
                return Err(e);
            },
        }
        match self.retransmit.register(seq, timestamp) {
            Ok(()) => Ok(seq),
            Err(e) => Err(e),
        }
    }

    /// Whether `self` and `other` differ in nothing but the list of the
    /// frames that wait.
    pub open spec fn same_but_list(&self, other: &Self) -> bool {
        &&& self.window() == other.window()
        &&& self.spec_next_packet_id() == other.spec_next_packet_id()
        &&& self.spec_ack() == other.spec_ack()
        &&& self.spec_max_payload() == other.spec_max_payload()
        &&& self.spec_state() == other.spec_state()
        &&& self.scratch() == other.scratch()
        &&& self.offered() == other.offered()
    }

    /// Sends the answer to the ping with sequence number `sequence`.
    pub fn send_pong<T: Transport>(&mut self, transport: &mut T, sequence: u32) -> (r: Result<()>)
        requires
            old(transport).inv(),
        ensures
            final(transport).inv(),
            final(self).same_but_scratch(old(self)),
            old(self).wf() ==> final(self).wf(),
            F < FRAME_HEADER_SIZE ==> r == Err::<(), Error>(Error::BufferTooSmall),
            F >= FRAME_HEADER_SIZE ==> final(self).scratch().subrange(0, FRAME_HEADER_SIZE as int)
                == wire_bytes(control_frame(FrameType::Pong, sequence, 0)),
            final(self).offered() == Self::with_frame(
                old(self).offered(),
                control_frame(FrameType::Pong, sequence, 0),
            ),
    {
        let frame = Frame::new_pong(sequence);
        let r = self.emit(transport, &frame);
        proof {
            Self::lemma_front(self.scratch(), wire_bytes(frame@), old(self).scratch());
        }
        r
    }

    /// A frame without payload is the first 24 bytes of the buffer it was
    /// written into.
    proof fn lemma_front(now: Seq<u8>, wire: Seq<u8>, before: Seq<u8>)
        requires
            wire.len() == 24,
        ensures
            F >= 24 && now == wire + before.subrange(24, F as int) ==> now.subrange(0, 24) == wire,
    {
        if F >= 24 && now == wire + before.subrange(24, F as int) {
            assert(now.subrange(0, 24) =~= wire);
        }
    }

    /// Whether `window` keeps `frame` as frame `seq`, sent once, at
    /// `timestamp`, and not acknowledged.
    #[verifier::opaque]
    pub open spec fn keeps(window: SendWindow<W, F>, seq: u32, timestamp: u64, frame: FrameView) -> bool {
        let e = window.entry(SendWindow::<W, F>::slot(seq));
        &&& e.in_use
        &&& !e.acked
        &&& e.sequence == seq
        &&& e.sent_time == timestamp
        &&& e.transmit_count == 1
        &&& e.frame() == wire_bytes(frame)
    }

    /// Frame `i` of the `n` frames that carry `data` when it is sent now.
    pub open spec fn fragment_frame(&self, data: Seq<u8>, i: nat, n: nat) -> FrameView {
        self.fragment_frame_with(self.spec_ack(), data, i, n)
    }

    /// Frame `i` of the `n` frames that carry `data` when it is sent now
    /// with the acknowledgment number `ack`.
    pub open spec fn fragment_frame_with(&self, ack: u32, data: Seq<u8>, i: nat, n: nat) -> FrameView {
        data_frame(
            seq_plus(self.window().spec_next(), i as int),
            ack,
            self.spec_next_packet_id(),
            i as u8,
            n as u8,
            fragment(data, i, self.spec_max_payload() as nat),
        )
    }

    /// The first `count` frames that carry `data` when it is sent now, as
    /// they go to the carrier.
    pub open spec fn frames_of(&self, data: Seq<u8>, count: nat) -> Seq<Seq<u8>> {
        self.frames_with(self.spec_ack(), data, count)
    }

    /// The first `count` frames that carry `data` when it is sent now with
    /// the acknowledgment number `ack`, as they go to the carrier.
    pub open spec fn frames_with(&self, ack: u32, data: Seq<u8>, count: nat) -> Seq<Seq<u8>> {
        Seq::new(
            count,
            |i: int|
                wire_bytes(
                    self.fragment_frame_with(
                        ack,
                        data,
                        i as nat,
                        fragments_of_len(data.len(), self.spec_max_payload() as nat),
                    ),
                ),
        )
    }

    /// Whether `self` has handed to the carrier, since it was `before`, at
    /// least the first and at most all of the frames that carry `data`.
    pub open spec fn has_offered_some(&self, before: &Self, data: Seq<u8>) -> bool {
        exists|count: nat|
            1 <= count <= fragments_of_len(data.len(), before.spec_max_payload() as nat)
                && self.offered() == before.offered() + #[trigger] before.frames_of(data, count)
    }

    /// How frame `sequence` waits once it has been sent for the first time
    /// at `timestamp`.
    pub open spec fn first_wait(sequence: u32, timestamp: u64) -> PendingFrame {
        PendingFrame { sequence, last_sent: timestamp, attempts: 1, active: true }
    }

    /// Whether frame `sequence` is listed as waiting since it was sent for
    /// the first time at `timestamp`.
    pub open spec fn waits_since(&self, sequence: u32, timestamp: u64) -> bool {
        exists|at: int|
            0 <= at < W && #[trigger] self.retransmit().frame(at) == Self::first_wait(
                sequence,
                timestamp,
            )
    }

    /// A frame that waits still waits after another one has taken a free
    /// slot of the list.
    proof fn lemma_still_waits(
        before: RetransmitManager<W>,
        after: RetransmitManager<W>,
        then: &Self,
        now: &Self,
        sequence: u32,
        timestamp: u64,
    )
        requires
            then.retransmit() == before,
            now.retransmit() == after,
            before.free_at() < W,
            after.same_but(&before, before.free_at()),
            then.waits_since(sequence, timestamp),
        ensures
            now.waits_since(sequence, timestamp),
    {
        let at = choose|at: int|
            0 <= at < W && #[trigger] then.retransmit().frame(at) == Self::first_wait(
                sequence,
                timestamp,
            );
        let free = |i: int| !before.frame(i).active;
        crate::math::lemma_first_such(W as int, free);
        assert(free(before.free_at()));
        assert(at != before.free_at());
        assert(after.frame(at) == before.frame(at));
    }

    /// Why a message of `len` bytes cannot be sent, if it cannot, for
    /// reasons that have nothing to do with the carrier. The first of
    /// these that applies: the channel is not open; the message is longer
    /// than a packet may be; the window has fewer free places than the
    /// message has fragments; the message needs more than 255 fragments;
    /// the buffer is too short for the first frame.
    pub open spec fn refusal(&self, len: nat) -> Option<Error> {
        let n = fragments_of_len(len, self.spec_max_payload() as nat);
        if self.spec_state() != ChannelState::Open {
            Some(Error::ChannelClosed)
        } else if len > MAX_PACKET_SIZE {
            Some(Error::PacketTooLarge)
        } else if self.window().limit() - self.window().spec_in_flight() < n {
            Some(Error::WindowFull)
        } else if n > 255 {
            Some(Error::PacketTooLarge)
        } else if FRAME_HEADER_SIZE + least(len as int, self.spec_max_payload() as int) > F {
            Some(Error::BufferTooSmall)
        } else {
            None
        }
    }

    /// Sends `data` as one packet at `timestamp`: cuts it into fragments,
    /// and for each fragment writes a data frame, hands it to the carrier,
    /// keeps it in the window, and lists it as waiting. Returns the number
    /// of frames.
    ///
    /// Where `refusal` names an error, that is the result and nothing has
    /// changed. Else every frame is handed to the carrier in turn, and the
    /// first failure of the carrier, or of the list being full, ends the
    /// call: the frames before it stay sent. Where all goes well, the
    /// window has taken one place for each frame, in order, and the packet
    /// number has moved on by one. What went to the carrier is what
    /// `frames_of` says, frame by frame.
    #[verifier::rlimit(50)]
    pub fn send_packet<T: Transport>(&mut self, transport: &mut T, data: &[u8], timestamp: u64) -> (r:
        Result<usize>)
        requires
            old(self).wf(),
            old(transport).inv(),
        ensures
            final(self).wf(),
            final(transport).inv(),
            final(self).spec_state() == old(self).spec_state(),
            final(self).spec_ack() == old(self).spec_ack(),
            final(self).spec_max_payload() == old(self).spec_max_payload(),
            final(self).window().spec_base() == old(self).window().spec_base(),
            final(self).window().limit() == old(self).window().limit(),
            old(self).refusal(data@.len()) matches Some(e) ==> r == Err::<usize, Error>(e)
                && *final(self) == *old(self),
            r is Err ==> final(self).spec_next_packet_id() == old(self).spec_next_packet_id(),
            r is Err && old(self).refusal(data@.len()) is None ==> final(self).has_offered_some(
                old(self),
                data@,
            ),
            r is Ok ==> final(self).offered() == old(self).offered() + old(self).frames_of(
                data@,
                fragments_of_len(data@.len(), old(self).spec_max_payload() as nat),
            ),
            r is Err ==> old(self).window().spec_in_flight() <= final(self).window().spec_in_flight()
                <= old(self).window().spec_in_flight() + fragments_of_len(
                data@.len(),
                old(self).spec_max_payload() as nat,
            ),
            r matches Ok(n) ==> {
                &&& old(self).refusal(data@.len()) is None
                &&& n == fragments_of_len(data@.len(), old(self).spec_max_payload() as nat)
                &&& final(self).spec_next_packet_id() == old(self).spec_next_packet_id().wrapping_add(
                    1,
                )
                &&& final(self).window().spec_next() == seq_plus(old(self).window().spec_next(), n as int)
                &&& final(self).window().spec_in_flight() == old(self).window().spec_in_flight() + n
                &&& final(self).retransmit().spec_count() == old(self).retransmit().spec_count() + n
                &&& final(self).retransmit().spec_stats() == (RetransmitStats {
                    frames_sent: bumped_by(
                        old(self).retransmit().spec_stats().frames_sent,
                        n as int,
                    ),
                    ..old(self).retransmit().spec_stats()
                })
                &&& forall|i: int|
                    0 <= i < n ==> #[trigger] final(self).waits_since(
                        seq_plus(old(self).window().spec_next(), i),
                        timestamp,
                    )
                &&& Self::slots_apart(old(self).window().spec_next()) ==> forall|i: int|
                    0 <= i < n ==> #[trigger] Self::keeps(
                        final(self).window(),
                        seq_plus(old(self).window().spec_next(), i),
                        timestamp,
                        old(self).fragment_frame(data@, i as nat, n as nat),
                    )
                &&& SendWindow::<W, F>::ring_friendly() && old(self).window().consistent()
                    ==> final(self).window().consistent()
            },
    {
        if self.state != ChannelState::Open {
            return Err(Error::ChannelClosed);
        }
        let packet = match Packet::new(self.next_packet_id, data) {
            Ok(p) => p,
            Err(e) => {
                return Err(e);
            },
        };
        let fragment_count = packet.fragment_count(self.max_payload);
        if self.window.available() < fragment_count {
            return Err(Error::WindowFull);
        }
        if fragment_count > 255 {
            return Err(Error::PacketTooLarge);
        }
        let longest = if data.len() < self.max_payload {
            data.len()
        } else {
            self.max_payload
        };
        if F < FRAME_HEADER_SIZE || longest > F - FRAME_HEADER_SIZE {
            return Err(Error::BufferTooSmall);
        }
        proof {
            self.window.lemma_wf();
            self.retransmit.lemma_wf();
            lemma_ceil_div(data@.len(), self.max_payload as nat);
        }
        let ghost first = self.window.spec_next();
        let mut i: usize = 0;
        assert(self.offered() =~= old(self).offered() + old(self).frames_of(data@, 0));
        while i < fragment_count
            invariant
                i <= fragment_count,
                1 <= fragment_count <= 255,
                fragment_count == fragments_of_len(data@.len(), self.max_payload as nat),
                packet.data@ == data@,
                data@.len() <= MAX_PACKET_SIZE,
                old(self).spec_state() == ChannelState::Open,
                self.wf(),
                transport.inv(),
                first == old(self).window.spec_next(),
                self.state == old(self).state,
                self.ack_num == old(self).ack_num,
                self.max_payload == old(self).max_payload,
                self.next_packet_id == old(self).next_packet_id,
                old(self).refusal(data@.len()) is None,
                self.window.spec_base() == old(self).window.spec_base(),
                self.window.limit() == old(self).window.limit(),
                self.window.spec_next() == seq_plus(first, i as int),
                self.window.spec_in_flight() == old(self).window.spec_in_flight() + i,
                old(self).window.spec_in_flight() + fragment_count <= self.window.limit(),
                self.window.limit() <= W,
                self.retransmit.spec_count() == old(self).retransmit.spec_count() + i,
                self.retransmit.spec_stats() == (RetransmitStats {
                    frames_sent: bumped_by(old(self).retransmit.spec_stats().frames_sent, i as int),
                    ..old(self).retransmit.spec_stats()
                }),
                forall|j: int|
                    0 <= j < i ==> #[trigger] self.waits_since(seq_plus(first, j), timestamp),
                self.offered() == old(self).offered() + old(self).frames_of(data@, i as nat),
                Self::slots_apart(first) ==> forall|j: int|
                    0 <= j < i ==> #[trigger] Self::keeps(
                        self.window,
                        seq_plus(first, j),
                        timestamp,
                        old(self).fragment_frame(data@, j as nat, fragment_count as nat),
                    ),
                SendWindow::<W, F>::ring_friendly() && old(self).window.consistent()
                    ==> self.window.consistent(),
            decreases fragment_count - i,
        {
            let ghost before = self.window;
            let ghost then = *self;
            proof {
                crate::codec::packet::lemma_fragment_bounds(
                    data@.len(),
                    i as nat,
                    self.max_payload as nat,
                );
            }
            let sent = self.send_fragment(transport, &packet, i, fragment_count, timestamp);
            assert(self.offered() =~= old(self).offered() + old(self).frames_of(
                data@,
                (i + 1) as nat,
            ));
            match sent {
                Ok(()) => {},
                Err(e) => {
                    return Err(e);
                },
            }
            proof {
                assert(old(self).fragment_frame(data@, i as nat, fragment_count as nat)
                    == data_frame(
                    seq_plus(first, i as int),
                    self.ack_num,
                    self.next_packet_id,
                    i as u8,
                    fragment_count as u8,
                    fragment(data@, i as nat, self.max_payload as nat),
                ));
                assert forall|j: int| 0 <= j < i + 1 implies #[trigger] self.waits_since(
                    seq_plus(first, j),
                    timestamp,
                ) by {
                    if j < i {
                        Self::lemma_still_waits(
                            then.retransmit,
                            self.retransmit,
                            &then,
                            self,
                            seq_plus(first, j),
                            timestamp,
                        );
                    } else {
                        let at = then.retransmit.free_at();
                        crate::math::lemma_first_such(
                            W as int,
                            |i: int| !then.retransmit.frame(i).active,
                        );
                        assert(0 <= at < W);
                        assert(seq_plus(first, j) == then.window.spec_next());
                        assert(self.retransmit().frame(at) == Self::first_wait(
                            seq_plus(first, j),
                            timestamp,
                        ));
                    }
                }
                if Self::slots_apart(first) {
                    old(self).lemma_keeps_after(
                        before,
                        self.window,
                        data@,
                        i as int,
                        fragment_count as nat,
                        timestamp,
                    );
                }
            }
            i = i + 1;
        }
        let ghost sent = *self;
        self.next_packet_id = self.next_packet_id.wrapping_add(1);
        proof {
            assert forall|j: int| 0 <= j < fragment_count implies #[trigger] self.waits_since(
                seq_plus(first, j),
                timestamp,
            ) by {
                assert(sent.waits_since(seq_plus(first, j), timestamp));
                let at = choose|at: int|
                    0 <= at < W && #[trigger] sent.retransmit().frame(at) == Self::first_wait(
                        seq_plus(first, j),
                        timestamp,
                    );
                assert(self.retransmit().frame(at) == sent.retransmit().frame(at));
            }
        }
        Ok(fragment_count)
    }

    /// Whether the frames of one packet, the first of which has sequence
    /// number `first`, all have slots of their own: the slots never run
    /// into each other, or the sequence numbers of the packet do not wrap
    /// around.
    pub open spec fn slots_apart(first: u32) -> bool {
        SendWindow::<W, F>::ring_friendly() || first + 255 < 0x1_0000_0000
    }

    /// Two frames of one packet have different slots.
    proof fn lemma_apart(first: u32, j: int, i: int)
        requires
            Self::slots_apart(first),
            0 <= j < i < W,
            i < 256,
        ensures
            SendWindow::<W, F>::slot(seq_plus(first, j)) != SendWindow::<W, F>::slot(
                seq_plus(first, i),
            ),
    {
        if SendWindow::<W, F>::ring_friendly() {
            lemma_seq_plus_plus(first, j, i - j);
            SendWindow::<W, F>::lemma_slots_apart(seq_plus(first, j), i - j);
        } else {
            let a = first + j;
            let b = first + i;
            assert(seq_plus(first, j) == a && seq_plus(first, i) == b);
            if a % (W as int) == b % (W as int) {
                vstd::arithmetic::div_mod::lemma_mod_equivalence(b, a, W as int);
                vstd::arithmetic::div_mod::lemma_small_mod((i - j) as nat, W as nat);
            }
        }
    }

    /// The frames kept so far are still kept after one more frame has
    /// taken its slot.
    proof fn lemma_keeps_after(
        &self,
        before: SendWindow<W, F>,
        after: SendWindow<W, F>,
        data: Seq<u8>,
        i: int,
        n: nat,
        timestamp: u64,
    )
        requires
            Self::slots_apart(self.window().spec_next()),
            0 <= i < W,
            i < 256,
            forall|j: int|
                0 <= j < i ==> #[trigger] Self::keeps(
                    before,
                    seq_plus(self.window().spec_next(), j),
                    timestamp,
                    self.fragment_frame(data, j as nat, n),
                ),
            Self::keeps(
                after,
                seq_plus(self.window().spec_next(), i),
                timestamp,
                self.fragment_frame(data, i as nat, n),
            ),
            forall|k: int|
                0 <= k < W && k != SendWindow::<W, F>::slot(seq_plus(self.window().spec_next(), i))
                    ==> after.entry(k) == before.entry(k),
        ensures
            forall|j: int|
                0 <= j < i + 1 ==> #[trigger] Self::keeps(
                    after,
                    seq_plus(self.window().spec_next(), j),
                    timestamp,
                    self.fragment_frame(data, j as nat, n),
                ),
    {
        let first = self.window().spec_next();
        let seq = seq_plus(first, i);
        assert forall|j: int| 0 <= j < i + 1 implies #[trigger] Self::keeps(
            after,
            seq_plus(first, j),
            timestamp,
            self.fragment_frame(data, j as nat, n),
        ) by {
            if j < i {
                let s = seq_plus(first, j);
                assert(Self::keeps(before, s, timestamp, self.fragment_frame(data, j as nat, n)));
                assert(seq == seq_plus(s, i - j));
                Self::lemma_apart(first, j, i);
                Self::lemma_slot_in_range(s);
                Self::lemma_keeps_same_entry(
                    before,
                    after,
                    s,
                    timestamp,
                    self.fragment_frame(data, j as nat, n),
                );
            }
        }
    }

    /// A window that has the same entry in the slot of a frame keeps the
    /// frame as well.
    proof fn lemma_keeps_same_entry(
        before: SendWindow<W, F>,
        after: SendWindow<W, F>,
        seq: u32,
        timestamp: u64,
        frame: FrameView,
    )
        requires
            Self::keeps(before, seq, timestamp, frame),
            after.entry(SendWindow::<W, F>::slot(seq)) == before.entry(
                SendWindow::<W, F>::slot(seq),
            ),
        ensures
            Self::keeps(after, seq, timestamp, frame),
    {
        reveal(Sender::keeps);
    }

    /// A slot is one of the `W` slots.
    proof fn lemma_slot_in_range(seq: u32)
        requires
            W > 0,
        ensures
            0 <= SendWindow::<W, F>::slot(seq) < W,
    {
        assert(0 <= (seq as int) % (W as int) < W) by (nonlinear_arith)
            requires
                W > 0,
                seq >= 0,
        ;
    }

    /// Sends fragment `index` of the `count` fragments of `packet`: writes
    /// its frame, hands it to the carrier, keeps it in the window and
    /// lists it as waiting.
    fn send_fragment<T: Transport>(
        &mut self,
        transport: &mut T,
        packet: &Packet<'_>,
        index: usize,
        count: usize,
        timestamp: u64,
    ) -> (r: Result<()>)
        requires
            old(self).wf(),
            old(transport).inv(),
            index < count <= 255,
            count == fragments_of_len(packet.data@.len(), old(self).spec_max_payload() as nat),
            packet.data@.len() <= MAX_PACKET_SIZE,
            old(self).window().spec_in_flight() < old(self).window().limit(),
        ensures
            final(self).wf(),
            final(transport).inv(),
            final(self).spec_state() == old(self).spec_state(),
            final(self).spec_ack() == old(self).spec_ack(),
            final(self).spec_max_payload() == old(self).spec_max_payload(),
            final(self).spec_next_packet_id() == old(self).spec_next_packet_id(),
            final(self).window().spec_base() == old(self).window().spec_base(),
            final(self).window().limit() == old(self).window().limit(),
            FRAME_HEADER_SIZE + fragment(
                packet.data@,
                index as nat,
                old(self).spec_max_payload() as nat,
            ).len() > F ==> r == Err::<(), Error>(Error::BufferTooSmall) && *final(self) == *old(self),
            r is Err ==> old(self).window().spec_in_flight() <= final(self).window().spec_in_flight()
                <= old(self).window().spec_in_flight() + 1,
            FRAME_HEADER_SIZE + fragment(
                packet.data@,
                index as nat,
                old(self).spec_max_payload() as nat,
            ).len() <= F ==> final(self).offered() == old(self).offered().push(
                wire_bytes(
                    data_frame(
                        old(self).window().spec_next(),
                        old(self).spec_ack(),
                        old(self).spec_next_packet_id(),
                        index as u8,
                        count as u8,
                        fragment(packet.data@, index as nat, old(self).spec_max_payload() as nat),
                    ),
                ),
            ),
            r is Ok ==> {
                let seq = old(self).window().spec_next();
                &&& FRAME_HEADER_SIZE + fragment(
                    packet.data@,
                    index as nat,
                    old(self).spec_max_payload() as nat,
                ).len() <= F
                &&& final(self).window().spec_next() == seq.wrapping_add(1)
                &&& final(self).window().spec_in_flight() == old(self).window().spec_in_flight() + 1
                &&& final(self).retransmit().spec_count() == old(self).retransmit().spec_count() + 1
                &&& final(self).retransmit().spec_stats() == (RetransmitStats {
                    frames_sent: bumped_by(old(self).retransmit().spec_stats().frames_sent, 1),
                    ..old(self).retransmit().spec_stats()
                })
                &&& old(self).retransmit().free_at() < W
                &&& final(self).retransmit().same_but(
                    &old(self).retransmit(),
                    old(self).retransmit().free_at(),
                )
                &&& final(self).retransmit().frame(old(self).retransmit().free_at())
                    == Self::first_wait(seq, timestamp)
                &&& Self::keeps(
                    final(self).window(),
                    seq,
                    timestamp,
                    data_frame(
                        seq,
                        old(self).spec_ack(),
                        old(self).spec_next_packet_id(),
                        index as u8,
                        count as u8,
                        fragment(packet.data@, index as nat, old(self).spec_max_payload() as nat),
                    ),
                )
                &&& forall|i: int|
                    0 <= i < W && i != SendWindow::<W, F>::slot(seq) ==> final(self).window().entry(
                        i,
                    ) == old(self).window().entry(i)
            },
            SendWindow::<W, F>::ring_friendly() && old(self).window().consistent()
                ==> final(self).window().consistent(),
    {
        let piece = match packet.fragment_data(index, self.max_payload) {
            Some(piece) => piece,
            None => {
                return Err(Error::InvalidFragmentIndex);
            },
        };
        let frame = Frame::new_data(
            self.window.next_sequence(),
            self.ack_num,
            self.next_packet_id,
            index as u8,
            count as u8,
            piece,
        );
        proof {
            crate::codec::packet::lemma_fragment_bounds(
                packet.data@.len(),
                index as nat,
                self.max_payload as nat,
            );
        }
        assert(piece@.len() <= packet.data@.len());
        let size = match frame.serialize(&mut self.frame_buf) {
            Ok(size) => size,
            Err(e) => {
                assert(self.frame_buf =~= old(self).frame_buf);
                return Err(e);
            },
        };
        assert(self.frame_buf@.subrange(0, size as int) =~= wire_bytes(frame@));
        self.offered = Ghost(self.offered@.push(wire_bytes(frame@)));
        let wrote = transport.write_all(&self.frame_buf[0..size]);
        let r = self.keep_sent(wrote, size, timestamp);
        proof {
            reveal(Sender::keeps);
        }
        r
    }

    /// Whether the window has, as frame `seq`, the bytes `bytes`, sent
    /// once, at `timestamp`, and not acknowledged.
    pub open spec fn keeps_bytes(
        window: SendWindow<W, F>,
        seq: u32,
        timestamp: u64,
        bytes: Seq<u8>,
    ) -> bool {
        let e = window.entry(SendWindow::<W, F>::slot(seq));
        &&& e.in_use
        &&& !e.acked
        &&& e.sequence == seq
        &&& e.sent_time == timestamp
        &&& e.transmit_count == 1
        &&& e.frame() == bytes
    }

    /// Deals with the answer `wrote` of the carrier to the frame that
    /// stands in the first `size` bytes of the buffer, handed to it at
    /// `timestamp`.
    ///
    /// A frame that the carrier did not take is not kept: the failure is
    /// handed on and nothing changes. A frame that it took is kept in the
    /// window under the next sequence number, and listed as waiting since
    /// `timestamp`. Where the list has no free slot, the frame stays in
    /// the window, and the call fails with `BufferFull`.
    pub fn keep_sent(&mut self, wrote: Result<()>, size: usize, timestamp: u64) -> (r: Result<()>)
        requires
            old(self).wf(),
            size <= F,
            old(self).window().spec_in_flight() < old(self).window().limit(),
        ensures
            final(self).wf(),
            final(self).spec_state() == old(self).spec_state(),
            final(self).spec_ack() == old(self).spec_ack(),
            final(self).spec_max_payload() == old(self).spec_max_payload(),
            final(self).spec_next_packet_id() == old(self).spec_next_packet_id(),
            final(self).scratch() == old(self).scratch(),
            final(self).offered() == old(self).offered(),
            final(self).window().spec_base() == old(self).window().spec_base(),
            final(self).window().limit() == old(self).window().limit(),
            wrote matches Err(e) ==> r == Err::<(), Error>(e) && *final(self) == *old(self),
            wrote is Ok ==> {
                let seq = old(self).window().spec_next();
                let free = old(self).retransmit().free_at();
                &&& final(self).window().spec_next() == seq.wrapping_add(1)
                &&& final(self).window().spec_in_flight() == old(self).window().spec_in_flight() + 1
                &&& Self::keeps_bytes(
                    final(self).window(),
                    seq,
                    timestamp,
                    old(self).scratch().subrange(0, size as int),
                )
                &&& forall|i: int|
                    0 <= i < W && i != SendWindow::<W, F>::slot(seq) ==> final(self).window().entry(
                        i,
                    ) == old(self).window().entry(i)
                &&& if free < W {
                    &&& r is Ok
                    &&& final(self).retransmit().spec_count() == old(self).retransmit().spec_count()
                        + 1
                    &&& final(self).retransmit().spec_stats() == (RetransmitStats {
                        frames_sent: bumped_by(old(self).retransmit().spec_stats().frames_sent, 1),
                        ..old(self).retransmit().spec_stats()
                    })
                    &&& final(self).retransmit().same_but(&old(self).retransmit(), free)
                    &&& final(self).retransmit().frame(free) == Self::first_wait(seq, timestamp)
                } else {
                    &&& r == Err::<(), Error>(Error::BufferFull)
                    &&& final(self).retransmit() == old(self).retransmit()
                }
            },
            SendWindow::<W, F>::ring_friendly() && old(self).window().consistent()
                ==> final(self).window().consistent(),
    {
        match wrote {
            Ok(()) => {},
            Err(e) => {
                return Err(e);
            },
        }
        let seq = match self.window.add_frame(&self.frame_buf[0..size], timestamp) {
            Ok(seq) => seq,
            Err(e) => {
                return Err(e);
            },
        };
        self.retransmit.register(seq, timestamp)
    }

    /// Whether `self` is `before` after a look for frames that have waited
    /// too long at `timestamp`, of which the carrier took `sent` when they
    /// were handed to it again. The frames that were due and had been sent
    /// as often as allowed are given up and counted; every other one that
    /// was due and that the window held went to the carrier; the timeout
    /// is lengthened if any frame was due; each frame that the carrier took
    /// counts as sent again.
    pub open spec fn has_looked(&self, before: &Self, timestamp: u64, sent: usize) -> bool {
        let lost = count_marked(before.retransmit().lost_marks(timestamp), W as int);
        let retries = count_marked(before.retransmit().retry_marks(timestamp), W as int);
        &&& self.same_counters(before)
        &&& sent <= retries
        &&& self.retransmit().spec_count() == before.retransmit().spec_count() - lost
        &&& self.retransmit().spec_max_attempts() == before.retransmit().spec_max_attempts()
        &&& self.retransmit().spec_timer() == (if lost + retries > 0 {
            before.retransmit().spec_timer().backed_off()
        } else {
            before.retransmit().spec_timer()
        })
        &&& self.retransmit().spec_stats() == (RetransmitStats {
            failed_frames: bumped_by(before.retransmit().spec_stats().failed_frames, lost),
            retransmissions: bumped_by(
                before.retransmit().spec_stats().retransmissions,
                sent as int,
            ),
            ..before.retransmit().spec_stats()
        })
        &&& forall|i: int|
            0 <= i < W ==> (#[trigger] self.retransmit().frame(i)).active == (before.retransmit().frame(
                i,
            ).active && !(before.retransmit().due(timestamp, i) && before.retransmit().spent(i)))
                && self.retransmit().frame(i).sequence == before.retransmit().frame(i).sequence
        &&& self.offered() == before.offered() + Self::sent_again(
            before.window(),
            before.retransmit().due_below(timestamp, W as int),
            before.retransmit().due_below(timestamp, W as int).len() as int,
        )
        &&& exists|took: Seq<bool>| #[trigger] self.has_noted(before, timestamp, sent, took)
    }

    /// Looks for frames that have waited too long at `timestamp`. Those
    /// that have been sent as often as allowed are given up and counted
    /// as failed. Every other one that the window still holds is handed to
    /// the carrier again, as it was sent the first time, and if the
    /// carrier takes it, it is noted as sent again at `timestamp`. Returns
    /// the number of frames that the carrier took.
    ///
    /// A failure of the carrier is not a failure of this call: the frame
    /// stays as it is and comes up again at the next look. What went to
    /// the carrier is what `sent_again` says, whether or not it was taken.
    /// The slots of the frames that were taken are collected, up to
    /// `BATCH_CAPACITY` at a time, and noted as `note_resent` says.
    pub fn check_retransmit<T: Transport>(&mut self, transport: &mut T, timestamp: u64) -> (r:
        Result<usize>)
        requires
            old(self).wf(),
            old(transport).inv(),
        ensures
            final(self).wf(),
            final(transport).inv(),
            r is Ok,
            final(self).has_looked(old(self), timestamp, r->Ok_0),
    {
        let (expired, slots) = self.retransmit.take_expired_slots(timestamp);
        let ghost checked = self.retransmit;
        let mut batch = batch_new();
        let ghost mut took: Seq<bool> = Seq::new(W as nat, |i: int| false);
        let ghost mut low: int = 0;
        let ghost mut bound: int = 0;
        let mut sent: usize = 0;
        let mut k: usize = 0;
        assert(self.offered() =~= old(self).offered() + Self::sent_again(
            old(self).window,
            expired@,
            0,
        ));
        proof {
            old(self).retransmit.lemma_due_counts(timestamp, W as int);
            crate::math::lemma_count_marked_full(took, W as int);
            assert(Self::noted_so_far(old(self), self, &checked, timestamp, took)) by {
                reveal(Sender::noted_so_far);
            }
        }
        while k < expired.len()
            invariant
                k <= expired@.len(),
                sent <= k,
                sent <= RetransmitManager::<W>::count_retries(expired@, k as int),
                self.wf(),
                transport.inv(),
                self.same_counters(old(self)),
                expired@ == old(self).retransmit.due_below(timestamp, W as int),
                old(self).retransmit.found_in(timestamp, expired@, slots@),
                old(self).retransmit.timeouts_checked(&checked, timestamp),
                self.retransmit.spec_count() == checked.spec_count(),
                self.retransmit.spec_max_attempts() == checked.spec_max_attempts(),
                self.retransmit.spec_timer() == checked.spec_timer(),
                self.retransmit.spec_stats() == (RetransmitStats {
                    retransmissions: bumped_by(
                        checked.spec_stats().retransmissions,
                        count_marked(took, W as int),
                    ),
                    ..checked.spec_stats()
                }),
                took.len() == W,
                0 <= count_marked(took, W as int),
                sent == count_marked(took, W as int) + batch_items(batch).len(),
                batch_items(batch).len() <= 64,
                0 <= low <= bound <= W,
                forall|i: int| low <= i < W ==> !#[trigger] took[i],
                k < expired@.len() ==> bound <= slots@[k as int],
                Self::waits_to_be_noted(old(self), timestamp, batch_items(batch), low, bound),
                Self::noted_so_far(old(self), self, &checked, timestamp, took),
                forall|i: int|
                    0 <= i < W ==> (#[trigger] self.window.entry(i)).in_use == old(self).window.entry(
                        i,
                    ).in_use && self.window.entry(i).sequence == old(self).window.entry(i).sequence
                        && self.window.entry(i).frame() == old(self).window.entry(i).frame(),
                self.offered() == old(self).offered() + Self::sent_again(
                    old(self).window,
                    expired@,
                    k as int,
                ),
            decreases expired@.len() - k,
        {
            let (seq, exceeded) = expired[k];
            let slot = slots[k];
            let ghost at_head = *self;
            let ghost mut noted_some = false;
            proof {
                if W > 0 {
                    Self::lemma_slot_in_range(seq);
                }
            }
            if !exceeded {
                let took_it = match self.window.get_entry(seq) {
                    Some(entry) => {
                        self.offered = Ghost(self.offered@.push(entry.frame()));
                        transport.write_all(entry.frame_data()).is_ok()
                    },
                    None => false,
                };
                if took_it {
                    proof {
                        Self::lemma_noted_same(old(self), &at_head, self, &checked, timestamp, took);
                    }
                    let fits = slot <= 0xFFFF_FFFF;
                    let pushed = if fits {
                        batch_push(&mut batch, slot as u32).is_ok()
                    } else {
                        false
                    };
                    if !pushed {
                        let marks = self.note_batch(
                            batch_slice(&batch),
                            timestamp,
                            Ghost(*old(self)),
                            Ghost(checked),
                            Ghost(took),
                            Ghost(low),
                            Ghost(bound),
                        );
                        batch = batch_new();
                        proof {
                            took = marks@;
                            low = bound;
                            noted_some = true;
                        }
                        if fits {
                            let _ = batch_push(&mut batch, slot as u32);
                        } else {
                            let marks = self.note_one(
                                slot,
                                timestamp,
                                Ghost(*old(self)),
                                Ghost(checked),
                                Ghost(took),
                            );
                            proof {
                                lemma_count_marked_update(took, W as int, slot as int, true);
                                took = marks@;
                                low = slot + 1;
                            }
                        }
                    }
                    sent = sent + 1;
                }
            }
            proof {
                RetransmitManager::<W>::lemma_count_retries_grows(expired@, k as int, k + 1);
                assert(self.offered() =~= old(self).offered() + Self::sent_again(
                    old(self).window,
                    expired@,
                    k + 1,
                ));
                bound = slot + 1;
                if !noted_some {
                    Self::lemma_noted_same(old(self), &at_head, self, &checked, timestamp, took);
                }
            }
            k = k + 1;
        }
        let marks = self.note_batch(
            batch_slice(&batch),
            timestamp,
            Ghost(*old(self)),
            Ghost(checked),
            Ghost(took),
            Ghost(low),
            Ghost(bound),
        );
        proof {
            assert(self.has_noted(old(self), timestamp, sent, marks@)) by {
                reveal(Sender::noted_so_far);
            }
        }
        Ok(sent)
    }

    /// Whether the slots `items` hold frames that the carrier has taken
    /// again and that are still to be noted: slots in rising order between
    /// `low` and `bound`, each of a frame that was due at `timestamp`, had
    /// not been sent as often as allowed, and was held by the window.
    pub open spec fn waits_to_be_noted(
        start: &Self,
        timestamp: u64,
        items: Seq<u32>,
        low: int,
        bound: int,
    ) -> bool {
        &&& forall|j: int|
            0 <= j < items.len() ==> {
                let slot = (#[trigger] items[j]) as int;
                let seq = start.retransmit().frame(slot).sequence;
                &&& low <= slot < bound
                &&& slot < W
                &&& start.retransmit().due(timestamp, slot)
                &&& !start.retransmit().spent(slot)
                &&& start.window().in_range(seq)
                &&& start.window().holds(seq)
            }
        &&& forall|j1: int, j2: int|
            0 <= j1 < j2 < items.len() ==> (#[trigger] items[j1]) < (#[trigger] items[j2])
    }

    /// Notes the frame that waits in `slot` as sent once more, at
    /// `timestamp`: in the list of those waiting, where it counts as one
    /// more frame sent again, and in the window, if the window holds it.
    /// This is what becomes of a frame that the carrier has taken again.
    pub fn note_resent(&mut self, slot: usize, timestamp: u64)
        requires
            old(self).wf(),
            slot < W,
            old(self).retransmit().frame(slot as int).active,
        ensures
            final(self).wf(),
            final(self).same_counters(old(self)),
            final(self).offered() == old(self).offered(),
            final(self).retransmit().spec_count() == old(self).retransmit().spec_count(),
            final(self).retransmit().spec_max_attempts() == old(self).retransmit().spec_max_attempts(),
            final(self).retransmit().spec_timer() == old(self).retransmit().spec_timer(),
            final(self).retransmit().same_but(&old(self).retransmit(), slot as int),
            final(self).retransmit().frame(slot as int) == RetransmitManager::<W>::noted_again(
                old(self).retransmit().frame(slot as int),
                timestamp,
            ),
            final(self).retransmit().spec_stats() == (RetransmitStats {
                retransmissions: bumped_by(old(self).retransmit().spec_stats().retransmissions, 1),
                ..old(self).retransmit().spec_stats()
            }),
            ({
                let seq = old(self).retransmit().frame(slot as int).sequence;
                let at = SendWindow::<W, F>::slot(seq);
                if old(self).window().in_range(seq) && old(self).window().holds(seq) {
                    &&& final(self).window().entry(at) == (WindowEntry {
                        sent_time: timestamp,
                        transmit_count: (if old(self).window().entry(at).transmit_count == 255 {
                            255u8
                        } else {
                            (old(self).window().entry(at).transmit_count + 1) as u8
                        }),
                        ..old(self).window().entry(at)
                    })
                    &&& forall|j: int|
                        0 <= j < W && j != at ==> final(self).window().entry(j) == old(self).window().entry(j)
                } else {
                    forall|j: int|
                        0 <= j < W ==> final(self).window().entry(j) == old(self).window().entry(j)
                }
            }),
    {
        let seq = self.retransmit.sequence_at(slot);
        self.retransmit.note_again(slot, timestamp);
        let _ = self.window.mark_retransmitted(seq, timestamp);
    }

    /// Notes one frame that the carrier has taken again, and marks its
    /// slot.
    fn note_one(
        &mut self,
        slot: usize,
        timestamp: u64,
        Ghost(start): Ghost<Self>,
        Ghost(checked): Ghost<RetransmitManager<W>>,
        Ghost(took): Ghost<Seq<bool>>,
    ) -> (marks: Ghost<Seq<bool>>)
        requires
            old(self).wf(),
            Self::noted_so_far(&start, old(self), &checked, timestamp, took),
            Self::still_holds(&start, old(self)),
            slot < W,
            !took[slot as int],
            start.retransmit().due(timestamp, slot as int),
            !start.retransmit().spent(slot as int),
            start.window().in_range(start.retransmit().frame(slot as int).sequence),
            start.window().holds(start.retransmit().frame(slot as int).sequence),
        ensures
            final(self).wf(),
            final(self).same_counters(old(self)),
            final(self).offered() == old(self).offered(),
            final(self).retransmit().spec_count() == old(self).retransmit().spec_count(),
            final(self).retransmit().spec_max_attempts() == old(self).retransmit().spec_max_attempts(),
            final(self).retransmit().spec_timer() == old(self).retransmit().spec_timer(),
            final(self).retransmit().spec_stats() == (RetransmitStats {
                retransmissions: bumped_by(old(self).retransmit().spec_stats().retransmissions, 1),
                ..old(self).retransmit().spec_stats()
            }),
            Self::still_holds(&start, final(self)),
            marks@ == took.update(slot as int, true),
            Self::noted_so_far(&start, final(self), &checked, timestamp, marks@),
    {
        let ghost before = *self;
        proof {
            let seq = start.retransmit().frame(slot as int).sequence;
            Self::lemma_slot_in_range(seq);
            assert(self.retransmit().frame(slot as int) == checked.frame(slot as int)
                && checked.frame(slot as int) == start.retransmit().frame(slot as int)
                && self.window().spec_base() == start.window().spec_base() && self.window().limit()
                == start.window().limit()) by {
                reveal(Sender::noted_so_far);
            }
        }
        self.note_resent(slot, timestamp);
        proof {
            Self::lemma_noted_one_more(
                &start,
                &before,
                self,
                &checked,
                timestamp,
                took,
                slot as int,
            );
        }
        Ghost(took.update(slot as int, true))
    }

    /// Whether the window of `now` holds the frames that the window of
    /// `start` held, under the same numbers and with the same bytes.
    pub open spec fn still_holds(start: &Self, now: &Self) -> bool {
        forall|i: int|
            0 <= i < W ==> (#[trigger] now.window().entry(i)).in_use == start.window().entry(
                i,
            ).in_use && now.window().entry(i).sequence == start.window().entry(i).sequence
                && now.window().entry(i).frame() == start.window().entry(i).frame()
    }

    /// Notes the frames in the slots `items`, which the carrier has taken
    /// again, one by one.
    fn note_batch(
        &mut self,
        items: &[u32],
        timestamp: u64,
        Ghost(start): Ghost<Self>,
        Ghost(checked): Ghost<RetransmitManager<W>>,
        Ghost(took): Ghost<Seq<bool>>,
        Ghost(low): Ghost<int>,
        Ghost(bound): Ghost<int>,
    ) -> (marks: Ghost<Seq<bool>>)
        requires
            old(self).wf(),
            took.len() == W,
            Self::noted_so_far(&start, old(self), &checked, timestamp, took),
            Self::still_holds(&start, old(self)),
            Self::waits_to_be_noted(&start, timestamp, items@, low, bound),
            0 <= low <= bound <= W,
            forall|i: int| low <= i < W ==> !#[trigger] took[i],
        ensures
            final(self).wf(),
            final(self).same_counters(old(self)),
            final(self).offered() == old(self).offered(),
            final(self).retransmit().spec_count() == old(self).retransmit().spec_count(),
            final(self).retransmit().spec_max_attempts() == old(self).retransmit().spec_max_attempts(),
            final(self).retransmit().spec_timer() == old(self).retransmit().spec_timer(),
            final(self).retransmit().spec_stats() == (RetransmitStats {
                retransmissions: bumped_by(
                    old(self).retransmit().spec_stats().retransmissions,
                    items@.len() as int,
                ),
                ..old(self).retransmit().spec_stats()
            }),
            Self::still_holds(&start, final(self)),
            marks@.len() == W,
            count_marked(marks@, W as int) == count_marked(took, W as int) + items@.len(),
            forall|i: int| bound <= i < W ==> !#[trigger] marks@[i],
            Self::noted_so_far(&start, final(self), &checked, timestamp, marks@),
    {
        let ghost mut marks = took;
        let ghost mut from: int = low;
        let mut j: usize = 0;
        while j < items.len()
            invariant
                j <= items@.len(),
                self.wf(),
                self.same_counters(old(self)),
                self.offered() == old(self).offered(),
                self.retransmit().spec_count() == old(self).retransmit().spec_count(),
                self.retransmit().spec_max_attempts() == old(self).retransmit().spec_max_attempts(),
                self.retransmit().spec_timer() == old(self).retransmit().spec_timer(),
                self.retransmit().spec_stats() == (RetransmitStats {
                    retransmissions: bumped_by(
                        old(self).retransmit().spec_stats().retransmissions,
                        j as int,
                    ),
                    ..old(self).retransmit().spec_stats()
                }),
                Self::still_holds(&start, self),
                Self::waits_to_be_noted(&start, timestamp, items@, low, bound),
                marks.len() == W,
                count_marked(marks, W as int) == count_marked(took, W as int) + j,
                low <= from <= bound <= W,
                forall|i: int| from <= i < W ==> !#[trigger] marks[i],
                j < items@.len() ==> from <= items@[j as int],
                Self::noted_so_far(&start, self, &checked, timestamp, marks),
            decreases items@.len() - j,
        {
            let slot = items[j] as usize;
            let ghost earlier = marks;
            let noted = self.note_one(
                slot,
                timestamp,
                Ghost(start),
                Ghost(checked),
                Ghost(marks),
            );
            proof {
                lemma_count_marked_update(earlier, W as int, slot as int, true);
                marks = noted@;
                from = slot + 1;
            }
            j = j + 1;
        }
        Ghost(marks)
    }

    /// Whether `now` is `start` after the frames that waited in the slots
    /// marked in `took` have gone to the carrier again at `timestamp`:
    /// each of them was due and had not been sent as often as allowed, and
    /// the window held it; it is noted as sent once more at `timestamp`,
    /// in the list and in the window. A frame that was due and had been
    /// sent as often as allowed is given up. Every other frame waits as it
    /// did, and an entry of the window changes only by being noted.
    pub open spec fn has_noted(&self, start: &Self, timestamp: u64, sent: usize, took: Seq<bool>) -> bool {
        &&& took.len() == W
        &&& count_marked(took, W as int) == sent
        &&& forall|i: int|
            0 <= i < W && #[trigger] took[i] ==> {
                let seq = start.retransmit().frame(i).sequence;
                &&& start.retransmit().due(timestamp, i)
                &&& !start.retransmit().spent(i)
                &&& start.window().in_range(seq)
                &&& start.window().holds(seq)
                &&& self.window().entry(SendWindow::<W, F>::slot(seq)).sent_time == timestamp
            }
        &&& forall|i: int|
            0 <= i < W ==> #[trigger] self.retransmit().frame(i) == (if start.retransmit().due(
                timestamp,
                i,
            ) && start.retransmit().spent(i) {
                retired(start.retransmit().frame(i))
            } else if took[i] {
                RetransmitManager::<W>::noted_again(start.retransmit().frame(i), timestamp)
            } else {
                start.retransmit().frame(i)
            })
        &&& forall|j: int|
            0 <= j < W ==> #[trigger] self.window().entry(j) == start.window().entry(j) || {
                &&& self.window().entry(j) == (WindowEntry {
                    sent_time: timestamp,
                    transmit_count: self.window().entry(j).transmit_count,
                    ..start.window().entry(j)
                })
                &&& self.window().entry(j).transmit_count >= start.window().entry(j).transmit_count
            }
    }

    /// What `has_noted` says of the frames gone so far, with `checked` as
    /// the list after the look for timeouts.
    #[verifier::opaque]
    pub open spec fn noted_so_far(
        start: &Self,
        now: &Self,
        checked: &RetransmitManager<W>,
        timestamp: u64,
        took: Seq<bool>,
    ) -> bool {
        &&& took.len() == W
        &&& start.retransmit().timeouts_checked(checked, timestamp)
        &&& now.window().spec_base() == start.window().spec_base()
        &&& now.window().limit() == start.window().limit()
        &&& forall|i: int|
            0 <= i < W && #[trigger] took[i] ==> {
                let seq = start.retransmit().frame(i).sequence;
                &&& start.retransmit().due(timestamp, i)
                &&& !start.retransmit().spent(i)
                &&& start.window().in_range(seq)
                &&& start.window().holds(seq)
                &&& now.window().entry(SendWindow::<W, F>::slot(seq)).sent_time == timestamp
            }
        &&& forall|i: int|
            0 <= i < W ==> #[trigger] now.retransmit().frame(i) == (if took[i] {
                RetransmitManager::<W>::noted_again(checked.frame(i), timestamp)
            } else {
                checked.frame(i)
            })
        &&& forall|j: int|
            0 <= j < W ==> #[trigger] now.window().entry(j) == start.window().entry(j) || {
                &&& now.window().entry(j) == (WindowEntry {
                    sent_time: timestamp,
                    transmit_count: now.window().entry(j).transmit_count,
                    ..start.window().entry(j)
                })
                &&& now.window().entry(j).transmit_count >= start.window().entry(j).transmit_count
            }
    }

    /// What is noted does not depend on what was handed to the carrier.
    proof fn lemma_noted_same(
        start: &Self,
        before: &Self,
        after: &Self,
        checked: &RetransmitManager<W>,
        timestamp: u64,
        took: Seq<bool>,
    )
        requires
            Self::noted_so_far(start, before, checked, timestamp, took),
            after.window() == before.window(),
            after.retransmit() == before.retransmit(),
        ensures
            Self::noted_so_far(start, after, checked, timestamp, took),
    {
        reveal(Sender::noted_so_far);
    }

    /// One more frame that the carrier took is noted, and the others stay
    /// as they are.
    proof fn lemma_noted_one_more(
        start: &Self,
        before: &Self,
        after: &Self,
        checked: &RetransmitManager<W>,
        timestamp: u64,
        took: Seq<bool>,
        slot: int,
    )
        requires
            W > 0,
            Self::noted_so_far(start, before, checked, timestamp, took),
            0 <= slot < W,
            !took[slot],
            start.retransmit().due(timestamp, slot),
            !start.retransmit().spent(slot),
            start.window().in_range(start.retransmit().frame(slot).sequence),
            start.window().holds(start.retransmit().frame(slot).sequence),
            before.window().in_range(start.retransmit().frame(slot).sequence),
            before.window().holds(start.retransmit().frame(slot).sequence),
            after.retransmit().same_but(&before.retransmit(), slot),
            after.retransmit().frame(slot) == RetransmitManager::<W>::noted_again(
                before.retransmit().frame(slot),
                timestamp,
            ),
            after.window().spec_base() == before.window().spec_base(),
            after.window().limit() == before.window().limit(),
            ({
                let at = SendWindow::<W, F>::slot(start.retransmit().frame(slot).sequence);
                &&& 0 <= at < W
                &&& after.window().entry(at) == (WindowEntry {
                    sent_time: timestamp,
                    transmit_count: (if before.window().entry(at).transmit_count == 255 {
                        255u8
                    } else {
                        (before.window().entry(at).transmit_count + 1) as u8
                    }),
                    ..before.window().entry(at)
                })
                &&& forall|j: int|
                    0 <= j < W && j != at ==> after.window().entry(j) == before.window().entry(j)
            }),
        ensures
            Self::noted_so_far(start, after, checked, timestamp, took.update(slot, true)),
    {
        reveal(Sender::noted_so_far);
        let more = took.update(slot, true);
        let at = SendWindow::<W, F>::slot(start.retransmit().frame(slot).sequence);
        assert forall|i: int| 0 <= i < W implies #[trigger] after.retransmit().frame(i) == (if more[i] {
            RetransmitManager::<W>::noted_again(checked.frame(i), timestamp)
        } else {
            checked.frame(i)
        }) by {
            if i != slot {
                assert(after.retransmit().frame(i) == before.retransmit().frame(i));
                assert(more[i] == took[i]);
            } else {
                assert(before.retransmit().frame(i) == checked.frame(i));
            }
        }
        assert forall|j: int| 0 <= j < W implies #[trigger] after.window().entry(j)
            == start.window().entry(j) || {
            &&& after.window().entry(j) == (WindowEntry {
                sent_time: timestamp,
                transmit_count: after.window().entry(j).transmit_count,
                ..start.window().entry(j)
            })
            &&& after.window().entry(j).transmit_count >= start.window().entry(j).transmit_count
        } by {
            if j != at {
                assert(after.window().entry(j) == before.window().entry(j));
            }
        }
        assert forall|i: int| 0 <= i < W && #[trigger] more[i] implies {
            let seq = start.retransmit().frame(i).sequence;
            &&& start.retransmit().due(timestamp, i)
            &&& !start.retransmit().spent(i)
            &&& start.window().in_range(seq)
            &&& start.window().holds(seq)
            &&& after.window().entry(SendWindow::<W, F>::slot(seq)).sent_time == timestamp
        } by {
            let seq = start.retransmit().frame(i).sequence;
            let there = SendWindow::<W, F>::slot(seq);
            if i != slot {
                assert(took[i]);
                assert(before.window().entry(there).sent_time == timestamp);
                Self::lemma_slot_in_range(seq);
                if there != at {
                    assert(after.window().entry(there) == before.window().entry(there));
                }
            }
        }
    }

    /// The frames that go to the carrier again for the first `count` entries
    /// of `due`, each a sequence number and whether its frame has been sent
    /// as often as allowed: those not yet spent that `window` still holds,
    /// in the order of `due`, as the window holds them.
    pub open spec fn sent_again(window: SendWindow<W, F>, due: Seq<(u32, bool)>, count: int) -> Seq<
        Seq<u8>,
    >
        decreases count,
    {
        if count <= 0 {
            Seq::<Seq<u8>>::empty()
        } else {
            let before = Self::sent_again(window, due, count - 1);
            let (seq, spent) = due[count - 1];
            if !spent && window.in_range(seq) && window.holds(seq) {
                before.push(window.entry(SendWindow::<W, F>::slot(seq)).frame())
            } else {
                before
            }
        }
    }

    /// Whether `self` and `other` agree in everything but the frames
    /// themselves: state, numbers, options, and the bounds of the window.
    pub open spec fn same_counters(&self, other: &Self) -> bool {
        &&& self.spec_state() == other.spec_state()
        &&& self.spec_next_packet_id() == other.spec_next_packet_id()
        &&& self.spec_ack() == other.spec_ack()
        &&& self.spec_max_payload() == other.spec_max_payload()
        &&& self.scratch() == other.scratch()
        &&& self.window().spec_base() == other.window().spec_base()
        &&& self.window().spec_next() == other.window().spec_next()
        &&& self.window().spec_in_flight() == other.window().spec_in_flight()
        &&& self.window().limit() == other.window().limit()
    }

    /// Whether `self` is `before` after it has taken the cumulative
    /// acknowledgment `ack` at `timestamp`: the window has moved past every
    /// frame up to and including `ack`, every frame listed as waiting
    /// whose sequence number lies at or before `ack` is acknowledged, and
    /// nothing else has changed.
    pub open spec fn took_ack(&self, before: &Self, ack: u32, timestamp: u64) -> bool {
        &&& self.spec_next_packet_id() == before.spec_next_packet_id()
        &&& self.spec_ack() == before.spec_ack()
        &&& self.spec_max_payload() == before.spec_max_payload()
        &&& self.spec_state() == before.spec_state()
        &&& self.scratch() == before.scratch()
        &&& self.offered() == before.offered()
        &&& self.window().spec_next() == before.window().spec_next()
        &&& self.window().limit() == before.window().limit()
        &&& self.window().spec_base() == seq_plus(
            before.window().spec_base(),
            before.window().passed_by(ack),
        )
        &&& self.window().spec_in_flight() == before.window().spec_in_flight()
            - before.window().passed_by(ack)
        &&& before.retransmit().acked_below(&self.retransmit(), ack, timestamp, W as int)
    }

    /// Takes a cumulative acknowledgment that arrived at `timestamp`, as
    /// `took_ack` says.
    pub fn process_ack(&mut self, ack: u32, timestamp: u64)
        requires
            old(self).wf(),
        ensures
            final(self).wf(),
            final(self).took_ack(old(self), ack, timestamp),
    {
        let _ = self.window.ack_cumulative(ack);
        self.retransmit.acknowledge_cumulative(ack, timestamp);
    }

    /// Whether `self` is `before` after it has taken the acknowledgment of
    /// the single frame `sequence` at `timestamp`: the frame is taken off
    /// the list of those waiting, if it was on it, and the window has not
    /// moved.
    pub open spec fn took_single_ack(&self, before: &Self, sequence: u32, timestamp: u64) -> bool {
        &&& self.spec_next_packet_id() == before.spec_next_packet_id()
        &&& self.spec_ack() == before.spec_ack()
        &&& self.spec_max_payload() == before.spec_max_payload()
        &&& self.spec_state() == before.spec_state()
        &&& self.scratch() == before.scratch()
        &&& self.offered() == before.offered()
        &&& self.window().spec_base() == before.window().spec_base()
        &&& self.window().spec_next() == before.window().spec_next()
        &&& self.window().spec_in_flight() == before.window().spec_in_flight()
        &&& before.retransmit().waiting_at(sequence) == W ==> self.retransmit()
            == before.retransmit()
        &&& before.retransmit().waiting_at(sequence) < W ==> self.retransmit().frame(
            before.retransmit().waiting_at(sequence),
        ) == crate::reliable::retransmit::retired(
            before.retransmit().frame(before.retransmit().waiting_at(sequence)),
        ) && self.retransmit().spec_count() == before.retransmit().spec_count() - 1
    }

    /// Takes the acknowledgment of the single frame `sequence`, such as
    /// the pong that answers a ping, as `took_single_ack` says. The frame
    /// is marked in the window as well.
    pub fn process_selective_ack(&mut self, sequence: u32, timestamp: u64)
        requires
            old(self).wf(),
        ensures
            final(self).wf(),
            final(self).took_single_ack(old(self), sequence, timestamp),
    {
        let _ = self.window.ack_selective(sequence);
        let _ = self.retransmit.acknowledge(sequence, timestamp);
    }

    /// Asks to close the channel: sends a fin with the next sequence
    /// number and, if the carrier took it, goes from open to closing. A
    /// channel that is not open stays as it is.
    pub fn close<T: Transport>(&mut self, transport: &mut T) -> (r: Result<()>)
        requires
            old(transport).inv(),
        ensures
            final(transport).inv(),
            old(self).wf() ==> final(self).wf(),
            final(self).window() == old(self).window(),
            final(self).retransmit() == old(self).retransmit(),
            final(self).spec_next_packet_id() == old(self).spec_next_packet_id(),
            final(self).spec_ack() == old(self).spec_ack(),
            final(self).spec_max_payload() == old(self).spec_max_payload(),
            old(self).spec_state() != ChannelState::Open ==> r is Ok && final(self).spec_state()
                == old(self).spec_state() && final(self).scratch() == old(self).scratch()
                && final(self).offered() == old(self).offered(),
            old(self).spec_state() == ChannelState::Open ==> {
                &&& final(self).offered() == Self::with_frame(
                    old(self).offered(),
                    control_frame(FrameType::Fin, old(self).window().spec_next(), 0),
                )
                &&& final(self).spec_state() == (if r is Ok {
                    ChannelState::Closing
                } else {
                    ChannelState::Open
                })
                &&& F < FRAME_HEADER_SIZE ==> r == Err::<(), Error>(Error::BufferTooSmall)
                &&& F >= FRAME_HEADER_SIZE ==> final(self).scratch().subrange(
                    0,
                    FRAME_HEADER_SIZE as int,
                ) == wire_bytes(control_frame(FrameType::Fin, old(self).window().spec_next(), 0))
            },
    {
        if self.state != ChannelState::Open {
            return Ok(());
        }
        let frame = Frame::new_fin(self.window.next_sequence());
        let sent = self.emit(transport, &frame);
        proof {
            Self::lemma_front(self.scratch(), wire_bytes(frame@), old(self).scratch());
        }
        match sent {
            Ok(()) => {},
            Err(e) => {
                return Err(e);
            },
        }
        self.state = ChannelState::Closing;
        Ok(())
    }

    /// The counts of what became of the frames.
    pub fn stats(&self) -> (s: &RetransmitStats)
        ensures
            *s == self.retransmit().spec_stats(),
    {
        self.retransmit.stats()
    }

    /// Whether the frames start at sequence number `seq`, with nothing in
    /// flight and nothing waiting.
    pub open spec fn starts_at(&self, seq: u32) -> bool {
        &&& self.window().spec_base() == seq
        &&& self.window().spec_next() == seq
        &&& self.window().spec_in_flight() == 0
        &&& self.window().consistent()
        &&& self.retransmit().spec_count() == 0
    }

    /// Lets the frames start at sequence number `initial_seq`, with
    /// nothing in flight and nothing waiting: for the start of a
    /// connection, once the handshake has used up the number before.
    pub fn start_at(&mut self, initial_seq: u32)
        requires
            old(self).wf(),
        ensures
            final(self).wf(),
            final(self).spec_state() == old(self).spec_state(),
            final(self).spec_next_packet_id() == old(self).spec_next_packet_id(),
            final(self).spec_ack() == old(self).spec_ack(),
            final(self).spec_max_payload() == old(self).spec_max_payload(),
            final(self).scratch() == old(self).scratch(),
            final(self).offered() == old(self).offered(),
            final(self).window().spec_base() == initial_seq,
            final(self).window().spec_next() == initial_seq,
            final(self).window().spec_in_flight() == 0,
            final(self).window().limit() == old(self).window().limit(),
            final(self).window().consistent(),
            final(self).retransmit().spec_count() == 0,
            final(self).retransmit().spec_stats() == old(self).retransmit().spec_stats(),
            final(self).retransmit().spec_max_attempts() == old(self).retransmit().spec_max_attempts(),
    {
        self.window.reset(initial_seq);
        self.retransmit.reset();
    }

    /// Starts over: an open channel with nothing in flight and nothing
    /// waiting, from sequence number and packet number zero. The counts
    /// and the options stay.
    pub fn reset(&mut self)
        requires
            old(self).wf(),
        ensures
            final(self).wf(),
            final(self).spec_state() == ChannelState::Open,
            final(self).spec_next_packet_id() == 0,
            final(self).spec_ack() == 0,
            final(self).offered() == old(self).offered(),
            final(self).spec_max_payload() == old(self).spec_max_payload(),
            final(self).window().spec_base() == 0,
            final(self).window().spec_next() == 0,
            final(self).window().spec_in_flight() == 0,
            final(self).window().limit() == old(self).window().limit(),
            final(self).window().consistent(),
            final(self).retransmit().spec_count() == 0,
            final(self).retransmit().spec_stats() == old(self).retransmit().spec_stats(),
            final(self).retransmit().spec_max_attempts() == old(self).retransmit().spec_max_attempts(),
    {
        self.window.reset(0);
        self.retransmit.reset();
        self.next_packet_id = 0;
        self.ack_num = 0;
        self.state = ChannelState::Open;
    }
}

} // verus!
