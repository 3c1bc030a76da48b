//! The receiving half of a connection.

use vstd::prelude::*;
use crate::buffer::ring::copy_bytes;
use crate::buffer::window::ReceiveWindow;
use crate::channel::ChannelState;
use crate::codec::frame::{Frame, FrameType};
use crate::config::Config;
use crate::error::{Error, Result};
use crate::reliable::reassembler::Reassembler;

verus! {

/// The receiving half: a receive window of `W` frames, up to `E` packets
/// put together at once, and room for one packet of at most `N` bytes
/// that waits to be read.
#[derive(Debug)]
pub struct Receiver<const W: usize, const E: usize, const N: usize> {
    window: ReceiveWindow<W>,
    reassembler: Reassembler<E, N>,
    state: ChannelState,
    recv_buf: [u8; N],
    recv_len: usize,
    packet_ready: bool,
    current_packet_id: u16,
}

impl<const W: usize, const E: usize, const N: usize> Receiver<W, E, N> {
    pub closed spec fn window(&self) -> ReceiveWindow<W> {
        self.window
    }

    pub closed spec fn reassembler(&self) -> Reassembler<E, N> {
        self.reassembler
    }

    pub closed spec fn spec_state(&self) -> ChannelState {
        self.state
    }

    /// The packet that waits to be read, if one does.
    pub closed spec fn staged(&self) -> Seq<u8> {
        self.recv_buf@.subrange(0, self.recv_len as int)
    }

    /// Whether a packet waits to be read.
    pub closed spec fn ready(&self) -> bool {
        self.packet_ready
    }

    /// The number of the packet that was completed last.
    pub closed spec fn spec_packet_id(&self) -> u16 {
        self.current_packet_id
    }

    /// Whether window and reassembler are well formed and the packet that
    /// waits is within its room.
    pub closed spec fn wf(&self) -> bool {
        &&& self.window.wf()
        &&& self.reassembler.wf()
        &&& self.recv_len <= N
    }

    /// What `wf` says, for those who cannot look inside.
    pub proof fn lemma_wf(&self)
        requires
            self.wf(),
        ensures
            self.window().wf(),
            self.reassembler().wf(),
            self.staged().len() <= N,
    {
    }

    /// Whether `self` and `other` hold the same packet for reading, or
    /// none.
    pub open spec fn same_staged(&self, other: &Self) -> bool {
        &&& self.staged() == other.staged()
        &&& self.ready() == other.ready()
        &&& self.spec_packet_id() == other.spec_packet_id()
    }

    /// A receiver for a connection with the options of `config`, awaiting
    /// sequence number zero.
    pub fn new(config: &Config) -> (r: Self)
        ensures
            r.wf(),
            r.spec_state() == ChannelState::Open,
            !r.ready(),
            r.staged() == Seq::<u8>::empty(),
            r.window().spec_expected() == 0,
            r.window().limit() == ReceiveWindow::<W>::limit_for(config.window_size as usize),
            forall|i: int| 0 <= i < W ==> !r.window().mark(i),
            r.reassembler().spec_max_fragment_size() == config.payload_size(),
            r.reassembler().spec_timeout() == config.fragment_timeout_ms,
            r.reassembler().spec_active_count() == 0,
    {
        let r = Receiver {
            window: ReceiveWindow::new(config.window_size as usize, 0),
            reassembler: Reassembler::new(
                config.max_payload_size(),
                config.fragment_timeout_ms as u64,
            ),
            state: ChannelState::Open,
            recv_buf: [0u8;N],
            recv_len: 0,
            packet_ready: false,
            current_packet_id: 0,
        };
        assert(r.staged() =~= Seq::<u8>::empty());
        r
    }

    #[verifier::when_used_as_spec(spec_state)]
    pub fn state(&self) -> (s: ChannelState)
        ensures
            s == self.spec_state(),
    {
        self.state
    }

    /// The sequence number awaited: the one to acknowledge.
    pub fn expected_sequence(&self) -> (s: u32)
        ensures
            s == self.window().spec_expected(),
    {
        self.window.expected_sequence()
    }

    /// Whether a packet waits to be read.
    #[verifier::when_used_as_spec(ready)]
    pub fn has_data(&self) -> (b: bool)
        ensures
            b == self.ready(),
    {
        self.packet_ready
    }

    /// The state that a frame of type `frame_type` leaves the channel in:
    /// closing after a fin, closed after a reset, else as it was.
    pub open spec fn state_after(&self, frame_type: FrameType) -> ChannelState {
        match frame_type {
            FrameType::Fin => ChannelState::Closing,
            FrameType::Reset => ChannelState::Closed,
            _ => self.spec_state(),
        }
    }

    /// Whether `after` is `self` once the packet `id`, put together in
    /// `fed`, has been staged for reading, with `taken` as the result of
    /// taking it from the reassembler and `r` as the result of the call.
    pub open spec fn multi_staged(
        &self,
        after: &Self,
        noted: &ReceiveWindow<W>,
        fed: &Reassembler<E, N>,
        id: u16,
        taken: core::result::Result<usize, Error>,
        r: core::result::Result<bool, Error>,
    ) -> bool {
        &&& fed.taken(&after.reassembler(), id, self.storage(), after.storage(), taken)
        &&& match taken {
            Err(e) => r == Err::<bool, Error>(e) && after.window() == *noted && after.same_staged(
                self,
            ),
            Ok(len) => r == Ok::<bool, Error>(true) && noted.slid(&after.window()) && after.ready()
                && after.staged() == after.storage().subrange(0, len as int)
                && after.spec_packet_id() == id,
        }
    }

    /// Whether `after` is `self` once a new data frame has been dealt
    /// with, where `noted` is the window with the frame noted, `fed` the
    /// reassembler with the fragment taken, and `completed` what the
    /// reassembler made of it.
    pub open spec fn new_data_taken(
        &self,
        after: &Self,
        noted: &ReceiveWindow<W>,
        fed: &Reassembler<E, N>,
        completed: core::result::Result<Option<u16>, Error>,
        sequence: u32,
        packet_id: u16,
        fragment_index: u8,
        total_fragments: u8,
        payload: Seq<u8>,
        timestamp: u64,
        r: core::result::Result<bool, Error>,
    ) -> bool {
        &&& self.window().noted(noted, sequence)
        &&& self.reassembler().absorbed(
            fed,
            packet_id,
            fragment_index,
            total_fragments,
            payload,
            timestamp,
            completed,
        )
        &&& match completed {
            Err(e) => r == Err::<bool, Error>(e) && after.window() == *noted && after.reassembler()
                == *fed && after.same_staged(self),
            Ok(None) => r == Ok::<bool, Error>(false) && after.window() == *noted
                && after.reassembler() == *fed && after.same_staged(self),
            Ok(Some(id)) => if total_fragments == 1 {
                if payload.len() > N {
                    r == Err::<bool, Error>(Error::BufferTooSmall) && after.window() == *noted
                        && after.reassembler() == *fed && after.same_staged(self)
                } else {
                    r == Ok::<bool, Error>(true) && noted.slid(&after.window())
                        && after.reassembler() == *fed && after.ready() && after.staged() == payload
                        && after.spec_packet_id() == id
                }
            } else {
                exists|taken: core::result::Result<usize, Error>| #[trigger]
                    self.multi_staged(after, noted, fed, id, taken, r)
            },
        }
    }

    /// Whether `after` is `self` once a data frame has been taken at
    /// `timestamp`, with the result `r`.
    ///
    /// A frame that the window refuses, or has seen before, changes
    /// nothing. A new frame is noted in the window and handed to the
    /// reassembler. If that completes a packet, the packet is staged for
    /// reading, whole, and the window slides on; the result is `true`.
    /// If staging fails because the packet does not fit, or reassembly
    /// fails, the frame stays noted and the window stays where it was.
    pub open spec fn data_taken(
        &self,
        after: &Self,
        sequence: u32,
        packet_id: u16,
        fragment_index: u8,
        total_fragments: u8,
        payload: Seq<u8>,
        timestamp: u64,
        r: core::result::Result<bool, Error>,
    ) -> bool {
        &&& after.spec_state() == self.spec_state()
        &&& self.window().verdict(sequence) != Ok::<bool, Error>(true) ==> r == self.window().verdict(
            sequence,
        ) && after.window() == self.window() && after.reassembler() == self.reassembler()
            && after.same_staged(self)
        &&& self.window().verdict(sequence) == Ok::<bool, Error>(true) ==> exists|
            noted: ReceiveWindow<W>,
            fed: Reassembler<E, N>,
            completed: core::result::Result<Option<u16>, Error>,
        | #[trigger]
            self.new_data_taken(
                after,
                &noted,
                &fed,
                completed,
                sequence,
                packet_id,
                fragment_index,
                total_fragments,
                payload,
                timestamp,
                r,
            )
    }

    /// All `N` bytes of the room in which a packet is staged.
    pub closed spec fn storage(&self) -> Seq<u8> {
        self.recv_buf@
    }

    /// Takes a frame that arrived at `timestamp`. Returns whether a packet
    /// is ready to be read now.
    ///
    /// A data frame is dealt with as `data_taken` says. A fin leaves the
    /// channel closing, a reset closed; no other frame changes anything.
    pub fn process_frame(&mut self, frame: &Frame<'_>, timestamp: u64) -> (r: Result<bool>)
        requires
            old(self).wf(),
        ensures
            final(self).wf(),
            frame.frame_type == FrameType::Data ==> old(self).data_taken(
                final(self),
                frame.sequence,
                frame.packet_id,
                frame.fragment_index,
                frame.total_fragments,
                frame.payload@,
                timestamp,
                r,
            ),
            frame.frame_type != FrameType::Data ==> {
                &&& r == Ok::<bool, Error>(false)
                &&& final(self).spec_state() == old(self).state_after(frame.frame_type)
                &&& final(self).window() == old(self).window()
                &&& final(self).reassembler() == old(self).reassembler()
                &&& final(self).same_staged(old(self))
            },
    {
        match frame.frame_type {
            FrameType::Data => self.process_data_frame(frame, timestamp),
            FrameType::Fin => {
                self.state = ChannelState::Closing;
                Ok(false)
            },
            FrameType::Reset => {
                self.state = ChannelState::Closed;
                Ok(false)
            },
            _ => Ok(false),
        }
    }

    /// Takes a data frame.
    fn process_data_frame(&mut self, frame: &Frame<'_>, timestamp: u64) -> (r: Result<bool>)
        requires
            old(self).wf(),
        ensures
            final(self).wf(),
            old(self).data_taken(
                final(self),
                frame.sequence,
                frame.packet_id,
                frame.fragment_index,
                frame.total_fragments,
                frame.payload@,
                timestamp,
                r,
            ),
    {
        let is_new = match self.window.receive(frame.sequence) {
            Ok(is_new) => is_new,
            Err(e) => {
                return Err(e);
            },
        };
        if !is_new {
            return Ok(false);
        }
        let ghost noted = self.window;
        let fed_result = self.reassembler.process_frame(frame, timestamp);
        let ghost fed = self.reassembler;
        let completed = match fed_result {
            Ok(completed) => completed,
            Err(e) => {
                proof {
                    assert(old(self).new_data_taken(
                        self,
                        &noted,
                        &fed,
                        fed_result,
                        frame.sequence,
                        frame.packet_id,
                        frame.fragment_index,
                        frame.total_fragments,
                        frame.payload@,
                        timestamp,
                        Err::<bool, Error>(e),
                    ));
                }
                return Err(e);
            },
        };
        let packet_id = match completed {
            Some(packet_id) => packet_id,
            None => {
                proof {
                    assert(old(self).new_data_taken(
                        self,
                        &noted,
                        &fed,
                        fed_result,
                        frame.sequence,
                        frame.packet_id,
                        frame.fragment_index,
                        frame.total_fragments,
                        frame.payload@,
                        timestamp,
                        Ok::<bool, Error>(false),
                    ));
                }
                return Ok(false);
            },
        };
        let ghost taken_result: core::result::Result<usize, Error> = Ok(0);
        if frame.is_single_fragment() {
            if frame.payload.len() > N {
                proof {
                    assert(old(self).new_data_taken(
                        self,
                        &noted,
                        &fed,
                        fed_result,
                        frame.sequence,
                        frame.packet_id,
                        frame.fragment_index,
                        frame.total_fragments,
                        frame.payload@,
                        timestamp,
                        Err::<bool, Error>(Error::BufferTooSmall),
                    ));
                }
                return Err(Error::BufferTooSmall);
            }
            copy_bytes(&mut self.recv_buf, 0, frame.payload, 0, frame.payload.len());
            self.recv_len = frame.payload.len();
            assert(self.staged() =~= frame.payload@);
        } else {
            let taken = self.reassembler.take_completed(packet_id, &mut self.recv_buf);
            proof {
                taken_result = taken;
            }
            match taken {
                Ok(len) => {
                    self.recv_len = len;
                },
                Err(e) => {
                    proof {
                        assert(self.recv_buf@ == old(self).recv_buf@);
                        assert(self.staged() == old(self).staged());
                        assert(old(self).multi_staged(
                            self,
                            &noted,
                            &fed,
                            packet_id,
                            taken,
                            Err::<bool, Error>(e),
                        ));
                        assert(old(self).new_data_taken(
                            self,
                            &noted,
                            &fed,
                            fed_result,
                            frame.sequence,
                            frame.packet_id,
                            frame.fragment_index,
                            frame.total_fragments,
                            frame.payload@,
                            timestamp,
                            Err::<bool, Error>(e),
                        ));
                    }
                    return Err(e);
                },
            }
        }
        self.packet_ready = true;
        self.current_packet_id = packet_id;
        let _ = self.window.advance();
        proof {
            if frame.total_fragments != 1 {
                assert(old(self).multi_staged(
                    self,
                    &noted,
                    &fed,
                    packet_id,
                    taken_result,
                    Ok::<bool, Error>(true),
                ));
            }
            assert(old(self).new_data_taken(
                self,
                &noted,
                &fed,
                fed_result,
                frame.sequence,
                frame.packet_id,
                frame.fragment_index,
                frame.total_fragments,
                frame.payload@,
                timestamp,
                Ok::<bool, Error>(true),
            ));
        }
        Ok(true)
    }

    /// Copies the packet that waits to the front of `buf`, and lets go of
    /// it. Fails with `WouldBlock` where no packet waits, and with
    /// `BufferTooSmall` where `buf` is too short; the packet keeps waiting
    /// then.
    pub fn read(&mut self, buf: &mut [u8]) -> (r: Result<usize>)
        requires
            old(self).wf(),
        ensures
            final(self).wf(),
            final(buf)@.len() == old(buf)@.len(),
            final(self).window() == old(self).window(),
            final(self).reassembler() == old(self).reassembler(),
            final(self).spec_state() == old(self).spec_state(),
            final(self).spec_packet_id() == old(self).spec_packet_id(),
            !old(self).ready() ==> r == Err::<usize, Error>(Error::WouldBlock),
            old(self).ready() && old(buf)@.len() < old(self).staged().len() ==> r == Err::<
                usize,
                Error,
            >(Error::BufferTooSmall),
            r is Err ==> final(buf)@ == old(buf)@ && final(self).same_staged(old(self)),
            old(self).ready() && old(buf)@.len() >= old(self).staged().len() ==> {
                &&& r == Ok::<usize, Error>(old(self).staged().len() as usize)
                &&& final(buf)@ == old(self).staged() + old(buf)@.subrange(
                    old(self).staged().len() as int,
                    old(buf)@.len() as int,
                )
                &&& !final(self).ready()
                &&& final(self).staged() == Seq::<u8>::empty()
            },
    {
        if !self.packet_ready {
            return Err(Error::WouldBlock);
        }
        if buf.len() < self.recv_len {
            return Err(Error::BufferTooSmall);
        }
        copy_bytes(buf, 0, &self.recv_buf, 0, self.recv_len);
        let len = self.recv_len;
        self.packet_ready = false;
        self.recv_len = 0;
        assert(self.staged() =~= Seq::<u8>::empty());
        Ok(len)
    }

    /// The frames of the window that are missed, in order: those to ask
    /// for again.
    pub fn missing_sequences(&self) -> (missing: Vec<u32>)
        requires
            self.wf(),
        ensures
            missing@ == self.window().missing_among(self.window().limit() as int),
    {
        self.window.missing_sequences()
    }

    /// Gives up the packets that have taken too long to put together at
    /// `timestamp`.
    pub fn cleanup(&mut self, timestamp: u64)
        requires
            old(self).wf(),
        ensures
            final(self).wf(),
            final(self).window() == old(self).window(),
            final(self).spec_state() == old(self).spec_state(),
            final(self).same_staged(old(self)),
            final(self).reassembler().spec_active_count() == old(self).reassembler().spec_active_count() - count_stale(
                old(self).reassembler(),
                timestamp,
            ),
            forall|i: int|
                0 <= i < E ==> !(#[trigger] final(self).reassembler().entry(i)).timed_out(
                    timestamp,
                    final(self).reassembler().spec_timeout(),
                ),
            forall|i: int|
                0 <= i < E ==> (if old(self).reassembler().entry(i).timed_out(
                    timestamp,
                    old(self).reassembler().spec_timeout(),
                ) {
                    old(self).reassembler().entry(i).closed(
                        &#[trigger] final(self).reassembler().entry(i),
                    )
                } else {
                    final(self).reassembler().entry(i) == old(self).reassembler().entry(i)
                }),
    {
        let _ = self.reassembler.cleanup_timeout(timestamp);
    }

    /// Lets the frames awaited start at sequence number `initial_seq`:
    /// for the start of a connection, once the peer has said where it
    /// starts. The state and the packet that waits stay.
    pub fn start_at(&mut self, initial_seq: u32)
        requires
            old(self).wf(),
        ensures
            final(self).wf(),
            final(self).spec_state() == old(self).spec_state(),
            final(self).same_staged(old(self)),
            final(self).reassembler() == old(self).reassembler(),
            final(self).window().spec_expected() == initial_seq,
            final(self).window().limit() == old(self).window().limit(),
            forall|i: int| 0 <= i < W ==> !final(self).window().mark(i),
    {
        self.window.reset(initial_seq);
    }

    /// Starts over: an open channel that awaits sequence number zero, with
    /// no packet waiting. Packets that are being put together stay.
    pub fn reset(&mut self)
        requires
            old(self).wf(),
        ensures
            final(self).wf(),
            final(self).spec_state() == ChannelState::Open,
            !final(self).ready(),
            final(self).staged() == Seq::<u8>::empty(),
            final(self).window().spec_expected() == 0,
            final(self).window().limit() == old(self).window().limit(),
            forall|i: int| 0 <= i < W ==> !final(self).window().mark(i),
            final(self).reassembler() == old(self).reassembler(),
    {
        self.window.reset(0);
        self.state = ChannelState::Open;
        self.recv_len = 0;
        self.packet_ready = false;
        assert(self.staged() =~= Seq::<u8>::empty());
    }
}

/// Number of entries of `reassembler` that have timed out at `now`.
pub open spec fn count_stale<const E: usize, const N: usize>(
    reassembler: Reassembler<E, N>,
    now: u64,
) -> int {
    crate::math::count_marked(reassembler.stale_marks(now), E as int)
}

} // verus!
