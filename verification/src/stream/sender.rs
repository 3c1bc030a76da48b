//! The sending half of a byte-stream connection.
//!
//! The bytes written stay in a ring until they are acknowledged. They go
//! out in segments of at most `mss` bytes, each as the payload of one data
//! frame, and each segment in flight is noted in a table with the time it
//! was last sent and how often.

use vstd::prelude::*;
use crate::buffer::window::{distance, lemma_seq_plus_plus, seq_plus};
use crate::codec::frame::{data_frame, wire_bytes, Frame, FRAME_HEADER_SIZE, MAX_PAYLOAD_SIZE};
use crate::error::{Error, Result};
use crate::math::{ceil_div, first_such, least, lemma_first_such_is, lemma_ring_apart};
use crate::stream::config::Config;
use crate::stream::receiver::MAX_CAPACITY;
use crate::stream::time::{Duration, Instant};
use crate::transport::Transport;

verus! {

/// Size of the buffer in which frames are written: the header and the
/// longest payload.
pub const MAX_TX_BUF_SIZE: usize = 65559;

/// A segment in flight.
#[derive(Debug, Clone, Copy, PartialEq, Eq, Structural)]
pub struct SegmentMeta {
    /// Sequence number of its first byte.
    pub seq: u32,
    pub len: u16,
    /// When it was last sent.
    pub sent_at: Instant,
    /// How often it was sent.
    pub tx_count: u8,
    pub in_use: bool,
}

impl SegmentMeta {
    /// A free place in the table.
    pub fn new() -> (s: Self)
        ensures
            !s.in_use,
            s.seq == 0,
            s.len == 0,
            s.tx_count == 0,
            s.sent_at.spec_millis() == 0,
    {
        SegmentMeta { seq: 0, len: 0, sent_at: Instant::from_millis(0), tx_count: 0, in_use: false }
    }
}

/// Number of segments noted among the first `n` places of `table`.
pub open spec fn count_in_flight(table: Seq<SegmentMeta>, n: int) -> int
    decreases n,
{
    if n <= 0 {
        0
    } else {
        count_in_flight(table, n - 1) + (if table[n - 1].in_use {
            1int
        } else {
            0int
        })
    }
}

/// The sending half.
pub struct Sender {
    buffer: Vec<u8>,
    capacity: usize,
    /// The oldest byte not acknowledged.
    send_una: u32,
    /// The next byte to send.
    send_next: u32,
    /// The next byte to be written.
    send_max: u32,
    segments: Vec<SegmentMeta>,
    max_segments: usize,
    mss: usize,
    ack_num: u32,
    rto_ms: u64,
    rto_min_ms: u64,
    rto_max_ms: u64,
    max_retries: u8,
    ack_pending: bool,
    ack_pending_since: Instant,
    delayed_ack_ms: u64,
    tx_buf: Vec<u8>,
    offered: Ghost<Seq<Seq<u8>>>,
}

impl Sender {
    /// Every frame that this sender has handed to a carrier, in order,
    /// whether or not the carrier took it.
    pub closed spec fn offered(&self) -> Seq<Seq<u8>> {
        self.offered@
    }

    pub closed spec fn spec_capacity(&self) -> usize {
        self.capacity
    }

    pub closed spec fn spec_una(&self) -> u32 {
        self.send_una
    }

    pub closed spec fn spec_send_next(&self) -> u32 {
        self.send_next
    }

    pub closed spec fn spec_max(&self) -> u32 {
        self.send_max
    }

    pub closed spec fn spec_mss(&self) -> usize {
        self.mss
    }

    pub closed spec fn spec_ack(&self) -> u32 {
        self.ack_num
    }

    pub closed spec fn spec_rto_ms(&self) -> u64 {
        self.rto_ms
    }

    pub closed spec fn spec_max_retries(&self) -> u8 {
        self.max_retries
    }

    pub closed spec fn spec_delayed_ack_ms(&self) -> u64 {
        self.delayed_ack_ms
    }

    /// Whether an acknowledgment waits to be sent.
    pub closed spec fn spec_ack_pending(&self) -> bool {
        self.ack_pending
    }

    /// Since when an acknowledgment has waited to be sent.
    pub closed spec fn spec_ack_since(&self) -> Instant {
        self.ack_pending_since
    }

    /// The table of segments in flight.
    pub closed spec fn segments(&self) -> Seq<SegmentMeta> {
        self.segments@
    }

    /// The place of sequence number `seq` in the ring.
    #[verifier::opaque]
    pub closed spec fn place(&self, seq: u32) -> int {
        (seq as int) % (self.capacity as int)
    }

    /// The byte in the place of sequence number `seq`.
    pub closed spec fn byte_at(&self, seq: u32) -> u8 {
        self.buffer@[self.place(seq)]
    }

    /// The `len` bytes from sequence number `seq` on.
    pub open spec fn bytes_from(&self, seq: u32, len: int) -> Seq<u8> {
        Seq::new(len as nat, |i: int| self.byte_at(seq_plus(seq, i)))
    }

    /// Number of bytes written and not yet acknowledged.
    pub open spec fn used(&self) -> int {
        distance(self.spec_una(), self.spec_max())
    }

    /// Number of bytes sent and not yet acknowledged.
    pub open spec fn flying(&self) -> int {
        distance(self.spec_una(), self.spec_send_next())
    }

    /// The bytes written and not yet acknowledged, in order.
    pub open spec fn queued(&self) -> Seq<u8> {
        self.bytes_from(self.spec_una(), self.used())
    }

    /// Whether the ring never runs into itself: its capacity divides the
    /// range of sequence numbers.
    pub open spec fn ring_friendly(&self) -> bool {
        self.spec_capacity() > 0 && 0x1_0000_0000int % (self.spec_capacity() as int) == 0
    }

    /// Whether the ring, the table and the buffer for frames have the
    /// sizes they are said to have, and the three marks of the stream lie
    /// in order within the ring: acknowledged, sent, written.
    pub closed spec fn wf(&self) -> bool {
        &&& self.capacity <= MAX_CAPACITY
        &&& self.buffer@.len() == self.capacity
        &&& self.tx_buf@.len() == MAX_TX_BUF_SIZE
        &&& self.segments@.len() == self.max_segments
        &&& distance(self.send_una, self.send_next) <= distance(self.send_una, self.send_max)
        &&& distance(self.send_una, self.send_max) <= self.capacity
    }

    /// What `wf` says, for those who cannot look inside.
    pub proof fn lemma_wf(&self)
        requires
            self.wf(),
        ensures
            self.spec_capacity() <= MAX_CAPACITY,
            0 <= self.flying() <= self.used() <= self.spec_capacity(),
    {
    }

    /// Every place is one of the places of the ring, and sequence numbers
    /// that lie fewer steps apart than the ring has places have different
    /// places, where the ring never runs into itself.
    proof fn lemma_places(&self, seq: u32, d: int)
        requires
            self.capacity > 0,
        ensures
            0 <= self.place(seq) < self.capacity,
            self.ring_friendly() && 0 < d < self.capacity ==> self.place(seq_plus(seq, d))
                != self.place(seq),
    {
        reveal(Sender::place);
        assert(0 <= (seq as int) % (self.capacity as int) < self.capacity) by (nonlinear_arith)
            requires
                self.capacity > 0,
                seq >= 0,
        ;
        if self.ring_friendly() && 0 < d < self.capacity {
            lemma_ring_apart(seq, d, self.capacity as int);
        }
    }

    /// A sender that starts at `initial_seq`, with a ring of
    /// `send_buffer_size` bytes, or of half the range of sequence numbers
    /// where that is less, and a table of `max_segments` places.
    pub fn new(initial_seq: u32, config: &Config) -> (s: Self)
        ensures
            s.wf(),
            s.spec_capacity() == least(config.send_buffer_size as int, MAX_CAPACITY as int),
            s.spec_una() == initial_seq,
            s.spec_send_next() == initial_seq,
            s.spec_max() == initial_seq,
            s.spec_mss() == config.max_segment_size,
            s.spec_ack() == 0,
            s.spec_rto_ms() == config.rto_initial_ms,
            s.spec_max_retries() == config.max_retries,
            s.spec_delayed_ack_ms() == config.delayed_ack_ms,
            !s.spec_ack_pending(),
            s.segments().len() == config.max_segments,
            forall|i: int| 0 <= i < s.segments().len() ==> !(#[trigger] s.segments()[i]).in_use,
            s.offered() == Seq::<Seq<u8>>::empty(),
    {
        let capacity = if config.send_buffer_size < MAX_CAPACITY {
            config.send_buffer_size
        } else {
            MAX_CAPACITY
        };
        Sender {
            buffer: vec![0u8; capacity],
            capacity,
            send_una: initial_seq,
            send_next: initial_seq,
            send_max: initial_seq,
            segments: vec![SegmentMeta::new(); config.max_segments],
            max_segments: config.max_segments,
            mss: config.max_segment_size,
            ack_num: 0,
            rto_ms: config.rto_initial_ms,
            rto_min_ms: config.rto_min_ms,
            rto_max_ms: config.rto_max_ms,
            max_retries: config.max_retries,
            ack_pending: false,
            ack_pending_since: Instant::from_millis(0),
            delayed_ack_ms: config.delayed_ack_ms,
            tx_buf: vec![0u8; MAX_TX_BUF_SIZE],
            offered: Ghost(Seq::empty()),
        }
    }

    /// Frees every place of the table.
    fn clear_segments(&mut self)
        ensures
            final(self).segments@.len() == old(self).segments@.len(),
            forall|i: int| 0 <= i < final(self).segments@.len() ==> !(#[trigger] final(self).segments@[i]).in_use,
            final(self).buffer@ == old(self).buffer@,
            final(self).tx_buf@ == old(self).tx_buf@,
            final(self).capacity == old(self).capacity,
            final(self).max_segments == old(self).max_segments,
            final(self).send_una == old(self).send_una,
            final(self).send_next == old(self).send_next,
            final(self).send_max == old(self).send_max,
            final(self).mss == old(self).mss,
            final(self).ack_num == old(self).ack_num,
            final(self).rto_ms == old(self).rto_ms,
            final(self).max_retries == old(self).max_retries,
            final(self).delayed_ack_ms == old(self).delayed_ack_ms,
            final(self).ack_pending == old(self).ack_pending,
            final(self).ack_pending_since == old(self).ack_pending_since,
            final(self).offered@ == old(self).offered@,
    {
        let mut k: usize = 0;
        while k < self.segments.len()
            invariant
                k <= self.segments@.len(),
                self.segments@.len() == old(self).segments@.len(),
                self.buffer@ == old(self).buffer@,
                self.tx_buf@ == old(self).tx_buf@,
                self.capacity == old(self).capacity,
                self.max_segments == old(self).max_segments,
                self.send_una == old(self).send_una,
                self.send_next == old(self).send_next,
                self.send_max == old(self).send_max,
                self.mss == old(self).mss,
                self.ack_num == old(self).ack_num,
                self.rto_ms == old(self).rto_ms,
                self.max_retries == old(self).max_retries,
                self.delayed_ack_ms == old(self).delayed_ack_ms,
                self.ack_pending == old(self).ack_pending,
                self.ack_pending_since == old(self).ack_pending_since,
                self.offered@ == old(self).offered@,
                forall|j: int| 0 <= j < k ==> !(#[trigger] self.segments@[j]).in_use,
            decreases self.segments@.len() - k,
        {
            self.segments[k].in_use = false;
            k = k + 1;
        }
    }

    /// Starts over from `initial_seq` with the timeouts and limits of
    /// `config`: nothing written, nothing in flight, no acknowledgment
    /// waiting. The sizes stay.
    pub fn reinit(&mut self, initial_seq: u32, config: &Config)
        requires
            old(self).wf(),
        ensures
            final(self).wf(),
            final(self).offered() == old(self).offered(),
            final(self).spec_capacity() == old(self).spec_capacity(),
            final(self).spec_mss() == old(self).spec_mss(),
            final(self).spec_ack() == old(self).spec_ack(),
            final(self).spec_una() == initial_seq,
            final(self).spec_send_next() == initial_seq,
            final(self).spec_max() == initial_seq,
            final(self).spec_rto_ms() == config.rto_initial_ms,
            final(self).spec_max_retries() == config.max_retries,
            final(self).spec_delayed_ack_ms() == config.delayed_ack_ms,
            !final(self).spec_ack_pending(),
            final(self).segments().len() == old(self).segments().len(),
            forall|i: int|
                0 <= i < final(self).segments().len() ==> !(#[trigger] final(self).segments()[i]).in_use,
    {
        self.send_una = initial_seq;
        self.send_next = initial_seq;
        self.send_max = initial_seq;
        self.rto_ms = config.rto_initial_ms;
        self.rto_min_ms = config.rto_min_ms;
        self.rto_max_ms = config.rto_max_ms;
        self.max_retries = config.max_retries;
        self.delayed_ack_ms = config.delayed_ack_ms;
        self.ack_pending = false;
        self.clear_segments();
    }

    /// Sets the acknowledgment number that goes out with every segment:
    /// the next byte awaited from the peer.
    pub fn set_ack(&mut self, ack: u32)
        requires
            old(self).wf(),
        ensures
            final(self).wf(),
            final(self).offered() == old(self).offered(),
            final(self).spec_ack() == ack,
            final(self).same_stream(old(self)),
            final(self).spec_ack_pending() == old(self).spec_ack_pending(),
            final(self).spec_ack_since() == old(self).spec_ack_since(),
    {
        self.ack_num = ack;
        assert(forall|x: u32| self.byte_at(x) == old(self).byte_at(x)) by {
            reveal(Sender::place);
        }
        assert(self.queued() =~= old(self).queued());
    }

    /// Whether `self` and `other` agree in the stream and its marks, the
    /// table, and the limits.
    pub open spec fn same_stream(&self, other: &Self) -> bool {
        &&& self.spec_capacity() == other.spec_capacity()
        &&& self.spec_una() == other.spec_una()
        &&& self.spec_send_next() == other.spec_send_next()
        &&& self.spec_max() == other.spec_max()
        &&& self.spec_mss() == other.spec_mss()
        &&& self.spec_rto_ms() == other.spec_rto_ms()
        &&& self.spec_max_retries() == other.spec_max_retries()
        &&& self.spec_delayed_ack_ms() == other.spec_delayed_ack_ms()
        &&& self.segments() == other.segments()
        &&& self.queued() == other.queued()
    }

    /// The acknowledgment number that goes out with every segment.
    #[verifier::when_used_as_spec(spec_ack)]
    pub fn ack(&self) -> (a: u32)
        ensures
            a == self.spec_ack(),
    {
        self.ack_num
    }

    /// The sequence number that the next byte written gets.
    #[verifier::when_used_as_spec(spec_max)]
    pub fn next_seq(&self) -> (s: u32)
        ensures
            s == self.spec_max(),
    {
        self.send_max
    }

    /// The sequence number of the next byte to send.
    #[verifier::when_used_as_spec(spec_send_next)]
    pub fn send_next(&self) -> (s: u32)
        ensures
            s == self.spec_send_next(),
    {
        self.send_next
    }

    /// Notes at `now` that an acknowledgment is to be sent, unless one
    /// waits already.
    pub fn schedule_ack(&mut self, now: Instant)
        requires
            old(self).wf(),
        ensures
            final(self).wf(),
            final(self).offered() == old(self).offered(),
            final(self).spec_ack_pending(),
            final(self).spec_ack_since() == (if old(self).spec_ack_pending() {
                old(self).spec_ack_since()
            } else {
                now
            }),
            final(self).same_stream(old(self)),
            final(self).spec_ack() == old(self).spec_ack(),
    {
        if !self.ack_pending {
            self.ack_pending = true;
            self.ack_pending_since = now;
        }
        assert(forall|x: u32| self.byte_at(x) == old(self).byte_at(x)) by {
            reveal(Sender::place);
        }
        assert(self.queued() =~= old(self).queued());
    }

    /// Whether an acknowledgment is to go out of its own at `now`: one
    /// waits, and has waited for the delay allowed, or no delay is
    /// allowed.
    pub fn should_send_ack(&self, now: Instant) -> (b: bool)
        ensures
            b == (self.spec_ack_pending() && (self.spec_delayed_ack_ms() == 0
                || self.spec_ack_since().passed_ms(now, self.spec_delayed_ack_ms()))),
    {
        if !self.ack_pending {
            return false;
        }
        if self.delayed_ack_ms == 0 {
            return true;
        }
        self.ack_pending_since.elapsed_since(now, Duration::from_millis(self.delayed_ack_ms))
    }

    /// Notes that no acknowledgment waits any more.
    pub fn clear_ack_pending(&mut self)
        requires
            old(self).wf(),
        ensures
            final(self).wf(),
            final(self).offered() == old(self).offered(),
            !final(self).spec_ack_pending(),
            final(self).same_stream(old(self)),
            final(self).spec_ack() == old(self).spec_ack(),
    {
        self.ack_pending = false;
        assert(forall|x: u32| self.byte_at(x) == old(self).byte_at(x)) by {
            reveal(Sender::place);
        }
        assert(self.queued() =~= old(self).queued());
    }

    /// The place of sequence number `seq` in the ring.
    fn seq_to_index(&self, seq: u32) -> (i: usize)
        requires
            self.capacity > 0,
        ensures
            i == self.place(seq),
            i < self.capacity,
    {
        proof {
            reveal(Sender::place);
        }
        (seq as usize) % self.capacity
    }

    /// Number of bytes that can still be written.
    pub fn available(&self) -> (n: usize)
        requires
            self.wf(),
        ensures
            n == self.spec_capacity() - self.used(),
    {
        let used = self.send_max.wrapping_sub(self.send_una) as usize;
        self.capacity.saturating_sub(used)
    }

    /// Whether nothing more can be taken: every place of the table is in
    /// use, or the ring is full.
    pub fn is_window_full(&self) -> (b: bool)
        requires
            self.wf(),
        ensures
            b == (count_in_flight(self.segments(), self.segments().len() as int)
                >= self.segments().len() || self.used() == self.spec_capacity()),
    {
        let mut in_use: usize = 0;
        let mut i: usize = 0;
        while i < self.segments.len()
            invariant
                i <= self.segments@.len(),
                in_use == count_in_flight(self.segments@, i as int),
                in_use <= i,
            decreases self.segments@.len() - i,
        {
            if self.segments[i].in_use {
                in_use = in_use + 1;
            }
            i = i + 1;
        }
        if in_use >= self.max_segments {
            return true;
        }
        self.available() == 0
    }

    /// Number of bytes sent and not yet acknowledged.
    pub fn in_flight(&self) -> (n: usize)
        ensures
            n == self.flying(),
    {
        self.send_next.wrapping_sub(self.send_una) as usize
    }

    /// Number of bytes written and not yet sent.
    pub fn pending(&self) -> (n: usize)
        ensures
            n == distance(self.spec_send_next(), self.spec_max()),
    {
        self.send_max.wrapping_sub(self.send_next) as usize
    }

    /// Takes as much of `data` as the ring has room for, and returns how
    /// much that was.
    pub fn write(&mut self, data: &[u8]) -> (n: usize)
        requires
            old(self).wf(),
        ensures
            final(self).wf(),
            final(self).offered() == old(self).offered(),
            n == least(data@.len() as int, old(self).spec_capacity() - old(self).used()),
            final(self).spec_max() == seq_plus(old(self).spec_max(), n as int),
            final(self).used() == old(self).used() + n,
            final(self).spec_capacity() == old(self).spec_capacity(),
            final(self).spec_una() == old(self).spec_una(),
            final(self).spec_send_next() == old(self).spec_send_next(),
            final(self).spec_mss() == old(self).spec_mss(),
            final(self).spec_ack() == old(self).spec_ack(),
            final(self).segments() == old(self).segments(),
            old(self).ring_friendly() ==> final(self).queued() == old(self).queued()
                + data@.subrange(0, n as int),
    {
        let available = self.available();
        let to_write = if data.len() < available {
            data.len()
        } else {
            available
        };
        if to_write == 0 {
            assert(self.queued() =~= old(self).queued() + data@.subrange(0, 0));
            return 0;
        }
        let ghost una = self.send_una;
        let ghost used = self.used();
        let ghost max = self.send_max;
        let mut i: usize = 0;
        while i < to_write
            invariant
                i <= to_write,
                to_write <= data@.len(),
                self.wf(),
                self.capacity > 0,
                self.capacity == old(self).capacity,
                self.send_una == old(self).send_una,
                self.send_next == old(self).send_next,
                self.send_max == old(self).send_max,
                self.mss == old(self).mss,
                self.ack_num == old(self).ack_num,
                self.offered@ == old(self).offered@,
                self.segments@ == old(self).segments@,
                una == self.send_una,
                max == self.send_max,
                used == old(self).used(),
                0 <= used,
                used + to_write <= self.capacity,
                max == seq_plus(una, used),
                old(self).ring_friendly() ==> forall|j: int|
                    0 <= j < i ==> #[trigger] self.stream_byte(max, j) == data@[j],
                old(self).ring_friendly() ==> forall|k: int|
                    0 <= k < used ==> #[trigger] self.stream_byte(una, k) == old(self).stream_byte(
                        una,
                        k,
                    ),
            decreases to_write - i,
        {
            let at = self.send_max.wrapping_add(i as u32);
            let idx = self.seq_to_index(at);
            let ghost before = *self;
            self.buffer[idx] = data[i];
            proof {
                assert(at == seq_plus(max, i as int));
                if old(self).ring_friendly() {
                    assert(before.ring_friendly());
                    assert forall|j: int| 0 <= j < i + 1 implies #[trigger] self.stream_byte(
                        max,
                        j,
                    ) == data@[j] by {
                        let p = seq_plus(max, j);
                        if j < i {
                            lemma_seq_plus_plus(max, j, i - j);
                            assert(seq_plus(p, i - j) == at);
                            before.lemma_put_keeps(self, p, i - j, data@[i as int]);
                            assert(before.stream_byte(max, j) == data@[j]);
                        } else {
                            before.lemma_places(at, 0);
                            assert(self.place(at) == before.place(at)) by {
                                reveal(Sender::place);
                            }
                        }
                    }
                    assert forall|k: int| 0 <= k < used implies #[trigger] self.stream_byte(una, k)
                        == old(self).stream_byte(una, k) by {
                        let p = seq_plus(una, k);
                        lemma_seq_plus_plus(una, used, i as int);
                        lemma_seq_plus_plus(una, k, used - k + i);
                        assert(seq_plus(p, used - k + i) == at);
                        before.lemma_put_keeps(self, p, used - k + i, data@[i as int]);
                        assert(before.stream_byte(una, k) == old(self).stream_byte(una, k));
                    }
                }
            }
            i = i + 1;
        }
        let ghost written = *self;
        self.send_max = self.send_max.wrapping_add(to_write as u32);
        proof {
            lemma_seq_plus_plus(una, used, to_write as int);
            assert(forall|x: u32| self.byte_at(x) == written.byte_at(x)) by {
                reveal(Sender::place);
            }
            if old(self).ring_friendly() {
                let was = *old(self);
                assert forall|k: int| 0 <= k < used + to_write implies self.queued()[k] == (
                was.queued() + data@.subrange(0, to_write as int))[k] by {
                    if k < used {
                        assert(written.stream_byte(una, k) == was.stream_byte(una, k));
                    } else {
                        lemma_seq_plus_plus(una, used, k - used);
                        assert(written.stream_byte(max, k - used) == data@[k - used]);
                    }
                }
                assert(self.queued() =~= was.queued() + data@.subrange(0, to_write as int));
            }
        }
        to_write
    }

    /// The byte `j` steps after `seq` in the stream.
    pub open spec fn stream_byte(&self, seq: u32, j: int) -> u8 {
        self.byte_at(seq_plus(seq, j))
    }

    /// Putting a byte in the place of `at` leaves the byte of `p` where it
    /// is, if `p` lies fewer steps before `at` than the ring has places.
    proof fn lemma_put_keeps(&self, after: &Self, p: u32, d: int, byte: u8)
        requires
            self.ring_friendly(),
            0 < d < self.capacity,
            after.capacity == self.capacity,
            self.buffer@.len() == self.capacity,
            after.buffer@ == self.buffer@.update(self.place(seq_plus(p, d)), byte),
        ensures
            after.byte_at(p) == self.byte_at(p),
            after.byte_at(seq_plus(p, d)) == byte,
    {
        self.lemma_places(p, d);
        self.lemma_places(seq_plus(p, d), 0);
        assert(after.place(p) == self.place(p) && after.place(seq_plus(p, d)) == self.place(
            seq_plus(p, d),
        )) by {
            reveal(Sender::place);
        }
    }

    /// Copies the `len` bytes from sequence number `seq` on out of the
    /// ring.
    fn read_from_buffer(&self, seq: u32, len: usize) -> (data: Vec<u8>)
        requires
            self.wf(),
            self.capacity > 0,
            len <= MAX_CAPACITY,
        ensures
            data@ == self.bytes_from(seq, len as int),
    {
        let mut data: Vec<u8> = Vec::new();
        let mut i: usize = 0;
        while i < len
            invariant
                i <= len,
                len <= MAX_CAPACITY,
                self.wf(),
                self.capacity > 0,
                data@ == self.bytes_from(seq, i as int),
            decreases len - i,
        {
            let at = seq.wrapping_add(i as u32);
            assert(at == seq_plus(seq, i as int));
            let idx = self.seq_to_index(at);
            data.push(self.buffer[idx]);
            assert(data@ =~= self.bytes_from(seq, i + 1));
            i = i + 1;
        }
        data
    }

    /// The largest number of bytes that go out in one segment.
    #[verifier::when_used_as_spec(spec_mss)]
    pub fn mss(&self) -> (n: usize)
        ensures
            n == self.spec_mss(),
    {
        self.mss
    }

    /// Starts over from sequence number zero: nothing written, nothing in
    /// flight, no acknowledgment waiting.
    pub fn reset(&mut self)
        requires
            old(self).wf(),
        ensures
            final(self).wf(),
            final(self).offered() == old(self).offered(),
            final(self).spec_capacity() == old(self).spec_capacity(),
            final(self).spec_mss() == old(self).spec_mss(),
            final(self).spec_ack() == old(self).spec_ack(),
            final(self).spec_rto_ms() == old(self).spec_rto_ms(),
            final(self).spec_max_retries() == old(self).spec_max_retries(),
            final(self).spec_una() == 0,
            final(self).spec_send_next() == 0,
            final(self).spec_max() == 0,
            !final(self).spec_ack_pending(),
            final(self).segments().len() == old(self).segments().len(),
            forall|i: int|
                0 <= i < final(self).segments().len() ==> !(#[trigger] final(self).segments()[i]).in_use,
    {
        self.send_una = 0;
        self.send_next = 0;
        self.send_max = 0;
        self.ack_pending = false;
        self.clear_segments();
    }

    /// The frame that carries the `len` bytes from `seq` on as one
    /// segment: a data frame of a single fragment, with the
    /// acknowledgment number as it stands.
    pub open spec fn segment_frame(&self, seq: u32, len: int) -> crate::codec::frame::FrameView {
        data_frame(seq, self.spec_ack(), 0, 0, 1, self.bytes_from(seq, len))
    }

    /// The first `n` bytes of the buffer in which frames are written.
    pub closed spec fn scratch(&self, n: int) -> Seq<u8> {
        self.tx_buf@.subrange(0, n)
    }

    /// Whether `self` and `other` differ in nothing but the buffer in
    /// which frames are written.
    pub open spec fn same_but_scratch(&self, other: &Self) -> bool {
        &&& self.same_stream(other)
        &&& self.spec_ack() == other.spec_ack()
        &&& self.spec_ack_pending() == other.spec_ack_pending()
        &&& self.spec_ack_since() == other.spec_ack_since()
    }

    /// Writes the frame of the segment of `len` bytes from `seq` on and
    /// hands it to the carrier.
    fn send_segment<T: Transport>(&mut self, transport: &mut T, seq: u32, len: usize) -> (r: Result<
        (),
    >)
        requires
            old(self).wf(),
            old(self).capacity > 0,
            old(transport).inv(),
            len <= MAX_PAYLOAD_SIZE,
        ensures
            final(self).wf(),
            final(transport).inv(),
            final(self).same_but_scratch(old(self)),
            final(self).buffer@ == old(self).buffer@,
            final(self).scratch(FRAME_HEADER_SIZE + len) == wire_bytes(
                old(self).segment_frame(seq, len as int),
            ),
            final(self).offered() == old(self).offered().push(
                wire_bytes(old(self).segment_frame(seq, len as int)),
            ),
    {
        let seg_data = self.read_from_buffer(seq, len);
        let frame = Frame::new_data(seq, self.ack_num, 0, 0, 1, seg_data.as_slice());
        let written = match frame.serialize(self.tx_buf.as_mut_slice()) {
            Ok(written) => written,
            Err(e) => {
                return Err(e);
            },
        };
        self.offered = Ghost(self.offered@.push(wire_bytes(frame@)));
        proof {
            assert(self.tx_buf@.subrange(0, FRAME_HEADER_SIZE + len) =~= wire_bytes(frame@));
            assert(forall|x: u32| self.byte_at(x) == old(self).byte_at(x)) by {
                reveal(Sender::place);
            }
            assert(self.queued() =~= old(self).queued());
        }
        transport.write_all(&self.tx_buf.as_slice()[0..written])
    }

    /// The first free place of the table, or the length of the table.
    pub open spec fn free_at(&self) -> int {
        first_such(self.segments().len() as int, |i: int| !self.segments()[i].in_use)
    }

    /// The first place of the table that notes a segment starting at
    /// `seq`, or the length of the table.
    pub open spec fn noted_at(&self, seq: u32) -> int {
        first_such(
            self.segments().len() as int,
            |i: int| self.segments()[i].in_use && self.segments()[i].seq == seq,
        )
    }

    /// The first free place of the table, if there is one.
    fn find_free(&self) -> (r: Option<usize>)
        ensures
            match r {
                Some(i) => i == self.free_at() && i < self.segments().len()
                    && !self.segments()[i as int].in_use,
                None => self.free_at() == self.segments().len(),
            },
    {
        let ghost free = |i: int| !self.segments()[i].in_use;
        let count = self.segments.len();
        let mut i: usize = 0;
        while i < count
            invariant
                i <= count,
                count == self.segments@.len(),
                free == (|i: int| !self.segments()[i].in_use),
                forall|j: int| 0 <= j < i ==> !#[trigger] free(j),
            decreases count - i,
        {
            if !self.segments[i].in_use {
                proof {
                    assert(free(i as int));
                    lemma_first_such_is(count as int, free, i as int);
                }
                return Some(i);
            }
            assert(!free(i as int));
            i = i + 1;
        }
        proof {
            lemma_first_such_is(count as int, free, count as int);
        }
        None
    }

    /// The first place of the table that notes a segment starting at
    /// `seq`, if there is one.
    fn find_noted(&self, seq: u32) -> (r: Option<usize>)
        ensures
            match r {
                Some(i) => i == self.noted_at(seq) && i < self.segments().len()
                    && self.segments()[i as int].in_use && self.segments()[i as int].seq == seq,
                None => self.noted_at(seq) == self.segments().len(),
            },
    {
        let ghost noted = |i: int| self.segments()[i].in_use && self.segments()[i].seq == seq;
        let count = self.segments.len();
        let mut i: usize = 0;
        while i < count
            invariant
                i <= count,
                count == self.segments@.len(),
                noted == (|i: int| self.segments()[i].in_use && self.segments()[i].seq == seq),
                forall|j: int| 0 <= j < i ==> !#[trigger] noted(j),
            decreases count - i,
        {
            if self.segments[i].in_use && self.segments[i].seq == seq {
                proof {
                    assert(noted(i as int));
                    lemma_first_such_is(count as int, noted, i as int);
                }
                return Some(i);
            }
            assert(!noted(i as int));
            i = i + 1;
        }
        proof {
            lemma_first_such_is(count as int, noted, count as int);
        }
        None
    }

    /// The longest segment that goes out: the segment size of the
    /// options, or the longest payload of a frame where that is less.
    pub open spec fn segment_limit(&self) -> int {
        least(self.spec_mss() as int, MAX_PAYLOAD_SIZE as int)
    }

    /// Whether the segment noted in place `i` of `after` is one that was
    /// sent for the first time at `now`, out of the bytes from `from` up
    /// to `upto`.
    pub open spec fn fresh(after: &Self, i: int, from: u32, upto: u32, now: Instant) -> bool {
        let seg = after.segments()[i];
        &&& seg.in_use
        &&& seg.tx_count == 1
        &&& seg.sent_at == now
        &&& 1 <= seg.len <= after.segment_limit()
        &&& distance(from, seg.seq) + seg.len <= distance(from, upto)
    }

    /// Frame number `k`, counted from zero, of those that go out when the
    /// bytes written and not yet sent are sent now, segment by segment:
    /// every segment is as long as allowed, but for the last.
    pub open spec fn pending_frame(&self, k: int) -> Seq<u8> {
        let limit = self.segment_limit();
        let pending = distance(self.spec_send_next(), self.spec_max());
        wire_bytes(
            self.segment_frame(
                seq_plus(self.spec_send_next(), k * limit),
                least(limit, pending - k * limit),
            ),
        )
    }

    /// The first `count` of those frames.
    pub open spec fn pending_frames(&self, count: nat) -> Seq<Seq<u8>> {
        Seq::new(count, |k: int| self.pending_frame(k))
    }

    /// Number of segments that `n` bytes are sent in.
    pub open spec fn segments_in(&self, n: nat) -> nat {
        if self.segment_limit() <= 0 {
            0
        } else {
            ceil_div(n, self.segment_limit() as nat)
        }
    }

    /// Whether `self` has handed to the carrier, since it was `before`, one
    /// or more of the frames that `before` had to send, from the first on.
    pub open spec fn has_offered_some(&self, before: &Self) -> bool {
        exists|count: nat|
            count >= 1 && self.offered() == before.offered() + #[trigger] before.pending_frames(
                count,
            )
    }

    /// The frame of a segment is made of the ring and the acknowledgment
    /// number alone.
    proof fn lemma_same_frame(&self, other: &Self, seq: u32, len: int)
        requires
            self.buffer@ == other.buffer@,
            self.capacity == other.capacity,
            self.ack_num == other.ack_num,
        ensures
            self.segment_frame(seq, len) == other.segment_frame(seq, len),
    {
        assert(forall|x: u32| self.byte_at(x) == other.byte_at(x)) by {
            reveal(Sender::place);
        }
        assert(self.bytes_from(seq, len) =~= other.bytes_from(seq, len));
    }

    /// Sends the bytes written and not yet sent, segment by segment, for
    /// as long as there are bytes and free places in the table, and notes
    /// each segment in the table as sent at `now`. Returns the number of
    /// bytes sent.
    ///
    /// Every segment is handed to the carrier whole before it is noted.
    /// If the carrier fails, the call ends with its error; the segments
    /// sent before stay sent and noted. An acknowledgment that waited
    /// counts as sent with the first segment. What went to the carrier is
    /// what `pending_frames` says, frame by frame.
    pub fn transmit_pending<T: Transport>(&mut self, transport: &mut T, now: Instant) -> (r: Result<
        usize,
    >)
        requires
            old(self).wf(),
            old(transport).inv(),
        ensures
            final(self).wf(),
            final(transport).inv(),
            final(self).same_limits(old(self)),
            final(self).queued() == old(self).queued(),
            distance(old(self).spec_send_next(), final(self).spec_send_next()) <= distance(
                old(self).spec_send_next(),
                old(self).spec_max(),
            ),
            old(self).sent_since(final(self), now),
            r is Err ==> final(self).has_offered_some(old(self)),
            r matches Ok(n) ==> {
                &&& final(self).offered() == old(self).offered() + old(self).pending_frames(
                    old(self).segments_in(n as nat),
                )
                &&& final(self).spec_send_next() == seq_plus(old(self).spec_send_next(), n as int)
                &&& n > 0 ==> !final(self).spec_ack_pending()
                &&& n == 0 ==> final(self).spec_ack_pending() == old(self).spec_ack_pending()
                &&& final(self).spec_send_next() == final(self).spec_max() || final(self).free_at()
                    == final(self).segments().len() || final(self).segment_limit() == 0
            },
    {
        let mut total_sent: usize = 0;
        let limit = if self.mss < MAX_PAYLOAD_SIZE {
            self.mss
        } else {
            MAX_PAYLOAD_SIZE
        };
        let ghost whole = distance(old(self).send_next, old(self).send_max);
        let ghost mut k: nat = 0;
        proof {
            assert(self.queued() =~= old(self).queued());
            assert(self.offered() =~= old(self).offered() + old(self).pending_frames(0));
            assert(0 * limit == 0) by (nonlinear_arith);
        }
        while self.send_next != self.send_max
            invariant
                self.wf(),
                whole == distance(old(self).send_next, old(self).send_max),
                self.buffer@ == old(self).buffer@,
                self.offered() == old(self).offered() + old(self).pending_frames(k),
                total_sent == least(k * limit, whole),
                k == 0 || (k - 1) * limit < whole,
                k > 0 ==> limit > 0,
                transport.inv(),
                limit == self.segment_limit(),
                self.same_limits(old(self)),
                self.queued() == old(self).queued(),
                self.segments@.len() == old(self).segments@.len(),
                self.send_next == seq_plus(old(self).send_next, total_sent as int),
                total_sent == distance(old(self).send_next, self.send_next),
                total_sent <= distance(old(self).send_next, old(self).send_max),
                total_sent > 0 ==> !self.ack_pending,
                total_sent == 0 ==> self.ack_pending == old(self).ack_pending,
                old(self).sent_since(self, now),
            ensures
                self.send_next == self.send_max || self.free_at() == self.segments().len()
                    || self.segment_limit() == 0,
            decreases distance(self.send_next, self.send_max),
        {
            let slot = match self.find_free() {
                Some(slot) => slot,
                None => {
                    break ;
                },
            };
            let pending = self.send_max.wrapping_sub(self.send_next) as usize;
            let seg_len = if pending < limit {
                pending
            } else {
                limit
            };
            if seg_len == 0 {
                break ;
            }
            let ghost before = *self;
            let sent = self.transmit_one(transport, slot, seg_len, now);
            proof {
                lemma_seq_plus_plus(old(self).send_next, total_sent as int, pending as int);
                assert(pending == whole - total_sent);
                assert(total_sent == k * limit);
                assert((k + 1) * limit == k * limit + limit) by (nonlinear_arith);
                before.lemma_same_frame(old(self), before.send_next, seg_len as int);
                assert(self.offered() =~= old(self).offered() + old(self).pending_frames(k + 1));
                k = k + 1;
            }
            match sent {
                Ok(()) => {},
                Err(e) => {
                    return Err(e);
                },
            }
            total_sent = total_sent + seg_len;
            proof {
                lemma_seq_plus_plus(old(self).send_next, total_sent - seg_len, seg_len as int);
                old(self).lemma_sent_since_step(&before, self, slot as int, seg_len as int, now);
            }
        }
        proof {
            if limit > 0 {
                assert((k - 1) * limit < k * limit) by (nonlinear_arith)
                    requires
                        limit > 0,
                ;
                crate::math::lemma_ceil_div_is(total_sent as nat, limit as nat, k);
            }
        }
        Ok(total_sent)
    }

    /// Whether `self` and `other` agree in the limits of the stream, in
    /// what is acknowledged and in what is written.
    pub open spec fn same_limits(&self, other: &Self) -> bool {
        &&& self.spec_capacity() == other.spec_capacity()
        &&& self.spec_una() == other.spec_una()
        &&& self.spec_max() == other.spec_max()
        &&& self.spec_mss() == other.spec_mss()
        &&& self.spec_ack() == other.spec_ack()
        &&& self.spec_rto_ms() == other.spec_rto_ms()
        &&& self.spec_max_retries() == other.spec_max_retries()
        &&& self.spec_delayed_ack_ms() == other.spec_delayed_ack_ms()
    }

    /// Whether the table of `after` is the table of `self` with some free
    /// places taken by segments sent for the first time at `now`, out of
    /// the bytes that `self` had still to send.
    pub open spec fn sent_since(&self, after: &Self, now: Instant) -> bool {
        &&& after.segments().len() == self.segments().len()
        &&& forall|i: int|
            0 <= i < self.segments().len() ==> #[trigger] after.segments()[i]
                == self.segments()[i] || (!self.segments()[i].in_use && Self::fresh(
                after,
                i,
                self.spec_send_next(),
                after.spec_send_next(),
                now,
            ))
    }

    /// One more segment sent keeps the table what `sent_since` says.
    proof fn lemma_sent_since_step(
        &self,
        before: &Self,
        after: &Self,
        slot: int,
        len: int,
        now: Instant,
    )
        requires
            self.sent_since(before, now),
            0 <= slot < before.segments().len(),
            !before.segments()[slot].in_use,
            1 <= len <= before.segment_limit(),
            after.spec_mss() == before.spec_mss(),
            0 <= distance(self.spec_send_next(), before.spec_send_next()),
            distance(self.spec_send_next(), before.spec_send_next()) + len < 0x1_0000_0000,
            after.spec_send_next() == seq_plus(before.spec_send_next(), len),
            after.segments() == before.segments().update(
                slot,
                SegmentMeta {
                    seq: before.spec_send_next(),
                    len: len as u16,
                    sent_at: now,
                    tx_count: 1,
                    in_use: true,
                },
            ),
        ensures
            self.sent_since(after, now),
            distance(self.spec_send_next(), after.spec_send_next()) == distance(
                self.spec_send_next(),
                before.spec_send_next(),
            ) + len,
    {
        let from = self.spec_send_next();
        let d = distance(from, before.spec_send_next());
        lemma_seq_plus_plus(from, d, len);
        assert forall|i: int| 0 <= i < self.segments().len() implies #[trigger] after.segments()[i]
            == self.segments()[i] || (!self.segments()[i].in_use && Self::fresh(
            after,
            i,
            from,
            after.spec_send_next(),
            now,
        )) by {
            if i == slot {
                assert(!self.segments()[i].in_use) by {
                    if before.segments()[i] != self.segments()[i] {
                        assert(Self::fresh(before, i, from, before.spec_send_next(), now));
                    }
                }
            } else {
                assert(after.segments()[i] == before.segments()[i]);
                if before.segments()[i] != self.segments()[i] {
                    assert(Self::fresh(before, i, from, before.spec_send_next(), now));
                }
            }
        }
    }

    /// Sends the next `seg_len` bytes as one segment and notes it in the
    /// free place `slot` as sent at `now`.
    fn transmit_one<T: Transport>(
        &mut self,
        transport: &mut T,
        slot: usize,
        seg_len: usize,
        now: Instant,
    ) -> (r: Result<()>)
        requires
            old(self).wf(),
            old(transport).inv(),
            slot < old(self).segments().len(),
            !old(self).segments()[slot as int].in_use,
            1 <= seg_len <= old(self).segment_limit(),
            seg_len <= distance(old(self).spec_send_next(), old(self).spec_max()),
        ensures
            final(self).wf(),
            final(transport).inv(),
            final(self).same_limits(old(self)),
            final(self).queued() == old(self).queued(),
            final(self).buffer@ == old(self).buffer@,
            final(self).offered() == old(self).offered().push(
                wire_bytes(old(self).segment_frame(old(self).spec_send_next(), seg_len as int)),
            ),
            r is Err ==> final(self).segments() == old(self).segments()
                && final(self).spec_send_next() == old(self).spec_send_next()
                && final(self).spec_ack_pending()
                == old(self).spec_ack_pending(),
            r is Ok ==> {
                &&& final(self).segments() == old(self).segments().update(
                    slot as int,
                    SegmentMeta {
                        seq: old(self).spec_send_next(),
                        len: seg_len as u16,
                        sent_at: now,
                        tx_count: 1,
                        in_use: true,
                    },
                )
                &&& final(self).spec_send_next() == seq_plus(
                    old(self).spec_send_next(),
                    seg_len as int,
                )
                &&& !final(self).spec_ack_pending()
                &&& final(self).scratch(FRAME_HEADER_SIZE + seg_len) == wire_bytes(
                    old(self).segment_frame(old(self).spec_send_next(), seg_len as int),
                )
            },
    {
        let wrote = self.send_segment(transport, self.send_next, seg_len);
        self.note_sent(wrote, slot, seg_len, now)
    }

    /// All the places of the ring, whatever they hold.
    pub closed spec fn ring(&self) -> Seq<u8> {
        self.buffer@
    }

    /// Whether `self` and `other` differ in nothing but the table of
    /// segments, the next byte to send and whether an acknowledgment
    /// waits.
    pub open spec fn same_but_sent(&self, other: &Self) -> bool {
        &&& self.same_limits(other)
        &&& self.queued() == other.queued()
        &&& self.offered() == other.offered()
        &&& self.spec_ack_since() == other.spec_ack_since()
        &&& self.segments().len() == other.segments().len()
        &&& forall|n: int| self.scratch(n) == other.scratch(n)
        &&& forall|seq: u32, len: int| self.segment_frame(seq, len) == other.segment_frame(seq, len)
    }

    /// Deals with the answer `wrote` of the carrier to the segment of
    /// `seg_len` bytes that starts at the next byte to send, handed to it
    /// at `now`.
    ///
    /// A segment that the carrier did not take is not noted: the failure
    /// is handed on and nothing changes. One that it took is noted in the
    /// free place `slot` of the table as sent once at `now`; the next byte
    /// to send moves on behind it, and the acknowledgment that waited has
    /// gone out with it.
    pub fn note_sent(&mut self, wrote: Result<()>, slot: usize, seg_len: usize, now: Instant) -> (r:
        Result<()>)
        requires
            old(self).wf(),
            slot < old(self).segments().len(),
            !old(self).segments()[slot as int].in_use,
            1 <= seg_len <= old(self).segment_limit(),
            seg_len <= distance(old(self).spec_send_next(), old(self).spec_max()),
        ensures
            final(self).wf(),
            final(self).same_but_sent(old(self)),
            final(self).ring() == old(self).ring(),
            wrote matches Err(e) ==> r == Err::<(), Error>(e) && *final(self) == *old(self),
            wrote is Ok ==> {
                &&& r is Ok
                &&& final(self).segments() == old(self).segments().update(
                    slot as int,
                    SegmentMeta {
                        seq: old(self).spec_send_next(),
                        len: seg_len as u16,
                        sent_at: now,
                        tx_count: 1,
                        in_use: true,
                    },
                )
                &&& final(self).spec_send_next() == seq_plus(
                    old(self).spec_send_next(),
                    seg_len as int,
                )
                &&& !final(self).spec_ack_pending()
            },
    {
        match wrote {
            Ok(()) => {},
            Err(e) => {
                assert(forall|seq: u32, len: int| self.segment_frame(seq, len) == old(self).segment_frame(seq, len));
                return Err(e);
            },
        }
        let ghost before = *self;
        self.segments[slot] = SegmentMeta {
            seq: self.send_next,
            len: seg_len as u16,
            sent_at: now,
            tx_count: 1,
            in_use: true,
        };
        self.send_next = self.send_next.wrapping_add(seg_len as u32);
        self.ack_pending = false;
        proof {
            assert(forall|x: u32| self.byte_at(x) == before.byte_at(x)) by {
                reveal(Sender::place);
            }
            assert(self.queued() =~= before.queued());
            assert forall|seq: u32, len: int| self.segment_frame(seq, len) == before.segment_frame(
                seq,
                len,
            ) by {
                assert(self.bytes_from(seq, len) =~= before.bytes_from(seq, len));
            }
        }
        Ok(())
    }

    /// Whether the segment that starts at `seq` can go to the carrier
    /// again: it is in flight, has not been sent as often as allowed, and
    /// there is a ring to take its bytes from.
    pub open spec fn can_send_again(&self, seq: u32) -> bool {
        &&& self.noted_at(seq) < self.segments().len()
        &&& self.segments()[self.noted_at(seq)].tx_count < self.spec_max_retries()
        &&& self.spec_capacity() > 0
    }

    /// Sends the segment that starts at `seq` again, and notes it as sent
    /// at `now`. Returns the length of the segment.
    ///
    /// Fails with `InvalidSequence` where no segment in flight starts at
    /// `seq`, with `MaxRetriesExceeded` where the segment has been sent as
    /// often as allowed, and with the error of the carrier where that
    /// fails; nothing is noted then.
    pub fn retransmit<T: Transport>(&mut self, seq: u32, transport: &mut T, now: Instant) -> (r:
        Result<usize>)
        requires
            old(self).wf(),
            old(transport).inv(),
        ensures
            final(self).wf(),
            final(transport).inv(),
            final(self).same_marks(old(self)),
            final(self).queued() == old(self).queued(),
            final(self).segments().len() == old(self).segments().len(),
            old(self).noted_at(seq) == old(self).segments().len() ==> r == Err::<usize, Error>(
                Error::InvalidSequence,
            ),
            old(self).noted_at(seq) < old(self).segments().len()
                && old(self).segments()[old(self).noted_at(seq)].tx_count >= old(self).spec_max_retries()
                ==> r == Err::<usize, Error>(
                Error::MaxRetriesExceeded,
            ),
            r is Err ==> final(self).segments() == old(self).segments()
                && final(self).spec_ack_pending() == old(self).spec_ack_pending(),
            final(self).offered() == (if old(self).can_send_again(seq) {
                old(self).offered().push(
                    wire_bytes(
                        old(self).segment_frame(
                            seq,
                            old(self).segments()[old(self).noted_at(seq)].len as int,
                        ),
                    ),
                )
            } else {
                old(self).offered()
            }),
            r matches Ok(len) ==> {
                let at = old(self).noted_at(seq);
                &&& at < old(self).segments().len()
                &&& len == old(self).segments()[at].len
                &&& old(self).segments()[at].tx_count < old(self).spec_max_retries()
                &&& final(self).segments() == old(self).segments().update(
                    at,
                    SegmentMeta {
                        sent_at: now,
                        tx_count: (old(self).segments()[at].tx_count + 1) as u8,
                        ..old(self).segments()[at]
                    },
                )
                &&& !final(self).spec_ack_pending()
                &&& final(self).scratch(FRAME_HEADER_SIZE + len) == wire_bytes(
                    old(self).segment_frame(seq, len as int),
                )
            },
    {
        let slot = match self.find_noted(seq) {
            Some(slot) => slot,
            None => {
                return Err(Error::InvalidSequence);
            },
        };
        if self.segments[slot].tx_count >= self.max_retries {
            return Err(Error::MaxRetriesExceeded);
        }
        let seg_len = self.segments[slot].len as usize;
        if self.capacity == 0 {
            return Err(Error::InvalidSequence);
        }
        let wrote = self.send_segment(transport, seq, seg_len);
        let ghost handed = *self;
        let r = self.note_sent_again(wrote, slot, now);
        proof {
            assert(self.scratch(FRAME_HEADER_SIZE + seg_len) == handed.scratch(
                FRAME_HEADER_SIZE + seg_len,
            ));
        }
        match r {
            Ok(()) => Ok(seg_len),
            Err(e) => Err(e),
        }
    }

    /// Deals with the answer `wrote` of the carrier to the segment noted
    /// in place `slot` of the table, handed to it again at `now`.
    ///
    /// Where the carrier did not take it, the failure is handed on and
    /// nothing changes. Where it did, the segment is noted as sent once
    /// more, at `now`, and the acknowledgment that waited has gone out
    /// with it.
    pub fn note_sent_again(&mut self, wrote: Result<()>, slot: usize, now: Instant) -> (r: Result<()>)
        requires
            old(self).wf(),
            slot < old(self).segments().len(),
            old(self).segments()[slot as int].tx_count < 255,
        ensures
            final(self).wf(),
            final(self).same_but_sent(old(self)),
            final(self).spec_send_next() == old(self).spec_send_next(),
            final(self).ring() == old(self).ring(),
            wrote matches Err(e) ==> r == Err::<(), Error>(e) && *final(self) == *old(self),
            wrote is Ok ==> {
                &&& r is Ok
                &&& final(self).segments() == old(self).segments().update(
                    slot as int,
                    SegmentMeta {
                        sent_at: now,
                        tx_count: (old(self).segments()[slot as int].tx_count + 1) as u8,
                        ..old(self).segments()[slot as int]
                    },
                )
                &&& !final(self).spec_ack_pending()
            },
    {
        match wrote {
            Ok(()) => {},
            Err(e) => {
                assert(forall|seq: u32, len: int| self.segment_frame(seq, len) == old(self).segment_frame(seq, len));
                return Err(e);
            },
        }
        let ghost before = *self;
        self.segments[slot].sent_at = now;
        let count = self.segments[slot].tx_count;
        self.segments[slot].tx_count = count + 1;
        self.ack_pending = false;
        proof {
            assert(forall|x: u32| self.byte_at(x) == before.byte_at(x)) by {
                reveal(Sender::place);
            }
            assert(self.queued() =~= before.queued());
            assert(self.segments() =~= old(self).segments().update(
                slot as int,
                SegmentMeta {
                    sent_at: now,
                    tx_count: (old(self).segments()[slot as int].tx_count + 1) as u8,
                    ..old(self).segments()[slot as int]
                },
            ));
            assert forall|seq: u32, len: int| self.segment_frame(seq, len) == before.segment_frame(
                seq,
                len,
            ) by {
                assert(self.bytes_from(seq, len) =~= before.bytes_from(seq, len));
            }
        }
        Ok(())
    }

    /// Whether `self` and `other` agree in the marks of the stream and
    /// the limits.
    pub open spec fn same_marks(&self, other: &Self) -> bool {
        &&& self.spec_capacity() == other.spec_capacity()
        &&& self.spec_una() == other.spec_una()
        &&& self.spec_send_next() == other.spec_send_next()
        &&& self.spec_max() == other.spec_max()
        &&& self.spec_mss() == other.spec_mss()
        &&& self.spec_ack() == other.spec_ack()
        &&& self.spec_rto_ms() == other.spec_rto_ms()
        &&& self.spec_max_retries() == other.spec_max_retries()
        &&& self.spec_delayed_ack_ms() == other.spec_delayed_ack_ms()
    }

    /// Whether an acknowledgment of everything before `ack` is taken: it
    /// acknowledges at least one byte, and none that has not been sent.
    pub open spec fn acknowledges(&self, ack: u32) -> bool {
        0 < distance(self.spec_una(), ack) <= self.flying()
    }

    /// Whether the segment `seg` lies wholly before `ack`, counted from
    /// the oldest byte not acknowledged.
    pub open spec fn covered(&self, seg: SegmentMeta, ack: u32) -> bool {
        seg.in_use && distance(self.spec_una(), seq_plus(seg.seq, seg.len as int)) <= distance(
            self.spec_una(),
            ack,
        )
    }

    /// Takes the acknowledgment of every byte before `ack`, and returns
    /// the number of bytes acknowledged by it. The segments that lie
    /// wholly before `ack` leave the table. An acknowledgment of nothing
    /// new, or of bytes not yet sent, changes nothing.
    pub fn on_ack(&mut self, ack: u32) -> (n: usize)
        requires
            old(self).wf(),
        ensures
            final(self).wf(),
            final(self).offered() == old(self).offered(),
            final(self).spec_capacity() == old(self).spec_capacity(),
            final(self).spec_send_next() == old(self).spec_send_next(),
            final(self).spec_max() == old(self).spec_max(),
            final(self).spec_mss() == old(self).spec_mss(),
            final(self).spec_ack() == old(self).spec_ack(),
            final(self).segments().len() == old(self).segments().len(),
            !old(self).acknowledges(ack) ==> n == 0 && final(self).same_stream(old(self)),
            old(self).acknowledges(ack) ==> {
                &&& n == distance(old(self).spec_una(), ack)
                &&& final(self).spec_una() == ack
                &&& final(self).used() == old(self).used() - n
                &&& final(self).queued() == old(self).queued().subrange(
                    n as int,
                    old(self).used(),
                )
                &&& forall|i: int|
                    0 <= i < old(self).segments().len() ==> #[trigger] final(self).segments()[i]
                        == (if old(self).covered(old(self).segments()[i], ack) {
                        SegmentMeta { in_use: false, ..old(self).segments()[i] }
                    } else {
                        old(self).segments()[i]
                    })
            },
    {
        let ack_diff = ack.wrapping_sub(self.send_una);
        let max_valid = self.send_next.wrapping_sub(self.send_una);
        if ack_diff == 0 || ack_diff > max_valid {
            return 0;
        }
        let count = self.segments.len();
        let mut i: usize = 0;
        while i < count
            invariant
                i <= count,
                count == self.segments@.len(),
                count == old(self).segments@.len(),
                self.wf(),
                ack_diff == distance(old(self).send_una, ack),
                self.buffer@ == old(self).buffer@,
                self.capacity == old(self).capacity,
                self.send_una == old(self).send_una,
                self.send_next == old(self).send_next,
                self.send_max == old(self).send_max,
                self.mss == old(self).mss,
                self.ack_num == old(self).ack_num,
                self.offered@ == old(self).offered@,
                forall|j: int|
                    0 <= j < i ==> #[trigger] self.segments@[j] == (if old(self).covered(
                        old(self).segments@[j],
                        ack,
                    ) {
                        SegmentMeta { in_use: false, ..old(self).segments@[j] }
                    } else {
                        old(self).segments@[j]
                    }),
                forall|j: int| i <= j < count ==> #[trigger] self.segments@[j] == old(self).segments@[j],
            decreases count - i,
        {
            let seg = self.segments[i];
            if seg.in_use {
                let seg_end = seg.seq.wrapping_add(seg.len as u32);
                assert(seg_end == seq_plus(seg.seq, seg.len as int));
                if seg_end.wrapping_sub(self.send_una) <= ack_diff {
                    self.segments[i].in_use = false;
                }
            }
            i = i + 1;
        }
        self.send_una = ack;
        proof {
            assert(forall|x: u32| self.byte_at(x) == old(self).byte_at(x)) by {
                reveal(Sender::place);
            }
            let una = old(self).send_una;
            assert(ack == seq_plus(una, ack_diff as int));
            assert forall|k: int| 0 <= k < self.used() implies self.queued()[k] == old(self).queued()[k + ack_diff] by {
                lemma_seq_plus_plus(una, ack_diff as int, k);
            }
            assert(self.queued() =~= old(self).queued().subrange(ack_diff as int, old(self).used()));
        }
        ack_diff as usize
    }

    /// The first place of the table, or the length of the table, whose
    /// segment has waited for the timeout or longer at `now`.
    pub open spec fn overdue_at(&self, now: Instant) -> int {
        first_such(
            self.segments().len() as int,
            |i: int|
                self.segments()[i].in_use && self.segments()[i].sent_at.passed_ms(
                    now,
                    self.spec_rto_ms(),
                ),
        )
    }

    /// The sequence number of the first segment in the table that has
    /// waited for the timeout or longer at `now`: the one to send again.
    pub fn check_timeout(&self, now: Instant) -> (r: Option<u32>)
        ensures
            self.overdue_at(now) == self.segments().len() ==> r is None,
            self.overdue_at(now) < self.segments().len() ==> r == Some(
                self.segments()[self.overdue_at(now)].seq,
            ),
    {
        let timeout = Duration::from_millis(self.rto_ms);
        let ghost overdue = |i: int|
            self.segments()[i].in_use && self.segments()[i].sent_at.passed_ms(
                now,
                self.spec_rto_ms(),
            );
        let count = self.segments.len();
        let mut i: usize = 0;
        while i < count
            invariant
                i <= count,
                count == self.segments@.len(),
                timeout.spec_millis() == self.rto_ms,
                overdue == (|i: int|
                    self.segments()[i].in_use && self.segments()[i].sent_at.passed_ms(
                        now,
                        self.spec_rto_ms(),
                    )),
                forall|j: int| 0 <= j < i ==> !#[trigger] overdue(j),
            decreases count - i,
        {
            if self.segments[i].in_use && self.segments[i].sent_at.elapsed_since(now, timeout) {
                proof {
                    assert(overdue(i as int));
                    lemma_first_such_is(count as int, overdue, i as int);
                }
                return Some(self.segments[i].seq);
            }
            assert(!overdue(i as int));
            i = i + 1;
        }
        proof {
            lemma_first_such_is(count as int, overdue, count as int);
        }
        None
    }
}

} // verus!
