//! The sliding windows of the send and the receive path.
//!
//! Sequence numbers are 32 bits wide and wrap around. Whether one number
//! lies before another is decided by their difference modulo 2^32: a
//! difference above `0x7FFF_FFFF` means "before".

use vstd::prelude::*;
use vstd::arithmetic::div_mod::{lemma_fundamental_div_mod, lemma_mod_multiples_vanish};
use crate::buffer::ring::copy_bytes;
use crate::error::{Error, Result};
use crate::math::{count_marked, lemma_count_marked_update};

verus! {

/// Largest window that a configuration asks for.
pub const MAX_WINDOW_SIZE: usize = 256;

/// The largest difference that still means "at or after".
pub const HALF_RANGE: u32 = 0x7FFF_FFFF;

/// How far `seq` lies after `base`, modulo 2^32.
pub open spec fn distance(base: u32, seq: u32) -> int {
    seq.wrapping_sub(base) as int
}

/// The sequence number `steps` after `base`, modulo 2^32.
pub open spec fn seq_plus(base: u32, steps: int) -> u32 {
    ((base + steps) % 0x1_0000_0000) as u32
}

/// Whether `seq` lies at or before `limit` in the order of sequence
/// numbers: the signed difference `limit - seq` is not negative.
pub open spec fn at_or_before(seq: u32, limit: u32) -> bool {
    distance(seq, limit) <= HALF_RANGE
}

/// Going `steps` forward from `base` ends `steps` away from it.
pub proof fn lemma_seq_plus_distance(base: u32, steps: int)
    requires
        0 <= steps < 0x1_0000_0000,
    ensures
        distance(base, seq_plus(base, steps)) == steps,
        seq_plus(base, 0) == base,
        steps + 1 < 0x1_0000_0000 ==> seq_plus(base, steps + 1) == seq_plus(
            base,
            steps,
        ).wrapping_add(1),
        seq_plus(base, distance(base, base)) == base,
{
}

/// Going on from where one has got to is going the whole way at once.
pub proof fn lemma_seq_plus_plus(base: u32, x: int, y: int)
    ensures
        seq_plus(seq_plus(base, x), y) == seq_plus(base, x + y),
{
    let range = 0x1_0000_0000int;
    let first = (base + x) % range;
    assert(seq_plus(base, x) as int == first);
    vstd::arithmetic::div_mod::lemma_fundamental_div_mod(base + x, range);
    let q = (base + x) / range;
    assert(base + x + y == range * q + (first + y));
    vstd::arithmetic::div_mod::lemma_mod_multiples_vanish(q, first + y, range);
}

/// A sequence number is found again by going its distance from `base`.
pub proof fn lemma_distance_seq_plus(base: u32, seq: u32)
    ensures
        0 <= distance(base, seq) < 0x1_0000_0000,
        seq_plus(base, distance(base, seq)) == seq,
{
}

/// One frame that was sent, kept until it is acknowledged.
#[derive(Debug, Clone, Copy)]
pub struct WindowEntry<const N: usize> {
    /// The frame as it went out; the first `size` bytes count.
    pub data: [u8; N],
    pub size: usize,
    pub sequence: u32,
    /// When the frame was last sent.
    pub sent_time: u64,
    /// How often the frame was sent.
    pub transmit_count: u8,
    pub in_use: bool,
    pub acked: bool,
}

impl<const N: usize> WindowEntry<N> {
    /// The bytes of the frame.
    pub open spec fn frame(&self) -> Seq<u8> {
        self.data@.subrange(0, self.size as int)
    }

    /// Whether the entry holds a frame that waits for its acknowledgment.
    pub open spec fn pending(&self) -> bool {
        self.in_use && !self.acked
    }

    /// Whether the entry is as a new one: free, with everything zero.
    pub open spec fn is_blank(&self) -> bool {
        &&& self.size == 0
        &&& self.sequence == 0
        &&& self.sent_time == 0
        &&& self.transmit_count == 0
        &&& !self.in_use
        &&& !self.acked
        &&& forall|i: int| 0 <= i < N ==> self.data@[i] == 0
    }

    /// A free entry.
    pub fn new() -> (e: Self)
        ensures
            e.is_blank(),
    {
        WindowEntry {
            data: [0u8;N],
            size: 0,
            sequence: 0,
            sent_time: 0,
            transmit_count: 0,
            in_use: false,
            acked: false,
        }
    }

    /// The bytes of the frame.
    pub fn frame_data(&self) -> (s: &[u8])
        requires
            self.size <= N,
        ensures
            s@ == self.frame(),
    {
        &self.data[0..self.size]
    }
}

impl<const N: usize> Default for WindowEntry<N> {
    fn default() -> (e: Self)
        ensures
            e.is_blank(),
    {
        WindowEntry::new()
    }
}

/// The entry as it is once the window has moved past it: free, and marked
/// as acknowledged if it held a frame.
pub open spec fn retired<const N: usize>(e: WindowEntry<N>) -> WindowEntry<N> {
    WindowEntry { in_use: false, acked: e.acked || e.in_use, ..e }
}

/// Number of entries among the first `n` that wait for an acknowledgment.
pub open spec fn count_pending<const N: usize>(entries: Seq<WindowEntry<N>>, n: int) -> int
    decreases n,
{
    if n <= 0 {
        0
    } else {
        count_pending(entries, n - 1) + (if entries[n - 1].pending() {
            1int
        } else {
            0int
        })
    }
}

/// Number of entries among the first `n` that hold a frame.
pub open spec fn count_in_use<const N: usize>(entries: Seq<WindowEntry<N>>, n: int) -> int
    decreases n,
{
    if n <= 0 {
        0
    } else {
        count_in_use(entries, n - 1) + (if entries[n - 1].in_use {
            1int
        } else {
            0int
        })
    }
}

/// Changing one entry changes the counts by what that entry adds or takes
/// away.
pub proof fn lemma_count_update<const N: usize>(
    entries: Seq<WindowEntry<N>>,
    n: int,
    i: int,
    e: WindowEntry<N>,
)
    requires
        0 <= n <= entries.len(),
        0 <= i < entries.len(),
    ensures
        count_pending(entries.update(i, e), n) == count_pending(entries, n) + (if i < n {
            (if e.pending() {
                1int
            } else {
                0int
            }) - (if entries[i].pending() {
                1int
            } else {
                0int
            })
        } else {
            0int
        }),
        count_in_use(entries.update(i, e), n) == count_in_use(entries, n) + (if i < n {
            (if e.in_use {
                1int
            } else {
                0int
            }) - (if entries[i].in_use {
                1int
            } else {
                0int
            })
        } else {
            0int
        }),
        0 <= count_pending(entries, n) <= count_in_use(entries, n) <= n,
    decreases n,
{
    if n > 0 {
        lemma_count_update(entries, n - 1, i, e);
    }
}

/// Where no entry holds a frame, none is counted.
pub proof fn lemma_count_none<const N: usize>(entries: Seq<WindowEntry<N>>, n: int)
    requires
        0 <= n <= entries.len(),
        forall|i: int| 0 <= i < n ==> !(#[trigger] entries[i]).in_use,
    ensures
        count_in_use(entries, n) == 0,
        count_pending(entries, n) == 0,
    decreases n,
{
    if n > 0 {
        lemma_count_none(entries, n - 1);
    }
}

/// Where no entry that holds a frame is marked as acknowledged, the
/// entries that wait are the entries that hold a frame.
pub proof fn lemma_count_unacked<const N: usize>(entries: Seq<WindowEntry<N>>, n: int)
    requires
        0 <= n <= entries.len(),
        forall|i: int| 0 <= i < n && (#[trigger] entries[i]).in_use ==> !entries[i].acked,
    ensures
        count_pending(entries, n) == count_in_use(entries, n),
    decreases n,
{
    if n > 0 {
        lemma_count_unacked(entries, n - 1);
    }
}

/// The frames sent and not yet acknowledged, `W` slots of `F` bytes. The
/// frame with sequence number `s` is kept in slot `s mod W`.
#[derive(Debug)]
pub struct SendWindow<const W: usize, const F: usize> {
    entries: [WindowEntry<F>; W],
    /// The oldest sequence number not yet passed by a cumulative
    /// acknowledgment.
    base_seq: u32,
    /// The sequence number of the next frame.
    next_seq: u32,
    in_flight: usize,
    window_size: usize,
}

impl<const W: usize, const F: usize> SendWindow<W, F> {
    /// The slot of sequence number `seq`.
    pub open spec fn slot(seq: u32) -> int {
        (seq as int) % (W as int)
    }

    /// The entry in slot `i`.
    pub closed spec fn entry(&self, i: int) -> WindowEntry<F> {
        self.entries@[i]
    }

    /// All `W` entries.
    pub closed spec fn entries(&self) -> Seq<WindowEntry<F>> {
        self.entries@
    }

    pub closed spec fn spec_base(&self) -> u32 {
        self.base_seq
    }

    pub closed spec fn spec_next(&self) -> u32 {
        self.next_seq
    }

    pub closed spec fn spec_in_flight(&self) -> usize {
        self.in_flight
    }

    /// The most frames that may be in flight.
    pub closed spec fn limit(&self) -> usize {
        self.window_size
    }

    /// Whether the counters fit each other: at most `limit` frames are in
    /// flight, the limit is at most `W` and below half the range of
    /// sequence numbers, the next sequence number lies as many steps after
    /// the base as frames are in flight, and no entry claims more bytes
    /// than it has.
    pub closed spec fn wf(&self) -> bool {
        &&& self.window_size <= W
        &&& self.window_size <= HALF_RANGE
        &&& self.in_flight <= self.window_size
        &&& self.next_seq == seq_plus(self.base_seq, self.in_flight as int)
        &&& forall|i: int| 0 <= i < W ==> (#[trigger] self.entries@[i]).size <= F
    }

    /// Whether `seq` lies in the window: at or after the base, before the
    /// next sequence number.
    pub open spec fn in_window(&self, seq: u32) -> bool {
        distance(self.spec_base(), seq) < self.spec_in_flight()
    }

    /// Whether the slot of `seq` holds the frame with that number.
    pub open spec fn holds(&self, seq: u32) -> bool {
        &&& W > 0
        &&& self.entry(Self::slot(seq)).in_use
        &&& self.entry(Self::slot(seq)).sequence == seq
    }

    /// Whether the slots never run into each other: `W` divides the range
    /// of sequence numbers, so that neighbours in the window are
    /// neighbours in the slots even where the numbers wrap around. This is
    /// so exactly when `W` is a power of two of at most 2^32.
    pub open spec fn ring_friendly() -> bool {
        W > 0 && 0x1_0000_0000int % (W as int) == 0
    }

    /// Whether the slots hold exactly the frames of the window: every
    /// sequence number in the window has its frame in its slot, and every
    /// slot in use holds a frame of the window.
    pub closed spec fn consistent(&self) -> bool {
        &&& forall|k: int|
            0 <= k < self.in_flight ==> self.holds(#[trigger] seq_plus(self.base_seq, k))
        &&& forall|i: int|
            0 <= i < W && (#[trigger] self.entries@[i]).in_use ==> self.in_window(
                self.entries@[i].sequence,
            ) && Self::slot(self.entries@[i].sequence) == i
        &&& count_in_use(self.entries@, W as int) == self.in_flight
    }

    /// What `consistent` says, for those who cannot look inside.
    pub proof fn lemma_consistent(&self)
        requires
            self.consistent(),
        ensures
            forall|k: int|
                0 <= k < self.spec_in_flight() ==> self.holds(
                    #[trigger] seq_plus(self.spec_base(), k),
                ),
            forall|i: int|
                0 <= i < W && (#[trigger] self.entry(i)).in_use ==> self.in_window(
                    self.entry(i).sequence,
                ) && Self::slot(self.entry(i).sequence) == i,
            count_in_use(self.entries(), W as int) == self.spec_in_flight(),
    {
    }

    /// Sequence numbers that lie fewer than `W` steps apart have different
    /// slots, where the slots never run into each other.
    pub proof fn lemma_slots_apart(a: u32, d: int)
        requires
            Self::ring_friendly(),
            0 < d < W,
        ensures
            Self::slot(seq_plus(a, d)) != Self::slot(a),
    {
        crate::math::lemma_ring_apart(a, d, W as int);
    }

    /// Moving the base one step on, and freeing the slot of the old base,
    /// keeps slots and window in agreement.
    proof fn lemma_moving_on_keeps_consistent(before: Self, after: Self)
        requires
            Self::ring_friendly(),
            before.wf(),
            before.consistent(),
            before.in_flight > 0,
            after.base_seq == before.base_seq.wrapping_add(1),
            after.in_flight == before.in_flight - 1,
            after.entries@ == before.entries@.update(
                Self::slot(before.base_seq),
                retired(before.entries@[Self::slot(before.base_seq)]),
            ),
        ensures
            after.consistent(),
    {
        let base = before.base_seq;
        let index = Self::slot(base);
        let n = before.in_flight as int;
        assert(base == seq_plus(base, 0));
        assert(before.holds(seq_plus(base, 0)));
        lemma_count_update(before.entries@, W as int, index, retired(before.entries@[index]));
        assert forall|k: int| 0 <= k < after.in_flight implies after.holds(
            #[trigger] seq_plus(after.base_seq, k),
        ) by {
            let p = seq_plus(base, k + 1);
            assert(p == seq_plus(after.base_seq, k));
            assert(before.holds(p));
            Self::lemma_slots_apart(base, k + 1);
        }
        assert forall|i: int| 0 <= i < W && (#[trigger] after.entries@[i]).in_use implies
            after.in_window(after.entries@[i].sequence) && Self::slot(after.entries@[i].sequence)
            == i by {
            assert(i != index);
            assert(before.entries@[i].in_use);
            let q = before.entries@[i].sequence;
            assert(distance(base, q) < n);
            assert(q != base);
        }
    }

    /// What `wf` says, for those who cannot look inside.
    pub proof fn lemma_wf(&self)
        requires
            self.wf(),
        ensures
            self.entries().len() == W,
            self.limit() <= W,
            self.limit() <= HALF_RANGE,
            self.spec_in_flight() <= self.limit(),
            self.spec_next() == seq_plus(self.spec_base(), self.spec_in_flight() as int),
            distance(self.spec_base(), self.spec_next()) == self.spec_in_flight(),
            forall|i: int| 0 <= i < W ==> self.entry(i) == self.entries()[i] && self.entry(i).size
                <= F,
    {
    }

    /// The limit of a window made for `window_size` frames in flight: that
    /// number, or `W`, or half the range of sequence numbers, whichever is
    /// least.
    pub open spec fn limit_for(window_size: usize) -> usize {
        if window_size <= W && window_size <= HALF_RANGE {
            window_size
        } else if W <= HALF_RANGE {
            W
        } else {
            HALF_RANGE as usize
        }
    }

    /// A window for at most `window_size` frames in flight that starts at
    /// `initial_seq`.
    pub fn new(window_size: usize, initial_seq: u32) -> (w: Self)
        ensures
            w.wf(),
            w.spec_base() == initial_seq,
            w.spec_next() == initial_seq,
            w.spec_in_flight() == 0,
            w.limit() == Self::limit_for(window_size),
            forall|i: int| 0 <= i < W ==> w.entry(i).is_blank(),
            w.consistent(),
    {
        let half = HALF_RANGE as usize;
        let capped = if window_size < W {
            window_size
        } else {
            W
        };
        let w = SendWindow {
            entries: [WindowEntry::new();W],
            base_seq: initial_seq,
            next_seq: initial_seq,
            in_flight: 0,
            window_size: if capped < half {
                capped
            } else {
                half
            },
        };
        proof {
            lemma_count_none(w.entries@, W as int);
        }
        w
    }

    #[verifier::when_used_as_spec(spec_next)]
    pub fn next_sequence(&self) -> (s: u32)
        ensures
            s == self.spec_next(),
    {
        self.next_seq
    }

    #[verifier::when_used_as_spec(spec_base)]
    pub fn base_sequence(&self) -> (s: u32)
        ensures
            s == self.spec_base(),
    {
        self.base_seq
    }

    #[verifier::when_used_as_spec(spec_in_flight)]
    pub fn in_flight(&self) -> (n: usize)
        ensures
            n == self.spec_in_flight(),
    {
        self.in_flight
    }

    /// Whether no more frames may go out.
    pub fn is_full(&self) -> (b: bool)
        ensures
            b == (self.spec_in_flight() >= self.limit()),
    {
        self.in_flight >= self.window_size
    }

    /// Whether nothing is in flight.
    pub fn is_empty(&self) -> (b: bool)
        ensures
            b == (self.spec_in_flight() == 0),
    {
        self.in_flight == 0
    }

    /// Number of frames that may still go out.
    pub fn available(&self) -> (n: usize)
        ensures
            n == (if self.limit() >= self.spec_in_flight() {
                self.limit() - self.spec_in_flight()
            } else {
                0
            }),
    {
        self.window_size.saturating_sub(self.in_flight)
    }

    /// Whether the sequence number `seq` lies fewer than `limit` steps
    /// after the base.
    pub open spec fn in_range(&self, seq: u32) -> bool {
        distance(self.spec_base(), seq) <= HALF_RANGE && distance(self.spec_base(), seq)
            < self.limit()
    }

    /// Takes a frame that has just been sent at `sent_time` and gives it
    /// the next sequence number. Fails where the window is full, and where
    /// the frame is longer than a slot.
    pub fn add_frame(&mut self, frame_data: &[u8], sent_time: u64) -> (r: Result<u32>)
        requires
            old(self).wf(),
        ensures
            final(self).wf(),
            final(self).limit() == old(self).limit(),
            final(self).spec_base() == old(self).spec_base(),
            old(self).spec_in_flight() >= old(self).limit() ==> r == Err::<u32, Error>(
                Error::WindowFull,
            ),
            old(self).spec_in_flight() < old(self).limit() && frame_data@.len() > F ==> r == Err::<
                u32,
                Error,
            >(Error::PayloadTooLarge),
            r is Err ==> *final(self) == *old(self),
            old(self).consistent() && Self::ring_friendly() ==> final(self).consistent(),
            old(self).spec_in_flight() < old(self).limit() && frame_data@.len() <= F ==> {
                let seq = old(self).spec_next();
                let e = final(self).entry(Self::slot(seq));
                &&& r == Ok::<u32, Error>(seq)
                &&& final(self).spec_next() == seq.wrapping_add(1)
                &&& final(self).spec_in_flight() == old(self).spec_in_flight() + 1
                &&& e.frame() == frame_data@
                &&& e.sequence == seq
                &&& e.sent_time == sent_time
                &&& e.transmit_count == 1
                &&& e.in_use
                &&& !e.acked
                &&& forall|i: int|
                    0 <= i < W && i != Self::slot(seq) ==> final(self).entry(i) == old(self).entry(
                        i,
                    )
            },
    {
        if self.in_flight >= self.window_size {
            return Err(Error::WindowFull);
        }
        if frame_data.len() > F {
            return Err(Error::PayloadTooLarge);
        }
        let seq = self.next_seq;
        let index = (seq as usize) % W;
        copy_bytes(&mut self.entries[index].data, 0, frame_data, 0, frame_data.len());
        self.entries[index].size = frame_data.len();
        self.entries[index].sequence = seq;
        self.entries[index].sent_time = sent_time;
        self.entries[index].transmit_count = 1;
        self.entries[index].in_use = true;
        self.entries[index].acked = false;
        self.next_seq = self.next_seq.wrapping_add(1);
        self.in_flight = self.in_flight + 1;
        proof {
            let e = self.entries@[index as int];
            assert(e.frame() =~= frame_data@);
            if old(self).consistent() && Self::ring_friendly() {
                let before = old(self).entries@;
                let base = self.base_seq;
                let n = old(self).in_flight as int;
                assert(self.entries@ =~= before.update(index as int, e));
                if before[index as int].in_use {
                    let q = before[index as int].sequence;
                    let dq = distance(base, q);
                    assert(old(self).in_window(q));
                    assert(seq == seq_plus(q, n - dq));
                    Self::lemma_slots_apart(q, n - dq);
                }
                lemma_count_update(before, W as int, index as int, e);
                assert forall|k: int| 0 <= k < self.in_flight implies self.holds(
                    #[trigger] seq_plus(base, k),
                ) by {
                    if k < n {
                        let p = seq_plus(base, k);
                        assert(old(self).holds(p));
                        assert(seq == seq_plus(p, n - k));
                        Self::lemma_slots_apart(p, n - k);
                    }
                }
                assert forall|i: int| 0 <= i < W && (#[trigger] self.entries@[i]).in_use implies
                    self.in_window(self.entries@[i].sequence) && Self::slot(
                    self.entries@[i].sequence,
                ) == i by {
                    if i != index {
                        assert(before[i].in_use);
                    }
                }
            }
        }
        Ok(seq)
    }

    /// Moves the window past every frame up to and including `ack_seq`,
    /// but not past the frames sent, and frees their slots. Returns how
    /// many frames were acknowledged by this: those that were still
    /// waiting.
    ///
    /// Nothing happens where `ack_seq` lies before the base.
    #[verifier::rlimit(60)]
    pub fn ack_cumulative(&mut self, ack_seq: u32) -> (acked: usize)
        requires
            old(self).wf(),
        ensures
            final(self).wf(),
            final(self).limit() == old(self).limit(),
            final(self).spec_next() == old(self).spec_next(),
            final(self).spec_base() == seq_plus(
                old(self).spec_base(),
                old(self).passed_by(ack_seq),
            ),
            final(self).spec_in_flight() == old(self).spec_in_flight() - old(self).passed_by(
                ack_seq,
            ),
            forall|i: int|
                0 <= i < W ==> final(self).entry(i) == (if old(self).passes_slot(ack_seq, i) {
                    retired(old(self).entry(i))
                } else {
                    old(self).entry(i)
                }),
            acked == count_pending(old(self).entries(), W as int) - count_pending(
                final(self).entries(),
                W as int,
            ),
            acked <= old(self).passed_by(ack_seq),
            old(self).passed_by(ack_seq) == 0 ==> *final(self) == *old(self),
            old(self).consistent() && Self::ring_friendly() ==> final(self).consistent(),
    {
        let mut acked: usize = 0;
        let ghost mut steps: int = 0;
        let ghost d0 = distance(self.base_seq, ack_seq);
        while self.base_seq != self.next_seq
            invariant
                self.wf(),
                self.window_size == old(self).window_size,
                self.next_seq == old(self).next_seq,
                d0 == distance(old(self).base_seq, ack_seq),
                old(self).in_flight <= HALF_RANGE,
                0 <= steps <= old(self).in_flight,
                d0 > HALF_RANGE ==> steps == 0,
                d0 <= HALF_RANGE ==> steps <= d0 + 1,
                self.base_seq == seq_plus(old(self).base_seq, steps),
                self.in_flight == old(self).in_flight - steps,
                forall|i: int|
                    0 <= i < W ==> #[trigger] self.entries@[i] == (if Self::visits(
                        old(self).base_seq,
                        steps,
                        i,
                    ) {
                        retired(old(self).entries@[i])
                    } else {
                        old(self).entries@[i]
                    }),
                acked == count_pending(old(self).entries@, W as int) - count_pending(
                    self.entries@,
                    W as int,
                ),
                acked <= steps,
                steps == 0 ==> *self == *old(self),
                old(self).consistent() && Self::ring_friendly() ==> self.consistent(),
            ensures
                steps == old(self).passed_by(ack_seq),
            decreases self.in_flight,
        {
            let diff = ack_seq.wrapping_sub(self.base_seq);
            if diff > HALF_RANGE {
                break ;
            }
            let index = (self.base_seq as usize) % W;
            let ghost before = self.entries@;
            let ghost step_start = *self;
            let was_pending = self.entries[index].in_use && !self.entries[index].acked;
            if self.entries[index].in_use {
                self.entries[index].acked = true;
                self.entries[index].in_use = false;
            }
            proof {
                lemma_count_update(before, W as int, index as int, self.entries@[index as int]);
                assert(self.entries@ =~= before.update(index as int, retired(before[index as int])));
                assert(Self::slot(seq_plus(old(self).base_seq, steps)) == index);
                Self::lemma_retire_step(
                    old(self).entries@,
                    before,
                    self.entries@,
                    old(self).base_seq,
                    steps,
                );
            }
            if was_pending {
                acked = acked + 1;
            }
            self.base_seq = self.base_seq.wrapping_add(1);
            self.in_flight = self.in_flight - 1;
            proof {
                steps = steps + 1;
                if old(self).consistent() && Self::ring_friendly() {
                    Self::lemma_moving_on_keeps_consistent(step_start, *self);
                }
            }
        }
        acked
    }

    /// Marks the frame `seq` as acknowledged, without moving the window.
    /// Returns whether there was such a frame waiting.
    pub fn ack_selective(&mut self, seq: u32) -> (found: bool)
        requires
            old(self).wf(),
        ensures
            final(self).wf(),
            found == (old(self).in_range(seq) && old(self).holds(seq) && !old(self).entry(
                Self::slot(seq),
            ).acked),
            found ==> final(self).entry(Self::slot(seq)) == (WindowEntry {
                acked: true,
                ..old(self).entry(Self::slot(seq))
            }),
            forall|i: int|
                0 <= i < W && !(found && i == Self::slot(seq)) ==> final(self).entry(i) == old(self).entry(i),
            final(self).spec_base() == old(self).spec_base(),
            final(self).spec_next() == old(self).spec_next(),
            final(self).spec_in_flight() == old(self).spec_in_flight(),
            final(self).limit() == old(self).limit(),
            old(self).consistent() ==> final(self).consistent(),
    {
        let diff = seq.wrapping_sub(self.base_seq);
        if diff > HALF_RANGE || (diff as usize) >= self.window_size {
            return false;
        }
        let index = (seq as usize) % W;
        if self.entries[index].in_use && self.entries[index].sequence == seq
            && !self.entries[index].acked {
            self.entries[index].acked = true;
            proof {
                let before = old(self).entries@;
                assert(self.entries@ =~= before.update(index as int, self.entries@[index as int]));
                lemma_count_update(before, W as int, index as int, self.entries@[index as int]);
                if old(self).consistent() {
                    assert forall|k: int| 0 <= k < self.in_flight implies self.holds(
                        #[trigger] seq_plus(self.base_seq, k),
                    ) by {
                        assert(old(self).holds(seq_plus(self.base_seq, k)));
                    }
                    assert forall|i: int|
                        0 <= i < W && (#[trigger] self.entries@[i]).in_use implies self.in_window(
                        self.entries@[i].sequence,
                    ) && Self::slot(self.entries@[i].sequence) == i by {
                        assert(before[i].in_use);
                    }
                }
            }
            return true;
        }
        false
    }

    /// The frames that wait for an acknowledgment and were last sent at
    /// least `timeout` before `current_time`, oldest first, each with
    /// whether it has been sent `max_retransmit` times or more.
    pub fn find_retransmit(&self, current_time: u64, timeout: u64, max_retransmit: u8) -> (it:
        RetransmitIter<'_, W, F>)
        requires
            self.wf(),
        ensures
            it.wf(),
            it.window() == *self,
            it.position() == self.spec_base(),
            it.now() == current_time,
            it.timeout() == timeout,
            it.max_retransmit() == max_retransmit,
    {
        RetransmitIter {
            window: self,
            current_seq: self.base_seq,
            current_time,
            timeout,
            max_retransmit,
        }
    }

    /// The entry of frame `seq`, where the window holds that frame.
    pub fn get_entry(&self, seq: u32) -> (r: Option<&WindowEntry<F>>)
        requires
            self.wf(),
        ensures
            r is Some <==> self.in_range(seq) && self.holds(seq),
            r matches Some(e) ==> *e == self.entry(Self::slot(seq)) && e.size <= F,
    {
        let diff = seq.wrapping_sub(self.base_seq);
        if diff > HALF_RANGE || (diff as usize) >= self.window_size {
            return None;
        }
        let index = (seq as usize) % W;
        if self.entries[index].in_use && self.entries[index].sequence == seq {
            Some(&self.entries[index])
        } else {
            None
        }
    }

    /// Notes that frame `seq` was sent again at `sent_time`. The count of
    /// transmissions stops at 255.
    pub fn mark_retransmitted(&mut self, seq: u32, sent_time: u64) -> (r: Result<()>)
        requires
            old(self).wf(),
        ensures
            final(self).wf(),
            r is Ok <==> old(self).in_range(seq) && old(self).holds(seq),
            r matches Err(e) ==> e == Error::SequenceOutOfRange,
            r is Ok ==> final(self).entry(Self::slot(seq)) == (WindowEntry {
                sent_time,
                transmit_count: (if old(self).entry(Self::slot(seq)).transmit_count == 255 {
                    255u8
                } else {
                    (old(self).entry(Self::slot(seq)).transmit_count + 1) as u8
                }),
                ..old(self).entry(Self::slot(seq))
            }),
            forall|i: int|
                0 <= i < W && !(r is Ok && i == Self::slot(seq)) ==> final(self).entry(i) == old(self).entry(i),
            final(self).spec_base() == old(self).spec_base(),
            final(self).spec_next() == old(self).spec_next(),
            final(self).spec_in_flight() == old(self).spec_in_flight(),
            final(self).limit() == old(self).limit(),
            old(self).consistent() ==> final(self).consistent(),
    {
        let diff = seq.wrapping_sub(self.base_seq);
        if diff > HALF_RANGE || (diff as usize) >= self.window_size {
            return Err(Error::SequenceOutOfRange);
        }
        let index = (seq as usize) % W;
        if self.entries[index].in_use && self.entries[index].sequence == seq {
            let count = self.entries[index].transmit_count;
            self.entries[index].transmit_count = if count == 255 {
                255
            } else {
                count + 1
            };
            self.entries[index].sent_time = sent_time;
            proof {
                let before = old(self).entries@;
                assert(self.entries@ =~= before.update(index as int, self.entries@[index as int]));
                lemma_count_update(before, W as int, index as int, self.entries@[index as int]);
                if old(self).consistent() {
                    assert forall|k: int| 0 <= k < self.in_flight implies self.holds(
                        #[trigger] seq_plus(self.base_seq, k),
                    ) by {
                        assert(old(self).holds(seq_plus(self.base_seq, k)));
                    }
                    assert forall|i: int|
                        0 <= i < W && (#[trigger] self.entries@[i]).in_use implies self.in_window(
                        self.entries@[i].sequence,
                    ) && Self::slot(self.entries@[i].sequence) == i by {
                        assert(before[i].in_use);
                    }
                }
            }
            Ok(())
        } else {
            Err(Error::SequenceOutOfRange)
        }
    }

    /// Forgets all frames and starts over at `initial_seq`. The limit
    /// stays.
    pub fn reset(&mut self, initial_seq: u32)
        requires
            old(self).wf(),
        ensures
            final(self).wf(),
            final(self).spec_base() == initial_seq,
            final(self).spec_next() == initial_seq,
            final(self).spec_in_flight() == 0,
            final(self).limit() == old(self).limit(),
            forall|i: int| 0 <= i < W ==> final(self).entry(i).is_blank(),
            final(self).consistent(),
    {
        let mut i: usize = 0;
        while i < W
            invariant
                i <= W,
                self.window_size == old(self).window_size,
                forall|k: int| 0 <= k < i ==> (#[trigger] self.entries@[k]).is_blank(),
            decreases W - i,
        {
            self.entries[i] = WindowEntry::new();
            i = i + 1;
        }
        self.base_seq = initial_seq;
        self.next_seq = initial_seq;
        self.in_flight = 0;
        proof {
            lemma_count_none(self.entries@, W as int);
        }
    }

    /// The number of frames in flight is the number of entries that hold
    /// a frame still waiting for its acknowledgment, and the next sequence
    /// number lies that many steps after the base.
    ///
    /// This is so as long as no frame in the window is marked by a
    /// selective acknowledgment: such a frame is in flight until the
    /// window moves past it, but waits no more.
    pub proof fn lemma_in_flight_counts_waiting(&self)
        requires
            self.wf(),
            self.consistent(),
            forall|i: int| 0 <= i < W && (#[trigger] self.entry(i)).in_use ==> !self.entry(i).acked,
        ensures
            self.spec_in_flight() == count_pending(self.entries(), W as int),
            distance(self.spec_base(), self.spec_next()) == self.spec_in_flight(),
    {
        assert forall|i: int| 0 <= i < W && (#[trigger] self.entries@[i]).in_use implies
            !self.entries@[i].acked by {
            assert(self.entry(i).in_use);
        }
        lemma_count_unacked(self.entries@, W as int);
    }

    /// Whatever has been acknowledged one by one, the frames in flight
    /// are the entries that hold a frame, and those that wait are among
    /// them.
    pub proof fn lemma_in_flight_counts_held(&self)
        requires
            self.wf(),
            self.consistent(),
        ensures
            self.spec_in_flight() == count_in_use(self.entries(), W as int),
            count_pending(self.entries(), W as int) <= self.spec_in_flight(),
            distance(self.spec_base(), self.spec_next()) == self.spec_in_flight(),
    {
        if W > 0 {
            lemma_count_update(self.entries@, W as int, 0, self.entries@[0]);
        }
    }

    /// Whether slot `i` is the slot of one of the `steps` sequence numbers
    /// from `start` on.
    pub open spec fn visits(start: u32, steps: int, i: int) -> bool {
        exists|k: int| 0 <= k < steps && Self::slot(seq_plus(start, k)) == i
    }

    /// One more step visits one more slot.
    proof fn lemma_visits_step(start: u32, steps: int, i: int)
        requires
            0 <= steps,
        ensures
            Self::visits(start, steps + 1, i) == (Self::visits(start, steps, i) || Self::slot(
                seq_plus(start, steps),
            ) == i),
    {
        if Self::visits(start, steps, i) {
            let k = choose|k: int| 0 <= k < steps && Self::slot(seq_plus(start, k)) == i;
            assert(0 <= k < steps + 1 && Self::slot(seq_plus(start, k)) == i);
        }
        if Self::slot(seq_plus(start, steps)) == i {
            assert(0 <= steps < steps + 1 && Self::slot(seq_plus(start, steps)) == i);
        }
        if Self::visits(start, steps + 1, i) {
            let k = choose|k: int| 0 <= k < steps + 1 && Self::slot(seq_plus(start, k)) == i;
            if k != steps {
                assert(0 <= k < steps && Self::slot(seq_plus(start, k)) == i);
            }
        }
    }

    /// Freeing the slot of the next sequence number keeps the entries what
    /// they were at first, but for the slots visited, which are free.
    proof fn lemma_retire_step(
        first: Seq<WindowEntry<F>>,
        before: Seq<WindowEntry<F>>,
        after: Seq<WindowEntry<F>>,
        start: u32,
        steps: int,
    )
        requires
            W > 0,
            0 <= steps,
            first.len() == W,
            before.len() == W,
            after.len() == W,
            forall|i: int|
                0 <= i < W ==> #[trigger] before[i] == (if Self::visits(start, steps, i) {
                    retired(first[i])
                } else {
                    first[i]
                }),
            forall|i: int|
                0 <= i < W ==> #[trigger] after[i] == (if i == Self::slot(seq_plus(start, steps)) {
                    retired(before[i])
                } else {
                    before[i]
                }),
        ensures
            forall|i: int|
                0 <= i < W ==> #[trigger] after[i] == (if Self::visits(start, steps + 1, i) {
                    retired(first[i])
                } else {
                    first[i]
                }),
    {
        assert forall|i: int| 0 <= i < W implies #[trigger] after[i] == (if Self::visits(
            start,
            steps + 1,
            i,
        ) {
            retired(first[i])
        } else {
            first[i]
        }) by {
            Self::lemma_visits_step(start, steps, i);
            assert(before[i] == (if Self::visits(start, steps, i) {
                retired(first[i])
            } else {
                first[i]
            }));
            assert(retired(retired(first[i])) == retired(first[i]));
        }
    }

    /// How many sequence numbers a cumulative acknowledgment of `ack_seq`
    /// moves the window past: none where `ack_seq` lies before the base,
    /// else all up to and including `ack_seq`, but at most those in
    /// flight.
    pub open spec fn passed_by(&self, ack_seq: u32) -> int {
        if distance(self.spec_base(), ack_seq) > HALF_RANGE {
            0
        } else if distance(self.spec_base(), ack_seq) + 1 < self.spec_in_flight() {
            distance(self.spec_base(), ack_seq) + 1
        } else {
            self.spec_in_flight() as int
        }
    }

    /// Whether slot `i` is the slot of a sequence number that a cumulative
    /// acknowledgment of `ack_seq` moves the window past.
    pub open spec fn passes_slot(&self, ack_seq: u32, i: int) -> bool {
        Self::visits(self.spec_base(), self.passed_by(ack_seq), i)
    }
}

/// A walk over the frames of a send window that are due to be sent
/// again.
pub struct RetransmitIter<'a, const W: usize, const F: usize> {
    window: &'a SendWindow<W, F>,
    current_seq: u32,
    current_time: u64,
    timeout: u64,
    max_retransmit: u8,
}

/// Whether an entry holds frame `seq`, waiting, last sent at least
/// `timeout` before `now`.
pub open spec fn is_due<const F: usize>(e: WindowEntry<F>, seq: u32, now: u64, timeout: u64) -> bool {
    &&& e.in_use
    &&& !e.acked
    &&& e.sequence == seq
    &&& now.saturating_sub(e.sent_time) >= timeout
}

impl<'a, const W: usize, const F: usize> RetransmitIter<'a, W, F> {
    /// The window that is walked over.
    pub closed spec fn window(&self) -> SendWindow<W, F> {
        *self.window
    }

    /// The sequence number that is looked at next.
    pub closed spec fn position(&self) -> u32 {
        self.current_seq
    }

    pub closed spec fn now(&self) -> u64 {
        self.current_time
    }

    pub closed spec fn timeout(&self) -> u64 {
        self.timeout
    }

    pub closed spec fn max_retransmit(&self) -> u8 {
        self.max_retransmit
    }

    /// Whether the walk is inside its window: the window is well formed,
    /// and the position lies between its base and its next sequence
    /// number.
    pub closed spec fn wf(&self) -> bool {
        &&& self.window.wf()
        &&& distance(self.window.base_seq, self.current_seq) <= self.window.in_flight
    }

    /// Whether frame `seq` is due in the window walked over.
    pub open spec fn due(&self, seq: u32) -> bool {
        is_due(self.window().entry(SendWindow::<W, F>::slot(seq)), seq, self.now(), self.timeout())
    }

    /// The next frame that is due, with whether it has been sent as often
    /// as allowed; nothing when the walk has reached the end of the
    /// window.
    pub fn next(&mut self) -> (r: Option<(u32, bool)>)
        requires
            old(self).wf(),
        ensures
            final(self).wf(),
            final(self).window() == old(self).window(),
            final(self).now() == old(self).now(),
            final(self).timeout() == old(self).timeout(),
            final(self).max_retransmit() == old(self).max_retransmit(),
            match r {
                Some((seq, exceeded)) => {
                    &&& old(self).window().in_window(seq)
                    &&& distance(old(self).position(), seq) < distance(
                        old(self).position(),
                        old(self).window().spec_next(),
                    )
                    &&& old(self).due(seq)
                    &&& exceeded == (old(self).window().entry(
                        SendWindow::<W, F>::slot(seq),
                    ).transmit_count >= old(self).max_retransmit())
                    &&& final(self).position() == seq.wrapping_add(1)
                    &&& forall|k: int|
                        0 <= k < distance(old(self).position(), seq) ==> !old(self).due(
                            #[trigger] seq_plus(old(self).position(), k),
                        )
                },
                None => {
                    &&& final(self).position() == old(self).window().spec_next()
                    &&& forall|k: int|
                        0 <= k < distance(old(self).position(), old(self).window().spec_next())
                            ==> !old(self).due(#[trigger] seq_plus(old(self).position(), k))
                },
            },
    {
        let ghost start = self.current_seq;
        let ghost mut walked: int = 0;
        while self.current_seq != self.window.next_seq
            invariant
                self.wf(),
                self.window == old(self).window,
                self.current_time == old(self).current_time,
                self.timeout == old(self).timeout,
                self.max_retransmit == old(self).max_retransmit,
                start == old(self).current_seq,
                0 <= walked <= distance(start, self.window.next_seq),
                self.current_seq == seq_plus(start, walked),
                distance(self.window.base_seq, start) + walked == distance(
                    self.window.base_seq,
                    self.current_seq,
                ),
                distance(self.window.base_seq, start) + distance(start, self.window.next_seq)
                    == self.window.in_flight,
                forall|k: int| 0 <= k < walked ==> !old(self).due(#[trigger] seq_plus(start, k)),
            decreases distance(start, self.window.next_seq) - walked,
        {
            let seq = self.current_seq;
            self.current_seq = self.current_seq.wrapping_add(1);
            let index = (seq as usize) % W;
            let entry = &self.window.entries[index];
            if entry.in_use && !entry.acked && entry.sequence == seq {
                if self.current_time.saturating_sub(entry.sent_time) >= self.timeout {
                    let exceeded = entry.transmit_count >= self.max_retransmit;
                    return Some((seq, exceeded));
                }
            }
            proof {
                walked = walked + 1;
            }
        }
        None
    }
}

/// Which sequence numbers have arrived, `W` marks. The mark of sequence
/// number `s` is kept in slot `s mod W`.
#[derive(Debug)]
pub struct ReceiveWindow<const W: usize> {
    received: [bool; W],
    /// The sequence number that is awaited next.
    expected_seq: u32,
    /// The sequence number farthest ahead that has arrived.
    highest_received: u32,
    window_size: usize,
}

impl<const W: usize> ReceiveWindow<W> {
    /// The slot of sequence number `seq`.
    pub open spec fn slot(seq: u32) -> int {
        (seq as int) % (W as int)
    }

    /// The mark in slot `i`.
    pub closed spec fn mark(&self, i: int) -> bool {
        self.received@[i]
    }

    /// All `W` marks.
    pub closed spec fn marks(&self) -> Seq<bool> {
        self.received@
    }

    pub closed spec fn spec_expected(&self) -> u32 {
        self.expected_seq
    }

    pub closed spec fn spec_highest(&self) -> u32 {
        self.highest_received
    }

    /// Number of sequence numbers that the window spans.
    pub closed spec fn limit(&self) -> usize {
        self.window_size
    }

    /// Whether the window is no wider than its marks and than half the
    /// range of sequence numbers.
    pub closed spec fn wf(&self) -> bool {
        self.window_size <= W && self.window_size <= HALF_RANGE
    }

    /// What `wf` says, for those who cannot look inside.
    pub proof fn lemma_wf(&self)
        requires
            self.wf(),
        ensures
            self.limit() <= W,
            self.limit() <= HALF_RANGE,
            self.marks().len() == W,
            forall|i: int| 0 <= i < W ==> self.mark(i) == self.marks()[i],
    {
    }

    /// Whether the slot of `seq` is marked.
    pub open spec fn marked(&self, seq: u32) -> bool {
        W > 0 && self.mark(Self::slot(seq))
    }

    /// Whether `seq` lies in the window: fewer than `limit` steps after
    /// the sequence number awaited.
    pub open spec fn spans(&self, seq: u32) -> bool {
        distance(self.spec_expected(), seq) < self.limit()
    }

    /// Whether `seq` lies before the window, by fewer steps than the
    /// window spans.
    pub open spec fn just_passed(&self, seq: u32) -> bool {
        0 < distance(seq, self.spec_expected()) < self.limit()
    }

    /// The limit of a window made for `window_size` sequence numbers: that
    /// number, or `W`, or half the range of sequence numbers, whichever is
    /// least.
    pub open spec fn limit_for(window_size: usize) -> usize {
        if window_size <= W && window_size <= HALF_RANGE {
            window_size
        } else if W <= HALF_RANGE {
            W
        } else {
            HALF_RANGE as usize
        }
    }

    /// A window that spans `window_size` sequence numbers and awaits
    /// `initial_seq`. Nothing has arrived: the number farthest ahead is
    /// the one before `initial_seq`.
    pub fn new(window_size: usize, initial_seq: u32) -> (w: Self)
        ensures
            w.wf(),
            w.spec_expected() == initial_seq,
            w.spec_highest() == initial_seq.wrapping_sub(1),
            w.limit() == Self::limit_for(window_size),
            forall|i: int| 0 <= i < W ==> !w.mark(i),
    {
        let half = HALF_RANGE as usize;
        let capped = if window_size < W {
            window_size
        } else {
            W
        };
        ReceiveWindow {
            received: [false;W],
            expected_seq: initial_seq,
            highest_received: initial_seq.wrapping_sub(1),
            window_size: if capped < half {
                capped
            } else {
                half
            },
        }
    }

    #[verifier::when_used_as_spec(spec_expected)]
    pub fn expected_sequence(&self) -> (s: u32)
        ensures
            s == self.spec_expected(),
    {
        self.expected_seq
    }

    #[verifier::when_used_as_spec(spec_highest)]
    pub fn highest_received(&self) -> (s: u32)
        ensures
            s == self.spec_highest(),
    {
        self.highest_received
    }

    /// Whether `seq` lies in the window.
    pub fn is_in_window(&self, seq: u32) -> (b: bool)
        ensures
            b == self.spans(seq),
    {
        let diff = seq.wrapping_sub(self.expected_seq);
        (diff as usize) < self.window_size
    }

    /// Whether `after` is `self` with frame `seq` noted as new: its mark is
    /// set, and it is the one farthest ahead if it lies ahead of the one
    /// that was.
    pub open spec fn noted(&self, after: &Self, seq: u32) -> bool {
        &&& after.limit() == self.limit()
        &&& after.spec_expected() == self.spec_expected()
        &&& after.marks() == self.marks().update(Self::slot(seq), true)
        &&& after.marked(seq)
        &&& forall|i: int| 0 <= i < W && i != Self::slot(seq) ==> after.mark(i) == self.mark(i)
        &&& after.spec_highest() == (if 0 < distance(self.spec_highest(), seq) < HALF_RANGE {
            seq
        } else {
            self.spec_highest()
        })
    }

    /// What noting the arrival of frame `seq` comes to: `true` for a frame
    /// in the window that is new, `false` for one that has arrived
    /// before, be it in the window or just passed, and an error for any
    /// other.
    pub open spec fn verdict(&self, seq: u32) -> core::result::Result<bool, Error> {
        if self.spans(seq) {
            Ok(!self.marked(seq))
        } else if self.just_passed(seq) {
            Ok(false)
        } else {
            Err(Error::SequenceOutOfRange)
        }
    }

    /// Notes that frame `seq` has arrived. Says `true` for a frame in the
    /// window that is new, `false` for one that has arrived before, be it
    /// in the window or just passed, and fails for any other.
    pub fn receive(&mut self, seq: u32) -> (r: Result<bool>)
        requires
            old(self).wf(),
        ensures
            final(self).wf(),
            final(self).limit() == old(self).limit(),
            final(self).spec_expected() == old(self).spec_expected(),
            r == old(self).verdict(seq),
            r == Ok::<bool, Error>(true) ==> old(self).noted(final(self), seq),
            r != Ok::<bool, Error>(true) ==> *final(self) == *old(self),
    {
        if !self.is_in_window(seq) {
            let diff = self.expected_seq.wrapping_sub(seq);
            if (diff as usize) < self.window_size && diff > 0 {
                return Ok(false);
            }
            return Err(Error::SequenceOutOfRange);
        }
        let index = (seq as usize) % W;
        if self.received[index] {
            return Ok(false);
        }
        self.received[index] = true;
        let diff = seq.wrapping_sub(self.highest_received);
        if diff < HALF_RANGE && diff > 0 {
            self.highest_received = seq;
        }
        Ok(true)
    }

    /// Whether slot `i` is the slot of one of the `steps` sequence numbers
    /// from the one awaited on.
    pub open spec fn within_steps(&self, steps: int, i: int) -> bool {
        exists|j: int| 0 <= j < steps && Self::slot(seq_plus(self.spec_expected(), j)) == i
    }

    /// Number of marks that `self` has and `after` has no more.
    pub open spec fn marks_taken(&self, after: &Self) -> int {
        count_marked(self.marks(), W as int) - count_marked(after.marks(), W as int)
    }

    /// Whether `after` is `self` slid past the frames that have arrived
    /// without a gap: the window has moved one step for every mark taken,
    /// every sequence number passed was marked, the one reached is not,
    /// and no other mark has changed.
    pub open spec fn slid(&self, after: &Self) -> bool {
        &&& after.limit() == self.limit()
        &&& after.spec_highest() == self.spec_highest()
        &&& !after.marked(after.spec_expected())
        &&& 0 <= self.marks_taken(after) <= W
        &&& after.spec_expected() == seq_plus(self.spec_expected(), self.marks_taken(after))
        &&& forall|j: int|
            0 <= j < self.marks_taken(after) ==> self.marked(
                #[trigger] seq_plus(self.spec_expected(), j),
            )
        &&& forall|i: int|
            0 <= i < W ==> after.mark(i) == (self.mark(i) && !self.within_steps(
                self.marks_taken(after),
                i,
            ))
    }

    /// Slides the window past the frames that have arrived without a gap,
    /// takes their marks away, and returns the sequence number awaited
    /// now: the one to acknowledge.
    ///
    /// The window moves one step for every mark taken. Every sequence
    /// number passed was marked, and the one reached is not.
    pub fn advance(&mut self) -> (next: u32)
        requires
            old(self).wf(),
        ensures
            final(self).wf(),
            old(self).slid(final(self)),
            final(self).limit() == old(self).limit(),
            final(self).spec_highest() == old(self).spec_highest(),
            next == final(self).spec_expected(),
            !final(self).marked(next),
            0 <= old(self).marks_taken(final(self)) <= W,
            next == seq_plus(old(self).spec_expected(), old(self).marks_taken(final(self))),
            forall|j: int|
                0 <= j < old(self).marks_taken(final(self)) ==> old(self).marked(
                    #[trigger] seq_plus(old(self).spec_expected(), j),
                ),
            forall|i: int|
                0 <= i < W ==> final(self).mark(i) == (old(self).mark(i) && !old(self).within_steps(
                    old(self).marks_taken(final(self)),
                    i,
                )),
    {
        if W == 0 {
            return self.expected_seq;
        }
        let ghost mut steps: int = 0;
        proof {
            lemma_count_marked_update(self.received@, W as int, 0, self.received@[0]);
        }
        while self.received[(self.expected_seq as usize) % W]
            invariant
                W > 0,
                self.wf(),
                self.window_size == old(self).window_size,
                self.highest_received == old(self).highest_received,
                0 <= steps <= W,
                self.expected_seq == seq_plus(old(self).expected_seq, steps),
                steps == count_marked(old(self).received@, W as int) - count_marked(
                    self.received@,
                    W as int,
                ),
                0 <= count_marked(self.received@, W as int),
                count_marked(old(self).received@, W as int) <= W,
                forall|j: int|
                    0 <= j < steps ==> old(self).marked(
                        #[trigger] seq_plus(old(self).expected_seq, j),
                    ),
                forall|i: int|
                    0 <= i < W ==> #[trigger] self.received@[i] == (old(self).received@[i]
                        && !old(self).within_steps(steps, i)),
            decreases count_marked(self.received@, W as int),
        {
            let index = (self.expected_seq as usize) % W;
            let ghost before = self.received@;
            self.received[index] = false;
            proof {
                lemma_count_marked_update(before, W as int, index as int, false);
                assert(self.received@ =~= before.update(index as int, false));
                lemma_count_marked_update(self.received@, W as int, index as int, false);
                assert(Self::slot(seq_plus(old(self).expected_seq, steps)) == index);
                assert(old(self).received@[index as int]);
            }
            self.expected_seq = self.expected_seq.wrapping_add(1);
            proof {
                let start = old(self).expected_seq;
                assert forall|i: int| 0 <= i < W implies #[trigger] self.received@[i]
                    == (old(self).received@[i] && !old(self).within_steps(steps + 1, i)) by {
                    if old(self).within_steps(steps, i) {
                        let j = choose|j: int| 0 <= j < steps && Self::slot(seq_plus(start, j)) == i;
                        assert(0 <= j < steps + 1 && Self::slot(seq_plus(start, j)) == i);
                    }
                    if i == index {
                        assert(0 <= steps < steps + 1 && Self::slot(seq_plus(start, steps)) == i);
                    }
                    if i != index && old(self).within_steps(steps + 1, i) {
                        let j = choose|j: int|
                            0 <= j < steps + 1 && Self::slot(seq_plus(start, j)) == i;
                        assert(j != steps);
                        assert(0 <= j < steps && Self::slot(seq_plus(start, j)) == i);
                    }
                }
                steps = steps + 1;
            }
        }
        self.expected_seq
    }

    /// Whether frame `seq` is missed: it lies before the one farthest
    /// ahead that has arrived, and is not marked.
    pub open spec fn is_missing(&self, seq: u32) -> bool {
        distance(self.spec_highest(), seq) > HALF_RANGE && !self.marked(seq)
    }

    /// The frames missed among the first `n` of the window, in order.
    pub open spec fn missing_among(&self, n: int) -> Seq<u32>
        decreases n,
    {
        if n <= 0 {
            Seq::<u32>::empty()
        } else {
            let seq = seq_plus(self.spec_expected(), n - 1);
            if self.is_missing(seq) {
                self.missing_among(n - 1).push(seq)
            } else {
                self.missing_among(n - 1)
            }
        }
    }

    /// The frames of the window that are missed, in order: those to ask
    /// for again.
    pub fn missing_sequences(&self) -> (missing: Vec<u32>)
        requires
            self.wf(),
        ensures
            missing@ == self.missing_among(self.limit() as int),
    {
        let mut missing: Vec<u32> = Vec::new();
        let mut offset: usize = 0;
        while offset < self.window_size
            invariant
                self.wf(),
                offset <= self.window_size,
                missing@ == self.missing_among(offset as int),
            decreases self.window_size - offset,
        {
            let seq = self.expected_seq.wrapping_add(offset as u32);
            assert(seq == seq_plus(self.expected_seq, offset as int));
            let diff = seq.wrapping_sub(self.highest_received);
            if diff > HALF_RANGE {
                let index = (seq as usize) % W;
                if !self.received[index] {
                    missing.push(seq);
                }
            }
            offset = offset + 1;
        }
        missing
    }

    /// Forgets all marks and awaits `initial_seq`. The span stays.
    pub fn reset(&mut self, initial_seq: u32)
        requires
            old(self).wf(),
        ensures
            final(self).wf(),
            final(self).spec_expected() == initial_seq,
            final(self).spec_highest() == initial_seq.wrapping_sub(1),
            final(self).limit() == old(self).limit(),
            forall|i: int| 0 <= i < W ==> !final(self).mark(i),
    {
        self.received = [false;W];
        self.expected_seq = initial_seq;
        self.highest_received = initial_seq.wrapping_sub(1);
    }

    /// After `advance`, the sequence number awaited is the first one, from
    /// the one awaited before, whose mark was not set: every sequence
    /// number passed was marked, and the one reached was not.
    ///
    /// This speaks of windows whose slots never run into each other, and
    /// of marks of which at least one was not set: where all `W` marks are
    /// set, the window goes once around and stops where it started.
    #[verifier::rlimit(40)]
    pub proof fn lemma_advance_stops_at_first_gap(before: Self, after: Self, steps: int)
        requires
            W > 0,
            0x1_0000_0000int % (W as int) == 0,
            before.wf(),
            0 <= steps < W,
            after.spec_expected() == seq_plus(before.spec_expected(), steps),
            forall|j: int|
                0 <= j < steps ==> before.marked(#[trigger] seq_plus(before.spec_expected(), j)),
            !after.marked(after.spec_expected()),
            forall|i: int|
                0 <= i < W ==> after.mark(i) == (before.mark(i) && !before.within_steps(steps, i)),
        ensures
            !before.marked(after.spec_expected()),
            forall|s: u32|
                distance(before.spec_expected(), s) < distance(
                    before.spec_expected(),
                    after.spec_expected(),
                ) ==> before.marked(s),
    {
        let start = before.spec_expected();
        let reached = after.spec_expected();
        assert(!before.marked(reached)) by {
            let i = Self::slot(reached);
            assert(0 <= i < W) by (nonlinear_arith)
                requires
                    i == (reached as int) % (W as int),
                    W > 0,
                    reached >= 0,
            ;
            if before.within_steps(steps, i) {
                let j = choose|j: int| 0 <= j < steps && Self::slot(seq_plus(start, j)) == i;
                let p = seq_plus(start, j);
                assert(reached == seq_plus(p, steps - j));
                SendWindow::<W, 0>::lemma_slots_apart(p, steps - j);
            }
            assert(after.mark(i) == (before.mark(i) && !before.within_steps(steps, i)));
        }
        assert(W <= 0x1_0000_0000) by {
            lemma_fundamental_div_mod(0x1_0000_0000, W as int);
            let q = 0x1_0000_0000int / (W as int);
            assert(0x1_0000_0000int == (W as int) * q);
            assert((W as int) <= 0x1_0000_0000) by (nonlinear_arith)
                requires
                    0x1_0000_0000int == (W as int) * q,
                    W > 0,
            ;
        }
        assert(distance(start, reached) == steps);
        assert forall|s: u32| distance(start, s) < distance(start, reached) implies before.marked(
            s,
        ) by {
            let j = distance(start, s);
            assert(s == seq_plus(start, j));
            assert(before.marked(seq_plus(start, j)));
        }
    }
}

} // verus!
