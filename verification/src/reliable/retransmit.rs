//! Keeping track of the frames that wait for an acknowledgment.
//!
//! Times are in milliseconds, from whatever clock the caller reads.

use vstd::prelude::*;
use vstd::arithmetic::power::pow;
use crate::buffer::window::{at_or_before, HALF_RANGE};
use crate::error::{Error, Result};
use crate::math::{
    count_marked, first_such, last_such, least, lemma_count_marked_full, lemma_count_marked_step,
    lemma_count_marked_tail, lemma_count_marked_update, lemma_first_such_is, lemma_last_such_is,
};

verus! {

/// `a + 1`, or the largest number where that is `a`.
pub open spec fn bumped(a: u64) -> u64 {
    if a == u64::MAX {
        a
    } else {
        (a + 1) as u64
    }
}

/// Counts of what happened to the frames. Each count stops at the largest
/// number it can hold.
#[derive(Debug, Clone, Copy, PartialEq, Eq, Structural)]
pub struct RetransmitStats {
    /// Frames registered.
    pub frames_sent: u64,
    /// Frames sent again.
    pub retransmissions: u64,
    /// Frames given up after the last attempt allowed.
    pub failed_frames: u64,
    /// Frames acknowledged.
    pub successful_deliveries: u64,
}

impl RetransmitStats {
    /// Whether all counts are zero.
    pub open spec fn is_zero(&self) -> bool {
        &&& self.frames_sent == 0
        &&& self.retransmissions == 0
        &&& self.failed_frames == 0
        &&& self.successful_deliveries == 0
    }

    pub fn new() -> (s: Self)
        ensures
            s.is_zero(),
    {
        RetransmitStats {
            frames_sent: 0,
            retransmissions: 0,
            failed_frames: 0,
            successful_deliveries: 0,
        }
    }

    /// Sets all counts to zero.
    pub fn reset(&mut self)
        ensures
            final(self).is_zero(),
    {
        *self = RetransmitStats::new();
    }
}

impl Default for RetransmitStats {
    fn default() -> (s: Self)
        ensures
            s.is_zero(),
    {
        RetransmitStats::new()
    }
}

/// One frame that waits for its acknowledgment.
#[derive(Debug, Clone, Copy, PartialEq, Eq, Structural)]
pub struct PendingFrame {
    pub sequence: u32,
    /// When the frame was last sent.
    pub last_sent: u64,
    /// How often the frame was sent.
    pub attempts: u8,
    pub active: bool,
}

impl PendingFrame {
    /// A frame that has just been sent for the first time.
    pub fn new(sequence: u32, timestamp: u64) -> (f: Self)
        ensures
            f == (PendingFrame { sequence, last_sent: timestamp, attempts: 1, active: true }),
    {
        PendingFrame { sequence, last_sent: timestamp, attempts: 1, active: true }
    }

    /// A free slot.
    pub fn empty() -> (f: Self)
        ensures
            f == (PendingFrame { sequence: 0, last_sent: 0, attempts: 0, active: false }),
    {
        PendingFrame { sequence: 0, last_sent: 0, attempts: 0, active: false }
    }

    /// Whether the frame waits and was last sent `timeout` or more before
    /// `now`.
    pub open spec fn expired(&self, now: u64, timeout: u64) -> bool {
        self.active && now.saturating_sub(self.last_sent) >= timeout
    }
}

/// `a * b`, or the largest number where that is too large.
pub open spec fn times(a: u64, b: u64) -> u64 {
    if a * b > u64::MAX {
        u64::MAX
    } else {
        (a * b) as u64
    }
}

/// The timeout that follows a round trip of `rtt_ms`: one and a half times
/// as long, or the largest number where that is too large.
pub open spec fn timeout_for(rtt_ms: u64) -> u64 {
    if rtt_ms + rtt_ms / 2 > u64::MAX {
        u64::MAX
    } else {
        (rtt_ms + rtt_ms / 2) as u64
    }
}

/// How long to wait for an acknowledgment: longer after every timeout,
/// up to a limit.
#[derive(Debug, Clone, Copy, PartialEq, Eq, Structural)]
pub struct RetransmitTimer {
    base_timeout: u64,
    max_timeout: u64,
    current_timeout: u64,
    backoff_factor: u8,
}

impl RetransmitTimer {
    pub closed spec fn base(&self) -> u64 {
        self.base_timeout
    }

    pub closed spec fn max(&self) -> u64 {
        self.max_timeout
    }

    pub closed spec fn current(&self) -> u64 {
        self.current_timeout
    }

    pub closed spec fn factor(&self) -> u8 {
        self.backoff_factor
    }

    /// The timer after one more timeout: the timeout is multiplied by the
    /// factor and cut at the limit.
    pub closed spec fn backed_off(self) -> Self {
        RetransmitTimer {
            current_timeout: least(
                times(self.current_timeout, self.backoff_factor as u64) as int,
                self.max_timeout as int,
            ) as u64,
            ..self
        }
    }

    /// The timer after `k` timeouts in a row.
    pub open spec fn backed_off_times(self, k: nat) -> Self
        decreases k,
    {
        if k == 0 {
            self
        } else {
            self.backed_off_times((k - 1) as nat).backed_off()
        }
    }

    /// The timer after an acknowledgment that took `rtt_ms` to come: the
    /// timeout starts again from one and a half round trips.
    pub closed spec fn acknowledged(self, rtt_ms: u64) -> Self {
        RetransmitTimer {
            base_timeout: timeout_for(rtt_ms),
            current_timeout: timeout_for(rtt_ms),
            ..self
        }
    }

    /// What the spec functions above say, for those who cannot look
    /// inside.
    pub proof fn lemma_steps(self, rtt_ms: u64)
        ensures
            self.backed_off().base() == self.base(),
            self.backed_off().max() == self.max(),
            self.backed_off().factor() == self.factor(),
            self.backed_off().current() == least(
                times(self.current(), self.factor() as u64) as int,
                self.max() as int,
            ),
            self.acknowledged(rtt_ms).base() == timeout_for(rtt_ms),
            self.acknowledged(rtt_ms).current() == timeout_for(rtt_ms),
            self.acknowledged(rtt_ms).max() == self.max(),
            self.acknowledged(rtt_ms).factor() == self.factor(),
    {
    }

    /// A timer that starts at `base_timeout`.
    pub fn new(base_timeout: u64, max_timeout: u64, backoff_factor: u8) -> (t: Self)
        ensures
            t.base() == base_timeout,
            t.max() == max_timeout,
            t.current() == base_timeout,
            t.factor() == backoff_factor,
    {
        RetransmitTimer { base_timeout, max_timeout, current_timeout: base_timeout, backoff_factor }
    }

    /// A timer that starts at one second, doubles, and stops at thirty
    /// seconds.
    pub fn default_timer() -> (t: Self)
        ensures
            t.base() == 1000,
            t.max() == 30000,
            t.current() == 1000,
            t.factor() == 2,
    {
        RetransmitTimer::new(1000, 30000, 2)
    }

    /// The timeout as it stands.
    #[verifier::when_used_as_spec(current)]
    pub fn timeout(&self) -> (t: u64)
        ensures
            t == self.current(),
    {
        self.current_timeout
    }

    /// Lengthens the timeout after a timeout.
    pub fn backoff(&mut self)
        ensures
            *final(self) == old(self).backed_off(),
    {
        let new_timeout = match self.current_timeout.checked_mul(self.backoff_factor as u64) {
            Some(t) => t,
            None => u64::MAX,
        };
        self.current_timeout = if new_timeout < self.max_timeout {
            new_timeout
        } else {
            self.max_timeout
        };
    }

    /// Sets the timeout back to where it starts, after an
    /// acknowledgment.
    pub fn reset(&mut self)
        ensures
            final(self).current() == old(self).base(),
            final(self).base() == old(self).base(),
            final(self).max() == old(self).max(),
            final(self).factor() == old(self).factor(),
    {
        self.current_timeout = self.base_timeout;
    }

    /// Lets the timeout start from one and a half times the round trip
    /// measured.
    pub fn update_rtt(&mut self, rtt_ms: u64)
        ensures
            *final(self) == old(self).acknowledged(rtt_ms),
    {
        self.base_timeout = rtt_ms.saturating_add(rtt_ms / 2);
        self.current_timeout = self.base_timeout;
    }

    /// After `k` timeouts in a row without an acknowledgment, the timeout
    /// is its starting value times the `k`-th power of the factor, or the
    /// limit where that is less.
    ///
    /// This holds from the first timeout on, and from the start where the
    /// starting value is within the limit.
    pub proof fn lemma_backoff_is_exponential(self, k: nat)
        requires
            self.current() == self.base(),
            k >= 1 || self.base() <= self.max(),
        ensures
            self.backed_off_times(k).current() == least(
                self.base() * pow(self.factor() as int, k),
                self.max() as int,
            ),
            self.backed_off_times(k).base() == self.base(),
            self.backed_off_times(k).max() == self.max(),
            self.backed_off_times(k).factor() == self.factor(),
        decreases k,
    {
        let f = self.factor() as int;
        let b = self.base() as int;
        let m = self.max() as int;
        vstd::arithmetic::power::lemma_pow0(f);
        if k == 0 {
            assert(b * 1 == b);
        } else {
            let before = self.backed_off_times((k - 1) as nat);
            before.lemma_steps(0);
            let p = pow(f, (k - 1) as nat);
            assert(pow(f, k) == f * p) by {
                reveal(pow);
            }
            assert(p >= 0) by {
                if f == 0 {
                    if k - 1 > 0 {
                        vstd::arithmetic::power::lemma0_pow((k - 1) as nat);
                    }
                } else {
                    vstd::arithmetic::power::lemma_pow_positive(f, (k - 1) as nat);
                }
            }
            let c = before.current() as int;
            if k == 1 {
                assert(before == self);
                assert(c == b);
                assert(b * p == b);
            } else {
                self.lemma_backoff_is_exponential((k - 1) as nat);
                assert(c == least(b * p, m));
            }
            assert(b * (f * p) == (b * p) * f) by (nonlinear_arith);
            if k == 1 || b * p <= m {
                assert(c == b * p);
                assert(least(times(c as u64, f as u64) as int, m) == least(c * f, m));
            } else {
                assert(c == m);
                if f == 0 {
                    assert(c * f == 0 && (b * p) * f == 0) by (nonlinear_arith)
                        requires
                            f == 0,
                    ;
                } else {
                    assert((b * p) * f >= b * p) by (nonlinear_arith)
                        requires
                            f >= 1,
                            b * p >= 0,
                    ;
                    assert(m * f >= m) by (nonlinear_arith)
                        requires
                            f >= 1,
                            m >= 0,
                    ;
                }
            }
        }
    }
}

impl Default for RetransmitTimer {
    fn default() -> (t: Self)
        ensures
            t.base() == 1000,
            t.max() == 30000,
            t.current() == 1000,
            t.factor() == 2,
    {
        RetransmitTimer::default_timer()
    }
}

/// The bounded vector of the `heapless` crate, which holds the sequence
/// numbers that one pass of a cumulative acknowledgment retires, and the
/// slots of the frames sent again that are still to be noted as such.
#[verifier::external_type_specification]
#[verifier::external_body]
#[verifier::reject_recursive_types(T)]
pub struct ExHeaplessVec<T, const N: usize>(heapless::Vec<T, N>);

/// Most sequence numbers that a batch holds.
pub const BATCH_CAPACITY: usize = 64;

/// What a batch holds, in the order in which it was pushed.
pub uninterp spec fn batch_items(batch: heapless::Vec<u32, 64>) -> Seq<u32>;

/// Calls `heapless::Vec::new`, which makes a vector that holds nothing.
#[verifier::external_body]
pub(crate) fn batch_new() -> (batch: heapless::Vec<u32, 64>)
    ensures
        batch_items(batch) == Seq::<u32>::empty(),
{
    heapless::Vec::new()
}

/// Calls `heapless::Vec::push`, which appends the item where fewer items
/// are held than the capacity of 64, and hands the item back otherwise.
#[verifier::external_body]
pub(crate) fn batch_push(batch: &mut heapless::Vec<u32, 64>, item: u32) -> (r: core::result::Result<(), u32>)
    ensures
        r is Ok <==> batch_items(*old(batch)).len() < 64,
        r is Ok ==> batch_items(*final(batch)) == batch_items(*old(batch)).push(item),
        r matches Err(back) ==> back == item && batch_items(*final(batch)) == batch_items(
            *old(batch),
        ),
{
    batch.push(item)
}

/// Calls `heapless::Vec::as_slice`, which lends the items held, in order.
#[verifier::external_body]
pub(crate) fn batch_slice(batch: &heapless::Vec<u32, 64>) -> (items: &[u32])
    ensures
        items@ == batch_items(*batch),
{
    batch.as_slice()
}

/// `a + k`, or the largest number where that is too large.
pub open spec fn bumped_by(a: u64, k: int) -> u64 {
    if a + k > u64::MAX {
        u64::MAX
    } else {
        (a + k) as u64
    }
}

/// The frame, no longer waiting.
pub open spec fn retired(f: PendingFrame) -> PendingFrame {
    PendingFrame { active: false, ..f }
}

/// The frames that wait for an acknowledgment, at most `N`, with the
/// timer that says when to send them again and the counts of what became
/// of them.
#[derive(Debug)]
pub struct RetransmitManager<const N: usize> {
    pending: [PendingFrame; N],
    count: usize,
    max_attempts: u8,
    timer: RetransmitTimer,
    stats: RetransmitStats,
}

impl<const N: usize> RetransmitManager<N> {
    /// Slot `i`.
    pub closed spec fn frame(&self, i: int) -> PendingFrame {
        self.pending@[i]
    }

    pub closed spec fn spec_count(&self) -> usize {
        self.count
    }

    pub closed spec fn spec_max_attempts(&self) -> u8 {
        self.max_attempts
    }

    pub closed spec fn spec_timer(&self) -> RetransmitTimer {
        self.timer
    }

    pub closed spec fn spec_stats(&self) -> RetransmitStats {
        self.stats
    }

    /// Which slots hold a frame that waits.
    pub open spec fn active_marks(&self) -> Seq<bool> {
        Seq::new(N as nat, |i: int| self.frame(i).active)
    }

    /// Whether the number of frames counted is the number of frames that
    /// wait.
    pub closed spec fn wf(&self) -> bool {
        self.count == count_marked(self.active_marks(), N as int)
    }

    /// What `wf` says, for those who cannot look inside.
    pub proof fn lemma_wf(&self)
        requires
            self.wf(),
        ensures
            self.spec_count() == count_marked(self.active_marks(), N as int),
            self.spec_count() <= N,
    {
        lemma_count_marked_full(self.active_marks(), N as int);
    }

    /// Whether `self` and `other` have the same frames but for slot `i`.
    pub open spec fn same_but(&self, other: &Self, i: int) -> bool {
        forall|j: int| 0 <= j < N && j != i ==> self.frame(j) == other.frame(j)
    }

    /// The first free slot, or `N`.
    pub open spec fn free_at(&self) -> int {
        first_such(N as int, |i: int| !self.frame(i).active)
    }

    /// The first slot that holds frame `sequence` waiting, or `N`.
    pub open spec fn waiting_at(&self, sequence: u32) -> int {
        first_such(N as int, |i: int| self.frame(i).active && self.frame(i).sequence == sequence)
    }

    /// A manager that gives a frame up once it has been sent
    /// `max_attempts` times.
    pub fn new(max_attempts: u8, timer: RetransmitTimer) -> (m: Self)
        ensures
            m.wf(),
            m.spec_count() == 0,
            m.spec_max_attempts() == max_attempts,
            m.spec_timer() == timer,
            m.spec_stats().is_zero(),
            forall|i: int| 0 <= i < N ==> m.frame(i) == (PendingFrame {
                sequence: 0,
                last_sent: 0,
                attempts: 0,
                active: false,
            }),
    {
        let m = RetransmitManager {
            pending: [PendingFrame::empty();N],
            count: 0,
            max_attempts,
            timer,
            stats: RetransmitStats::new(),
        };
        proof {
            lemma_count_marked_full(m.active_marks(), N as int);
        }
        m
    }

    /// A manager that gives a frame up after five attempts, with the
    /// default timer.
    pub fn with_defaults() -> (m: Self)
        ensures
            m.wf(),
            m.spec_count() == 0,
            m.spec_max_attempts() == 5,
            m.spec_timer().base() == 1000,
            m.spec_timer().max() == 30000,
            m.spec_timer().current() == 1000,
            m.spec_timer().factor() == 2,
            m.spec_stats().is_zero(),
    {
        RetransmitManager::new(5, RetransmitTimer::default_timer())
    }

    /// Notes that frame `sequence` has been sent at `timestamp` and waits
    /// for its acknowledgment. Fails where no slot is free.
    pub fn register(&mut self, sequence: u32, timestamp: u64) -> (r: Result<()>)
        requires
            old(self).wf(),
        ensures
            final(self).wf(),
            final(self).spec_max_attempts() == old(self).spec_max_attempts(),
            final(self).spec_timer() == old(self).spec_timer(),
            old(self).free_at() == N ==> r == Err::<(), Error>(Error::BufferFull) && *final(self)
                == *old(self),
            old(self).free_at() < N ==> {
                &&& r is Ok
                &&& final(self).same_but(old(self), old(self).free_at())
                &&& final(self).frame(old(self).free_at()) == (PendingFrame {
                    sequence,
                    last_sent: timestamp,
                    attempts: 1,
                    active: true,
                })
                &&& final(self).spec_count() == old(self).spec_count() + 1
                &&& final(self).spec_stats() == (RetransmitStats {
                    frames_sent: bumped(old(self).spec_stats().frames_sent),
                    ..old(self).spec_stats()
                })
            },
    {
        let ghost free = |i: int| !self.frame(i).active;
        let mut i: usize = 0;
        while i < N
            invariant
                i <= N,
                self.wf(),
                *self == *old(self),
                free == (|i: int| !self.frame(i).active),
                forall|j: int| 0 <= j < i ==> !#[trigger] free(j),
            decreases N - i,
        {
            if !self.pending[i].active {
                proof {
                    assert(free(i as int));
                    lemma_first_such_is(N as int, free, i as int);
                    lemma_count_marked_full(self.active_marks(), N as int);
                    assert(!self.active_marks()[i as int]);
                    lemma_count_marked_update(self.active_marks(), N as int, i as int, true);
                }
                let ghost marks = self.active_marks();
                self.pending[i] = PendingFrame::new(sequence, timestamp);
                self.count = self.count + 1;
                self.stats.frames_sent = self.stats.frames_sent.saturating_add(1);
                proof {
                    assert(self.active_marks() =~= marks.update(i as int, true));
                }
                return Ok(());
            }
            assert(!free(i as int));
            i = i + 1;
        }
        proof {
            lemma_first_such_is(N as int, free, N as int);
        }
        Err(Error::BufferFull)
    }

    /// Takes frame `sequence` off the list, as acknowledged at
    /// `current_time`, and returns how long the acknowledgment took. The
    /// timer starts again from one and a half times that long. Nothing
    /// happens where no such frame waits.
    pub fn acknowledge(&mut self, sequence: u32, current_time: u64) -> (r: Option<u64>)
        requires
            old(self).wf(),
        ensures
            final(self).wf(),
            final(self).spec_max_attempts() == old(self).spec_max_attempts(),
            old(self).waiting_at(sequence) == N ==> r is None && *final(self) == *old(self),
            old(self).waiting_at(sequence) < N ==> {
                let at = old(self).waiting_at(sequence);
                let rtt = current_time.saturating_sub(old(self).frame(at).last_sent);
                &&& r == Some(rtt)
                &&& final(self).same_but(old(self), at)
                &&& final(self).frame(at) == retired(old(self).frame(at))
                &&& final(self).spec_count() == old(self).spec_count() - 1
                &&& final(self).spec_timer() == old(self).spec_timer().acknowledged(rtt)
                &&& final(self).spec_stats() == (RetransmitStats {
                    successful_deliveries: bumped(old(self).spec_stats().successful_deliveries),
                    ..old(self).spec_stats()
                })
            },
    {
        let ghost waiting = |i: int| self.frame(i).active && self.frame(i).sequence == sequence;
        let mut i: usize = 0;
        while i < N
            invariant
                i <= N,
                self.wf(),
                *self == *old(self),
                waiting == (|i: int| self.frame(i).active && self.frame(i).sequence == sequence),
                forall|j: int| 0 <= j < i ==> !#[trigger] waiting(j),
            decreases N - i,
        {
            if self.pending[i].active && self.pending[i].sequence == sequence {
                proof {
                    assert(waiting(i as int));
                    lemma_first_such_is(N as int, waiting, i as int);
                    lemma_count_marked_full(self.active_marks(), N as int);
                    lemma_count_marked_update(self.active_marks(), N as int, i as int, false);
                }
                let ghost marks = self.active_marks();
                let rtt = current_time.saturating_sub(self.pending[i].last_sent);
                self.pending[i].active = false;
                self.count = self.count.saturating_sub(1);
                self.stats.successful_deliveries = self.stats.successful_deliveries.saturating_add(
                    1,
                );
                self.timer.update_rtt(rtt);
                self.timer.reset();
                proof {
                    assert(self.active_marks() =~= marks.update(i as int, false));
                }
                return Some(rtt);
            }
            assert(!waiting(i as int));
            i = i + 1;
        }
        proof {
            lemma_first_such_is(N as int, waiting, N as int);
        }
        None
    }

    /// Whether slot `i` holds a frame that an acknowledgment of everything
    /// up to and including `ack_seq` covers: one that waits, with a
    /// sequence number at or before `ack_seq`.
    pub open spec fn covered(&self, ack_seq: u32, i: int) -> bool {
        self.frame(i).active && at_or_before(self.frame(i).sequence, ack_seq)
    }

    /// Which slots hold a frame that `ack_seq` covers.
    pub open spec fn covered_marks(&self, ack_seq: u32) -> Seq<bool> {
        Seq::new(N as nat, |i: int| self.covered(ack_seq, i))
    }

    /// The last slot below `n` that holds a frame that `ack_seq` covers,
    /// or `-1`.
    pub open spec fn last_covered(&self, ack_seq: u32, n: int) -> int {
        last_such(n, |i: int| self.covered(ack_seq, i))
    }

    /// Whether `after` is `self` with every frame acknowledged at `now`
    /// that `ack_seq` covers and that lies in a slot below `done`: those
    /// frames wait no more, all others are as they were, every one of
    /// them counts as delivered, and the timer starts again from the
    /// round trip of the last of them.
    pub open spec fn acked_below(&self, after: &Self, ack_seq: u32, now: u64, done: int) -> bool {
        let n = count_marked(self.covered_marks(ack_seq), done);
        let last = self.last_covered(ack_seq, done);
        &&& forall|i: int|
            0 <= i < N ==> #[trigger] after.frame(i) == (if i < done && self.covered(ack_seq, i) {
                retired(self.frame(i))
            } else {
                self.frame(i)
            })
        &&& after.spec_count() == self.spec_count() - n
        &&& after.spec_max_attempts() == self.spec_max_attempts()
        &&& after.spec_stats() == (RetransmitStats {
            successful_deliveries: bumped_by(self.spec_stats().successful_deliveries, n),
            ..self.spec_stats()
        })
        &&& after.spec_timer() == (if last < 0 {
            self.spec_timer()
        } else {
            self.spec_timer().acknowledged(now.saturating_sub(self.frame(last).last_sent))
        })
    }

    /// Where no frame between `done` and `end` is covered, what holds
    /// below `done` holds below `end`.
    proof fn lemma_acked_below_extend(
        &self,
        after: &Self,
        ack_seq: u32,
        now: u64,
        done: int,
        end: int,
    )
        requires
            0 <= done <= end <= N,
            self.acked_below(after, ack_seq, now, done),
            forall|i: int| done <= i < end ==> !self.covered(ack_seq, i),
        ensures
            self.acked_below(after, ack_seq, now, end),
    {
        let p = |i: int| self.covered(ack_seq, i);
        lemma_count_marked_tail(self.covered_marks(ack_seq), done, end);
        crate::math::lemma_last_such(done, p);
        assert forall|j: int| last_such(done, p) < j < end implies !#[trigger] p(j) by {
            if j >= done {
                assert(!self.covered(ack_seq, j));
            }
        }
        lemma_last_such_is(end, p, last_such(done, p));
    }

    /// Acknowledging the covered frame in slot `done` takes what holds
    /// below `done` to what holds below `done + 1`.
    proof fn lemma_acked_below_step(
        &self,
        before: &Self,
        after: &Self,
        ack_seq: u32,
        now: u64,
        done: int,
    )
        requires
            0 <= done < N,
            self.acked_below(before, ack_seq, now, done),
            self.covered(ack_seq, done),
            after.same_but(before, done),
            after.frame(done) == retired(before.frame(done)),
            after.spec_count() == before.spec_count() - 1,
            after.spec_max_attempts() == before.spec_max_attempts(),
            after.spec_timer() == before.spec_timer().acknowledged(
                now.saturating_sub(before.frame(done).last_sent),
            ),
            after.spec_stats() == (RetransmitStats {
                successful_deliveries: bumped(before.spec_stats().successful_deliveries),
                ..before.spec_stats()
            }),
        ensures
            self.acked_below(after, ack_seq, now, done + 1),
    {
        let p = |i: int| self.covered(ack_seq, i);
        assert(p(done));
        assert(self.covered_marks(ack_seq)[done]);
        lemma_count_marked_step(self.covered_marks(ack_seq), done, done + 1);
        lemma_count_marked_full(self.covered_marks(ack_seq), done);
        assert(before.frame(done) == self.frame(done));
        assert forall|i: int| 0 <= i < N implies #[trigger] after.frame(i) == (if i < done + 1
            && self.covered(ack_seq, i) {
            retired(self.frame(i))
        } else {
            self.frame(i)
        }) by {
            if i != done {
                assert(after.frame(i) == before.frame(i));
            }
        }
    }

    /// Takes every frame off the list whose sequence number lies at or
    /// before `ack_seq`, as acknowledged at `current_time`: exactly those
    /// frames, whatever their number. The timer starts again from the
    /// round trip of the one in the last slot.
    pub fn acknowledge_cumulative(&mut self, ack_seq: u32, current_time: u64)
        requires
            old(self).wf(),
        ensures
            final(self).wf(),
            old(self).acked_below(final(self), ack_seq, current_time, N as int),
    {
        let mut start: usize = 0;
        proof {
            lemma_count_marked_full(self.covered_marks(ack_seq), 0);
        }
        loop
            invariant_except_break
                start <= N,
                old(self).acked_below(self, ack_seq, current_time, start as int),
            invariant
                self.wf(),
            ensures
                self.wf(),
                old(self).acked_below(self, ack_seq, current_time, N as int),
            decreases N - start,
        {
            let mut batch = batch_new();
            let ghost mut slots: Seq<int> = Seq::empty();
            let ghost round = *self;
            let mut i: usize = start;
            let mut full = false;
            while i < N && !full
                invariant
                    start <= i <= N,
                    *self == round,
                    old(self).acked_below(self, ack_seq, current_time, start as int),
                    batch_items(batch).len() == slots.len(),
                    slots.len() <= 64,
                    forall|j: int|
                        0 <= j < slots.len() ==> start <= #[trigger] slots[j] < i
                            && old(self).covered(ack_seq, slots[j])
                            && batch_items(batch)[j] == old(self).frame(
                            slots[j],
                        ).sequence,
                    forall|j1: int, j2: int|
                        0 <= j1 < j2 < slots.len() ==> #[trigger] slots[j1] < #[trigger] slots[j2],
                    forall|idx: int|
                        start <= idx < i && #[trigger] old(self).covered(ack_seq, idx)
                            ==> slots.contains(idx),
                    full ==> i < N && slots.len() > 0,
                decreases N - i, (if full { 0int } else { 1int }),
            {
                let frame = self.pending[i];
                assert(self.frame(i as int) == old(self).frame(i as int));
                if frame.active && ack_seq.wrapping_sub(frame.sequence) <= HALF_RANGE {
                    match batch_push(&mut batch, frame.sequence) {
                        Ok(()) => {
                            proof {
                                let ghost before = slots;
                                slots = slots.push(i as int);
                                assert forall|idx: int|
                                    start <= idx < i + 1 && old(self).covered(
                                        ack_seq,
                                        idx,
                                    ) implies slots.contains(idx) by {
                                    if idx < i {
                                        let j = choose|j: int|
                                            0 <= j < before.len() && before[j] == idx;
                                        assert(slots[j] == idx);
                                    } else {
                                        assert(slots[before.len() as int] == idx);
                                    }
                                }
                            }
                            i = i + 1;
                        },
                        Err(_) => {
                            full = true;
                        },
                    }
                } else {
                    i = i + 1;
                }
            }
            let items = batch_slice(&batch);
            let mut k: usize = 0;
            let ghost mut done: int = start as int;
            while k < items.len()
                invariant
                    k <= items@.len(),
                    items@ == batch_items(batch),
                    items@.len() == slots.len(),
                    start <= done <= i <= N,
                    self.wf(),
                    old(self).acked_below(self, ack_seq, current_time, done),
                    k > 0 ==> done == slots[k - 1] + 1,
                    k == 0 ==> done == start,
                    forall|j: int|
                        0 <= j < slots.len() ==> start <= #[trigger] slots[j] < i
                            && old(self).covered(ack_seq, slots[j]) && items@[j] == old(self).frame(
                            slots[j],
                        ).sequence,
                    forall|j1: int, j2: int|
                        0 <= j1 < j2 < slots.len() ==> #[trigger] slots[j1] < #[trigger] slots[j2],
                    forall|idx: int|
                        start <= idx < i && #[trigger] old(self).covered(ack_seq, idx)
                            ==> slots.contains(idx),
                decreases items@.len() - k,
            {
                let ghost at = slots[k as int];
                let ghost before = *self;
                proof {
                    assert forall|idx: int| done <= idx < at implies !old(self).covered(
                        ack_seq,
                        idx,
                    ) by {
                        if old(self).covered(ack_seq, idx) {
                            let j = choose|j: int| 0 <= j < slots.len() && slots[j] == idx;
                            if j < k {
                                if k > 0 && j < k - 1 {
                                    assert(slots[j] < slots[k - 1]);
                                }
                            } else if j > k {
                                assert(slots[k as int] < slots[j]);
                            }
                        }
                    }
                    old(self).lemma_acked_below_extend(&before, ack_seq, current_time, done, at);
                    let waiting = |x: int|
                        before.frame(x).active && before.frame(x).sequence == items@[k as int];
                    assert forall|x: int| 0 <= x < at implies !#[trigger] waiting(x) by {
                        if waiting(x) {
                            assert(old(self).covered(ack_seq, x));
                        }
                    }
                    assert(waiting(at));
                    lemma_first_such_is(N as int, waiting, at);
                }
                let _ = self.acknowledge(items[k], current_time);
                proof {
                    old(self).lemma_acked_below_step(&before, self, ack_seq, current_time, at);
                    done = at + 1;
                }
                k = k + 1;
            }
            proof {
                assert forall|idx: int| done <= idx < i implies !old(self).covered(ack_seq, idx) by {
                    if old(self).covered(ack_seq, idx) {
                        let j = choose|j: int| 0 <= j < slots.len() && slots[j] == idx;
                        if slots.len() > 0 && j < slots.len() - 1 {
                            assert(slots[j] < slots[slots.len() - 1]);
                        }
                    }
                }
                old(self).lemma_acked_below_extend(self, ack_seq, current_time, done, i as int);
            }
            if !full {
                break ;
            }
            start = i;
        }
    }

    /// Whether the frame in slot `i` has waited `timeout` or longer at
    /// `now`, by the timeout as it stands.
    pub open spec fn due(&self, now: u64, i: int) -> bool {
        self.frame(i).expired(now, self.spec_timer().current())
    }

    /// Whether the frame in slot `i` has been sent as often as allowed.
    pub open spec fn spent(&self, i: int) -> bool {
        self.frame(i).attempts >= self.spec_max_attempts()
    }

    /// Which slots hold a frame that is due and is to be given up.
    pub open spec fn lost_marks(&self, now: u64) -> Seq<bool> {
        Seq::new(N as nat, |i: int| self.due(now, i) && self.spent(i))
    }

    /// Which slots hold a frame that is due and is to be sent again.
    pub open spec fn retry_marks(&self, now: u64) -> Seq<bool> {
        Seq::new(N as nat, |i: int| self.due(now, i) && !self.spent(i))
    }

    /// The frames in the slots below `n` that are due at `now`, in the
    /// order of the slots, each with whether it is to be given up.
    pub open spec fn due_below(&self, now: u64, n: int) -> Seq<(u32, bool)>
        decreases n,
    {
        if n <= 0 {
            Seq::<(u32, bool)>::empty()
        } else if self.due(now, n - 1) {
            self.due_below(now, n - 1).push((self.frame(n - 1).sequence, self.spent(n - 1)))
        } else {
            self.due_below(now, n - 1)
        }
    }

    /// Whether `after` is `self` once the frames in the slots below
    /// `done` that are due at `now` have been dealt with: those that have
    /// been sent as often as allowed wait no more and count as failed, and
    /// all else is as it was, the timer too.
    pub open spec fn expired_below(&self, after: &Self, now: u64, done: int) -> bool {
        let lost = count_marked(self.lost_marks(now), done);
        &&& forall|i: int|
            0 <= i < N ==> #[trigger] after.frame(i) == (if i < done && self.due(now, i)
                && self.spent(i) {
                retired(self.frame(i))
            } else {
                self.frame(i)
            })
        &&& after.spec_count() == self.spec_count() - lost
        &&& after.spec_max_attempts() == self.spec_max_attempts()
        &&& after.spec_timer() == self.spec_timer()
        &&& after.spec_stats() == (RetransmitStats {
            failed_frames: bumped_by(self.spec_stats().failed_frames, lost),
            ..self.spec_stats()
        })
    }

    /// Whether `after` is `self` after a look for timeouts at `now`: the
    /// frames that are due and have been sent as often as allowed are
    /// given up, and the timeout is lengthened if any frame is due,
    /// whether it is given up or to be sent again.
    pub open spec fn timeouts_checked(&self, after: &Self, now: u64) -> bool {
        let lost = count_marked(self.lost_marks(now), N as int);
        let retries = count_marked(self.retry_marks(now), N as int);
        &&& forall|i: int|
            0 <= i < N ==> #[trigger] after.frame(i) == (if self.due(now, i) && self.spent(i) {
                retired(self.frame(i))
            } else {
                self.frame(i)
            })
        &&& after.spec_count() == self.spec_count() - lost
        &&& after.spec_max_attempts() == self.spec_max_attempts()
        &&& after.spec_timer() == (if lost + retries > 0 {
            self.spec_timer().backed_off()
        } else {
            self.spec_timer()
        })
        &&& after.spec_stats() == (RetransmitStats {
            failed_frames: bumped_by(self.spec_stats().failed_frames, lost),
            ..self.spec_stats()
        })
    }

    /// Looks for the frames that have waited for the timeout or longer at
    /// `current_time`, and returns them in the order of their slots, each
    /// with whether it has been sent as often as allowed. Those are given
    /// up; the others are for the caller to send again. If any frame was
    /// found, the timeout is lengthened, once.
    pub fn take_expired(&mut self, current_time: u64) -> (expired: Vec<(u32, bool)>)
        requires
            old(self).wf(),
        ensures
            final(self).wf(),
            expired@ == old(self).due_below(current_time, N as int),
            old(self).timeouts_checked(final(self), current_time),
    {
        let (expired, _) = self.take_expired_slots(current_time);
        expired
    }

    /// Whether `slots` are the slots of the frames `expired`, one each and
    /// in rising order: each was due at `now`, and is listed with its
    /// sequence number and with whether it had been sent as often as
    /// allowed.
    pub open spec fn found_in(&self, now: u64, expired: Seq<(u32, bool)>, slots: Seq<usize>) -> bool {
        &&& slots.len() == expired.len()
        &&& forall|k: int|
            0 <= k < slots.len() ==> (#[trigger] slots[k]) < N && self.due(now, slots[k] as int)
                && expired[k] == (self.frame(slots[k] as int).sequence, self.spent(slots[k] as int))
        &&& forall|k1: int, k2: int|
            0 <= k1 < k2 < slots.len() ==> (#[trigger] slots[k1]) < (#[trigger] slots[k2])
    }

    /// Looks for timeouts as `take_expired` does, and returns with each
    /// frame found the slot that it waited in.
    pub fn take_expired_slots(&mut self, current_time: u64) -> (found: (Vec<(u32, bool)>, Vec<usize>))
        requires
            old(self).wf(),
        ensures
            final(self).wf(),
            found.0@ == old(self).due_below(current_time, N as int),
            old(self).timeouts_checked(final(self), current_time),
            old(self).found_in(current_time, found.0@, found.1@),
    {
        let timeout = self.timer.timeout();
        let mut expired: Vec<(u32, bool)> = Vec::new();
        let mut slots: Vec<usize> = Vec::new();
        let mut retries: usize = 0;
        let mut given_up: usize = 0;
        let mut i: usize = 0;
        proof {
            lemma_count_marked_full(self.active_marks(), N as int);
        }
        while i < N
            invariant
                i <= N,
                self.wf(),
                timeout == old(self).timer.current(),
                expired@ == old(self).due_below(current_time, i as int),
                retries == count_marked(old(self).retry_marks(current_time), i as int),
                retries <= i,
                given_up == count_marked(old(self).lost_marks(current_time), i as int),
                given_up <= i,
                slots@.len() == expired@.len(),
                forall|k: int|
                    0 <= k < slots@.len() ==> (#[trigger] slots@[k]) < i && old(self).due(
                        current_time,
                        slots@[k] as int,
                    ) && expired@[k] == (
                        old(self).frame(slots@[k] as int).sequence,
                        old(self).spent(slots@[k] as int),
                    ),
                forall|k1: int, k2: int|
                    0 <= k1 < k2 < slots@.len() ==> (#[trigger] slots@[k1]) < (#[trigger] slots@[k2]),
                old(self).expired_below(self, current_time, i as int),
            decreases N - i,
        {
            let frame = self.pending[i];
            let ghost before = *self;
            assert(self.frame(i as int) == old(self).frame(i as int));
            assert(frame.expired(current_time, timeout) == old(self).due(current_time, i as int));
            assert((frame.attempts >= self.max_attempts) == old(self).spent(i as int));
            if frame.active {
                let elapsed = current_time.saturating_sub(frame.last_sent);
                if elapsed >= timeout {
                    let exceeded = frame.attempts >= self.max_attempts;
                    expired.push((frame.sequence, exceeded));
                    slots.push(i);
                    if exceeded {
                        proof {
                            lemma_count_marked_full(self.active_marks(), N as int);
                            lemma_count_marked_update(
                                self.active_marks(),
                                N as int,
                                i as int,
                                false,
                            );
                            lemma_count_marked_full(
                                self.active_marks().update(i as int, false),
                                N as int,
                            );
                            lemma_count_marked_full(old(self).lost_marks(current_time), i as int);
                        }
                        let ghost marks = self.active_marks();
                        self.pending[i].active = false;
                        self.count = self.count.saturating_sub(1);
                        self.stats.failed_frames = self.stats.failed_frames.saturating_add(1);
                        given_up = given_up + 1;
                        proof {
                            assert(self.active_marks() =~= marks.update(i as int, false));
                        }
                    } else {
                        retries = retries + 1;
                    }
                }
            }
            proof {
                let lost = old(self).due(current_time, i as int) && old(self).spent(i as int);
                assert(old(self).lost_marks(current_time)[i as int] == lost);
                assert(old(self).retry_marks(current_time)[i as int] == (old(self).due(
                    current_time,
                    i as int,
                ) && !old(self).spent(i as int)));
                assert forall|j: int| 0 <= j < N implies #[trigger] self.frame(j) == (if j < i + 1
                    && old(self).due(current_time, j) && old(self).spent(j) {
                    retired(old(self).frame(j))
                } else {
                    old(self).frame(j)
                }) by {
                    assert(before.frame(j) == (if j < i && old(self).due(current_time, j) && old(self).spent(j) {
                        retired(old(self).frame(j))
                    } else {
                        old(self).frame(j)
                    }));
                    if j != i {
                        assert(self.frame(j) == before.frame(j));
                    }
                }
            }
            i = i + 1;
        }
        let ghost marks = self.active_marks();
        let ghost walked = *self;
        if retries > 0 || given_up > 0 {
            self.timer.backoff();
        }
        proof {
            assert(self.active_marks() =~= marks);
            assert forall|j: int| 0 <= j < N implies #[trigger] self.frame(j) == walked.frame(j) by {}
        }
        (expired, slots)
    }

    /// The frame `f`, noted as sent once more at `timestamp`. The count of
    /// attempts stops at 255.
    pub open spec fn noted_again(f: PendingFrame, timestamp: u64) -> PendingFrame {
        PendingFrame {
            last_sent: timestamp,
            attempts: (if f.attempts == 255 {
                255u8
            } else {
                (f.attempts + 1) as u8
            }),
            ..f
        }
    }

    /// The sequence number of the frame in `slot`.
    pub fn sequence_at(&self, slot: usize) -> (sequence: u32)
        requires
            slot < N,
        ensures
            sequence == self.frame(slot as int).sequence,
    {
        self.pending[slot].sequence
    }

    /// Notes that the frame that waits in `slot` has been sent again at
    /// `timestamp`, and counts it.
    pub fn note_again(&mut self, slot: usize, timestamp: u64)
        requires
            old(self).wf(),
            slot < N,
            old(self).frame(slot as int).active,
        ensures
            final(self).wf(),
            final(self).spec_count() == old(self).spec_count(),
            final(self).spec_max_attempts() == old(self).spec_max_attempts(),
            final(self).spec_timer() == old(self).spec_timer(),
            final(self).same_but(old(self), slot as int),
            final(self).frame(slot as int) == Self::noted_again(
                old(self).frame(slot as int),
                timestamp,
            ),
            final(self).spec_stats() == (RetransmitStats {
                retransmissions: bumped(old(self).spec_stats().retransmissions),
                ..old(self).spec_stats()
            }),
    {
        let ghost marks = self.active_marks();
        let attempts = self.pending[slot].attempts;
        self.pending[slot].attempts = if attempts == 255 {
            255
        } else {
            attempts + 1
        };
        self.pending[slot].last_sent = timestamp;
        self.stats.retransmissions = self.stats.retransmissions.saturating_add(1);
        proof {
            assert(self.active_marks() =~= marks);
        }
    }

    /// Looks for timeouts as `take_expired` does, and calls `callback`
    /// with each frame found and whether it has been sent as often as
    /// allowed. Returns the number of frames to send again.
    pub fn check_timeouts<F: FnMut(u32, bool)>(&mut self, current_time: u64, callback: F) -> (retries:
        usize)
        requires
            old(self).wf(),
            forall|sequence: u32, exceeded: bool| callback.requires((sequence, exceeded)),
        ensures
            final(self).wf(),
            old(self).timeouts_checked(final(self), current_time),
            retries == count_marked(old(self).retry_marks(current_time), N as int),
    {
        let mut callback = callback;
        let expired = self.take_expired(current_time);
        let mut retries: usize = 0;
        let mut k: usize = 0;
        proof {
            old(self).lemma_due_counts(current_time, N as int);
        }
        while k < expired.len()
            invariant
                k <= expired@.len(),
                retries <= k,
                retries == Self::count_retries(expired@, k as int),
                forall|sequence: u32, exceeded: bool| callback.requires((sequence, exceeded)),
            decreases expired@.len() - k,
        {
            let (sequence, exceeded) = expired[k];
            callback(sequence, exceeded);
            if !exceeded {
                retries = retries + 1;
            }
            k = k + 1;
        }
        retries
    }

    /// Number of frames among the first `n` of `expired` that are to be
    /// sent again.
    pub open spec fn count_retries(expired: Seq<(u32, bool)>, n: int) -> int
        decreases n,
    {
        if n <= 0 {
            0
        } else {
            Self::count_retries(expired, n - 1) + (if expired[n - 1].1 {
                0int
            } else {
                1int
            })
        }
    }

    /// Every frame found due is in some slot, with the sequence number and
    /// the verdict returned for it.
    pub proof fn lemma_due_member(&self, now: u64, n: int, k: int)
        requires
            0 <= n <= N,
            0 <= k < self.due_below(now, n).len(),
        ensures
            exists|at: int|
                0 <= at < n && #[trigger] self.due(now, at) && self.frame(at).sequence
                    == self.due_below(now, n)[k].0 && self.spent(at) == self.due_below(now, n)[k].1,
        decreases n,
    {
        if n > 0 {
            let shorter = self.due_below(now, n - 1);
            if self.due(now, n - 1) && k == shorter.len() {
                assert(self.due(now, n - 1));
            } else {
                self.lemma_due_member(now, n - 1, k);
                let at = choose|at: int|
                    0 <= at < n - 1 && #[trigger] self.due(now, at) && self.frame(at).sequence
                        == shorter[k].0 && self.spent(at) == shorter[k].1;
                assert(0 <= at < n && self.due(now, at));
            }
        }
    }

    /// Counting further never counts less.
    pub proof fn lemma_count_retries_grows(expired: Seq<(u32, bool)>, m: int, n: int)
        requires
            0 <= m <= n,
        ensures
            0 <= Self::count_retries(expired, m) <= Self::count_retries(expired, n),
            Self::count_retries(expired, n) - Self::count_retries(expired, m) <= n - m,
        decreases n,
    {
        if n > m {
            Self::lemma_count_retries_grows(expired, m, n - 1);
        } else if m > 0 {
            Self::lemma_count_retries_grows(expired, m - 1, m - 1);
        }
    }

    /// Among the frames that are due, as many are to be sent again as
    /// are marked so.
    pub proof fn lemma_due_counts(&self, now: u64, n: int)
        requires
            0 <= n <= N,
        ensures
            Self::count_retries(self.due_below(now, n), self.due_below(now, n).len() as int)
                == count_marked(self.retry_marks(now), n),
        decreases n,
    {
        if n > 0 {
            self.lemma_due_counts(now, n - 1);
            let shorter = self.due_below(now, n - 1);
            if self.due(now, n - 1) {
                let longer = shorter.push((self.frame(n - 1).sequence, self.spent(n - 1)));
                Self::lemma_count_retries_prefix(longer, shorter, shorter.len() as int);
            }
        }
    }

    /// Counting looks at no more than the first `n` frames.
    proof fn lemma_count_retries_prefix(a: Seq<(u32, bool)>, b: Seq<(u32, bool)>, n: int)
        requires
            0 <= n <= a.len(),
            n <= b.len(),
            forall|i: int| 0 <= i < n ==> a[i] == b[i],
        ensures
            Self::count_retries(a, n) == Self::count_retries(b, n),
        decreases n,
    {
        if n > 0 {
            Self::lemma_count_retries_prefix(a, b, n - 1);
        }
    }

    /// Notes that frame `sequence` has been sent again at `timestamp`.
    /// The count of attempts stops at 255. Fails where no such frame
    /// waits.
    pub fn mark_retransmitted(&mut self, sequence: u32, timestamp: u64) -> (r: Result<()>)
        requires
            old(self).wf(),
        ensures
            final(self).wf(),
            final(self).spec_count() == old(self).spec_count(),
            final(self).spec_max_attempts() == old(self).spec_max_attempts(),
            final(self).spec_timer() == old(self).spec_timer(),
            old(self).waiting_at(sequence) == N ==> r == Err::<(), Error>(
                Error::SequenceOutOfRange,
            ) && *final(self) == *old(self),
            old(self).waiting_at(sequence) < N ==> {
                let at = old(self).waiting_at(sequence);
                &&& r is Ok
                &&& final(self).same_but(old(self), at)
                &&& final(self).frame(at) == (PendingFrame {
                    last_sent: timestamp,
                    attempts: (if old(self).frame(at).attempts == 255 {
                        255u8
                    } else {
                        (old(self).frame(at).attempts + 1) as u8
                    }),
                    ..old(self).frame(at)
                })
                &&& final(self).spec_stats() == (RetransmitStats {
                    retransmissions: bumped(old(self).spec_stats().retransmissions),
                    ..old(self).spec_stats()
                })
            },
    {
        let ghost waiting = |i: int| self.frame(i).active && self.frame(i).sequence == sequence;
        let mut i: usize = 0;
        while i < N
            invariant
                i <= N,
                self.wf(),
                *self == *old(self),
                waiting == (|i: int| self.frame(i).active && self.frame(i).sequence == sequence),
                forall|j: int| 0 <= j < i ==> !#[trigger] waiting(j),
            decreases N - i,
        {
            if self.pending[i].active && self.pending[i].sequence == sequence {
                proof {
                    assert(waiting(i as int));
                    lemma_first_such_is(N as int, waiting, i as int);
                }
                let ghost marks = self.active_marks();
                self.pending[i].last_sent = timestamp;
                let attempts = self.pending[i].attempts;
                self.pending[i].attempts = if attempts == 255 {
                    255
                } else {
                    attempts + 1
                };
                self.stats.retransmissions = self.stats.retransmissions.saturating_add(1);
                proof {
                    assert(self.active_marks() =~= marks);
                }
                return Ok(());
            }
            assert(!waiting(i as int));
            i = i + 1;
        }
        proof {
            lemma_first_such_is(N as int, waiting, N as int);
        }
        Err(Error::SequenceOutOfRange)
    }

    /// Number of frames that wait.
    #[verifier::when_used_as_spec(spec_count)]
    pub fn pending_count(&self) -> (n: usize)
        ensures
            n == self.spec_count(),
    {
        self.count
    }

    /// The timeout as it stands.
    pub fn current_timeout(&self) -> (t: u64)
        ensures
            t == self.spec_timer().current(),
    {
        self.timer.timeout()
    }

    /// The counts.
    #[verifier::when_used_as_spec(spec_stats_ref)]
    pub fn stats(&self) -> (s: &RetransmitStats)
        ensures
            *s == self.spec_stats(),
    {
        &self.stats
    }

    pub closed spec fn spec_stats_ref(&self) -> &RetransmitStats {
        &self.stats
    }

    /// Forgets all frames and sets the timeout back to where it starts.
    /// The counts stay.
    pub fn reset(&mut self)
        ensures
            final(self).wf(),
            final(self).spec_count() == 0,
            forall|i: int| 0 <= i < N ==> !final(self).frame(i).active,
            final(self).spec_max_attempts() == old(self).spec_max_attempts(),
            final(self).spec_stats() == old(self).spec_stats(),
            final(self).spec_timer().current() == old(self).spec_timer().base(),
            final(self).spec_timer().base() == old(self).spec_timer().base(),
            final(self).spec_timer().max() == old(self).spec_timer().max(),
            final(self).spec_timer().factor() == old(self).spec_timer().factor(),
    {
        self.pending = [PendingFrame::empty();N];
        self.count = 0;
        self.timer.reset();
        proof {
            lemma_count_marked_full(self.active_marks(), N as int);
        }
    }

    /// When the frame in slot `i` is due to be sent again, by the timeout
    /// as it stands.
    pub open spec fn deadline(&self, i: int) -> u64 {
        self.frame(i).last_sent.saturating_add(self.spec_timer().current())
    }

    /// The earliest time at which a frame is due to be sent again;
    /// nothing where no frame waits.
    pub fn next_deadline(&self) -> (r: Option<u64>)
        ensures
            r is None <==> (forall|i: int| 0 <= i < N ==> !self.frame(i).active),
            r matches Some(d) ==> (exists|i: int|
                0 <= i < N && self.frame(i).active && #[trigger] self.deadline(i) == d) && (forall|
                i: int,
            | 0 <= i < N && self.frame(i).active ==> d <= #[trigger] self.deadline(i)),
    {
        let timeout = self.timer.timeout();
        let mut best: Option<u64> = None;
        let mut i: usize = 0;
        while i < N
            invariant
                i <= N,
                timeout == self.timer.current(),
                best is None <==> (forall|j: int| 0 <= j < i ==> !self.frame(j).active),
                best matches Some(d) ==> (exists|j: int|
                    0 <= j < i && self.frame(j).active && #[trigger] self.deadline(j) == d) && (
                forall|j: int| 0 <= j < i && self.frame(j).active ==> d <= #[trigger] self.deadline(
                        j,
                    )),
            decreases N - i,
        {
            if self.pending[i].active {
                let deadline = self.pending[i].last_sent.saturating_add(timeout);
                assert(deadline == self.deadline(i as int));
                best = match best {
                    Some(d) => if deadline < d {
                        Some(deadline)
                    } else {
                        Some(d)
                    },
                    None => Some(deadline),
                };
            }
            i = i + 1;
        }
        best
    }

    /// The sequence numbers of the frames that wait in the slots below
    /// `n`, in the order of the slots.
    pub open spec fn waiting_below(&self, n: int) -> Seq<u32>
        decreases n,
    {
        if n <= 0 {
            Seq::<u32>::empty()
        } else if self.frame(n - 1).active {
            self.waiting_below(n - 1).push(self.frame(n - 1).sequence)
        } else {
            self.waiting_below(n - 1)
        }
    }

    /// The sequence numbers of the frames that wait, in the order of
    /// their slots.
    pub fn pending_sequences(&self) -> (sequences: Vec<u32>)
        ensures
            sequences@ == self.waiting_below(N as int),
    {
        let mut sequences: Vec<u32> = Vec::new();
        let mut i: usize = 0;
        while i < N
            invariant
                i <= N,
                sequences@ == self.waiting_below(i as int),
            decreases N - i,
        {
            if self.pending[i].active {
                sequences.push(self.pending[i].sequence);
            }
            i = i + 1;
        }
        sequences
    }
}

} // verus!
