//! Putting the fragments of a packet together.
//!
//! Fragment `i` of a packet goes to offset `i * max_fragment_size` of the
//! buffer of its packet, so the fragments may arrive in any order and any
//! number of times. The length of the packet is known once the last
//! fragment is there, and the packet is complete once as many fragments
//! are there as it has.

use vstd::prelude::*;
use crate::buffer::ring::copy_bytes;
use crate::codec::frame::Frame;
use crate::codec::packet::{
    fragment, fragment_end, fragment_start, fragments_of_len, lemma_fragment_bounds,
};
use crate::error::{Error, Result};
use crate::math::{
    count_marked, first_such, lemma_count_marked_full, lemma_count_marked_tail,
    lemma_count_marked_update, lemma_first_such_is,
};

verus! {

/// Whether a fragment is there.
#[derive(Debug, Clone, Copy, PartialEq, Eq, Structural)]
pub enum FragmentState {
    /// Not yet.
    Empty,
    /// It has arrived.
    Received,
}

/// One packet that is being put together.
#[derive(Debug, Clone, Copy)]
pub struct ReassemblyEntry<const N: usize> {
    pub packet_id: u16,
    /// The bytes of the packet, as far as they are there.
    pub buffer: [u8; N],
    /// Length of the packet where no last fragment has said otherwise.
    pub len: usize,
    /// Length of the packet, known once the last fragment is there.
    pub expected_size: Option<usize>,
    pub total_fragments: u8,
    /// Which fragments are there.
    pub received_fragments: [bool; 256],
    /// How many fragments are there.
    pub received_count: u8,
    /// When the first fragment arrived.
    pub start_time: u64,
    pub in_use: bool,
}

impl<const N: usize> ReassemblyEntry<N> {
    /// Whether the counters fit the marks and the buffer: as many
    /// fragments are counted as are marked, fragment 255 is not among
    /// them, and the lengths are within the buffer.
    pub open spec fn wf(&self) -> bool {
        &&& self.len <= N
        &&& (self.expected_size matches Some(size) ==> size <= N)
        &&& !self.received_fragments@[255]
        &&& self.received_count == count_marked(self.received_fragments@, 256)
    }

    /// Whether fragment `index` is there.
    pub open spec fn has(&self, index: int) -> bool {
        self.received_fragments@[index]
    }

    /// Whether all fragments are there.
    pub open spec fn complete(&self) -> bool {
        self.received_count == self.total_fragments
    }

    /// Length of the packet, as far as it is known.
    pub open spec fn size(&self) -> usize {
        match self.expected_size {
            Some(size) => size,
            None => self.len,
        }
    }

    /// The bytes of the packet.
    pub open spec fn data(&self) -> Seq<u8> {
        self.buffer@.subrange(0, self.size() as int)
    }

    /// Whether the entry is in use and has been since `timeout` or more
    /// before `now`.
    pub open spec fn timed_out(&self, now: u64, timeout: u64) -> bool {
        self.in_use && now.saturating_sub(self.start_time) >= timeout
    }

    /// Whether nothing is there: no fragment, no length.
    pub open spec fn is_empty(&self) -> bool {
        &&& self.len == 0
        &&& self.expected_size is None
        &&& self.received_count == 0
        &&& forall|i: int| 0 <= i < 256 ==> !self.received_fragments@[i]
    }

    /// Whether `after` is `self` made ready for packet `packet_id` of
    /// `total_fragments` fragments at `timestamp`: in use and empty, with
    /// the bytes of the buffer as they were.
    pub open spec fn opened(
        &self,
        after: &Self,
        packet_id: u16,
        total_fragments: u8,
        timestamp: u64,
    ) -> bool {
        &&& after.is_empty()
        &&& after.in_use
        &&& after.packet_id == packet_id
        &&& after.total_fragments == total_fragments
        &&& after.start_time == timestamp
        &&& after.buffer@ == self.buffer@
    }

    /// Whether `after` is `self` given up: free and empty, with the number
    /// of the packet, the number of its fragments, the time and the bytes
    /// of the buffer as they were.
    pub open spec fn closed(&self, after: &Self) -> bool {
        &&& after.is_empty()
        &&& !after.in_use
        &&& after.packet_id == self.packet_id
        &&& after.total_fragments == self.total_fragments
        &&& after.start_time == self.start_time
        &&& after.buffer@ == self.buffer@
    }

    /// What adding fragment `index` of `total_fragments`, with `len`
    /// bytes, comes to: an error for an index that is no index and for a
    /// fragment that would reach beyond the buffer, `false` for a fragment
    /// that is there already, else whether the packet is complete with
    /// it.
    pub open spec fn verdict(
        &self,
        index: u8,
        total_fragments: u8,
        len: nat,
        max_fragment_size: usize,
    ) -> core::result::Result<bool, Error> {
        if index >= total_fragments {
            Err(Error::InvalidFragmentIndex)
        } else if self.has(index as int) {
            Ok(false)
        } else if index * max_fragment_size + len > N {
            Err(Error::BufferTooSmall)
        } else {
            Ok(self.received_count + 1 == total_fragments)
        }
    }

    /// Whether `after` is `self` with fragment `index` of
    /// `total_fragments` stored: its bytes at offset `index *
    /// max_fragment_size`, its mark set, one more fragment counted, and
    /// the length of the packet set to where the fragment ends if it is
    /// the last one.
    pub open spec fn stored(
        &self,
        after: &Self,
        index: u8,
        total_fragments: u8,
        payload: Seq<u8>,
        max_fragment_size: usize,
    ) -> bool {
        let offset = index * max_fragment_size;
        let end = offset + payload.len();
        &&& after.buffer@ == self.buffer@.subrange(0, offset) + payload + self.buffer@.subrange(
            end,
            N as int,
        )
        &&& after.received_fragments@ == self.received_fragments@.update(index as int, true)
        &&& after.received_count == self.received_count + 1
        &&& after.expected_size == (if index + 1 == total_fragments {
            Some(end as usize)
        } else {
            self.expected_size
        })
        &&& after.len == self.len
        &&& after.packet_id == self.packet_id
        &&& after.total_fragments == self.total_fragments
        &&& after.start_time == self.start_time
        &&& after.in_use == self.in_use
    }

    /// Whether every fragment that is there is one of the fragments of the
    /// packet: none is marked at or above their number.
    pub open spec fn within_total(&self) -> bool {
        forall|i: int| 0 <= i < 256 && #[trigger] self.has(i) ==> i < self.total_fragments
    }

    /// An entry that holds nothing holds nothing beyond the fragments of
    /// its packet: so does every entry just made ready.
    pub proof fn lemma_empty_is_within_total(&self)
        requires
            self.is_empty(),
        ensures
            self.within_total(),
    {
    }

    /// A fragment of the packet that is stored leaves the entry with
    /// nothing beyond the fragments of its packet.
    pub proof fn lemma_stored_is_within_total(
        &self,
        after: &Self,
        index: u8,
        total_fragments: u8,
        payload: Seq<u8>,
        max_fragment_size: usize,
    )
        requires
            self.within_total(),
            index < self.total_fragments,
            self.stored(after, index, total_fragments, payload, max_fragment_size),
        ensures
            after.within_total(),
    {
        assert forall|i: int| 0 <= i < 256 && #[trigger] after.has(i) implies i
            < after.total_fragments by {
            if i != index {
                assert(self.has(i));
            }
        }
    }

    /// A new fragment completes the packet exactly when all the others
    /// are there: the count of fragments reaches their number with it if
    /// and only if every other fragment of the packet is marked.
    pub proof fn lemma_completes_exactly(&self, index: u8)
        requires
            self.wf(),
            self.within_total(),
            index < self.total_fragments,
            !self.has(index as int),
        ensures
            (self.received_count + 1 == self.total_fragments) <==> (forall|j: int|
                0 <= j < self.total_fragments && j != index ==> self.has(j)),
    {
        let marks = self.received_fragments@;
        let total = self.total_fragments as int;
        let with = marks.update(index as int, true);
        assert forall|i: int| total <= i < 256 implies !marks[i] by {
            if marks[i] {
                assert(self.has(i));
            }
        }
        lemma_count_marked_tail(marks, total, 256);
        lemma_count_marked_update(marks, total, index as int, true);
        lemma_count_marked_full(with, total);
        if self.received_count + 1 == self.total_fragments {
            assert forall|j: int| 0 <= j < total && j != index implies self.has(j) by {
                assert(with[j]);
            }
        }
        if forall|j: int| 0 <= j < total && j != index ==> self.has(j) {
            assert forall|j: int| 0 <= j < total implies with[j] by {
                if j != index {
                    assert(self.has(j));
                }
            }
        }
    }

    /// Whether `after` is what `self` becomes when fragment `index` of
    /// `total_fragments` is added with outcome `outcome`: the outcome is
    /// the verdict, a new fragment that is accepted is stored, and
    /// anything else changes nothing.
    pub open spec fn took(
        &self,
        after: &Self,
        index: u8,
        total_fragments: u8,
        payload: Seq<u8>,
        max_fragment_size: usize,
        outcome: core::result::Result<bool, Error>,
    ) -> bool {
        &&& outcome == self.verdict(index, total_fragments, payload.len(), max_fragment_size)
        &&& outcome is Ok && !self.has(index as int) ==> self.stored(
            after,
            index,
            total_fragments,
            payload,
            max_fragment_size,
        )
        &&& outcome is Err || self.has(index as int) ==> *after == *self
    }

    /// A free entry, all zero.
    pub fn new() -> (e: Self)
        ensures
            e.wf(),
            e.is_empty(),
            !e.in_use,
            e.packet_id == 0,
            e.total_fragments == 0,
            e.start_time == 0,
            forall|i: int| 0 <= i < N ==> e.buffer@[i] == 0,
    {
        let e = ReassemblyEntry {
            packet_id: 0,
            buffer: [0u8;N],
            len: 0,
            expected_size: None,
            total_fragments: 0,
            received_fragments: [false;256],
            received_count: 0,
            start_time: 0,
            in_use: false,
        };
        proof {
            lemma_count_marked_full(e.received_fragments@, 256);
        }
        e
    }

    /// Makes the entry ready for a new packet.
    pub fn init(&mut self, packet_id: u16, total_fragments: u8, timestamp: u64)
        ensures
            final(self).wf(),
            old(self).opened(final(self), packet_id, total_fragments, timestamp),
    {
        self.packet_id = packet_id;
        self.len = 0;
        self.expected_size = None;
        self.total_fragments = total_fragments;
        self.received_fragments = [false;256];
        self.received_count = 0;
        self.start_time = timestamp;
        self.in_use = true;
        proof {
            lemma_count_marked_full(self.received_fragments@, 256);
        }
    }

    /// Adds fragment `fragment_index` of `total_fragments`. Returns
    /// whether the packet is complete with it; a fragment that is there
    /// already changes nothing and completes nothing.
    pub fn add_fragment(
        &mut self,
        fragment_index: u8,
        total_fragments: u8,
        payload: &[u8],
        max_fragment_size: usize,
    ) -> (r: Result<bool>)
        requires
            old(self).wf(),
        ensures
            final(self).wf(),
            old(self).took(
                final(self),
                fragment_index,
                total_fragments,
                payload@,
                max_fragment_size,
                r,
            ),
    {
        if fragment_index >= total_fragments {
            return Err(Error::InvalidFragmentIndex);
        }
        if self.received_fragments[fragment_index as usize] {
            return Ok(false);
        }
        let offset = match (fragment_index as usize).checked_mul(max_fragment_size) {
            Some(offset) => offset,
            None => {
                return Err(Error::BufferTooSmall);
            },
        };
        if offset > N || payload.len() > N - offset {
            return Err(Error::BufferTooSmall);
        }
        let end = offset + payload.len();
        copy_bytes(&mut self.buffer, offset, payload, 0, payload.len());
        let ghost marks = self.received_fragments@;
        self.received_fragments[fragment_index as usize] = true;
        proof {
            lemma_count_marked_update(marks, 256, fragment_index as int, true);
            lemma_count_marked_full(self.received_fragments@, 256);
            lemma_count_marked_tail(self.received_fragments@, 255, 256);
            lemma_count_marked_full(self.received_fragments@, 255);
            assert(payload@.subrange(0, payload@.len() as int) =~= payload@);
        }
        self.received_count = self.received_count + 1;
        if fragment_index == total_fragments - 1 {
            self.expected_size = Some(end);
        }
        Ok(self.received_count == total_fragments)
    }

    /// The bytes of the packet, once all fragments are there.
    pub fn get_data(&self) -> (r: Option<&[u8]>)
        requires
            self.wf(),
        ensures
            self.complete() ==> (r matches Some(data) && data@ == self.data()),
            !self.complete() ==> r is None,
    {
        if self.received_count == self.total_fragments {
            let size = match self.expected_size {
                Some(size) => size,
                None => self.len,
            };
            Some(&self.buffer[0..size])
        } else {
            None
        }
    }

    /// Gives the entry up. The bytes of the buffer stay.
    pub fn clear(&mut self)
        ensures
            final(self).wf(),
            old(self).closed(final(self)),
    {
        self.in_use = false;
        self.len = 0;
        self.expected_size = None;
        self.received_count = 0;
        self.received_fragments = [false;256];
        proof {
            lemma_count_marked_full(self.received_fragments@, 256);
        }
    }

    /// Whether the entry is in use and has been for `timeout` or longer.
    pub fn is_timed_out(&self, current_time: u64, timeout: u64) -> (b: bool)
        ensures
            b == self.timed_out(current_time, timeout),
    {
        self.in_use && current_time.saturating_sub(self.start_time) >= timeout
    }

    /// The fragments below `n` that are not there, in order.
    pub open spec fn missing_below(&self, n: int) -> Seq<u8>
        decreases n,
    {
        if n <= 0 {
            Seq::<u8>::empty()
        } else if self.has(n - 1) {
            self.missing_below(n - 1)
        } else {
            self.missing_below(n - 1).push((n - 1) as u8)
        }
    }

    /// The fragments of the packet that are not there, in order.
    pub fn missing_fragments(&self) -> (missing: Vec<u8>)
        ensures
            missing@ == self.missing_below(self.total_fragments as int),
    {
        let mut missing: Vec<u8> = Vec::new();
        let mut i: u8 = 0;
        while i < self.total_fragments
            invariant
                i <= self.total_fragments,
                missing@ == self.missing_below(i as int),
            decreases self.total_fragments - i,
        {
            if !self.received_fragments[i as usize] {
                missing.push(i);
            }
            i = i + 1;
        }
        missing
    }
}

impl<const N: usize> Default for ReassemblyEntry<N> {
    fn default() -> (e: Self)
        ensures
            e.wf(),
            e.is_empty(),
            !e.in_use,
    {
        ReassemblyEntry::new()
    }
}

/// Up to `E` packets that are being put together at once, each in a
/// buffer of `N` bytes.
#[derive(Debug)]
pub struct Reassembler<const E: usize, const N: usize> {
    entries: [ReassemblyEntry<N>; E],
    max_fragment_size: usize,
    /// How long a packet may take before it is given up.
    timeout: u64,
    active_count: usize,
}

impl<const E: usize, const N: usize> Reassembler<E, N> {
    /// Entry `i`.
    pub closed spec fn entry(&self, i: int) -> ReassemblyEntry<N> {
        self.entries@[i]
    }

    pub closed spec fn spec_max_fragment_size(&self) -> usize {
        self.max_fragment_size
    }

    pub closed spec fn spec_timeout(&self) -> u64 {
        self.timeout
    }

    pub closed spec fn spec_active_count(&self) -> usize {
        self.active_count
    }

    /// Which entries are in use.
    pub open spec fn in_use_marks(&self) -> Seq<bool> {
        Seq::new(E as nat, |i: int| self.entry(i).in_use)
    }

    /// Whether every entry is well formed and the number of active entries
    /// is the number of entries in use.
    pub closed spec fn wf(&self) -> bool {
        &&& forall|i: int| 0 <= i < E ==> (#[trigger] self.entries@[i]).wf()
        &&& self.active_count == count_marked(self.in_use_marks(), E as int)
    }

    /// What `wf` says, for those who cannot look inside.
    pub proof fn lemma_wf(&self)
        requires
            self.wf(),
        ensures
            forall|i: int| 0 <= i < E ==> (#[trigger] self.entry(i)).wf(),
            self.spec_active_count() == count_marked(self.in_use_marks(), E as int),
            self.spec_active_count() <= E,
    {
        lemma_count_marked_full(self.in_use_marks(), E as int);
    }

    /// Whether `self` and `other` differ in nothing but entry `i`, and
    /// agree in size of fragments and timeout.
    pub open spec fn same_but(&self, other: &Self, i: int) -> bool {
        &&& self.spec_max_fragment_size() == other.spec_max_fragment_size()
        &&& self.spec_timeout() == other.spec_timeout()
        &&& forall|j: int| 0 <= j < E && j != i ==> self.entry(j) == other.entry(j)
    }

    /// The first entry that is in use for packet `packet_id`, or `E`.
    pub open spec fn held_at(&self, packet_id: u16) -> int {
        first_such(E as int, |i: int| self.entry(i).in_use && self.entry(i).packet_id == packet_id)
    }

    /// The first entry that is free, or `E`.
    pub open spec fn free_at(&self) -> int {
        first_such(E as int, |i: int| !self.entry(i).in_use)
    }

    /// The first entry that has timed out at `now`, or `E`.
    pub open spec fn stale_at(&self, now: u64) -> int {
        first_such(E as int, |i: int| self.entry(i).timed_out(now, self.spec_timeout()))
    }

    /// The first entry that holds packet `packet_id` complete, or `E`.
    pub open spec fn done_at(&self, packet_id: u16) -> int {
        first_such(
            E as int,
            |i: int|
                self.entry(i).in_use && self.entry(i).packet_id == packet_id && self.entry(
                    i,
                ).complete(),
        )
    }

    /// The entry that a fragment of packet `packet_id` goes to at `now`:
    /// the one in use for that packet; else the first free one; else the
    /// first one that has timed out; else `E`, for none.
    pub open spec fn place_for(&self, packet_id: u16, now: u64) -> int {
        if self.held_at(packet_id) < E {
            self.held_at(packet_id)
        } else if self.free_at() < E {
            self.free_at()
        } else {
            self.stale_at(now)
        }
    }

    /// A reassembler with all entries free.
    pub fn new(max_fragment_size: usize, timeout: u64) -> (r: Self)
        ensures
            r.wf(),
            r.spec_max_fragment_size() == max_fragment_size,
            r.spec_timeout() == timeout,
            r.spec_active_count() == 0,
            forall|i: int| 0 <= i < E ==> !r.entry(i).in_use && r.entry(i).is_empty(),
    {
        let r = Reassembler {
            entries: [ReassemblyEntry::new();E],
            max_fragment_size,
            timeout,
            active_count: 0,
        };
        proof {
            lemma_count_marked_full(r.in_use_marks(), E as int);
        }
        r
    }

    /// Finds the entry of packet `packet_id`, or makes one ready for it.
    fn find_or_create_entry(&mut self, packet_id: u16, total_fragments: u8, timestamp: u64) -> (r:
        Result<usize>)
        requires
            old(self).wf(),
        ensures
            final(self).wf(),
            0 <= old(self).place_for(packet_id, timestamp) <= E,
            old(self).place_for(packet_id, timestamp) == E ==> r == Err::<usize, Error>(
                Error::BufferFull,
            ) && *final(self) == *old(self),
            old(self).place_for(packet_id, timestamp) < E ==> r == Ok::<usize, Error>(
                old(self).place_for(packet_id, timestamp) as usize,
            ) && final(self).same_but(old(self), old(self).place_for(packet_id, timestamp)),
            old(self).held_at(packet_id) < E ==> *final(self) == *old(self),
            old(self).held_at(packet_id) == E && old(self).place_for(packet_id, timestamp) < E
                ==> old(self).entry(old(self).place_for(packet_id, timestamp)).opened(
                &final(self).entry(old(self).place_for(packet_id, timestamp)),
                packet_id,
                total_fragments,
                timestamp,
            ),
            final(self).spec_active_count() == old(self).spec_active_count()
                + (if old(self).held_at(packet_id) == E && old(self).free_at() < E {
                1int
            } else {
                0int
            }),
    {
        let ghost held = |i: int| self.entry(i).in_use && self.entry(i).packet_id == packet_id;
        let ghost free = |i: int| !self.entry(i).in_use;
        let ghost stale = |i: int| self.entry(i).timed_out(timestamp, self.spec_timeout());
        let mut i: usize = 0;
        while i < E
            invariant
                i <= E,
                *self == *old(self),
                self.wf(),
                held == (|i: int| self.entry(i).in_use && self.entry(i).packet_id == packet_id),
                forall|j: int| 0 <= j < i ==> !#[trigger] held(j),
            decreases E - i,
        {
            if self.entries[i].in_use && self.entries[i].packet_id == packet_id {
                proof {
                    assert(held(i as int));
                    lemma_first_such_is(E as int, held, i as int);
                }
                return Ok(i);
            }
            assert(!held(i as int));
            i = i + 1;
        }
        proof {
            lemma_first_such_is(E as int, held, E as int);
        }
        let mut i: usize = 0;
        while i < E
            invariant
                i <= E,
                *self == *old(self),
                self.wf(),
                old(self).held_at(packet_id) == E,
                free == (|i: int| !self.entry(i).in_use),
                forall|j: int| 0 <= j < i ==> !#[trigger] free(j),
            decreases E - i,
        {
            if !self.entries[i].in_use {
                proof {
                    assert(free(i as int));
                    lemma_first_such_is(E as int, free, i as int);
                    lemma_count_marked_full(self.in_use_marks(), E as int);
                    assert(!self.in_use_marks()[i as int]);
                    assert(self.active_count < E);
                }
                let ghost marks = self.in_use_marks();
                self.entries[i].init(packet_id, total_fragments, timestamp);
                self.active_count = self.active_count + 1;
                proof {
                    assert(self.in_use_marks() =~= marks.update(i as int, true));
                    lemma_count_marked_update(marks, E as int, i as int, true);
                }
                return Ok(i);
            }
            assert(!free(i as int));
            i = i + 1;
        }
        proof {
            lemma_first_such_is(E as int, free, E as int);
        }
        let mut i: usize = 0;
        while i < E
            invariant
                i <= E,
                *self == *old(self),
                self.wf(),
                old(self).held_at(packet_id) == E,
                old(self).free_at() == E,
                stale == (|i: int| self.entry(i).timed_out(timestamp, self.spec_timeout())),
                forall|j: int| 0 <= j < i ==> !#[trigger] stale(j),
            decreases E - i,
        {
            if self.entries[i].is_timed_out(timestamp, self.timeout) {
                proof {
                    assert(stale(i as int));
                    lemma_first_such_is(E as int, stale, i as int);
                }
                let ghost marks = self.in_use_marks();
                self.entries[i].init(packet_id, total_fragments, timestamp);
                proof {
                    assert(self.in_use_marks() =~= marks);
                }
                return Ok(i);
            }
            assert(!stale(i as int));
            i = i + 1;
        }
        proof {
            lemma_first_such_is(E as int, stale, E as int);
        }
        Err(Error::BufferFull)
    }

    /// What a fragment of packet `packet_id` comes to, given what adding
    /// it to its entry came to: the number of the packet where that
    /// completed it, nothing where it did not.
    pub open spec fn completion(outcome: core::result::Result<bool, Error>, packet_id: u16)
        -> core::result::Result<Option<u16>, Error> {
        match outcome {
            Ok(true) => Ok(Some(packet_id)),
            Ok(false) => Ok(None),
            Err(e) => Err(e),
        }
    }

    /// Whether `ready` is entry `place` as it stands when the fragment is
    /// added: as it was, where it was in use for the packet, else made
    /// ready for the packet.
    pub open spec fn readied(
        &self,
        place: int,
        ready: &ReassemblyEntry<N>,
        packet_id: u16,
        total_fragments: u8,
        timestamp: u64,
    ) -> bool {
        if self.held_at(packet_id) < E {
            *ready == self.entry(place)
        } else {
            self.entry(place).opened(ready, packet_id, total_fragments, timestamp)
        }
    }

    /// Whether `after` is `self` once a fragment has been taken at
    /// `timestamp`, with the result `r`: see `process_frame`.
    pub open spec fn absorbed(
        &self,
        after: &Self,
        packet_id: u16,
        fragment_index: u8,
        total_fragments: u8,
        payload: Seq<u8>,
        timestamp: u64,
        r: core::result::Result<Option<u16>, Error>,
    ) -> bool {
        let place = self.place_for(packet_id, timestamp);
        &&& after.spec_max_fragment_size() == self.spec_max_fragment_size()
        &&& after.spec_timeout() == self.spec_timeout()
        &&& total_fragments == 1 ==> r == Ok::<Option<u16>, Error>(Some(packet_id)) && *after
            == *self
        &&& total_fragments != 1 && place == E ==> r == Err::<Option<u16>, Error>(
            Error::BufferFull,
        ) && *after == *self
        &&& total_fragments != 1 && place < E ==> {
            &&& after.same_but(self, place)
            &&& after.spec_active_count() == self.spec_active_count() + (if self.held_at(packet_id)
                == E && self.free_at() < E {
                1int
            } else {
                0int
            })
            &&& exists|ready: ReassemblyEntry<N>|
                {
                    &&& #[trigger] self.readied(place, &ready, packet_id, total_fragments, timestamp)
                    &&& ready.took(
                        &after.entry(place),
                        fragment_index,
                        total_fragments,
                        payload,
                        self.spec_max_fragment_size(),
                        ready.verdict(
                            fragment_index,
                            total_fragments,
                            payload.len(),
                            self.spec_max_fragment_size(),
                        ),
                    )
                    &&& r == Self::completion(
                        ready.verdict(
                            fragment_index,
                            total_fragments,
                            payload.len(),
                            self.spec_max_fragment_size(),
                        ),
                        packet_id,
                    )
                }
        }
    }

    /// Takes a data frame that arrived at `timestamp`. Returns the number
    /// of its packet if the packet is complete with it.
    ///
    /// A packet of one fragment is complete at once and takes no entry.
    /// Any other fragment goes to the entry of its packet, which is made
    /// ready first where the packet had none: see `place_for`. The call
    /// fails where no entry can be had, and where the entry refuses the
    /// fragment; an entry made ready stays so even then.
    pub fn process_frame(&mut self, frame: &Frame<'_>, timestamp: u64) -> (r: Result<Option<u16>>)
        requires
            old(self).wf(),
        ensures
            final(self).wf(),
            old(self).absorbed(
                final(self),
                frame.packet_id,
                frame.fragment_index,
                frame.total_fragments,
                frame.payload@,
                timestamp,
                r,
            ),
    {
        let packet_id = frame.packet_id;
        let fragment_index = frame.fragment_index;
        let total_fragments = frame.total_fragments;
        if total_fragments == 1 {
            return Ok(Some(packet_id));
        }
        let entry_idx = match self.find_or_create_entry(packet_id, total_fragments, timestamp) {
            Ok(i) => i,
            Err(e) => {
                return Err(e);
            },
        };
        let ghost ready = self.entries@[entry_idx as int];
        let ghost marks = self.in_use_marks();
        let added = self.entries[entry_idx].add_fragment(
            fragment_index,
            total_fragments,
            frame.payload,
            self.max_fragment_size,
        );
        proof {
            assert(self.in_use_marks() =~= marks);
            assert(old(self).readied(
                entry_idx as int,
                &ready,
                packet_id,
                total_fragments,
                timestamp,
            ));
        }
        match added {
            Ok(true) => Ok(Some(packet_id)),
            Ok(false) => Ok(None),
            Err(e) => Err(e),
        }
    }

    /// The bytes of packet `packet_id` and their number, once the packet
    /// is complete. The entry stays as it is.
    pub fn get_completed_data(&self, packet_id: u16) -> (r: Option<(&[u8], usize)>)
        requires
            self.wf(),
        ensures
            self.done_at(packet_id) == E ==> r is None,
            self.done_at(packet_id) < E ==> (r matches Some((data, len)) && data@ == self.entry(
                self.done_at(packet_id),
            ).data() && len == data@.len()),
    {
        let ghost done = |i: int|
            self.entry(i).in_use && self.entry(i).packet_id == packet_id && self.entry(
                i,
            ).complete();
        let mut i: usize = 0;
        while i < E
            invariant
                i <= E,
                self.wf(),
                done == (|i: int|
                    self.entry(i).in_use && self.entry(i).packet_id == packet_id && self.entry(
                        i,
                    ).complete()),
                forall|j: int| 0 <= j < i ==> !#[trigger] done(j),
            decreases E - i,
        {
            if self.entries[i].in_use && self.entries[i].packet_id == packet_id {
                match self.entries[i].get_data() {
                    Some(data) => {
                        proof {
                            assert(done(i as int));
                            lemma_first_such_is(E as int, done, i as int);
                        }
                        return Some((data, data.len()));
                    },
                    None => {},
                }
            }
            assert(!done(i as int));
            i = i + 1;
        }
        proof {
            lemma_first_such_is(E as int, done, E as int);
        }
        None
    }

    /// Whether `after` and `buf_after` are `self` and `buf_before` once
    /// packet `packet_id` has been taken, with the result `r`: see
    /// `take_completed`.
    pub open spec fn taken(
        &self,
        after: &Self,
        packet_id: u16,
        buf_before: Seq<u8>,
        buf_after: Seq<u8>,
        r: core::result::Result<usize, Error>,
    ) -> bool {
        let place = self.done_at(packet_id);
        &&& buf_after.len() == buf_before.len()
        &&& place == E ==> r == Err::<usize, Error>(Error::IncompleteFragment)
        &&& place < E && buf_before.len() < self.entry(place).data().len() ==> r == Err::<
            usize,
            Error,
        >(Error::BufferTooSmall)
        &&& r is Err ==> *after == *self && buf_after == buf_before
        &&& place < E && buf_before.len() >= self.entry(place).data().len() ==> {
            let data = self.entry(place).data();
            &&& r == Ok::<usize, Error>(data.len() as usize)
            &&& buf_after == data + buf_before.subrange(data.len() as int, buf_before.len() as int)
            &&& after.same_but(self, place)
            &&& self.entry(place).closed(&after.entry(place))
            &&& after.spec_active_count() == self.spec_active_count() - 1
        }
    }

    /// Copies packet `packet_id` to the front of `buf` and gives its entry
    /// up. Fails where the packet is not complete, and where `buf` is too
    /// short for it; nothing changes then.
    pub fn take_completed(&mut self, packet_id: u16, buf: &mut [u8]) -> (r: Result<usize>)
        requires
            old(self).wf(),
        ensures
            final(self).wf(),
            old(self).taken(final(self), packet_id, old(buf)@, final(buf)@, r),
    {
        let ghost done = |i: int|
            self.entry(i).in_use && self.entry(i).packet_id == packet_id && self.entry(
                i,
            ).complete();
        let mut i: usize = 0;
        while i < E
            invariant
                i <= E,
                self.wf(),
                *self == *old(self),
                buf@ == old(buf)@,
                done == (|i: int|
                    self.entry(i).in_use && self.entry(i).packet_id == packet_id && self.entry(
                        i,
                    ).complete()),
                forall|j: int| 0 <= j < i ==> !#[trigger] done(j),
            decreases E - i,
        {
            if self.entries[i].in_use && self.entries[i].packet_id == packet_id
                && self.entries[i].received_count == self.entries[i].total_fragments {
                proof {
                    assert(done(i as int));
                    lemma_first_such_is(E as int, done, i as int);
                    lemma_count_marked_full(self.in_use_marks(), E as int);
                    lemma_count_marked_update(self.in_use_marks(), E as int, i as int, false);
                }
                let len = match self.entries[i].expected_size {
                    Some(size) => size,
                    None => self.entries[i].len,
                };
                if buf.len() < len {
                    return Err(Error::BufferTooSmall);
                }
                copy_bytes(buf, 0, &self.entries[i].buffer, 0, len);
                let ghost marks = self.in_use_marks();
                self.entries[i].clear();
                self.active_count = self.active_count.saturating_sub(1);
                proof {
                    assert(self.in_use_marks() =~= marks.update(i as int, false));
                }
                return Ok(len);
            }
            assert(!done(i as int));
            i = i + 1;
        }
        proof {
            lemma_first_such_is(E as int, done, E as int);
        }
        Err(Error::IncompleteFragment)
    }

    /// Gives up the entry of packet `packet_id`, if there is one.
    pub fn free_entry(&mut self, packet_id: u16)
        requires
            old(self).wf(),
        ensures
            final(self).wf(),
            old(self).held_at(packet_id) == E ==> *final(self) == *old(self),
            old(self).held_at(packet_id) < E ==> {
                let place = old(self).held_at(packet_id);
                &&& final(self).same_but(old(self), place)
                &&& old(self).entry(place).closed(&final(self).entry(place))
                &&& final(self).spec_active_count() == old(self).spec_active_count() - 1
            },
    {
        let ghost held = |i: int| self.entry(i).in_use && self.entry(i).packet_id == packet_id;
        let mut i: usize = 0;
        while i < E
            invariant
                i <= E,
                self.wf(),
                *self == *old(self),
                held == (|i: int| self.entry(i).in_use && self.entry(i).packet_id == packet_id),
                forall|j: int| 0 <= j < i ==> !#[trigger] held(j),
            decreases E - i,
        {
            if self.entries[i].in_use && self.entries[i].packet_id == packet_id {
                proof {
                    assert(held(i as int));
                    lemma_first_such_is(E as int, held, i as int);
                    lemma_count_marked_full(self.in_use_marks(), E as int);
                    lemma_count_marked_update(self.in_use_marks(), E as int, i as int, false);
                }
                let ghost marks = self.in_use_marks();
                self.entries[i].clear();
                self.active_count = self.active_count.saturating_sub(1);
                proof {
                    assert(self.in_use_marks() =~= marks.update(i as int, false));
                }
                return ;
            }
            assert(!held(i as int));
            i = i + 1;
        }
        proof {
            lemma_first_such_is(E as int, held, E as int);
        }
    }

    /// Which entries have timed out at `now`.
    pub open spec fn stale_marks(&self, now: u64) -> Seq<bool> {
        Seq::new(E as nat, |i: int| self.entry(i).timed_out(now, self.spec_timeout()))
    }

    /// Gives up every entry that has timed out at `current_time`, and
    /// returns how many there were. After this no entry in use is as old
    /// as the timeout.
    pub fn cleanup_timeout(&mut self, current_time: u64) -> (cleaned: usize)
        requires
            old(self).wf(),
        ensures
            final(self).wf(),
            final(self).spec_max_fragment_size() == old(self).spec_max_fragment_size(),
            final(self).spec_timeout() == old(self).spec_timeout(),
            cleaned == count_marked(old(self).stale_marks(current_time), E as int),
            final(self).spec_active_count() == old(self).spec_active_count() - cleaned,
            forall|i: int|
                0 <= i < E ==> (if old(self).entry(i).timed_out(
                    current_time,
                    old(self).spec_timeout(),
                ) {
                    old(self).entry(i).closed(&#[trigger] final(self).entry(i))
                } else {
                    final(self).entry(i) == old(self).entry(i)
                }),
            forall|i: int|
                0 <= i < E ==> !(#[trigger] final(self).entry(i)).timed_out(
                    current_time,
                    final(self).spec_timeout(),
                ),
            forall|i: int|
                0 <= i < E && (#[trigger] final(self).entry(i)).in_use ==> final(self).entry(
                    i,
                ).start_time + final(self).spec_timeout() > current_time,
    {
        let mut cleaned: usize = 0;
        let mut i: usize = 0;
        proof {
            lemma_count_marked_full(self.in_use_marks(), E as int);
        }
        while i < E
            invariant
                i <= E,
                self.wf(),
                self.max_fragment_size == old(self).max_fragment_size,
                self.timeout == old(self).timeout,
                cleaned == count_marked(old(self).stale_marks(current_time), i as int),
                cleaned <= i,
                self.active_count == old(self).active_count - cleaned,
                forall|j: int| i <= j < E ==> #[trigger] self.entries@[j] == old(self).entries@[j],
                forall|j: int|
                    0 <= j < i ==> (if old(self).entries@[j].timed_out(current_time, self.timeout) {
                        old(self).entries@[j].closed(&#[trigger] self.entries@[j])
                    } else {
                        self.entries@[j] == old(self).entries@[j]
                    }),
            decreases E - i,
        {
            if self.entries[i].is_timed_out(current_time, self.timeout) {
                proof {
                    lemma_count_marked_full(self.in_use_marks(), E as int);
                    lemma_count_marked_update(self.in_use_marks(), E as int, i as int, false);
                }
                let ghost marks = self.in_use_marks();
                self.entries[i].clear();
                self.active_count = self.active_count.saturating_sub(1);
                proof {
                    assert(self.in_use_marks() =~= marks.update(i as int, false));
                }
                cleaned = cleaned + 1;
            }
            i = i + 1;
        }
        cleaned
    }

    /// Number of packets that are being put together.
    #[verifier::when_used_as_spec(spec_active_count)]
    pub fn active_count(&self) -> (n: usize)
        ensures
            n == self.spec_active_count(),
    {
        self.active_count
    }

    /// Whether any packet is being put together.
    pub fn has_pending(&self) -> (b: bool)
        ensures
            b == (self.spec_active_count() > 0),
    {
        self.active_count > 0
    }

    /// The fragments of packet `packet_id` that are not there, in order;
    /// nothing where no entry is in use for the packet.
    pub fn missing_fragments(&self, packet_id: u16) -> (r: Option<Vec<u8>>)
        requires
            self.wf(),
        ensures
            self.held_at(packet_id) == E ==> r is None,
            self.held_at(packet_id) < E ==> (r matches Some(missing) && missing@ == self.entry(
                self.held_at(packet_id),
            ).missing_below(self.entry(self.held_at(packet_id)).total_fragments as int)),
    {
        let ghost held = |i: int| self.entry(i).in_use && self.entry(i).packet_id == packet_id;
        let mut i: usize = 0;
        while i < E
            invariant
                i <= E,
                held == (|i: int| self.entry(i).in_use && self.entry(i).packet_id == packet_id),
                forall|j: int| 0 <= j < i ==> !#[trigger] held(j),
            decreases E - i,
        {
            if self.entries[i].in_use && self.entries[i].packet_id == packet_id {
                proof {
                    assert(held(i as int));
                    lemma_first_such_is(E as int, held, i as int);
                }
                return Some(self.entries[i].missing_fragments());
            }
            assert(!held(i as int));
            i = i + 1;
        }
        proof {
            lemma_first_such_is(E as int, held, E as int);
        }
        None
    }
}

impl<const N: usize> ReassemblyEntry<N> {
    /// Whether the entry holds fragments of `message`, cut at
    /// `max_fragment_size` bytes, and nothing else: every fragment that is
    /// there is one of the message and lies where it belongs, and the
    /// length is known exactly when the last fragment is there.
    pub open spec fn carries(&self, message: Seq<u8>, max_fragment_size: usize) -> bool {
        let max = max_fragment_size as nat;
        let total = fragments_of_len(message.len(), max);
        &&& max > 0
        &&& message.len() <= N
        &&& total <= 255
        &&& self.total_fragments == total
        &&& forall|i: int|
            0 <= i < 256 && #[trigger] self.has(i) ==> i < total && self.buffer@.subrange(
                fragment_start(i as nat, max),
                fragment_end(message.len(), i as nat, max),
            ) == fragment(message, i as nat, max)
        &&& self.expected_size == (if self.has(total - 1) {
            Some(message.len() as usize)
        } else {
            None::<usize>
        })
    }

    /// An entry made ready for a message holds fragments of that message
    /// and nothing else: it holds nothing.
    pub proof fn lemma_opened_carries(
        &self,
        after: &Self,
        packet_id: u16,
        timestamp: u64,
        message: Seq<u8>,
        max_fragment_size: usize,
    )
        requires
            max_fragment_size > 0,
            message.len() <= N,
            fragments_of_len(message.len(), max_fragment_size as nat) <= 255,
            self.opened(
                after,
                packet_id,
                fragments_of_len(message.len(), max_fragment_size as nat) as u8,
                timestamp,
            ),
        ensures
            after.carries(message, max_fragment_size),
    {
        after.lemma_empty_carries(message, max_fragment_size);
    }

    /// An entry that holds nothing holds fragments of the message and
    /// nothing else.
    pub proof fn lemma_empty_carries(&self, message: Seq<u8>, max_fragment_size: usize)
        requires
            max_fragment_size > 0,
            message.len() <= N,
            fragments_of_len(message.len(), max_fragment_size as nat) <= 255,
            self.is_empty(),
            self.total_fragments == fragments_of_len(message.len(), max_fragment_size as nat),
        ensures
            self.carries(message, max_fragment_size),
    {
        crate::math::lemma_ceil_div(message.len(), max_fragment_size as nat);
        let total = fragments_of_len(message.len(), max_fragment_size as nat);
        assert(1 <= total <= 255);
        assert(!self.has(total - 1));
    }

    /// Storing a fragment of the message keeps the entry holding fragments
    /// of that message and nothing else, whichever fragment it is.
    pub proof fn lemma_stored_carries(
        &self,
        after: &Self,
        index: u8,
        message: Seq<u8>,
        max_fragment_size: usize,
    )
        requires
            self.carries(message, max_fragment_size),
            index < self.total_fragments,
            !self.has(index as int),
            self.stored(
                after,
                index,
                self.total_fragments,
                fragment(message, index as nat, max_fragment_size as nat),
                max_fragment_size,
            ),
        ensures
            after.carries(message, max_fragment_size),
    {
        let max = max_fragment_size as nat;
        let len = message.len();
        let total = fragments_of_len(len, max);
        let piece = fragment(message, index as nat, max);
        lemma_fragment_bounds(len, index as nat, max);
        let offset = fragment_start(index as nat, max);
        let end = fragment_end(len, index as nat, max);
        assert(piece.len() == end - offset);
        assert(offset == index * max_fragment_size);
        assert forall|i: int| 0 <= i < 256 && #[trigger] after.has(i) implies i < total
            && after.buffer@.subrange(fragment_start(i as nat, max), fragment_end(len, i as nat, max))
            == fragment(message, i as nat, max) by {
            if i == index {
                assert(after.buffer@.subrange(offset, end) =~= piece);
            } else {
                assert(self.has(i));
                lemma_fragment_bounds(len, i as nat, max);
                let a = fragment_start(i as nat, max);
                let b = fragment_end(len, i as nat, max);
                if i < index {
                    assert((i + 1) * max <= index * max) by (nonlinear_arith)
                        requires
                            i + 1 <= index,
                            max >= 0,
                    ;
                    assert(b <= offset);
                } else {
                    assert((index + 1) * max <= i * max) by (nonlinear_arith)
                        requires
                            index + 1 <= i,
                            max >= 0,
                    ;
                    assert(end <= a);
                }
                assert(after.buffer@.subrange(a, b) =~= self.buffer@.subrange(a, b));
            }
        }
    }

    /// Once all fragments are there, the bytes of the packet are the
    /// message.
    pub proof fn lemma_complete_is_message(&self, message: Seq<u8>, max_fragment_size: usize)
        requires
            self.wf(),
            self.carries(message, max_fragment_size),
            self.complete(),
        ensures
            self.get_data_spec() == Some(message),
            self.data() == message,
    {
        let max = max_fragment_size as nat;
        let len = message.len();
        let total = fragments_of_len(len, max) as int;
        let marks = self.received_fragments@;
        assert forall|i: int| total <= i < 256 implies !marks[i] by {
            if marks[i] {
                assert(self.has(i));
            }
        }
        lemma_count_marked_tail(marks, total, 256);
        lemma_count_marked_full(marks, total);
        assert(forall|i: int| 0 <= i < total ==> self.has(i));
        assert(total >= 1) by {
            crate::math::lemma_ceil_div(len, max);
        }
        assert(self.has(total - 1));
        assert(self.size() == len);
        assert forall|p: int| 0 <= p < len implies self.buffer@[p] == message[p] by {
            let i = p / (max as int);
            vstd::arithmetic::div_mod::lemma_fundamental_div_mod(p, max as int);
            assert(0 <= p % (max as int) < max) by (nonlinear_arith)
                requires
                    max > 0,
            ;
            assert(0 <= i) by (nonlinear_arith)
                requires
                    p >= 0,
                    max > 0,
                    i == p / (max as int),
            ;
            assert(i * max == max * i) by (nonlinear_arith);
            crate::math::lemma_ceil_div(len, max);
            if i >= total {
                assert(i * max >= total * max) by (nonlinear_arith)
                    requires
                        i >= total,
                        max > 0,
                ;
            }
            assert(i < total);
            lemma_fragment_bounds(len, i as nat, max);
            assert((i + 1) * max == i * max + max) by (nonlinear_arith);
            let a = fragment_start(i as nat, max);
            let b = fragment_end(len, i as nat, max);
            assert(a <= p < b);
            assert(self.has(i));
            assert(self.buffer@.subrange(a, b)[p - a] == fragment(message, i as nat, max)[p - a]);
        }
        assert(self.data() =~= message);
    }

    /// What `get_data` returns: the bytes of the packet once all fragments
    /// are there.
    pub open spec fn get_data_spec(&self) -> Option<Seq<u8>> {
        if self.complete() {
            Some(self.data())
        } else {
            None
        }
    }

    /// Putting a message together from its fragments gives back the
    /// message, in whatever order the fragments arrive and however often.
    ///
    /// `steps` is any run of entries in which each comes from the one
    /// before by adding some fragment of the message, the first being an
    /// entry made ready for it. If the last one is complete, it holds the
    /// message, byte for byte.
    pub proof fn lemma_reassembly_yields_message(
        steps: Seq<Self>,
        indices: Seq<u8>,
        message: Seq<u8>,
        max_fragment_size: usize,
    )
        requires
            max_fragment_size > 0,
            message.len() <= N,
            fragments_of_len(message.len(), max_fragment_size as nat) <= 255,
            steps.len() == indices.len() + 1,
            steps[0].wf(),
            steps[0].is_empty(),
            steps[0].total_fragments == fragments_of_len(
                message.len(),
                max_fragment_size as nat,
            ),
            forall|k: int|
                0 <= k < indices.len() ==> indices[k] < steps[0].total_fragments && (
                #[trigger] steps[k]).took(
                    &steps[k + 1],
                    indices[k],
                    steps[0].total_fragments,
                    fragment(message, indices[k] as nat, max_fragment_size as nat),
                    max_fragment_size,
                    steps[k].verdict(
                        indices[k],
                        steps[0].total_fragments,
                        fragment(message, indices[k] as nat, max_fragment_size as nat).len(),
                        max_fragment_size,
                    ),
                ),
            steps.last().complete(),
        ensures
            steps.last().data() == message,
    {
        Self::lemma_steps_carry(steps, indices, message, max_fragment_size, indices.len() as int);
        steps.last().lemma_complete_is_message(message, max_fragment_size);
    }

    /// Every entry of such a run is well formed and holds fragments of the
    /// message and nothing else.
    proof fn lemma_steps_carry(
        steps: Seq<Self>,
        indices: Seq<u8>,
        message: Seq<u8>,
        max_fragment_size: usize,
        upto: int,
    )
        requires
            max_fragment_size > 0,
            message.len() <= N,
            fragments_of_len(message.len(), max_fragment_size as nat) <= 255,
            steps.len() == indices.len() + 1,
            0 <= upto <= indices.len(),
            steps[0].wf(),
            steps[0].is_empty(),
            steps[0].total_fragments == fragments_of_len(
                message.len(),
                max_fragment_size as nat,
            ),
            forall|k: int|
                0 <= k < indices.len() ==> indices[k] < steps[0].total_fragments && (
                #[trigger] steps[k]).took(
                    &steps[k + 1],
                    indices[k],
                    steps[0].total_fragments,
                    fragment(message, indices[k] as nat, max_fragment_size as nat),
                    max_fragment_size,
                    steps[k].verdict(
                        indices[k],
                        steps[0].total_fragments,
                        fragment(message, indices[k] as nat, max_fragment_size as nat).len(),
                        max_fragment_size,
                    ),
                ),
        ensures
            steps[upto].wf(),
            steps[upto].carries(message, max_fragment_size),
            steps[upto].total_fragments == steps[0].total_fragments,
        decreases upto,
    {
        if upto == 0 {
            steps[0].lemma_empty_carries(message, max_fragment_size);
        } else {
            Self::lemma_steps_carry(steps, indices, message, max_fragment_size, upto - 1);
            let before = steps[upto - 1];
            let after = steps[upto];
            let index = indices[upto - 1];
            let max = max_fragment_size as nat;
            let piece = fragment(message, index as nat, max);
            assert(before.took(
                &after,
                index,
                steps[0].total_fragments,
                piece,
                max_fragment_size,
                before.verdict(index, steps[0].total_fragments, piece.len(), max_fragment_size),
            ));
            lemma_fragment_bounds(message.len(), index as nat, max);
            assert(index * max_fragment_size + piece.len() <= N);
            if !before.has(index as int) {
                before.lemma_stored_carries(&after, index, message, max_fragment_size);
                lemma_count_marked_update(before.received_fragments@, 256, index as int, true);
            }
        }
    }
}

} // verus!
