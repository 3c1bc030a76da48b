//! The receiving half of a byte-stream connection.
//!
//! Bytes are kept in a ring, the byte with sequence number `s` at place
//! `s mod capacity`. Segments that arrive in order become readable at
//! once. Segments that arrive ahead of their turn are put in their place
//! and noted in a small table, and become readable when the bytes before
//! them have arrived.

use vstd::prelude::*;
use crate::buffer::window::{distance, lemma_seq_plus_plus, seq_plus};
use crate::error::{Error, Result};
use crate::math::{least, lemma_ring_apart};
use crate::stream::config::Config;

verus! {

/// Largest ring: half the range of sequence numbers.
pub const MAX_CAPACITY: usize = 0x8000_0000;

/// Most bytes that can count as readable at a time: what sequence numbers
/// can tell apart. A ring that is not read may count more bytes as
/// readable than it has places; the oldest of them are then overwritten.
pub const MAX_UNREAD: usize = 0x7FFF_FFFF;

/// A segment that has arrived ahead of its turn.
#[derive(Debug, Clone, Copy, PartialEq, Eq, Structural)]
pub struct OooSegment {
    /// Sequence number of its first byte.
    pub seq: u32,
    pub len: u16,
    pub in_use: bool,
}

impl OooSegment {
    /// A free place in the table.
    pub fn new() -> (s: Self)
        ensures
            s == (OooSegment { seq: 0, len: 0, in_use: false }),
    {
        OooSegment { seq: 0, len: 0, in_use: false }
    }
}

/// Whether place `offset` is marked in `bitmap`, which has one bit for
/// each place, eight to a byte, the lowest bit first.
pub open spec fn place_marked(bitmap: Seq<u8>, offset: int) -> bool {
    offset / 8 < bitmap.len() && bitmap[offset / 8] & (1u8 << ((offset % 8) as u8)) != 0
}

/// The place `steps` after place `start` in a ring of `capacity` places.
pub open spec fn ring_place(start: int, steps: int, capacity: int) -> int {
    (start + steps) % capacity
}

/// Setting a bit sets it.
proof fn lemma_set_bit(x: u8, k: u8)
    requires
        k < 8,
    ensures
        (x | (1u8 << k)) & (1u8 << k) != 0,
{
    assert((x | (1u8 << k)) & (1u8 << k) != 0) by (bit_vector)
        requires
            k < 8,
    ;
}

/// Setting a bit leaves every other bit as it is.
proof fn lemma_other_bit(x: u8, k: u8, j: u8)
    requires
        k < 8,
        j < 8,
    ensures
        j != k ==> ((x | (1u8 << k)) & (1u8 << j) != 0) == (x & (1u8 << j) != 0),
{
    assert(j != k ==> ((x | (1u8 << k)) & (1u8 << j) != 0) == (x & (1u8 << j) != 0))
        by (bit_vector)
        requires
            k < 8,
            j < 8,
    ;
}

/// Clearing a bit clears it.
proof fn lemma_clear_bit(x: u8, k: u8)
    requires
        k < 8,
    ensures
        (x & !(1u8 << k)) & (1u8 << k) == 0,
{
    assert((x & !(1u8 << k)) & (1u8 << k) == 0) by (bit_vector)
        requires
            k < 8,
    ;
}

/// Clearing a bit sets no bit.
proof fn lemma_kept_bit(x: u8, k: u8, j: u8)
    requires
        k < 8,
        j < 8,
    ensures
        (x & !(1u8 << k)) & (1u8 << j) != 0 ==> x & (1u8 << j) != 0,
{
    assert((x & !(1u8 << k)) & (1u8 << j) != 0 ==> x & (1u8 << j) != 0) by (bit_vector)
        requires
            k < 8,
            j < 8,
    ;
}

/// The sum of the lengths of the segments among the first `n` of `before`
/// that are in use there and no more in `after`.
pub open spec fn stitched_len(before: Seq<OooSegment>, after: Seq<OooSegment>, n: int) -> int
    decreases n,
{
    if n <= 0 {
        0
    } else {
        stitched_len(before, after, n - 1) + (if before[n - 1].in_use && !after[n - 1].in_use {
            before[n - 1].len as int
        } else {
            0
        })
    }
}

/// The sum of the lengths of the segments that `order` names, in `table`.
#[verifier::opaque]
pub open spec fn chain_len(table: Seq<OooSegment>, order: Seq<int>) -> int
    decreases order.len(),
{
    if order.len() == 0 {
        0
    } else {
        chain_len(table, order.drop_last()) + table[order.last()].len as int
    }
}

/// Whether the segments of `table` that `order` names, each once and in
/// this order, follow each other without a gap from sequence number `from`
/// on: each is noted as starting where the one before it ends.
#[verifier::opaque]
pub open spec fn chained(table: Seq<OooSegment>, order: Seq<int>, from: u32) -> bool
    decreases order.len(),
{
    if order.len() == 0 {
        true
    } else {
        let last = order.last();
        &&& chained(table, order.drop_last(), from)
        &&& 0 <= last < table.len()
        &&& table[last].in_use
        &&& table[last].seq == seq_plus(from, chain_len(table, order.drop_last()))
        &&& !order.drop_last().contains(last)
    }
}

/// Whether `order` names exactly the segments that are noted in `before`
/// and no more in `after`.
#[verifier::opaque]
pub open spec fn names_taken(before: Seq<OooSegment>, after: Seq<OooSegment>, order: Seq<int>) -> bool {
    forall|i: int|
        0 <= i < before.len() ==> ((before[i].in_use && !after[i].in_use) <==> order.contains(i))
}

/// Where no segment has left the table, none is named.
pub proof fn lemma_names_none(table: Seq<OooSegment>)
    ensures
        names_taken(table, table, Seq::<int>::empty()),
{
    reveal(names_taken);
}

/// A segment that leaves the table is not named yet, and is named once it
/// is put behind the others.
pub proof fn lemma_names_one_more(
    first: Seq<OooSegment>,
    before: Seq<OooSegment>,
    after: Seq<OooSegment>,
    order: Seq<int>,
    i: int,
)
    requires
        names_taken(first, before, order),
        first.len() == before.len(),
        0 <= i < before.len(),
        before[i].in_use,
        after == before.update(i, OooSegment { in_use: false, ..before[i] }),
        forall|j: int| 0 <= j < first.len() && before[j].in_use ==> first[j] == before[j],
    ensures
        !order.contains(i),
        names_taken(first, after, order.push(i)),
{
    reveal(names_taken);
    let more = order.push(i);
    assert forall|j: int| 0 <= j < first.len() implies ((first[j].in_use && !after[j].in_use)
        <==> more.contains(j)) by {
        if more.contains(j) {
            let k = choose|k: int| 0 <= k < more.len() && more[k] == j;
            if k < order.len() {
                assert(order[k] == j);
                assert(order.contains(j));
            }
        }
        if order.contains(j) {
            let k = choose|k: int| 0 <= k < order.len() && order[k] == j;
            assert(more[k] == j);
        }
        if j == i {
            assert(more[order.len() as int] == j);
        }
    }
}

/// One more segment that starts where the chain ends makes the chain
/// longer by its length.
pub proof fn lemma_chain_push(table: Seq<OooSegment>, order: Seq<int>, from: u32, i: int)
    requires
        chained(table, order, from),
        0 <= i < table.len(),
        table[i].in_use,
        table[i].seq == seq_plus(from, chain_len(table, order)),
        !order.contains(i),
    ensures
        chained(table, order.push(i), from),
        chain_len(table, order.push(i)) == chain_len(table, order) + table[i].len,
{
    reveal(chained);
    reveal(chain_len);
    let more = order.push(i);
    assert(more.drop_last() =~= order);
    assert(more.last() == i);
}

/// No segment at all is a chain of no length.
pub proof fn lemma_chain_none(table: Seq<OooSegment>, from: u32)
    ensures
        chained(table, Seq::<int>::empty(), from),
        chain_len(table, Seq::<int>::empty()) == 0,
{
    reveal(chained);
    reveal(chain_len);
}

/// The receiving half.
pub struct Receiver {
    buffer: Vec<u8>,
    capacity: usize,
    /// Sequence number of the next byte awaited in order.
    recv_next: u32,
    /// Number of bytes that have become readable since the ring was last
    /// read empty.
    readable: usize,
    /// How many of those have been read.
    read_pos: usize,
    ooo_segments: Vec<OooSegment>,
    /// One bit for each place of the ring that holds a byte received.
    recv_bitmap: Vec<u8>,
}

impl Receiver {
    pub closed spec fn spec_capacity(&self) -> usize {
        self.capacity
    }

    pub closed spec fn spec_next(&self) -> u32 {
        self.recv_next
    }

    /// Number of bytes that can be read.
    pub closed spec fn unread_len(&self) -> int {
        self.readable - self.read_pos
    }

    /// The place of sequence number `seq` in the ring.
    #[verifier::opaque]
    pub closed spec fn place(&self, seq: u32) -> int {
        (seq as int) % (self.capacity as int)
    }

    /// The byte in the place of sequence number `seq`.
    pub closed spec fn byte_at(&self, seq: u32) -> u8 {
        self.buffer@[self.place(seq)]
    }

    /// Every place is one of the places of the ring, and sequence numbers
    /// that lie fewer steps apart than the ring has places have different
    /// places, where the ring never runs into itself.
    pub proof fn lemma_places(&self, seq: u32, d: int)
        requires
            self.spec_capacity() > 0,
        ensures
            0 <= self.place(seq) < self.spec_capacity(),
            self.ring_friendly() && 0 < d < self.spec_capacity() ==> self.place(seq_plus(seq, d))
                != self.place(seq),
    {
        reveal(Receiver::place);
        assert(0 <= (seq as int) % (self.capacity as int) < self.capacity) by (nonlinear_arith)
            requires
                self.capacity > 0,
                seq >= 0,
        ;
        if self.ring_friendly() && 0 < d < self.capacity {
            lemma_ring_apart(seq, d, self.capacity as int);
        }
    }

    /// Sequence number of the first byte that can be read.
    pub open spec fn read_start(&self) -> u32 {
        seq_plus(self.spec_next(), -self.unread_len())
    }

    /// The bytes that can be read, in order.
    pub open spec fn unread(&self) -> Seq<u8> {
        Seq::new(self.unread_len() as nat, |i: int| self.byte_at(seq_plus(self.read_start(), i)))
    }

    /// The table of segments that have arrived ahead of their turn.
    pub closed spec fn segments(&self) -> Seq<OooSegment> {
        self.ooo_segments@
    }

    /// Whether the ring and its bitmap have the size they are said to
    /// have, and the bytes that can be read fit the ring.
    pub closed spec fn wf(&self) -> bool {
        &&& self.capacity <= MAX_CAPACITY
        &&& self.buffer@.len() == self.capacity
        &&& self.recv_bitmap@.len() == (self.capacity + 7) / 8
        &&& self.read_pos <= self.readable
        &&& self.readable - self.read_pos <= MAX_UNREAD
        &&& self.capacity == 0 ==> self.readable == self.read_pos
    }

    /// What `wf` says, for those who cannot look inside.
    pub proof fn lemma_wf(&self)
        requires
            self.wf(),
        ensures
            self.spec_capacity() <= MAX_CAPACITY,
            0 <= self.unread_len() <= MAX_UNREAD,
            self.unread().len() == self.unread_len(),
    {
    }

    /// Whether the ring never runs into itself: its capacity divides the
    /// range of sequence numbers, so that bytes next to each other in the
    /// stream are next to each other in the ring even where the numbers
    /// wrap around.
    pub open spec fn ring_friendly(&self) -> bool {
        self.spec_capacity() > 0 && 0x1_0000_0000int % (self.spec_capacity() as int) == 0
    }

    /// A receiver that awaits `initial_seq`, with a ring of
    /// `recv_buffer_size` bytes, or of half the range of sequence numbers
    /// where that is less, and a table of `max_segments` places.
    pub fn new(initial_seq: u32, config: &Config) -> (r: Self)
        ensures
            r.wf(),
            r.spec_capacity() == least(config.recv_buffer_size as int, MAX_CAPACITY as int),
            r.spec_next() == initial_seq,
            r.unread_len() == 0,
            r.segments().len() == config.max_segments,
            forall|i: int| 0 <= i < r.segments().len() ==> !(#[trigger] r.segments()[i]).in_use,
    {
        let capacity = if config.recv_buffer_size < MAX_CAPACITY {
            config.recv_buffer_size
        } else {
            MAX_CAPACITY
        };
        let bitmap_size = (capacity + 7) / 8;
        Receiver {
            buffer: vec![0u8; capacity],
            capacity,
            recv_next: initial_seq,
            readable: 0,
            read_pos: 0,
            ooo_segments: vec![OooSegment::new(); config.max_segments],
            recv_bitmap: vec![0u8; bitmap_size],
        }
    }

    /// Starts over from `initial_seq`: nothing to read, nothing noted.
    pub fn reinit(&mut self, initial_seq: u32)
        requires
            old(self).wf(),
        ensures
            final(self).wf(),
            final(self).spec_capacity() == old(self).spec_capacity(),
            final(self).spec_next() == initial_seq,
            final(self).unread_len() == 0,
            final(self).segments().len() == old(self).segments().len(),
            forall|i: int|
                0 <= i < final(self).segments().len() ==> !(#[trigger] final(self).segments()[i]).in_use,
    {
        self.recv_next = initial_seq;
        self.readable = 0;
        self.read_pos = 0;
        let mut i: usize = 0;
        while i < self.recv_bitmap.len()
            invariant
                i <= self.recv_bitmap@.len(),
                self.recv_bitmap@.len() == old(self).recv_bitmap@.len(),
                self.capacity == old(self).capacity,
                self.buffer@ == old(self).buffer@,
                self.ooo_segments@ == old(self).ooo_segments@,
                self.readable == 0,
                self.read_pos == 0,
                self.recv_next == initial_seq,
            decreases self.recv_bitmap@.len() - i,
        {
            self.recv_bitmap[i] = 0;
            i = i + 1;
        }
        let mut k: usize = 0;
        while k < self.ooo_segments.len()
            invariant
                k <= self.ooo_segments@.len(),
                self.ooo_segments@.len() == old(self).ooo_segments@.len(),
                self.recv_bitmap@.len() == old(self).recv_bitmap@.len(),
                self.capacity == old(self).capacity,
                self.buffer@ == old(self).buffer@,
                self.readable == 0,
                self.read_pos == 0,
                self.recv_next == initial_seq,
                forall|j: int| 0 <= j < k ==> !(#[trigger] self.ooo_segments@[j]).in_use,
            decreases self.ooo_segments@.len() - k,
        {
            self.ooo_segments[k].in_use = false;
            k = k + 1;
        }
    }

    /// The sequence number of the next byte awaited in order: the one to
    /// acknowledge.
    #[verifier::when_used_as_spec(spec_next)]
    pub fn next_expected(&self) -> (s: u32)
        ensures
            s == self.spec_next(),
    {
        self.recv_next
    }

    /// Whether there is anything to read.
    pub fn has_data(&self) -> (b: bool)
        ensures
            b == (self.unread_len() > 0),
    {
        self.readable > self.read_pos
    }

    /// Number of bytes that can be read.
    pub fn readable_len(&self) -> (n: usize)
        requires
            self.wf(),
        ensures
            n == self.unread_len(),
    {
        self.readable - self.read_pos
    }

    /// The place of sequence number `seq` in the ring.
    fn seq_to_index(&self, seq: u32) -> (i: usize)
        requires
            self.capacity > 0,
        ensures
            i == self.place(seq),
            i < self.capacity,
    {
        proof {
            reveal(Receiver::place);
        }
        (seq as usize) % self.capacity
    }

    /// Whether place `offset` of the ring is marked in the bitmap as
    /// holding a byte received.
    pub closed spec fn marked_place(&self, offset: int) -> bool {
        place_marked(self.recv_bitmap@, offset)
    }

    /// Marks place `offset` of the ring as holding a byte received.
    fn set_bitmap(&mut self, offset: usize)
        ensures
            final(self).recv_bitmap@.len() == old(self).recv_bitmap@.len(),
            final(self).buffer@ == old(self).buffer@,
            final(self).capacity == old(self).capacity,
            final(self).recv_next == old(self).recv_next,
            final(self).readable == old(self).readable,
            final(self).read_pos == old(self).read_pos,
            final(self).ooo_segments@ == old(self).ooo_segments@,
            offset / 8 < old(self).recv_bitmap@.len() ==> final(self).marked_place(offset as int),
            forall|p: int|
                0 <= p && p != offset ==> final(self).marked_place(p) == old(self).marked_place(p),
    {
        let byte_idx = offset / 8;
        let bit_idx = (offset % 8) as u8;
        if byte_idx < self.recv_bitmap.len() {
            let bit = 1u8 << bit_idx;
            let before = self.recv_bitmap[byte_idx];
            self.recv_bitmap[byte_idx] = before | bit;
            proof {
                lemma_set_bit(before, bit_idx);
                assert forall|p: int| 0 <= p
                    && p != offset implies self.marked_place(p) == old(self).marked_place(p) by {
                    if p / 8 == byte_idx as int {
                        lemma_other_bit(before, bit_idx, (p % 8) as u8);
                    }
                }
            }
        }
    }

    /// Whether place `offset` of the ring is marked as holding a byte
    /// received.
    #[allow(dead_code)]
    fn is_bitmap_set(&self, offset: usize) -> (b: bool)
        ensures
            b == self.marked_place(offset as int),
    {
        let byte_idx = offset / 8;
        let bit_idx = (offset % 8) as u8;
        if byte_idx < self.recv_bitmap.len() {
            let bit = 1u8 << bit_idx;
            (self.recv_bitmap[byte_idx] & bit) != 0
        } else {
            false
        }
    }

    /// Takes the marks of `len` places from place `start` on away. No
    /// other mark changes, and none is added.
    fn clear_bitmap_range(&mut self, start: usize, len: usize)
        requires
            old(self).capacity > 0,
            start < old(self).capacity,
            len <= old(self).capacity,
            old(self).capacity <= MAX_CAPACITY,
        ensures
            final(self).recv_bitmap@.len() == old(self).recv_bitmap@.len(),
            final(self).buffer@ == old(self).buffer@,
            final(self).capacity == old(self).capacity,
            final(self).recv_next == old(self).recv_next,
            final(self).readable == old(self).readable,
            final(self).read_pos == old(self).read_pos,
            final(self).ooo_segments@ == old(self).ooo_segments@,
            forall|p: int| 0 <= p && final(self).marked_place(p) ==> old(self).marked_place(p),
            forall|i: int|
                0 <= i < len ==> !final(self).marked_place(
                    #[trigger] ring_place(start as int, i, old(self).capacity as int),
                ),
    {
        let mut i: usize = 0;
        while i < len
            invariant
                i <= len,
                self.capacity > 0,
                start < self.capacity,
                len <= self.capacity,
                self.capacity <= MAX_CAPACITY,
                self.recv_bitmap@.len() == old(self).recv_bitmap@.len(),
                self.buffer@ == old(self).buffer@,
                self.capacity == old(self).capacity,
                self.recv_next == old(self).recv_next,
                self.readable == old(self).readable,
                self.read_pos == old(self).read_pos,
                self.ooo_segments@ == old(self).ooo_segments@,
                forall|p: int| 0 <= p && self.marked_place(p) ==> old(self).marked_place(p),
                forall|k: int|
                    0 <= k < i ==> !self.marked_place(
                        #[trigger] ring_place(start as int, k, self.capacity as int),
                    ),
            decreases len - i,
        {
            let offset = (start + i) % self.capacity;
            let byte_idx = offset / 8;
            let bit_idx = (offset % 8) as u8;
            let ghost earlier = *self;
            if byte_idx < self.recv_bitmap.len() {
                let bit = 1u8 << bit_idx;
                let before = self.recv_bitmap[byte_idx];
                self.recv_bitmap[byte_idx] = before & !bit;
                proof {
                    lemma_clear_bit(before, bit_idx);
                    assert forall|p: int| 0 <= p && self.marked_place(p) implies earlier.marked_place(
                        p,
                    ) by {
                        if p / 8 == byte_idx as int {
                            lemma_kept_bit(before, bit_idx, (p % 8) as u8);
                        }
                    }
                }
            }
            proof {
                assert(offset == ring_place(start as int, i as int, self.capacity as int));
                assert(!self.marked_place(offset as int));
            }
            i = i + 1;
        }
    }

    /// All the bytes of the ring, by place.
    pub closed spec fn storage(&self) -> Seq<u8> {
        self.buffer@
    }

    /// Whether `self` and `other` are the same but for the marks of the
    /// places that hold a byte received.
    pub open spec fn same_stream(&self, other: &Self) -> bool {
        &&& self.spec_capacity() == other.spec_capacity()
        &&& self.spec_next() == other.spec_next()
        &&& self.unread_len() == other.unread_len()
        &&& self.segments() == other.segments()
        &&& self.storage() == other.storage()
    }

    /// How many steps after the byte awaited the segment that starts at
    /// `seq` lies.
    pub open spec fn offset_of(&self, seq: u32) -> int {
        distance(self.spec_next(), seq)
    }

    /// Why a segment of `len` bytes that starts at `seq` is not taken, if
    /// it is not: it starts at or beyond the end of the ring, or it would
    /// reach beyond the end of the ring, or it starts at the byte awaited
    /// and would let more bytes count as readable than sequence numbers
    /// can tell apart.
    pub open spec fn refusal(&self, seq: u32, len: nat) -> Option<Error> {
        if len == 0 {
            None
        } else if self.offset_of(seq) >= self.spec_capacity() {
            if self.offset_of(seq) > 0x8000_0000 {
                None
            } else {
                Some(Error::InvalidSequence)
            }
        } else if self.offset_of(seq) + len > self.spec_capacity() {
            Some(Error::BufferFull)
        } else if self.offset_of(seq) == 0 && len > MAX_UNREAD - self.unread_len() {
            Some(Error::BufferFull)
        } else {
            None
        }
    }

    /// Whether a segment of `len` bytes that starts at `seq` is put into
    /// the ring: `refusal` names no error, and the segment is not empty
    /// and does not lie before the byte awaited.
    pub open spec fn accepts(&self, seq: u32, len: nat) -> bool {
        &&& len > 0
        &&& self.offset_of(seq) < self.spec_capacity()
        &&& self.offset_of(seq) + len <= self.spec_capacity()
        &&& self.offset_of(seq) == 0 ==> len <= MAX_UNREAD - self.unread_len()
    }

    /// Whether a segment of `len` bytes that starts at `seq` leaves the
    /// bytes that are still to be read alone: it ends before the ring
    /// comes round to them.
    pub open spec fn spares_unread(&self, seq: u32, len: nat) -> bool {
        self.offset_of(seq) + len <= self.spec_capacity() - self.unread_len()
    }

    /// Whether sequence number `x` lies clear of a segment of `len` bytes
    /// that starts at `seq`, by the distances alone: behind its end and
    /// less than once round the ring from its start, or before its start
    /// and so near that the segment does not come round to it.
    pub open spec fn clear_of(&self, seq: u32, len: nat, x: u32) -> bool {
        ||| len <= distance(seq, x) < self.spec_capacity()
        ||| 0 < distance(x, seq) && distance(x, seq) + len <= self.spec_capacity()
    }

    /// A segment does not write the place of a sequence number that lies
    /// clear of it, where the ring never runs into itself.
    pub proof fn lemma_clear_is_not_written(&self, seq: u32, len: nat, x: u32)
        requires
            self.ring_friendly(),
            self.clear_of(seq, len, x),
        ensures
            !self.writes(seq, len, x),
    {
        assert forall|j: int| 0 <= j < len implies #[trigger] self.place(seq_plus(seq, j))
            != self.place(x) by {
            let at = seq_plus(seq, j);
            if len <= distance(seq, x) < self.spec_capacity() {
                let d = distance(seq, x);
                lemma_seq_plus_plus(seq, j, d - j);
                assert(seq_plus(at, d - j) == x);
                self.lemma_places(at, d - j);
            } else {
                let d = distance(x, seq);
                lemma_seq_plus_plus(x, d, j);
                assert(seq_plus(x, d + j) == at);
                self.lemma_places(x, d + j);
            }
        }
    }

    /// Whether a segment of `len` bytes that starts at `seq` writes the
    /// place of sequence number `x`: one of its bytes goes there.
    pub open spec fn writes(&self, seq: u32, len: nat, x: u32) -> bool {
        exists|j: int| 0 <= j < len && #[trigger] self.place(seq_plus(seq, j)) == self.place(x)
    }

    /// The first place of the table that notes a segment starting at
    /// `seq`, or the length of the table.
    pub open spec fn noted_at(&self, seq: u32) -> int {
        crate::math::first_such(
            self.segments().len() as int,
            |i: int| self.segments()[i].in_use && self.segments()[i].seq == seq,
        )
    }

    /// The first free place of the table, or the length of the table.
    pub open spec fn free_at(&self) -> int {
        crate::math::first_such(self.segments().len() as int, |i: int| !self.segments()[i].in_use)
    }

    /// The table after a segment of `len` bytes that starts at `seq` has
    /// arrived ahead of its turn: noted in the first free place, unless
    /// a segment starting there is noted already or no place is free.
    pub open spec fn table_with(&self, seq: u32, len: nat) -> Seq<OooSegment> {
        if self.noted_at(seq) < self.segments().len() || self.free_at() >= self.segments().len() {
            self.segments()
        } else {
            self.segments().update(
                self.free_at(),
                OooSegment { seq, len: (len % 0x1_0000) as u16, in_use: true },
            )
        }
    }

    /// Takes the segment `data` that starts at sequence number `seq`, and
    /// returns the number of bytes that have become readable by it.
    ///
    /// An empty segment, and one that lies before the byte awaited, is
    /// dropped. One that starts at or beyond the end of the ring is
    /// refused as `InvalidSequence`, one that would reach beyond the end
    /// of the ring as `BufferFull`. Every other segment is put in its
    /// place: its bytes go to the places that `writes` names, and every
    /// other byte of the ring stays. Bytes that are still to be read stay
    /// only where the segment spares them, as `spares_unread` says: the
    /// ring does not hold back a segment that comes round to them.
    /// If the segment starts at the byte awaited, it becomes readable at
    /// once, together with the segments noted in the table that follow it
    /// without a gap. If it lies ahead, it is noted in the table.
    pub fn receive(&mut self, seq: u32, data: &[u8]) -> (r: Result<usize>)
        requires
            old(self).wf(),
        ensures
            final(self).wf(),
            final(self).spec_capacity() == old(self).spec_capacity(),
            final(self).segments().len() == old(self).segments().len(),
            !old(self).accepts(seq, data@.len()) ==> final(self).same_stream(old(self)) && r == (
            match old(self).refusal(seq, data@.len()) {
                Some(e) => Err::<usize, Error>(e),
                None => Ok::<usize, Error>(0),
            }),
            old(self).accepts(seq, data@.len()) ==> {
                &&& r is Ok
                &&& final(self).spec_next() == seq_plus(old(self).spec_next(), r->Ok_0 as int)
                &&& final(self).unread_len() == old(self).unread_len() + r->Ok_0
                &&& old(self).ring_friendly() ==> forall|i: int|
                    0 <= i < data@.len() ==> #[trigger] final(self).segment_byte(seq, i)
                        == data@[i]
                &&& old(self).ring_friendly() && old(self).spares_unread(seq, data@.len())
                    ==> final(self).unread().subrange(0, old(self).unread_len()) == old(self).unread()
                &&& forall|x: u32|
                    !old(self).writes(seq, data@.len(), x) ==> #[trigger] final(self).byte_at(x)
                        == old(self).byte_at(x)
                &&& old(self).ring_friendly() ==> forall|x: u32|
                    old(self).clear_of(seq, data@.len(), x) ==> #[trigger] final(self).byte_at(x)
                        == old(self).byte_at(x)
            },
            old(self).accepts(seq, data@.len()) && old(self).offset_of(seq) > 0 ==> r == Ok::<
                usize,
                Error,
            >(0) && final(self).segments() == old(self).table_with(seq, data@.len()),
            old(self).accepts(seq, data@.len()) && old(self).offset_of(seq) == 0
                ==> old(self).stitched(final(self), data@.len() as int, r->Ok_0 as int),
    {
        if data.len() == 0 {
            return Ok(0);
        }
        let offset = seq.wrapping_sub(self.recv_next) as usize;
        if offset >= self.capacity {
            if offset > 0x8000_0000 {
                return Ok(0);
            }
            return Err(Error::InvalidSequence);
        }
        if data.len() > self.capacity - offset {
            return Err(Error::BufferFull);
        }
        if offset == 0 && data.len() > MAX_UNREAD - (self.readable - self.read_pos) {
            return Err(Error::BufferFull);
        }
        let n = data.len();
        let ghost start = self.read_start();
        let ghost unread = self.unread_len();
        self.write_segment(seq, data);
        let ghost written = *self;
        if offset > 0 {
            self.note_segment(seq, n);
            proof {
                assert(forall|x: u32| self.byte_at(x) == written.byte_at(x)) by {
                    reveal(Receiver::place);
                }
                assert forall|x: u32| !old(self).writes(seq, data@.len(), x) implies #[trigger] self.byte_at(
                    x,
                ) == old(self).byte_at(x) by {
                    assert(written.byte_at(x) == old(self).byte_at(x));
                }
                if old(self).ring_friendly() {
                    assert forall|x: u32| old(self).clear_of(seq, data@.len(), x) implies #[trigger] self.byte_at(
                        x,
                    ) == old(self).byte_at(x) by {
                        old(self).lemma_clear_is_not_written(seq, data@.len(), x);
                    }
                }
                if old(self).ring_friendly() {
                    if old(self).spares_unread(seq, data@.len()) {
                        assert forall|k: int| 0 <= k < unread implies self.unread()[k] == old(self).unread()[k] by {
                            assert(written.segment_byte(start, k) == old(self).segment_byte(
                                start,
                                k,
                            ));
                        }
                        assert(self.unread().subrange(0, unread) =~= old(self).unread());
                    }
                    assert forall|j: int| 0 <= j < data@.len() implies #[trigger] self.segment_byte(
                        seq,
                        j,
                    ) == data@[j] by {
                        assert(written.segment_byte(seq, j) == data@[j]);
                    }
                }
            }
            return Ok(0);
        }
        let advanced = self.advance_recv_next(n);
        proof {
            assert forall|x: u32| !old(self).writes(seq, data@.len(), x) implies #[trigger] self.byte_at(
                x,
            ) == old(self).byte_at(x) by {
                assert(self.byte_at(x) == written.byte_at(x)) by {
                    reveal(Receiver::place);
                }
                assert(written.byte_at(x) == old(self).byte_at(x));
            }
            if old(self).ring_friendly() {
                assert forall|x: u32| old(self).clear_of(seq, data@.len(), x) implies #[trigger] self.byte_at(
                    x,
                ) == old(self).byte_at(x) by {
                    old(self).lemma_clear_is_not_written(seq, data@.len(), x);
                }
            }
            if old(self).ring_friendly() {
                assert(forall|x: u32| self.byte_at(x) == written.byte_at(x)) by {
                    reveal(Receiver::place);
                }
                if old(self).spares_unread(seq, data@.len()) {
                    assert forall|k: int| 0 <= k < unread implies self.unread().subrange(
                        0,
                        unread,
                    )[k] == old(self).unread()[k] by {
                        assert(self.read_start() == start);
                        assert(written.segment_byte(start, k) == old(self).segment_byte(start, k));
                    }
                    assert(self.unread().subrange(0, unread) =~= old(self).unread());
                }
                assert forall|j: int| 0 <= j < data@.len() implies #[trigger] self.segment_byte(
                    seq,
                    j,
                ) == data@[j] by {
                    assert(written.segment_byte(seq, j) == data@[j]);
                }
            }
        }
        Ok(advanced)
    }

    /// Puts the bytes of `data` in their places, the first at the place of
    /// `seq`.
    fn write_segment(&mut self, seq: u32, data: &[u8])
        requires
            old(self).wf(),
            old(self).accepts(seq, data@.len()),
        ensures
            final(self).wf(),
            final(self).capacity == old(self).capacity,
            final(self).recv_next == old(self).recv_next,
            final(self).readable == old(self).readable,
            final(self).read_pos == old(self).read_pos,
            final(self).ooo_segments@ == old(self).ooo_segments@,
            old(self).ring_friendly() ==> forall|j: int|
                0 <= j < data@.len() ==> #[trigger] final(self).segment_byte(seq, j) == data@[j],
            old(self).ring_friendly() && old(self).spares_unread(seq, data@.len()) ==> forall|
                k: int,
            |
                0 <= k < old(self).unread_len() ==> #[trigger] final(self).segment_byte(
                    old(self).read_start(),
                    k,
                ) == old(self).segment_byte(old(self).read_start(), k),
            forall|x: u32|
                !old(self).writes(seq, data@.len(), x) ==> #[trigger] final(self).byte_at(x) == old(self).byte_at(x),
    {
        let n = data.len();
        let ghost spares = self.spares_unread(seq, data@.len());
        let ghost start = self.read_start();
        let ghost unread = self.unread_len();
        let ghost offset = self.offset_of(seq);
        let mut i: usize = 0;
        while i < n
            invariant
                i <= n,
                n == data@.len(),
                self.wf(),
                self.capacity == old(self).capacity,
                self.capacity > 0,
                self.recv_next == old(self).recv_next,
                self.readable == old(self).readable,
                self.read_pos == old(self).read_pos,
                self.ooo_segments@ == old(self).ooo_segments@,
                start == old(self).read_start(),
                unread == old(self).unread_len(),
                0 <= unread,
                offset == old(self).offset_of(seq),
                0 <= offset,
                offset + n <= self.capacity,
                spares == old(self).spares_unread(seq, data@.len()),
                spares ==> offset + n <= self.capacity - unread,
                seq == seq_plus(start, unread + offset),
                old(self).ring_friendly() ==> forall|j: int|
                    0 <= j < i ==> #[trigger] self.segment_byte(seq, j) == data@[j],
                old(self).ring_friendly() && spares ==> forall|k: int|
                    0 <= k < unread ==> #[trigger] self.segment_byte(start, k) == old(self).segment_byte(start, k),
                forall|x: u32|
                    !old(self).writes(seq, data@.len(), x) ==> #[trigger] self.byte_at(x) == old(self).byte_at(x),
            decreases n - i,
        {
            let at = seq.wrapping_add(i as u32);
            let idx = self.seq_to_index(at);
            let ghost before = *self;
            self.buffer[idx] = data[i];
            let ghost put = *self;
            self.set_bitmap(idx);
            proof {
                assert(at == seq_plus(seq, i as int));
                assert forall|x: u32| !old(self).writes(seq, data@.len(), x) implies #[trigger] self.byte_at(
                    x,
                ) == old(self).byte_at(x) by {
                    before.lemma_places(x, 0);
                    assert(before.byte_at(x) == old(self).byte_at(x));
                    assert(old(self).place(seq_plus(seq, i as int)) != old(self).place(x));
                    assert(idx == before.place(at));
                    assert(put.buffer@ == before.buffer@.update(idx as int, data@[i as int]));
                    assert(before.place(x) == old(self).place(x)
                        && before.place(at) == old(self).place(at)
                        && self.place(x) == before.place(x)) by {
                        reveal(Receiver::place);
                    }
                    assert(put.buffer@[before.place(x)] == before.buffer@[before.place(x)]);
                    assert(self.buffer@ == put.buffer@);
                }
                if old(self).ring_friendly() {
                    assert(before.ring_friendly());
                    assert(forall|x: u32| self.byte_at(x) == put.byte_at(x)) by {
                        reveal(Receiver::place);
                    }
                    assert forall|j: int| 0 <= j < i + 1 implies #[trigger] self.segment_byte(
                        seq,
                        j,
                    ) == data@[j] by {
                        let p = seq_plus(seq, j);
                        if j < i {
                            lemma_seq_plus_plus(seq, j, i - j);
                            assert(seq_plus(p, i - j) == at);
                            assert(put.buffer@ == before.buffer@.update(
                                before.place(seq_plus(p, i - j)),
                                data@[i as int],
                            ));
                            before.lemma_put_keeps(&put, p, i - j, data@[i as int]);
                            assert(before.segment_byte(seq, j) == data@[j]);
                            assert(put.byte_at(p) == before.byte_at(p));
                            assert(self.byte_at(p) == put.byte_at(p));
                        } else {
                            before.lemma_places(at, 0);
                            assert(put.place(at) == before.place(at)) by {
                                reveal(Receiver::place);
                            }
                            assert(p == at);
                            assert(put.buffer@[idx as int] == data@[i as int]);
                            assert(put.byte_at(at) == data@[i as int]);
                            assert(self.byte_at(at) == put.byte_at(at));
                        }
                    }
                    assert forall|k: int| spares && 0 <= k < unread implies #[trigger] self.segment_byte(
                        start,
                        k,
                    ) == old(self).segment_byte(start, k) by {
                        let p = seq_plus(start, k);
                        lemma_seq_plus_plus(start, unread + offset, i as int);
                        lemma_seq_plus_plus(start, k, unread - k + offset + i);
                        assert(seq_plus(p, unread - k + offset + i) == at);
                        assert(put.buffer@ == before.buffer@.update(
                            before.place(seq_plus(p, unread - k + offset + i)),
                            data@[i as int],
                        ));
                        before.lemma_put_keeps(&put, p, unread - k + offset + i, data@[i as int]);
                        assert(before.segment_byte(start, k) == old(self).segment_byte(start, k));
                        assert(put.byte_at(p) == before.byte_at(p));
                        assert(self.byte_at(p) == put.byte_at(p));
                    }
                }
            }
            i = i + 1;
        }
    }

    /// Putting a byte in the place of `at` leaves the byte of `p` where it
    /// is, if `p` lies fewer steps before `at` than the ring has places.
    proof fn lemma_put_keeps(&self, after: &Self, p: u32, d: int, byte: u8)
        requires
            self.ring_friendly(),
            0 < d < self.capacity,
            after.capacity == self.capacity,
            self.buffer@.len() == self.capacity,
            after.buffer@ == self.buffer@.update(self.place(seq_plus(p, d)), byte),
        ensures
            after.byte_at(p) == self.byte_at(p),
            after.byte_at(seq_plus(p, d)) == byte,
    {
        self.lemma_places(p, d);
        self.lemma_places(seq_plus(p, d), 0);
        assert(after.place(p) == self.place(p) && after.place(seq_plus(p, d)) == self.place(
            seq_plus(p, d),
        )) by {
            reveal(Receiver::place);
        }
    }

    /// The byte that the segment starting at `seq` has in place `j`.
    pub open spec fn segment_byte(&self, seq: u32, j: int) -> u8 {
        self.byte_at(seq_plus(seq, j))
    }

    /// Notes a segment of `len` bytes that starts at `seq` in the table,
    /// unless one starting there is noted already or no place is free.
    fn note_segment(&mut self, seq: u32, len: usize)
        ensures
            final(self).segments() == old(self).table_with(seq, len as nat),
            final(self).segments().len() == old(self).segments().len(),
            final(self).buffer@ == old(self).buffer@,
            final(self).recv_bitmap@ == old(self).recv_bitmap@,
            final(self).capacity == old(self).capacity,
            final(self).recv_next == old(self).recv_next,
            final(self).readable == old(self).readable,
            final(self).read_pos == old(self).read_pos,
    {
        let ghost noted = |i: int| self.segments()[i].in_use && self.segments()[i].seq == seq;
        let ghost free = |i: int| !self.segments()[i].in_use;
        let count = self.ooo_segments.len();
        let mut i: usize = 0;
        while i < count
            invariant
                i <= count,
                count == self.ooo_segments@.len(),
                *self == *old(self),
                noted == (|i: int| self.segments()[i].in_use && self.segments()[i].seq == seq),
                forall|j: int| 0 <= j < i ==> !#[trigger] noted(j),
            decreases count - i,
        {
            if self.ooo_segments[i].in_use && self.ooo_segments[i].seq == seq {
                proof {
                    assert(noted(i as int));
                    crate::math::lemma_first_such_is(count as int, noted, i as int);
                }
                return ;
            }
            assert(!noted(i as int));
            i = i + 1;
        }
        proof {
            crate::math::lemma_first_such_is(count as int, noted, count as int);
        }
        let mut k: usize = 0;
        while k < count
            invariant
                k <= count,
                count == self.ooo_segments@.len(),
                *self == *old(self),
                old(self).noted_at(seq) == count,
                free == (|i: int| !self.segments()[i].in_use),
                forall|j: int| 0 <= j < k ==> !#[trigger] free(j),
            decreases count - k,
        {
            if !self.ooo_segments[k].in_use {
                proof {
                    assert(free(k as int));
                    crate::math::lemma_first_such_is(count as int, free, k as int);
                }
                self.ooo_segments[k] = OooSegment {
                    seq,
                    len: (len % 0x1_0000) as u16,
                    in_use: true,
                };
                assert(self.segments() =~= old(self).table_with(seq, len as nat));
                return ;
            }
            assert(!free(k as int));
            k = k + 1;
        }
        proof {
            crate::math::lemma_first_such_is(count as int, free, count as int);
        }
    }

    /// Number of segments noted among the first `n` places of `table`.
    pub open spec fn count_noted(table: Seq<OooSegment>, n: int) -> int
        decreases n,
    {
        if n <= 0 {
            0
        } else {
            Self::count_noted(table, n - 1) + (if table[n - 1].in_use {
                1int
            } else {
                0int
            })
        }
    }

    /// Whether `after` is `self` once `len` bytes that arrived in order,
    /// and the segments noted that follow them without a gap, have become
    /// readable, `advanced` bytes in all: the byte awaited has moved on by
    /// that much, the segments that have become readable are off the
    /// table and make up what goes beyond `len`, the others are as they
    /// were, and no segment is noted as starting at the byte awaited now,
    /// unless it would let more bytes count as readable than sequence
    /// numbers can tell apart. The segments that have become readable
    /// follow the bytes that arrived, and each other, without a gap, as
    /// `chained` says.
    pub open spec fn stitched(&self, after: &Self, len: int, advanced: int) -> bool {
        &&& exists|order: Seq<int>| #[trigger]
            chained(self.segments(), order, seq_plus(self.spec_next(), len)) && advanced == len
                + chain_len(self.segments(), order) && names_taken(
                self.segments(),
                after.segments(),
                order,
            )
        &&& after.spec_capacity() == self.spec_capacity()
        &&& after.segments().len() == self.segments().len()
        &&& after.spec_next() == seq_plus(self.spec_next(), advanced)
        &&& after.unread_len() == self.unread_len() + advanced
        &&& advanced == len + stitched_len(
            self.segments(),
            after.segments(),
            self.segments().len() as int,
        )
        &&& forall|i: int|
            0 <= i < self.segments().len() ==> (#[trigger] after.segments()[i]) == (if after.segments()[i].in_use {
                self.segments()[i]
            } else {
                OooSegment { in_use: false, ..self.segments()[i] }
            })
        &&& forall|i: int|
            0 <= i < after.segments().len() && (#[trigger] after.segments()[i]).in_use
                && after.segments()[i].seq == after.spec_next() ==> after.segments()[i].len
                > MAX_UNREAD - after.unread_len()
    }

    /// Lets `initial_len` bytes that arrived in order become readable, and
    /// with them the segments noted that follow without a gap. Returns
    /// the number of bytes that have become readable.
    #[verifier::rlimit(80)]
    fn advance_recv_next(&mut self, initial_len: usize) -> (advanced: usize)
        requires
            old(self).wf(),
            old(self).capacity > 0,
            initial_len <= MAX_UNREAD - old(self).unread_len(),
        ensures
            final(self).wf(),
            final(self).recv_bitmap@ == old(self).recv_bitmap@,
            final(self).buffer@ == old(self).buffer@,
            final(self).read_start() == old(self).read_start(),
            old(self).stitched(final(self), initial_len as int, advanced as int),
    {
        let mut advanced = initial_len;
        self.recv_next = self.recv_next.wrapping_add(initial_len as u32);
        self.make_room_for(initial_len);
        self.readable = self.readable + initial_len;
        let count = self.ooo_segments.len();
        let ghost from = seq_plus(old(self).recv_next, initial_len as int);
        let ghost mut order: Seq<int> = Seq::empty();
        proof {
            Self::lemma_stitched_none(old(self).ooo_segments@, count as int);
            Self::lemma_count_noted(self.ooo_segments@, count as int);
            lemma_names_none(self.ooo_segments@);
            lemma_chain_none(old(self).ooo_segments@, from);
        }
        loop
            invariant
                self.wf(),
                from == seq_plus(old(self).recv_next, initial_len as int),
                chained(old(self).ooo_segments@, order, from),
                advanced == initial_len + chain_len(old(self).ooo_segments@, order),
                names_taken(old(self).ooo_segments@, self.ooo_segments@, order),
                count == self.ooo_segments@.len(),
                count == old(self).ooo_segments@.len(),
                self.capacity == old(self).capacity,
                self.capacity > 0,
                self.buffer@ == old(self).buffer@,
                self.recv_bitmap@ == old(self).recv_bitmap@,
                self.read_start() == old(self).read_start(),
                initial_len <= advanced,
                0 <= old(self).unread_len(),
                self.recv_next == seq_plus(old(self).recv_next, advanced as int),
                self.unread_len() == old(self).unread_len() + advanced,
                advanced == initial_len + stitched_len(
                    old(self).ooo_segments@,
                    self.ooo_segments@,
                    count as int,
                ),
                forall|i: int|
                    0 <= i < count ==> (#[trigger] self.ooo_segments@[i]) == (if self.ooo_segments@[i].in_use {
                        old(self).ooo_segments@[i]
                    } else {
                        OooSegment { in_use: false, ..old(self).ooo_segments@[i] }
                    }),
                0 <= Self::count_noted(self.ooo_segments@, count as int),
            ensures
                forall|i: int|
                    0 <= i < count && (#[trigger] self.ooo_segments@[i]).in_use
                        && self.ooo_segments@[i].seq == self.recv_next ==> self.ooo_segments@[i].len
                        > MAX_UNREAD - self.unread_len(),
            decreases Self::count_noted(self.ooo_segments@, count as int),
        {
            let mut found = false;
            let mut i: usize = 0;
            while i < count && !found
                invariant
                    i <= count,
                    self.wf(),
                    count == self.ooo_segments@.len(),
                    !found ==> forall|j: int|
                        0 <= j < i && (#[trigger] self.ooo_segments@[j]).in_use
                            && self.ooo_segments@[j].seq == self.recv_next
                            ==> self.ooo_segments@[j].len > MAX_UNREAD - self.unread_len(),
                    found ==> i < count && self.ooo_segments@[i as int].in_use
                        && self.ooo_segments@[i as int].seq == self.recv_next
                        && self.ooo_segments@[i as int].len <= MAX_UNREAD - self.unread_len(),
                decreases count - i, (if found { 0int } else { 1int }),
            {
                let seg = self.ooo_segments[i];
                if seg.in_use && seg.seq == self.recv_next && (seg.len as usize) <= MAX_UNREAD
                    - (self.readable - self.read_pos) {
                    found = true;
                } else {
                    i = i + 1;
                }
            }
            if !found {
                break ;
            }
            let len = self.ooo_segments[i].len as usize;
            let ghost before = self.ooo_segments@;
            let ghost earlier = order;
            let ghost walked = advanced;
            self.recv_next = self.recv_next.wrapping_add(len as u32);
            self.make_room_for(len);
            self.readable = self.readable + len;
            advanced = advanced + len;
            self.ooo_segments[i].in_use = false;
            proof {
                assert(self.ooo_segments@ =~= before.update(
                    i as int,
                    OooSegment { in_use: false, ..before[i as int] },
                ));
                Self::lemma_stitched_update(
                    old(self).ooo_segments@,
                    before,
                    count as int,
                    i as int,
                );
                Self::lemma_count_noted_update(before, count as int, i as int);
                Self::lemma_count_noted(self.ooo_segments@, count as int);
                assert(before[i as int] == old(self).ooo_segments@[i as int]);
                lemma_names_one_more(
                    old(self).ooo_segments@,
                    before,
                    self.ooo_segments@,
                    earlier,
                    i as int,
                );
                lemma_seq_plus_plus(
                    old(self).recv_next,
                    initial_len as int,
                    walked - initial_len,
                );
                lemma_chain_push(old(self).ooo_segments@, earlier, from, i as int);
                order = earlier.push(i as int);
            }
        }
        advanced
    }

    /// Makes sure that `more` bytes can be counted as readable: where the
    /// count would not fit, the bytes already read are taken off it.
    fn make_room_for(&mut self, more: usize)
        requires
            old(self).wf(),
            more <= MAX_UNREAD - old(self).unread_len(),
        ensures
            final(self).wf(),
            final(self).readable + more <= usize::MAX,
            final(self).unread_len() == old(self).unread_len(),
            final(self).buffer@ == old(self).buffer@,
            final(self).recv_bitmap@ == old(self).recv_bitmap@,
            final(self).ooo_segments@ == old(self).ooo_segments@,
            final(self).capacity == old(self).capacity,
            final(self).recv_next == old(self).recv_next,
    {
        if self.readable > usize::MAX - more {
            self.readable = self.readable - self.read_pos;
            self.read_pos = 0;
        }
    }

    /// A table that has not changed has let nothing become readable.
    proof fn lemma_stitched_none(table: Seq<OooSegment>, n: int)
        requires
            0 <= n <= table.len(),
        ensures
            stitched_len(table, table, n) == 0,
        decreases n,
    {
        if n > 0 {
            Self::lemma_stitched_none(table, n - 1);
        }
    }

    /// Taking one more segment off the table lets its bytes become
    /// readable.
    proof fn lemma_stitched_update(first: Seq<OooSegment>, before: Seq<OooSegment>, n: int, i: int)
        requires
            0 <= n <= first.len(),
            first.len() == before.len(),
            0 <= i < first.len(),
            before[i].in_use,
            before[i] == first[i],
        ensures
            stitched_len(first, before.update(i, OooSegment { in_use: false, ..before[i] }), n)
                == stitched_len(first, before, n) + (if i < n {
                before[i].len as int
            } else {
                0
            }),
        decreases n,
    {
        if n > 0 {
            Self::lemma_stitched_update(first, before, n - 1, i);
        }
    }

    /// The number of segments noted is not negative.
    proof fn lemma_count_noted(table: Seq<OooSegment>, n: int)
        requires
            0 <= n <= table.len(),
        ensures
            0 <= Self::count_noted(table, n) <= n,
        decreases n,
    {
        if n > 0 {
            Self::lemma_count_noted(table, n - 1);
        }
    }

    /// Taking a segment off the table leaves one fewer noted.
    proof fn lemma_count_noted_update(table: Seq<OooSegment>, n: int, i: int)
        requires
            0 <= n <= table.len(),
            0 <= i < table.len(),
            table[i].in_use,
        ensures
            Self::count_noted(table.update(i, OooSegment { in_use: false, ..table[i] }), n)
                == Self::count_noted(table, n) - (if i < n {
                1int
            } else {
                0int
            }),
        decreases n,
    {
        if n > 0 {
            Self::lemma_count_noted_update(table, n - 1, i);
        }
    }

    /// Moves the bytes that can be read to the front of `buf`, as many as
    /// it takes, in order, and returns how many that was.
    #[verifier::rlimit(40)]
    pub fn read(&mut self, buf: &mut [u8]) -> (n: usize)
        requires
            old(self).wf(),
        ensures
            final(self).wf(),
            final(self).spec_capacity() == old(self).spec_capacity(),
            final(self).spec_next() == old(self).spec_next(),
            final(self).segments() == old(self).segments(),
            final(self).storage() == old(self).storage(),
            n == least(old(buf)@.len() as int, old(self).unread_len()),
            final(buf)@ == old(self).unread().subrange(0, n as int) + old(buf)@.subrange(
                n as int,
                old(buf)@.len() as int,
            ),
            final(self).unread_len() == old(self).unread_len() - n,
            final(self).unread() == old(self).unread().subrange(
                n as int,
                old(self).unread_len(),
            ),
    {
        let available = self.readable - self.read_pos;
        let to_read = if buf.len() < available {
            buf.len()
        } else {
            available
        };
        if to_read == 0 {
            assert(buf@ =~= old(self).unread().subrange(0, 0) + old(buf)@.subrange(
                0,
                old(buf)@.len() as int,
            ));
            assert(self.unread() =~= old(self).unread().subrange(0, old(self).unread_len()));
            return 0;
        }
        let read_seq = self.recv_next.wrapping_sub(available as u32);
        assert(read_seq == self.read_start());
        let mut i: usize = 0;
        while i < to_read
            invariant
                i <= to_read,
                to_read <= buf@.len(),
                to_read <= available,
                available == self.unread_len(),
                buf@.len() == old(buf)@.len(),
                *self == *old(self),
                self.wf(),
                self.capacity > 0,
                read_seq == self.read_start(),
                buf@ == old(self).unread().subrange(0, i as int) + old(buf)@.subrange(
                    i as int,
                    old(buf)@.len() as int,
                ),
            decreases to_read - i,
        {
            let idx = self.seq_to_index(read_seq.wrapping_add(i as u32));
            buf[i] = self.buffer[idx];
            proof {
                assert(read_seq.wrapping_add(i as u32) == seq_plus(read_seq, i as int));
                assert(buf@ =~= old(self).unread().subrange(0, i + 1) + old(buf)@.subrange(
                    i + 1,
                    old(buf)@.len() as int,
                ));
            }
            i = i + 1;
        }
        self.read_pos = self.read_pos + to_read;
        if self.read_pos >= self.readable {
            let span = if self.readable < self.capacity {
                self.readable
            } else {
                self.capacity
            };
            let start_seq = self.recv_next.wrapping_sub(#[verifier::truncate] (self.readable as u32));
            let start_idx = self.seq_to_index(start_seq);
            self.clear_bitmap_range(start_idx, span);
            self.readable = 0;
            self.read_pos = 0;
        }
        proof {
            assert(forall|x: u32| self.byte_at(x) == old(self).byte_at(x)) by {
                reveal(Receiver::place);
            }
            let was = old(self).read_start();
            if self.unread_len() > 0 {
                lemma_seq_plus_plus(self.recv_next, -old(self).unread_len(), to_read as int);
                assert(self.read_start() == seq_plus(was, to_read as int));
            }
            assert forall|k: int| 0 <= k < self.unread_len() implies self.unread()[k]
                == old(self).unread()[k + to_read] by {
                lemma_seq_plus_plus(was, to_read as int, k);
                assert(seq_plus(self.read_start(), k) == seq_plus(was, k + to_read));
            }
            assert(self.unread() =~= old(self).unread().subrange(
                to_read as int,
                old(self).unread_len(),
            ));
        }
        to_read
    }
}

} // verus!
