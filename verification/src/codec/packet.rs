//! The packet: one application message.
//!
//! A packet is cut into fragments of at most `max_payload` bytes for
//! sending, one frame each, and put together again by the receiver.

use vstd::prelude::*;
use crate::error::{Error, Result};
use crate::math::{ceil_div, div_ceil, least, lemma_ceil_div, lemma_piece_starts_inside};
use crate::MAX_PACKET_SIZE;

verus! {

/// Number of fragments of a message of `len` bytes at `max_payload` bytes
/// each: an empty message still takes one.
pub open spec fn fragments_of_len(len: nat, max_payload: nat) -> nat
    recommends
        max_payload > 0,
{
    if len == 0 {
        1
    } else {
        ceil_div(len, max_payload)
    }
}

/// Where fragment `index` starts in the message.
pub open spec fn fragment_start(index: nat, max_payload: nat) -> int {
    (index * max_payload) as int
}

/// Where fragment `index` ends in a message of `len` bytes.
pub open spec fn fragment_end(len: nat, index: nat, max_payload: nat) -> int {
    least(((index + 1) * max_payload) as int, len as int)
}

/// Fragment `index` of `data`.
pub open spec fn fragment(data: Seq<u8>, index: nat, max_payload: nat) -> Seq<u8>
    recommends
        max_payload > 0,
        index < fragments_of_len(data.len(), max_payload),
{
    data.subrange(fragment_start(index, max_payload), fragment_end(data.len(), index, max_payload))
}

/// The first `count` fragments of `data`, joined in order.
pub open spec fn joined_fragments(data: Seq<u8>, count: nat, max_payload: nat) -> Seq<u8>
    decreases count,
{
    if count == 0 {
        Seq::<u8>::empty()
    } else {
        joined_fragments(data, (count - 1) as nat, max_payload) + fragment(
            data,
            (count - 1) as nat,
            max_payload,
        )
    }
}

/// Every fragment lies inside the message; all but the last are full, and
/// the last ends where the message ends.
pub proof fn lemma_fragment_bounds(len: nat, index: nat, max_payload: nat)
    requires
        max_payload > 0,
        index < fragments_of_len(len, max_payload),
    ensures
        0 <= fragment_start(index, max_payload) <= fragment_end(len, index, max_payload) <= len,
        fragment_end(len, index, max_payload) - fragment_start(index, max_payload) <= max_payload,
        index + 1 < fragments_of_len(len, max_payload) ==> fragment_end(len, index, max_payload)
            == fragment_start(index, max_payload) + max_payload,
        index + 1 == fragments_of_len(len, max_payload) ==> fragment_end(len, index, max_payload)
            == len,
        len > 0 ==> fragment_start(index, max_payload) < len,
{
    let n = fragments_of_len(len, max_payload);
    assert((index + 1) * max_payload == index * max_payload + max_payload) by (nonlinear_arith);
    assert(index * max_payload >= 0) by (nonlinear_arith);
    if len == 0 {
        assert(index == 0);
        assert(0 * max_payload == 0) by (nonlinear_arith);
    } else {
        lemma_ceil_div(len, max_payload);
        lemma_piece_starts_inside(len, max_payload, index);
        if index + 1 < n {
            lemma_piece_starts_inside(len, max_payload, index + 1);
        } else {
            assert((index + 1) * max_payload >= len);
        }
    }
}

/// The fragments of a message, joined in order, are the message.
pub proof fn lemma_fragments_cover(data: Seq<u8>, max_payload: nat)
    requires
        max_payload > 0,
    ensures
        joined_fragments(data, fragments_of_len(data.len(), max_payload), max_payload) == data,
{
    let n = fragments_of_len(data.len(), max_payload);
    lemma_ceil_div(data.len(), max_payload);
    lemma_joined_prefix(data, n, max_payload);
    lemma_fragment_bounds(data.len(), (n - 1) as nat, max_payload);
    assert(data.subrange(0, data.len() as int) =~= data);
}

/// The first `count` fragments, joined, are the message up to where
/// fragment `count - 1` ends.
proof fn lemma_joined_prefix(data: Seq<u8>, count: nat, max_payload: nat)
    requires
        max_payload > 0,
        1 <= count <= fragments_of_len(data.len(), max_payload),
    ensures
        joined_fragments(data, count, max_payload) == data.subrange(
            0,
            fragment_end(data.len(), (count - 1) as nat, max_payload),
        ),
    decreases count,
{
    let last = (count - 1) as nat;
    lemma_fragment_bounds(data.len(), last, max_payload);
    if count == 1 {
        assert(joined_fragments(data, 0, max_payload) =~= Seq::<u8>::empty());
        assert(fragment_start(0, max_payload) == 0) by (nonlinear_arith);
        assert(joined_fragments(data, 1, max_payload) =~= fragment(data, 0, max_payload));
    } else {
        lemma_joined_prefix(data, last, max_payload);
        lemma_fragment_bounds(data.len(), (last - 1) as nat, max_payload);
        assert(fragment_end(data.len(), (last - 1) as nat, max_payload) == fragment_start(
            last,
            max_payload,
        ));
        assert(joined_fragments(data, count, max_payload) =~= data.subrange(
            0,
            fragment_end(data.len(), last, max_payload),
        ));
    }
}

/// An application message, with the number that tells its fragments from
/// those of other messages.
#[derive(Debug, Clone)]
pub struct Packet<'a> {
    /// Number of the packet.
    pub id: u16,
    pub data: &'a [u8],
    /// When the packet was made, for whoever keeps track.
    pub timestamp: u64,
}

impl<'a> Packet<'a> {
    /// A packet made at time zero. A message of more than
    /// `MAX_PACKET_SIZE` bytes is too large.
    pub fn new(id: u16, data: &'a [u8]) -> (r: Result<Self>)
        ensures
            data@.len() > MAX_PACKET_SIZE ==> r == Err::<Self, Error>(Error::PacketTooLarge),
            data@.len() <= MAX_PACKET_SIZE ==> (r matches Ok(p) && p.id == id && p.data@ == data@
                && p.timestamp == 0),
    {
        Packet::with_timestamp(id, data, 0)
    }

    /// A packet made at `timestamp`.
    pub fn with_timestamp(id: u16, data: &'a [u8], timestamp: u64) -> (r: Result<Self>)
        ensures
            data@.len() > MAX_PACKET_SIZE ==> r == Err::<Self, Error>(Error::PacketTooLarge),
            data@.len() <= MAX_PACKET_SIZE ==> (r matches Ok(p) && p.id == id && p.data@ == data@
                && p.timestamp == timestamp),
    {
        if data.len() > MAX_PACKET_SIZE {
            return Err(Error::PacketTooLarge);
        }
        Ok(Packet { id, data, timestamp })
    }

    /// Number of fragments that this packet takes.
    pub fn fragment_count(&self, max_payload: usize) -> (n: usize)
        requires
            max_payload > 0 || self.data@.len() == 0,
        ensures
            n == fragments_of_len(self.data@.len(), max_payload as nat),
            n >= 1,
    {
        if self.data.len() == 0 {
            return 1;
        }
        proof {
            lemma_ceil_div(self.data@.len(), max_payload as nat);
        }
        div_ceil(self.data.len(), max_payload)
    }

    /// The bytes of fragment `index`, or nothing where the packet has no
    /// such fragment.
    pub fn fragment_data(&self, index: usize, max_payload: usize) -> (r: Option<&[u8]>)
        requires
            max_payload > 0 || self.data@.len() == 0,
        ensures
            index >= fragments_of_len(self.data@.len(), max_payload as nat) ==> r is None,
            index < fragments_of_len(self.data@.len(), max_payload as nat) ==> (r matches Some(s)
                && s@ == fragment(self.data@, index as nat, max_payload as nat)),
    {
        let total = self.fragment_count(max_payload);
        if index >= total {
            return None;
        }
        let len = self.data.len();
        if len == 0 {
            assert(index == 0);
            assert(fragment(self.data@, 0, max_payload as nat) =~= self.data@.subrange(0, 0)) by {
                assert(0 * max_payload == 0) by (nonlinear_arith);
            }
            return Some(&self.data[0..0]);
        }
        proof {
            lemma_fragment_bounds(len as nat, index as nat, max_payload as nat);
            assert((index + 1) * max_payload == index * max_payload + max_payload)
                by (nonlinear_arith);
        }
        let start = index * max_payload;
        let end = if len - start < max_payload {
            len
        } else {
            start + max_payload
        };
        Some(&self.data[start..end])
    }

    /// Tests the length of the message.
    pub fn validate(&self) -> (r: Result<()>)
        ensures
            self.data@.len() > MAX_PACKET_SIZE ==> r == Err::<(), Error>(Error::PacketTooLarge),
            self.data@.len() <= MAX_PACKET_SIZE ==> r is Ok,
    {
        if self.data.len() > MAX_PACKET_SIZE {
            return Err(Error::PacketTooLarge);
        }
        Ok(())
    }
}

/// A packet that owns its bytes.
#[derive(Debug, Clone)]
pub struct OwnedPacket {
    pub id: u16,
    pub data: Vec<u8>,
    pub timestamp: u64,
}

impl OwnedPacket {
    pub fn new(id: u16, data: Vec<u8>) -> (r: Result<Self>)
        ensures
            data@.len() > MAX_PACKET_SIZE ==> (r matches Err(e) && e == Error::PacketTooLarge),
            data@.len() <= MAX_PACKET_SIZE ==> (r matches Ok(p) && p.id == id && p.data@ == data@
                && p.timestamp == 0),
    {
        if data.len() > MAX_PACKET_SIZE {
            return Err(Error::PacketTooLarge);
        }
        Ok(OwnedPacket { id, data, timestamp: 0 })
    }

    /// A packet that holds a copy of `data`.
    pub fn from_slice(id: u16, data: &[u8]) -> (r: Result<Self>)
        ensures
            data@.len() > MAX_PACKET_SIZE ==> (r matches Err(e) && e == Error::PacketTooLarge),
            data@.len() <= MAX_PACKET_SIZE ==> (r matches Ok(p) && p.id == id && p.data@ == data@
                && p.timestamp == 0),
    {
        if data.len() > MAX_PACKET_SIZE {
            return Err(Error::PacketTooLarge);
        }
        Ok(OwnedPacket { id, data: vstd::slice::slice_to_vec(data), timestamp: 0 })
    }

    /// The same packet, with its bytes borrowed.
    pub fn as_packet(&self) -> (p: Packet<'_>)
        ensures
            p.id == self.id,
            p.data@ == self.data@,
            p.timestamp == self.timestamp,
    {
        Packet { id: self.id, data: self.data.as_slice(), timestamp: self.timestamp }
    }
}

/// A buffer of `N` bytes in which a packet is put together.
#[derive(Debug)]
pub struct PacketBuffer<const N: usize> {
    buffer: [u8; N],
    len: usize,
    id: u16,
    timestamp: u64,
}

impl<const N: usize> PacketBuffer<N> {
    #[verifier::type_invariant]
    spec fn inv(self) -> bool {
        self.len <= N
    }

    /// The bytes that count as written.
    pub closed spec fn view(&self) -> Seq<u8> {
        self.buffer@.subrange(0, self.len as int)
    }

    /// All `N` bytes of the buffer, written or not.
    pub closed spec fn storage(&self) -> Seq<u8> {
        self.buffer@
    }

    pub closed spec fn spec_id(&self) -> u16 {
        self.id
    }

    pub closed spec fn spec_timestamp(&self) -> u64 {
        self.timestamp
    }

    pub closed spec fn spec_len(&self) -> usize {
        self.len
    }

    /// The written bytes are the front of the storage, which has `N`
    /// bytes.
    pub proof fn lemma_view(&self)
        requires
            self.spec_len() <= N,
        ensures
            self.storage().len() == N,
            self@ == self.storage().subrange(0, self.spec_len() as int),
            self@.len() == self.spec_len(),
    {
    }

    /// An empty buffer, all zero.
    pub fn new() -> (b: Self)
        ensures
            b@ == Seq::<u8>::empty(),
            b.spec_len() == 0,
            b.spec_id() == 0,
            b.spec_timestamp() == 0,
            b.storage() == Seq::new(N as nat, |i: int| 0u8),
    {
        let b = PacketBuffer { buffer: [0u8;N], len: 0, id: 0, timestamp: 0 };
        assert(b@ =~= Seq::<u8>::empty());
        assert(b.storage() =~= Seq::new(N as nat, |i: int| 0u8));
        b
    }

    pub fn set_id(&mut self, id: u16)
        ensures
            final(self).spec_id() == id,
            final(self)@ == old(self)@,
            final(self).storage() == old(self).storage(),
            final(self).spec_len() == old(self).spec_len(),
            final(self).spec_timestamp() == old(self).spec_timestamp(),
    {
        proof {
            use_type_invariant(&*self);
        }
        self.id = id;
    }

    #[verifier::when_used_as_spec(spec_id)]
    pub fn id(&self) -> (id: u16)
        ensures
            id == self.spec_id(),
    {
        self.id
    }

    pub fn set_timestamp(&mut self, timestamp: u64)
        ensures
            final(self).spec_timestamp() == timestamp,
            final(self)@ == old(self)@,
            final(self).storage() == old(self).storage(),
            final(self).spec_len() == old(self).spec_len(),
            final(self).spec_id() == old(self).spec_id(),
    {
        proof {
            use_type_invariant(&*self);
        }
        self.timestamp = timestamp;
    }

    #[verifier::when_used_as_spec(spec_timestamp)]
    pub fn timestamp(&self) -> (t: u64)
        ensures
            t == self.spec_timestamp(),
    {
        self.timestamp
    }

    /// Forgets what was written, and the packet number and time with it.
    /// The storage keeps its bytes.
    pub fn clear(&mut self)
        ensures
            final(self)@ == Seq::<u8>::empty(),
            final(self).spec_len() == 0,
            final(self).spec_id() == 0,
            final(self).spec_timestamp() == 0,
            final(self).storage() == old(self).storage(),
    {
        self.len = 0;
        self.id = 0;
        self.timestamp = 0;
        assert(self@ =~= Seq::<u8>::empty());
    }

    /// Number of bytes written.
    #[verifier::when_used_as_spec(spec_len)]
    pub fn len(&self) -> (n: usize)
        ensures
            n == self.spec_len(),
            n == self@.len(),
            n <= N,
    {
        proof {
            use_type_invariant(self);
        }
        self.len
    }

    pub fn is_empty(&self) -> (b: bool)
        ensures
            b == (self@.len() == 0),
    {
        proof {
            use_type_invariant(self);
        }
        self.len == 0
    }

    pub fn capacity(&self) -> (n: usize)
        ensures
            n == N,
    {
        N
    }

    /// Number of bytes that can still be appended.
    pub fn remaining(&self) -> (n: usize)
        ensures
            n == N - self@.len(),
    {
        proof {
            use_type_invariant(self);
        }
        N - self.len
    }

    /// The bytes written.
    pub fn as_slice(&self) -> (s: &[u8])
        ensures
            s@ == self@,
    {
        proof {
            use_type_invariant(self);
        }
        &self.buffer[0..self.len]
    }

    /// All `N` bytes of the buffer, to write into. What counts as written
    /// is not changed by writing here: see `set_len`.
    pub fn as_mut_slice(&mut self) -> (s: &mut [u8])
        ensures
            s@ == old(self).storage(),
            final(self).storage() == final(s)@,
            final(self).spec_len() == old(self).spec_len(),
            final(self).spec_id() == old(self).spec_id(),
            final(self).spec_timestamp() == old(self).spec_timestamp(),
    {
        proof {
            use_type_invariant(&*self);
        }
        &mut self.buffer
    }

    /// Appends as much of `data` as fits and returns how much that was.
    /// Fails where there is data and no room at all.
    pub fn write(&mut self, data: &[u8]) -> (r: Result<usize>)
        ensures
            final(self).spec_id() == old(self).spec_id(),
            final(self).spec_timestamp() == old(self).spec_timestamp(),
            data@.len() > 0 && old(self)@.len() == N ==> r == Err::<usize, Error>(
                Error::BufferFull,
            ) && final(self)@ == old(self)@ && final(self).storage() == old(self).storage(),
            !(data@.len() > 0 && old(self)@.len() == N) ==> r == Ok::<usize, Error>(
                least(data@.len() as int, N - old(self)@.len()) as usize,
            ) && final(self)@ == old(self)@ + data@.subrange(
                0,
                least(data@.len() as int, N - old(self)@.len()),
            ),
    {
        proof {
            use_type_invariant(&*self);
        }
        let room = N - self.len;
        let to_write = if data.len() < room {
            data.len()
        } else {
            room
        };
        if to_write == 0 && data.len() != 0 {
            return Err(Error::BufferFull);
        }
        let start = self.len;
        let mut i: usize = 0;
        while i < to_write
            invariant
                i <= to_write,
                to_write <= data@.len(),
                start + to_write <= N,
                self.len == start,
                self.id == old(self).id,
                self.timestamp == old(self).timestamp,
                self.buffer@.subrange(0, start as int) == old(self)@,
                self.buffer@.subrange(start as int, start + i) == data@.subrange(0, i as int),
            decreases to_write - i,
        {
            let ghost before = self.buffer@;
            self.buffer[start + i] = data[i];
            assert(self.buffer@.subrange(0, start as int) =~= before.subrange(0, start as int));
            assert(self.buffer@.subrange(start as int, start + i + 1) =~= before.subrange(
                start as int,
                start + i,
            ).push(data@[i as int]));
            assert(data@.subrange(0, i + 1) =~= data@.subrange(0, i as int).push(data@[i as int]));
            i = i + 1;
        }
        self.len = start + to_write;
        assert(self@ =~= old(self)@ + data@.subrange(0, to_write as int)) by {
            assert(self.buffer@.subrange(0, (start + to_write) as int) =~= self.buffer@.subrange(
                0,
                start as int,
            ) + self.buffer@.subrange(start as int, start + to_write));
        }
        Ok(to_write)
    }

    /// Writes `data` at `offset`, wherever that is, and counts everything
    /// up to its end as written if that is more than before. Fails where
    /// `data` would reach beyond the buffer.
    pub fn write_at(&mut self, offset: usize, data: &[u8]) -> (r: Result<usize>)
        ensures
            final(self).spec_id() == old(self).spec_id(),
            final(self).spec_timestamp() == old(self).spec_timestamp(),
            offset + data@.len() > N ==> r == Err::<usize, Error>(Error::BufferTooSmall)
                && final(self).storage() == old(self).storage() && final(self).spec_len() == old(self).spec_len(),
            offset + data@.len() <= N ==> r == Ok::<usize, Error>(data@.len() as usize)
                && final(self).storage() == old(self).storage().subrange(0, offset as int) + data@
                + old(self).storage().subrange(offset + data@.len(), N as int)
                    && final(self).spec_len() == (if offset + data@.len() > old(self).spec_len() {
                offset + data@.len()
            } else {
                old(self).spec_len() as int
            }),
    {
        proof {
            use_type_invariant(&*self);
        }
        let n = data.len();
        if offset > N || n > N - offset {
            return Err(Error::BufferTooSmall);
        }
        let end = offset + n;
        let mut i: usize = 0;
        while i < n
            invariant
                i <= n,
                n == data@.len(),
                offset + n <= N,
                self.len <= N,
                self.len == old(self).len,
                self.id == old(self).id,
                self.timestamp == old(self).timestamp,
                self.buffer@ == old(self).buffer@.subrange(0, offset as int) + data@.subrange(
                    0,
                    i as int,
                ) + old(self).buffer@.subrange(offset + i, N as int),
            decreases n - i,
        {
            self.buffer[offset + i] = data[i];
            assert(self.buffer@ =~= old(self).buffer@.subrange(0, offset as int) + data@.subrange(
                0,
                i + 1,
            ) + old(self).buffer@.subrange(offset + i + 1, N as int));
            i = i + 1;
        }
        assert(data@.subrange(0, n as int) =~= data@);
        if end > self.len {
            self.len = end;
        }
        Ok(n)
    }

    /// Says how many bytes count as written.
    pub fn set_len(&mut self, len: usize) -> (r: Result<()>)
        ensures
            final(self).storage() == old(self).storage(),
            final(self).spec_id() == old(self).spec_id(),
            final(self).spec_timestamp() == old(self).spec_timestamp(),
            len > N ==> r == Err::<(), Error>(Error::BufferTooSmall) && final(self).spec_len()
                == old(self).spec_len(),
            len <= N ==> r is Ok && final(self).spec_len() == len,
    {
        proof {
            use_type_invariant(&*self);
        }
        if len > N {
            return Err(Error::BufferTooSmall);
        }
        self.len = len;
        Ok(())
    }

    /// The packet that the buffer holds.
    pub fn as_packet(&self) -> (p: Packet<'_>)
        ensures
            p.id == self.spec_id(),
            p.data@ == self@,
            p.timestamp == self.spec_timestamp(),
    {
        Packet { id: self.id, data: self.as_slice(), timestamp: self.timestamp }
    }
}

impl<const N: usize> Default for PacketBuffer<N> {
    fn default() -> (b: Self)
        ensures
            b@ == Seq::<u8>::empty(),
            b.spec_id() == 0,
            b.spec_timestamp() == 0,
    {
        PacketBuffer::new()
    }
}

} // verus!
