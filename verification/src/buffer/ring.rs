//! A byte queue of fixed capacity, kept in a ring.

use vstd::prelude::*;
use crate::error::{Error, Result};
use crate::math::least;

verus! {

/// The place `offset` steps after `start` in a ring of `n` places.
pub open spec fn ring_slot(start: int, offset: int, n: int) -> int {
    if start + offset < n {
        start + offset
    } else {
        start + offset - n
    }
}

/// Copies `n` bytes, from `src[from..]` to `dst[at..]`.
pub fn copy_bytes(dst: &mut [u8], at: usize, src: &[u8], from: usize, n: usize)
    requires
        at + n <= old(dst)@.len(),
        from + n <= src@.len(),
    ensures
        final(dst)@.len() == old(dst)@.len(),
        final(dst)@ == old(dst)@.subrange(0, at as int) + src@.subrange(from as int, from + n)
            + old(dst)@.subrange(at + n, old(dst)@.len() as int),
{
    let dst_len = dst.len();
    let src_len = src.len();
    let mut i: usize = 0;
    while i < n
        invariant
            i <= n,
            at + n <= dst_len,
            from + n <= src_len,
            dst_len == dst@.len(),
            src_len == src@.len(),
            dst@.len() == old(dst)@.len(),
            dst@ == old(dst)@.subrange(0, at as int) + src@.subrange(from as int, from + i)
                + old(dst)@.subrange(at + i, old(dst)@.len() as int),
        decreases n - i,
    {
        dst[at + i] = src[from + i];
        assert(dst@ =~= old(dst)@.subrange(0, at as int) + src@.subrange(from as int, from + i + 1)
            + old(dst)@.subrange(at + i + 1, old(dst)@.len() as int));
        i = i + 1;
    }
}

/// A queue of at most `N` bytes. Bytes leave in the order in which they
/// came.
#[derive(Debug)]
pub struct RingBuffer<const N: usize> {
    buffer: [u8; N],
    /// Where the oldest byte is.
    head: usize,
    /// Where the next byte goes.
    tail: usize,
    len: usize,
}

impl<const N: usize> RingBuffer<N> {
    /// Whether the positions fit the capacity and each other.
    pub closed spec fn wf(&self) -> bool {
        &&& self.len <= N
        &&& N == 0 ==> self.head == 0 && self.tail == 0
        &&& N > 0 ==> self.head < N && self.tail == ring_slot(
            self.head as int,
            self.len as int,
            N as int,
        )
    }

    /// The bytes in the queue, oldest first.
    pub closed spec fn view(&self) -> Seq<u8> {
        Seq::new(
            self.len as nat,
            |i: int| self.buffer@[ring_slot(self.head as int, i, N as int)],
        )
    }

    /// The free places, in the order in which they will be filled.
    pub closed spec fn free_space(&self) -> Seq<u8> {
        Seq::new(
            (N - self.len) as nat,
            |i: int| self.buffer@[ring_slot(self.tail as int, i, N as int)],
        )
    }

    /// The place in the storage of the oldest byte in the queue. A new
    /// queue and one that has been cleared start at place zero; reading
    /// and skipping move the start on, round the ring; writing leaves it.
    pub closed spec fn spec_head(&self) -> usize {
        self.head
    }

    /// The place in the storage where the next byte is written.
    pub open spec fn spec_tail(&self) -> int {
        ring_slot(self.spec_head() as int, self@.len() as int, N as int)
    }

    /// Whether the bytes in the queue run over the end of the storage.
    pub open spec fn wraps(&self) -> bool {
        self.spec_head() + self@.len() > N
    }

    /// Whether the free places run over the end of the storage.
    pub open spec fn free_wraps(&self) -> bool {
        self.spec_tail() + (N - self@.len()) > N
    }

    /// An empty queue.
    pub fn new() -> (r: Self)
        ensures
            r.wf(),
            r@ == Seq::<u8>::empty(),
            r.spec_head() == 0,
    {
        let r = RingBuffer { buffer: [0u8;N], head: 0, tail: 0, len: 0 };
        assert(r@ =~= Seq::<u8>::empty());
        r
    }

    /// Number of bytes in the queue.
    pub fn len(&self) -> (n: usize)
        requires
            self.wf(),
        ensures
            n == self@.len(),
            n <= N,
    {
        self.len
    }

    pub fn is_empty(&self) -> (b: bool)
        requires
            self.wf(),
        ensures
            b == (self@.len() == 0),
    {
        self.len == 0
    }

    pub fn is_full(&self) -> (b: bool)
        requires
            self.wf(),
        ensures
            b == (self@.len() == N),
    {
        self.len == N
    }

    pub fn capacity(&self) -> (n: usize)
        ensures
            n == N,
    {
        N
    }

    /// Number of bytes that still fit.
    pub fn remaining(&self) -> (n: usize)
        requires
            self.wf(),
        ensures
            n == N - self@.len(),
    {
        N - self.len
    }

    /// Empties the queue.
    pub fn clear(&mut self)
        ensures
            final(self).wf(),
            final(self)@ == Seq::<u8>::empty(),
            final(self).spec_head() == 0,
    {
        self.head = 0;
        self.tail = 0;
        self.len = 0;
        assert(self@ =~= Seq::<u8>::empty());
    }

    /// The position `steps` after `from`, where `steps` is at most `N`.
    fn advance(from: usize, steps: usize) -> (to: usize)
        requires
            N > 0,
            from < N,
            steps <= N,
        ensures
            to < N,
            to == ring_slot(from as int, steps as int, N as int),
    {
        if steps >= N - from {
            steps - (N - from)
        } else {
            from + steps
        }
    }

    /// Appends as much of `data` as fits, and returns how much that was.
    #[verifier::rlimit(40)]
    pub fn write(&mut self, data: &[u8]) -> (n: usize)
        requires
            old(self).wf(),
        ensures
            final(self).wf(),
            n == least(data@.len() as int, N - old(self)@.len()),
            final(self)@ == old(self)@ + data@.subrange(0, n as int),
            final(self).spec_head() == old(self).spec_head(),
    {
        let room = N - self.len;
        let to_write = if data.len() < room {
            data.len()
        } else {
            room
        };
        if to_write == 0 {
            assert(self@ =~= old(self)@ + data@.subrange(0, 0));
            return 0;
        }
        let until_end = N - self.tail;
        let first_chunk = if to_write < until_end {
            to_write
        } else {
            until_end
        };
        copy_bytes(&mut self.buffer, self.tail, data, 0, first_chunk);
        if to_write > first_chunk {
            copy_bytes(&mut self.buffer, 0, data, first_chunk, to_write - first_chunk);
        }
        self.tail = Self::advance(self.tail, to_write);
        self.len = self.len + to_write;
        proof {
            let head = old(self).head as int;
            let tail = old(self).tail as int;
            let n = N as int;
            assert(self@.len() == old(self)@.len() + to_write);
            assert forall|i: int| 0 <= i < self@.len() implies self@[i] == (old(self)@
                + data@.subrange(0, to_write as int))[i] by {
                let slot = ring_slot(head, i, n);
                if i < old(self).len {
                    assert(self.buffer@[slot] == old(self).buffer@[slot]);
                } else {
                    let k = i - old(self).len;
                    assert(slot == ring_slot(tail, k, n));
                    assert(self.buffer@[slot] == data@[k]);
                }
            }
            assert(self@ =~= old(self)@ + data@.subrange(0, to_write as int));
        }
        to_write
    }

    /// Appends all of `data`, or nothing where it does not all fit.
    pub fn write_all(&mut self, data: &[u8]) -> (r: Result<()>)
        requires
            old(self).wf(),
        ensures
            final(self).wf(),
            data@.len() > N - old(self)@.len() ==> r == Err::<(), Error>(Error::BufferFull)
                && final(self)@ == old(self)@,
            data@.len() <= N - old(self)@.len() ==> r is Ok && final(self)@ == old(self)@ + data@,
            final(self).spec_head() == old(self).spec_head(),
    {
        if data.len() > N - self.len {
            return Err(Error::BufferFull);
        }
        let _ = self.write(data);
        assert(data@.subrange(0, data@.len() as int) =~= data@);
        Ok(())
    }

    /// Copies the oldest bytes to the front of `buf`, as many as `buf`
    /// takes, without taking them out.
    pub fn peek(&self, buf: &mut [u8]) -> (n: usize)
        requires
            self.wf(),
        ensures
            n == least(old(buf)@.len() as int, self@.len() as int),
            final(buf)@ == self@.subrange(0, n as int) + old(buf)@.subrange(
                n as int,
                old(buf)@.len() as int,
            ),
    {
        let to_read = if buf.len() < self.len {
            buf.len()
        } else {
            self.len
        };
        if to_read == 0 {
            assert(buf@ =~= self@.subrange(0, 0) + old(buf)@.subrange(0, old(buf)@.len() as int));
            return 0;
        }
        let until_end = N - self.head;
        let first_chunk = if to_read < until_end {
            to_read
        } else {
            until_end
        };
        copy_bytes(buf, 0, &self.buffer, self.head, first_chunk);
        if to_read > first_chunk {
            copy_bytes(buf, first_chunk, &self.buffer, 0, to_read - first_chunk);
        }
        proof {
            let head = self.head as int;
            let n = N as int;
            let want = self@.subrange(0, to_read as int) + old(buf)@.subrange(
                to_read as int,
                old(buf)@.len() as int,
            );
            assert(buf@.len() == want.len());
            assert forall|i: int| 0 <= i < buf@.len() implies buf@[i] == want[i] by {
                if i < to_read {
                    assert(self@[i] == self.buffer@[ring_slot(head, i, n)]);
                }
            }
            assert(buf@ =~= want);
        }
        to_read
    }

    /// Moves the oldest bytes to the front of `buf`, as many as `buf`
    /// takes, and returns how many that was.
    pub fn read(&mut self, buf: &mut [u8]) -> (n: usize)
        requires
            old(self).wf(),
        ensures
            final(self).wf(),
            n == least(old(buf)@.len() as int, old(self)@.len() as int),
            final(buf)@ == old(self)@.subrange(0, n as int) + old(buf)@.subrange(
                n as int,
                old(buf)@.len() as int,
            ),
            final(self)@ == old(self)@.subrange(n as int, old(self)@.len() as int),
            final(self).spec_head() == ring_slot(old(self).spec_head() as int, n as int, N as int),
    {
        let n = self.peek(buf);
        let _ = self.skip(n);
        n
    }

    /// Drops the oldest `count` bytes, or all where there are fewer, and
    /// returns how many were dropped.
    pub fn skip(&mut self, count: usize) -> (n: usize)
        requires
            old(self).wf(),
        ensures
            final(self).wf(),
            n == least(count as int, old(self)@.len() as int),
            final(self)@ == old(self)@.subrange(n as int, old(self)@.len() as int),
            final(self).free_space().len() == old(self).free_space().len() + n,
            final(self).spec_head() == ring_slot(old(self).spec_head() as int, n as int, N as int),
    {
        let to_skip = if count < self.len {
            count
        } else {
            self.len
        };
        if to_skip == 0 {
            assert(self@ =~= old(self)@.subrange(0, old(self)@.len() as int));
            return 0;
        }
        self.head = Self::advance(self.head, to_skip);
        self.len = self.len - to_skip;
        proof {
            let head = old(self).head as int;
            let n = N as int;
            assert forall|i: int| 0 <= i < self@.len() implies self@[i] == old(self)@[i
                + to_skip] by {
                assert(ring_slot(self.head as int, i, n) == ring_slot(head, i + to_skip, n));
            }
            assert(self@ =~= old(self)@.subrange(to_skip as int, old(self)@.len() as int));
        }
        to_skip
    }

    /// The bytes in the queue as two slices: the second one holds what
    /// runs over the end of the storage, and is empty where nothing does.
    pub fn as_slices(&self) -> (r: (&[u8], &[u8]))
        requires
            self.wf(),
        ensures
            r.0@ + r.1@ == self@,
            r.0@.len() == least(self@.len() as int, N - self.spec_head()),
            r.1@.len() > 0 <==> self.wraps(),
    {
        if self.len == 0 {
            let s = &self.buffer[0..0];
            assert(s@ + s@ =~= self@);
            return (s, s);
        }
        if self.len <= N - self.head {
            let first = &self.buffer[self.head..self.head + self.len];
            let second = &self.buffer[0..0];
            assert(first@ + second@ =~= self@);
            (first, second)
        } else {
            let first_len = N - self.head;
            let second_len = self.len - first_len;
            let first = &self.buffer[self.head..N];
            let second = &self.buffer[0..second_len];
            assert(first@ + second@ =~= self@);
            (first, second)
        }
    }

    /// The free places as two slices to write into, in the order in which
    /// they will be filled: the second one holds what runs over the end of
    /// the storage. Nothing counts as written until `advance_write` says
    /// so.
    pub fn as_mut_slices(&mut self) -> (r: (&mut [u8], &mut [u8]))
        requires
            old(self).wf(),
        ensures
            r.0@ + r.1@ == old(self).free_space(),
            r.0@.len() == least(N - old(self)@.len(), N - old(self).spec_tail()),
            r.1@.len() > 0 <==> old(self).free_wraps(),
            final(r.0)@.len() == r.0@.len() && final(r.1)@.len() == r.1@.len() ==> final(self).wf()
                && final(self)@ == old(self)@ && final(self).free_space() == final(r.0)@ + final(r.1)@
                && final(self).spec_head() == old(self).spec_head(),
    {
        let available = N - self.len;
        let tail = self.tail;
        let storage: &mut [u8] = &mut self.buffer;
        if available == 0 {
            let (first, rest) = storage.split_at_mut(0);
            let (second, _) = rest.split_at_mut(0);
            assert(first@ + second@ =~= old(self).free_space());
            (first, second)
        } else if available <= N - tail {
            let (_, from_tail) = storage.split_at_mut(tail);
            let (first, rest) = from_tail.split_at_mut(available);
            let (second, _) = rest.split_at_mut(0);
            assert(first@ + second@ =~= old(self).free_space());
            (first, second)
        } else {
            let second_len = available - (N - tail);
            let (front, first) = storage.split_at_mut(tail);
            let (second, _) = front.split_at_mut(second_len);
            assert(first@ + second@ =~= old(self).free_space());
            (first, second)
        }
    }

    /// Counts the first `count` free places as written, after bytes have
    /// been put there.
    pub fn advance_write(&mut self, count: usize)
        requires
            old(self).wf(),
            count <= N - old(self)@.len(),
        ensures
            final(self).wf(),
            final(self)@ == old(self)@ + old(self).free_space().subrange(0, count as int),
            final(self).spec_head() == old(self).spec_head(),
    {
        if count == 0 {
            assert(self@ =~= old(self)@ + old(self).free_space().subrange(0, 0));
            return ;
        }
        let ghost tail = self.tail as int;
        self.tail = Self::advance(self.tail, count);
        self.len = self.len + count;
        proof {
            let head = old(self).head as int;
            let n = N as int;
            let want = old(self)@ + old(self).free_space().subrange(0, count as int);
            assert(self@.len() == want.len());
            assert forall|i: int| 0 <= i < self@.len() implies self@[i] == want[i] by {
                if i >= old(self).len {
                    let k = i - old(self).len;
                    assert(ring_slot(head, i, n) == ring_slot(tail, k, n));
                    assert(old(self).free_space()[k] == old(self).buffer@[ring_slot(tail, k, n)]);
                }
            }
            assert(self@ =~= want);
        }
    }
}

impl<const N: usize> Default for RingBuffer<N> {
    fn default() -> (r: Self)
        ensures
            r.wf(),
            r@ == Seq::<u8>::empty(),
    {
        RingBuffer::new()
    }
}

} // verus!
