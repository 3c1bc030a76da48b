//! The carrier: whatever moves bytes between the two ends.
//!
//! The engine asks little of a carrier: that it reads and writes some
//! bytes at a time, and says how many. It need not be reliable and need
//! not keep frames apart.
//!
//! - [`LoopbackTransport`]: hands back what was written
//! - [`NullTransport`]: takes everything and gives nothing
//! - [`BufferedTransport`]: puts buffers in front of another carrier
//! - [`StdTransport`]: keeps a reader and writer of the standard library

use vstd::prelude::*;
use crate::buffer::ring::RingBuffer;
use crate::error::{Error, Result};
use crate::math::least;

verus! {

/// A carrier of bytes.
pub trait Transport {
    /// What the carrier has to be able to rely on between calls. Every
    /// call needs it and keeps it. A carrier that relies on nothing need
    /// not say so.
    open spec fn inv(&self) -> bool {
        true
    }

    /// Reads some bytes into the front of `buf` and says how many. Fails
    /// with `WouldBlock` where nothing is there to read.
    fn read(&mut self, buf: &mut [u8]) -> (r: Result<usize>)
        requires
            old(self).inv(),
        ensures
            final(self).inv(),
            final(buf)@.len() == old(buf)@.len(),
            r matches Ok(n) ==> n <= old(buf)@.len(),
    ;

    /// Writes some bytes from the front of `buf` and says how many.
    fn write(&mut self, buf: &[u8]) -> (r: Result<usize>)
        requires
            old(self).inv(),
        ensures
            final(self).inv(),
            r matches Ok(n) ==> n <= buf@.len(),
    ;

    /// Hands on whatever the carrier still holds back.
    fn flush(&mut self) -> (r: Result<()>)
        requires
            old(self).inv(),
        ensures
            final(self).inv(),
    ;

    /// Writes all of `buf`, however many writes that takes, and flushes.
    /// Fails with `IoError` where a write takes nothing, and with the
    /// error of the carrier where a write or the flush fails.
    ///
    /// The carrier decides: each write is dealt with as `write_progress`
    /// says, and the result of the flush is the result of the call.
    fn write_all(&mut self, buf: &[u8]) -> (r: Result<()>)
        requires
            old(self).inv(),
        ensures
            final(self).inv(),
    {
        let mut written: usize = 0;
        while written < buf.len()
            invariant
                written <= buf@.len(),
                self.inv(),
            decreases buf@.len() - written,
        {
            let got = self.write(&buf[written..buf.len()]);
            match write_progress(written, buf.len(), got) {
                Ok(now) => {
                    written = now;
                },
                Err(e) => {
                    return Err(e);
                },
            }
        }
        self.flush()
    }
}

/// What one write makes of `total` bytes of which `written` had gone out
/// before: the number of bytes that have gone out now, or the failure that
/// ends the writing. A write that takes no byte is an `IoError`; a failure
/// of the write is handed on.
pub fn write_progress(written: usize, total: usize, got: Result<usize>) -> (r: Result<usize>)
    requires
        written < total,
        got matches Ok(n) ==> n <= total - written,
    ensures
        r == (match got {
            Ok(n) => if n == 0 {
                Err::<usize, Error>(Error::IoError)
            } else {
                Ok::<usize, Error>((written + n) as usize)
            },
            Err(e) => Err::<usize, Error>(e),
        }),
{
    match got {
        Ok(n) => {
            if n == 0 {
                Err(Error::IoError)
            } else {
                Ok(written + n)
            }
        },
        Err(e) => Err(e),
    }
}

/// A carrier that hands back what was written to it, through a ring of
/// `N` bytes.
#[derive(Debug)]
pub struct LoopbackTransport<const N: usize> {
    buffer: RingBuffer<N>,
}

impl<const N: usize> LoopbackTransport<N> {
    /// The bytes written and not yet read.
    pub closed spec fn view(&self) -> Seq<u8> {
        self.buffer@
    }

    /// Whether the ring is well formed.
    pub closed spec fn wf(&self) -> bool {
        self.buffer.wf()
    }

    pub fn new() -> (t: Self)
        ensures
            t.wf(),
            t@ == Seq::<u8>::empty(),
    {
        LoopbackTransport { buffer: RingBuffer::new() }
    }

    /// Number of bytes that can be read.
    pub fn available(&self) -> (n: usize)
        requires
            self.wf(),
        ensures
            n == self@.len(),
            n <= N,
    {
        self.buffer.len()
    }

    /// Throws away what has not been read.
    pub fn clear(&mut self)
        requires
            old(self).wf(),
        ensures
            final(self).wf(),
            final(self)@ == Seq::<u8>::empty(),
    {
        let mut scratch = [0u8;256];
        loop
            invariant
                self.wf(),
            ensures
                self@.len() == 0,
            decreases self@.len(),
        {
            let n = self.buffer.read(&mut scratch);
            if n == 0 {
                break ;
            }
        }
        assert(self@ =~= Seq::<u8>::empty());
    }
}

impl<const N: usize> Default for LoopbackTransport<N> {
    fn default() -> (t: Self)
        ensures
            t.wf(),
            t@ == Seq::<u8>::empty(),
    {
        LoopbackTransport::new()
    }
}

impl<const N: usize> Transport for LoopbackTransport<N> {
    open spec fn inv(&self) -> bool {
        self.wf()
    }

    /// Moves the oldest bytes to the front of `buf`, as many as it takes.
    fn read(&mut self, buf: &mut [u8]) -> (r: Result<usize>)
        ensures
            old(self)@.len() == 0 ==> r == Err::<usize, Error>(Error::WouldBlock) && final(self)@
                == old(self)@ && final(buf)@ == old(buf)@,
            old(self)@.len() > 0 ==> {
                let n = least(old(buf)@.len() as int, old(self)@.len() as int);
                &&& r == Ok::<usize, Error>(n as usize)
                &&& final(buf)@ == old(self)@.subrange(0, n) + old(buf)@.subrange(
                    n,
                    old(buf)@.len() as int,
                )
                &&& final(self)@ == old(self)@.subrange(n, old(self)@.len() as int)
            },
    {
        if self.buffer.is_empty() {
            return Err(Error::WouldBlock);
        }
        Ok(self.buffer.read(buf))
    }

    /// Appends as much of `buf` as the ring has room for.
    fn write(&mut self, buf: &[u8]) -> (r: Result<usize>)
        ensures
            r == Ok::<usize, Error>(least(buf@.len() as int, N - old(self)@.len()) as usize),
            final(self)@ == old(self)@ + buf@.subrange(
                0,
                least(buf@.len() as int, N - old(self)@.len()),
            ),
    {
        Ok(self.buffer.write(buf))
    }

    fn flush(&mut self) -> (r: Result<()>)
        ensures
            r is Ok,
            final(self)@ == old(self)@,
    {
        Ok(())
    }
}

/// A carrier that takes everything written to it and never has anything
/// to read. It counts the bytes it takes; the count stops at the largest
/// number it can hold.
#[derive(Debug)]
pub struct NullTransport {
    bytes_written: usize,
}

impl NullTransport {
    pub closed spec fn spec_bytes_written(&self) -> usize {
        self.bytes_written
    }

    pub fn new() -> (t: Self)
        ensures
            t.spec_bytes_written() == 0,
    {
        NullTransport { bytes_written: 0 }
    }

    /// Number of bytes taken so far.
    #[verifier::when_used_as_spec(spec_bytes_written)]
    pub fn bytes_written(&self) -> (n: usize)
        ensures
            n == self.spec_bytes_written(),
    {
        self.bytes_written
    }

    /// Starts counting again.
    pub fn reset(&mut self)
        ensures
            final(self).spec_bytes_written() == 0,
    {
        self.bytes_written = 0;
    }
}

impl Default for NullTransport {
    fn default() -> (t: Self)
        ensures
            t.spec_bytes_written() == 0,
    {
        NullTransport::new()
    }
}

impl Transport for NullTransport {
    open spec fn inv(&self) -> bool {
        true
    }

    fn read(&mut self, buf: &mut [u8]) -> (r: Result<usize>)
        ensures
            r == Err::<usize, Error>(Error::WouldBlock),
            final(buf)@ == old(buf)@,
            final(self).spec_bytes_written() == old(self).spec_bytes_written(),
    {
        Err(Error::WouldBlock)
    }

    fn write(&mut self, buf: &[u8]) -> (r: Result<usize>)
        ensures
            r == Ok::<usize, Error>(buf@.len() as usize),
            final(self).spec_bytes_written() == least(
                old(self).spec_bytes_written() + buf@.len(),
                usize::MAX as int,
            ),
    {
        self.bytes_written = self.bytes_written.saturating_add(buf.len());
        Ok(buf.len())
    }

    fn flush(&mut self) -> (r: Result<()>)
        ensures
            r is Ok,
            final(self).spec_bytes_written() == old(self).spec_bytes_written(),
    {
        Ok(())
    }
}

/// A carrier with a ring of `RS` bytes in front of its reads and a ring of
/// `WS` bytes in front of its writes. What is written stays in the ring
/// until `flush`.
#[derive(Debug)]
pub struct BufferedTransport<T, const RS: usize, const WS: usize> {
    inner: T,
    read_buf: RingBuffer<RS>,
    write_buf: RingBuffer<WS>,
}

impl<T: Transport, const RS: usize, const WS: usize> BufferedTransport<T, RS, WS> {
    /// The carrier behind the rings.
    pub closed spec fn spec_inner(&self) -> T {
        self.inner
    }

    /// The bytes read from the carrier and not yet handed out.
    pub closed spec fn read_pending(&self) -> Seq<u8> {
        self.read_buf@
    }

    /// The bytes written and not yet handed to the carrier.
    pub closed spec fn write_pending(&self) -> Seq<u8> {
        self.write_buf@
    }

    /// Whether both rings are well formed and the carrier behind them can
    /// be called.
    pub closed spec fn wf(&self) -> bool {
        &&& self.inner.inv()
        &&& self.read_buf.wf()
        &&& self.write_buf.wf()
    }

    /// Whether a read that ended with `r` has served a buffer that held
    /// `buf_before` and now holds `buf_after` out of the bytes `filled`:
    /// those that waited, `waited`, with what the carrier gave behind them.
    /// `left` is what waits now.
    pub open spec fn served(
        waited: Seq<u8>,
        filled: Seq<u8>,
        buf_before: Seq<u8>,
        buf_after: Seq<u8>,
        left: Seq<u8>,
        r: Result<usize>,
    ) -> bool {
        &&& waited.is_prefix_of(filled)
        &&& filled.len() <= RS
        &&& match r {
            Ok(n) => {
                &&& filled.len() > 0
                &&& n == least(buf_before.len() as int, filled.len() as int)
                &&& buf_after == filled.subrange(0, n as int) + buf_before.subrange(
                    n as int,
                    buf_before.len() as int,
                )
                &&& left == filled.subrange(n as int, filled.len() as int)
            },
            Err(e) => {
                &&& e == Error::WouldBlock
                &&& filled.len() == 0
                &&& buf_after == buf_before
                &&& left == filled
            },
        }
    }

    /// Whether `self` is `before` after a read that ended with `r`, as
    /// `served` says of some bytes that the carrier gave.
    pub open spec fn has_served(
        &self,
        before: &Self,
        buf_before: Seq<u8>,
        buf_after: Seq<u8>,
        r: Result<usize>,
    ) -> bool {
        exists|filled: Seq<u8>| #[trigger]
            Self::served(
                before.read_pending(),
                filled,
                buf_before,
                buf_after,
                self.read_pending(),
                r,
            )
    }

    pub fn new(inner: T) -> (t: Self)
        requires
            inner.inv(),
        ensures
            t.wf(),
            t.spec_inner() == inner,
            t.read_pending() == Seq::<u8>::empty(),
            t.write_pending() == Seq::<u8>::empty(),
    {
        BufferedTransport { inner, read_buf: RingBuffer::new(), write_buf: RingBuffer::new() }
    }

    pub fn inner(&self) -> (t: &T)
        ensures
            *t == self.spec_inner(),
    {
        &self.inner
    }

    /// The carrier behind the rings, to call or to change. What is in the
    /// rings stays.
    pub fn inner_mut(&mut self) -> (t: &mut T)
        ensures
            *t == old(self).spec_inner(),
            final(self).spec_inner() == *final(t),
            final(self).read_pending() == old(self).read_pending(),
            final(self).write_pending() == old(self).write_pending(),
            old(self).wf() && final(t).inv() ==> final(self).wf(),
    {
        &mut self.inner
    }

    /// Gives the carrier back. What is in the rings is lost.
    pub fn into_inner(self) -> (t: T)
        ensures
            t == self.spec_inner(),
    {
        self.inner
    }

    /// Number of bytes read from the carrier and not yet handed out.
    pub fn read_buffered(&self) -> (n: usize)
        requires
            self.wf(),
        ensures
            n == self.read_pending().len(),
    {
        self.read_buf.len()
    }

    /// Number of bytes written and not yet handed to the carrier.
    pub fn write_buffered(&self) -> (n: usize)
        requires
            self.wf(),
        ensures
            n == self.write_pending().len(),
    {
        self.write_buf.len()
    }

    /// Reads once from the carrier into the read ring, unless the ring is
    /// full. That the carrier has nothing to read is no failure.
    ///
    /// A full ring is left alone, and so is the carrier. Otherwise the
    /// carrier is asked for up to 256 bytes, and what it gave is put behind
    /// the bytes that wait, as `store_read` says.
    fn fill_read_buffer(&mut self) -> (r: Result<()>)
        requires
            old(self).wf(),
        ensures
            final(self).wf(),
            final(self).write_pending() == old(self).write_pending(),
            old(self).read_pending().is_prefix_of(final(self).read_pending()),
            old(self).read_pending().len() == RS ==> r is Ok && final(self).read_pending()
                == old(self).read_pending() && final(self).spec_inner() == old(self).spec_inner(),
            old(self).read_pending().len() < RS ==> exists|given: Seq<u8>, got: Result<usize>|
                given.len() == 256 && #[trigger] Self::stored(
                    old(self).read_pending(),
                    given,
                    got,
                    final(self).read_pending(),
                    r,
                ),
    {
        if self.read_buf.is_full() {
            return Ok(());
        }
        let mut temp = [0u8;256];
        let got = self.inner.read(&mut temp);
        let r = self.store_read(&temp, got);
        assert(Self::stored(old(self).read_pending(), temp@, got, self.read_pending(), r));
        r
    }

    /// Whether a read that gave `given` and ended with `got` has left
    /// `after` in a read ring that held `before`, with `r` as the result.
    /// What was read goes behind what waited, as far as the ring has room;
    /// that nothing was there to read is no failure and changes nothing;
    /// any other failure is handed on and changes nothing.
    pub open spec fn stored(
        before: Seq<u8>,
        given: Seq<u8>,
        got: Result<usize>,
        after: Seq<u8>,
        r: Result<()>,
    ) -> bool {
        match got {
            Ok(n) => {
                &&& n <= given.len()
                &&& r is Ok
                &&& after == before + given.subrange(0, least(n as int, RS - before.len()))
            },
            Err(Error::WouldBlock) => r is Ok && after == before,
            Err(e) => r == Err::<(), Error>(e) && after == before,
        }
    }

    /// Puts what one read of the carrier gave into the read ring. `given`
    /// is the buffer that was read into, `got` the result of the read.
    fn store_read(&mut self, given: &[u8], got: Result<usize>) -> (r: Result<()>)
        requires
            old(self).wf(),
            got matches Ok(n) ==> n <= given@.len(),
        ensures
            final(self).wf(),
            final(self).write_pending() == old(self).write_pending(),
            final(self).spec_inner() == old(self).spec_inner(),
            Self::stored(old(self).read_pending(), given@, got, final(self).read_pending(), r),
    {
        match got {
            Ok(n) => {
                let stored = self.read_buf.write(&given[0..n]);
                assert(given@.subrange(0, n as int).subrange(0, stored as int) =~= given@.subrange(
                    0,
                    stored as int,
                ));
                Ok(())
            },
            Err(Error::WouldBlock) => Ok(()),
            Err(e) => Err(e),
        }
    }

    /// Hands the write ring to the carrier, piece by piece, until it is
    /// empty. Fails with `IoError` where the carrier takes nothing, and
    /// with the error of the carrier where a write fails; what has not
    /// been handed on stays in the ring.
    fn drain_write_buffer(&mut self) -> (r: Result<()>)
        requires
            old(self).wf(),
        ensures
            final(self).wf(),
            final(self).read_pending() == old(self).read_pending(),
            r is Ok ==> final(self).write_pending().len() == 0,
            final(self).write_pending().len() <= old(self).write_pending().len(),
            final(self).write_pending() == old(self).write_pending().subrange(
                old(self).write_pending().len() - final(self).write_pending().len(),
                old(self).write_pending().len() as int,
            ),
    {
        let mut temp = [0u8;256];
        assert(self.write_pending().subrange(0, self.write_pending().len() as int)
            =~= self.write_pending());
        while !self.write_buf.is_empty()
            invariant
                self.wf(),
                self.read_pending() == old(self).read_pending(),
                self.write_pending().len() <= old(self).write_pending().len(),
                self.write_pending() == old(self).write_pending().subrange(
                    old(self).write_pending().len() - self.write_pending().len(),
                    old(self).write_pending().len() as int,
                ),
            decreases self.write_pending().len(),
        {
            let n = self.write_buf.peek(&mut temp);
            let written = match self.inner.write(&temp[0..n]) {
                Ok(written) => written,
                Err(e) => {
                    return Err(e);
                },
            };
            if written == 0 {
                return Err(Error::IoError);
            }
            let _ = self.write_buf.skip(written);
            assert(self.write_pending() =~= old(self).write_pending().subrange(
                old(self).write_pending().len() - self.write_pending().len(),
                old(self).write_pending().len() as int,
            ));
        }
        Ok(())
    }
}

impl<T: Transport, const RS: usize, const WS: usize> Transport for BufferedTransport<T, RS, WS> {
    open spec fn inv(&self) -> bool {
        self.wf()
    }

    /// Hands out bytes from the read ring, after one try to get more from
    /// the carrier.
    ///
    /// Whatever the carrier gave joins the bytes that waited. If there are
    /// none even then, the call fails with `WouldBlock`; else the oldest
    /// of them go to the front of `buf`, as many as it takes.
    fn read(&mut self, buf: &mut [u8]) -> (r: Result<usize>)
        ensures
            final(self).write_pending() == old(self).write_pending(),
            final(self).has_served(old(self), old(buf)@, final(buf)@, r),
    {
        let _ = self.fill_read_buffer();
        let ghost filled = self.read_pending();
        let waiting = self.read_buf.len();
        if waiting == 0 {
            assert(Self::served(
                old(self).read_pending(),
                filled,
                old(buf)@,
                buf@,
                filled,
                Err::<usize, Error>(Error::WouldBlock),
            ));
            return Err(Error::WouldBlock);
        }
        let n = self.read_buf.read(buf);
        assert(Self::served(
            old(self).read_pending(),
            filled,
            old(buf)@,
            buf@,
            self.read_pending(),
            Ok::<usize, Error>(n),
        ));
        Ok(n)
    }

    /// Appends as much of `buf` as the write ring has room for. Nothing
    /// goes to the carrier before `flush`.
    fn write(&mut self, buf: &[u8]) -> (r: Result<usize>)
        ensures
            r == Ok::<usize, Error>(least(buf@.len() as int, WS - old(self).write_pending().len()) as usize),
            final(self).write_pending() == old(self).write_pending() + buf@.subrange(
                0,
                least(buf@.len() as int, WS - old(self).write_pending().len()),
            ),
            final(self).read_pending() == old(self).read_pending(),
            final(self).spec_inner() == old(self).spec_inner(),
    {
        let written = self.write_buf.write(buf);
        Ok(written)
    }

    /// Hands the write ring to the carrier and flushes the carrier.
    /// Where that fails, what has not been handed on stays in the ring.
    fn flush(&mut self) -> (r: Result<()>)
        ensures
            final(self).read_pending() == old(self).read_pending(),
            r is Ok ==> final(self).write_pending().len() == 0,
            final(self).write_pending().len() <= old(self).write_pending().len(),
            final(self).write_pending() == old(self).write_pending().subrange(
                old(self).write_pending().len() - final(self).write_pending().len(),
                old(self).write_pending().len() as int,
            ),
    {
        match self.drain_write_buffer() {
            Ok(()) => {},
            Err(e) => {
                return Err(e);
            },
        }
        self.inner.flush()
    }
}

/// A holder for a reader and writer of the standard library. It only
/// keeps the value; a program that wants to run the engine over it reaches
/// through `inner_mut` and does the reading and writing itself.
#[derive(Debug)]
pub struct StdTransport<T> {
    inner: T,
}

impl<T> StdTransport<T> {
    pub closed spec fn spec_inner(&self) -> T {
        self.inner
    }

    pub fn new(inner: T) -> (t: Self)
        ensures
            t.spec_inner() == inner,
    {
        StdTransport { inner }
    }

    pub fn inner(&self) -> (t: &T)
        ensures
            *t == self.spec_inner(),
    {
        &self.inner
    }

    pub fn inner_mut(&mut self) -> (t: &mut T)
        ensures
            *t == old(self).spec_inner(),
            final(self).spec_inner() == *final(t),
    {
        &mut self.inner
    }

    pub fn into_inner(self) -> (t: T)
        ensures
            t == self.spec_inner(),
    {
        self.inner
    }
}

} // verus!
