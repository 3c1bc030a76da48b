//! The byte channel that the head-described framing runs over.

use vstd::prelude::*;
use crate::xtrp::error::{Error, ErrorKind, Result};

verus! {

/// The reading half of a byte channel.
pub trait Read {
    /// Reads some bytes into the front of `buf` and says how many; zero
    /// means that the channel has ended.
    fn read(&mut self, buf: &mut [u8]) -> (r: Result<usize>)
        ensures
            final(buf)@.len() == old(buf)@.len(),
            r matches Ok(n) ==> n <= old(buf)@.len(),
    ;

    /// Reads until `buf` is full. Fails with `UnexpectedEof` where the
    /// channel ends first, and with the channel's own error where a read
    /// fails.
    ///
    /// An empty `buf` is full as it is: the channel is not read, and the
    /// call succeeds. Otherwise the channel decides, one read at a time,
    /// as `read_progress` says.
    fn read_exact(&mut self, buf: &mut [u8]) -> (r: Result<()>)
        ensures
            final(buf)@.len() == old(buf)@.len(),
            old(buf)@.len() == 0 ==> r is Ok && final(buf)@ == old(buf)@,
    {
        let total = buf.len();
        let mut filled: usize = 0;
        while filled < total
            invariant
                filled <= total,
                buf@.len() == total,
                total == old(buf)@.len(),
                total == 0 ==> buf@ == old(buf)@,
            decreases total - filled,
        {
            let (_, rest) = buf.split_at_mut(filled);
            let got = self.read(rest);
            match read_progress(filled, total, got) {
                Ok(now) => {
                    filled = now;
                },
                Err(e) => {
                    return Err(e);
                },
            }
        }
        Ok(())
    }
}

/// The writing half of a byte channel.
pub trait Write {
    /// Writes some bytes from the front of `buf` and says how many.
    fn write(&mut self, buf: &[u8]) -> (r: Result<usize>)
        ensures
            r matches Ok(n) ==> n <= buf@.len(),
    ;

    /// Hands on whatever the channel still holds back.
    fn flush(&mut self) -> (r: Result<()>);

    /// Writes all of `buf`, however many writes that takes. Fails with
    /// `WriteZero` where a write takes nothing, and with the channel's own
    /// error where a write fails.
    ///
    /// Nothing is written of an empty `buf`, and the call succeeds.
    /// Otherwise the channel decides, one write at a time, as
    /// `write_progress` says.
    fn write_all(&mut self, buf: &[u8]) -> (r: Result<()>)
        ensures
            buf@.len() == 0 ==> r is Ok,
    {
        let mut written: usize = 0;
        while written < buf.len()
            invariant
                written <= buf@.len(),
            decreases buf@.len() - written,
        {
            let got = self.write(&buf[written..buf.len()]);
            match write_progress(written, buf.len(), got) {
                Ok(now) => {
                    written = now;
                },
                Err(e) => {
                    return Err(e);
                },
            }
        }
        Ok(())
    }
}

/// What one read makes of a buffer of `total` bytes of which `filled` were
/// there before: the number of bytes that are there now, or the failure
/// that ends the reading. A read of no byte means that the channel has
/// ended, which is `UnexpectedEof`; a failure of the read is handed on.
pub fn read_progress(filled: usize, total: usize, got: Result<usize>) -> (r: Result<usize>)
    requires
        filled < total,
        got matches Ok(n) ==> n <= total - filled,
    ensures
        match got {
            Ok(n) => if n == 0 {
                r matches Err(e) && e.spec_kind() == ErrorKind::UnexpectedEof
            } else {
                r == Ok::<usize, Error>((filled + n) as usize)
            },
            Err(e) => r == Err::<usize, Error>(e),
        },
{
    match got {
        Ok(n) => {
            if n == 0 {
                Err(Error::new(ErrorKind::UnexpectedEof))
            } else {
                Ok(filled + n)
            }
        },
        Err(e) => Err(e),
    }
}

/// What one write makes of `total` bytes of which `written` had gone out
/// before: the number of bytes that have gone out now, or the failure that
/// ends the writing. A write that takes no byte is `WriteZero`; a failure
/// of the write is handed on.
pub fn write_progress(written: usize, total: usize, got: Result<usize>) -> (r: Result<usize>)
    requires
        written < total,
        got matches Ok(n) ==> n <= total - written,
    ensures
        match got {
            Ok(n) => if n == 0 {
                r matches Err(e) && e.spec_kind() == ErrorKind::WriteZero
            } else {
                r == Ok::<usize, Error>((written + n) as usize)
            },
            Err(e) => r == Err::<usize, Error>(e),
        },
{
    match got {
        Ok(n) => {
            if n == 0 {
                Err(Error::new(ErrorKind::WriteZero))
            } else {
                Ok(written + n)
            }
        },
        Err(e) => Err(e),
    }
}

} // verus!
