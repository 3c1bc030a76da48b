//! Fixed-width integers as bytes, in both byte orders.
//!
//! The frame header is big-endian, the head-described framing little-endian.
//! Each width has a spec function that gives the bytes of a value, one that
//! gives the value of some bytes, and executable readers and writers that
//! are proved against them.

use vstd::prelude::*;

verus! {

/// The two bytes of `x`, most significant first.
pub open spec fn u16_be(x: u16) -> Seq<u8> {
    seq![(x / 0x100) as u8, (x % 0x100) as u8]
}

/// The four bytes of `x`, most significant first.
pub open spec fn u32_be(x: u32) -> Seq<u8> {
    seq![
        (x / 0x100_0000) as u8,
        (x / 0x1_0000 % 0x100) as u8,
        (x / 0x100 % 0x100) as u8,
        (x % 0x100) as u8,
    ]
}

/// The value whose big-endian bytes are `b0 b1`.
pub open spec fn u16_of_be(b0: u8, b1: u8) -> u16 {
    (b0 * 0x100 + b1) as u16
}

/// The value whose big-endian bytes are `b0 b1 b2 b3`.
pub open spec fn u32_of_be(b0: u8, b1: u8, b2: u8, b3: u8) -> u32 {
    (b0 * 0x100_0000 + b1 * 0x1_0000 + b2 * 0x100 + b3) as u32
}

/// The two bytes of `x`, least significant first.
pub open spec fn u16_le(x: u16) -> Seq<u8> {
    seq![(x % 0x100) as u8, (x / 0x100) as u8]
}

/// The four bytes of `x`, least significant first.
pub open spec fn u32_le(x: u32) -> Seq<u8> {
    seq![
        (x % 0x100) as u8,
        (x / 0x100 % 0x100) as u8,
        (x / 0x1_0000 % 0x100) as u8,
        (x / 0x100_0000) as u8,
    ]
}

/// The eight bytes of `x`, least significant first.
pub open spec fn u64_le(x: u64) -> Seq<u8> {
    u32_le((x % 0x1_0000_0000) as u32) + u32_le((x / 0x1_0000_0000) as u32)
}

/// The value whose little-endian bytes are `b0 b1`.
pub open spec fn u16_of_le(b0: u8, b1: u8) -> u16 {
    (b0 + b1 * 0x100) as u16
}

/// The value whose little-endian bytes are `b0 b1 b2 b3`.
pub open spec fn u32_of_le(b0: u8, b1: u8, b2: u8, b3: u8) -> u32 {
    (b0 + b1 * 0x100 + b2 * 0x1_0000 + b3 * 0x100_0000) as u32
}

/// The value whose little-endian bytes are the first eight of `s`.
pub open spec fn u64_of_le(s: Seq<u8>) -> u64
    recommends
        s.len() >= 8,
{
    (u32_of_le(s[0], s[1], s[2], s[3]) + u32_of_le(s[4], s[5], s[6], s[7]) * 0x1_0000_0000) as u64
}

/// Reading back the big-endian bytes of a 16-bit value gives the value.
pub proof fn lemma_u16_be_roundtrip(x: u16)
    ensures
        u16_be(x).len() == 2,
        u16_of_be(u16_be(x)[0], u16_be(x)[1]) == x,
{
}

/// Reading back the big-endian bytes of a 32-bit value gives the value.
pub proof fn lemma_u32_be_roundtrip(x: u32)
    ensures
        u32_be(x).len() == 4,
        u32_of_be(u32_be(x)[0], u32_be(x)[1], u32_be(x)[2], u32_be(x)[3]) == x,
{
}

/// Writing the value of two big-endian bytes gives those bytes.
pub proof fn lemma_u16_be_bytes(b0: u8, b1: u8)
    ensures
        u16_be(u16_of_be(b0, b1)) == seq![b0, b1],
{
    assert(u16_be(u16_of_be(b0, b1)) =~= seq![b0, b1]);
}

/// Writing the value of four big-endian bytes gives those bytes.
pub proof fn lemma_u32_be_bytes(b0: u8, b1: u8, b2: u8, b3: u8)
    ensures
        u32_be(u32_of_be(b0, b1, b2, b3)) == seq![b0, b1, b2, b3],
{
    let lo: int = b1 * 0x1_0000 + b2 * 0x100 + b3;
    let v: int = b0 * 0x100_0000 + lo;
    assert(0 <= lo < 0x100_0000);
    assert(v / 0x100_0000 == b0);
    let mid: int = b2 * 0x100 + b3;
    let w: int = (b0 * 0x100 + b1) * 0x1_0000 + mid;
    assert(v == w);
    assert(0 <= mid < 0x1_0000);
    assert(w / 0x1_0000 == b0 * 0x100 + b1);
    let z: int = (b0 * 0x1_0000 + b1 * 0x100 + b2) * 0x100 + b3;
    assert(v == z);
    assert(z / 0x100 == b0 * 0x1_0000 + b1 * 0x100 + b2);
    assert(z % 0x100 == b3);
    assert(u32_be(u32_of_be(b0, b1, b2, b3)) =~= seq![b0, b1, b2, b3]);
}

/// Reading back the little-endian bytes of a 16-bit value gives the value.
pub proof fn lemma_u16_le_roundtrip(x: u16)
    ensures
        u16_le(x).len() == 2,
        u16_of_le(u16_le(x)[0], u16_le(x)[1]) == x,
{
}

/// Reading back the little-endian bytes of a 32-bit value gives the value.
pub proof fn lemma_u32_le_roundtrip(x: u32)
    ensures
        u32_le(x).len() == 4,
        u32_of_le(u32_le(x)[0], u32_le(x)[1], u32_le(x)[2], u32_le(x)[3]) == x,
{
}

/// Writing the value of two little-endian bytes gives those bytes.
pub proof fn lemma_u16_le_bytes(b0: u8, b1: u8)
    ensures
        u16_le(u16_of_le(b0, b1)) == seq![b0, b1],
{
    assert(u16_le(u16_of_le(b0, b1)) =~= seq![b0, b1]);
}

/// Writing the value of four little-endian bytes gives those bytes.
pub proof fn lemma_u32_le_bytes(b0: u8, b1: u8, b2: u8, b3: u8)
    ensures
        u32_le(u32_of_le(b0, b1, b2, b3)) == seq![b0, b1, b2, b3],
{
    let v: int = b0 + b1 * 0x100 + b2 * 0x1_0000 + b3 * 0x100_0000;
    assert(v % 0x100 == b0);
    let a: int = b1 + b2 * 0x100 + b3 * 0x1_0000;
    assert(v == a * 0x100 + b0);
    assert(v / 0x100 == a);
    assert(a % 0x100 == b1);
    let b: int = b2 + b3 * 0x100;
    assert(v == b * 0x1_0000 + (b0 + b1 * 0x100));
    assert(v / 0x1_0000 == b);
    assert(b % 0x100 == b2);
    assert(v == b3 * 0x100_0000 + (b0 + b1 * 0x100 + b2 * 0x1_0000));
    assert(v / 0x100_0000 == b3);
    assert(u32_le(u32_of_le(b0, b1, b2, b3)) =~= seq![b0, b1, b2, b3]);
}

/// Reading back the little-endian bytes of a 64-bit value gives the value.
pub proof fn lemma_u64_le_roundtrip(x: u64)
    ensures
        u64_le(x).len() == 8,
        u64_of_le(u64_le(x)) == x,
{
    let lo = (x % 0x1_0000_0000) as u32;
    let hi = (x / 0x1_0000_0000) as u32;
    lemma_u32_le_roundtrip(lo);
    lemma_u32_le_roundtrip(hi);
    let s = u64_le(x);
    assert(s[0] == u32_le(lo)[0] && s[1] == u32_le(lo)[1] && s[2] == u32_le(lo)[2] && s[3]
        == u32_le(lo)[3]);
    assert(s[4] == u32_le(hi)[0] && s[5] == u32_le(hi)[1] && s[6] == u32_le(hi)[2] && s[7]
        == u32_le(hi)[3]);
}

/// Writes `x` big-endian at `buf[at..at + 2]`.
pub fn put_u16_be(buf: &mut [u8], at: usize, x: u16)
    requires
        at + 2 <= old(buf)@.len(),
    ensures
        final(buf)@.len() == old(buf)@.len(),
        final(buf)@.subrange(at as int, at + 2) == u16_be(x),
        forall|i: int|
            0 <= i < old(buf)@.len() && !(at <= i < at + 2) ==> final(buf)@[i] == old(buf)@[i],
{
    buf[at] = (x / 0x100) as u8;
    buf[at + 1] = (x % 0x100) as u8;
    assert(buf@.subrange(at as int, at + 2) =~= u16_be(x));
}

/// Writes `x` big-endian at `buf[at..at + 4]`.
pub fn put_u32_be(buf: &mut [u8], at: usize, x: u32)
    requires
        at + 4 <= old(buf)@.len(),
    ensures
        final(buf)@.len() == old(buf)@.len(),
        final(buf)@.subrange(at as int, at + 4) == u32_be(x),
        forall|i: int|
            0 <= i < old(buf)@.len() && !(at <= i < at + 4) ==> final(buf)@[i] == old(buf)@[i],
{
    buf[at] = (x / 0x100_0000) as u8;
    buf[at + 1] = (x / 0x1_0000 % 0x100) as u8;
    buf[at + 2] = (x / 0x100 % 0x100) as u8;
    buf[at + 3] = (x % 0x100) as u8;
    assert(buf@.subrange(at as int, at + 4) =~= u32_be(x));
}

/// Reads the big-endian 16-bit value at `buf[at..at + 2]`.
pub fn get_u16_be(buf: &[u8], at: usize) -> (x: u16)
    requires
        at + 2 <= buf@.len(),
    ensures
        x == u16_of_be(buf@[at as int], buf@[at + 1]),
{
    (buf[at] as u16) * 0x100 + (buf[at + 1] as u16)
}

/// Reads the big-endian 32-bit value at `buf[at..at + 4]`.
pub fn get_u32_be(buf: &[u8], at: usize) -> (x: u32)
    requires
        at + 4 <= buf@.len(),
    ensures
        x == u32_of_be(buf@[at as int], buf@[at + 1], buf@[at + 2], buf@[at + 3]),
{
    (buf[at] as u32) * 0x100_0000 + (buf[at + 1] as u32) * 0x1_0000 + (buf[at + 2] as u32) * 0x100
        + (buf[at + 3] as u32)
}

/// Writes `x` little-endian at `buf[at..at + 2]`.
pub fn put_u16_le(buf: &mut [u8], at: usize, x: u16)
    requires
        at + 2 <= old(buf)@.len(),
    ensures
        final(buf)@.len() == old(buf)@.len(),
        final(buf)@.subrange(at as int, at + 2) == u16_le(x),
        forall|i: int|
            0 <= i < old(buf)@.len() && !(at <= i < at + 2) ==> final(buf)@[i] == old(buf)@[i],
{
    buf[at] = (x % 0x100) as u8;
    buf[at + 1] = (x / 0x100) as u8;
    assert(buf@.subrange(at as int, at + 2) =~= u16_le(x));
}

/// Writes `x` little-endian at `buf[at..at + 4]`.
pub fn put_u32_le(buf: &mut [u8], at: usize, x: u32)
    requires
        at + 4 <= old(buf)@.len(),
    ensures
        final(buf)@.len() == old(buf)@.len(),
        final(buf)@.subrange(at as int, at + 4) == u32_le(x),
        forall|i: int|
            0 <= i < old(buf)@.len() && !(at <= i < at + 4) ==> final(buf)@[i] == old(buf)@[i],
{
    buf[at] = (x % 0x100) as u8;
    buf[at + 1] = (x / 0x100 % 0x100) as u8;
    buf[at + 2] = (x / 0x1_0000 % 0x100) as u8;
    buf[at + 3] = (x / 0x100_0000) as u8;
    assert(buf@.subrange(at as int, at + 4) =~= u32_le(x));
}

/// Writes `x` little-endian at `buf[at..at + 8]`.
pub fn put_u64_le(buf: &mut [u8], at: usize, x: u64)
    requires
        at + 8 <= old(buf)@.len(),
    ensures
        final(buf)@.len() == old(buf)@.len(),
        final(buf)@.subrange(at as int, at + 8) == u64_le(x),
        forall|i: int|
            0 <= i < old(buf)@.len() && !(at <= i < at + 8) ==> final(buf)@[i] == old(buf)@[i],
{
    let _ = buf.len();
    put_u32_le(buf, at, (x % 0x1_0000_0000) as u32);
    let ghost mid = buf@;
    put_u32_le(buf, at + 4, (x / 0x1_0000_0000) as u32);
    assert(buf@.subrange(at as int, at + 4) =~= mid.subrange(at as int, at + 4));
    assert(buf@.subrange(at as int, at + 8) =~= buf@.subrange(at as int, at + 4) + buf@.subrange(
        at + 4,
        at + 8,
    ));
}

/// Reads the little-endian 16-bit value at `buf[at..at + 2]`.
pub fn get_u16_le(buf: &[u8], at: usize) -> (x: u16)
    requires
        at + 2 <= buf@.len(),
    ensures
        x == u16_of_le(buf@[at as int], buf@[at + 1]),
{
    (buf[at] as u16) + (buf[at + 1] as u16) * 0x100
}

/// Reads the little-endian 32-bit value at `buf[at..at + 4]`.
pub fn get_u32_le(buf: &[u8], at: usize) -> (x: u32)
    requires
        at + 4 <= buf@.len(),
    ensures
        x == u32_of_le(buf@[at as int], buf@[at + 1], buf@[at + 2], buf@[at + 3]),
{
    (buf[at] as u32) + (buf[at + 1] as u32) * 0x100 + (buf[at + 2] as u32) * 0x1_0000 + (buf[at
        + 3] as u32) * 0x100_0000
}

/// Reads the little-endian 64-bit value at `buf[at..at + 8]`.
pub fn get_u64_le(buf: &[u8], at: usize) -> (x: u64)
    requires
        at + 8 <= buf@.len(),
    ensures
        x == u64_of_le(buf@.subrange(at as int, at + 8)),
{
    let _ = buf.len();
    let lo = get_u32_le(buf, at);
    let hi = get_u32_le(buf, at + 4);
    (lo as u64) + (hi as u64) * 0x1_0000_0000
}

} // verus!
