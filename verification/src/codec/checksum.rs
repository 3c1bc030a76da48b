//! CRC-32 with the IEEE 802.3 polynomial, reflected.
//!
//! The checksum of a byte string is defined by feeding its bytes, first to
//! last, through [`crc_byte`], starting from the all-ones register and
//! inverting the register at the end. The executable code works from a
//! table of 256 entries that [`generate_crc32_table`] builds.

use vstd::prelude::*;

verus! {

/// The polynomial, reflected.
pub const CRC32_POLYNOMIAL: u32 = 0xEDB88320;

/// The register before the first byte.
pub const CRC32_INIT: u32 = 0xFFFFFFFF;

/// One shift of the register: the low bit decides whether the polynomial
/// is folded in.
pub open spec fn crc_shift(x: u32) -> u32 {
    if x & 1 != 0 {
        (x >> 1) ^ 0xEDB88320u32
    } else {
        x >> 1
    }
}

/// `n` shifts of the register.
pub open spec fn crc_shifts(x: u32, n: nat) -> u32
    decreases n,
{
    if n == 0 {
        x
    } else {
        crc_shift(crc_shifts(x, (n - 1) as nat))
    }
}

/// Entry `i` of the table: eight shifts of `i`.
pub open spec fn crc_table_entry(i: u32) -> u32 {
    crc_shift(crc_shift(crc_shift(crc_shift(crc_shift(crc_shift(crc_shift(crc_shift(i))))))))
}

/// The register after one more byte.
pub open spec fn crc_byte(state: u32, byte: u8) -> u32 {
    (state >> 8) ^ crc_table_entry((state ^ (byte as u32)) & 0xFF)
}

/// The register after the bytes of `data`, starting from `state`.
pub open spec fn crc_fold(state: u32, data: Seq<u8>) -> u32
    decreases data.len(),
{
    if data.len() == 0 {
        state
    } else {
        crc_byte(crc_fold(state, data.drop_last()), data.last())
    }
}

/// The CRC-32 of `data`.
pub open spec fn crc32(data: Seq<u8>) -> u32 {
    crc_fold(0xFFFFFFFF, data) ^ 0xFFFFFFFF
}

/// All the byte strings of `parts`, joined in order.
pub open spec fn concat(parts: Seq<Seq<u8>>) -> Seq<u8>
    decreases parts.len(),
{
    if parts.len() == 0 {
        Seq::<u8>::empty()
    } else {
        concat(parts.drop_last()) + parts.last()
    }
}

/// What each slice of `slices` holds.
pub open spec fn contents(slices: Seq<&[u8]>) -> Seq<Seq<u8>> {
    Seq::new(slices.len(), |i: int| slices[i]@)
}

/// Whether `table` is the table of this checksum.
pub open spec fn is_crc_table(table: Seq<u32>) -> bool {
    &&& table.len() == 256
    &&& forall|i: int| 0 <= i < 256 ==> #[trigger] table[i] == crc_table_entry(i as u32)
}

/// Feeding a string in two pieces is feeding it whole.
pub proof fn lemma_crc_fold_concat(state: u32, a: Seq<u8>, b: Seq<u8>)
    ensures
        crc_fold(state, a + b) == crc_fold(crc_fold(state, a), b),
    decreases b.len(),
{
    if b.len() == 0 {
        assert(a + b =~= a);
    } else {
        lemma_crc_fold_concat(state, a, b.drop_last());
        assert((a + b).drop_last() =~= a + b.drop_last());
        assert((a + b).last() == b.last());
    }
}

/// Eight single shifts are one table entry.
proof fn lemma_eight_shifts(i: u32)
    ensures
        crc_shifts(i, 8) == crc_table_entry(i),
{
    reveal_with_fuel(crc_shifts, 9);
}

/// Builds the table of 256 entries.
pub fn generate_crc32_table() -> (table: [u32; 256])
    ensures
        is_crc_table(table@),
{
    let mut table = [0u32;256];
    let mut i: usize = 0;
    while i < 256
        invariant
            i <= 256,
            forall|k: int| 0 <= k < i ==> #[trigger] table@[k] == crc_table_entry(k as u32),
        decreases 256 - i,
    {
        let mut crc: u32 = i as u32;
        let mut j: usize = 0;
        while j < 8
            invariant
                j <= 8,
                i < 256,
                crc == crc_shifts(i as u32, j as nat),
            decreases 8 - j,
        {
            if crc & 1 != 0 {
                crc = (crc >> 1) ^ CRC32_POLYNOMIAL;
            } else {
                crc = crc >> 1;
            }
            j = j + 1;
        }
        proof {
            lemma_eight_shifts(i as u32);
        }
        table[i] = crc;
        i = i + 1;
    }
    table
}

/// A CRC-32 in progress.
#[derive(Debug, Clone, Copy)]
pub struct Crc32 {
    state: u32,
}

impl Default for Crc32 {
    fn default() -> (c: Self)
        ensures
            c.spec_state() == CRC32_INIT,
    {
        Crc32::new()
    }
}

impl Crc32 {
    /// The register as it stands.
    pub closed spec fn spec_state(&self) -> u32 {
        self.state
    }

    /// Starts a checksum.
    pub fn new() -> (c: Self)
        ensures
            c.spec_state() == CRC32_INIT,
    {
        Crc32 { state: 0xFFFFFFFF }
    }

    /// Feeds the bytes of `data`, with the help of `table`.
    fn update_with(&mut self, table: &[u32; 256], data: &[u8])
        requires
            is_crc_table(table@),
        ensures
            final(self).spec_state() == crc_fold(old(self).spec_state(), data@),
    {
        let mut i: usize = 0;
        while i < data.len()
            invariant
                i <= data@.len(),
                is_crc_table(table@),
                self.state == crc_fold(old(self).state, data@.subrange(0, i as int)),
            decreases data@.len() - i,
        {
            let byte = data[i];
            let mixed = self.state ^ (byte as u32);
            let low = mixed & 0xFF;
            assert(low < 256) by (bit_vector)
                requires
                    low == mixed & 0xFF,
            ;
            let index = low as usize;
            assert(table@[index as int] == crc_table_entry(low));
            self.state = (self.state >> 8) ^ table[index];
            proof {
                let upto = data@.subrange(0, i + 1);
                assert(upto.drop_last() =~= data@.subrange(0, i as int));
                assert(upto.last() == byte);
            }
            i = i + 1;
        }
        assert(data@.subrange(0, data@.len() as int) =~= data@);
    }

    /// Feeds the bytes of `data`. May be called any number of times: the
    /// pieces count as one string.
    pub fn update(&mut self, data: &[u8])
        ensures
            final(self).spec_state() == crc_fold(old(self).spec_state(), data@),
    {
        let table = generate_crc32_table();
        self.update_with(&table, data);
    }

    /// The checksum of all that was fed.
    pub fn finalize(self) -> (crc: u32)
        ensures
            crc == self.spec_state() ^ 0xFFFFFFFF,
    {
        self.state ^ 0xFFFFFFFF
    }

    /// The checksum of `data`.
    pub fn compute(data: &[u8]) -> (crc: u32)
        ensures
            crc == crc32(data@),
    {
        let mut crc = Crc32::new();
        crc.update(data);
        crc.finalize()
    }

    /// The checksum of the slices joined in order, without joining them.
    pub fn compute_slices(slices: &[&[u8]]) -> (crc: u32)
        ensures
            crc == crc32(concat(contents(slices@))),
    {
        let table = generate_crc32_table();
        let mut crc = Crc32::new();
        let mut i: usize = 0;
        while i < slices.len()
            invariant
                i <= slices@.len(),
                is_crc_table(table@),
                crc.state == crc_fold(0xFFFFFFFF, concat(contents(slices@).subrange(0, i as int))),
            decreases slices@.len() - i,
        {
            let ghost before = concat(contents(slices@).subrange(0, i as int));
            crc.update_with(&table, slices[i]);
            proof {
                let parts = contents(slices@).subrange(0, i + 1);
                assert(parts.drop_last() =~= contents(slices@).subrange(0, i as int));
                assert(parts.last() == slices@[i as int]@);
                lemma_crc_fold_concat(0xFFFFFFFF, before, slices@[i as int]@);
            }
            i = i + 1;
        }
        assert(contents(slices@).subrange(0, slices@.len() as int) =~= contents(slices@));
        crc.finalize()
    }

    /// Whether `expected` is the checksum of `data`.
    pub fn verify(data: &[u8], expected: u32) -> (ok: bool)
        ensures
            ok == (crc32(data@) == expected),
    {
        Crc32::compute(data) == expected
    }

    /// Whether `expected` is the checksum of the slices joined in order.
    pub fn verify_slices(slices: &[&[u8]], expected: u32) -> (ok: bool)
        ensures
            ok == (crc32(concat(contents(slices@))) == expected),
    {
        Crc32::compute_slices(slices) == expected
    }

    /// Starts over.
    pub fn reset(&mut self)
        ensures
            final(self).spec_state() == CRC32_INIT,
    {
        self.state = 0xFFFFFFFF;
    }

    /// The register as it stands, to be kept for later.
    #[verifier::when_used_as_spec(spec_state)]
    pub fn state(&self) -> (s: u32)
        ensures
            s == self.spec_state(),
    {
        self.state
    }

    /// Goes on from a register kept earlier.
    pub fn from_state(state: u32) -> (c: Self)
        ensures
            c.spec_state() == state,
    {
        Crc32 { state }
    }
}

/// For a given byte, different registers stay different.
pub proof fn lemma_crc_byte_keeps_states_apart(s1: u32, s2: u32, b: u8)
    requires
        s1 != s2,
    ensures
        crc_byte(s1, b) != crc_byte(s2, b),
{
    assert(crc_byte(s1, b) != crc_byte(s2, b)) by (bit_vector)
        requires
            s1 != s2,
    ;
}

/// From a given register, different bytes lead to different registers.
pub proof fn lemma_crc_byte_tells_bytes_apart(s: u32, b1: u8, b2: u8)
    requires
        b1 != b2,
    ensures
        crc_byte(s, b1) != crc_byte(s, b2),
{
    assert(crc_byte(s, b1) != crc_byte(s, b2)) by (bit_vector)
        requires
            b1 != b2,
    ;
}

/// Two strings of one length that differ in exactly one byte leave
/// different registers.
pub proof fn lemma_crc_fold_detects_one_byte(state: u32, a: Seq<u8>, b: Seq<u8>, at: int)
    requires
        a.len() == b.len(),
        0 <= at < a.len(),
        a[at] != b[at],
        forall|i: int| 0 <= i < a.len() && i != at ==> a[i] == b[i],
    ensures
        crc_fold(state, a) != crc_fold(state, b),
    decreases a.len(),
{
    if at == a.len() - 1 {
        assert(a.drop_last() =~= b.drop_last());
        lemma_crc_byte_tells_bytes_apart(crc_fold(state, a.drop_last()), a.last(), b.last());
    } else {
        lemma_crc_fold_detects_one_byte(state, a.drop_last(), b.drop_last(), at);
        lemma_crc_byte_keeps_states_apart(
            crc_fold(state, a.drop_last()),
            crc_fold(state, b.drop_last()),
            a.last(),
        );
    }
}

/// A change of one byte, and so the flip of one bit, changes the checksum.
pub proof fn lemma_crc32_detects_one_byte(a: Seq<u8>, b: Seq<u8>, at: int)
    requires
        a.len() == b.len(),
        0 <= at < a.len(),
        a[at] != b[at],
        forall|i: int| 0 <= i < a.len() && i != at ==> a[i] == b[i],
    ensures
        crc32(a) != crc32(b),
{
    lemma_crc_fold_detects_one_byte(0xFFFFFFFF, a, b, at);
    let x = crc_fold(0xFFFFFFFF, a);
    let y = crc_fold(0xFFFFFFFF, b);
    assert(x ^ 0xFFFFFFFF != y ^ 0xFFFFFFFF) by (bit_vector)
        requires
            x != y,
    ;
}

/// The checksum of the empty string is zero.
pub proof fn lemma_crc32_of_nothing()
    ensures
        crc32(Seq::<u8>::empty()) == 0,
{
    assert(0xFFFFFFFFu32 ^ 0xFFFFFFFF == 0) by (bit_vector);
}

} // verus!
