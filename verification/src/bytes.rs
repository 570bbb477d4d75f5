//! Little-endian 64-bit words stored in byte buffers.
//!
//! The queue keeps every header field and every per-slot sequence number as an
//! eight-byte little-endian word inside one contiguous byte region. This module
//! gives the word encoding an exact mathematical meaning ([`word_at`]) and
//! verified read / write operations over `Vec<u8>`, together with framing
//! lemmas saying which bytes an update leaves untouched.

use vstd::prelude::*;

verus! {

/// The value of the 64-bit little-endian word stored in the eight bytes of
/// `b` that start at offset `off`.
pub open spec fn word_at(b: Seq<u8>, off: int) -> int {
    (b[off] as int) + (b[off + 1] as int) * 0x100 + (b[off + 2] as int) * 0x1_0000 + (b[off
        + 3] as int) * 0x100_0000 + (b[off + 4] as int) * 0x1_0000_0000 + (b[off + 5] as int)
        * 0x100_0000_0000 + (b[off + 6] as int) * 0x1_0000_0000_0000 + (b[off + 7] as int)
        * 0x100_0000_0000_0000
}

/// `b1` and `b2` agree everywhere outside the index range `[lo, hi)`.
pub open spec fn eq_outside(b1: Seq<u8>, b2: Seq<u8>, lo: int, hi: int) -> bool {
    &&& b1.len() == b2.len()
    &&& forall|j: int| 0 <= j < b1.len() && !(lo <= j < hi) ==> b1[j] == b2[j]
}

/// A word whose eight bytes lie outside an updated range is unchanged.
pub proof fn lemma_word_at_frame(b1: Seq<u8>, b2: Seq<u8>, lo: int, hi: int, off: int)
    requires
        eq_outside(b1, b2, lo, hi),
        0 <= off,
        off + 8 <= b1.len(),
        off + 8 <= lo || hi <= off,
    ensures
        word_at(b1, off) == word_at(b2, off),
{
    assert(b1[off] == b2[off]);
    assert(b1[off + 1] == b2[off + 1]);
    assert(b1[off + 2] == b2[off + 2]);
    assert(b1[off + 3] == b2[off + 3]);
    assert(b1[off + 4] == b2[off + 4]);
    assert(b1[off + 5] == b2[off + 5]);
    assert(b1[off + 6] == b2[off + 6]);
    assert(b1[off + 7] == b2[off + 7]);
}

/// Reads the word stored at byte offset `off`.
pub fn read_word(buf: &Vec<u8>, off: usize) -> (r: u64)
    requires
        off + 8 <= buf.len(),
    ensures
        r as int == word_at(buf@, off as int),
{
    (buf[off] as u64) + (buf[off + 1] as u64) * 0x100 + (buf[off + 2] as u64) * 0x1_0000 + (buf[off
        + 3] as u64) * 0x100_0000 + (buf[off + 4] as u64) * 0x1_0000_0000 + (buf[off + 5] as u64)
        * 0x100_0000_0000 + (buf[off + 6] as u64) * 0x1_0000_0000_0000 + (buf[off + 7] as u64)
        * 0x100_0000_0000_0000
}

/// A 64-bit value equals the little-endian recombination of its eight bytes.
proof fn lemma_u64_byte_decomposition(v: u64)
    by (bit_vector)
    ensures
        (v % 0x100) + ((v / 0x100) % 0x100) * 0x100 + ((v / 0x1_0000) % 0x100) * 0x1_0000 + ((v
            / 0x100_0000) % 0x100) * 0x100_0000 + ((v / 0x1_0000_0000) % 0x100) * 0x1_0000_0000 + (
        (v / 0x100_0000_0000) % 0x100) * 0x100_0000_0000 + ((v / 0x1_0000_0000_0000) % 0x100)
            * 0x1_0000_0000_0000 + ((v / 0x100_0000_0000_0000) % 0x100) * 0x100_0000_0000_0000
            == v,
{
}

/// Stores `v` as a little-endian word in the eight bytes starting at `off`,
/// leaving every other byte of the buffer unchanged.
pub fn write_word(buf: &mut Vec<u8>, off: usize, v: u64)
    requires
        off + 8 <= old(buf).len(),
    ensures
        final(buf)@.len() == old(buf)@.len(),
        word_at(final(buf)@, off as int) == v as int,
        eq_outside(final(buf)@, old(buf)@, off as int, off + 8),
{
    buf[off] = (v % 0x100) as u8;
    buf[off + 1] = ((v / 0x100) % 0x100) as u8;
    buf[off + 2] = ((v / 0x1_0000) % 0x100) as u8;
    buf[off + 3] = ((v / 0x100_0000) % 0x100) as u8;
    buf[off + 4] = ((v / 0x1_0000_0000) % 0x100) as u8;
    buf[off + 5] = ((v / 0x100_0000_0000) % 0x100) as u8;
    buf[off + 6] = ((v / 0x1_0000_0000_0000) % 0x100) as u8;
    buf[off + 7] = ((v / 0x100_0000_0000_0000) % 0x100) as u8;
    proof {
        lemma_u64_byte_decomposition(v);
    }
}

/// Copies all of `src` into the buffer at offset `off`, leaving every byte
/// outside the written range unchanged.
pub fn write_bytes(buf: &mut Vec<u8>, off: usize, src: &[u8])
    requires
        off + src@.len() <= old(buf).len(),
    ensures
        final(buf)@.len() == old(buf)@.len(),
        final(buf)@.subrange(off as int, off + src@.len()) == src@,
        eq_outside(final(buf)@, old(buf)@, off as int, off + src@.len()),
{
    let ghost orig = buf@;
    let mut i: usize = 0;
    while i < src.len()
        invariant
            i <= src@.len(),
            off + src@.len() <= buf.len(),
            buf@.len() == orig.len(),
            forall|j: int| 0 <= j < i ==> buf@[off + j] == src@[j],
            forall|j: int| 0 <= j < orig.len() && !(off <= j < off + src@.len()) ==> buf@[j]
                == orig[j],
        decreases src@.len() - i,
    {
        buf[off + i] = src[i];
        i = i + 1;
    }
    assert(buf@.subrange(off as int, off + src@.len()) =~= src@);
}

/// Returns a copy of the `n` bytes starting at offset `off`.
pub fn read_bytes(buf: &Vec<u8>, off: usize, n: usize) -> (r: Vec<u8>)
    requires
        off + n <= buf.len(),
    ensures
        r@ == buf@.subrange(off as int, off + n as int),
{
    let mut r: Vec<u8> = Vec::new();
    let mut i: usize = 0;
    while i < n
        invariant
            i <= n,
            off + n <= buf.len(),
            r@.len() == i,
            forall|j: int| 0 <= j < i ==> r@[j] == buf@[off + j],
        decreases n - i,
    {
        r.push(buf[off + i]);
        i = i + 1;
    }
    assert(r@ =~= buf@.subrange(off as int, off + n as int));
    r
}

/// Returns a vector of `n` zero bytes.
pub fn zero_vec(n: usize) -> (r: Vec<u8>)
    ensures
        r@ == Seq::new(n as nat, |i: int| 0u8),
{
    let mut r: Vec<u8> = Vec::new();
    let mut i: usize = 0;
    while i < n
        invariant
            i <= n,
            r@.len() == i,
            forall|j: int| 0 <= j < i ==> r@[j] == 0u8,
        decreases n - i,
    {
        r.push(0u8);
        i = i + 1;
    }
    assert(r@ =~= Seq::new(n as nat, |i: int| 0u8));
    r
}

} // verus!
