//! Little-endian byte encodings used by the binary writers.

use vstd::prelude::*;

verus! {

/// The two bytes of `x` (taken modulo 2^16), least significant first.
#[verifier::opaque]
pub open spec fn le16(x: int) -> Seq<u8> {
    seq![(x % 256) as u8, ((x / 256) % 256) as u8]
}

/// The four bytes of `x` (taken modulo 2^32), least significant first.
#[verifier::opaque]
pub open spec fn le32(x: int) -> Seq<u8> {
    seq![
        (x % 256) as u8,
        ((x / 0x100) % 256) as u8,
        ((x / 0x10000) % 256) as u8,
        ((x / 0x1000000) % 256) as u8,
    ]
}

/// The number that four little-endian bytes stand for.
pub open spec fn read_le32(b: Seq<u8>, at: int) -> int {
    b[at] + 0x100 * b[at + 1] + 0x10000 * b[at + 2] + 0x1000000 * b[at + 3]
}

/// The number that two little-endian bytes stand for.
pub open spec fn read_le16(b: Seq<u8>, at: int) -> int {
    b[at] + 0x100 * b[at + 1]
}

/// Appends the little-endian bytes of a `u16`.
pub fn push_le16(out: &mut Vec<u8>, x: u16)
    ensures
        final(out)@ == old(out)@ + le16(x as int),
{
    out.push((x % 256) as u8);
    out.push((x / 256) as u8);
    reveal(le16);
    assert(final(out)@ =~= old(out)@ + le16(x as int));
}

/// Appends the little-endian bytes of a `u32`.
pub fn push_le32(out: &mut Vec<u8>, x: u32)
    ensures
        final(out)@ == old(out)@ + le32(x as int),
{
    out.push((x % 256) as u8);
    out.push(((x / 0x100) % 256) as u8);
    out.push(((x / 0x10000) % 256) as u8);
    out.push((x / 0x1000000) as u8);
    reveal(le32);
    assert(final(out)@ =~= old(out)@ + le32(x as int));
}

/// Appends a copy of `src`.
pub fn push_bytes(out: &mut Vec<u8>, src: &[u8])
    ensures
        final(out)@ == old(out)@ + src@,
{
    let ghost start = out@;
    let mut i: usize = 0;
    while i < src.len()
        invariant
            i <= src@.len(),
            out@ == start + src@.subrange(0, i as int),
        decreases src@.len() - i,
    {
        out.push(src[i]);
        i = i + 1;
        assert(out@ =~= start + src@.subrange(0, i as int));
    }
    assert(src@.subrange(0, src@.len() as int) =~= src@);
}

/// Decoding the little-endian encoding of a 32-bit number gives it back.
pub proof fn lemma_read_le32(x: int)
    requires
        0 <= x < 0x1_0000_0000,
    ensures
        le32(x).len() == 4,
        read_le32(le32(x), 0) == x,
{
    reveal(le32);
}

/// Decoding the little-endian encoding of a 16-bit number gives it back.
pub proof fn lemma_read_le16(x: int)
    requires
        0 <= x < 0x10000,
    ensures
        le16(x).len() == 2,
        read_le16(le16(x), 0) == x,
{
    reveal(le16);
}

} // verus!

verus! {

/// A 16-bit encoding is two bytes long.
pub broadcast proof fn lemma_le16_len(x: int)
    ensures
        #[trigger] le16(x).len() == 2,
{
    reveal(le16);
}

/// A 32-bit encoding is four bytes long.
pub broadcast proof fn lemma_le32_len(x: int)
    ensures
        #[trigger] le32(x).len() == 4,
{
    reveal(le32);
}

pub broadcast group group_le_lengths {
    lemma_le16_len,
    lemma_le32_len,
}

/// Both encodings only look at the low bits of their argument.
pub proof fn lemma_le_mod(x: u64)
    ensures
        le16((x % 0x10000) as int) == le16(x as int),
        le32((x % 0x1_0000_0000) as int) == le32(x as int),
{
    reveal(le16);
    reveal(le32);
    let y: u64 = x % 0x10000;
    let z: u64 = x % 0x1_0000_0000;
    assert(y % 256 == x % 256 && (y / 256) % 256 == (x / 256) % 256) by (bit_vector)
        requires
            y == x % 0x10000,
    ;
    assert(z % 256 == x % 256 && (z / 0x100) % 256 == (x / 0x100) % 256 && (z / 0x10000) % 256
        == (x / 0x10000) % 256 && (z / 0x1000000) % 256 == (x / 0x1000000) % 256) by (bit_vector)
        requires
            z == x % 0x1_0000_0000,
    ;
    assert(le16(y as int) =~= le16(x as int));
    assert(le32(z as int) =~= le32(x as int));
}

} // verus!

verus! {

/// A slice that ends within the left part of a concatenation.
pub proof fn lemma_sub_left(a: Seq<u8>, b: Seq<u8>, i: int, j: int)
    requires
        0 <= i <= j <= a.len(),
    ensures
        (a + b).subrange(i, j) == a.subrange(i, j),
{
    assert((a + b).subrange(i, j) =~= a.subrange(i, j));
}

/// A slice that starts within the right part of a concatenation.
pub proof fn lemma_sub_right(a: Seq<u8>, b: Seq<u8>, i: int, j: int)
    requires
        a.len() <= i <= j <= a.len() + b.len(),
    ensures
        (a + b).subrange(i, j) == b.subrange(i - a.len(), j - a.len()),
{
    assert((a + b).subrange(i, j) =~= b.subrange(i - a.len(), j - a.len()));
}

/// Reading a number at an offset reads the bytes there.
pub proof fn lemma_read_at(s: Seq<u8>, at: int)
    requires
        0 <= at,
        at + 4 <= s.len(),
    ensures
        read_le32(s, at) == read_le32(s.subrange(at, at + 4), 0),
        read_le16(s, at) == read_le16(s.subrange(at, at + 2), 0),
{
}

} // verus!
