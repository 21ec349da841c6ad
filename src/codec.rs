//! Little-endian integer fields of the archive layout.
use vstd::prelude::*;

verus! {

/// The eight bytes of `x`, least significant first.
pub open spec fn u64_le(x: u64) -> Seq<u8> {
    seq![
        (x & 0xff) as u8,
        ((x >> 8) & 0xff) as u8,
        ((x >> 16) & 0xff) as u8,
        ((x >> 24) & 0xff) as u8,
        ((x >> 32) & 0xff) as u8,
        ((x >> 40) & 0xff) as u8,
        ((x >> 48) & 0xff) as u8,
        ((x >> 56) & 0xff) as u8,
    ]
}

/// The integer held by eight bytes, least significant first.
pub open spec fn le_u64(s: Seq<u8>) -> u64
    recommends
        s.len() >= 8,
{
    (s[0] as u64) | (s[1] as u64) << 8 | (s[2] as u64) << 16 | (s[3] as u64) << 24 | (s[4] as u64)
        << 32 | (s[5] as u64) << 40 | (s[6] as u64) << 48 | (s[7] as u64) << 56
}

/// The integer held by four bytes, least significant first.
pub open spec fn le_u32(s: Seq<u8>) -> u32
    recommends
        s.len() >= 4,
{
    (s[0] as u32) | (s[1] as u32) << 8 | (s[2] as u32) << 16 | (s[3] as u32) << 24
}

/// Decoding the eight bytes of `x` gives `x` back.
pub proof fn lemma_u64_round_trip(x: u64)
    ensures
        u64_le(x).len() == 8,
        le_u64(u64_le(x)) == x,
{
    let s = u64_le(x);
    let (b0, b1, b2, b3, b4, b5, b6, b7) = (s[0], s[1], s[2], s[3], s[4], s[5], s[6], s[7]);
    assert(b0 == (x & 0xff) as u8 && b1 == ((x >> 8) & 0xff) as u8 && b2 == ((x >> 16) & 0xff) as u8
        && b3 == ((x >> 24) & 0xff) as u8 && b4 == ((x >> 32) & 0xff) as u8 && b5 == ((x >> 40)
        & 0xff) as u8 && b6 == ((x >> 48) & 0xff) as u8 && b7 == ((x >> 56) & 0xff) as u8);
    assert(((x & 0xff) as u8) as u64 == x & 0xff) by (bit_vector);
    assert((((x >> 8) & 0xff) as u8) as u64 == (x >> 8) & 0xff) by (bit_vector);
    assert((((x >> 16) & 0xff) as u8) as u64 == (x >> 16) & 0xff) by (bit_vector);
    assert((((x >> 24) & 0xff) as u8) as u64 == (x >> 24) & 0xff) by (bit_vector);
    assert((((x >> 32) & 0xff) as u8) as u64 == (x >> 32) & 0xff) by (bit_vector);
    assert((((x >> 40) & 0xff) as u8) as u64 == (x >> 40) & 0xff) by (bit_vector);
    assert((((x >> 48) & 0xff) as u8) as u64 == (x >> 48) & 0xff) by (bit_vector);
    assert((((x >> 56) & 0xff) as u8) as u64 == (x >> 56) & 0xff) by (bit_vector);
    assert(((x & 0xff) | ((x >> 8) & 0xff) << 8 | ((x >> 16) & 0xff) << 16 | ((x >> 24) & 0xff)
        << 24 | ((x >> 32) & 0xff) << 32 | ((x >> 40) & 0xff) << 40 | ((x >> 48) & 0xff) << 48 | ((x
        >> 56) & 0xff) << 56) == x) by (bit_vector);
}

/// Reading only the four low bytes of an eight-byte field gives the integer
/// back when it is below 2^32.
pub proof fn lemma_u32_of_u64_prefix(x: u64)
    requires
        x < 0x1_0000_0000,
    ensures
        le_u32(u64_le(x)) as u64 == x,
{
    let s = u64_le(x);
    assert(((x & 0xff) as u8) as u32 == (x & 0xff) as u32) by (bit_vector);
    assert((((x >> 8) & 0xff) as u8) as u32 == ((x >> 8) & 0xff) as u32) by (bit_vector);
    assert((((x >> 16) & 0xff) as u8) as u32 == ((x >> 16) & 0xff) as u32) by (bit_vector);
    assert((((x >> 24) & 0xff) as u8) as u32 == ((x >> 24) & 0xff) as u32) by (bit_vector);
    assert(x < 0x1_0000_0000 ==> ((((x & 0xff) as u32) | (((x >> 8) & 0xff) as u32) << 8 | (((x
        >> 16) & 0xff) as u32) << 16 | (((x >> 24) & 0xff) as u32) << 24) as u64 == x)) by (
    bit_vector);
}

/// Appends the eight bytes of `x`, least significant first.
pub fn push_u64(out: &mut Vec<u8>, x: u64)
    ensures
        final(out)@ == old(out)@ + u64_le(x),
{
    out.push((x & 0xff) as u8);
    out.push(((x >> 8) & 0xff) as u8);
    out.push(((x >> 16) & 0xff) as u8);
    out.push(((x >> 24) & 0xff) as u8);
    out.push(((x >> 32) & 0xff) as u8);
    out.push(((x >> 40) & 0xff) as u8);
    out.push(((x >> 48) & 0xff) as u8);
    out.push(((x >> 56) & 0xff) as u8);
    assert(final(out)@ =~= old(out)@ + u64_le(x));
}

/// Reads the eight-byte field that starts at `at`.
pub fn read_u64(buf: &Vec<u8>, at: usize) -> (r: u64)
    requires
        at + 8 <= buf.len(),
    ensures
        r == le_u64(buf@.subrange(at as int, at + 8)),
{
    (buf[at] as u64) | (buf[at + 1] as u64) << 8 | (buf[at + 2] as u64) << 16 | (buf[at + 3]
        as u64) << 24 | (buf[at + 4] as u64) << 32 | (buf[at + 5] as u64) << 40 | (buf[at + 6]
        as u64) << 48 | (buf[at + 7] as u64) << 56
}

/// Reads the four-byte field that starts at `at`.
pub fn read_u32(buf: &Vec<u8>, at: usize) -> (r: u32)
    requires
        at + 4 <= buf.len(),
    ensures
        r == le_u32(buf@.subrange(at as int, at + 4)),
{
    (buf[at] as u32) | (buf[at + 1] as u32) << 8 | (buf[at + 2] as u32) << 16 | (buf[at + 3]
        as u32) << 24
}

} // verus!
