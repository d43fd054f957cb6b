//! Big-endian 16- and 32-bit integers on the wire, as every multi-byte
//! field of a DNS message uses them.

use vstd::prelude::*;

verus! {

/// The 16-bit value whose big-endian bytes are `hi`, `lo`.
pub open spec fn spec_u16_be(hi: u8, lo: u8) -> u16 {
    ((hi as u16) << 8) | (lo as u16)
}

/// The two big-endian bytes of `x`.
pub open spec fn spec_u16_be_bytes(x: u16) -> Seq<u8> {
    seq![(x >> 8) as u8, x as u8]
}

/// The 32-bit value whose big-endian bytes are `b0` .. `b3`.
pub open spec fn spec_u32_be(b0: u8, b1: u8, b2: u8, b3: u8) -> u32 {
    ((b0 as u32) << 24) | ((b1 as u32) << 16) | ((b2 as u32) << 8) | (b3 as u32)
}

/// The four big-endian bytes of `x`.
pub open spec fn spec_u32_be_bytes(x: u32) -> Seq<u8> {
    seq![(x >> 24) as u8, (x >> 16) as u8, (x >> 8) as u8, x as u8]
}

/// Reading back the big-endian bytes of a 16-bit value gives the value.
pub proof fn lemma_u16_be_round_trip(x: u16)
    ensures
        spec_u16_be((x >> 8) as u8, x as u8) == x,
{
    assert(((((x >> 8) as u8) as u16) << 8) | ((x as u8) as u16) == x) by (bit_vector);
}

/// Reading back the big-endian bytes of a 32-bit value gives the value.
pub proof fn lemma_u32_be_round_trip(x: u32)
    ensures
        spec_u32_be((x >> 24) as u8, (x >> 16) as u8, (x >> 8) as u8, x as u8) == x,
{
    assert(((((x >> 24) as u8) as u32) << 24) | ((((x >> 16) as u8) as u32) << 16) | ((((x
        >> 8) as u8) as u32) << 8) | ((x as u8) as u32) == x) by (bit_vector);
}

/// The 16-bit value stored big-endian at `buf[i]`, `buf[i + 1]`.
pub fn u16_from_be_at(buf: &[u8], i: usize) -> (x: u16)
    requires
        i + 2 <= buf@.len(),
    ensures
        x == spec_u16_be(buf@[i as int], buf@[i + 1]),
{
    ((buf[i] as u16) << 8) | (buf[i + 1] as u16)
}

/// The 32-bit value stored big-endian at `buf[i]` .. `buf[i + 3]`.
pub fn u32_from_be_at(buf: &[u8], i: usize) -> (x: u32)
    requires
        i + 4 <= buf@.len(),
    ensures
        x == spec_u32_be(buf@[i as int], buf@[i + 1], buf@[i + 2], buf@[i + 3]),
{
    ((buf[i] as u32) << 24) | ((buf[i + 1] as u32) << 16) | ((buf[i + 2] as u32) << 8) | (buf[i
        + 3] as u32)
}

/// Appends the two big-endian bytes of `x`.
pub fn push_u16_be(bytes: &mut Vec<u8>, x: u16)
    ensures
        final(bytes)@ == old(bytes)@ + spec_u16_be_bytes(x),
{
    bytes.push((x >> 8) as u8);
    bytes.push(x as u8);
    proof {
        assert(bytes@ =~= old(bytes)@ + spec_u16_be_bytes(x));
    }
}

/// Appends the four big-endian bytes of `x`.
pub fn push_u32_be(bytes: &mut Vec<u8>, x: u32)
    ensures
        final(bytes)@ == old(bytes)@ + spec_u32_be_bytes(x),
{
    bytes.push((x >> 24) as u8);
    bytes.push((x >> 16) as u8);
    bytes.push((x >> 8) as u8);
    bytes.push(x as u8);
    proof {
        assert(bytes@ =~= old(bytes)@ + spec_u32_be_bytes(x));
    }
}

} // verus!
