//! Big-endian integers, as every multi-byte field of a DNS message is laid out.

use vstd::prelude::*;

verus! {

/// The 16-bit integer whose big-endian octets are `hi`, `lo`.
pub open spec fn be_u16(hi: u8, lo: u8) -> u16 {
    (hi as int * 256 + lo as int) as u16
}

/// The two big-endian octets of `x`.
pub open spec fn u16_wire(x: u16) -> Seq<u8> {
    seq![(x / 256) as u8, (x % 256) as u8]
}

/// The 32-bit integer whose big-endian octets are `b0`, `b1`, `b2`, `b3`.
pub open spec fn be_u32(b0: u8, b1: u8, b2: u8, b3: u8) -> u32 {
    (b0 as int * 16777216 + b1 as int * 65536 + b2 as int * 256 + b3 as int) as u32
}

/// The four big-endian octets of `x`.
pub open spec fn u32_wire(x: u32) -> Seq<u8> {
    seq![
        (x / 16777216) as u8,
        ((x / 65536) % 256) as u8,
        ((x / 256) % 256) as u8,
        (x % 256) as u8,
    ]
}

/// Assembles a 16-bit integer from its big-endian octets.
pub fn u16_from_be(hi: u8, lo: u8) -> (r: u16)
    ensures
        r == be_u16(hi, lo),
{
    (hi as u16) * 256 + (lo as u16)
}

/// Splits a 16-bit integer into its big-endian octets.
pub fn u16_to_be(x: u16) -> (r: [u8; 2])
    ensures
        r@ == u16_wire(x),
{
    let r = [(x / 256) as u8, (x % 256) as u8];
    assert(r@ =~= u16_wire(x));
    r
}

/// Assembles a 32-bit integer from its big-endian octets.
pub fn u32_from_be(b0: u8, b1: u8, b2: u8, b3: u8) -> (r: u32)
    ensures
        r == be_u32(b0, b1, b2, b3),
{
    (b0 as u32) * 16777216 + (b1 as u32) * 65536 + (b2 as u32) * 256 + (b3 as u32)
}

/// Splits a 32-bit integer into its big-endian octets.
pub fn u32_to_be(x: u32) -> (r: [u8; 4])
    ensures
        r@ == u32_wire(x),
{
    let r = [
        (x / 16777216) as u8,
        ((x / 65536) % 256) as u8,
        ((x / 256) % 256) as u8,
        (x % 256) as u8,
    ];
    assert(r@ =~= u32_wire(x));
    r
}

/// Appends the octets of `src` to `out`.
pub fn append_bytes(out: &mut Vec<u8>, src: &[u8])
    ensures
        final(out)@ == old(out)@ + src@,
{
    let mut i: usize = 0;
    while i < src.len()
        invariant
            i <= src@.len(),
            out@ == old(out)@ + src@.subrange(0, i as int),
        decreases src@.len() - i,
    {
        out.push(src[i]);
        i = i + 1;
        assert(out@ =~= old(out)@ + src@.subrange(0, i as int));
    }
    assert(src@.subrange(0, i as int) =~= src@);
}

/// Reading back the octets of a 16-bit integer gives the integer.
pub proof fn lemma_u16_wire_round_trip(x: u16)
    ensures
        u16_wire(x).len() == 2,
        be_u16(u16_wire(x)[0], u16_wire(x)[1]) == x,
{
}

/// Reading back the octets of a 32-bit integer gives the integer.
pub proof fn lemma_u32_wire_round_trip(x: u32)
    ensures
        u32_wire(x).len() == 4,
        be_u32(u32_wire(x)[0], u32_wire(x)[1], u32_wire(x)[2], u32_wire(x)[3]) == x,
{
}

} // verus!
