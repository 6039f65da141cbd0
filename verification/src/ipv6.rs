//! IPv6 host addresses, as an AAAA record carries them.

use vstd::prelude::*;
use crate::wire::{be_u16, u16_from_be};

verus! {

/// An IPv6 address: its eight 16-bit groups, most significant first.
#[derive(Clone, Copy, Debug, PartialEq, Eq, Hash)]
pub struct Ipv6Address {
    pub segments: [u16; 8],
}

impl View for Ipv6Address {
    type V = Seq<u16>;

    /// The eight groups, most significant first.
    open spec fn view(&self) -> Seq<u16> {
        self.segments@
    }
}

impl Ipv6Address {
    /// The eight groups, most significant first.
    pub fn segments(&self) -> (r: [u16; 8])
        ensures
            r == self.segments,
    {
        self.segments
    }
}

/// The eight groups that the first sixteen octets of `chunk` spell out, each
/// group big-endian.
pub open spec fn ipv6_of(chunk: Seq<u8>) -> Seq<u16> {
    Seq::new(8, |i: int| be_u16(chunk[2 * i], chunk[2 * i + 1]))
}

/// Reads an IPv6 address from the first sixteen octets of `chunk`.
pub fn ipv6_addr_from_bytes(chunk: &[u8]) -> (r: Ipv6Address)
    requires
        chunk@.len() >= 16,
    ensures
        r@ == ipv6_of(chunk@),
{
    let segments = [
        u16_from_be(chunk[0], chunk[1]),
        u16_from_be(chunk[2], chunk[3]),
        u16_from_be(chunk[4], chunk[5]),
        u16_from_be(chunk[6], chunk[7]),
        u16_from_be(chunk[8], chunk[9]),
        u16_from_be(chunk[10], chunk[11]),
        u16_from_be(chunk[12], chunk[13]),
        u16_from_be(chunk[14], chunk[15]),
    ];
    assert(segments@ =~= ipv6_of(chunk@));
    Ipv6Address { segments }
}

} // verus!
