//! IPv4 host addresses, as an A record carries them.

use vstd::prelude::*;

verus! {

/// An IPv4 address: its four octets, most significant first.
#[derive(Clone, Copy, Debug, PartialEq, Eq, Hash)]
pub struct Ipv4Address {
    pub octets: [u8; 4],
}

impl View for Ipv4Address {
    type V = Seq<u8>;

    /// The four octets, most significant first.
    open spec fn view(&self) -> Seq<u8> {
        self.octets@
    }
}

impl Ipv4Address {
    /// The address `a.b.c.d`.
    pub fn new(a: u8, b: u8, c: u8, d: u8) -> (r: Self)
        ensures
            r@ == seq![a, b, c, d],
    {
        let octets = [a, b, c, d];
        assert(octets@ =~= seq![a, b, c, d]);
        Ipv4Address { octets }
    }

    /// The four octets, most significant first.
    pub fn octets(&self) -> (r: [u8; 4])
        ensures
            r == self.octets,
    {
        self.octets
    }

    /// Whether both addresses have the same octets.
    pub fn same(&self, other: &Ipv4Address) -> (r: bool)
        ensures
            r == (self@ == other@),
    {
        let r = self.octets[0] == other.octets[0] && self.octets[1] == other.octets[1]
            && self.octets[2] == other.octets[2] && self.octets[3] == other.octets[3];
        assert(r ==> self.octets@ =~= other.octets@);
        r
    }
}

/// The address that the first four octets of `chunk` spell out.
pub open spec fn ipv4_of(chunk: Seq<u8>) -> Seq<u8> {
    chunk.subrange(0, 4)
}

/// Reads an IPv4 address from the first four octets of `chunk`.
pub fn ipv4_addr_from_bytes(chunk: &[u8]) -> (r: Ipv4Address)
    requires
        chunk@.len() >= 4,
    ensures
        r@ == ipv4_of(chunk@),
{
    let r = Ipv4Address::new(chunk[0], chunk[1], chunk[2], chunk[3]);
    assert(r@ =~= ipv4_of(chunk@));
    r
}

} // verus!
