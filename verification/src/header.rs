//! The fixed twelve-octet header of a DNS message.

use vstd::prelude::*;
use crate::error::DnsError;
use crate::reader::{lemma_read_u16_of_wire, read_agrees, Reader};
use crate::wire::{append_bytes, be_u16, u16_from_be, u16_to_be, u16_wire};

verus! {

/// The length of a header on the wire.
pub const DNS_HEADER_SIZE: usize = 12;

/// The flag bit that marks a response as truncated (TC).
pub const FLAG_TRUNCATED: u16 = 0x0200;

/// The header of a DNS message.
#[derive(Clone, Copy, Debug, PartialEq, Eq, Structural)]
pub struct DNSHeader {
    /// The transaction id, which a response copies from its query.
    pub id: u16,
    /// QR, Opcode, AA, TC, RD, RA, Z and RCODE, packed as on the wire.
    pub flags: u16,
    pub num_questions: u16,
    pub num_answers: u16,
    pub num_authorities: u16,
    pub num_additionals: u16,
}

/// The twelve octets of a header: six big-endian 16-bit fields.
pub open spec fn header_wire(h: DNSHeader) -> Seq<u8> {
    u16_wire(h.id) + u16_wire(h.flags) + u16_wire(h.num_questions) + u16_wire(h.num_answers)
        + u16_wire(h.num_authorities) + u16_wire(h.num_additionals)
}

/// The header that the twelve octets from `pos` on spell out, and the
/// position behind it.
pub open spec fn read_header_at(buf: Seq<u8>, pos: int) -> Result<(DNSHeader, int), DnsError> {
    if 0 <= pos && pos + 12 <= buf.len() {
        Ok(
            (
                DNSHeader {
                    id: be_u16(buf[pos], buf[pos + 1]),
                    flags: be_u16(buf[pos + 2], buf[pos + 3]),
                    num_questions: be_u16(buf[pos + 4], buf[pos + 5]),
                    num_answers: be_u16(buf[pos + 6], buf[pos + 7]),
                    num_authorities: be_u16(buf[pos + 8], buf[pos + 9]),
                    num_additionals: be_u16(buf[pos + 10], buf[pos + 11]),
                },
                pos + 12,
            ),
        )
    } else {
        Err(DnsError::TruncatedInput)
    }
}

/// The header that the first twelve octets of `bytes` spell out.
pub open spec fn header_of_bytes(bytes: Seq<u8>) -> Result<DNSHeader, DnsError> {
    match read_header_at(bytes, 0) {
        Ok((h, _)) => Ok(h),
        Err(e) => Err(e),
    }
}

impl DNSHeader {
    /// Whether the TC flag is set: the sender had to cut the message short.
    pub open spec fn spec_is_truncated(&self) -> bool {
        self.flags & FLAG_TRUNCATED != 0
    }

    /// Whether the TC flag is set: the sender had to cut the message short.
    #[verifier::when_used_as_spec(spec_is_truncated)]
    pub fn is_truncated(&self) -> (r: bool)
        ensures
            r == self.spec_is_truncated(),
    {
        self.flags & FLAG_TRUNCATED != 0
    }

    /// Encodes the header: exactly twelve octets.
    pub fn to_bytes(&self) -> (bytes: Vec<u8>)
        ensures
            bytes@ == header_wire(*self),
            bytes@.len() == 12,
    {
        let mut bytes = Vec::new();
        append_bytes(&mut bytes, &u16_to_be(self.id));
        append_bytes(&mut bytes, &u16_to_be(self.flags));
        append_bytes(&mut bytes, &u16_to_be(self.num_questions));
        append_bytes(&mut bytes, &u16_to_be(self.num_answers));
        append_bytes(&mut bytes, &u16_to_be(self.num_authorities));
        append_bytes(&mut bytes, &u16_to_be(self.num_additionals));
        assert(bytes@ =~= header_wire(*self));
        bytes
    }

    /// Decodes a header from the first twelve octets of `bytes`; fails with
    /// `TruncatedInput` if there are fewer.
    pub fn from_bytes(bytes: &[u8]) -> (r: Result<DNSHeader, DnsError>)
        ensures
            r == header_of_bytes(bytes@),
    {
        if bytes.len() < DNS_HEADER_SIZE {
            return Err(DnsError::TruncatedInput);
        }
        let id = u16_from_be(bytes[0], bytes[1]);
        let flags = u16_from_be(bytes[2], bytes[3]);
        let num_questions = u16_from_be(bytes[4], bytes[5]);
        let num_answers = u16_from_be(bytes[6], bytes[7]);
        let num_authorities = u16_from_be(bytes[8], bytes[9]);
        let num_additionals = u16_from_be(bytes[10], bytes[11]);

        Ok(DNSHeader { id, flags, num_questions, num_answers, num_authorities, num_additionals })
    }

    /// Reads a header from the next twelve octets. On failure the reader
    /// stays where it was.
    pub fn from_reader(reader: &mut Reader) -> (r: Result<DNSHeader, DnsError>)
        ensures
            final(reader).data@ == old(reader).data@,
            read_agrees(
                read_header_at(old(reader).data@, old(reader).position as int),
                r,
                old(reader).position,
                final(reader).position,
            ),
    {
        let bytes = reader.read_exact(DNS_HEADER_SIZE)?;
        DNSHeader::from_bytes(bytes.as_slice())
    }
}

/// A header survives encoding and decoding: if its wire form stands at `pos`
/// of a message, followed by `rest`, reading there gives the header and
/// leaves `rest`.
pub proof fn lemma_header_round_trip(buf: Seq<u8>, pos: int, h: DNSHeader, rest: Seq<u8>)
    requires
        0 <= pos <= buf.len(),
        buf.skip(pos) == header_wire(h) + rest,
    ensures
        header_wire(h).len() == 12,
        read_header_at(buf, pos) == Ok::<(DNSHeader, int), DnsError>((h, pos + 12)),
        buf.skip(pos + 12) == rest,
{
    let a = u16_wire(h.id);
    let b = u16_wire(h.flags);
    let c = u16_wire(h.num_questions);
    let d = u16_wire(h.num_answers);
    let e = u16_wire(h.num_authorities);
    let f = u16_wire(h.num_additionals);
    assert(a + b + c + d + e + f + rest =~= a + (b + (c + (d + (e + (f + rest))))));
    lemma_read_u16_of_wire(buf, pos, h.id, b + (c + (d + (e + (f + rest)))));
    lemma_read_u16_of_wire(buf, pos + 2, h.flags, c + (d + (e + (f + rest))));
    lemma_read_u16_of_wire(buf, pos + 4, h.num_questions, d + (e + (f + rest)));
    lemma_read_u16_of_wire(buf, pos + 6, h.num_answers, e + (f + rest));
    lemma_read_u16_of_wire(buf, pos + 8, h.num_authorities, f + rest);
    lemma_read_u16_of_wire(buf, pos + 10, h.num_additionals, rest);
}

} // verus!
