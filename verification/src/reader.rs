//! A read cursor over a byte buffer.

use vstd::prelude::*;
use vstd::slice::slice_subrange;
use vstd::slice::slice_to_vec;
use crate::error::DnsError;
use crate::wire::{
    be_u16, be_u32, lemma_u16_wire_round_trip, lemma_u32_wire_round_trip, u16_from_be, u16_wire,
    u32_from_be, u32_wire,
};

verus! {

/// The octet at `pos`, and the position behind it.
pub open spec fn read_u8_at(buf: Seq<u8>, pos: int) -> Result<(u8, int), DnsError> {
    if 0 <= pos && pos + 1 <= buf.len() {
        Ok((buf[pos], pos + 1))
    } else {
        Err(DnsError::TruncatedInput)
    }
}

/// The big-endian 16-bit integer at `pos`, and the position behind it.
pub open spec fn read_u16_at(buf: Seq<u8>, pos: int) -> Result<(u16, int), DnsError> {
    if 0 <= pos && pos + 2 <= buf.len() {
        Ok((be_u16(buf[pos], buf[pos + 1]), pos + 2))
    } else {
        Err(DnsError::TruncatedInput)
    }
}

/// The big-endian 32-bit integer at `pos`, and the position behind it.
pub open spec fn read_u32_at(buf: Seq<u8>, pos: int) -> Result<(u32, int), DnsError> {
    if 0 <= pos && pos + 4 <= buf.len() {
        Ok((be_u32(buf[pos], buf[pos + 1], buf[pos + 2], buf[pos + 3]), pos + 4))
    } else {
        Err(DnsError::TruncatedInput)
    }
}

/// The `n` octets from `pos` on, and the position behind them.
pub open spec fn read_bytes_at(buf: Seq<u8>, pos: int, n: int) -> Result<(Seq<u8>, int), DnsError> {
    if 0 <= pos && 0 <= n && pos + n <= buf.len() {
        Ok((buf.subrange(pos, pos + n), pos + n))
    } else {
        Err(DnsError::TruncatedInput)
    }
}

/// Whether a read that gave `got` and took the reader from `start` to `end`
/// did what `expected` says: it gave that value and stopped behind it, or it
/// failed with that error and left the reader where it was.
pub open spec fn read_agrees<T>(
    expected: Result<(T, int), DnsError>,
    got: Result<T, DnsError>,
    start: usize,
    end: usize,
) -> bool {
    match expected {
        Ok((value, next)) => got matches Ok(v) && v == value && end == next,
        Err(e) => got matches Err(error) && error == e && end == start,
    }
}

/// Whether a read that gave `got` and took the reader from `start` to `end`
/// did what `expected` says: it gave a value that says the same and stopped
/// behind it, or it failed with that error and left the reader where it was.
pub open spec fn read_agrees_view<T: View>(
    expected: Result<(T::V, int), DnsError>,
    got: Result<T, DnsError>,
    start: usize,
    end: usize,
) -> bool {
    match expected {
        Ok((value, next)) => got matches Ok(v) && v@ == value && end == next,
        Err(e) => got matches Err(error) && error == e && end == start,
    }
}

/// A byte buffer together with the position of the next octet to read.
///
/// The position may lie anywhere; a read that would run past the end of the
/// buffer fails with `TruncatedInput` and leaves the reader as it was.
pub struct Reader<'a> {
    pub data: &'a [u8],
    pub position: usize,
}

impl<'a> Reader<'a> {
    /// A reader at the start of `data`.
    pub fn new(data: &'a [u8]) -> (r: Self)
        ensures
            r.data@ == data@,
            r.position == 0,
    {
        Reader { data, position: 0 }
    }

    /// The whole buffer, whatever the position.
    pub fn get_ref(&self) -> (r: &'a [u8])
        ensures
            r@ == self.data@,
    {
        self.data
    }

    /// The position of the next octet to read.
    pub fn position(&self) -> (r: usize)
        ensures
            r == self.position,
    {
        self.position
    }

    /// Moves to `position`, which may lie beyond the end of the buffer.
    pub fn set_position(&mut self, position: usize)
        ensures
            final(self).data@ == old(self).data@,
            final(self).position == position,
    {
        self.position = position;
    }

    /// How many octets are left to read.
    pub fn remaining(&self) -> (r: usize)
        ensures
            r == if self.position <= self.data@.len() {
                self.data@.len() - self.position
            } else {
                0
            },
    {
        if self.position <= self.data.len() {
            self.data.len() - self.position
        } else {
            0
        }
    }

    /// Reads one octet.
    pub fn read_u8(&mut self) -> (r: Result<u8, DnsError>)
        ensures
            final(self).data@ == old(self).data@,
            read_agrees(
                read_u8_at(old(self).data@, old(self).position as int),
                r,
                old(self).position,
                final(self).position,
            ),
    {
        if self.remaining() < 1 {
            return Err(DnsError::TruncatedInput);
        }
        let v = self.data[self.position];
        self.position = self.position + 1;
        Ok(v)
    }

    /// Reads a big-endian 16-bit integer.
    pub fn read_u16(&mut self) -> (r: Result<u16, DnsError>)
        ensures
            final(self).data@ == old(self).data@,
            read_agrees(
                read_u16_at(old(self).data@, old(self).position as int),
                r,
                old(self).position,
                final(self).position,
            ),
    {
        if self.remaining() < 2 {
            return Err(DnsError::TruncatedInput);
        }
        let v = u16_from_be(self.data[self.position], self.data[self.position + 1]);
        self.position = self.position + 2;
        Ok(v)
    }

    /// Reads a big-endian 32-bit integer.
    pub fn read_u32(&mut self) -> (r: Result<u32, DnsError>)
        ensures
            final(self).data@ == old(self).data@,
            read_agrees(
                read_u32_at(old(self).data@, old(self).position as int),
                r,
                old(self).position,
                final(self).position,
            ),
    {
        if self.remaining() < 4 {
            return Err(DnsError::TruncatedInput);
        }
        let p = self.position;
        let v = u32_from_be(self.data[p], self.data[p + 1], self.data[p + 2], self.data[p + 3]);
        self.position = p + 4;
        Ok(v)
    }

    /// Reads exactly `n` octets.
    pub fn read_exact(&mut self, n: usize) -> (r: Result<Vec<u8>, DnsError>)
        ensures
            final(self).data@ == old(self).data@,
            read_agrees_view(
                read_bytes_at(old(self).data@, old(self).position as int, n as int),
                r,
                old(self).position,
                final(self).position,
            ),
    {
        if self.position > self.data.len() || self.data.len() - self.position < n {
            return Err(DnsError::TruncatedInput);
        }
        let p = self.position;
        let v = slice_to_vec(slice_subrange(self.data, p, p + n));
        self.position = p + n;
        Ok(v)
    }
}

/// The octets of a 16-bit integer are read back as that integer: if they
/// stand at `pos`, followed by `rest`, reading gives the integer and leaves
/// `rest`.
pub proof fn lemma_read_u16_of_wire(buf: Seq<u8>, pos: int, x: u16, rest: Seq<u8>)
    requires
        0 <= pos <= buf.len(),
        buf.skip(pos) == u16_wire(x) + rest,
    ensures
        read_u16_at(buf, pos) == Ok::<(u16, int), DnsError>((x, pos + 2)),
        buf.skip(pos + 2) == rest,
{
    let tail = u16_wire(x) + rest;
    lemma_u16_wire_round_trip(x);
    assert(buf.skip(pos).len() == tail.len());
    assert(buf[pos] == buf.skip(pos)[0]);
    assert(buf[pos + 1] == buf.skip(pos)[1]);
    assert(tail[0] == u16_wire(x)[0]);
    assert(tail[1] == u16_wire(x)[1]);
    assert(buf.skip(pos + 2) =~= tail.skip(2));
    assert(tail.skip(2) =~= rest);
}

/// The octets of a 32-bit integer are read back as that integer: if they
/// stand at `pos`, followed by `rest`, reading gives the integer and leaves
/// `rest`.
pub proof fn lemma_read_u32_of_wire(buf: Seq<u8>, pos: int, x: u32, rest: Seq<u8>)
    requires
        0 <= pos <= buf.len(),
        buf.skip(pos) == u32_wire(x) + rest,
    ensures
        read_u32_at(buf, pos) == Ok::<(u32, int), DnsError>((x, pos + 4)),
        buf.skip(pos + 4) == rest,
{
    let tail = u32_wire(x) + rest;
    lemma_u32_wire_round_trip(x);
    assert(buf.skip(pos).len() == tail.len());
    assert(buf[pos] == buf.skip(pos)[0]);
    assert(buf[pos + 1] == buf.skip(pos)[1]);
    assert(buf[pos + 2] == buf.skip(pos)[2]);
    assert(buf[pos + 3] == buf.skip(pos)[3]);
    assert(tail[0] == u32_wire(x)[0]);
    assert(tail[1] == u32_wire(x)[1]);
    assert(tail[2] == u32_wire(x)[2]);
    assert(tail[3] == u32_wire(x)[3]);
    assert(buf.skip(pos + 4) =~= tail.skip(4));
    assert(tail.skip(4) =~= rest);
}

/// Octets are read back as they are: if `data` stand at `pos`, followed by
/// `rest`, reading as many gives `data` and leaves `rest`.
pub proof fn lemma_read_bytes_of_wire(buf: Seq<u8>, pos: int, data: Seq<u8>, rest: Seq<u8>)
    requires
        0 <= pos <= buf.len(),
        buf.skip(pos) == data + rest,
    ensures
        read_bytes_at(buf, pos, data.len() as int) == Ok::<(Seq<u8>, int), DnsError>(
            (data, pos + data.len()),
        ),
        buf.skip(pos + data.len()) == rest,
{
    let tail = data + rest;
    assert(buf.skip(pos).len() == tail.len());
    assert(buf.subrange(pos, pos + data.len()) =~= buf.skip(pos).subrange(0, data.len() as int));
    assert(tail.subrange(0, data.len() as int) =~= data);
    assert(buf.skip(pos + data.len()) =~= tail.skip(data.len() as int));
    assert(tail.skip(data.len() as int) =~= rest);
}

} // verus!
