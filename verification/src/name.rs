//! Domain names: dotted text on the outside, length-prefixed labels on the
//! wire, with compression pointers understood when decoding.

use vstd::prelude::*;
use vstd::slice::slice_subrange;
use vstd::utf8::{decode_utf8, encode_utf8, valid_utf8};
use crate::error::{encoding_agrees, DnsError};
use crate::reader::{read_agrees_view, Reader};
use crate::wire::append_bytes;

verus! {

/// The octet that separates the labels of a dotted name.
pub const DOT: u8 = 0x2e;

/// The longest label, in octets.
pub const MAX_LABEL_LEN: usize = 63;

/// The longest name on the wire, in octets, length octets and the closing
/// zero included.
pub const MAX_NAME_WIRE_LEN: usize = 255;

/// The smallest length octet that starts a compression pointer: its two top
/// bits are set.
pub const POINTER_TAG: u8 = 0xc0;

/// The labels of a dotted name: what stands between its dots. A name of `n`
/// dots has `n + 1` labels, some of which may be empty.
pub open spec fn split_labels(s: Seq<u8>) -> Seq<Seq<u8>>
    decreases s.len(),
{
    if s.len() == 0 {
        seq![Seq::<u8>::empty()]
    } else {
        let init = split_labels(s.drop_last());
        if s.last() == DOT {
            init.push(Seq::<u8>::empty())
        } else {
            init.drop_last().push(init.last().push(s.last()))
        }
    }
}

/// The dotted name made of `labels`: a dot between each two of them.
pub open spec fn join_labels(labels: Seq<Seq<u8>>) -> Seq<u8>
    decreases labels.len(),
{
    if labels.len() == 0 {
        Seq::<u8>::empty()
    } else if labels.len() == 1 {
        labels[0]
    } else {
        join_labels(labels.drop_last()) + seq![DOT] + labels.last()
    }
}

/// The wire form of `labels` without the closing zero: each label that is not
/// empty, preceded by its length.
pub open spec fn labels_wire(labels: Seq<Seq<u8>>) -> Seq<u8>
    decreases labels.len(),
{
    if labels.len() == 0 {
        Seq::<u8>::empty()
    } else if labels.last().len() == 0 {
        labels_wire(labels.drop_last())
    } else {
        labels_wire(labels.drop_last()) + seq![labels.last().len() as u8] + labels.last()
    }
}

/// Whether no label is longer than a length octet can say.
pub open spec fn labels_fit(labels: Seq<Seq<u8>>) -> bool {
    forall|i: int| 0 <= i < labels.len() ==> (#[trigger] labels[i]).len() <= MAX_LABEL_LEN
}

/// Whether the dotted name `s` can be encoded: it is not empty, neither
/// starts nor ends with a dot, has no label of more than 63 octets, and takes
/// at most 255 octets on the wire.
pub open spec fn name_encodable(s: Seq<u8>) -> bool {
    &&& s.len() > 0
    &&& s.first() != DOT
    &&& s.last() != DOT
    &&& labels_fit(split_labels(s))
    &&& labels_wire(split_labels(s)).len() + 1 <= MAX_NAME_WIRE_LEN
}

/// The wire form of the dotted name `s`: its labels, then a zero octet.
pub open spec fn name_wire(s: Seq<u8>) -> Result<Seq<u8>, DnsError> {
    if name_encodable(s) {
        Ok(labels_wire(split_labels(s)) + seq![0u8])
    } else {
        Err(DnsError::InvalidFormat)
    }
}

/// The wire form of a name given as text.
pub open spec fn encode_name(name: Seq<char>) -> Result<Seq<u8>, DnsError> {
    name_wire(encode_utf8(name))
}

/// Where the compression pointer at `pos` leads, and the position behind the
/// pointer. The fourteen bits behind the tag are an offset into the message,
/// which must lie strictly before the pointer itself.
pub open spec fn pointer_at(buf: Seq<u8>, pos: int) -> Result<(int, int), DnsError> {
    if 0 <= pos && pos + 2 <= buf.len() {
        let target = (buf[pos] - POINTER_TAG) * 256 + buf[pos + 1];
        if target < pos {
            Ok((target, pos + 2))
        } else {
            Err(DnsError::InvalidFormat)
        }
    } else {
        Err(DnsError::TruncatedInput)
    }
}

/// The labels of the name that starts at `pos`, and the position behind the
/// name, when `used` octets of the name have been read before and `hops`
/// more pointers may be followed.
///
/// A zero octet ends the name. An octet of 1 to 63 is the length of a label
/// that follows it. An octet with both top bits set starts a pointer: the
/// name goes on at the pointer's target and ends there, and the position
/// behind the name is the one behind the pointer. Any other octet is
/// malformed, and so is a name of more than 255 octets or one that takes more
/// pointers than allowed.
pub open spec fn parse_labels(buf: Seq<u8>, pos: int, used: int, hops: nat) -> Result<
    (Seq<Seq<u8>>, int),
    DnsError,
>
    decreases hops, buf.len() - pos,
{
    if pos < 0 || pos >= buf.len() {
        Err(DnsError::TruncatedInput)
    } else if buf[pos] == 0 {
        Ok((Seq::<Seq<u8>>::empty(), pos + 1))
    } else if buf[pos] >= POINTER_TAG {
        match pointer_at(buf, pos) {
            Ok((target, resume)) => if hops == 0 {
                Err(DnsError::InvalidFormat)
            } else {
                match parse_labels(buf, target, used, (hops - 1) as nat) {
                    Ok((labels, _)) => Ok((labels, resume)),
                    Err(e) => Err(e),
                }
            },
            Err(e) => Err(e),
        }
    } else if buf[pos] > MAX_LABEL_LEN {
        Err(DnsError::InvalidFormat)
    } else if pos + 1 + buf[pos] > buf.len() {
        Err(DnsError::TruncatedInput)
    } else if used + 1 + buf[pos] + 1 > MAX_NAME_WIRE_LEN {
        Err(DnsError::InvalidFormat)
    } else {
        match parse_labels(buf, pos + 1 + buf[pos], used + 1 + buf[pos], hops) {
            Ok((labels, next)) => Ok(
                (seq![buf.subrange(pos + 1, pos + 1 + buf[pos])] + labels, next),
            ),
            Err(e) => Err(e),
        }
    }
}

/// The dotted name that starts at `pos`, as octets, and the position behind
/// it. As many pointers may be followed as the message has octets.
pub open spec fn parse_name_at(buf: Seq<u8>, pos: int) -> Result<(Seq<u8>, int), DnsError> {
    match parse_labels(buf, pos, 0, buf.len()) {
        Ok((labels, next)) => Ok((join_labels(labels), next)),
        Err(e) => Err(e),
    }
}

/// The dotted name that starts at `pos`, as text, and the position behind
/// it. A name that is not UTF-8 is malformed.
pub open spec fn decode_name_at(buf: Seq<u8>, pos: int) -> Result<(Seq<char>, int), DnsError> {
    match parse_name_at(buf, pos) {
        Ok((bytes, next)) => if valid_utf8(bytes) {
            Ok((decode_utf8(bytes), next))
        } else {
            Err(DnsError::InvalidFormat)
        },
        Err(e) => Err(e),
    }
}

/// What remains to be parsed at `pos`, put behind the labels `acc` that were
/// read before, with the position behind the name fixed to `resume` once a
/// pointer has been followed.
spec fn parse_rest(
    buf: Seq<u8>,
    pos: int,
    used: int,
    hops: nat,
    acc: Seq<Seq<u8>>,
    resume: Option<usize>,
) -> Result<(Seq<Seq<u8>>, int), DnsError> {
    match parse_labels(buf, pos, used, hops) {
        Ok((labels, next)) => Ok(
            (
                acc + labels,
                match resume {
                    Some(p) => p as int,
                    None => next,
                },
            ),
        ),
        Err(e) => Err(e),
    }
}

/// `String::from_utf8` of the standard library: the octets make a string
/// exactly when they are valid UTF-8, and the string then consists of these
/// octets.
#[verifier::external_body]
fn string_from_utf8(bytes: Vec<u8>) -> (r: Option<String>)
    ensures
        r is Some <==> valid_utf8(bytes@),
        r matches Some(s) ==> encode_utf8(s@) == bytes@,
{
    match String::from_utf8(bytes) {
        Ok(s) => Some(s),
        Err(_) => None,
    }
}

/// Labels fit exactly when the last one does and those before it do.
pub proof fn lemma_labels_fit_last(labels: Seq<Seq<u8>>)
    requires
        labels.len() > 0,
    ensures
        labels_fit(labels) <==> labels_fit(labels.drop_last()) && labels.last().len()
            <= MAX_LABEL_LEN,
{
    if labels_fit(labels) {
        assert forall|k: int| 0 <= k < labels.drop_last().len() implies (
        #[trigger] labels.drop_last()[k]).len() <= MAX_LABEL_LEN by {
            assert(labels.drop_last()[k] == labels[k]);
        }
        assert(labels[labels.len() - 1].len() <= MAX_LABEL_LEN);
    }
    if labels_fit(labels.drop_last()) && labels.last().len() <= MAX_LABEL_LEN {
        assert forall|k: int| 0 <= k < labels.len() implies (#[trigger] labels[k]).len()
            <= MAX_LABEL_LEN by {
            if k < labels.len() - 1 {
                assert(labels[k] == labels.drop_last()[k]);
            }
        }
    }
}

/// A domain name as dotted text, such as `www.example.com`.
#[derive(Debug, PartialEq, Eq, Hash)]
pub struct DomainName {
    pub string: String,
}

impl View for DomainName {
    type V = Seq<char>;

    /// The characters of the dotted text.
    open spec fn view(&self) -> Seq<char> {
        self.string@
    }
}

impl Clone for DomainName {
    fn clone(&self) -> (r: Self)
        ensures
            r@ == self@,
    {
        DomainName { string: self.string.clone() }
    }
}

impl DomainName {
    /// The name that `domain_name` spells. Any text is taken; whether it is a
    /// name that can go on the wire shows when it is encoded.
    pub fn from(domain_name: &str) -> (r: Self)
        ensures
            r@ == domain_name@,
    {
        DomainName { string: domain_name.to_owned() }
    }

    /// Whether both names are the same text.
    pub fn same(&self, other: &DomainName) -> (r: bool)
        ensures
            r == (self@ == other@),
    {
        self.string == other.string
    }

    /// Encodes the name for the wire: each label preceded by its length, then
    /// a zero octet. Fails with `InvalidFormat` on a name that cannot be
    /// encoded.
    pub fn to_bytes(&self) -> (r: Result<Vec<u8>, DnsError>)
        ensures
            encoding_agrees(encode_name(self@), r),
    {
        let s = self.string.as_str().as_bytes();
        let n = s.len();
        if n == 0 || s[0] == DOT || s[n - 1] == DOT {
            return Err(DnsError::InvalidFormat);
        }
        let mut bytes: Vec<u8> = Vec::new();
        // Whether the labels that are complete so far fit and are short
        // enough: once they are not, nothing more is written.
        let mut good = true;
        let mut label_start: usize = 0;
        let mut i: usize = 0;
        while i < n
            invariant
                n == s@.len(),
                label_start <= i <= n,
                split_labels(s@.subrange(0, i as int)).len() > 0,
                split_labels(s@.subrange(0, i as int)).last() == s@.subrange(
                    label_start as int,
                    i as int,
                ),
                good ==> labels_fit(split_labels(s@.subrange(0, i as int)).drop_last()),
                good ==> bytes@ == labels_wire(split_labels(s@.subrange(0, i as int)).drop_last()),
                good ==> bytes@.len() < MAX_NAME_WIRE_LEN,
                !good ==> !labels_fit(split_labels(s@.subrange(0, i as int)).drop_last())
                    || labels_wire(split_labels(s@.subrange(0, i as int)).drop_last()).len()
                    >= MAX_NAME_WIRE_LEN,
            decreases n - i,
        {
            let ghost before = split_labels(s@.subrange(0, i as int));
            let ghost after = split_labels(s@.subrange(0, i + 1));
            proof {
                assert(s@.subrange(0, i + 1).drop_last() =~= s@.subrange(0, i as int));
                assert(s@.subrange(0, i + 1).last() == s@[i as int]);
            }
            if s[i] == DOT {
                let len = i - label_start;
                proof {
                    assert(after == before.push(Seq::<u8>::empty()));
                    assert(after.drop_last() =~= before);
                    assert(after.last() =~= s@.subrange(i + 1, i + 1));
                    lemma_labels_fit_last(before);
                }
                if good && len > 0 {
                    if len > MAX_LABEL_LEN || bytes.len() + 1 + len >= MAX_NAME_WIRE_LEN {
                        good = false;
                    } else {
                        bytes.push(len as u8);
                        append_bytes(&mut bytes, slice_subrange(s, label_start, i));
                    }
                }
                label_start = i + 1;
            } else {
                proof {
                    assert(after == before.drop_last().push(before.last().push(s@[i as int])));
                    assert(after.drop_last() =~= before.drop_last());
                    assert(after.last() =~= s@.subrange(label_start as int, i + 1));
                }
            }
            i = i + 1;
        }
        let ghost labels = split_labels(s@);
        assert(s@.subrange(0, n as int) =~= s@);
        let len = n - label_start;
        proof {
            lemma_labels_fit_last(labels);
        }
        if !good || len > MAX_LABEL_LEN || bytes.len() + 1 + len >= MAX_NAME_WIRE_LEN {
            return Err(DnsError::InvalidFormat);
        }
        bytes.push(len as u8);
        append_bytes(&mut bytes, slice_subrange(s, label_start, n));
        assert(bytes@ == labels_wire(labels));
        bytes.push(0);
        assert(bytes@ == labels_wire(labels) + seq![0u8]);
        Ok(bytes)
    }
    /// Follows the compression pointer whose first octet, `length`, was just
    /// read: reads its second octet and moves the reader to the pointer's
    /// target. Returns the position behind the pointer.
    fn follow_pointer(length: u8, reader: &mut Reader) -> (r: Result<usize, DnsError>)
        requires
            length >= POINTER_TAG,
            1 <= old(reader).position <= old(reader).data@.len(),
            old(reader).data@[old(reader).position - 1] == length,
        ensures
            final(reader).data@ == old(reader).data@,
            match r {
                Ok(resume) => pointer_at(old(reader).data@, old(reader).position - 1) == Ok::<
                    (int, int),
                    DnsError,
                >((final(reader).position as int, resume as int)),
                Err(e) => pointer_at(old(reader).data@, old(reader).position - 1) == Err::<
                    (int, int),
                    DnsError,
                >(e),
            },
    {
        let pointer_position = reader.position() - 1;
        let low = reader.read_u8()?;
        let target: usize = ((length - POINTER_TAG) as usize) * 256 + (low as usize);
        if target >= pointer_position {
            return Err(DnsError::InvalidFormat);
        }
        let resume = reader.position();
        reader.set_position(target);
        Ok(resume)
    }

    /// Reads the name at the reader's position as dotted octets, following
    /// compression pointers, and leaves the reader behind the name: behind
    /// its closing zero, or behind the first pointer if there was one. On
    /// failure the reader stays where it was.
    pub fn bytes_from_reader(reader: &mut Reader) -> (r: Result<Vec<u8>, DnsError>)
        ensures
            final(reader).data@ == old(reader).data@,
            read_agrees_view(
                parse_name_at(old(reader).data@, old(reader).position as int),
                r,
                old(reader).position,
                final(reader).position,
            ),
    {
        let start = reader.position();
        let limit = reader.get_ref().len();
        let ghost buf = reader.data@;
        let ghost whole = parse_labels(buf, start as int, 0, limit as nat);
        let mut name: Vec<u8> = Vec::new();
        let mut used: usize = 0;
        let mut hops: usize = 0;
        let mut resume: Option<usize> = None;
        let ghost mut acc: Seq<Seq<u8>> = Seq::empty();
        assert(acc + Seq::<Seq<u8>>::empty() =~= acc);
        assert(forall|labels: Seq<Seq<u8>>| Seq::<Seq<u8>>::empty() + labels =~= labels);
        loop
            invariant_except_break
                acc.len() > 0 <==> name@.len() > 0,
                whole == parse_rest(
                    buf,
                    reader.position as int,
                    used as int,
                    (limit - hops) as nat,
                    acc,
                    resume,
                ),
            invariant
                reader.data@ == buf,
                buf.len() == limit,
                old(reader).data@ == buf,
                old(reader).position == start,
                whole == parse_labels(buf, start as int, 0, limit as nat),
                hops <= limit,
                used + 1 <= MAX_NAME_WIRE_LEN,
                name@ == join_labels(acc),
            ensures
                whole == Ok::<(Seq<Seq<u8>>, int), DnsError>(
                    (
                        acc,
                        match resume {
                            Some(p) => p as int,
                            None => reader.position as int,
                        },
                    ),
                ),
            decreases limit - hops, limit - reader.position,
        {
            let ghost pos = reader.position as int;
            let length = match reader.read_u8() {
                Ok(length) => length,
                Err(e) => {
                    reader.set_position(start);
                    return Err(e);
                },
            };
            if length == 0 {
                break ;
            } else if length >= POINTER_TAG {
                match DomainName::follow_pointer(length, reader) {
                    Ok(after) => {
                        if hops >= limit {
                            reader.set_position(start);
                            return Err(DnsError::InvalidFormat);
                        }
                        hops = hops + 1;
                        if resume.is_none() {
                            resume = Some(after);
                        }
                    },
                    Err(e) => {
                        reader.set_position(start);
                        return Err(e);
                    },
                }
            } else if length as usize > MAX_LABEL_LEN {
                reader.set_position(start);
                return Err(DnsError::InvalidFormat);
            } else {
                let label = match reader.read_exact(length as usize) {
                    Ok(label) => label,
                    Err(e) => {
                        reader.set_position(start);
                        return Err(e);
                    },
                };
                if used + 1 + length as usize + 1 > MAX_NAME_WIRE_LEN {
                    reader.set_position(start);
                    return Err(DnsError::InvalidFormat);
                }
                if name.len() > 0 {
                    name.push(DOT);
                }
                append_bytes(&mut name, label.as_slice());
                used = used + 1 + length as usize;
                proof {
                    let rest = parse_labels(
                        buf,
                        pos + 1 + length,
                        used as int,
                        (limit - hops) as nat,
                    );
                    if let Ok((labels, next)) = rest {
                        assert(acc + (seq![label@] + labels) =~= acc.push(label@) + labels);
                    }
                    assert(acc.push(label@).drop_last() =~= acc);
                    assert(name@ =~= join_labels(acc.push(label@)));
                    acc = acc.push(label@);
                }
            }
        }
        let end = match resume {
            Some(p) => p,
            None => reader.position(),
        };
        reader.set_position(end);
        Ok(name)
    }

    /// Reads the name at the reader's position, following compression
    /// pointers, and leaves the reader behind the name. On failure the reader
    /// stays where it was.
    pub fn from_reader(reader: &mut Reader) -> (r: Result<DomainName, DnsError>)
        ensures
            final(reader).data@ == old(reader).data@,
            read_agrees_view(
                decode_name_at(old(reader).data@, old(reader).position as int),
                r,
                old(reader).position,
                final(reader).position,
            ),
    {
        let start = reader.position();
        let bytes = DomainName::bytes_from_reader(reader)?;
        match string_from_utf8(bytes) {
            Some(string) => {
                proof {
                    vstd::utf8::encode_utf8_decode_utf8(string@);
                }
                Ok(DomainName { string })
            },
            None => {
                reader.set_position(start);
                Err(DnsError::InvalidFormat)
            },
        }
    }
}

/// Whether every label has at least one octet.
pub open spec fn labels_nonempty(labels: Seq<Seq<u8>>) -> bool {
    forall|i: int| 0 <= i < labels.len() ==> (#[trigger] labels[i]).len() > 0
}

/// Whether the dotted octets `s` are a well-formed domain name: one or more
/// labels of 1 to 63 octets each, and at most 255 octets on the wire.
pub open spec fn name_well_formed(s: Seq<u8>) -> bool {
    name_encodable(s) && labels_nonempty(split_labels(s))
}

impl DomainName {
    /// Whether this is a well-formed domain name.
    pub open spec fn well_formed(&self) -> bool {
        name_well_formed(encode_utf8(self@))
    }
}

/// Splitting a dotted name and joining the labels gives the name back.
pub proof fn lemma_join_split(s: Seq<u8>)
    ensures
        split_labels(s).len() > 0,
        join_labels(split_labels(s)) == s,
    decreases s.len(),
{
    if s.len() > 0 {
        let init = split_labels(s.drop_last());
        lemma_join_split(s.drop_last());
        if s.last() == DOT {
            assert(init.push(Seq::<u8>::empty()).drop_last() =~= init);
            assert(s.drop_last() + seq![DOT] + Seq::<u8>::empty() =~= s);
        } else {
            let grown = init.drop_last().push(init.last().push(s.last()));
            if init.len() == 1 {
                assert(init.last().push(s.last()) =~= s);
            } else {
                assert(grown.drop_last() =~= init.drop_last());
                assert(join_labels(init.drop_last()) + seq![DOT] + init.last().push(s.last())
                    =~= (join_labels(init.drop_last()) + seq![DOT] + init.last()).push(
                    s.last(),
                ));
                assert(s.drop_last().push(s.last()) =~= s);
            }
        }
    }
}

/// The wire form of a label followed by more labels starts with that label.
pub proof fn lemma_labels_wire_first(label: Seq<u8>, rest: Seq<Seq<u8>>)
    requires
        label.len() > 0,
    ensures
        labels_wire(seq![label] + rest) == seq![label.len() as u8] + label + labels_wire(rest),
    decreases rest.len(),
{
    let all = seq![label] + rest;
    if rest.len() == 0 {
        assert(all.drop_last() =~= Seq::<Seq<u8>>::empty());
        assert(labels_wire(all.drop_last()) =~= Seq::<u8>::empty());
        assert(all.last() == label);
        assert(labels_wire(all) =~= seq![label.len() as u8] + label + labels_wire(rest));
    } else {
        lemma_labels_wire_first(label, rest.drop_last());
        assert(all.drop_last() =~= seq![label] + rest.drop_last());
        assert(all.last() == rest.last());
        if rest.last().len() > 0 {
            assert(labels_wire(all) =~= seq![label.len() as u8] + label + labels_wire(rest));
        }
    }
}

/// Labels that were put on the wire without compression are read back as
/// they were, wherever in a message they stand.
pub proof fn lemma_parse_labels_of_wire(
    labels: Seq<Seq<u8>>,
    before: Seq<u8>,
    after: Seq<u8>,
    used: int,
    hops: nat,
)
    requires
        labels_nonempty(labels),
        labels_fit(labels),
        0 <= used,
        used + labels_wire(labels).len() + 1 <= MAX_NAME_WIRE_LEN,
    ensures
        parse_labels(
            before + (labels_wire(labels) + seq![0u8]) + after,
            before.len() as int,
            used,
            hops,
        ) == Ok::<(Seq<Seq<u8>>, int), DnsError>(
            (labels, before.len() as int + labels_wire(labels).len() + 1),
        ),
    decreases labels.len(),
{
    let buf = before + (labels_wire(labels) + seq![0u8]) + after;
    let pos = before.len() as int;
    if labels.len() == 0 {
        assert(buf[pos] == 0);
        assert(labels =~= Seq::<Seq<u8>>::empty());
    } else {
        let label = labels[0];
        let rest = labels.drop_first();
        assert(labels =~= seq![label] + rest);
        lemma_labels_wire_first(label, rest);
        let wire = labels_wire(labels);
        assert(wire =~= seq![label.len() as u8] + label + labels_wire(rest));
        assert(buf[pos] == wire[0]);
        assert(buf[pos] == label.len() as u8);
        assert(buf.subrange(pos + 1, pos + 1 + label.len()) =~= label);
        let grown = before + (seq![label.len() as u8] + label);
        assert(labels_nonempty(rest)) by {
            assert forall|i: int| 0 <= i < rest.len() implies (#[trigger] rest[i]).len() > 0 by {
                assert(rest[i] == labels[i + 1]);
            }
        }
        assert(labels_fit(rest)) by {
            assert forall|i: int| 0 <= i < rest.len() implies (#[trigger] rest[i]).len()
                <= MAX_LABEL_LEN by {
                assert(rest[i] == labels[i + 1]);
            }
        }
        lemma_parse_labels_of_wire(rest, grown, after, used + 1 + label.len(), hops);
        assert(grown + (labels_wire(rest) + seq![0u8]) + after =~= buf);
        assert(grown.len() == pos + 1 + label.len());
        assert(label.len() <= MAX_LABEL_LEN);
        assert(buf[pos] as int == label.len());
        assert(parse_labels(buf, pos + 1 + buf[pos], used + 1 + buf[pos], hops) == Ok::<
            (Seq<Seq<u8>>, int),
            DnsError,
        >((rest, grown.len() as int + labels_wire(rest).len() + 1)));
        assert(pos + 1 + buf[pos] <= buf.len());
        assert(used + 1 + buf[pos] + 1 <= MAX_NAME_WIRE_LEN);
    }
}

/// A well-formed name survives encoding and decoding: if its wire form stands
/// at `pos` of a message, followed by `rest`, decoding there gives the name
/// and leaves `rest`.
pub proof fn lemma_name_round_trip(buf: Seq<u8>, pos: int, name: Seq<char>, rest: Seq<u8>)
    requires
        name_well_formed(encode_utf8(name)),
        0 <= pos <= buf.len(),
        buf.skip(pos) == encode_name(name)->Ok_0 + rest,
    ensures
        encode_name(name) is Ok,
        decode_name_at(buf, pos) == Ok::<(Seq<char>, int), DnsError>(
            (name, pos + encode_name(name)->Ok_0.len()),
        ),
        buf.skip(pos + encode_name(name)->Ok_0.len()) == rest,
{
    let s = encode_utf8(name);
    let labels = split_labels(s);
    let wire = labels_wire(labels) + seq![0u8];
    let before = buf.take(pos);
    assert(buf =~= before + buf.skip(pos));
    assert(before + (wire + rest) =~= before + wire + rest);
    lemma_parse_labels_of_wire(labels, before, rest, 0, buf.len());
    lemma_join_split(s);
    vstd::utf8::encode_utf8_valid_utf8(name);
    vstd::utf8::encode_utf8_decode_utf8(name);
    assert(buf.skip(pos + wire.len()) =~= (wire + rest).skip(wire.len() as int));
    assert((wire + rest).skip(wire.len() as int) =~= rest);
}

/// A compression pointer must lead backwards: wherever the decoding of a
/// name comes upon a pointer whose target is not strictly before the pointer
/// itself, it fails with `InvalidFormat`, however much of the name was read
/// before and however many pointers may still be followed. So does the
/// decoding of a name that starts with such a pointer.
pub proof fn lemma_pointer_must_lead_backwards(buf: Seq<u8>, pos: int, used: int, hops: nat)
    requires
        0 <= pos,
        pos + 2 <= buf.len(),
        buf[pos] >= POINTER_TAG,
        (buf[pos] - POINTER_TAG) * 256 + buf[pos + 1] >= pos,
    ensures
        parse_labels(buf, pos, used, hops) == Err::<(Seq<Seq<u8>>, int), DnsError>(
            DnsError::InvalidFormat,
        ),
        decode_name_at(buf, pos) == Err::<(Seq<char>, int), DnsError>(DnsError::InvalidFormat),
{
}

} // verus!
