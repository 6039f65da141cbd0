//! Resource records: the answer, authority and additional sections of a DNS
//! message are lists of them.

use vstd::prelude::*;
use vstd::slice::slice_to_vec;
use vstd::utf8::encode_utf8;
use crate::error::{encoding_agrees, DnsError};
use crate::fields::{
    lemma_read_class_of_wire, lemma_read_type_of_wire, read_class_at, read_type_at, type_of_code,
    ClassField, TypeField,
};
use crate::ipv4::{ipv4_addr_from_bytes, ipv4_of, Ipv4Address};
use crate::ipv6::{ipv6_addr_from_bytes, ipv6_of, Ipv6Address};
use crate::name::{
    decode_name_at, encode_name, lemma_name_round_trip, name_well_formed, DomainName,
};
use crate::reader::{
    lemma_read_bytes_of_wire, lemma_read_u16_of_wire, lemma_read_u32_of_wire, read_bytes_at,
    read_agrees_view, read_u16_at, read_u32_at, Reader,
};
use crate::wire::{append_bytes, u16_to_be, u16_wire, u32_to_be, u32_wire};

verus! {

/// The longest RDATA that a 16-bit RDLENGTH can announce.
pub const MAX_RDATA_LEN: usize = 65535;

/// A resource record.
#[derive(Debug)]
pub struct DNSRecord {
    /// The name that the record is about.
    pub name: DomainName,
    /// What kind of data the record carries.
    pub type_field: TypeField,
    pub class: ClassField,
    /// For how many seconds the record may be cached.
    pub ttl: u32,
    /// The RDATA as it stood on the wire.
    pub data: Vec<u8>,
    /// The address of an A record; `None` for every other type.
    pub ipv4: Option<Vec<Ipv4Address>>,
    /// The address of an AAAA record; `None` for every other type.
    pub ipv6: Option<Vec<Ipv6Address>>,
    /// The name server that an NS record names; `None` for every other type.
    pub ns_name: Option<DomainName>,
}

/// What a resource record says.
pub struct RecordView {
    pub name: Seq<char>,
    pub type_field: TypeField,
    pub class: ClassField,
    pub ttl: u32,
    pub data: Seq<u8>,
    pub ipv4: Option<Seq<Seq<u8>>>,
    pub ipv6: Option<Seq<Seq<u16>>>,
    pub ns_name: Option<Seq<char>>,
}

/// The addresses of a list, each as its four octets.
pub open spec fn ipv4_views(list: Seq<Ipv4Address>) -> Seq<Seq<u8>> {
    Seq::new(list.len(), |i: int| list[i]@)
}

/// The addresses of a list, each as its eight groups.
pub open spec fn ipv6_views(list: Seq<Ipv6Address>) -> Seq<Seq<u16>> {
    Seq::new(list.len(), |i: int| list[i]@)
}

impl View for DNSRecord {
    type V = RecordView;

    open spec fn view(&self) -> RecordView {
        RecordView {
            name: self.name@,
            type_field: self.type_field,
            class: self.class,
            ttl: self.ttl,
            data: self.data@,
            ipv4: match self.ipv4 {
                Some(list) => Some(ipv4_views(list@)),
                None => None,
            },
            ipv6: match self.ipv6 {
                Some(list) => Some(ipv6_views(list@)),
                None => None,
            },
            ns_name: match self.ns_name {
                Some(name) => Some(name@),
                None => None,
            },
        }
    }
}

/// What a record holds, read according to its type.
#[derive(Debug)]
pub enum Answer {
    /// The address of an A record.
    Ipv4(Ipv4Address),
    /// The address of an AAAA record.
    Ipv6(Ipv6Address),
    /// The name server of an NS record.
    Name(DomainName),
    /// The RDATA of a record of any other type, as they stood on the wire.
    Data(Vec<u8>),
}

/// What an answer says.
pub enum AnswerView {
    Ipv4(Seq<u8>),
    Ipv6(Seq<u16>),
    Name(Seq<char>),
    Data(Seq<u8>),
}

impl View for Answer {
    type V = AnswerView;

    open spec fn view(&self) -> AnswerView {
        match self {
            Answer::Ipv4(address) => AnswerView::Ipv4(address@),
            Answer::Ipv6(address) => AnswerView::Ipv6(address@),
            Answer::Name(name) => AnswerView::Name(name@),
            Answer::Data(data) => AnswerView::Data(data@),
        }
    }
}

/// What a record holds, read according to its type: the first address of an
/// A or AAAA record, the name server of an NS record, and the RDATA of any
/// other record, or of one that lacks the field of its type.
pub open spec fn record_value(r: RecordView) -> AnswerView {
    match r.type_field {
        TypeField::A => match r.ipv4 {
            Some(list) => if list.len() > 0 {
                AnswerView::Ipv4(list[0])
            } else {
                AnswerView::Data(r.data)
            },
            None => AnswerView::Data(r.data),
        },
        TypeField::AAAA => match r.ipv6 {
            Some(list) => if list.len() > 0 {
                AnswerView::Ipv6(list[0])
            } else {
                AnswerView::Data(r.data)
            },
            None => AnswerView::Data(r.data),
        },
        TypeField::NS => match r.ns_name {
            Some(name) => AnswerView::Name(name),
            None => AnswerView::Data(r.data),
        },
        _ => AnswerView::Data(r.data),
    }
}

/// The first IPv4 address that a record carries, if it carries one.
pub open spec fn record_ipv4(r: RecordView) -> Option<Seq<u8>> {
    match r.ipv4 {
        Some(list) => if list.len() > 0 {
            Some(list[0])
        } else {
            None
        },
        None => None,
    }
}

/// The wire form of a record: name, type, class, TTL, the length of the
/// RDATA as a 16-bit integer, and the RDATA itself.
pub open spec fn record_wire(r: RecordView) -> Result<Seq<u8>, DnsError> {
    match encode_name(r.name) {
        Ok(name) => if r.data.len() <= MAX_RDATA_LEN {
            Ok(
                name + u16_wire(r.type_field.spec_code()) + u16_wire(r.class.spec_code())
                    + u32_wire(r.ttl) + u16_wire(r.data.len() as u16) + r.data,
            )
        } else {
            Err(DnsError::InvalidFormat)
        },
        Err(e) => Err(e),
    }
}

/// The record of the given fixed fields whose RDATA are the octets `data`,
/// which stand at `data_pos` in the message `buf`.
///
/// The RDATA of an A record must be four octets, an address. The RDATA of an
/// AAAA record must be sixteen octets, an address. The RDATA of an NS record
/// starts with a name, whose compression pointers may lead anywhere into the
/// message. The RDATA of any other type is kept as it is.
pub open spec fn interpret_rdata(
    buf: Seq<u8>,
    name: Seq<char>,
    type_field: TypeField,
    class: ClassField,
    ttl: u32,
    data: Seq<u8>,
    data_pos: int,
) -> Result<RecordView, DnsError> {
    let plain = RecordView {
        name,
        type_field,
        class,
        ttl,
        data,
        ipv4: None,
        ipv6: None,
        ns_name: None,
    };
    match type_field {
        TypeField::NS => match decode_name_at(buf, data_pos) {
            Ok((ns_name, _)) => Ok(RecordView { ns_name: Some(ns_name), ..plain }),
            Err(e) => Err(e),
        },
        TypeField::A => if data.len() == 4 {
            Ok(RecordView { ipv4: Some(seq![ipv4_of(data)]), ..plain })
        } else {
            Err(DnsError::InvalidFormat)
        },
        TypeField::AAAA => if data.len() == 16 {
            Ok(RecordView { ipv6: Some(seq![ipv6_of(data)]), ..plain })
        } else {
            Err(DnsError::InvalidFormat)
        },
        _ => Ok(plain),
    }
}

/// The record of the given name whose fixed fields start at `pos`, and the
/// position behind it: type, class, TTL and the length of the RDATA, then
/// the RDATA.
pub open spec fn read_record_body_at(buf: Seq<u8>, name: Seq<char>, pos: int) -> Result<
    (RecordView, int),
    DnsError,
> {
    match read_type_at(buf, pos) {
        Ok((type_field, after_type)) => match read_class_at(buf, after_type) {
            Ok((class, after_class)) => match read_u32_at(buf, after_class) {
                Ok((ttl, after_ttl)) => match read_u16_at(buf, after_ttl) {
                    Ok((data_len, data_pos)) => match read_bytes_at(
                        buf,
                        data_pos,
                        data_len as int,
                    ) {
                        Ok((data, next)) => match interpret_rdata(
                            buf,
                            name,
                            type_field,
                            class,
                            ttl,
                            data,
                            data_pos,
                        ) {
                            Ok(record) => Ok((record, next)),
                            Err(e) => Err(e),
                        },
                        Err(e) => Err(e),
                    },
                    Err(e) => Err(e),
                },
                Err(e) => Err(e),
            },
            Err(e) => Err(e),
        },
        Err(e) => Err(e),
    }
}

/// The record that starts at `pos`, and the position behind it, which is the
/// one behind its RDATA whatever the RDATA hold.
pub open spec fn read_record_at(buf: Seq<u8>, pos: int) -> Result<(RecordView, int), DnsError> {
    match decode_name_at(buf, pos) {
        Ok((name, after_name)) => read_record_body_at(buf, name, after_name),
        Err(e) => Err(e),
    }
}

/// Whether a record is consistent: its name is well formed, its RDATA fit a
/// 16-bit length, and the interpreted fields say what the RDATA say. The
/// RDATA of an NS record then start with the uncompressed name of the name
/// server.
pub open spec fn record_well_formed(r: RecordView) -> bool {
    &&& name_well_formed(encode_utf8(r.name))
    &&& r.data.len() <= MAX_RDATA_LEN
    &&& r.ipv4 == if r.type_field == TypeField::A {
        Some(seq![ipv4_of(r.data)])
    } else {
        None
    }
    &&& r.type_field == TypeField::A ==> r.data.len() == 4
    &&& r.ipv6 == if r.type_field == TypeField::AAAA {
        Some(seq![ipv6_of(r.data)])
    } else {
        None
    }
    &&& r.type_field == TypeField::AAAA ==> r.data.len() == 16
    &&& r.ns_name is Some <==> r.type_field == TypeField::NS
    &&& r.ns_name matches Some(ns_name) ==> {
        &&& name_well_formed(encode_utf8(ns_name))
        &&& encode_name(ns_name)->Ok_0.is_prefix_of(r.data)
    }
}

impl DNSRecord {
    /// Whether the record can go on the wire and come back unchanged.
    pub open spec fn well_formed(&self) -> bool {
        record_well_formed(self@)
    }

    /// What the record holds, read according to its type.
    pub fn value(&self) -> (a: Answer)
        ensures
            a@ == record_value(self@),
    {
        match self.type_field {
            TypeField::A => match &self.ipv4 {
                Some(list) => if list.len() > 0 {
                    return Answer::Ipv4(list[0]);
                },
                None => {},
            },
            TypeField::AAAA => match &self.ipv6 {
                Some(list) => if list.len() > 0 {
                    return Answer::Ipv6(list[0]);
                },
                None => {},
            },
            TypeField::NS => match &self.ns_name {
                Some(name) => {
                    return Answer::Name(name.clone());
                },
                None => {},
            },
            _ => {},
        }
        Answer::Data(slice_to_vec(self.data.as_slice()))
    }

    /// The first IPv4 address that the record carries, if it carries one.
    pub fn first_ipv4(&self) -> (r: Option<Ipv4Address>)
        ensures
            match r {
                Some(address) => record_ipv4(self@) == Some(address@),
                None => record_ipv4(self@) is None,
            },
    {
        match &self.ipv4 {
            Some(list) => if list.len() > 0 {
                Some(list[0])
            } else {
                None
            },
            None => None,
        }
    }

    /// Encodes the record, without compression. Fails with `InvalidFormat` if
    /// the name cannot be encoded or the RDATA are longer than 65535 octets.
    pub fn to_bytes(&self) -> (r: Result<Vec<u8>, DnsError>)
        ensures
            encoding_agrees(record_wire(self@), r),
    {
        let mut bytes = self.name.to_bytes()?;
        if self.data.len() > MAX_RDATA_LEN {
            return Err(DnsError::InvalidFormat);
        }
        append_bytes(&mut bytes, &self.type_field.to_be_bytes());
        append_bytes(&mut bytes, &self.class.to_be_bytes());
        append_bytes(&mut bytes, &u32_to_be(self.ttl));
        append_bytes(&mut bytes, &u16_to_be(self.data.len() as u16));
        append_bytes(&mut bytes, self.data.as_slice());
        Ok(bytes)
    }

    /// Reads a record at the reader's position and leaves the reader behind
    /// its RDATA. On failure the reader stays where it was.
    pub fn from_reader(reader: &mut Reader) -> (r: Result<DNSRecord, DnsError>)
        ensures
            final(reader).data@ == old(reader).data@,
            read_agrees_view(
                read_record_at(old(reader).data@, old(reader).position as int),
                r,
                old(reader).position,
                final(reader).position,
            ),
    {
        let start = reader.position();
        let name = DomainName::from_reader(reader)?;
        let type_field = match TypeField::from_reader(reader) {
            Ok(t) => t,
            Err(e) => {
                reader.set_position(start);
                return Err(e);
            },
        };
        let class = match ClassField::from_reader(reader) {
            Ok(c) => c,
            Err(e) => {
                reader.set_position(start);
                return Err(e);
            },
        };
        let ttl = match reader.read_u32() {
            Ok(ttl) => ttl,
            Err(e) => {
                reader.set_position(start);
                return Err(e);
            },
        };
        let data_len = match reader.read_u16() {
            Ok(len) => len,
            Err(e) => {
                reader.set_position(start);
                return Err(e);
            },
        };
        let data_position = reader.position();
        let data = match reader.read_exact(data_len as usize) {
            Ok(data) => data,
            Err(e) => {
                reader.set_position(start);
                return Err(e);
            },
        };
        let end = reader.position();

        let ns_name = match type_field {
            TypeField::NS => {
                reader.set_position(data_position);
                match DomainName::from_reader(reader) {
                    Ok(ns_name) => Some(ns_name),
                    Err(e) => {
                        reader.set_position(start);
                        return Err(e);
                    },
                }
            },
            _ => None,
        };
        reader.set_position(end);

        let ipv4: Option<Vec<Ipv4Address>> = match type_field {
            TypeField::A => {
                if data.len() != 4 {
                    reader.set_position(start);
                    return Err(DnsError::InvalidFormat);
                }
                let mut list = Vec::new();
                list.push(ipv4_addr_from_bytes(data.as_slice()));
                assert(ipv4_views(list@) =~= seq![ipv4_of(data@)]);
                Some(list)
            },
            _ => None,
        };
        let ipv6: Option<Vec<Ipv6Address>> = match type_field {
            TypeField::AAAA => {
                if data.len() != 16 {
                    reader.set_position(start);
                    return Err(DnsError::InvalidFormat);
                }
                let mut list = Vec::new();
                list.push(ipv6_addr_from_bytes(data.as_slice()));
                assert(ipv6_views(list@) =~= seq![ipv6_of(data@)]);
                Some(list)
            },
            _ => None,
        };

        Ok(DNSRecord { name, type_field, class, ttl, data, ipv4, ipv6, ns_name })
    }
}

/// The RDATA of a well-formed record are interpreted as the record says,
/// wherever in a message they stand.
proof fn lemma_interpret_of_wire(buf: Seq<u8>, pos: int, r: RecordView, rest: Seq<u8>)
    requires
        record_well_formed(r),
        0 <= pos <= buf.len(),
        buf.skip(pos) == r.data + rest,
    ensures
        interpret_rdata(buf, r.name, r.type_field, r.class, r.ttl, r.data, pos) == Ok::<
            RecordView,
            DnsError,
        >(r),
{
    if let Some(ns_name) = r.ns_name {
        let ns_wire = encode_name(ns_name)->Ok_0;
        let extra = r.data.subrange(ns_wire.len() as int, r.data.len() as int);
        assert(r.data + rest =~= ns_wire + (extra + rest));
        lemma_name_round_trip(buf, pos, ns_name, extra + rest);
    }
}

/// A well-formed record survives encoding and decoding: if its wire form
/// stands at `pos` of a message, followed by `rest`, reading there gives the
/// record and leaves `rest`.
pub proof fn lemma_record_round_trip(buf: Seq<u8>, pos: int, r: RecordView, rest: Seq<u8>)
    requires
        record_well_formed(r),
        0 <= pos <= buf.len(),
        buf.skip(pos) == record_wire(r)->Ok_0 + rest,
    ensures
        record_wire(r) is Ok,
        read_record_at(buf, pos) == Ok::<(RecordView, int), DnsError>(
            (r, pos + record_wire(r)->Ok_0.len()),
        ),
        buf.skip(pos + record_wire(r)->Ok_0.len()) == rest,
{
    let name = encode_name(r.name)->Ok_0;
    let t = u16_wire(r.type_field.spec_code());
    let c = u16_wire(r.class.spec_code());
    let ttl = u32_wire(r.ttl);
    let len = u16_wire(r.data.len() as u16);
    assert(name + t + c + ttl + len + r.data + rest =~= name + (t + (c + (ttl + (len + (r.data
        + rest))))));
    let p = pos + name.len();
    lemma_name_round_trip(buf, pos, r.name, t + (c + (ttl + (len + (r.data + rest)))));
    lemma_read_type_of_wire(buf, p, r.type_field, c + (ttl + (len + (r.data + rest))));
    lemma_read_class_of_wire(buf, p + 2, r.class, ttl + (len + (r.data + rest)));
    lemma_read_u32_of_wire(buf, p + 4, r.ttl, len + (r.data + rest));
    lemma_read_u16_of_wire(buf, p + 8, r.data.len() as u16, r.data + rest);
    lemma_read_bytes_of_wire(buf, p + 10, r.data, rest);
    lemma_interpret_of_wire(buf, p + 10, r, rest);
}

/// A record of a type that is not known is not read: where the name of a
/// record can be decoded and the code behind it stands for no type, reading
/// the record fails with `UnsupportedField`.
pub proof fn lemma_unsupported_type_fails(buf: Seq<u8>, pos: int)
    requires
        decode_name_at(buf, pos) matches Ok((_, after_name)) && read_u16_at(buf, after_name)
            matches Ok((code, _)) && type_of_code(code) is None,
    ensures
        read_record_at(buf, pos) == Err::<(RecordView, int), DnsError>(
            DnsError::UnsupportedField,
        ),
{
}

} // verus!
