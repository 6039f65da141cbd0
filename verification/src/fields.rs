//! The TYPE and CLASS fields of questions and resource records: closed sets of
//! known codes.

use vstd::prelude::*;
use crate::error::DnsError;
use crate::reader::{lemma_read_u16_of_wire, read_agrees, read_u16_at, Reader};
use crate::wire::{be_u16, u16_from_be, u16_to_be, u16_wire};

verus! {

/// The type of a resource record.
#[derive(Clone, Copy, Debug, PartialEq, Eq, Structural, Hash)]
pub enum TypeField {
    /// a host address
    A,
    /// an authoritative name server
    NS,
    /// a mail destination (obsolete, use MX)
    MD,
    /// a mail forwarder (obsolete, use MX)
    MF,
    /// the canonical name for an alias
    CNAME,
    /// marks the start of a zone of authority
    SOA,
    /// a mailbox domain name (experimental)
    MB,
    /// a mail group member (experimental)
    MG,
    /// a mail rename domain name (experimental)
    MR,
    /// a null record (experimental)
    NULL,
    /// a well known service description
    WKS,
    /// a domain name pointer
    PTR,
    /// host information
    HINFO,
    /// mailbox or mail list information
    MINFO,
    /// mail exchange
    MX,
    /// text strings
    TXT,
    /// an IPv6 host address
    AAAA,
}

/// The type that a 16-bit code stands for, if it is a known one.
pub open spec fn type_of_code(code: u16) -> Option<TypeField> {
    if code == 1 {
        Some(TypeField::A)
    } else if code == 2 {
        Some(TypeField::NS)
    } else if code == 3 {
        Some(TypeField::MD)
    } else if code == 4 {
        Some(TypeField::MF)
    } else if code == 5 {
        Some(TypeField::CNAME)
    } else if code == 6 {
        Some(TypeField::SOA)
    } else if code == 7 {
        Some(TypeField::MB)
    } else if code == 8 {
        Some(TypeField::MG)
    } else if code == 9 {
        Some(TypeField::MR)
    } else if code == 10 {
        Some(TypeField::NULL)
    } else if code == 11 {
        Some(TypeField::WKS)
    } else if code == 12 {
        Some(TypeField::PTR)
    } else if code == 13 {
        Some(TypeField::HINFO)
    } else if code == 14 {
        Some(TypeField::MINFO)
    } else if code == 15 {
        Some(TypeField::MX)
    } else if code == 16 {
        Some(TypeField::TXT)
    } else if code == 28 {
        Some(TypeField::AAAA)
    } else {
        None
    }
}

/// What two octets decode to as a type: they must be exactly two, and spell a
/// known code.
pub open spec fn type_of_bytes(data: Seq<u8>) -> Result<TypeField, DnsError> {
    if data.len() != 2 {
        Err(DnsError::InvalidFormat)
    } else {
        match type_of_code(be_u16(data[0], data[1])) {
            Some(t) => Ok(t),
            None => Err(DnsError::UnsupportedField),
        }
    }
}

/// The type whose code stands at `pos`, and the position behind it.
pub open spec fn read_type_at(buf: Seq<u8>, pos: int) -> Result<(TypeField, int), DnsError> {
    match read_u16_at(buf, pos) {
        Ok((code, next)) => match type_of_code(code) {
            Some(t) => Ok((t, next)),
            None => Err(DnsError::UnsupportedField),
        },
        Err(e) => Err(e),
    }
}

impl TypeField {
    /// The 16-bit code of this type.
    pub open spec fn spec_code(self) -> u16 {
        match self {
            TypeField::A => 1,
            TypeField::NS => 2,
            TypeField::MD => 3,
            TypeField::MF => 4,
            TypeField::CNAME => 5,
            TypeField::SOA => 6,
            TypeField::MB => 7,
            TypeField::MG => 8,
            TypeField::MR => 9,
            TypeField::NULL => 10,
            TypeField::WKS => 11,
            TypeField::PTR => 12,
            TypeField::HINFO => 13,
            TypeField::MINFO => 14,
            TypeField::MX => 15,
            TypeField::TXT => 16,
            TypeField::AAAA => 28,
        }
    }

    /// The 16-bit code of this type.
    #[verifier::when_used_as_spec(spec_code)]
    pub fn code(self) -> (r: u16)
        ensures
            r == self.spec_code(),
    {
        match self {
            TypeField::A => 1,
            TypeField::NS => 2,
            TypeField::MD => 3,
            TypeField::MF => 4,
            TypeField::CNAME => 5,
            TypeField::SOA => 6,
            TypeField::MB => 7,
            TypeField::MG => 8,
            TypeField::MR => 9,
            TypeField::NULL => 10,
            TypeField::WKS => 11,
            TypeField::PTR => 12,
            TypeField::HINFO => 13,
            TypeField::MINFO => 14,
            TypeField::MX => 15,
            TypeField::TXT => 16,
            TypeField::AAAA => 28,
        }
    }

    /// The type that `code` stands for; `UnsupportedField` if it is not a
    /// known one.
    pub fn from_code(code: u16) -> (r: Result<TypeField, DnsError>)
        ensures
            match type_of_code(code) {
                Some(t) => r == Ok::<TypeField, DnsError>(t),
                None => r == Err::<TypeField, DnsError>(DnsError::UnsupportedField),
            },
    {
        match code {
            1 => Ok(TypeField::A),
            2 => Ok(TypeField::NS),
            3 => Ok(TypeField::MD),
            4 => Ok(TypeField::MF),
            5 => Ok(TypeField::CNAME),
            6 => Ok(TypeField::SOA),
            7 => Ok(TypeField::MB),
            8 => Ok(TypeField::MG),
            9 => Ok(TypeField::MR),
            10 => Ok(TypeField::NULL),
            11 => Ok(TypeField::WKS),
            12 => Ok(TypeField::PTR),
            13 => Ok(TypeField::HINFO),
            14 => Ok(TypeField::MINFO),
            15 => Ok(TypeField::MX),
            16 => Ok(TypeField::TXT),
            28 => Ok(TypeField::AAAA),
            _ => Err(DnsError::UnsupportedField),
        }
    }

    /// The code of this type as two octets in network byte order.
    pub fn to_be_bytes(self) -> (r: [u8; 2])
        ensures
            r@ == u16_wire(self.spec_code()),
    {
        u16_to_be(self.code())
    }

    /// Decodes a type from exactly two octets in network byte order.
    pub fn from_bytes(data: &[u8]) -> (r: Result<TypeField, DnsError>)
        ensures
            r == type_of_bytes(data@),
    {
        if data.len() != 2 {
            return Err(DnsError::InvalidFormat);
        }
        TypeField::from_code(u16_from_be(data[0], data[1]))
    }

    /// Reads a type from the next two octets. On failure the reader stays
    /// where it was.
    pub fn from_reader(reader: &mut Reader) -> (r: Result<TypeField, DnsError>)
        ensures
            final(reader).data@ == old(reader).data@,
            read_agrees(
                read_type_at(old(reader).data@, old(reader).position as int),
                r,
                old(reader).position,
                final(reader).position,
            ),
    {
        let start = reader.position();
        let code = reader.read_u16()?;
        match TypeField::from_code(code) {
            Ok(t) => Ok(t),
            Err(e) => {
                reader.set_position(start);
                Err(e)
            },
        }
    }
}

/// A known code decodes to the type that it is the code of.
pub proof fn lemma_type_code_round_trip(t: TypeField)
    ensures
        type_of_code(t.spec_code()) == Some(t),
{
}

/// A code that decodes to a type is that type's code.
pub proof fn lemma_type_of_code_is_code(code: u16)
    ensures
        type_of_code(code) matches Some(t) ==> t.spec_code() == code,
{
}

/// The class of a resource record.
#[derive(Clone, Copy, Debug, PartialEq, Eq, Structural, Hash)]
pub enum ClassField {
    /// the Internet
    IN,
    /// the CSNET class (obsolete)
    CS,
    /// the CHAOS class
    CH,
    /// Hesiod
    HS,
}

/// The class that a 16-bit code stands for, if it is a known one.
pub open spec fn class_of_code(code: u16) -> Option<ClassField> {
    if code == 1 {
        Some(ClassField::IN)
    } else if code == 2 {
        Some(ClassField::CS)
    } else if code == 3 {
        Some(ClassField::CH)
    } else if code == 4 {
        Some(ClassField::HS)
    } else {
        None
    }
}

/// What two octets decode to as a class: they must be exactly two, and spell
/// a known code.
pub open spec fn class_of_bytes(data: Seq<u8>) -> Result<ClassField, DnsError> {
    if data.len() != 2 {
        Err(DnsError::InvalidFormat)
    } else {
        match class_of_code(be_u16(data[0], data[1])) {
            Some(c) => Ok(c),
            None => Err(DnsError::UnsupportedField),
        }
    }
}

/// The class whose code stands at `pos`, and the position behind it.
pub open spec fn read_class_at(buf: Seq<u8>, pos: int) -> Result<(ClassField, int), DnsError> {
    match read_u16_at(buf, pos) {
        Ok((code, next)) => match class_of_code(code) {
            Some(c) => Ok((c, next)),
            None => Err(DnsError::UnsupportedField),
        },
        Err(e) => Err(e),
    }
}

impl ClassField {
    /// The 16-bit code of this class.
    pub open spec fn spec_code(self) -> u16 {
        match self {
            ClassField::IN => 1,
            ClassField::CS => 2,
            ClassField::CH => 3,
            ClassField::HS => 4,
        }
    }

    /// The 16-bit code of this class.
    #[verifier::when_used_as_spec(spec_code)]
    pub fn code(self) -> (r: u16)
        ensures
            r == self.spec_code(),
    {
        match self {
            ClassField::IN => 1,
            ClassField::CS => 2,
            ClassField::CH => 3,
            ClassField::HS => 4,
        }
    }

    /// The class that `code` stands for; `UnsupportedField` if it is not a
    /// known one.
    pub fn from_code(code: u16) -> (r: Result<ClassField, DnsError>)
        ensures
            match class_of_code(code) {
                Some(c) => r == Ok::<ClassField, DnsError>(c),
                None => r == Err::<ClassField, DnsError>(DnsError::UnsupportedField),
            },
    {
        match code {
            1 => Ok(ClassField::IN),
            2 => Ok(ClassField::CS),
            3 => Ok(ClassField::CH),
            4 => Ok(ClassField::HS),
            _ => Err(DnsError::UnsupportedField),
        }
    }

    /// The code of this class as two octets in network byte order.
    pub fn to_be_bytes(self) -> (r: [u8; 2])
        ensures
            r@ == u16_wire(self.spec_code()),
    {
        u16_to_be(self.code())
    }

    /// Decodes a class from exactly two octets in network byte order.
    pub fn from_bytes(data: &[u8]) -> (r: Result<ClassField, DnsError>)
        ensures
            r == class_of_bytes(data@),
    {
        if data.len() != 2 {
            return Err(DnsError::InvalidFormat);
        }
        ClassField::from_code(u16_from_be(data[0], data[1]))
    }

    /// Reads a class from the next two octets. On failure the reader stays
    /// where it was.
    pub fn from_reader(reader: &mut Reader) -> (r: Result<ClassField, DnsError>)
        ensures
            final(reader).data@ == old(reader).data@,
            read_agrees(
                read_class_at(old(reader).data@, old(reader).position as int),
                r,
                old(reader).position,
                final(reader).position,
            ),
    {
        let start = reader.position();
        let code = reader.read_u16()?;
        match ClassField::from_code(code) {
            Ok(c) => Ok(c),
            Err(e) => {
                reader.set_position(start);
                Err(e)
            },
        }
    }
}

/// A known code decodes to the class that it is the code of.
pub proof fn lemma_class_code_round_trip(c: ClassField)
    ensures
        class_of_code(c.spec_code()) == Some(c),
{
}

/// A code that decodes to a class is that class's code.
pub proof fn lemma_class_of_code_is_code(code: u16)
    ensures
        class_of_code(code) matches Some(c) ==> c.spec_code() == code,
{
}

/// The code of a type is read back as that type: if it stands at `pos`,
/// followed by `rest`, reading gives the type and leaves `rest`.
pub proof fn lemma_read_type_of_wire(buf: Seq<u8>, pos: int, t: TypeField, rest: Seq<u8>)
    requires
        0 <= pos <= buf.len(),
        buf.skip(pos) == u16_wire(t.spec_code()) + rest,
    ensures
        read_type_at(buf, pos) == Ok::<(TypeField, int), DnsError>((t, pos + 2)),
        buf.skip(pos + 2) == rest,
{
    lemma_read_u16_of_wire(buf, pos, t.spec_code(), rest);
    lemma_type_code_round_trip(t);
}

/// The code of a class is read back as that class: if it stands at `pos`,
/// followed by `rest`, reading gives the class and leaves `rest`.
pub proof fn lemma_read_class_of_wire(buf: Seq<u8>, pos: int, c: ClassField, rest: Seq<u8>)
    requires
        0 <= pos <= buf.len(),
        buf.skip(pos) == u16_wire(c.spec_code()) + rest,
    ensures
        read_class_at(buf, pos) == Ok::<(ClassField, int), DnsError>((c, pos + 2)),
        buf.skip(pos + 2) == rest,
{
    lemma_read_u16_of_wire(buf, pos, c.spec_code(), rest);
    lemma_class_code_round_trip(c);
}

} // verus!
