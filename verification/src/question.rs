//! The question section of a DNS message.

use vstd::prelude::*;
use vstd::utf8::encode_utf8;
use crate::error::{encoding_agrees, DnsError};
use crate::fields::{
    lemma_read_class_of_wire, lemma_read_type_of_wire, read_class_at, read_type_at, ClassField,
    TypeField,
};
use crate::name::{
    decode_name_at, encode_name, lemma_name_round_trip, name_well_formed, DomainName,
};
use crate::reader::{read_agrees_view, Reader};
use crate::wire::{append_bytes, u16_wire};

verus! {

/// One question: which records of which name are asked for.
#[derive(Debug)]
pub struct DNSQuestion {
    pub name: DomainName,
    pub type_field: TypeField,
    pub class: ClassField,
}

/// What a question says.
pub struct QuestionView {
    pub name: Seq<char>,
    pub type_field: TypeField,
    pub class: ClassField,
}

impl View for DNSQuestion {
    type V = QuestionView;

    open spec fn view(&self) -> QuestionView {
        QuestionView { name: self.name@, type_field: self.type_field, class: self.class }
    }
}

/// The wire form of a question: the name, then type and class as big-endian
/// 16-bit codes.
pub open spec fn question_wire(q: QuestionView) -> Result<Seq<u8>, DnsError> {
    match encode_name(q.name) {
        Ok(name) => Ok(name + u16_wire(q.type_field.spec_code()) + u16_wire(q.class.spec_code())),
        Err(e) => Err(e),
    }
}

/// The question that starts at `pos`, and the position behind it.
pub open spec fn read_question_at(buf: Seq<u8>, pos: int) -> Result<(QuestionView, int), DnsError> {
    match decode_name_at(buf, pos) {
        Ok((name, after_name)) => match read_type_at(buf, after_name) {
            Ok((type_field, after_type)) => match read_class_at(buf, after_type) {
                Ok((class, next)) => Ok((QuestionView { name, type_field, class }, next)),
                Err(e) => Err(e),
            },
            Err(e) => Err(e),
        },
        Err(e) => Err(e),
    }
}

impl Clone for DNSQuestion {
    fn clone(&self) -> (r: Self)
        ensures
            r@ == self@,
    {
        DNSQuestion { name: self.name.clone(), type_field: self.type_field, class: self.class }
    }
}

impl DNSQuestion {
    /// Whether the question can go on the wire and come back unchanged.
    pub open spec fn well_formed(&self) -> bool {
        self.name.well_formed()
    }

    /// Encodes the question. Fails with `InvalidFormat` if the name cannot be
    /// encoded.
    pub fn to_bytes(&self) -> (r: Result<Vec<u8>, DnsError>)
        ensures
            encoding_agrees(question_wire(self@), r),
    {
        let mut bytes = self.name.to_bytes()?;
        append_bytes(&mut bytes, &self.type_field.to_be_bytes());
        append_bytes(&mut bytes, &self.class.to_be_bytes());
        Ok(bytes)
    }

    /// Reads a question at the reader's position. On failure the reader stays
    /// where it was.
    pub fn from_reader(reader: &mut Reader) -> (r: Result<DNSQuestion, DnsError>)
        ensures
            final(reader).data@ == old(reader).data@,
            read_agrees_view(
                read_question_at(old(reader).data@, old(reader).position as int),
                r,
                old(reader).position,
                final(reader).position,
            ),
    {
        let start = reader.position();
        let name = DomainName::from_reader(reader)?;
        let type_field = match TypeField::from_reader(reader) {
            Ok(t) => t,
            Err(e) => {
                reader.set_position(start);
                return Err(e);
            },
        };
        let class = match ClassField::from_reader(reader) {
            Ok(c) => c,
            Err(e) => {
                reader.set_position(start);
                return Err(e);
            },
        };

        Ok(DNSQuestion { name, type_field, class })
    }
}

/// A question with a well-formed name survives encoding and decoding: if its
/// wire form stands at `pos` of a message, followed by `rest`, reading there
/// gives the question and leaves `rest`.
pub proof fn lemma_question_round_trip(buf: Seq<u8>, pos: int, q: QuestionView, rest: Seq<u8>)
    requires
        name_well_formed(encode_utf8(q.name)),
        0 <= pos <= buf.len(),
        buf.skip(pos) == question_wire(q)->Ok_0 + rest,
    ensures
        question_wire(q) is Ok,
        read_question_at(buf, pos) == Ok::<(QuestionView, int), DnsError>(
            (q, pos + question_wire(q)->Ok_0.len()),
        ),
        buf.skip(pos + question_wire(q)->Ok_0.len()) == rest,
{
    let name = encode_name(q.name)->Ok_0;
    let t = u16_wire(q.type_field.spec_code());
    let c = u16_wire(q.class.spec_code());
    assert(name + t + c + rest =~= name + (t + (c + rest)));
    lemma_name_round_trip(buf, pos, q.name, t + (c + rest));
    lemma_read_type_of_wire(buf, pos + name.len(), q.type_field, c + rest);
    lemma_read_class_of_wire(buf, pos + name.len() + 2, q.class, rest);
}

} // verus!
