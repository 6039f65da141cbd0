//! Building the query for a name and a record type.

use vstd::prelude::*;
use crate::error::{encoding_agrees, DnsError};
use crate::fields::{ClassField, TypeField};
use crate::header::{header_wire, DNSHeader};
use crate::name::DomainName;
use crate::packet::{message_wire, PacketView};
use crate::question::{question_wire, DNSQuestion, QuestionView};
use crate::wire::append_bytes;

verus! {

/// The query for the records of type `type_field` of `name`, under the
/// transaction id `id`: no flag set, one question, of class IN, and no
/// records.
pub open spec fn query_message(id: u16, name: Seq<char>, type_field: TypeField) -> PacketView {
    PacketView {
        header: DNSHeader {
            id,
            flags: 0,
            num_questions: 1,
            num_answers: 0,
            num_authorities: 0,
            num_additionals: 0,
        },
        questions: seq![QuestionView { name, type_field, class: ClassField::IN }],
        answers: Seq::empty(),
        authorities: Seq::empty(),
        additionals: Seq::empty(),
    }
}

/// The wire form of the query for the records of type `type_field` of
/// `name`, under the transaction id `id`.
pub open spec fn query_wire(id: u16, name: Seq<char>, type_field: TypeField) -> Result<
    Seq<u8>,
    DnsError,
> {
    message_wire(query_message(id, name, type_field))
}

/// `rand::random` for `u16`: a value from the thread's generator. Nothing is
/// known of it but its type.
#[verifier::external_body]
fn random_id() -> u16 {
    rand::random::<u16>()
}

/// Builds the query for the records of type `type_field` of `domain_name`
/// under the transaction id `id`. Fails with `InvalidFormat` if the name
/// cannot be encoded.
pub fn build_query_with_id(id: u16, domain_name: &DomainName, type_field: TypeField) -> (r: Result<
    Vec<u8>,
    DnsError,
>)
    ensures
        encoding_agrees(query_wire(id, domain_name@, type_field), r),
{
    let header = DNSHeader {
        id,
        flags: 0,
        num_questions: 1,
        num_answers: 0,
        num_authorities: 0,
        num_additionals: 0,
    };
    let question = DNSQuestion { name: domain_name.clone(), type_field, class: ClassField::IN };
    proof {
        lemma_query_wire(id, domain_name@, type_field);
    }
    let mut bytes = header.to_bytes();
    let encoded = question.to_bytes()?;
    append_bytes(&mut bytes, encoded.as_slice());
    Ok(bytes)
}

/// Builds the query for the records of type `type_field` of `domain_name`,
/// under a transaction id drawn at random. Fails with `InvalidFormat` if the
/// name cannot be encoded.
pub fn build_query(domain_name: &DomainName, type_field: TypeField) -> (r: Result<Vec<u8>, DnsError>)
    ensures
        match r {
            Ok(bytes) => exists|id: u16|
                query_wire(id, domain_name@, type_field) == Ok::<Seq<u8>, DnsError>(bytes@),
            Err(e) => forall|id: u16|
                query_wire(id, domain_name@, type_field) == Err::<Seq<u8>, DnsError>(e),
        },
{
    let id = random_id();
    let r = build_query_with_id(id, domain_name, type_field);
    proof {
        assert forall|other: u16| r is Err implies query_wire(other, domain_name@, type_field)
            == query_wire(id, domain_name@, type_field) by {
            lemma_query_wire(id, domain_name@, type_field);
            lemma_query_wire(other, domain_name@, type_field);
        }
    }
    r
}

/// A query is its header followed by its one question, and cannot be encoded
/// exactly when its question cannot.
pub proof fn lemma_query_wire(id: u16, name: Seq<char>, type_field: TypeField)
    ensures
        query_wire(id, name, type_field) == match question_wire(
            QuestionView { name, type_field, class: ClassField::IN },
        ) {
            Ok(question) => Ok::<Seq<u8>, DnsError>(
                header_wire(query_message(id, name, type_field).header) + question,
            ),
            Err(e) => Err::<Seq<u8>, DnsError>(e),
        },
{
    let m = query_message(id, name, type_field);
    let q = QuestionView { name, type_field, class: ClassField::IN };
    let none = Seq::<QuestionView>::empty();
    assert(m.questions.drop_last() =~= none);
    assert(m.questions.last() == q);
    assert(crate::packet::questions_wire(none) == Ok::<Seq<u8>, DnsError>(Seq::<u8>::empty()));
    assert(crate::packet::records_wire(m.answers) == Ok::<Seq<u8>, DnsError>(
        Seq::<u8>::empty(),
    ));
    assert(crate::packet::header_for(m) == m.header);
    if let Ok(question) = question_wire(q) {
        assert(Seq::<u8>::empty() + question =~= question);
        assert(crate::packet::questions_wire(m.questions) == Ok::<Seq<u8>, DnsError>(question));
        let h = header_wire(m.header);
        let e = Seq::<u8>::empty();
        assert(h + question + e + e + e =~= h + question);
    }
}

} // verus!
