//! Whole DNS messages: a header, the questions, and three lists of resource
//! records.

use vstd::prelude::*;
use vstd::utf8::encode_utf8;
use crate::error::{encoding_agrees, DnsError};
use crate::fields::TypeField;
use crate::header::{header_wire, lemma_header_round_trip, read_header_at, DNSHeader};
use crate::question::{
    lemma_question_round_trip, question_wire, read_question_at, DNSQuestion, QuestionView,
};
use crate::record::{
    lemma_record_round_trip, read_record_at, record_well_formed, record_wire, DNSRecord,
    RecordView,
};
use crate::name::{name_well_formed, DomainName};
use crate::reader::Reader;
use crate::wire::append_bytes;

verus! {

/// The longest list that a 16-bit count in the header can announce.
pub const MAX_SECTION_LEN: usize = 65535;

/// A DNS message, query or response.
#[derive(Debug)]
pub struct DNSPacket {
    pub header: DNSHeader,
    pub questions: Vec<DNSQuestion>,
    pub answers: Vec<DNSRecord>,
    pub authorities: Vec<DNSRecord>,
    pub additionals: Vec<DNSRecord>,
}

/// What a message says.
pub struct PacketView {
    pub header: DNSHeader,
    pub questions: Seq<QuestionView>,
    pub answers: Seq<RecordView>,
    pub authorities: Seq<RecordView>,
    pub additionals: Seq<RecordView>,
}

/// What the questions of a list say.
pub open spec fn question_views(list: Seq<DNSQuestion>) -> Seq<QuestionView> {
    Seq::new(list.len(), |i: int| list[i]@)
}

/// What the records of a list say.
pub open spec fn record_views(list: Seq<DNSRecord>) -> Seq<RecordView> {
    Seq::new(list.len(), |i: int| list[i]@)
}

impl View for DNSPacket {
    type V = PacketView;

    open spec fn view(&self) -> PacketView {
        PacketView {
            header: self.header,
            questions: question_views(self.questions@),
            answers: record_views(self.answers@),
            authorities: record_views(self.authorities@),
            additionals: record_views(self.additionals@),
        }
    }
}

/// The `count` questions that start at `pos`, and the position behind them.
pub open spec fn read_questions_at(buf: Seq<u8>, pos: int, count: nat) -> Result<
    (Seq<QuestionView>, int),
    DnsError,
>
    decreases count,
{
    if count == 0 {
        Ok((Seq::<QuestionView>::empty(), pos))
    } else {
        match read_question_at(buf, pos) {
            Ok((first, next)) => match read_questions_at(buf, next, (count - 1) as nat) {
                Ok((others, end)) => Ok((seq![first] + others, end)),
                Err(e) => Err(e),
            },
            Err(e) => Err(e),
        }
    }
}

/// The `count` records that start at `pos`, and the position behind them.
pub open spec fn read_records_at(buf: Seq<u8>, pos: int, count: nat) -> Result<
    (Seq<RecordView>, int),
    DnsError,
>
    decreases count,
{
    if count == 0 {
        Ok((Seq::<RecordView>::empty(), pos))
    } else {
        match read_record_at(buf, pos) {
            Ok((first, next)) => match read_records_at(buf, next, (count - 1) as nat) {
                Ok((others, end)) => Ok((seq![first] + others, end)),
                Err(e) => Err(e),
            },
            Err(e) => Err(e),
        }
    }
}

/// The message that `buf` holds: the header, then as many questions,
/// answers, authority records and additional records as the header counts,
/// in this order. Octets behind the last record are not looked at.
pub open spec fn parse_message(buf: Seq<u8>) -> Result<PacketView, DnsError> {
    match read_header_at(buf, 0) {
        Ok((header, after_header)) => match read_questions_at(buf, after_header, header.num_questions as nat) {
            Ok((questions, after_questions)) => match read_records_at(buf, after_questions, header.num_answers as nat) {
                Ok((answers, after_answers)) => match read_records_at(
                    buf,
                    after_answers,
                    header.num_authorities as nat,
                ) {
                    Ok((authorities, after_authorities)) => match read_records_at(
                        buf,
                        after_authorities,
                        header.num_additionals as nat,
                    ) {
                        Ok((additionals, _)) => Ok(
                            PacketView { header, questions, answers, authorities, additionals },
                        ),
                        Err(e) => Err(e),
                    },
                    Err(e) => Err(e),
                },
                Err(e) => Err(e),
            },
            Err(e) => Err(e),
        },
        Err(e) => Err(e),
    }
}

/// The wire form of a list of questions, one after the other.
pub open spec fn questions_wire(list: Seq<QuestionView>) -> Result<Seq<u8>, DnsError>
    decreases list.len(),
{
    if list.len() == 0 {
        Ok(Seq::<u8>::empty())
    } else {
        match questions_wire(list.drop_last()) {
            Ok(init) => match question_wire(list.last()) {
                Ok(last) => Ok(init + last),
                Err(e) => Err(e),
            },
            Err(e) => Err(e),
        }
    }
}

/// The wire form of a list of records, one after the other.
pub open spec fn records_wire(list: Seq<RecordView>) -> Result<Seq<u8>, DnsError>
    decreases list.len(),
{
    if list.len() == 0 {
        Ok(Seq::<u8>::empty())
    } else {
        match records_wire(list.drop_last()) {
            Ok(init) => match record_wire(list.last()) {
                Ok(last) => Ok(init + last),
                Err(e) => Err(e),
            },
            Err(e) => Err(e),
        }
    }
}

/// The header that goes on the wire for a message: its id and flags, with
/// the four counts taken from the lists.
pub open spec fn header_for(m: PacketView) -> DNSHeader {
    DNSHeader {
        id: m.header.id,
        flags: m.header.flags,
        num_questions: m.questions.len() as u16,
        num_answers: m.answers.len() as u16,
        num_authorities: m.authorities.len() as u16,
        num_additionals: m.additionals.len() as u16,
    }
}

/// Whether each list of a message is short enough for its 16-bit count.
pub open spec fn sections_fit(m: PacketView) -> bool {
    &&& m.questions.len() <= MAX_SECTION_LEN
    &&& m.answers.len() <= MAX_SECTION_LEN
    &&& m.authorities.len() <= MAX_SECTION_LEN
    &&& m.additionals.len() <= MAX_SECTION_LEN
}

/// The wire form of a message: the header, with the counts that the lists
/// have, then the questions, the answers, the authority records and the
/// additional records. Nothing is compressed.
pub open spec fn message_wire(m: PacketView) -> Result<Seq<u8>, DnsError> {
    if !sections_fit(m) {
        Err(DnsError::InvalidFormat)
    } else {
        match questions_wire(m.questions) {
            Ok(questions) => match records_wire(m.answers) {
                Ok(answers) => match records_wire(m.authorities) {
                    Ok(authorities) => match records_wire(m.additionals) {
                        Ok(additionals) => Ok(
                            header_wire(header_for(m)) + questions + answers + authorities
                                + additionals,
                        ),
                        Err(e) => Err(e),
                    },
                    Err(e) => Err(e),
                },
                Err(e) => Err(e),
            },
            Err(e) => Err(e),
        }
    }
}

/// Whether a record is of type `type_field` and, where a name is asked for,
/// about that name.
pub open spec fn selects(r: RecordView, name: Option<Seq<char>>, type_field: TypeField) -> bool {
    r.type_field == type_field && match name {
        Some(name) => r.name == name,
        None => true,
    }
}

/// The index of the first record of `list` that is of type `type_field` and,
/// where a name is asked for, about that name.
pub open spec fn first_selected(
    list: Seq<RecordView>,
    name: Option<Seq<char>>,
    type_field: TypeField,
) -> Option<int>
    decreases list.len(),
{
    if list.len() == 0 {
        None
    } else {
        match first_selected(list.drop_last(), name, type_field) {
            Some(i) => Some(i),
            None => if selects(list.last(), name, type_field) {
                Some(list.len() - 1)
            } else {
                None
            },
        }
    }
}

/// What was read before, put in front of what remains to be read.
spec fn questions_after(
    acc: Seq<QuestionView>,
    rest: Result<(Seq<QuestionView>, int), DnsError>,
) -> Result<(Seq<QuestionView>, int), DnsError> {
    match rest {
        Ok((others, end)) => Ok((acc + others, end)),
        Err(e) => Err(e),
    }
}

/// What was read before, put in front of what remains to be read.
spec fn records_after(
    acc: Seq<RecordView>,
    rest: Result<(Seq<RecordView>, int), DnsError>,
) -> Result<(Seq<RecordView>, int), DnsError> {
    match rest {
        Ok((others, end)) => Ok((acc + others, end)),
        Err(e) => Err(e),
    }
}

/// Reads `count` questions. On failure the reader stays where it was.
fn read_questions(reader: &mut Reader, count: u16) -> (r: Result<Vec<DNSQuestion>, DnsError>)
    ensures
        final(reader).data@ == old(reader).data@,
        match read_questions_at(old(reader).data@, old(reader).position as int, count as nat) {
            Ok((list, next)) => r matches Ok(v) && question_views(v@) == list && final(reader).position
                == next,
            Err(e) => r matches Err(error) && error == e && final(reader).position == old(
                reader,
            ).position,
        },
{
    let start = reader.position();
    let ghost buf = reader.data@;
    let mut list: Vec<DNSQuestion> = Vec::new();
    let mut i: u16 = 0;
    assert(question_views(list@) =~= Seq::<QuestionView>::empty());
    assert(forall|others: Seq<QuestionView>| Seq::<QuestionView>::empty() + others =~= others);
    while i < count
        invariant
            reader.data@ == buf,
            old(reader).data@ == buf,
            old(reader).position == start,
            i <= count,
            read_questions_at(buf, start as int, count as nat) == questions_after(
                question_views(list@),
                read_questions_at(buf, reader.position as int, (count - i) as nat),
            ),
        decreases count - i,
    {
        let ghost acc = question_views(list@);
        let ghost pos = reader.position as int;
        match DNSQuestion::from_reader(reader) {
            Ok(question) => {
                proof {
                    let rest = read_questions_at(
                        buf,
                        reader.position as int,
                        (count - i - 1) as nat,
                    );
                    if let Ok((others, end)) = rest {
                        assert(acc + (seq![question@] + others) =~= acc.push(question@) + others);
                    }
                    assert(question_views(list@.push(question)) =~= acc.push(question@));
                }
                list.push(question);
            },
            Err(e) => {
                reader.set_position(start);
                return Err(e);
            },
        }
        i = i + 1;
    }
    assert(question_views(list@) + Seq::<QuestionView>::empty() =~= question_views(list@));
    Ok(list)
}

/// Reads `count` records. On failure the reader stays where it was.
fn read_records(reader: &mut Reader, count: u16) -> (r: Result<Vec<DNSRecord>, DnsError>)
    ensures
        final(reader).data@ == old(reader).data@,
        match read_records_at(old(reader).data@, old(reader).position as int, count as nat) {
            Ok((list, next)) => r matches Ok(v) && record_views(v@) == list && final(reader).position
                == next,
            Err(e) => r matches Err(error) && error == e && final(reader).position == old(
                reader,
            ).position,
        },
{
    let start = reader.position();
    let ghost buf = reader.data@;
    let mut list: Vec<DNSRecord> = Vec::new();
    let mut i: u16 = 0;
    assert(record_views(list@) =~= Seq::<RecordView>::empty());
    assert(forall|others: Seq<RecordView>| Seq::<RecordView>::empty() + others =~= others);
    while i < count
        invariant
            reader.data@ == buf,
            old(reader).data@ == buf,
            old(reader).position == start,
            i <= count,
            read_records_at(buf, start as int, count as nat) == records_after(
                record_views(list@),
                read_records_at(buf, reader.position as int, (count - i) as nat),
            ),
        decreases count - i,
    {
        let ghost acc = record_views(list@);
        match DNSRecord::from_reader(reader) {
            Ok(record) => {
                proof {
                    let rest = read_records_at(
                        buf,
                        reader.position as int,
                        (count - i - 1) as nat,
                    );
                    if let Ok((others, end)) = rest {
                        assert(acc + (seq![record@] + others) =~= acc.push(record@) + others);
                    }
                    assert(record_views(list@.push(record)) =~= acc.push(record@));
                }
                list.push(record);
            },
            Err(e) => {
                reader.set_position(start);
                return Err(e);
            },
        }
        i = i + 1;
    }
    assert(record_views(list@) + Seq::<RecordView>::empty() =~= record_views(list@));
    Ok(list)
}

/// A list that cannot be encoded up to some point cannot be encoded at all,
/// and fails in the same way.
proof fn lemma_questions_wire_fails(list: Seq<QuestionView>, n: int, e: DnsError)
    requires
        0 <= n <= list.len(),
        questions_wire(list.take(n)) == Err::<Seq<u8>, DnsError>(e),
    ensures
        questions_wire(list) == Err::<Seq<u8>, DnsError>(e),
    decreases list.len() - n,
{
    if n < list.len() {
        assert(list.take(n + 1).drop_last() =~= list.take(n));
        lemma_questions_wire_fails(list, n + 1, e);
    } else {
        assert(list.take(n) =~= list);
    }
}

/// A list that cannot be encoded up to some point cannot be encoded at all,
/// and fails in the same way.
proof fn lemma_records_wire_fails(list: Seq<RecordView>, n: int, e: DnsError)
    requires
        0 <= n <= list.len(),
        records_wire(list.take(n)) == Err::<Seq<u8>, DnsError>(e),
    ensures
        records_wire(list) == Err::<Seq<u8>, DnsError>(e),
    decreases list.len() - n,
{
    if n < list.len() {
        assert(list.take(n + 1).drop_last() =~= list.take(n));
        lemma_records_wire_fails(list, n + 1, e);
    } else {
        assert(list.take(n) =~= list);
    }
}

/// Appends the wire form of each question of `list` to `out`. What `out`
/// holds after a failure is of no use.
fn write_questions(out: &mut Vec<u8>, list: &Vec<DNSQuestion>) -> (r: Result<(), DnsError>)
    ensures
        match r {
            Ok(()) => questions_wire(question_views(list@)) is Ok && final(out)@ == old(out)@ + questions_wire(
                question_views(list@),
            )->Ok_0,
            Err(e) => questions_wire(question_views(list@)) == Err::<Seq<u8>, DnsError>(e),
        },
{
    let ghost views = question_views(list@);
    let ghost head = out@;
    let mut i: usize = 0;
    assert(views.take(0) =~= Seq::<QuestionView>::empty());
    assert(out@ =~= head + Seq::<u8>::empty());
    while i < list.len()
        invariant
            i <= list@.len(),
            views == question_views(list@),
            questions_wire(views.take(i as int)) is Ok,
            out@ == head + questions_wire(views.take(i as int))->Ok_0,
        decreases list@.len() - i,
    {
        let ghost init = questions_wire(views.take(i as int))->Ok_0;
        assert(views.take(i + 1).drop_last() =~= views.take(i as int));
        assert(views.take(i + 1).last() == list@[i as int]@);
        match list[i].to_bytes() {
            Ok(bytes) => {
                append_bytes(out, bytes.as_slice());
                assert(out@ =~= head + (init + bytes@));
            },
            Err(e) => {
                proof {
                    lemma_questions_wire_fails(views, i + 1, e);
                }
                return Err(e);
            },
        }
        i = i + 1;
    }
    assert(views.take(i as int) =~= views);
    Ok(())
}

/// Appends the wire form of each record of `list` to `out`. What `out` holds
/// after a failure is of no use.
fn write_records(out: &mut Vec<u8>, list: &Vec<DNSRecord>) -> (r: Result<(), DnsError>)
    ensures
        match r {
            Ok(()) => records_wire(record_views(list@)) is Ok && final(out)@ == old(out)@ + records_wire(
                record_views(list@),
            )->Ok_0,
            Err(e) => records_wire(record_views(list@)) == Err::<Seq<u8>, DnsError>(e),
        },
{
    let ghost views = record_views(list@);
    let ghost head = out@;
    let mut i: usize = 0;
    assert(views.take(0) =~= Seq::<RecordView>::empty());
    assert(out@ =~= head + Seq::<u8>::empty());
    while i < list.len()
        invariant
            i <= list@.len(),
            views == record_views(list@),
            records_wire(views.take(i as int)) is Ok,
            out@ == head + records_wire(views.take(i as int))->Ok_0,
        decreases list@.len() - i,
    {
        let ghost init = records_wire(views.take(i as int))->Ok_0;
        assert(views.take(i + 1).drop_last() =~= views.take(i as int));
        assert(views.take(i + 1).last() == list@[i as int]@);
        match list[i].to_bytes() {
            Ok(bytes) => {
                append_bytes(out, bytes.as_slice());
                assert(out@ =~= head + (init + bytes@));
            },
            Err(e) => {
                proof {
                    lemma_records_wire_fails(views, i + 1, e);
                }
                return Err(e);
            },
        }
        i = i + 1;
    }
    assert(views.take(i as int) =~= views);
    Ok(())
}

/// What is first among the records read so far stays first when more are
/// read.
proof fn lemma_first_selected_stays(
    list: Seq<RecordView>,
    n: int,
    name: Option<Seq<char>>,
    type_field: TypeField,
)
    requires
        0 <= n <= list.len(),
        first_selected(list.take(n), name, type_field) is Some,
    ensures
        first_selected(list, name, type_field) == first_selected(list.take(n), name, type_field),
    decreases list.len() - n,
{
    if n < list.len() {
        assert(list.take(n + 1).drop_last() =~= list.take(n));
        lemma_first_selected_stays(list, n + 1, name, type_field);
    } else {
        assert(list.take(n) =~= list);
    }
}

/// The first record that is selected is selected, lies in the list, and
/// none before it is selected; if none is first, none is selected.
pub proof fn lemma_first_selected(
    list: Seq<RecordView>,
    name: Option<Seq<char>>,
    type_field: TypeField,
)
    ensures
        match first_selected(list, name, type_field) {
            Some(i) => 0 <= i < list.len() && selects(list[i], name, type_field) && forall|j: int|
                0 <= j < i ==> !selects(#[trigger] list[j], name, type_field),
            None => forall|j: int|
                0 <= j < list.len() ==> !selects(#[trigger] list[j], name, type_field),
        },
    decreases list.len(),
{
    if list.len() > 0 {
        let init = list.drop_last();
        lemma_first_selected(init, name, type_field);
        assert forall|j: int| 0 <= j < init.len() implies init[j] == list[j] by {}
        match first_selected(init, name, type_field) {
            Some(i) => {
                assert(init[i] == list[i]);
                assert forall|j: int| 0 <= j < i implies !selects(
                    #[trigger] list[j],
                    name,
                    type_field,
                ) by {
                    assert(init[j] == list[j]);
                }
            },
            None => {
                assert forall|j: int| 0 <= j < list.len() - 1 implies !selects(
                    #[trigger] list[j],
                    name,
                    type_field,
                ) by {
                    assert(init[j] == list[j]);
                }
            },
        }
    }
}

/// Finds the first record of `list` that is of type `type_field` and, where a
/// name is given, about that name.
fn find_record(list: &Vec<DNSRecord>, name: Option<&DomainName>, type_field: TypeField) -> (r:
    Option<usize>)
    ensures
        match r {
            Some(i) => first_selected(
                record_views(list@),
                match name {
                    Some(name) => Some(name@),
                    None => None,
                },
                type_field,
            ) == Some(i as int) && i < list@.len(),
            None => first_selected(
                record_views(list@),
                match name {
                    Some(name) => Some(name@),
                    None => None,
                },
                type_field,
            ) is None,
        },
{
    let ghost views = record_views(list@);
    let ghost wanted: Option<Seq<char>> = match name {
        Some(name) => Some(name@),
        None => None,
    };
    let mut i: usize = 0;
    assert(views.take(0) =~= Seq::<RecordView>::empty());
    while i < list.len()
        invariant
            i <= list@.len(),
            views == record_views(list@),
            wanted == match name {
                Some(name) => Some(name@),
                None => None,
            },
            first_selected(views.take(i as int), wanted, type_field) is None,
        decreases list@.len() - i,
    {
        assert(views.take(i + 1).drop_last() =~= views.take(i as int));
        assert(views.take(i + 1).last() == list@[i as int]@);
        let same_name = match name {
            Some(name) => list[i].name.same(name),
            None => true,
        };
        if list[i].type_field == type_field && same_name {
            proof {
                lemma_first_selected_stays(views, i + 1, wanted, type_field);
            }
            return Some(i);
        }
        i = i + 1;
    }
    assert(views.take(i as int) =~= views);
    None
}

/// As many questions are read as were asked for.
proof fn lemma_read_questions_count(buf: Seq<u8>, pos: int, count: nat)
    ensures
        read_questions_at(buf, pos, count) matches Ok((list, _)) ==> list.len() == count,
    decreases count,
{
    if count > 0 {
        if let Ok((_, next)) = read_question_at(buf, pos) {
            lemma_read_questions_count(buf, next, (count - 1) as nat);
        }
    }
}

/// As many records are read as were asked for.
proof fn lemma_read_records_count(buf: Seq<u8>, pos: int, count: nat)
    ensures
        read_records_at(buf, pos, count) matches Ok((list, _)) ==> list.len() == count,
    decreases count,
{
    if count > 0 {
        if let Ok((_, next)) = read_record_at(buf, pos) {
            lemma_read_records_count(buf, next, (count - 1) as nat);
        }
    }
}

/// The header of a decoded message counts what its lists hold.
pub proof fn lemma_parsed_counts(buf: Seq<u8>)
    ensures
        parse_message(buf) matches Ok(m) ==> {
            &&& m.questions.len() == m.header.num_questions
            &&& m.answers.len() == m.header.num_answers
            &&& m.authorities.len() == m.header.num_authorities
            &&& m.additionals.len() == m.header.num_additionals
        },
{
    if let Ok((header, after_header)) = read_header_at(buf, 0) {
        lemma_read_questions_count(buf, after_header, header.num_questions as nat);
        if let Ok((_, after_questions)) = read_questions_at(buf, after_header, header.num_questions as nat) {
            lemma_read_records_count(buf, after_questions, header.num_answers as nat);
            if let Ok((_, after_answers)) = read_records_at(buf, after_questions, header.num_answers as nat) {
                lemma_read_records_count(buf, after_answers, header.num_authorities as nat);
                if let Ok((_, after_authorities)) = read_records_at(buf, after_answers, header.num_authorities as nat) {
                    lemma_read_records_count(buf, after_authorities, header.num_additionals as nat);
                }
            }
        }
    }
}

impl DNSPacket {
    /// Decodes a message. Nothing is returned of a message that is cut short
    /// or malformed anywhere.
    pub fn from(data: &[u8]) -> (r: Result<DNSPacket, DnsError>)
        ensures
            match parse_message(data@) {
                Ok(m) => r matches Ok(packet) && packet@ == m,
                Err(e) => r matches Err(error) && error == e,
            },
            r matches Ok(packet) ==> {
                &&& packet.questions@.len() == packet.header.num_questions
                &&& packet.answers@.len() == packet.header.num_answers
                &&& packet.authorities@.len() == packet.header.num_authorities
                &&& packet.additionals@.len() == packet.header.num_additionals
            },
    {
        proof {
            lemma_parsed_counts(data@);
        }
        let mut reader = Reader::new(data);

        let header = DNSHeader::from_reader(&mut reader)?;
        let questions = read_questions(&mut reader, header.num_questions)?;
        let answers = read_records(&mut reader, header.num_answers)?;
        let authorities = read_records(&mut reader, header.num_authorities)?;
        let additionals = read_records(&mut reader, header.num_additionals)?;

        Ok(DNSPacket { header, questions, answers, authorities, additionals })
    }

    /// The first answer that is an address record, if there is one.
    pub fn get_answer(&self) -> (r: Option<&DNSRecord>)
        ensures
            match first_selected(self@.answers, None, TypeField::A) {
                Some(i) => r == Some(&self.answers@[i]),
                None => r is None,
            },
    {
        match find_record(&self.answers, None, TypeField::A) {
            Some(i) => Some(&self.answers[i]),
            None => None,
        }
    }

    /// The first additional record that is an address record, if there is
    /// one: the address of a name server that the response refers to.
    pub fn get_nameserver_record(&self) -> (r: Option<&DNSRecord>)
        ensures
            match first_selected(self@.additionals, None, TypeField::A) {
                Some(i) => r == Some(&self.additionals@[i]),
                None => r is None,
            },
    {
        match find_record(&self.additionals, None, TypeField::A) {
            Some(i) => Some(&self.additionals[i]),
            None => None,
        }
    }

    /// The first authority record that names a name server, if there is one.
    pub fn get_nameserver(&self) -> (r: Option<&DNSRecord>)
        ensures
            match first_selected(self@.authorities, None, TypeField::NS) {
                Some(i) => r == Some(&self.authorities@[i]),
                None => r is None,
            },
    {
        match find_record(&self.authorities, None, TypeField::NS) {
            Some(i) => Some(&self.authorities[i]),
            None => None,
        }
    }

    /// The first answer of type `type_field` about `name`, if there is one.
    pub fn find_answer(&self, name: &DomainName, type_field: TypeField) -> (r: Option<&DNSRecord>)
        ensures
            match first_selected(self@.answers, Some(name@), type_field) {
                Some(i) => r == Some(&self.answers@[i]),
                None => r is None,
            },
    {
        match find_record(&self.answers, Some(name), type_field) {
            Some(i) => Some(&self.answers[i]),
            None => None,
        }
    }

    /// Encodes the message, without compression. The four counts that go on
    /// the wire are the lengths of the lists, whatever the header says. Fails
    /// with `InvalidFormat` if a list has more than 65535 entries or an entry
    /// cannot be encoded.
    pub fn to_bytes(&self) -> (r: Result<Vec<u8>, DnsError>)
        ensures
            encoding_agrees(message_wire(self@), r),
    {
        if self.questions.len() > MAX_SECTION_LEN || self.answers.len() > MAX_SECTION_LEN
            || self.authorities.len() > MAX_SECTION_LEN || self.additionals.len()
            > MAX_SECTION_LEN {
            return Err(DnsError::InvalidFormat);
        }
        let header = DNSHeader {
            id: self.header.id,
            flags: self.header.flags,
            num_questions: self.questions.len() as u16,
            num_answers: self.answers.len() as u16,
            num_authorities: self.authorities.len() as u16,
            num_additionals: self.additionals.len() as u16,
        };
        let mut bytes = header.to_bytes();
        write_questions(&mut bytes, &self.questions)?;
        write_records(&mut bytes, &self.answers)?;
        write_records(&mut bytes, &self.authorities)?;
        write_records(&mut bytes, &self.additionals)?;
        Ok(bytes)
    }
}

/// No record is left out in silence: where some records of a list can be
/// read and the next one cannot, the list cannot be read, and fails as that
/// record does.
pub proof fn lemma_failed_record_fails_list(
    buf: Seq<u8>,
    pos: int,
    count: nat,
    read: nat,
    e: DnsError,
)
    requires
        read < count,
        read_records_at(buf, pos, read) matches Ok((_, next)) && read_record_at(buf, next)
            == Err::<(RecordView, int), DnsError>(e),
    ensures
        read_records_at(buf, pos, count) == Err::<(Seq<RecordView>, int), DnsError>(e),
    decreases read,
{
    if read > 0 {
        let next = read_record_at(buf, pos)->Ok_0.1;
        lemma_failed_record_fails_list(buf, next, (count - 1) as nat, (read - 1) as nat, e);
    }
}

/// No record is left out in silence: a message with a list of records that
/// cannot be read cannot be decoded, and fails as that list does.
pub proof fn lemma_failed_list_fails_message(buf: Seq<u8>, e: DnsError)
    requires
        read_header_at(buf, 0) matches Ok((header, after_header)) && read_questions_at(
            buf,
            after_header,
            header.num_questions as nat,
        ) matches Ok((_, after_questions)) && ({
            ||| read_records_at(buf, after_questions, header.num_answers as nat) == Err::<
                (Seq<RecordView>, int),
                DnsError,
            >(e)
            ||| read_records_at(buf, after_questions, header.num_answers as nat) matches Ok(
                (_, after_answers),
            ) && ({
                ||| read_records_at(buf, after_answers, header.num_authorities as nat) == Err::<
                    (Seq<RecordView>, int),
                    DnsError,
                >(e)
                ||| read_records_at(buf, after_answers, header.num_authorities as nat) matches Ok(
                    (_, after_authorities),
                ) && read_records_at(buf, after_authorities, header.num_additionals as nat)
                    == Err::<(Seq<RecordView>, int), DnsError>(e)
            })
        }),
    ensures
        parse_message(buf) == Err::<PacketView, DnsError>(e),
{
}

/// Whether every question of a list has a well-formed name.
pub open spec fn questions_well_formed(list: Seq<QuestionView>) -> bool {
    forall|i: int| 0 <= i < list.len() ==> name_well_formed(encode_utf8((#[trigger] list[i]).name))
}

/// Whether every record of a list is well formed.
pub open spec fn records_well_formed(list: Seq<RecordView>) -> bool {
    forall|i: int| 0 <= i < list.len() ==> record_well_formed(#[trigger] list[i])
}

/// Whether a message is well formed: the header counts what the lists hold,
/// and every question and record is well formed.
pub open spec fn packet_well_formed(m: PacketView) -> bool {
    &&& m.header.num_questions == m.questions.len()
    &&& m.header.num_answers == m.answers.len()
    &&& m.header.num_authorities == m.authorities.len()
    &&& m.header.num_additionals == m.additionals.len()
    &&& questions_well_formed(m.questions)
    &&& records_well_formed(m.answers)
    &&& records_well_formed(m.authorities)
    &&& records_well_formed(m.additionals)
}

impl DNSPacket {
    /// Whether the message can go on the wire and come back unchanged.
    pub open spec fn well_formed(&self) -> bool {
        packet_well_formed(self@)
    }
}

/// The wire form of a question followed by more questions starts with that
/// question.
proof fn lemma_questions_wire_first(first: QuestionView, others: Seq<QuestionView>)
    requires
        question_wire(first) is Ok,
        questions_wire(others) is Ok,
    ensures
        questions_wire(seq![first] + others) == Ok::<Seq<u8>, DnsError>(
            question_wire(first)->Ok_0 + questions_wire(others)->Ok_0,
        ),
    decreases others.len(),
{
    let all = seq![first] + others;
    let a = question_wire(first)->Ok_0;
    if others.len() == 0 {
        assert(all.drop_last() =~= Seq::<QuestionView>::empty());
        assert(all.last() == first);
        assert(questions_wire(all.drop_last()) == Ok::<Seq<u8>, DnsError>(Seq::<u8>::empty()));
        assert(questions_wire(others) == Ok::<Seq<u8>, DnsError>(Seq::<u8>::empty()));
        assert(Seq::<u8>::empty() + a =~= a + Seq::<u8>::empty());
    } else {
        assert(questions_wire(others.drop_last()) is Ok);
        assert(question_wire(others.last()) is Ok);
        lemma_questions_wire_first(first, others.drop_last());
        assert(all.drop_last() =~= seq![first] + others.drop_last());
        assert(all.last() == others.last());
        let b = questions_wire(others.drop_last())->Ok_0;
        let c = question_wire(others.last())->Ok_0;
        assert(questions_wire(others) == Ok::<Seq<u8>, DnsError>(b + c));
        assert(questions_wire(all) == Ok::<Seq<u8>, DnsError>((a + b) + c));
        assert((a + b) + c =~= a + (b + c));
    }
}

/// The wire form of a record followed by more records starts with that
/// record.
proof fn lemma_records_wire_first(first: RecordView, others: Seq<RecordView>)
    requires
        record_wire(first) is Ok,
        records_wire(others) is Ok,
    ensures
        records_wire(seq![first] + others) == Ok::<Seq<u8>, DnsError>(
            record_wire(first)->Ok_0 + records_wire(others)->Ok_0,
        ),
    decreases others.len(),
{
    let all = seq![first] + others;
    let a = record_wire(first)->Ok_0;
    if others.len() == 0 {
        assert(all.drop_last() =~= Seq::<RecordView>::empty());
        assert(all.last() == first);
        assert(records_wire(all.drop_last()) == Ok::<Seq<u8>, DnsError>(Seq::<u8>::empty()));
        assert(records_wire(others) == Ok::<Seq<u8>, DnsError>(Seq::<u8>::empty()));
        assert(Seq::<u8>::empty() + a =~= a + Seq::<u8>::empty());
    } else {
        assert(records_wire(others.drop_last()) is Ok);
        assert(record_wire(others.last()) is Ok);
        lemma_records_wire_first(first, others.drop_last());
        assert(all.drop_last() =~= seq![first] + others.drop_last());
        assert(all.last() == others.last());
        let b = records_wire(others.drop_last())->Ok_0;
        let c = record_wire(others.last())->Ok_0;
        assert(records_wire(others) == Ok::<Seq<u8>, DnsError>(b + c));
        assert(records_wire(all) == Ok::<Seq<u8>, DnsError>((a + b) + c));
        assert((a + b) + c =~= a + (b + c));
    }
}

/// A list of questions with well-formed names can be encoded.
proof fn lemma_questions_wire_ok(list: Seq<QuestionView>)
    requires
        questions_well_formed(list),
    ensures
        questions_wire(list) is Ok,
    decreases list.len(),
{
    if list.len() > 0 {
        assert forall|i: int| 0 <= i < list.drop_last().len() implies name_well_formed(
            encode_utf8((#[trigger] list.drop_last()[i]).name),
        ) by {
            assert(list.drop_last()[i] == list[i]);
        }
        lemma_questions_wire_ok(list.drop_last());
        assert(name_well_formed(encode_utf8(list[list.len() - 1].name)));
    }
}

/// A list of well-formed records can be encoded.
proof fn lemma_records_wire_ok(list: Seq<RecordView>)
    requires
        records_well_formed(list),
    ensures
        records_wire(list) is Ok,
    decreases list.len(),
{
    if list.len() > 0 {
        assert forall|i: int| 0 <= i < list.drop_last().len() implies record_well_formed(
            #[trigger] list.drop_last()[i],
        ) by {
            assert(list.drop_last()[i] == list[i]);
        }
        lemma_records_wire_ok(list.drop_last());
        assert(record_well_formed(list[list.len() - 1]));
    }
}

/// A list of questions with well-formed names survives encoding and
/// decoding: if its wire form stands at `pos` of a message, followed by
/// `rest`, reading as many questions there gives the list and leaves `rest`.
pub proof fn lemma_questions_round_trip(
    buf: Seq<u8>,
    pos: int,
    list: Seq<QuestionView>,
    rest: Seq<u8>,
)
    requires
        questions_well_formed(list),
        0 <= pos <= buf.len(),
        buf.skip(pos) == questions_wire(list)->Ok_0 + rest,
    ensures
        questions_wire(list) is Ok,
        read_questions_at(buf, pos, list.len()) == Ok::<(Seq<QuestionView>, int), DnsError>(
            (list, pos + questions_wire(list)->Ok_0.len()),
        ),
        buf.skip(pos + questions_wire(list)->Ok_0.len()) == rest,
    decreases list.len(),
{
    lemma_questions_wire_ok(list);
    if list.len() == 0 {
        assert(Seq::<u8>::empty() + rest =~= rest);
        assert(list =~= Seq::<QuestionView>::empty());
    } else {
        let first = list[0];
        let others = list.drop_first();
        assert(list =~= seq![first] + others);
        assert(questions_well_formed(others)) by {
            assert forall|i: int| 0 <= i < others.len() implies name_well_formed(
                encode_utf8((#[trigger] others[i]).name),
            ) by {
                assert(others[i] == list[i + 1]);
            }
        }
        lemma_questions_wire_ok(others);
        assert(name_well_formed(encode_utf8(first.name)));
        lemma_questions_wire_first(first, others);
        let a = question_wire(first)->Ok_0;
        let b = questions_wire(others)->Ok_0;
        assert((a + b) + rest =~= a + (b + rest));
        lemma_question_round_trip(buf, pos, first, b + rest);
        lemma_questions_round_trip(buf, pos + a.len(), others, rest);
    }
}

/// A list of well-formed records survives encoding and decoding: if its wire
/// form stands at `pos` of a message, followed by `rest`, reading as many
/// records there gives the list and leaves `rest`.
pub proof fn lemma_records_round_trip(
    buf: Seq<u8>,
    pos: int,
    list: Seq<RecordView>,
    rest: Seq<u8>,
)
    requires
        records_well_formed(list),
        0 <= pos <= buf.len(),
        buf.skip(pos) == records_wire(list)->Ok_0 + rest,
    ensures
        records_wire(list) is Ok,
        read_records_at(buf, pos, list.len()) == Ok::<(Seq<RecordView>, int), DnsError>(
            (list, pos + records_wire(list)->Ok_0.len()),
        ),
        buf.skip(pos + records_wire(list)->Ok_0.len()) == rest,
    decreases list.len(),
{
    lemma_records_wire_ok(list);
    if list.len() == 0 {
        assert(Seq::<u8>::empty() + rest =~= rest);
        assert(list =~= Seq::<RecordView>::empty());
    } else {
        let first = list[0];
        let others = list.drop_first();
        assert(list =~= seq![first] + others);
        assert(records_well_formed(others)) by {
            assert forall|i: int| 0 <= i < others.len() implies record_well_formed(
                #[trigger] others[i],
            ) by {
                assert(others[i] == list[i + 1]);
            }
        }
        lemma_records_wire_ok(others);
        assert(record_well_formed(first));
        lemma_records_wire_first(first, others);
        let a = record_wire(first)->Ok_0;
        let b = records_wire(others)->Ok_0;
        assert((a + b) + rest =~= a + (b + rest));
        lemma_record_round_trip(buf, pos, first, b + rest);
        lemma_records_round_trip(buf, pos + a.len(), others, rest);
    }
}

/// A message laid out piece by piece, seen from its start.
proof fn lemma_message_pieces(h: Seq<u8>, q: Seq<u8>, a: Seq<u8>, n: Seq<u8>, x: Seq<u8>)
    ensures
        (h + q + a + n + x).skip(0) == h + (q + (a + (n + (x + Seq::<u8>::empty())))),
{
    assert((h + q + a + n + x).skip(0) =~= h + (q + (a + (n + (x + Seq::<u8>::empty())))));
}

/// Every well-formed message survives encoding and decoding: it can be
/// encoded, and decoding what was encoded gives the same header, questions
/// and records.
pub proof fn lemma_message_round_trip(m: PacketView)
    requires
        packet_well_formed(m),
    ensures
        message_wire(m) is Ok,
        parse_message(message_wire(m)->Ok_0) == Ok::<PacketView, DnsError>(m),
{
    lemma_questions_wire_ok(m.questions);
    lemma_records_wire_ok(m.answers);
    lemma_records_wire_ok(m.authorities);
    lemma_records_wire_ok(m.additionals);
    let h = header_wire(m.header);
    let q = questions_wire(m.questions)->Ok_0;
    let a = records_wire(m.answers)->Ok_0;
    let n = records_wire(m.authorities)->Ok_0;
    let x = records_wire(m.additionals)->Ok_0;
    let buf = h + q + a + n + x;
    let none = Seq::<u8>::empty();
    assert(header_for(m) == m.header);
    assert(message_wire(m) == Ok::<Seq<u8>, DnsError>(buf));
    lemma_message_pieces(h, q, a, n, x);
    lemma_header_round_trip(buf, 0, m.header, q + (a + (n + (x + none))));
    lemma_questions_round_trip(buf, 12, m.questions, a + (n + (x + none)));
    let after_questions: int = 12int + q.len();
    lemma_records_round_trip(buf, after_questions, m.answers, n + (x + none));
    let after_answers: int = after_questions + a.len();
    lemma_records_round_trip(buf, after_answers, m.authorities, x + none);
    let after_authorities: int = after_answers + n.len();
    lemma_records_round_trip(buf, after_authorities, m.additionals, none);
    assert(read_header_at(buf, 0) == Ok::<(DNSHeader, int), DnsError>((m.header, 12)));
    assert(read_questions_at(buf, 12, m.header.num_questions as nat) == Ok::<
        (Seq<QuestionView>, int),
        DnsError,
    >((m.questions, after_questions)));
    assert(read_records_at(buf, after_questions, m.header.num_answers as nat) == Ok::<
        (Seq<RecordView>, int),
        DnsError,
    >((m.answers, after_answers)));
    assert(read_records_at(buf, after_answers, m.header.num_authorities as nat) == Ok::<
        (Seq<RecordView>, int),
        DnsError,
    >((m.authorities, after_authorities)));
    assert(read_records_at(buf, after_authorities, m.header.num_additionals as nat) is Ok);
}

} // verus!
