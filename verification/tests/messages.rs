use implement_dns::{
    build_query, build_query_with_id, Answer, ClassField, DNSHeader, DNSPacket, DNSQuestion,
    DNSRecord, DnsError, DomainName, Ipv4Address, Ipv6Address, Reader, TypeField,
};

fn unhex(text: &str) -> Vec<u8> {
    (0..text.len()).step_by(2).map(|i| u8::from_str_radix(&text[i..i + 2], 16).unwrap()).collect()
}

const RESPONSE: &str = "60568180000100010000000003777777076578616d706c6503636f6d0000010001c00c000100010000529b00045db8d822";

fn plain_record(name: &str, type_field: TypeField, ttl: u32, data: Vec<u8>) -> DNSRecord {
    DNSRecord {
        name: DomainName::from(name),
        type_field,
        class: ClassField::IN,
        ttl,
        data,
        ipv4: None,
        ipv6: None,
        ns_name: None,
    }
}

fn a_record(name: &str, ttl: u32, octets: [u8; 4]) -> DNSRecord {
    let mut record = plain_record(name, TypeField::A, ttl, octets.to_vec());
    record.ipv4 = Some(vec![Ipv4Address { octets }]);
    record
}

fn ns_record(name: &str, ttl: u32, ns_name: &str) -> DNSRecord {
    let data = DomainName::from(ns_name).to_bytes().unwrap();
    let mut record = plain_record(name, TypeField::NS, ttl, data);
    record.ns_name = Some(DomainName::from(ns_name));
    record
}

fn question(name: &str, type_field: TypeField) -> DNSQuestion {
    DNSQuestion { name: DomainName::from(name), type_field, class: ClassField::IN }
}

fn assert_same_record(left: &DNSRecord, right: &DNSRecord) {
    assert_eq!(left.name, right.name);
    assert_eq!(left.type_field, right.type_field);
    assert_eq!(left.class, right.class);
    assert_eq!(left.ttl, right.ttl);
    assert_eq!(left.data, right.data);
    assert_eq!(left.ipv4, right.ipv4);
    assert_eq!(left.ipv6, right.ipv6);
    assert_eq!(left.ns_name, right.ns_name);
}

#[test]
fn decodes_the_fixed_response() {
    let packet = DNSPacket::from(&unhex(RESPONSE)).unwrap();
    assert_eq!(packet.header.id, 0x6056);
    assert_eq!(packet.header.flags, 0x8180);
    assert_eq!(packet.header.num_questions, 1);
    assert_eq!(packet.header.num_answers, 1);
    assert_eq!(packet.header.num_authorities, 0);
    assert_eq!(packet.header.num_additionals, 0);
    assert!(!packet.header.is_truncated());

    assert_eq!(packet.questions.len(), 1);
    assert_eq!(packet.questions[0].name.string, "www.example.com");
    assert_eq!(packet.questions[0].type_field, TypeField::A);
    assert_eq!(packet.questions[0].class, ClassField::IN);

    assert_eq!(packet.answers.len(), 1);
    let answer = &packet.answers[0];
    assert_eq!(answer.name.string, "www.example.com");
    assert_eq!(answer.type_field, TypeField::A);
    assert_eq!(answer.class, ClassField::IN);
    assert_eq!(answer.ttl, 0x529b);
    assert_eq!(answer.data, vec![93, 184, 216, 34]);
    assert_eq!(answer.ipv4, Some(vec![Ipv4Address::new(93, 184, 216, 34)]));
    assert_eq!(answer.ipv6, None);
    assert_eq!(answer.ns_name, None);
    assert!(packet.authorities.is_empty());
    assert!(packet.additionals.is_empty());
}

#[test]
fn the_answer_of_the_fixed_response_is_found() {
    let packet = DNSPacket::from(&unhex(RESPONSE)).unwrap();
    let answer = packet.get_answer().unwrap();
    assert_eq!(answer.first_ipv4(), Some(Ipv4Address::new(93, 184, 216, 34)));
    match answer.value() {
        Answer::Ipv4(address) => assert_eq!(address.octets(), [93, 184, 216, 34]),
        other => panic!("not an address: {:?}", other),
    }
    assert!(packet.find_answer(&DomainName::from("www.example.com"), TypeField::A).is_some());
    assert!(packet.find_answer(&DomainName::from("example.com"), TypeField::A).is_none());
    assert!(packet.find_answer(&DomainName::from("www.example.com"), TypeField::AAAA).is_none());
    assert!(packet.get_nameserver().is_none());
    assert!(packet.get_nameserver_record().is_none());
}

#[test]
fn every_cut_of_the_fixed_response_is_truncated() {
    let bytes = unhex(RESPONSE);
    for len in 0..bytes.len() {
        assert_eq!(DNSPacket::from(&bytes[..len]).unwrap_err(), DnsError::TruncatedInput);
    }
}

#[test]
fn octets_behind_the_message_are_ignored() {
    let mut bytes = unhex(RESPONSE);
    bytes.extend_from_slice(&[0; 100]);
    let packet = DNSPacket::from(&bytes).unwrap();
    assert_eq!(packet.answers.len(), 1);
}

#[test]
fn an_unsupported_record_type_fails_the_message() {
    let mut bytes = unhex(RESPONSE);
    // The type of the answer stands behind the pointer at 33.
    assert_eq!(&bytes[33..37], &[0xc0, 0x0c, 0x00, 0x01]);
    bytes[36] = 99;
    assert_eq!(DNSPacket::from(&bytes).unwrap_err(), DnsError::UnsupportedField);
}

#[test]
fn an_unsupported_record_class_fails_the_message() {
    let mut bytes = unhex(RESPONSE);
    bytes[38] = 9;
    assert_eq!(DNSPacket::from(&bytes).unwrap_err(), DnsError::UnsupportedField);
}

#[test]
fn an_unsupported_question_type_fails_the_message() {
    let mut bytes = unhex(RESPONSE);
    bytes[30] = 99;
    assert_eq!(DNSPacket::from(&bytes).unwrap_err(), DnsError::UnsupportedField);
}

#[test]
fn a_record_of_unsupported_type_fails_alone() {
    let mut bytes = DomainName::from("a").to_bytes().unwrap();
    bytes.extend_from_slice(&[0, 99, 0, 1, 0, 0, 0, 0, 0, 0]);
    let mut reader = Reader::new(&bytes);
    assert_eq!(DNSRecord::from_reader(&mut reader).unwrap_err(), DnsError::UnsupportedField);
    assert_eq!(reader.position(), 0);
}

#[test]
fn a_pointer_that_does_not_lead_backwards_fails_the_message() {
    let mut bytes = unhex(RESPONSE);
    // The answer's name is a pointer at 33; let it point to itself.
    bytes[34] = 33;
    assert_eq!(DNSPacket::from(&bytes).unwrap_err(), DnsError::InvalidFormat);
    bytes[34] = 40;
    assert_eq!(DNSPacket::from(&bytes).unwrap_err(), DnsError::InvalidFormat);
}

#[test]
fn an_address_record_needs_four_octets() {
    let mut record = plain_record("a.example", TypeField::A, 5, vec![1, 2, 3]);
    let bytes = record.to_bytes().unwrap();
    let mut reader = Reader::new(&bytes);
    assert_eq!(DNSRecord::from_reader(&mut reader).unwrap_err(), DnsError::InvalidFormat);
    assert_eq!(reader.position(), 0);
    record.data = vec![1, 2, 3, 4, 5];
    let bytes = record.to_bytes().unwrap();
    let mut reader = Reader::new(&bytes);
    assert_eq!(DNSRecord::from_reader(&mut reader).unwrap_err(), DnsError::InvalidFormat);
}

#[test]
fn an_ipv6_address_record_needs_sixteen_octets() {
    let data: Vec<u8> = (1..=16).collect();
    let record = plain_record("a.example", TypeField::AAAA, 5, data.clone());
    let bytes = record.to_bytes().unwrap();
    let mut reader = Reader::new(&bytes);
    let decoded = DNSRecord::from_reader(&mut reader).unwrap();
    assert_eq!(reader.position(), bytes.len());
    assert_eq!(
        decoded.ipv6,
        Some(vec![Ipv6Address {
            segments: [0x0102, 0x0304, 0x0506, 0x0708, 0x090a, 0x0b0c, 0x0d0e, 0x0f10]
        }])
    );
    assert_eq!(decoded.ipv4, None);
    match decoded.value() {
        Answer::Ipv6(address) => assert_eq!(address.segments()[7], 0x0f10),
        other => panic!("not an address: {:?}", other),
    }

    let short = plain_record("a.example", TypeField::AAAA, 5, data[..15].to_vec());
    let bytes = short.to_bytes().unwrap();
    let mut reader = Reader::new(&bytes);
    assert_eq!(DNSRecord::from_reader(&mut reader).unwrap_err(), DnsError::InvalidFormat);
}

#[test]
fn other_record_types_keep_their_data() {
    for type_field in [TypeField::CNAME, TypeField::MX, TypeField::TXT, TypeField::SOA] {
        let record = plain_record("a.example", type_field, 7, vec![9, 8, 7]);
        let bytes = record.to_bytes().unwrap();
        let mut reader = Reader::new(&bytes);
        let decoded = DNSRecord::from_reader(&mut reader).unwrap();
        assert_same_record(&decoded, &record);
        match decoded.value() {
            Answer::Data(data) => assert_eq!(data, vec![9, 8, 7]),
            other => panic!("not data: {:?}", other),
        }
    }
}

#[test]
fn a_record_is_laid_out_field_by_field() {
    let record = a_record("a.bc", 0x01020304, [10, 11, 12, 13]);
    assert_eq!(
        record.to_bytes().unwrap(),
        vec![
            1, b'a', 2, b'b', b'c', 0, // name
            0, 1, // type
            0, 1, // class
            1, 2, 3, 4, // ttl
            0, 4, // length of the data
            10, 11, 12, 13,
        ]
    );
}

#[test]
fn a_question_is_laid_out_field_by_field() {
    let q = DNSQuestion {
        name: DomainName::from("a.bc"),
        type_field: TypeField::MX,
        class: ClassField::CH,
    };
    assert_eq!(q.to_bytes().unwrap(), vec![1, b'a', 2, b'b', b'c', 0, 0, 15, 0, 3]);
    let copy = q.clone();
    assert_eq!(copy.name, q.name);
    assert_eq!(copy.type_field, TypeField::MX);
    assert_eq!(copy.class, ClassField::CH);
}

#[test]
fn a_question_with_a_bad_name_cannot_be_encoded() {
    assert_eq!(question("", TypeField::A).to_bytes().unwrap_err(), DnsError::InvalidFormat);
    assert_eq!(
        plain_record("a.", TypeField::TXT, 0, vec![]).to_bytes().unwrap_err(),
        DnsError::InvalidFormat
    );
}

#[test]
fn a_question_is_read_from_a_reader() {
    let bytes = question("www.example.com", TypeField::NS).to_bytes().unwrap();
    let mut reader = Reader::new(&bytes);
    let q = DNSQuestion::from_reader(&mut reader).unwrap();
    assert_eq!(q.name.string, "www.example.com");
    assert_eq!(q.type_field, TypeField::NS);
    assert_eq!(q.class, ClassField::IN);
    assert_eq!(reader.position(), bytes.len());

    let mut reader = Reader::new(&bytes[..bytes.len() - 1]);
    assert_eq!(DNSQuestion::from_reader(&mut reader).unwrap_err(), DnsError::TruncatedInput);
    assert_eq!(reader.position(), 0);
}

#[test]
fn data_longer_than_a_length_can_say_cannot_be_encoded() {
    let record = plain_record("a", TypeField::TXT, 0, vec![0; 65536]);
    assert_eq!(record.to_bytes().unwrap_err(), DnsError::InvalidFormat);
    let record = plain_record("a", TypeField::TXT, 0, vec![0; 65535]);
    let bytes = record.to_bytes().unwrap();
    assert_eq!(bytes.len(), 3 + 10 + 65535);
    let mut reader = Reader::new(&bytes);
    let decoded = DNSRecord::from_reader(&mut reader).unwrap();
    assert_eq!(decoded.data.len(), 65535);
}

#[test]
fn record_data_cut_short_is_truncated() {
    let bytes = a_record("a", 1, [1, 2, 3, 4]).to_bytes().unwrap();
    for len in 0..bytes.len() {
        let mut reader = Reader::new(&bytes[..len]);
        assert_eq!(DNSRecord::from_reader(&mut reader).unwrap_err(), DnsError::TruncatedInput);
        assert_eq!(reader.position(), 0);
    }
}

#[test]
fn the_reader_stands_behind_the_data_of_a_name_server_record() {
    // The data hold the name of the name server and two more octets.
    let mut record = ns_record("example.com", 9, "ns.example.com");
    record.data.extend_from_slice(&[0xaa, 0xbb]);
    let mut bytes = record.to_bytes().unwrap();
    bytes.push(0xcc);
    let mut reader = Reader::new(&bytes);
    let decoded = DNSRecord::from_reader(&mut reader).unwrap();
    assert_eq!(reader.position(), bytes.len() - 1);
    assert_same_record(&decoded, &record);
    match decoded.value() {
        Answer::Name(name) => assert_eq!(name.string, "ns.example.com"),
        other => panic!("not a name: {:?}", other),
    }
}

#[test]
fn a_name_server_may_be_compressed_against_the_whole_message() {
    // A response with one question and one authority record whose data are
    // "ns" and a pointer to the name of the question at offset 12.
    let header = DNSHeader {
        id: 1,
        flags: 0x8000,
        num_questions: 1,
        num_answers: 0,
        num_authorities: 1,
        num_additionals: 0,
    };
    let mut bytes = header.to_bytes();
    bytes.extend_from_slice(&question("example.com", TypeField::A).to_bytes().unwrap());
    bytes.extend_from_slice(&[0xc0, 12, 0, 2, 0, 1, 0, 0, 0, 60, 0, 5, 2, b'n', b's', 0xc0, 12]);
    let packet = DNSPacket::from(&bytes).unwrap();
    let record = packet.get_nameserver().unwrap();
    assert_eq!(record.name.string, "example.com");
    assert_eq!(record.data, vec![2, b'n', b's', 0xc0, 12]);
    assert_eq!(record.ns_name, Some(DomainName::from("ns.example.com")));
}

fn sample_packet() -> DNSPacket {
    DNSPacket {
        header: DNSHeader {
            id: 0xbeef,
            flags: 0x8400,
            num_questions: 2,
            num_answers: 3,
            num_authorities: 1,
            num_additionals: 2,
        },
        questions: vec![question("www.example.com", TypeField::A), question("example.com", TypeField::MX)],
        answers: vec![
            a_record("www.example.com", 300, [93, 184, 216, 34]),
            plain_record("www.example.com", TypeField::TXT, 30, b"\x05hello".to_vec()),
            {
                let data: Vec<u8> = (0..16).collect();
                let mut record = plain_record("www.example.com", TypeField::AAAA, 1, data);
                record.ipv6 = Some(vec![Ipv6Address {
                    segments: [0x0001, 0x0203, 0x0405, 0x0607, 0x0809, 0x0a0b, 0x0c0d, 0x0e0f],
                }]);
                record
            },
        ],
        authorities: vec![ns_record("example.com", 86400, "a.iana-servers.net")],
        additionals: vec![
            a_record("a.iana-servers.net", 1800, [199, 43, 135, 53]),
            plain_record("example.com", TypeField::SOA, 0, vec![]),
        ],
    }
}

#[test]
fn a_message_survives_encoding_and_decoding() {
    let packet = sample_packet();
    let bytes = packet.to_bytes().unwrap();
    let decoded = DNSPacket::from(&bytes).unwrap();
    assert_eq!(decoded.header, packet.header);
    assert_eq!(decoded.questions.len(), 2);
    for (left, right) in decoded.questions.iter().zip(packet.questions.iter()) {
        assert_eq!(left.name, right.name);
        assert_eq!(left.type_field, right.type_field);
        assert_eq!(left.class, right.class);
    }
    assert_eq!(decoded.answers.len(), 3);
    for (left, right) in decoded.answers.iter().zip(packet.answers.iter()) {
        assert_same_record(left, right);
    }
    assert_eq!(decoded.authorities.len(), 1);
    assert_same_record(&decoded.authorities[0], &packet.authorities[0]);
    assert_eq!(decoded.additionals.len(), 2);
    for (left, right) in decoded.additionals.iter().zip(packet.additionals.iter()) {
        assert_same_record(left, right);
    }
    assert_eq!(decoded.to_bytes().unwrap(), bytes);
}

#[test]
fn the_counts_on_the_wire_come_from_the_lists() {
    let mut packet = sample_packet();
    packet.header.num_questions = 7;
    packet.header.num_answers = 0;
    packet.header.num_authorities = 9;
    packet.header.num_additionals = 65535;
    let bytes = packet.to_bytes().unwrap();
    assert_eq!(&bytes[..12], &[0xbe, 0xef, 0x84, 0x00, 0, 2, 0, 3, 0, 1, 0, 2]);
    let decoded = DNSPacket::from(&bytes).unwrap();
    assert_eq!(decoded.header.num_questions, 2);
    assert_eq!(decoded.header.num_answers, 3);
    assert_eq!(decoded.header.num_authorities, 1);
    assert_eq!(decoded.header.num_additionals, 2);
}

#[test]
fn a_message_with_a_bad_entry_cannot_be_encoded() {
    let mut packet = sample_packet();
    packet.additionals[1].name = DomainName::from("bad.");
    assert_eq!(packet.to_bytes().unwrap_err(), DnsError::InvalidFormat);
    let mut packet = sample_packet();
    packet.questions[0].name = DomainName::from("");
    assert_eq!(packet.to_bytes().unwrap_err(), DnsError::InvalidFormat);
}

#[test]
fn the_getters_find_the_first_record_of_their_type() {
    let mut packet = sample_packet();
    packet.answers.insert(0, plain_record("www.example.com", TypeField::CNAME, 1, vec![0]));
    packet.answers.push(a_record("www.example.com", 1, [1, 1, 1, 1]));
    assert_eq!(packet.get_answer().unwrap().data, vec![93, 184, 216, 34]);
    assert_eq!(packet.get_nameserver_record().unwrap().data, vec![199, 43, 135, 53]);
    assert_eq!(
        packet.get_nameserver().unwrap().ns_name,
        Some(DomainName::from("a.iana-servers.net"))
    );
    let found = packet.find_answer(&DomainName::from("www.example.com"), TypeField::TXT).unwrap();
    assert_eq!(found.data, b"\x05hello".to_vec());
    packet.answers.clear();
    packet.authorities.clear();
    packet.additionals.remove(0);
    assert!(packet.get_answer().is_none());
    assert!(packet.get_nameserver().is_none());
    assert!(packet.get_nameserver_record().is_none());
}

#[test]
fn a_query_is_a_header_and_one_question() {
    let query = build_query_with_id(0x1234, &DomainName::from("www.example.com"), TypeField::A);
    assert_eq!(
        query.unwrap(),
        unhex("12340000000100000000000003777777076578616d706c6503636f6d0000010001")
    );
}

#[test]
fn a_query_decodes_to_what_was_asked() {
    let query = build_query(&DomainName::from("example.org"), TypeField::AAAA).unwrap();
    let packet = DNSPacket::from(&query).unwrap();
    assert_eq!(packet.header.flags, 0);
    assert_eq!(packet.header.num_questions, 1);
    assert_eq!(packet.header.num_answers, 0);
    assert_eq!(packet.header.num_authorities, 0);
    assert_eq!(packet.header.num_additionals, 0);
    assert_eq!(packet.questions.len(), 1);
    assert_eq!(packet.questions[0].name.string, "example.org");
    assert_eq!(packet.questions[0].type_field, TypeField::AAAA);
    assert_eq!(packet.questions[0].class, ClassField::IN);
    // All but the id is fixed.
    let fixed = build_query_with_id(0, &DomainName::from("example.org"), TypeField::AAAA).unwrap();
    assert_eq!(query[2..], fixed[2..]);
}

#[test]
fn a_query_for_a_bad_name_cannot_be_built() {
    assert_eq!(
        build_query(&DomainName::from("example..org."), TypeField::A).unwrap_err(),
        DnsError::InvalidFormat
    );
    assert_eq!(
        build_query_with_id(7, &DomainName::from(""), TypeField::A).unwrap_err(),
        DnsError::InvalidFormat
    );
}
