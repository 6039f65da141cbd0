use implement_dns::header::{DNS_HEADER_SIZE, FLAG_TRUNCATED};
use implement_dns::wire::{u16_from_be, u16_to_be, u32_from_be, u32_to_be};
use implement_dns::{
    ipv4_addr_from_bytes, ipv6_addr_from_bytes, ClassField, DNSHeader, DnsError, Ipv4Address,
    Reader, Stage, TypeField,
};

const ALL_TYPES: [(TypeField, u16); 17] = [
    (TypeField::A, 1),
    (TypeField::NS, 2),
    (TypeField::MD, 3),
    (TypeField::MF, 4),
    (TypeField::CNAME, 5),
    (TypeField::SOA, 6),
    (TypeField::MB, 7),
    (TypeField::MG, 8),
    (TypeField::MR, 9),
    (TypeField::NULL, 10),
    (TypeField::WKS, 11),
    (TypeField::PTR, 12),
    (TypeField::HINFO, 13),
    (TypeField::MINFO, 14),
    (TypeField::MX, 15),
    (TypeField::TXT, 16),
    (TypeField::AAAA, 28),
];

#[test]
fn big_endian_integers() {
    assert_eq!(u16_to_be(0x1234), [0x12, 0x34]);
    assert_eq!(u16_from_be(0x12, 0x34), 0x1234);
    assert_eq!(u16_to_be(0xffff), [0xff, 0xff]);
    assert_eq!(u16_from_be(0xff, 0xff), 0xffff);
    assert_eq!(u32_to_be(0x0000529b), [0x00, 0x00, 0x52, 0x9b]);
    assert_eq!(u32_to_be(0xdeadbeef), [0xde, 0xad, 0xbe, 0xef]);
    assert_eq!(u32_from_be(0xde, 0xad, 0xbe, 0xef), 0xdeadbeef);
    assert_eq!(u32_from_be(0xff, 0xff, 0xff, 0xff), u32::MAX);
}

#[test]
fn every_type_has_its_code() {
    for (type_field, code) in ALL_TYPES {
        assert_eq!(type_field.code(), code);
        assert_eq!(type_field.to_be_bytes(), [0, code as u8]);
        assert_eq!(TypeField::from_code(code), Ok(type_field));
        assert_eq!(TypeField::from_bytes(&[0, code as u8]), Ok(type_field));
    }
}

#[test]
fn unknown_type_codes_are_unsupported() {
    for code in [0u16, 17, 27, 29, 99, 255, 256, 257, 65535] {
        assert_eq!(TypeField::from_code(code), Err(DnsError::UnsupportedField));
        assert_eq!(
            TypeField::from_bytes(&code.to_be_bytes()),
            Err(DnsError::UnsupportedField)
        );
    }
}

#[test]
fn a_type_takes_exactly_two_octets() {
    assert_eq!(TypeField::from_bytes(&[]), Err(DnsError::InvalidFormat));
    assert_eq!(TypeField::from_bytes(&[1]), Err(DnsError::InvalidFormat));
    assert_eq!(TypeField::from_bytes(&[0, 1, 0]), Err(DnsError::InvalidFormat));
}

#[test]
fn a_type_is_read_from_a_reader() {
    let bytes = [0xaa, 0x00, 0x1c, 0xbb];
    let mut reader = Reader::new(&bytes);
    reader.set_position(1);
    assert_eq!(TypeField::from_reader(&mut reader), Ok(TypeField::AAAA));
    assert_eq!(reader.position(), 3);
    assert_eq!(TypeField::from_reader(&mut reader), Err(DnsError::TruncatedInput));
    assert_eq!(reader.position(), 3);
}

#[test]
fn an_unknown_type_leaves_the_reader_in_place() {
    let bytes = [0x00, 0x63];
    let mut reader = Reader::new(&bytes);
    assert_eq!(TypeField::from_reader(&mut reader), Err(DnsError::UnsupportedField));
    assert_eq!(reader.position(), 0);
}

#[test]
fn every_class_has_its_code() {
    for (class, code) in
        [(ClassField::IN, 1u16), (ClassField::CS, 2), (ClassField::CH, 3), (ClassField::HS, 4)]
    {
        assert_eq!(class.code(), code);
        assert_eq!(class.to_be_bytes(), [0, code as u8]);
        assert_eq!(ClassField::from_code(code), Ok(class));
        assert_eq!(ClassField::from_bytes(&[0, code as u8]), Ok(class));
    }
}

#[test]
fn unknown_class_codes_are_unsupported() {
    for code in [0u16, 5, 255, 256, 65535] {
        assert_eq!(ClassField::from_code(code), Err(DnsError::UnsupportedField));
        assert_eq!(
            ClassField::from_bytes(&code.to_be_bytes()),
            Err(DnsError::UnsupportedField)
        );
    }
    assert_eq!(ClassField::from_bytes(&[1]), Err(DnsError::InvalidFormat));
}

#[test]
fn a_class_is_read_from_a_reader() {
    let bytes = [0x00, 0x01, 0x00, 0x09];
    let mut reader = Reader::new(&bytes);
    assert_eq!(ClassField::from_reader(&mut reader), Ok(ClassField::IN));
    assert_eq!(reader.position(), 2);
    assert_eq!(ClassField::from_reader(&mut reader), Err(DnsError::UnsupportedField));
    assert_eq!(reader.position(), 2);
    reader.set_position(3);
    assert_eq!(ClassField::from_reader(&mut reader), Err(DnsError::TruncatedInput));
    assert_eq!(reader.position(), 3);
}

fn sample_header() -> DNSHeader {
    DNSHeader {
        id: 0x6056,
        flags: 0x8180,
        num_questions: 1,
        num_answers: 2,
        num_authorities: 0x0304,
        num_additionals: 0xffff,
    }
}

#[test]
fn a_header_is_twelve_octets_in_fixed_order() {
    assert_eq!(DNS_HEADER_SIZE, 12);
    assert_eq!(
        sample_header().to_bytes(),
        vec![0x60, 0x56, 0x81, 0x80, 0x00, 0x01, 0x00, 0x02, 0x03, 0x04, 0xff, 0xff]
    );
}

#[test]
fn a_header_survives_encoding_and_decoding() {
    let header = sample_header();
    assert_eq!(DNSHeader::from_bytes(&header.to_bytes()), Ok(header));
}

#[test]
fn a_header_is_decoded_from_the_first_twelve_octets() {
    let mut bytes = sample_header().to_bytes();
    bytes.extend_from_slice(&[1, 2, 3]);
    assert_eq!(DNSHeader::from_bytes(&bytes), Ok(sample_header()));
}

#[test]
fn a_short_header_is_truncated() {
    let bytes = sample_header().to_bytes();
    assert_eq!(DNSHeader::from_bytes(&bytes[..11]), Err(DnsError::TruncatedInput));
    assert_eq!(DNSHeader::from_bytes(&[]), Err(DnsError::TruncatedInput));
    let mut reader = Reader::new(&bytes);
    reader.set_position(1);
    assert_eq!(DNSHeader::from_reader(&mut reader), Err(DnsError::TruncatedInput));
    assert_eq!(reader.position(), 1);
}

#[test]
fn a_header_is_read_from_a_reader() {
    let mut bytes = vec![0xaa];
    bytes.extend_from_slice(&sample_header().to_bytes());
    let mut reader = Reader::new(&bytes);
    reader.set_position(1);
    assert_eq!(DNSHeader::from_reader(&mut reader), Ok(sample_header()));
    assert_eq!(reader.position(), 13);
}

#[test]
fn the_truncation_flag_is_bit_nine() {
    assert_eq!(FLAG_TRUNCATED, 0x0200);
    let mut header = sample_header();
    assert!(!header.is_truncated());
    header.flags = 0x8380;
    assert!(header.is_truncated());
    header.flags = 0x0200;
    assert!(header.is_truncated());
    header.flags = 0xfdff;
    assert!(!header.is_truncated());
}

#[test]
fn a_reader_reads_and_stays_on_failure() {
    let bytes = [1u8, 2, 3, 4, 5, 6, 7];
    let mut reader = Reader::new(&bytes);
    assert_eq!(reader.get_ref(), &bytes);
    assert_eq!(reader.remaining(), 7);
    assert_eq!(reader.read_u8(), Ok(1));
    assert_eq!(reader.read_u16(), Ok(0x0203));
    assert_eq!(reader.read_u32(), Ok(0x04050607));
    assert_eq!(reader.position(), 7);
    assert_eq!(reader.remaining(), 0);
    assert_eq!(reader.read_u8(), Err(DnsError::TruncatedInput));
    assert_eq!(reader.read_exact(0), Ok(vec![]));
    reader.set_position(5);
    assert_eq!(reader.read_u32(), Err(DnsError::TruncatedInput));
    assert_eq!(reader.read_exact(3), Err(DnsError::TruncatedInput));
    assert_eq!(reader.position(), 5);
    assert_eq!(reader.read_exact(2), Ok(vec![6, 7]));
    reader.set_position(6);
    assert_eq!(reader.read_u16(), Err(DnsError::TruncatedInput));
    assert_eq!(reader.position(), 6);
    reader.set_position(100);
    assert_eq!(reader.remaining(), 0);
    assert_eq!(reader.read_exact(0), Err(DnsError::TruncatedInput));
    assert_eq!(reader.read_u8(), Err(DnsError::TruncatedInput));
    assert_eq!(reader.position(), 100);
}

#[test]
fn an_ipv4_address_is_its_first_four_octets() {
    let address = ipv4_addr_from_bytes(&[93, 184, 216, 34]);
    assert_eq!(address.octets(), [93, 184, 216, 34]);
    assert_eq!(address, Ipv4Address::new(93, 184, 216, 34));
    assert!(address.same(&Ipv4Address::new(93, 184, 216, 34)));
    assert!(!address.same(&Ipv4Address::new(93, 184, 216, 35)));
    assert_eq!(ipv4_addr_from_bytes(&[1, 2, 3, 4, 5]).octets(), [1, 2, 3, 4]);
}

#[test]
fn an_ipv6_address_is_eight_big_endian_groups() {
    let chunk = [
        0x26, 0x06, 0x28, 0x00, 0x02, 0x20, 0x00, 0x01, 0x02, 0x48, 0x18, 0x93, 0x25, 0xc8, 0x19,
        0x46,
    ];
    let address = ipv6_addr_from_bytes(&chunk);
    assert_eq!(
        address.segments(),
        [0x2606, 0x2800, 0x0220, 0x0001, 0x0248, 0x1893, 0x25c8, 0x1946]
    );
}

#[test]
fn only_transport_errors_are_transient() {
    assert!(DnsError::NetworkError.is_transient());
    assert!(DnsError::Timeout.is_transient());
    for e in [
        DnsError::TruncatedInput,
        DnsError::InvalidFormat,
        DnsError::UnsupportedField,
        DnsError::Truncated,
        DnsError::NoAnswer,
        DnsError::TooManyRedirections,
    ] {
        assert!(!e.is_transient());
    }
}

#[test]
fn every_error_has_its_stage() {
    assert_eq!(DnsError::TruncatedInput.stage(), Stage::Codec);
    assert_eq!(DnsError::InvalidFormat.stage(), Stage::Codec);
    assert_eq!(DnsError::UnsupportedField.stage(), Stage::Codec);
    assert_eq!(DnsError::NetworkError.stage(), Stage::Transport);
    assert_eq!(DnsError::Timeout.stage(), Stage::Transport);
    assert_eq!(DnsError::Truncated.stage(), Stage::Referral);
    assert_eq!(DnsError::NoAnswer.stage(), Stage::Referral);
    assert_eq!(DnsError::TooManyRedirections.stage(), Stage::Referral);
}
