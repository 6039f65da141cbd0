use implement_dns::{DnsError, DomainName, Reader};

fn wire_of(name: &str) -> Result<Vec<u8>, DnsError> {
    DomainName::from(name).to_bytes()
}

fn name_at(bytes: &[u8], position: usize) -> (Result<String, DnsError>, usize) {
    let mut reader = Reader::new(bytes);
    reader.set_position(position);
    let name = DomainName::from_reader(&mut reader).map(|name| name.string);
    (name, reader.position())
}

const WWW_EXAMPLE_COM: [u8; 17] = [
    0x03, 0x77, 0x77, 0x77, 0x07, 0x65, 0x78, 0x61, 0x6d, 0x70, 0x6c, 0x65, 0x03, 0x63, 0x6f, 0x6d,
    0x00,
];

#[test]
fn from_keeps_the_text() {
    assert_eq!(DomainName::from("www.example.com").string, "www.example.com");
    assert_eq!(DomainName::from("").string, "");
}

#[test]
fn clone_keeps_the_text() {
    let name = DomainName::from("example.com");
    assert_eq!(name.clone().string, "example.com");
    assert!(name.same(&name.clone()));
    assert!(!name.same(&DomainName::from("example.org")));
}

#[test]
fn encodes_www_example_com() {
    assert_eq!(wire_of("www.example.com").unwrap(), WWW_EXAMPLE_COM.to_vec());
}

#[test]
fn decodes_www_example_com() {
    let (name, next) = name_at(&WWW_EXAMPLE_COM, 0);
    assert_eq!(name.unwrap(), "www.example.com");
    assert_eq!(next, 17);
}

#[test]
fn encodes_a_single_label() {
    assert_eq!(wire_of("com").unwrap(), vec![3, b'c', b'o', b'm', 0]);
}

#[test]
fn rejects_the_empty_name() {
    assert_eq!(wire_of("").unwrap_err(), DnsError::InvalidFormat);
}

#[test]
fn rejects_a_leading_dot() {
    assert_eq!(wire_of(".example.com").unwrap_err(), DnsError::InvalidFormat);
    assert_eq!(wire_of(".").unwrap_err(), DnsError::InvalidFormat);
}

#[test]
fn rejects_a_trailing_dot() {
    assert_eq!(wire_of("example.com.").unwrap_err(), DnsError::InvalidFormat);
}

#[test]
fn skips_an_empty_label_between_dots() {
    assert_eq!(wire_of("a..b").unwrap(), vec![1, b'a', 1, b'b', 0]);
}

#[test]
fn takes_a_label_of_63_octets() {
    let label = "a".repeat(63);
    let wire = wire_of(&label).unwrap();
    assert_eq!(wire.len(), 65);
    assert_eq!(wire[0], 63);
    assert_eq!(wire[64], 0);
    let (name, next) = name_at(&wire, 0);
    assert_eq!(name.unwrap(), label);
    assert_eq!(next, 65);
}

#[test]
fn rejects_a_label_of_64_octets() {
    let label = "a".repeat(64);
    assert_eq!(wire_of(&label).unwrap_err(), DnsError::InvalidFormat);
    let name = format!("www.{}.com", label);
    assert_eq!(wire_of(&name).unwrap_err(), DnsError::InvalidFormat);
}

#[test]
fn takes_a_name_of_255_octets_on_the_wire() {
    // Three labels of 63 octets and one of 61: 4 length octets, 250 label
    // octets and the closing zero.
    let name = format!("{}.{}.{}.{}", "a".repeat(63), "b".repeat(63), "c".repeat(63), "d".repeat(61));
    let wire = wire_of(&name).unwrap();
    assert_eq!(wire.len(), 255);
    let (decoded, next) = name_at(&wire, 0);
    assert_eq!(decoded.unwrap(), name);
    assert_eq!(next, 255);
}

#[test]
fn rejects_a_name_of_256_octets_on_the_wire() {
    let name = format!("{}.{}.{}.{}", "a".repeat(63), "b".repeat(63), "c".repeat(63), "d".repeat(62));
    assert_eq!(wire_of(&name).unwrap_err(), DnsError::InvalidFormat);
}

#[test]
fn decoding_rejects_a_name_of_256_octets_on_the_wire() {
    let mut wire: Vec<u8> = Vec::new();
    for (len, octet) in [(63u8, b'a'), (63, b'b'), (63, b'c'), (62, b'd')] {
        wire.push(len);
        wire.extend(std::iter::repeat(octet).take(len as usize));
    }
    wire.push(0);
    assert_eq!(wire.len(), 256);
    let (decoded, next) = name_at(&wire, 0);
    assert_eq!(decoded.unwrap_err(), DnsError::InvalidFormat);
    assert_eq!(next, 0);
}

#[test]
fn decodes_the_root_name() {
    let (name, next) = name_at(&[0], 0);
    assert_eq!(name.unwrap(), "");
    assert_eq!(next, 1);
}

#[test]
fn decodes_at_an_offset() {
    let mut bytes = vec![0xff, 0xff];
    bytes.extend_from_slice(&WWW_EXAMPLE_COM);
    bytes.push(0xee);
    let (name, next) = name_at(&bytes, 2);
    assert_eq!(name.unwrap(), "www.example.com");
    assert_eq!(next, 19);
}

#[test]
fn follows_a_pointer_and_resumes_behind_it() {
    // "example.com" at 0, then "www" and a pointer to 0 at 13.
    let mut bytes = vec![7, b'e', b'x', b'a', b'm', b'p', b'l', b'e', 3, b'c', b'o', b'm', 0];
    bytes.extend_from_slice(&[3, b'w', b'w', b'w', 0xc0, 0x00, 0xaa]);
    let (name, next) = name_at(&bytes, 13);
    assert_eq!(name.unwrap(), "www.example.com");
    assert_eq!(next, 19);
}

#[test]
fn follows_a_pointer_to_a_pointer() {
    let bytes = vec![3, b'c', b'o', b'm', 0, 0xc0, 0x00, 0xc0, 0x05];
    let (name, next) = name_at(&bytes, 7);
    assert_eq!(name.unwrap(), "com");
    assert_eq!(next, 9);
}

#[test]
fn uses_all_fourteen_bits_of_a_pointer() {
    // The name "a" at offset 0x0123, and a pointer to it behind.
    let mut bytes = vec![0xffu8; 0x0123];
    bytes.extend_from_slice(&[1, b'a', 0, 0xc1, 0x23]);
    let (name, next) = name_at(&bytes, 0x0126);
    assert_eq!(name.unwrap(), "a");
    assert_eq!(next, 0x0128);
}

#[test]
fn rejects_a_pointer_to_itself() {
    let (name, next) = name_at(&[0xc0, 0x00], 0);
    assert_eq!(name.unwrap_err(), DnsError::InvalidFormat);
    assert_eq!(next, 0);
}

#[test]
fn rejects_a_pointer_forward() {
    let bytes = vec![0xc0, 0x02, 1, b'a', 0];
    let (name, next) = name_at(&bytes, 0);
    assert_eq!(name.unwrap_err(), DnsError::InvalidFormat);
    assert_eq!(next, 0);
}

#[test]
fn rejects_a_pointer_to_its_own_position_behind_a_label() {
    // The pointer stands at 2 and points to 2.
    let bytes = vec![1, b'a', 0xc0, 0x02];
    let (name, _) = name_at(&bytes, 0);
    assert_eq!(name.unwrap_err(), DnsError::InvalidFormat);
}

#[test]
fn a_loop_of_backward_pointers_ends_in_an_error() {
    // The label at 0 is followed by a pointer back to 0: each pointer leads
    // backwards, and still the name never ends.
    let bytes = vec![1, b'a', 0xc0, 0x00];
    let (name, next) = name_at(&bytes, 0);
    assert_eq!(name.unwrap_err(), DnsError::InvalidFormat);
    assert_eq!(next, 0);
}

#[test]
fn rejects_reserved_length_bits() {
    let (name, _) = name_at(&[0x40, 0], 0);
    assert_eq!(name.unwrap_err(), DnsError::InvalidFormat);
    let (name, _) = name_at(&[0x80, 0], 0);
    assert_eq!(name.unwrap_err(), DnsError::InvalidFormat);
}

#[test]
fn a_name_cut_short_is_truncated() {
    let (name, next) = name_at(&WWW_EXAMPLE_COM[..16], 0);
    assert_eq!(name.unwrap_err(), DnsError::TruncatedInput);
    assert_eq!(next, 0);
    let (name, _) = name_at(&WWW_EXAMPLE_COM[..6], 0);
    assert_eq!(name.unwrap_err(), DnsError::TruncatedInput);
    let (name, _) = name_at(&[], 0);
    assert_eq!(name.unwrap_err(), DnsError::TruncatedInput);
}

#[test]
fn a_pointer_cut_short_is_truncated() {
    let (name, _) = name_at(&[0, 0xc0], 1);
    assert_eq!(name.unwrap_err(), DnsError::TruncatedInput);
}

#[test]
fn reading_beyond_the_end_is_truncated() {
    let (name, next) = name_at(&WWW_EXAMPLE_COM, 40);
    assert_eq!(name.unwrap_err(), DnsError::TruncatedInput);
    assert_eq!(next, 40);
}

#[test]
fn a_name_that_is_not_utf8_is_malformed() {
    let (name, next) = name_at(&[2, 0xff, 0xfe, 0], 0);
    assert_eq!(name.unwrap_err(), DnsError::InvalidFormat);
    assert_eq!(next, 0);
}

#[test]
fn a_name_of_several_octets_per_character_survives() {
    let text = "b\u{fc}cher.example";
    let wire = wire_of(text).unwrap();
    assert_eq!(wire[0], 7);
    let (name, next) = name_at(&wire, 0);
    assert_eq!(name.unwrap(), text);
    assert_eq!(next, wire.len());
}

#[test]
fn bytes_from_reader_gives_the_dotted_octets() {
    let mut reader = Reader::new(&WWW_EXAMPLE_COM);
    let bytes = DomainName::bytes_from_reader(&mut reader).unwrap();
    assert_eq!(bytes, b"www.example.com".to_vec());
    assert_eq!(reader.position(), 17);
}

#[test]
fn names_survive_encoding_and_decoding() {
    for text in ["a", "example.com", "www.example.com", "a.b.c.d.e.f", "xn--bcher-kva.example"] {
        let wire = wire_of(text).unwrap();
        let (name, next) = name_at(&wire, 0);
        assert_eq!(name.unwrap(), text);
        assert_eq!(next, wire.len());
    }
}
