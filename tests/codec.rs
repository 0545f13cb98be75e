use hickory_proto::error::ProtoErrorKind;
use hickory_proto::message::{decode, encode, Header, Message, Question, RData, Record};
use hickory_proto::name::{decode_name, names_equal_ci, Name};

fn name(labels: &[&str]) -> Name {
    Name::from_labels(labels.iter().map(|l| l.as_bytes().to_vec()).collect()).unwrap()
}

fn header(id: u16) -> Header {
    Header {
        id,
        is_response: false,
        op_code: 0,
        authoritative: false,
        truncated: false,
        recursion_desired: true,
        recursion_available: false,
        response_code: 0,
    }
}

fn question(n: Name) -> Question {
    Question { name: n, query_type: 1, query_class: 1 }
}

fn label_strings(n: &Name) -> Vec<Vec<u8>> {
    n.labels().clone()
}

#[test]
fn round_trip_keeps_every_section() {
    let m = Message {
        header: Header {
            id: 0xbeef,
            is_response: true,
            op_code: 2,
            authoritative: true,
            truncated: false,
            recursion_desired: true,
            recursion_available: true,
            response_code: 3,
        },
        queries: vec![question(name(&["www", "example", "com"]))],
        answers: vec![Record {
            name: name(&["www", "example", "com"]),
            rr_type: 1,
            dns_class: 1,
            ttl: 3600,
            rdata: RData::A(0xc0000201),
        }],
        name_servers: vec![Record {
            name: name(&["example", "com"]),
            rr_type: 65280,
            dns_class: 1,
            ttl: 7,
            rdata: RData::Opaque(vec![1, 2, 3, 0, 255]),
        }],
        additionals: vec![Record {
            name: Name::root(),
            rr_type: 41,
            dns_class: 4096,
            ttl: 0,
            rdata: RData::Opaque(vec![]),
        }],
    };
    let bytes = encode(&m);
    let d = decode(&bytes).unwrap();
    assert_eq!(d.header, m.header);
    assert_eq!(d.queries.len(), 1);
    assert_eq!(label_strings(&d.queries[0].name), label_strings(&m.queries[0].name));
    assert_eq!(d.queries[0].query_type, 1);
    assert_eq!(d.answers.len(), 1);
    assert_eq!(label_strings(&d.answers[0].name), label_strings(&m.answers[0].name));
    assert_eq!(d.answers[0].ttl, 3600);
    assert!(matches!(d.answers[0].rdata, RData::A(0xc0000201)));
    assert_eq!(d.name_servers.len(), 1);
    assert_eq!(d.name_servers[0].rr_type, 65280);
    match &d.name_servers[0].rdata {
        RData::Opaque(b) => assert_eq!(b, &vec![1, 2, 3, 0, 255]),
        _ => panic!("opaque payload expected"),
    }
    assert_eq!(d.additionals.len(), 1);
    assert_eq!(d.additionals[0].dns_class, 4096);
    assert!(d.additionals[0].name.labels().is_empty());
}

#[test]
fn header_flags_are_bit_exact() {
    let m = Message {
        header: Header {
            id: 0x1234,
            is_response: true,
            op_code: 2,
            authoritative: false,
            truncated: true,
            recursion_desired: true,
            recursion_available: false,
            response_code: 3,
        },
        queries: vec![],
        answers: vec![],
        name_servers: vec![],
        additionals: vec![],
    };
    let bytes = encode(&m);
    assert_eq!(bytes, vec![0x12, 0x34, 0x93, 0x03, 0, 0, 0, 0, 0, 0, 0, 0]);
}

#[test]
fn repeated_name_is_compressed() {
    let n = name(&["www", "example", "com"]);
    let m = Message {
        header: header(7),
        queries: vec![question(n.clone())],
        answers: vec![Record { name: n.clone(), rr_type: 1, dns_class: 1, ttl: 60, rdata: RData::A(1) }],
        name_servers: vec![],
        additionals: vec![],
    };
    let bytes = encode(&m);
    // header 12, question 17 + 4, answer as a 2-byte pointer + 10 + 4
    assert_eq!(bytes.len(), 49);
    assert!(bytes.len() < 12 + 17 + 4 + 17 + 10 + 4);
    assert_eq!(&bytes[33..35], &[0xc0, 12]);
    let d = decode(&bytes).unwrap();
    assert_eq!(label_strings(&d.queries[0].name), label_strings(&d.answers[0].name));
    assert_eq!(label_strings(&d.answers[0].name), label_strings(&n));
}

fn header_bytes(qd: u16, an: u16) -> Vec<u8> {
    vec![0, 1, 0, 0, (qd >> 8) as u8, qd as u8, (an >> 8) as u8, an as u8, 0, 0, 0, 0]
}

#[test]
fn pointer_to_itself_is_rejected() {
    let mut b = header_bytes(1, 0);
    b.extend_from_slice(&[0xc0, 12, 0, 1, 0, 1]);
    assert!(matches!(decode(&b), Err(ProtoErrorKind::MessageFormat)));
}

#[test]
fn forward_pointer_is_rejected() {
    let mut b = header_bytes(1, 0);
    b.extend_from_slice(&[0xc0, 14, 3, b'w', b'w', b'w', 0, 0, 1, 0, 1]);
    assert!(matches!(decode(&b), Err(ProtoErrorKind::MessageFormat)));
}

#[test]
fn pointer_cycle_between_two_names_is_rejected() {
    let mut b = vec![1, b'a', 0xc0, 3, 1, b'b', 0xc0, 0];
    b.push(0);
    assert!(matches!(decode_name(&b, 0), Err(ProtoErrorKind::MessageFormat)));
    assert!(matches!(decode_name(&b, 4), Err(ProtoErrorKind::MessageFormat)));
}

#[test]
fn backward_pointer_is_followed() {
    let b = vec![3, b'c', b'o', b'm', 0, 7, b'e', b'x', b'a', b'm', b'p', b'l', b'e', 0xc0, 0];
    let (n, end) = decode_name(&b, 5).unwrap();
    assert_eq!(end, 15);
    assert_eq!(label_strings(&n), vec![b"example".to_vec(), b"com".to_vec()]);
}

#[test]
fn short_header_is_truncated() {
    assert!(matches!(decode(&[0, 1, 0, 0, 0]), Err(ProtoErrorKind::Truncated)));
}

#[test]
fn missing_records_are_truncated() {
    let b = header_bytes(0, 2);
    assert!(matches!(decode(&b), Err(ProtoErrorKind::Truncated)));
}

#[test]
fn payload_past_the_end_is_message_format() {
    let mut b = header_bytes(0, 1);
    b.extend_from_slice(&[0, 0, 5, 0, 1, 0, 0, 0, 9, 0, 8, 1, 2]);
    assert!(matches!(decode(&b), Err(ProtoErrorKind::MessageFormat)));
}

#[test]
fn address_record_of_wrong_length_is_message_format() {
    let mut b = header_bytes(0, 1);
    b.extend_from_slice(&[0, 0, 1, 0, 1, 0, 0, 0, 9, 0, 3, 1, 2, 3]);
    assert!(matches!(decode(&b), Err(ProtoErrorKind::MessageFormat)));
}

#[test]
fn reserved_label_type_is_message_format() {
    assert!(matches!(decode_name(&[0x40, 0], 0), Err(ProtoErrorKind::MessageFormat)));
}

#[test]
fn label_limits_are_enforced() {
    assert!(matches!(Name::from_labels(vec![vec![b'a'; 64]]), Err(ProtoErrorKind::MessageFormat)));
    assert!(matches!(Name::from_labels(vec![vec![]]), Err(ProtoErrorKind::MessageFormat)));
    assert!(Name::from_labels(vec![vec![b'a'; 63]]).is_ok());
    // four labels of 63 bytes take 4 * 64 + 1 = 257 bytes on the wire
    assert!(matches!(Name::from_labels(vec![vec![b'a'; 63]; 4]), Err(ProtoErrorKind::MessageFormat)));
    // 3 * 64 + 62 + 1 = 255 bytes is the largest allowed
    let mut ok = vec![vec![b'a'; 63]; 3];
    ok.push(vec![b'a'; 61]);
    assert!(Name::from_labels(ok).is_ok());
}

#[test]
fn overlong_name_on_the_wire_is_rejected() {
    let mut b = Vec::new();
    for _ in 0..4 {
        b.push(63u8);
        b.extend_from_slice(&[b'x'; 63]);
    }
    b.push(0);
    assert!(matches!(decode_name(&b, 0), Err(ProtoErrorKind::MessageFormat)));
}

#[test]
fn names_compare_without_case() {
    let a = name(&["WWW", "Example", "com"]);
    let b = name(&["www", "example", "COM"]);
    let c = name(&["www", "example", "org"]);
    assert!(names_equal_ci(&a, &b));
    assert!(!names_equal_ci(&a, &c));
}

#[test]
fn validity_checks_follow_the_writing_rules() {
    let good = Message {
        header: header(1),
        queries: vec![question(name(&["a"]))],
        answers: vec![Record { name: name(&["a"]), rr_type: 1, dns_class: 1, ttl: 1, rdata: RData::A(1) }],
        name_servers: vec![],
        additionals: vec![],
    };
    assert!(hickory_proto::message::message_is_valid(&good));
    let mut bad_code = Message { header: header(1), queries: vec![], answers: vec![], name_servers: vec![], additionals: vec![] };
    bad_code.header.op_code = 16;
    assert!(!hickory_proto::message::message_is_valid(&bad_code));
    let mistyped = Record { name: name(&["a"]), rr_type: 1, dns_class: 1, ttl: 1, rdata: RData::Opaque(vec![1, 2, 3, 4]) };
    assert!(!hickory_proto::message::record_is_valid(&mistyped));
    let typed_wrongly = Record { name: name(&["a"]), rr_type: 16, dns_class: 1, ttl: 1, rdata: RData::A(4) };
    assert!(!hickory_proto::message::record_is_valid(&typed_wrongly));
}

#[test]
fn two_questions_for_one_name_encode_shorter() {
    let m = Message {
        header: header(0),
        queries: vec![question(name(&["example", "com"])), question(name(&["example", "com"]))],
        answers: vec![],
        name_servers: vec![],
        additionals: vec![],
    };
    let bytes = encode(&m);
    // uncompressed: 12 + 2 * (13 + 4) = 46; the second name becomes a pointer
    assert_eq!(bytes.len(), 12 + 17 + 2 + 4);
    assert!(bytes.len() < 46);
    let d = decode(&bytes).unwrap();
    assert_eq!(label_strings(&d.queries[0].name), label_strings(&d.queries[1].name));
}

#[test]
fn root_name_is_never_replaced_by_a_pointer() {
    let m = Message {
        header: header(0),
        queries: vec![question(Name::root()), question(Name::root())],
        answers: vec![],
        name_servers: vec![],
        additionals: vec![],
    };
    let bytes = encode(&m);
    assert_eq!(bytes.len(), 12 + 5 + 5);
}

#[test]
fn repeated_record_owner_is_compressed() {
    let owner = name(&["mail", "example", "org"]);
    let m = Message {
        header: header(0),
        queries: vec![],
        answers: vec![
            Record { name: owner.clone(), rr_type: 1, dns_class: 1, ttl: 5, rdata: RData::A(1) },
            Record { name: owner.clone(), rr_type: 1, dns_class: 1, ttl: 5, rdata: RData::A(2) },
        ],
        name_servers: vec![],
        additionals: vec![],
    };
    let bytes = encode(&m);
    // owner takes 18 bytes in full; the second copy is a 2-byte pointer
    assert_eq!(bytes.len(), 12 + (18 + 14) + (2 + 14));
    let d = decode(&bytes).unwrap();
    assert_eq!(label_strings(&d.answers[1].name), label_strings(&owner));
}
