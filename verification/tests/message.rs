use lud::errors::ParseError;
use lud::message::{Message, MessageMeta, RCode, DNS_MSG_MAX, QR};
use lud::question::{QType, Question};
use lud::rr::RRType;

const META_STD_RD_QUERY: u16 = 0b0000_0001_0000_0000;

#[test]
fn messagemeta_new() {
    /* a standard query with recursion desired */
    let mm = MessageMeta::new(META_STD_RD_QUERY);
    assert!(mm.rd);
}

#[test]
fn messagemeta_round_trip() {
    let mm = MessageMeta::new(META_STD_RD_QUERY);
    let expected_wire = vec![
        (META_STD_RD_QUERY >> 8) as u8,
        (META_STD_RD_QUERY & 255) as u8,
    ];
    assert_eq!(mm.to_wire(), expected_wire);
}

#[test]
fn messagemeta_round_trip_every_value() {
    let mut meta: u32 = 0;
    while meta <= 0xffff {
        let m = meta as u16;
        let wire = MessageMeta::new(m).to_wire();
        assert_eq!(wire, vec![(m >> 8) as u8, (m & 255) as u8]);
        meta += 1;
    }
}

#[test]
fn messagemeta_fields() {
    // QR=1 OPCODE=0101 AA=1 TC=0 RD=1 RA=1 Z=010 RCODE=0011
    let mm = MessageMeta::new(0b1_0101_1_0_1_1_010_0011);
    assert_eq!(mm.qr, QR::R);
    assert_eq!(mm.opcode, 5);
    assert!(mm.aa);
    assert!(!mm.tc);
    assert!(mm.rd);
    assert!(mm.ra);
    assert_eq!(mm.z, 2);
    assert_eq!(mm.rcode, RCode::NameError);
    assert_eq!(mm.to_wire(), vec![0b1_0101_1_0_1, 0b1_010_0011]);
}

#[test]
fn messagemeta_text() {
    let mm = MessageMeta::new(0x8180);
    assert_eq!(
        mm.to_string(),
        "QR: R; Opcode: 0\nFLAGS: AA false; TC false; RD: true; RA: true; Z: 0; NoError"
    );
}

#[test]
fn rcode_from_code() {
    assert_eq!(RCode::from(0), RCode::NoError);
    assert_eq!(RCode::from(1), RCode::FormatError);
    assert_eq!(RCode::from(2), RCode::ServFail);
    assert_eq!(RCode::from(3), RCode::NameError);
    assert_eq!(RCode::from(4), RCode::NotImp);
    assert_eq!(RCode::from(5), RCode::Refused);
    assert_eq!(RCode::from(6), RCode::Reserved(6));
    assert_eq!(RCode::from(15), RCode::Reserved(15));
    assert_eq!(RCode::Reserved(9).to_string(), "Reserved");
}

#[test]
fn qr_from_bool() {
    assert_eq!(QR::from(false), QR::Q);
    assert_eq!(QR::from(true), QR::R);
}

fn labels(parts: &[&str]) -> Vec<String> {
    parts.iter().map(|s| s.to_string()).collect()
}

#[test]
fn query_build() {
    let m = Message::new(labels(&["example", "com", ""]), "A".to_string());
    assert_eq!(m.meta, MessageMeta::new(0x0100));
    assert_eq!(m.qdcount, 1);
    assert_eq!(m.ancount, 0);
    assert_eq!(m.nscount, 0);
    assert_eq!(m.arcount, 0);
    assert_eq!(m.question.len(), 1);
    assert_eq!(m.question[0].qname, labels(&["example", "com", ""]));
    assert_eq!(m.question[0].qtype, QType::RRType(RRType::A));
    assert_eq!(m.question[0].qclass, 1);
    assert!(m.answer.is_empty());
    assert!(m.authority.is_empty());
    assert!(m.additional.is_empty());

    let wire = m.to_wire();
    let mut expected = vec![(m.id >> 8) as u8, (m.id & 255) as u8, 1, 0, 0, 1, 0, 0, 0, 0, 0, 0];
    expected.extend_from_slice(b"\x07example\x03com\x00");
    expected.extend_from_slice(&[0, 1, 0, 1]);
    assert_eq!(wire, expected);
}

#[test]
fn query_with_given_id() {
    let m = Message::query(0xbeef, labels(&["a", ""]), QType::ANY);
    assert_eq!(m.id, 0xbeef);
    assert_eq!(
        m.to_wire(),
        vec![0xbe, 0xef, 1, 0, 0, 1, 0, 0, 0, 0, 0, 0, 1, b'a', 0, 0, 255, 0, 1]
    );
}

#[test]
fn try_new_refuses_unknown_token() {
    assert!(Message::try_new(labels(&["a", ""]), "NOPE".to_string()).is_err());
    let m = Message::try_new(labels(&["a", ""]), "any".to_string()).unwrap();
    assert_eq!(m.question[0].qtype, QType::ANY);
}

fn reply() -> Vec<u8> {
    let mut buf = vec![0x12, 0x34, 0x81, 0x80, 0, 1, 0, 1, 0, 0, 0, 0];
    buf.extend_from_slice(b"\x07example\x03com\x00");
    buf.extend_from_slice(&[0, 1, 0, 1]);
    buf.extend_from_slice(&[0xc0, 0x0c, 0, 1, 0, 1, 0, 0, 0x0e, 0x10, 0, 4, 93, 184, 216, 34]);
    buf
}

#[test]
fn reply_decodes() {
    let m = Message::from_wire(&reply()).unwrap();
    assert_eq!(m.id, 0x1234);
    assert_eq!(m.meta, MessageMeta::new(0x8180));
    assert_eq!((m.qdcount, m.ancount, m.nscount, m.arcount), (1, 1, 0, 0));
    assert_eq!(m.question.len(), 1);
    assert_eq!(m.question[0].qname, labels(&["example", "com"]));
    assert_eq!(m.question[0].qtype, QType::RRType(RRType::A));
    assert_eq!(m.answer.len(), 1);
    assert_eq!(m.answer[0].name(), &labels(&["example", "com"]));
    assert_eq!(m.answer[0].ttl(), 3600);
    assert!(m.authority.is_empty());
    assert!(m.additional.is_empty());
}

#[test]
fn reply_as_text() {
    let m = Message::from_wire(&reply()).unwrap();
    assert_eq!(
        m.to_string(),
        "ID: 4660\n\
         QR: R; Opcode: 0\n\
         FLAGS: AA false; TC false; RD: true; RA: true; Z: 0; NoError\n\
         QDCOUNT 1; ANCOUNT 1; NSCOUNT 0; ARCOUNT 0\n\
         \n\
         Question\n\
         example.com\tQTYPE: A; CLASS: 1\n\
         \n\
         Answer\n\
         example.com\tA\tIN\tTTL: 3600, RDLEN: 4\n\
         93.184.216.34"
    );
}

#[test]
fn reply_with_all_sections() {
    let mut buf = vec![0, 7, 0x84, 0x03, 0, 0, 0, 1, 0, 1, 0, 2];
    buf.extend_from_slice(&[1, b'a', 0, 0, 1, 0, 1, 0, 0, 0, 1, 0, 4, 1, 2, 3, 4]);
    buf.extend_from_slice(&[0xc0, 12, 0, 2, 0, 1, 0, 0, 0, 2, 0, 2, 0xc0, 12]);
    buf.extend_from_slice(&[0xc0, 12, 0, 99, 0, 4, 0, 0, 0, 3, 0, 0]);
    buf.extend_from_slice(&[0, 0, 16, 0, 1, 0, 0, 0, 4, 0, 1, b'x']);
    let m = Message::from_wire(&buf).unwrap();
    assert_eq!(m.meta.rcode, RCode::NameError);
    assert!(m.meta.aa);
    assert_eq!(
        m.to_string(),
        "ID: 7\n\
         QR: R; Opcode: 0\n\
         FLAGS: AA true; TC false; RD: false; RA: false; Z: 0; NameError\n\
         QDCOUNT 0; ANCOUNT 1; NSCOUNT 1; ARCOUNT 2\n\
         \n\
         Answer\n\
         a\tA\tIN\tTTL: 1, RDLEN: 4\n\
         1.2.3.4\n\
         \n\
         Authority\n\
         a\tNS\tIN\tTTL: 2, RDLEN: 2\n\
         a\n\
         \n\
         Additional\n\
         a\t99\tHS\tTTL: 3, RDLEN: 0\n\
         99\n\
         \tTXT\tIN\tTTL: 4, RDLEN: 1\n\
         \"x\""
    );
}

#[test]
fn reply_failures() {
    let good = reply();
    assert_eq!(Message::from_wire(&[]).map(|_| ()), Err(ParseError::OutOfRange));
    assert_eq!(Message::from_wire(&good[..11]).map(|_| ()), Err(ParseError::OutOfRange));
    assert_eq!(Message::from_wire(&good[..12]).map(|_| ()), Err(ParseError::OutOfRange));
    assert_eq!(Message::from_wire(&good[..good.len() - 1]).map(|_| ()), Err(ParseError::OutOfRange));
    let mut buf = good.clone();
    buf[26] = 99;
    assert_eq!(Message::from_wire(&buf).map(|_| ()), Err(ParseError::InvalidQType));
    let mut buf = good.clone();
    buf[30] = 40;
    assert_eq!(Message::from_wire(&buf).map(|_| ()), Err(ParseError::PointerForward));
    let mut buf = good.clone();
    buf[34] = 0;
    assert_eq!(Message::from_wire(&buf).map(|_| ()), Err(ParseError::InvalidClass));
    let mut buf = good.clone();
    buf[13] = 0xff;
    assert_eq!(Message::from_wire(&buf).map(|_| ()), Err(ParseError::InvalidUtf8));
    let mut buf = good.clone();
    buf[12] = 0x47;
    assert_eq!(Message::from_wire(&buf).map(|_| ()), Err(ParseError::UnimplementedNameType));
    // a header alone is a message without entries
    let m = Message::from_wire(&[0, 1, 0, 0, 0, 0, 0, 0, 0, 0, 0, 0]).unwrap();
    assert_eq!(m.to_string(), "ID: 1\nQR: Q; Opcode: 0\nFLAGS: AA false; TC false; RD: false; RA: false; Z: 0; NoError\nQDCOUNT 0; ANCOUNT 0; NSCOUNT 0; ARCOUNT 0");
}

fn two_questions() -> Message {
    Message {
        id: 1,
        meta: MessageMeta::new(0x0100),
        qdcount: 2,
        ancount: 0,
        nscount: 0,
        arcount: 0,
        question: vec![
            Question::new(labels(&["www", "example", "com", ""]), QType::RRType(RRType::A), 1),
            Question::new(labels(&["mail", "example", "com", ""]), QType::RRType(RRType::MX), 1),
        ],
        answer: vec![],
        authority: vec![],
        additional: vec![],
    }
}

#[test]
fn shared_suffix_is_written_once() {
    let m = two_questions();
    assert!(m.is_encodable());
    let mut expected = vec![0, 1, 1, 0, 0, 2, 0, 0, 0, 0, 0, 0];
    expected.extend_from_slice(b"\x03www\x07example\x03com\x00");
    expected.extend_from_slice(&[0, 1, 0, 1]);
    expected.extend_from_slice(b"\x04mail\xc0\x10");
    expected.extend_from_slice(&[0, 15, 0, 1]);
    assert_eq!(m.to_wire(), expected);
}

#[test]
fn same_name_twice_is_one_pointer() {
    let mut m = two_questions();
    m.question[1] = Question::new(labels(&["www", "example", "com", ""]), QType::ANY, 1);
    let mut expected = vec![0, 1, 1, 0, 0, 2, 0, 0, 0, 0, 0, 0];
    expected.extend_from_slice(b"\x03www\x07example\x03com\x00");
    expected.extend_from_slice(&[0, 1, 0, 1, 0xc0, 12, 0, 255, 0, 1]);
    assert_eq!(m.to_wire(), expected);
}

#[test]
fn written_questions_decode_again() {
    let m = two_questions();
    let decoded = Message::from_wire(&m.to_wire()).unwrap();
    assert_eq!(decoded.id, m.id);
    assert_eq!(decoded.meta, m.meta);
    assert_eq!(decoded.qdcount, 2);
    assert_eq!(decoded.question[0].qname, labels(&["www", "example", "com"]));
    assert_eq!(decoded.question[1].qname, labels(&["mail", "example", "com"]));
    assert_eq!(decoded.question[0].qtype, QType::RRType(RRType::A));
    assert_eq!(decoded.question[1].qtype, QType::RRType(RRType::MX));
    assert_eq!(decoded.question[1].qclass, 1);
}

#[test]
fn encodable_messages() {
    let mut m = two_questions();
    assert!(m.is_encodable());
    m.question[0].qname[0] = "x".repeat(63);
    assert!(m.is_encodable());
    m.question[0].qname[0] = "x".repeat(64);
    assert!(!m.is_encodable());
    let mut m = two_questions();
    m.qdcount = 1;
    assert!(!m.is_encodable());
    let mut m = two_questions();
    m.arcount = 1;
    assert!(!m.is_encodable());
    let mut m = two_questions();
    m.meta.opcode = 16;
    assert!(!m.is_encodable());
    let mut m = two_questions();
    m.meta.z = 8;
    assert!(!m.is_encodable());
    let mut m = two_questions();
    m.meta.rcode = RCode::Reserved(3);
    assert!(!m.is_encodable());
    m.meta.rcode = RCode::Reserved(15);
    assert!(m.is_encodable());
}

#[test]
fn ids_are_drawn_anew() {
    let mut seen = std::collections::HashSet::new();
    for _ in 0..64 {
        seen.insert(Message::new(labels(&["a", ""]), "A".to_string()).id);
    }
    assert!(seen.len() > 1);
}

#[test]
fn message_size_limit() {
    assert_eq!(DNS_MSG_MAX, 512);
}

#[test]
fn query_for_parsed_name() {
    let m = Message::new(lud::parse_name("example.com".to_string()), "A".to_string());
    assert_eq!(m.qdcount, 1);
    assert_eq!(m.question.len(), 1);
    assert_eq!(m.question[0].qclass, 1);
    assert_eq!(m.question[0].qname, labels(&["example", "com", ""]));
    let wire = m.to_wire();
    assert_eq!(&wire[2..12], &[1, 0, 0, 1, 0, 0, 0, 0, 0, 0]);
    assert_eq!(&wire[12..], b"\x07example\x03com\x00\x00\x01\x00\x01");
    let decoded = Message::from_wire(&wire).unwrap();
    assert_eq!(decoded.question[0].qname, labels(&["example", "com"]));
    assert_eq!(decoded.id, m.id);
}

fn questions(list: Vec<Question>) -> Message {
    Message {
        id: 0,
        meta: MessageMeta::new(0x0100),
        qdcount: list.len() as u16,
        ancount: 0,
        nscount: 0,
        arcount: 0,
        question: list,
        answer: vec![],
        authority: vec![],
        additional: vec![],
    }
}

#[test]
fn query_without_root_label_gets_the_root_byte() {
    let m = Message::new(labels(&["example", "com"]), "A".to_string());
    let wire = m.to_wire();
    assert_eq!(wire.len(), 29);
    assert_eq!(&wire[0..2], &[(m.id >> 8) as u8, m.id as u8]);
    assert_eq!(&wire[2..12], &[1, 0, 0, 1, 0, 0, 0, 0, 0, 0]);
    assert_eq!(
        &wire[12..29],
        &[7, 101, 120, 97, 109, 112, 108, 101, 3, 99, 111, 109, 0, 0, 1, 0, 1]
    );
    // the empty last label is the same root, written once
    let with_root = Message::query(m.id, labels(&["example", "com", ""]), QType::RRType(RRType::A));
    assert_eq!(with_root.to_wire(), wire);
}

#[test]
fn same_name_without_root_label_twice() {
    let m = questions(vec![
        Question::new(labels(&["example", "com"]), QType::RRType(RRType::A), 1),
        Question::new(labels(&["example", "com"]), QType::RRType(RRType::MX), 1),
    ]);
    let wire = m.to_wire();
    assert_eq!(wire.len(), 35);
    assert_eq!(
        &wire[12..29],
        &[7, 101, 120, 97, 109, 112, 108, 101, 3, 99, 111, 109, 0, 0, 1, 0, 1]
    );
    assert_eq!(&wire[29..35], &[0xC0, 0x0C, 0, 15, 0, 1]);
}

#[test]
fn longer_name_points_into_shorter() {
    let m = questions(vec![
        Question::new(labels(&["example", "com"]), QType::RRType(RRType::A), 1),
        Question::new(labels(&["www", "example", "com"]), QType::RRType(RRType::A), 1),
    ]);
    assert_eq!(
        m.to_wire(),
        vec![
            0, 0, 1, 0, 0, 2, 0, 0, 0, 0, 0, 0, 7, 101, 120, 97, 109, 112, 108, 101, 3, 99, 111,
            109, 0, 0, 1, 0, 1, 3, 119, 119, 119, 0xC0, 0x0C, 0, 1, 0, 1
        ]
    );
}

#[test]
fn root_alone_is_one_byte_each_time() {
    let m = questions(vec![
        Question::new(vec![], QType::ANY, 1),
        Question::new(labels(&[""]), QType::ANY, 1),
    ]);
    assert_eq!(
        m.to_wire(),
        vec![0, 0, 1, 0, 0, 2, 0, 0, 0, 0, 0, 0, 0, 0, 255, 0, 1, 0, 0, 255, 0, 1]
    );
}

#[test]
fn written_query_decodes_to_itself() {
    let m = questions(vec![
        Question::new(labels(&["a"]), QType::RRType(RRType::A), 1),
        Question::new(labels(&["www", "example", "com"]), QType::RRType(RRType::AAAA), 1),
        Question::new(labels(&["mail", "example", "com"]), QType::RRType(RRType::MX), 3),
        Question::new(labels(&["example", "com"]), QType::ANY, 1),
        Question::new(labels(&["a"]), QType::AXFR, 255),
        Question::new(vec![], QType::RRType(RRType::NS), 1),
    ]);
    assert!(m.is_encodable());
    let wire = m.to_wire();
    assert!(wire.len() <= 512);
    assert_eq!(Message::from_wire(&wire), Ok(m));
}

#[test]
fn decoded_query_can_be_written_again() {
    let m = two_questions();
    let wire = m.to_wire();
    let decoded = Message::from_wire(&wire).unwrap();
    assert!(decoded.is_encodable());
    assert_eq!(decoded.to_wire(), wire);
}

#[test]
fn empty_label_is_writable_only_as_the_last() {
    let name = |parts: &[&str]| questions(vec![Question::new(labels(parts), QType::ANY, 1)]);
    assert!(name(&["a", "b"]).is_encodable());
    assert!(name(&["a", "b", ""]).is_encodable());
    assert!(name(&[""]).is_encodable());
    assert!(name(&[]).is_encodable());
    assert!(!name(&["a", "", "b"]).is_encodable());
    assert!(!name(&["", "a"]).is_encodable());
    assert!(!name(&["a", "", ""]).is_encodable());
    assert!(lud::message::is_writable_name(&labels(&["a", "b", ""])));
    assert!(!lud::message::is_writable_name(&labels(&["", ""])));
    assert_eq!(lud::message::label_count(&labels(&["a", "b", ""])), 2);
    assert_eq!(lud::message::label_count(&labels(&["a", "b"])), 2);
    assert_eq!(lud::message::label_count(&labels(&[])), 0);
}
