use lud::errors;
use lud::question::{ParseError, QType, Question};
use lud::rr::RRType;

#[test]
fn qtype_from_code() {
    assert_eq!(QType::try_from(1u16), Ok(QType::RRType(RRType::A)));
    assert_eq!(QType::try_from(28u16), Ok(QType::RRType(RRType::AAAA)));
    assert_eq!(QType::try_from(252u16), Ok(QType::AXFR));
    assert_eq!(QType::try_from(253u16), Ok(QType::MAILB));
    assert_eq!(QType::try_from(254u16), Ok(QType::MAILA));
    assert_eq!(QType::try_from(255u16), Ok(QType::ANY));
    assert_eq!(QType::try_from(0u16), Err(ParseError));
    assert_eq!(QType::try_from(99u16), Err(ParseError));
    assert_eq!(QType::try_from(251u16), Err(ParseError));
    assert_eq!(QType::try_from(256u16), Err(ParseError));
}

#[test]
fn qtype_to_code() {
    assert_eq!(u16::from(QType::RRType(RRType::MX)), 15);
    assert_eq!(u16::from(QType::RRType(RRType::UNKNOWN(300))), 300);
    assert_eq!(u16::from(QType::AXFR), 252);
    assert_eq!(u16::from(QType::MAILB), 253);
    assert_eq!(u16::from(QType::MAILA), 254);
    assert_eq!(u16::from(QType::ANY), 255);
}

#[test]
fn qtype_from_token() {
    assert_eq!(QType::try_from("A".to_string()), Ok(QType::RRType(RRType::A)));
    assert_eq!(QType::try_from("TXT".to_string()), Ok(QType::RRType(RRType::TXT)));
    assert_eq!(QType::try_from("ANY".to_string()), Ok(QType::ANY));
    assert_eq!(QType::try_from("any".to_string()), Ok(QType::ANY));
    assert_eq!(QType::try_from("Axfr".to_string()), Ok(QType::AXFR));
    assert_eq!(QType::try_from("mailb".to_string()), Ok(QType::MAILB));
    assert_eq!(QType::try_from("MAILA".to_string()), Ok(QType::MAILA));
    // record types are matched in upper case only
    assert_eq!(QType::try_from("txt".to_string()), Err(ParseError));
    assert_eq!(QType::try_from("".to_string()), Err(ParseError));
    assert_eq!(QType::from_upper("ANY"), Some(QType::ANY));
    assert_eq!(QType::from_upper("any"), None);
    assert_eq!(QType::from_upper("A"), None);
}

#[test]
fn qtype_text() {
    assert_eq!(QType::RRType(RRType::NS).to_string(), "NS");
    assert_eq!(QType::RRType(RRType::UNKNOWN(77)).to_string(), "77");
    assert_eq!(QType::AXFR.to_string(), "AXFR");
    assert_eq!(QType::MAILB.to_string(), "MAILB");
    assert_eq!(QType::MAILA.to_string(), "MAILA");
    assert_eq!(QType::ANY.to_string(), "ANY");
    assert_eq!(ParseError.to_string(), "invalid qtype");
    assert_eq!(ParseError.description(), "invalid qtype");
}

#[test]
fn question_decodes() {
    let buf = b"\xff\x07example\x03com\x00\x00\x0f\x00\x01\xff";
    let (q, next) = Question::from_wire(buf, 1).unwrap();
    assert_eq!(next, 18);
    assert_eq!(q.qname, vec!["example".to_string(), "com".to_string()]);
    assert_eq!(q.qtype, QType::RRType(RRType::MX));
    assert_eq!(q.qclass, 1);
    assert_eq!(q.to_string(), "example.com\tQTYPE: MX; CLASS: 1");
}

#[test]
fn question_with_compressed_name_reads_type_behind_the_pointer() {
    let buf = b"\x03com\x00\x02ab\xc0\x00\x00\xff\x01\x02";
    let (q, next) = Question::from_wire(buf, 5).unwrap();
    assert_eq!(next, 14);
    assert_eq!(q.qname, vec!["ab".to_string(), "com".to_string()]);
    assert_eq!(q.qtype, QType::ANY);
    assert_eq!(q.qclass, 0x0102);
}

#[test]
fn question_failures() {
    let fails = |buf: &[u8]| Question::from_wire(buf, 0).map(|_| ());
    assert_eq!(fails(&[0, 0, 99, 0, 1]), Err(errors::ParseError::InvalidQType));
    assert_eq!(fails(&[0, 0, 0, 0, 1]), Err(errors::ParseError::InvalidQType));
    assert_eq!(fails(&[0, 0]), Err(errors::ParseError::OutOfRange));
    assert_eq!(fails(&[0, 0, 1, 0]), Err(errors::ParseError::OutOfRange));
    // a type that is no question type is met before the missing class
    assert_eq!(fails(&[0, 0, 99]), Err(errors::ParseError::InvalidQType));
    assert_eq!(fails(&[0xc0, 0x00]), Err(errors::ParseError::PointerForward));
    assert_eq!(fails(&[1, 0xff, 0]), Err(errors::ParseError::InvalidUtf8));
}

#[test]
fn question_new_keeps_its_parts() {
    let q = Question::new(vec!["a".to_string(), "".to_string()], QType::ANY, 3);
    assert_eq!(q.qname, vec!["a".to_string(), "".to_string()]);
    assert_eq!(q.qtype, QType::ANY);
    assert_eq!(q.qclass, 3);
    assert_eq!(q.to_string(), "a.\tQTYPE: ANY; CLASS: 3");
}
