use lud::errors::ParseError;
use lud::rdata::RData;
use lud::resconf::{first_v4_among, get_resolver, pick_resolver, NameServer};
use lud::rr::{extract_ttl, Class, RRType, RR};

#[test]
fn rrtype_u16_round_trip() {
    let cname: u16 = 5;
    let rrt = RRType::try_from(cname).unwrap();
    let _u16 = u16::from(rrt);
    assert_eq!(_u16, cname);
}

#[test]
fn rrtype_codes_round_trip() {
    let mut code: u32 = 0;
    while code <= 0xffff {
        assert_eq!(u16::from(RRType::from_code(code as u16)), code as u16);
        code += 1;
    }
}

#[test]
fn rrtype_from_code() {
    assert_eq!(RRType::try_from(1u16), Ok(RRType::A));
    assert_eq!(RRType::try_from(16u16), Ok(RRType::TXT));
    assert_eq!(RRType::try_from(28u16), Ok(RRType::AAAA));
    assert_eq!(RRType::try_from(0u16), Err(ParseError::InvalidRRType));
    assert_eq!(RRType::try_from(17u16), Err(ParseError::InvalidRRType));
    assert_eq!(RRType::try_from(99u16), Err(ParseError::InvalidRRType));
    assert_eq!(RRType::from_code(99), RRType::UNKNOWN(99));
    assert_eq!(RRType::from_code(15), RRType::MX);
}

#[test]
fn rrtype_from_token() {
    assert_eq!(RRType::try_from("A".to_string()), Ok(RRType::A));
    assert_eq!(RRType::try_from("CNAME".to_string()), Ok(RRType::CNAME));
    assert_eq!(RRType::try_from("AAAA".to_string()), Ok(RRType::AAAA));
    assert_eq!(RRType::try_from("a".to_string()), Err(ParseError::InvalidRRType));
    assert_eq!(RRType::try_from("".to_string()), Err(ParseError::InvalidRRType));
    assert_eq!(RRType::from_token("MINFO"), Some(RRType::MINFO));
    assert_eq!(RRType::from_token("ANY"), None);
}

#[test]
fn rrtype_text() {
    assert_eq!(RRType::A.to_string(), "A");
    assert_eq!(RRType::HINFO.to_string(), "HINFO");
    assert_eq!(RRType::AAAA.to_string(), "AAAA");
    assert_eq!(RRType::UNKNOWN(99).to_string(), "99");
    assert_eq!(RRType::UNKNOWN(65535).to_string(), "65535");
}

#[test]
fn class_from_code() {
    assert_eq!(Class::try_from(1u16), Ok(Class::IN));
    assert_eq!(Class::try_from(2u16), Ok(Class::CS));
    assert_eq!(Class::try_from(3u16), Ok(Class::CH));
    assert_eq!(Class::try_from(4u16), Ok(Class::HS));
    assert_eq!(Class::try_from(0u16), Err(ParseError::InvalidClass));
    assert_eq!(Class::try_from(5u16), Err(ParseError::InvalidClass));
    assert_eq!(Class::IN.to_string(), "IN");
    assert_eq!(Class::HS.to_string(), "HS");
}

#[test]
fn ttl_is_big_endian() {
    assert_eq!(extract_ttl(&[9, 0, 0, 0x0e, 0x10], 1), 3600);
    assert_eq!(extract_ttl(&[0x12, 0x34, 0x56, 0x78], 0), 0x12345678);
    assert_eq!(extract_ttl(&[0xff, 0xff, 0xff, 0xff], 0), 4294967295);
}

fn a_record() -> Vec<u8> {
    let mut buf = b"\x07example\x03com\x00".to_vec();
    buf.extend_from_slice(&[0, 1, 0, 1, 0, 0, 0x0e, 0x10, 0, 4, 93, 184, 216, 34]);
    buf
}

#[test]
fn record_decodes() {
    let buf = a_record();
    let (rr, next) = RR::from_wire(&buf, 0).unwrap();
    assert_eq!(next, buf.len());
    assert_eq!(rr.name(), &vec!["example".to_string(), "com".to_string()]);
    assert_eq!(rr.rrtype(), RRType::A);
    assert_eq!(rr.class(), Class::IN);
    assert_eq!(rr.ttl(), 3600);
    assert_eq!(rr.rdlength(), 4);
    assert_eq!(rr.rdata().to_string(), "93.184.216.34");
    assert_eq!(rr.to_string(), "example.com\tA\tIN\tTTL: 3600, RDLEN: 4\n93.184.216.34");
}

#[test]
fn record_with_pointer_name() {
    let mut buf = a_record();
    let at = buf.len();
    buf.extend_from_slice(&[0xc0, 0x00, 0, 16, 0, 3, 0, 0, 0, 5, 0, 2, b'h', b'i']);
    let (rr, next) = RR::from_wire(&buf, at).unwrap();
    assert_eq!(next, buf.len());
    assert_eq!(rr.rrtype(), RRType::TXT);
    assert_eq!(rr.class(), Class::CH);
    assert_eq!(rr.to_string(), "example.com\tTXT\tCH\tTTL: 5, RDLEN: 2\n\"hi\"");
}

#[test]
fn record_of_unknown_type_decodes() {
    let buf = [0, 0, 99, 0, 1, 0, 0, 0, 1, 0, 2, 0xde, 0xad];
    let (rr, next) = RR::from_wire(&buf, 0).unwrap();
    assert_eq!(next, 13);
    assert_eq!(rr.rrtype(), RRType::UNKNOWN(99));
    assert_eq!(rr.rdata(), &RData::UNKNOWN(99));
    assert_eq!(rr.rdata().to_string(), "99");
    assert_eq!(rr.to_string(), "\t99\tIN\tTTL: 1, RDLEN: 2\n99");
}

#[test]
fn record_failures() {
    let good = a_record();
    let mut buf = good.clone();
    buf[16] = 9;
    assert_eq!(RR::from_wire(&buf, 0).map(|_| ()), Err(ParseError::InvalidClass));
    assert_eq!(RR::from_wire(&good[..16], 0).map(|_| ()), Err(ParseError::OutOfRange));
    assert_eq!(RR::from_wire(&good[..20], 0).map(|_| ()), Err(ParseError::OutOfRange));
    assert_eq!(RR::from_wire(&good[..25], 0).map(|_| ()), Err(ParseError::OutOfRange));
    assert_eq!(RR::from_wire(&[0xc0, 0x00], 0).map(|_| ()), Err(ParseError::PointerForward));
    assert_eq!(RR::from_wire(&[0x80], 0).map(|_| ()), Err(ParseError::UnimplementedNameType));
    // an invalid class is met before the missing time to live
    assert_eq!(RR::from_wire(&[0, 0, 1, 0, 7], 0).map(|_| ()), Err(ParseError::InvalidClass));
}

#[test]
fn resolver_is_the_first_name_server() {
    assert_eq!(get_resolver(b"nameserver 8.8.8.8\nnameserver 1.1.1.1\n"), Some([8, 8, 8, 8]));
    assert_eq!(get_resolver(b"# nothing\n"), None);
    assert_eq!(get_resolver(b"nameserver ::1\nnameserver 1.1.1.1\n"), None);
    assert_eq!(get_resolver(b"nameserver not-an-address\n"), None);
    assert_eq!(pick_resolver(&vec![]), None);
    assert_eq!(
        pick_resolver(&vec![NameServer::V4([10, 0, 0, 1]), NameServer::V6([0; 16])]),
        Some([10, 0, 0, 1])
    );
    assert_eq!(pick_resolver(&vec![NameServer::V6([0; 16]), NameServer::V4([10, 0, 0, 1])]), None);
}

#[test]
fn first_ipv4_among_all_servers() {
    assert_eq!(first_v4_among(&vec![]), None);
    assert_eq!(first_v4_among(&vec![NameServer::V6([1; 16])]), None);
    assert_eq!(
        first_v4_among(&vec![
            NameServer::V6([0; 16]),
            NameServer::V4([10, 0, 0, 1]),
            NameServer::V4([10, 0, 0, 2]),
        ]),
        Some([10, 0, 0, 1])
    );
    assert_eq!(first_v4_among(&vec![NameServer::V4([1, 2, 3, 4])]), Some([1, 2, 3, 4]));
}
