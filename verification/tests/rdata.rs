use lud::errors::ParseError;
use lud::rdata::{
    longest_zero_run, AAAAData, AData, CNAMEData, MXData, NSData, PTRData, RData, SOAData, TXTData,
};
use lud::rr::RRType;

fn labels(parts: &[&str]) -> Vec<String> {
    parts.iter().map(|s| s.to_string()).collect()
}

fn aaaa(groups: [u16; 8]) -> AAAAData {
    let mut bytes = Vec::new();
    for g in groups.iter() {
        bytes.push((g >> 8) as u8);
        bytes.push((g & 255) as u8);
    }
    AAAAData::from_wire(&bytes, 0).unwrap()
}

#[test]
fn a_record_is_dotted_decimal() {
    let rdata = RData::from_wire(RRType::A, &[8, 8, 8, 8], 0, 4).unwrap();
    assert_eq!(rdata.to_string(), "8.8.8.8");
    let a = AData::from_wire(&[9, 0, 10, 200, 255], 1).unwrap();
    assert_eq!(a.address(), [0, 10, 200, 255]);
    assert_eq!(a.to_string(), "0.10.200.255");
}

#[test]
fn a_record_needs_four_bytes() {
    assert_eq!(AData::from_wire(&[1, 2, 3], 0), Err(ParseError::OutOfRange));
    assert_eq!(AData::from_wire(&[1, 2, 3, 4], 1), Err(ParseError::OutOfRange));
    assert_eq!(AData::from_wire(&[], usize::MAX), Err(ParseError::OutOfRange));
}

#[test]
fn aaaa_loopback_collapses() {
    assert_eq!(aaaa([0, 0, 0, 0, 0, 0, 0, 1]).to_string(), "::1");
}

#[test]
fn aaaa_documentation_address_collapses() {
    assert_eq!(aaaa([0x2001, 0xdb8, 0, 0, 0, 0, 0, 1]).to_string(), "2001:db8::1");
}

#[test]
fn aaaa_equal_runs_collapse_the_leftmost() {
    assert_eq!(aaaa([1, 0, 0, 2, 0, 0, 3, 4]).to_string(), "1::2:0:0:3:4");
}

#[test]
fn aaaa_longer_run_wins_over_earlier() {
    assert_eq!(aaaa([0, 0, 1, 0, 0, 0, 2, 3]).to_string(), "0:0:1::2:3");
}

#[test]
fn aaaa_without_run_shows_all_groups() {
    assert_eq!(aaaa([1, 2, 3, 4, 5, 6, 7, 8]).to_string(), "1:2:3:4:5:6:7:8");
    assert_eq!(aaaa([1, 0, 2, 0, 3, 0, 4, 0]).to_string(), "1:0:2:0:3:0:4:0");
    assert_eq!(
        aaaa([0xffff, 0xabcd, 0x10, 0x100, 0x1000, 0xf, 0xa0, 0x9]).to_string(),
        "ffff:abcd:10:100:1000:f:a0:9"
    );
}

#[test]
fn aaaa_all_zero_and_trailing_run() {
    assert_eq!(aaaa([0, 0, 0, 0, 0, 0, 0, 0]).to_string(), "::");
    assert_eq!(aaaa([1, 0, 0, 0, 0, 0, 0, 0]).to_string(), "1::");
    assert_eq!(aaaa([0xfe80, 0, 0, 0, 1, 2, 3, 4]).to_string(), "fe80::1:2:3:4");
}

#[test]
fn aaaa_groups_and_bytes() {
    let bytes: Vec<u8> = (0u8..16).collect();
    let a = AAAAData::from_wire(&bytes, 0).unwrap();
    assert_eq!(a.address().to_vec(), bytes);
    assert_eq!(
        a.groups(),
        vec![0x0001, 0x0203, 0x0405, 0x0607, 0x0809, 0x0a0b, 0x0c0d, 0x0e0f]
    );
    assert_eq!(AAAAData::from_wire(&bytes, 1), Err(ParseError::OutOfRange));
}

#[test]
fn zero_run_search() {
    assert_eq!(longest_zero_run(&[]), None);
    assert_eq!(longest_zero_run(&[0]), None);
    assert_eq!(longest_zero_run(&[0, 0]), Some((0, 2)));
    assert_eq!(longest_zero_run(&[1, 0, 0, 2, 0, 0]), Some((1, 3)));
    assert_eq!(longest_zero_run(&[1, 0, 0, 2, 0, 0, 0]), Some((4, 7)));
    assert_eq!(longest_zero_run(&[0, 1, 0, 1]), None);
}

#[test]
fn unknown_type_keeps_its_code() {
    let rdata = RData::from_wire(RRType::from_code(99), &[1, 2, 3], 0, 3).unwrap();
    assert_eq!(rdata, RData::UNKNOWN(99));
    assert_eq!(rdata.to_string(), "99");
}

#[test]
fn uninterpreted_known_type_keeps_its_code() {
    let rdata = RData::from_wire(RRType::HINFO, &[], 0, 0).unwrap();
    assert_eq!(rdata, RData::UNKNOWN(13));
    assert_eq!(rdata.to_string(), "13");
}

#[test]
fn name_payloads() {
    let buf = b"\x03com\x00\x02ns\x07example\xc0\x00";
    let ns = NSData::from_wire(buf, 5).unwrap();
    assert_eq!(ns.nsdname(), &labels(&["ns", "example", "com"]));
    assert_eq!(ns.to_string(), "ns.example.com");
    let cname = CNAMEData::from_wire(buf, 8).unwrap();
    assert_eq!(cname.cname(), &labels(&["example", "com"]));
    assert_eq!(cname.to_string(), "example.com");
    let ptr = PTRData::from_wire(buf, 0).unwrap();
    assert_eq!(ptr.ptrdname(), &labels(&["com"]));
    assert_eq!(ptr.to_string(), "com");
    assert_eq!(NSData::from_wire(buf, 18), Err(ParseError::OutOfRange));
    assert_eq!(PTRData::from_wire(&[0xc0, 0x05], 0), Err(ParseError::PointerForward));
    assert_eq!(CNAMEData::from_wire(&[0x41], 0), Err(ParseError::UnimplementedNameType));
    match RData::from_wire(RRType::NS, buf, 5, 12).unwrap() {
        RData::NS(data) => assert_eq!(data.to_string(), "ns.example.com"),
        other => panic!("{:?}", other),
    }
}

#[test]
fn soa_payload() {
    let mut buf = b"\x02ns\x03com\x00\x05admin\xc0\x03".to_vec();
    buf.extend_from_slice(&[0x78, 0x56, 0x34, 0x12]);
    buf.extend_from_slice(&[0, 0, 0x1c, 0x20]);
    buf.extend_from_slice(&[0, 0, 0x0e, 0x10]);
    buf.extend_from_slice(&[0xff, 0xff, 0xff, 0xff]);
    let soa = SOAData::from_wire(&buf, 0).unwrap();
    assert_eq!(soa.mname(), &labels(&["ns", "com"]));
    assert_eq!(soa.rname(), &labels(&["admin", "com"]));
    assert_eq!(soa.serial(), 0x78563412);
    assert_eq!(soa.refresh(), 7200);
    assert_eq!(soa.retry(), 3600);
    assert_eq!(soa.expire(), 4294967295);
    assert_eq!(soa.to_string(), "ns.com\tadmin.com\t2018915346\t7200\t3600\t4294967295");
    buf.pop();
    assert_eq!(SOAData::from_wire(&buf, 0), Err(ParseError::OutOfRange));
}

#[test]
fn mx_payload() {
    let buf = b"\x03com\x00\x00\x0a\x04mail\xc0\x00";
    let mx = MXData::from_wire(buf, 5).unwrap();
    assert_eq!(mx.preference(), 10);
    assert_eq!(mx.exchange(), &labels(&["mail", "com"]));
    assert_eq!(mx.to_string(), "10\tmail.com");
    assert_eq!(MXData::from_wire(&[0], 0), Err(ParseError::OutOfRange));
    assert_eq!(MXData::from_wire(&[0, 1], 0), Err(ParseError::OutOfRange));
}

#[test]
fn txt_payload_is_quoted_text() {
    let txt = TXTData::from_wire(b"..hello..", 2, 5).unwrap();
    assert_eq!(txt.txtdata(), &b"hello".to_vec());
    assert_eq!(txt.to_string(), "\"hello\"");
    let txt = TXTData::from_wire(b"a\"b\\c\n", 0, 6).unwrap();
    assert_eq!(txt.to_string(), "\"a\\\"b\\\\c\\n\"");
    let txt = TXTData::from_wire(b"", 0, 0).unwrap();
    assert_eq!(txt.to_string(), "\"\"");
}

#[test]
fn txt_payload_must_be_utf8_and_in_range() {
    assert_eq!(TXTData::from_wire(&[b'a', 0xff], 0, 2), Err(ParseError::InvalidUtf8));
    assert_eq!(TXTData::from_wire(&[b'a', b'b'], 1, 2), Err(ParseError::OutOfRange));
    assert_eq!(TXTData::from_wire(&[b'a'], 0, usize::MAX), Err(ParseError::OutOfRange));
    assert!(TXTData::from_wire(&[b'a', 0xff], 0, 1).is_ok());
}
