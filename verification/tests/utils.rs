use lud::errors::ParseError;
use lud::utils::{byte_combine, bytes_to_name_offset, extract_name, read_dec, rfc4343_to_wire};

#[test]
fn test_rfc4343_to_wire() {
    let input = "foo.example.net.";
    let expected: Vec<Vec<u8>> = vec![
        "foo".bytes().collect(),
        "example".bytes().collect(),
        "net".bytes().collect(),
        "".bytes().collect(),
    ];
    assert_eq!(rfc4343_to_wire(&input), expected);
}

#[test]
fn test_rfc4343_to_wire_unusual() {
    let input = r"a\000\\\255z";
    let expected: Vec<Vec<u8>> = vec![vec![0x61, 0x00, 0x5c, 0xff, 0x7a]];
    assert_eq!(rfc4343_to_wire(&input), expected);
}

#[test]
fn test_read_dec() {
    let input = r"\046";
    let expected = 0x2e;

    assert_eq!(read_dec(&input, 0).unwrap(), expected);
}

#[test]
fn read_dec_refuses_what_is_no_number() {
    assert!(read_dec(r"\25x", 0).is_err());
    assert!(read_dec(r"\256", 0).is_err());
    assert_eq!(read_dec(r"\+12", 0).unwrap(), 12);
    assert_eq!(read_dec(r"ab\255", 2).unwrap(), 255);
}

#[test]
fn rfc4343_backslash_before_other_byte_stays() {
    let expected: Vec<Vec<u8>> = vec![vec![0x5c, b'x'], vec![b'y']];
    assert_eq!(rfc4343_to_wire(r"\x.y"), expected);
}

#[test]
fn rfc4343_empty_text_is_one_empty_label() {
    let expected: Vec<Vec<u8>> = vec![vec![]];
    assert_eq!(rfc4343_to_wire(""), expected);
}

#[test]
fn byte_combine_is_big_endian() {
    assert_eq!(byte_combine(0, 0), 0);
    assert_eq!(byte_combine(0x12, 0x34), 0x1234);
    assert_eq!(byte_combine(0xff, 0xff), 0xffff);
}

#[test]
fn name_offset_drops_the_two_flag_bits() {
    assert_eq!(bytes_to_name_offset(0xc0, 0x0c), 12);
    assert_eq!(bytes_to_name_offset(0xff, 0xff), 0x3fff);
    assert_eq!(bytes_to_name_offset(0x01, 0x02), 0x0102);
}

fn labels(parts: &[&str]) -> Vec<String> {
    parts.iter().map(|s| s.to_string()).collect()
}

#[test]
fn name_in_place() {
    let buf = b"\x07example\x03com\x00rest";
    assert_eq!(extract_name(buf, 0), Ok((labels(&["example", "com"]), 13)));
}

#[test]
fn root_name() {
    assert_eq!(extract_name(&[0], 0), Ok((vec![], 1)));
}

#[test]
fn name_with_pointer_ends_behind_the_pointer() {
    // "com" at 0, "example" + pointer to 0 at 5
    let buf = b"\x03com\x00\x07example\xc0\x00\xff";
    assert_eq!(extract_name(buf, 5), Ok((labels(&["example", "com"]), 15)));
}

#[test]
fn name_that_is_one_pointer() {
    let buf = b"\x03com\x00\xc0\x00";
    assert_eq!(extract_name(buf, 5), Ok((labels(&["com"]), 7)));
}

#[test]
fn pointer_to_itself_is_refused() {
    let buf = [0xc0, 0x00];
    assert_eq!(extract_name(&buf, 0), Err(ParseError::PointerForward));
}

#[test]
fn pointer_forward_is_refused() {
    let buf = [0xc0, 0x02, 0x00];
    assert_eq!(extract_name(&buf, 0), Err(ParseError::PointerForward));
    let buf = [0x01, b'a', 0xc0, 0x05, 0x00, 0x00];
    assert_eq!(extract_name(&buf, 0), Err(ParseError::PointerForward));
}

#[test]
fn pointers_in_a_circle_are_refused() {
    // the label at 0 runs into the pointer at 2, which leads back to 0
    let buf = [0x01, b'a', 0xc0, 0x00];
    assert_eq!(extract_name(&buf, 0), Err(ParseError::PointerLoop));
}

#[test]
fn unimplemented_length_bits_are_refused() {
    assert_eq!(extract_name(&[0x40, 0], 0), Err(ParseError::UnimplementedNameType));
    assert_eq!(extract_name(&[0x80, 0], 0), Err(ParseError::UnimplementedNameType));
    assert_eq!(extract_name(&[0xbf, 0], 0), Err(ParseError::UnimplementedNameType));
}

#[test]
fn name_past_the_end_is_refused() {
    assert_eq!(extract_name(&[], 0), Err(ParseError::OutOfRange));
    assert_eq!(extract_name(&[0], 1), Err(ParseError::OutOfRange));
    assert_eq!(extract_name(&[3, b'a', b'b'], 0), Err(ParseError::OutOfRange));
    assert_eq!(extract_name(&[1, b'a'], 0), Err(ParseError::OutOfRange));
    assert_eq!(extract_name(&[0, 0xc0], 1), Err(ParseError::OutOfRange));
}

#[test]
fn label_that_is_not_utf8_is_refused() {
    assert_eq!(extract_name(&[2, 0xff, 0xfe, 0], 0), Err(ParseError::InvalidUtf8));
}

#[test]
fn label_in_utf8_is_read_as_text() {
    let buf = [2, 0xc3, 0xa9, 0];
    assert_eq!(extract_name(&buf, 0), Ok((labels(&["é"]), 4)));
}

#[test]
fn label_of_63_bytes() {
    let mut buf = vec![63u8];
    buf.extend_from_slice(&[b'x'; 63]);
    buf.push(0);
    let label: String = "x".repeat(63);
    assert_eq!(extract_name(&buf, 0), Ok((vec![label], 65)));
}

#[test]
fn error_text_is_the_variant_name() {
    assert_eq!(ParseError::InvalidClass.to_string(), "InvalidClass");
    assert_eq!(ParseError::InvalidRRType.to_string(), "InvalidRRType");
    assert_eq!(ParseError::InvalidQType.to_string(), "InvalidQType");
    assert_eq!(ParseError::PointerForward.to_string(), "PointerForward");
    assert_eq!(ParseError::PointerLoop.to_string(), "PointerLoop");
    assert_eq!(ParseError::OutOfRange.to_string(), "OutOfRange");
    assert_eq!(ParseError::UnimplementedNameType.to_string(), "UnimplementedNameType");
    assert_eq!(ParseError::InvalidUtf8.to_string(), "InvalidUtf8");
    assert_eq!(ParseError::PointerForward.description(), "PointerForward");
}

#[test]
fn chain_of_backward_pointers_decodes() {
    // a name at 0, then pointers each to the pointer before it
    let mut buf = b"\x01a\x00".to_vec();
    let mut target = 0usize;
    for _ in 0..100 {
        let at = buf.len();
        buf.push(0xc0 | (target >> 8) as u8);
        buf.push((target & 255) as u8);
        target = at;
    }
    let last = buf.len() - 2;
    assert_eq!(extract_name(&buf, last), Ok((labels(&["a"]), last + 2)));
}

#[test]
fn every_byte_a_step() {
    // as many steps as the message has bytes: empty labels are no labels,
    // so the longest walk is one of pointers and a root
    let buf = [0u8, 0xc0, 0x00, 0xc0, 0x01];
    assert_eq!(extract_name(&buf, 3), Ok((vec![], 5)));
}
