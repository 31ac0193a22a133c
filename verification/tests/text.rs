use lud::text::{decimal_string, hex_string, join_all, join_strings, str_eq};

#[test]
fn decimal_rendering() {
    assert_eq!(decimal_string(0), "0");
    assert_eq!(decimal_string(7), "7");
    assert_eq!(decimal_string(10), "10");
    assert_eq!(decimal_string(3600), "3600");
    assert_eq!(decimal_string(4294967295), "4294967295");
}

#[test]
fn hex_rendering() {
    assert_eq!(hex_string(0), "0");
    assert_eq!(hex_string(0xf), "f");
    assert_eq!(hex_string(0x10), "10");
    assert_eq!(hex_string(0xdb8), "db8");
    assert_eq!(hex_string(0xffff), "ffff");
}

#[test]
fn joining() {
    let parts: Vec<String> = vec!["a".to_string(), "".to_string(), "bc".to_string()];
    assert_eq!(join_all(&parts, "."), "a..bc");
    assert_eq!(join_all(&parts, ", "), "a, , bc");
    assert_eq!(join_strings(&parts, 1, 3, "."), ".bc");
    assert_eq!(join_strings(&parts, 2, 3, "."), "bc");
    assert_eq!(join_strings(&parts, 3, 3, "."), "");
    assert_eq!(join_strings(&parts, 0, 2, "."), "a.");
    assert_eq!(join_strings(&parts, 0, 1, "."), "a");
    assert_eq!(join_strings(&parts, 1, 1, "."), "");
    assert_eq!(join_all(&vec![], "."), "");
    assert_eq!(join_all(&vec!["".to_string()], "."), "");
}

#[test]
fn text_equality() {
    assert!(str_eq("", ""));
    assert!(str_eq("abc", "abc"));
    assert!(!str_eq("abc", "abd"));
    assert!(!str_eq("abc", "ab"));
    assert!(str_eq("é", "é"));
}
