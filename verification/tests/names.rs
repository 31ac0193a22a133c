use lud::parse_name;

#[test]
fn test_ascii_domain() {
    let ascii_domain = "google.com".to_string();
    let expected_labels = vec!["google".to_string(), "com".to_string(), "".to_string()];

    let parsed_labels = parse_name(ascii_domain);
    assert_eq!(expected_labels, parsed_labels);
}

#[test]
fn test_valid_idn() {
    let unicode_domain = "са.com".to_string();
    let expected_labels = vec!["xn--80a7a".to_string(), "com".to_string(), "".to_string()];

    let parsed_labels = parse_name(unicode_domain);
    assert_eq!(expected_labels, parsed_labels);
}

#[test]
fn test_valid_idn_tld() {
    let unicode_domain = "са.中國".to_string();
    let expected_labels = vec![
        "xn--80a7a".to_string(),
        "xn--fiqz9s".to_string(),
        "".to_string(),
    ];

    let parsed_labels = parse_name(unicode_domain);
    assert_eq!(expected_labels, parsed_labels);
}

#[test]
fn test_punycode_domain() {
    let punycode_domain = "xn--80a7a.com".to_string();
    let expected_labels = vec!["xn--80a7a".to_string(), "com".to_string(), "".to_string()];

    let parsed_labels = parse_name(punycode_domain);
    assert_eq!(expected_labels, parsed_labels);
}

#[test]
fn test_invalid_idn() {
    let invalid_unicode_domain = "xn--са.com".to_string();
    let expected_labels = vec!["xn--са".to_string(), "com".to_string(), "".to_string()];

    let parsed_labels = parse_name(invalid_unicode_domain);
    assert_eq!(expected_labels, parsed_labels);
}

#[test]
fn root_alone() {
    assert_eq!(parse_name(".".to_string()), vec!["".to_string()]);
    assert_eq!(parse_name("".to_string()), vec!["".to_string()]);
}

#[test]
fn final_dot_is_not_doubled() {
    let expected = vec!["google".to_string(), "com".to_string(), "".to_string()];
    assert_eq!(parse_name("google.com.".to_string()), expected);
}

#[test]
fn upper_case_is_folded() {
    let expected = vec!["google".to_string(), "com".to_string(), "".to_string()];
    assert_eq!(parse_name("GOOGLE.Com".to_string()), expected);
}

#[test]
fn split_keeps_empty_pieces() {
    let pieces = |s: &str| lud::split_name(s);
    assert_eq!(pieces("a..b"), vec!["a", "", "b", ""]);
    assert_eq!(pieces("a.b."), vec!["a", "b", ""]);
    assert_eq!(pieces(""), vec!["", ""]);
    assert_eq!(pieces("."), vec!["", ""]);
    assert_eq!(pieces("é.ü"), vec!["é", "ü", ""]);
}

#[test]
fn trim_root_drops_the_last_label_behind_an_empty_first() {
    let v = |parts: &[&str]| -> Vec<String> { parts.iter().map(|s| s.to_string()).collect() };
    assert_eq!(lud::trim_root(v(&["", ""])), v(&[""]));
    assert_eq!(lud::trim_root(v(&["a", ""])), v(&["a", ""]));
    assert_eq!(lud::trim_root(v(&[])), v(&[]));
    assert_eq!(lud::trim_root(v(&["", "a", "b"])), v(&["", "a"]));
}
