use lanchat::addr::parse_ipv4;
use lanchat::text::{eq_ignore_case, parse_u8_decimal, tokenize, trim_string, u16_to_string};

#[test]
fn renders_small_numbers() {
    assert_eq!(u16_to_string(0), "0".to_string());
    assert_eq!(u16_to_string(7), "7".to_string());
}

#[test]
fn renders_large_numbers() {
    assert_eq!(u16_to_string(9000), "9000".to_string());
    assert_eq!(u16_to_string(65535), "65535".to_string());
}

#[test]
fn tokenize_collapses_whitespace_runs() {
    let toks = tokenize(&"  a \t bb\ncc ".to_string());
    assert_eq!(toks.len(), 3);
    assert_eq!(toks[0], "a".to_string());
    assert_eq!(toks[1], "bb".to_string());
    assert_eq!(toks[2], "cc".to_string());
}

#[test]
fn tokenize_of_blank_input_is_empty() {
    assert_eq!(tokenize(&"".to_string()).len(), 0);
    assert_eq!(tokenize(&" \t\r\n".to_string()).len(), 0);
}

#[test]
fn case_insensitive_comparison() {
    assert!(eq_ignore_case("Help", "HELP"));
    assert!(eq_ignore_case("become", "BECOME"));
    assert!(!eq_ignore_case("helper", "HELP"));
    assert!(!eq_ignore_case("hel", "HELP"));
}

#[test]
fn trim_removes_both_ends() {
    assert_eq!(trim_string(&"  hello \n".to_string()), "hello".to_string());
    assert_eq!(trim_string(&"hi".to_string()), "hi".to_string());
    assert_eq!(trim_string(&" \t ".to_string()), "".to_string());
    assert_eq!(trim_string(&"".to_string()), "".to_string());
    assert_eq!(trim_string(&"a b ".to_string()), "a b".to_string());
}

#[test]
fn octet_parsing_accepts_byte_range() {
    assert_eq!(parse_u8_decimal("0"), Some(0));
    assert_eq!(parse_u8_decimal("255"), Some(255));
    assert_eq!(parse_u8_decimal("007"), Some(7));
}

#[test]
fn octet_parsing_rejects_bad_segments() {
    assert_eq!(parse_u8_decimal(""), None);
    assert_eq!(parse_u8_decimal("256"), None);
    assert_eq!(parse_u8_decimal("12a"), None);
    assert_eq!(parse_u8_decimal("99999"), None);
}

#[test]
fn ipv4_parses_four_octets() {
    assert_eq!(parse_ipv4("127.0.0.1"), Some((127, 0, 0, 1)));
    assert_eq!(parse_ipv4("255.255.255.255"), Some((255, 255, 255, 255)));
    assert_eq!(parse_ipv4("01.2.3.4"), Some((1, 2, 3, 4)));
}

#[test]
fn ipv4_skips_invalid_segments_and_counts_the_rest() {
    // An empty segment between two dots is skipped, not an error.
    assert_eq!(parse_ipv4("1.2..3.4"), Some((1, 2, 3, 4)));
    // A segment out of range is skipped, leaving too few octets.
    assert_eq!(parse_ipv4("256.0.0.1"), None);
}

#[test]
fn ipv4_rejects_wrong_counts() {
    assert_eq!(parse_ipv4(""), None);
    assert_eq!(parse_ipv4("1.2.3"), None);
    assert_eq!(parse_ipv4("1.2.3.4.5"), None);
    assert_eq!(parse_ipv4("a.b.c.d"), None);
}
