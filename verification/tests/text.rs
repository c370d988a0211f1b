use ossim_oxide::model::nitf::text::{
    is_blank, make_colour_text, parse_decimal, same_text, MAX_DECIMAL_DIGITS,
};

#[test]
fn parse_decimal_reads_zero_padded_fields() {
    assert_eq!(parse_decimal("000439"), Some(439));
    assert_eq!(parse_decimal("0000000100"), Some(100));
    assert_eq!(parse_decimal("001"), Some(1));
    assert_eq!(parse_decimal("000"), Some(0));
    assert_eq!(parse_decimal("7"), Some(7));
    assert_eq!(parse_decimal("99999"), Some(99_999));
}

#[test]
fn parse_decimal_refuses_what_is_not_all_digits() {
    assert_eq!(parse_decimal(""), None);
    assert_eq!(parse_decimal("12a"), None);
    assert_eq!(parse_decimal("a12"), None);
    assert_eq!(parse_decimal("+42"), None);
    assert_eq!(parse_decimal("-42"), None);
    assert_eq!(parse_decimal(" 42"), None);
    assert_eq!(parse_decimal("42 "), None);
    assert_eq!(parse_decimal("4 2"), None);
    assert_eq!(parse_decimal("4.2"), None);
    assert_eq!(parse_decimal("/12"), None);
    assert_eq!(parse_decimal(":12"), None);
    assert_eq!(parse_decimal("\u{0663}"), None);
}

#[test]
fn parse_decimal_accepts_up_to_eighteen_digits() {
    assert_eq!(MAX_DECIMAL_DIGITS, 18);
    assert_eq!(parse_decimal("999999999999999999"), Some(999_999_999_999_999_999));
    assert_eq!(parse_decimal("000000000000000001"), Some(1));
    assert_eq!(parse_decimal("123456789012345678"), Some(123_456_789_012_345_678));
    assert_eq!(parse_decimal("1000000000000000000"), None);
    assert_eq!(parse_decimal("0000000000000000000"), None);
}

#[test]
fn is_blank_knows_white_space() {
    assert!(is_blank(""));
    assert!(is_blank(" "));
    assert!(is_blank("    "));
    assert!(is_blank(" \t\r\n"));
    assert!(is_blank("\u{a0}\u{2003}"));
    assert!(!is_blank("a"));
    assert!(!is_blank("  a  "));
    assert!(!is_blank("0"));
    assert!(!is_blank("/"));
    assert!(!is_blank("\0"));
}

#[test]
fn same_text_compares_characters() {
    assert!(same_text("", ""));
    assert!(same_text("NUMI", "NUMI"));
    assert!(!same_text("NUMI", "NUMS"));
    assert!(!same_text("NUMI", "NUM"));
    assert!(!same_text("LI001", "LI0010"));
    assert!(!same_text("numi", "NUMI"));
    assert!(same_text("\u{e9}t\u{e9}", "\u{e9}t\u{e9}"));
    assert!(!same_text("\u{e9}", "e"));
}

#[test]
fn colour_is_rendered_in_upper_case_hexadecimal() {
    assert_eq!(make_colour_text(0xFF, 0x80, 0x00), "0xFF8000");
    assert_eq!(make_colour_text(0, 0, 0), "0x000000");
    assert_eq!(make_colour_text(0x0A, 0xBC, 0x09), "0x0ABC09");
    assert_eq!(make_colour_text(0x20, 0x20, 0x20), "0x202020");
    assert_eq!(make_colour_text(255, 255, 255), "0xFFFFFF");
    assert_eq!(make_colour_text(0x1F, 0xE2, 0xD3), "0x1FE2D3");
}

#[test]
fn white_space_is_the_unicode_property() {
    let listed = |c: char| {
        matches!(
            c as u32,
            0x0009..=0x000D
                | 0x0020
                | 0x0085
                | 0x00A0
                | 0x1680
                | 0x2000..=0x200A
                | 0x2028
                | 0x2029
                | 0x202F
                | 0x205F
                | 0x3000
        )
    };
    let mut count = 0;
    for code in 0..=0x10FFFFu32 {
        if let Some(c) = char::from_u32(code) {
            assert_eq!(c.is_whitespace(), listed(c));
            assert_eq!(is_blank(&c.to_string()), listed(c));
            if listed(c) {
                count += 1;
            }
        }
    }
    assert_eq!(count, 25);
}
