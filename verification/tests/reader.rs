use ossim_oxide::model::nitf::error::{DecodeError, ErrorKind, Phase};
use ossim_oxide::model::nitf::reader::{
    read_colour, read_date, read_date_time, read_field, read_optional_field, read_trimmed_field,
    slot_text,
};

fn failure(kind: ErrorKind, phase: Phase, offset: usize) -> DecodeError {
    DecodeError { kind, phase, offset }
}

#[test]
fn read_field_returns_the_text_and_the_next_cursor() {
    let buffer = b"NITF02.10  ";
    assert_eq!(read_field(buffer, 0, 4, Phase::HeaderFields), Ok(("NITF".to_string(), 4)));
    assert_eq!(read_field(buffer, 4, 5, Phase::HeaderFields), Ok(("02.10".to_string(), 9)));
    assert_eq!(read_field(buffer, 9, 2, Phase::HeaderFields), Ok(("  ".to_string(), 11)));
    assert_eq!(read_field(buffer, 11, 0, Phase::HeaderFields), Ok((String::new(), 11)));
    assert_eq!(read_field(buffer, 3, 0, Phase::Subheaders), Ok((String::new(), 3)));
}

#[test]
fn read_field_never_reads_past_the_end() {
    let buffer = b"NITF02.10";
    let expected = |offset| Err(failure(ErrorKind::TruncatedInput, Phase::HeaderFields, offset));
    assert_eq!(read_field(buffer, 0, 10, Phase::HeaderFields), expected(0));
    assert_eq!(read_field(buffer, 6, 4, Phase::HeaderFields), expected(6));
    assert_eq!(read_field(buffer, 9, 1, Phase::HeaderFields), expected(9));
    assert_eq!(read_field(buffer, 10, 0, Phase::HeaderFields), expected(10));
    assert_eq!(read_field(buffer, usize::MAX, 1, Phase::HeaderFields), expected(usize::MAX));
    assert_eq!(read_field(buffer, 1, usize::MAX, Phase::HeaderFields), expected(1));
    assert_eq!(
        read_field(b"", 0, 1, Phase::Subheaders),
        Err(failure(ErrorKind::TruncatedInput, Phase::Subheaders, 0))
    );
}

#[test]
fn read_field_refuses_bytes_that_are_not_text() {
    let buffer = [b'A', 0xFF, b'B', 0xC3, 0xA9, b'C'];
    assert_eq!(
        read_field(&buffer, 0, 3, Phase::Subheaders),
        Err(failure(ErrorKind::InvalidEncoding, Phase::Subheaders, 0))
    );
    assert_eq!(read_field(&buffer, 2, 4, Phase::Subheaders), Ok(("B\u{e9}C".to_string(), 6)));
    // a field that ends inside a character
    assert_eq!(
        read_field(&buffer, 2, 2, Phase::Subheaders),
        Err(failure(ErrorKind::InvalidEncoding, Phase::Subheaders, 2))
    );
    // truncation is found before the bytes are looked at
    assert_eq!(
        read_field(&buffer, 1, 6, Phase::Subheaders),
        Err(failure(ErrorKind::TruncatedInput, Phase::Subheaders, 1))
    );
}

#[test]
fn slot_text_borrows_the_field() {
    let buffer = b"abcdef";
    assert_eq!(slot_text(buffer, 2, 3, Phase::HeaderExtensions), Ok("cde"));
    assert_eq!(
        slot_text(buffer, 4, 3, Phase::HeaderExtensions),
        Err(failure(ErrorKind::TruncatedInput, Phase::HeaderExtensions, 4))
    );
}

#[test]
fn optional_field_is_left_out_when_blank() {
    let buffer = b"    title     \t\n  ";
    assert_eq!(read_optional_field(buffer, 0, 4, Phase::HeaderFields), Ok((None, 4)));
    assert_eq!(read_optional_field(buffer, 14, 4, Phase::HeaderFields), Ok((None, 18)));
    assert_eq!(read_optional_field(buffer, 0, 0, Phase::HeaderFields), Ok((None, 0)));
    assert_eq!(
        read_optional_field(buffer, 0, 14, Phase::HeaderFields),
        Ok((Some("title".to_string()), 14))
    );
    assert_eq!(
        read_optional_field(buffer, 4, 5, Phase::HeaderFields),
        Ok((Some("title".to_string()), 9))
    );
    assert_eq!(
        read_optional_field(buffer, 6, 12, Phase::HeaderFields),
        Ok((Some("tle".to_string()), 18))
    );
}

#[test]
fn optional_field_keeps_inner_white_space() {
    let buffer = b"  two  words  ";
    assert_eq!(
        read_optional_field(buffer, 0, 14, Phase::Subheaders),
        Ok((Some("two  words".to_string()), 14))
    );
}

#[test]
fn optional_field_trims_unicode_white_space() {
    let buffer = "\u{a0}x\u{2003}".as_bytes();
    assert_eq!(buffer.len(), 6);
    assert_eq!(
        read_optional_field(buffer, 0, 6, Phase::Subheaders),
        Ok((Some("x".to_string()), 6))
    );
    let blank = "\u{a0} ".as_bytes();
    assert_eq!(read_optional_field(blank, 0, 3, Phase::Subheaders), Ok((None, 3)));
}

#[test]
fn optional_field_fails_as_any_field_does() {
    let buffer = [b' ', b' ', 0x80, b' '];
    assert_eq!(
        read_optional_field(&buffer, 0, 5, Phase::Subheaders),
        Err(failure(ErrorKind::TruncatedInput, Phase::Subheaders, 0))
    );
    assert_eq!(
        read_optional_field(&buffer, 1, 3, Phase::Subheaders),
        Err(failure(ErrorKind::InvalidEncoding, Phase::Subheaders, 1))
    );
}

#[test]
fn trimmed_field_is_present_even_when_blank() {
    let buffer = b"  MyStation        ";
    assert_eq!(
        read_trimmed_field(buffer, 0, 12, Phase::HeaderFields),
        Ok(("MyStation".to_string(), 12))
    );
    assert_eq!(read_trimmed_field(buffer, 11, 8, Phase::HeaderFields), Ok((String::new(), 19)));
    assert_eq!(
        read_trimmed_field(buffer, 11, 9, Phase::HeaderFields),
        Err(failure(ErrorKind::TruncatedInput, Phase::HeaderFields, 11))
    );
}

#[test]
fn date_is_joined_with_slashes() {
    assert_eq!(
        read_date(b"20240131", 0, Phase::HeaderFields),
        Ok((Some("2024/01/31".to_string()), 8))
    );
    assert_eq!(
        read_date(b"xx19991231yy", 2, Phase::Subheaders),
        Ok((Some("1999/12/31".to_string()), 10))
    );
}

#[test]
fn blank_date_is_left_out() {
    assert_eq!(read_date(b"        ", 0, Phase::HeaderFields), Ok((None, 8)));
    assert_eq!(read_date(b"x        ", 1, Phase::HeaderFields), Ok((None, 9)));
}

#[test]
fn partly_blank_date_is_joined_and_trimmed() {
    assert_eq!(
        read_date(b"2024    ", 0, Phase::HeaderFields),
        Ok((Some("2024/  /".to_string()), 8))
    );
    assert_eq!(
        read_date(b"      31", 0, Phase::HeaderFields),
        Ok((Some("/  /31".to_string()), 8))
    );
    assert_eq!(
        read_date(b" 024011 ", 0, Phase::HeaderFields),
        Ok((Some("024/01/1".to_string()), 8))
    );
}

#[test]
fn date_fails_at_the_part_that_cannot_be_read() {
    assert_eq!(
        read_date(b"202401", 0, Phase::HeaderFields),
        Err(failure(ErrorKind::TruncatedInput, Phase::HeaderFields, 6))
    );
    assert_eq!(
        read_date(b"202", 0, Phase::HeaderFields),
        Err(failure(ErrorKind::TruncatedInput, Phase::HeaderFields, 0))
    );
    assert_eq!(
        read_date(b"20240", 0, Phase::HeaderFields),
        Err(failure(ErrorKind::TruncatedInput, Phase::HeaderFields, 4))
    );
    let bytes = [b'2', b'0', b'2', b'4', 0xFF, b'1', b'3', b'1'];
    assert_eq!(
        read_date(&bytes, 0, Phase::HeaderFields),
        Err(failure(ErrorKind::InvalidEncoding, Phase::HeaderFields, 4))
    );
    // a character that straddles year and month
    let straddle = [b'2', b'0', b'2', 0xC3, 0xA9, b'1', b'3', b'1'];
    assert_eq!(
        read_date(&straddle, 0, Phase::HeaderFields),
        Err(failure(ErrorKind::InvalidEncoding, Phase::HeaderFields, 0))
    );
}

#[test]
fn date_and_time_are_joined_with_a_space() {
    assert_eq!(
        read_date_time(b"20240131123456", 0, Phase::HeaderFields),
        Ok((Some("2024/01/31 12:34:56".to_string()), 14))
    );
    assert_eq!(read_date_time(b"              ", 0, Phase::HeaderFields), Ok((None, 14)));
    assert_eq!(
        read_date_time(b"20240131      ", 0, Phase::HeaderFields),
        Ok((Some("2024/01/31   :  :".to_string()), 14))
    );
    assert_eq!(
        read_date_time(b"            56", 0, Phase::HeaderFields),
        Ok((Some("/  /     :  :56".to_string()), 14))
    );
}

#[test]
fn date_and_time_fail_at_the_part_that_cannot_be_read() {
    assert_eq!(
        read_date_time(b"2024013112345", 0, Phase::Subheaders),
        Err(failure(ErrorKind::TruncatedInput, Phase::Subheaders, 12))
    );
    assert_eq!(
        read_date_time(b"20240131", 0, Phase::Subheaders),
        Err(failure(ErrorKind::TruncatedInput, Phase::Subheaders, 8))
    );
    let mut bytes = b"20240131123456".to_vec();
    bytes[10] = 0xFE;
    assert_eq!(
        read_date_time(&bytes, 0, Phase::Subheaders),
        Err(failure(ErrorKind::InvalidEncoding, Phase::Subheaders, 10))
    );
}

#[test]
fn colour_is_read_from_three_bytes() {
    let buffer = [b'x', 0xFF, 0x80, 0x00, 0x12];
    assert_eq!(read_colour(&buffer, 1, Phase::HeaderFields), Ok(("0xFF8000".to_string(), 4)));
    assert_eq!(read_colour(&buffer, 2, Phase::HeaderFields), Ok(("0x800012".to_string(), 5)));
    assert_eq!(
        read_colour(&buffer, 3, Phase::HeaderFields),
        Err(failure(ErrorKind::TruncatedInput, Phase::HeaderFields, 3))
    );
    assert_eq!(
        read_colour(&buffer, 9, Phase::HeaderFields),
        Err(failure(ErrorKind::TruncatedInput, Phase::HeaderFields, 9))
    );
}

#[test]
fn blank_slots_are_the_slots_of_white_space_for_every_character() {
    let mut white = 0;
    for code in 0..=0x10FFFFu32 {
        let c = match char::from_u32(code) {
            Some(c) => c,
            None => continue,
        };
        let text = c.to_string();
        let bytes = text.as_bytes();
        let blank = ossim_oxide::model::nitf::text::is_blank(&text);
        assert_eq!(blank, c.is_whitespace());
        let read = read_optional_field(bytes, 0, bytes.len(), Phase::Subheaders);
        if blank {
            white += 1;
            assert_eq!(read, Ok((None, bytes.len())));
        } else {
            assert_eq!(read, Ok((Some(text.clone()), bytes.len())));
        }
        let trimmed = read_trimmed_field(bytes, 0, bytes.len(), Phase::Subheaders);
        assert_eq!(trimmed, Ok((if blank { String::new() } else { text.clone() }, bytes.len())));
    }
    assert!(white >= 6);
}

#[test]
fn white_space_is_trimmed_at_both_ends_only() {
    for (slot, value) in [
        ("a", "a"),
        (" a", "a"),
        ("a ", "a"),
        (" a ", "a"),
        ("\t a b \n", "a b"),
        ("\u{3000}a\u{3000}b\u{3000}", "a\u{3000}b"),
        ("\u{200b} ", "\u{200b}"),
        ("  \0  ", "\0"),
    ] {
        let bytes = slot.as_bytes();
        assert_eq!(
            read_optional_field(bytes, 0, bytes.len(), Phase::HeaderFields),
            Ok((Some(value.to_string()), bytes.len()))
        );
        assert_eq!(
            read_trimmed_field(bytes, 0, bytes.len(), Phase::HeaderFields),
            Ok((value.to_string(), bytes.len()))
        );
        assert_eq!(
            read_field(bytes, 0, bytes.len(), Phase::HeaderFields),
            Ok((slot.to_string(), bytes.len()))
        );
    }
}
