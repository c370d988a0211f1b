use ossim_oxide::model::nitf::error::{DecodeError, ErrorKind, Phase};
use ossim_oxide::model::nitf::fields::FieldMap;
use ossim_oxide::model::nitf::tlv::{
    read_tlv_block, record_entries, TlvEntry, LENGTH_WIDTH, RECORD_OVERHEAD, TAG_WIDTH,
};

fn failure(kind: ErrorKind, offset: usize) -> DecodeError {
    DecodeError { kind, phase: Phase::HeaderExtensions, offset }
}

fn entry(tag: &str, length: usize, value: &str) -> TlvEntry {
    TlvEntry { tag: tag.to_string(), length, value: value.to_string() }
}

#[test]
fn record_widths() {
    assert_eq!(TAG_WIDTH, 6);
    assert_eq!(LENGTH_WIDTH, 5);
    assert_eq!(RECORD_OVERHEAD, 11);
}

#[test]
fn empty_area_has_no_records() {
    assert_eq!(read_tlv_block(b"", 0, 0), Ok(vec![]));
    assert_eq!(read_tlv_block(b"abc", 1, 0), Ok(vec![]));
    assert_eq!(read_tlv_block(b"abc", 100, 0), Ok(vec![]));
}

#[test]
fn records_are_read_until_the_area_is_used_up() {
    let buffer = b"..ABCDEF00004ab  GHIJKL00003 cdMNOPQR00000rest";
    assert_eq!(
        read_tlv_block(buffer, 2, 40),
        Ok(vec![entry("ABCDEF", 4, "ab"), entry("GHIJKL", 3, " cd"), entry("MNOPQR", 0, "")])
    );
    assert_eq!(
        read_tlv_block(buffer, 2, 29),
        Ok(vec![entry("ABCDEF", 4, "ab"), entry("GHIJKL", 3, " cd")])
    );
    assert_eq!(read_tlv_block(buffer, 17, 14), Ok(vec![entry("GHIJKL", 3, " cd")]));
}

#[test]
fn only_trailing_white_space_is_trimmed() {
    let buffer = b"TAG   00008  a  b  ";
    assert_eq!(read_tlv_block(buffer, 0, 19), Ok(vec![entry("TAG   ", 8, "  a  b")]));
    let blank = b"BLANK 00003   ";
    assert_eq!(read_tlv_block(blank, 0, 14), Ok(vec![entry("BLANK ", 3, "")]));
}

#[test]
fn records_written_out_again_fill_the_declared_length() {
    let buffer = b"ABCDEF00004ab  GHIJKL00003 cdMNOPQR00000";
    for total in [0usize, 15, 29, 40] {
        let entries = read_tlv_block(buffer, 0, total).unwrap();
        let written: usize = entries.iter().map(|e| 6 + 5 + e.length).sum();
        assert_eq!(written, total);
        for e in &entries {
            assert!(e.value.len() <= e.length);
            assert_eq!(e.tag.len(), 6);
        }
    }
}

#[test]
fn a_record_that_crosses_the_end_of_the_area_is_malformed() {
    let buffer = b"ABCDEF00004ab  GHIJKL00003 cd";
    // the value of the first record would end after the area
    assert_eq!(read_tlv_block(buffer, 0, 14), Err(failure(ErrorKind::MalformedTLV, 0)));
    assert_eq!(read_tlv_block(buffer, 0, 11), Err(failure(ErrorKind::MalformedTLV, 0)));
    // the value of the second record would end after the area
    assert_eq!(read_tlv_block(buffer, 0, 28), Err(failure(ErrorKind::MalformedTLV, 15)));
    // what is left after the first record cannot hold a tag and a length
    assert_eq!(read_tlv_block(buffer, 0, 16), Err(failure(ErrorKind::MalformedTLV, 15)));
    assert_eq!(read_tlv_block(buffer, 0, 25), Err(failure(ErrorKind::MalformedTLV, 15)));
    // nor can an area shorter than that
    assert_eq!(read_tlv_block(buffer, 0, 1), Err(failure(ErrorKind::MalformedTLV, 0)));
    assert_eq!(read_tlv_block(buffer, 0, 10), Err(failure(ErrorKind::MalformedTLV, 0)));
}

#[test]
fn records_that_stop_short_of_the_area_are_not_accepted() {
    let buffer = b"ABCDEF00004ab  ";
    // one byte more than the record: no room for another record
    assert_eq!(read_tlv_block(buffer, 0, 16), Err(failure(ErrorKind::MalformedTLV, 15)));
    // a whole further record is asked for, and the buffer has none
    assert_eq!(read_tlv_block(buffer, 0, 26), Err(failure(ErrorKind::TruncatedInput, 15)));
}

#[test]
fn a_length_that_is_not_decimal_is_a_malformed_count() {
    assert_eq!(
        read_tlv_block(b"ABCDEF0000xab", 0, 13),
        Err(failure(ErrorKind::MalformedCount, 6))
    );
    assert_eq!(
        read_tlv_block(b"ABCDEF    2ab", 0, 13),
        Err(failure(ErrorKind::MalformedCount, 6))
    );
    assert_eq!(
        read_tlv_block(b"..ABCDEF+0002ab", 2, 13),
        Err(failure(ErrorKind::MalformedCount, 8))
    );
}

#[test]
fn an_area_that_runs_past_the_buffer_is_truncated() {
    assert_eq!(read_tlv_block(b"ABCD", 0, 20), Err(failure(ErrorKind::TruncatedInput, 0)));
    assert_eq!(read_tlv_block(b"ABCDEF000", 0, 20), Err(failure(ErrorKind::TruncatedInput, 6)));
    assert_eq!(
        read_tlv_block(b"ABCDEF00009abc", 0, 20),
        Err(failure(ErrorKind::TruncatedInput, 11))
    );
    assert_eq!(read_tlv_block(b"", 5, 20), Err(failure(ErrorKind::TruncatedInput, 5)));
}

#[test]
fn bytes_that_are_not_text_are_refused() {
    let mut tag = b"ABCDEF00002ab".to_vec();
    tag[3] = 0xFF;
    assert_eq!(read_tlv_block(&tag, 0, 13), Err(failure(ErrorKind::InvalidEncoding, 0)));
    let mut length = b"ABCDEF00002ab".to_vec();
    length[8] = 0xFF;
    assert_eq!(read_tlv_block(&length, 0, 13), Err(failure(ErrorKind::InvalidEncoding, 6)));
    let mut value = b"ABCDEF00002ab".to_vec();
    value[12] = 0xFF;
    assert_eq!(read_tlv_block(&value, 0, 13), Err(failure(ErrorKind::InvalidEncoding, 11)));
}

#[test]
fn entries_are_recorded_one_after_the_other() {
    let mut fields = FieldMap::new();
    fields.insert("UDHDL".to_string(), "00040".to_string());
    let entries = vec![entry("ABCDEF", 4, "ab"), entry("GHIJKL", 3, " cd"), entry("ABCDEF", 1, "z")];
    let fields = record_entries(fields, &entries);
    assert_eq!(fields.len(), 3);
    assert_eq!(fields.entry(0), Some(("ABCDEF", "z")));
    assert_eq!(fields.entry(1), Some(("GHIJKL", " cd")));
    assert_eq!(fields.entry(2), Some(("UDHDL", "00040")));
    let unchanged = record_entries(fields.clone(), &vec![]);
    assert_eq!(unchanged, fields);
}

#[test]
fn a_value_of_white_space_is_trimmed_to_nothing_for_every_character() {
    for code in 0..=0x10FFFFu32 {
        let c = match char::from_u32(code) {
            Some(c) => c,
            None => continue,
        };
        let mut buffer = format!("TAG{:03}{:05}x", code % 1000, c.len_utf8() + 1).into_bytes();
        buffer.extend(c.to_string().as_bytes());
        let expected = if c.is_whitespace() { "x".to_string() } else { format!("x{}", c) };
        let entries = read_tlv_block(&buffer, 0, buffer.len()).unwrap();
        assert_eq!(entries.len(), 1);
        assert_eq!(entries[0].value, expected);
        assert_eq!(entries[0].length, c.len_utf8() + 1);
    }
}
