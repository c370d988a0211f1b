use ossim_oxide::model::nitf::error::{DecodeError, ErrorKind, Phase};
use ossim_oxide::model::nitf::fields::FieldMap;
use ossim_oxide::model::nitf::header::{
    decode_extension, decode_file_header, decode_group, decode_raw, width_of, AREA_LENGTH_WIDTH,
    COUNT_WIDTH, MAX_AREA_LENGTH, MAX_SEGMENTS,
};
use ossim_oxide::model::nitf::layout::{decode_field, decode_layout, FieldKind, FieldSpec};
use ossim_oxide::model::nitf::NITF;

fn padded(text: &str, width: usize) -> Vec<u8> {
    let mut bytes = text.as_bytes().to_vec();
    assert!(bytes.len() <= width);
    bytes.resize(width, b' ');
    bytes
}

fn number(value: usize, width: usize) -> Vec<u8> {
    let text = format!("{:0width$}", value, width = width);
    assert_eq!(text.len(), width);
    text.into_bytes()
}

/// The 360 bytes of fixed fields, with every optional field blank.
fn plain_fixed_part() -> Vec<u8> {
    let mut h = Vec::new();
    h.extend(padded("NITF", 4));
    h.extend(padded("02.10", 5));
    h.extend(padded("03", 2));
    h.extend(padded("BF01", 4));
    h.extend(padded("MyStation", 10));
    h.extend(padded("20240131123456", 14));
    h.extend(padded("", 80));
    h.extend(padded("U", 1));
    h.extend(padded("", 2 + 11 + 2 + 20 + 2 + 8 + 4 + 1 + 8 + 43 + 1 + 40 + 1 + 8 + 15));
    h.extend(padded("00001", 5));
    h.extend(padded("00002", 5));
    h.extend(padded("0", 1));
    h.extend([0xFFu8, 0x80, 0x00]);
    h.extend(padded("", 24));
    h.extend(padded("", 18));
    h.extend(number(829, 12));
    h.extend(number(404, 6));
    assert_eq!(h.len(), 360);
    h
}

/// The 360 bytes of fixed fields, with every field filled.
fn full_fixed_part() -> Vec<u8> {
    let mut h = Vec::new();
    h.extend(padded("NITF", 4));
    h.extend(padded("02.10", 5));
    h.extend(padded("03", 2));
    h.extend(padded("BF01", 4));
    h.extend(padded("  Station", 10));
    h.extend(padded("19991231235959", 14));
    h.extend(padded("  A file title", 80));
    h.extend(padded("S", 1));
    h.extend(padded("US", 2));
    h.extend(padded("CODE WORDS", 11));
    h.extend(padded("CH", 2));
    h.extend(padded("REL TO A, B", 20));
    h.extend(padded("DD", 2));
    h.extend(padded("20301231", 8));
    h.extend(padded("X251", 4));
    h.extend(padded("C", 1));
    h.extend(padded("20251231", 8));
    h.extend(padded("Classification text", 43));
    h.extend(padded("O", 1));
    h.extend(padded("An authority", 40));
    h.extend(padded("A", 1));
    h.extend(padded("20200101", 8));
    h.extend(padded("CTRL-0001", 15));
    h.extend(padded("00001", 5));
    h.extend(padded("00002", 5));
    h.extend(padded("0", 1));
    h.extend([0x00u8, 0x0A, 0xBC]);
    h.extend(padded("Jane Doe", 24));
    h.extend(padded("+1 555 0100", 18));
    h.extend(number(1234, 12));
    h.extend(number(404, 6));
    assert_eq!(h.len(), 360);
    h
}

/// Length tables without segments and two empty extension areas.
fn empty_tail() -> Vec<u8> {
    let mut t = Vec::new();
    for _ in 0..6 {
        t.extend(number(0, 3));
    }
    t.extend(number(0, 5));
    t.extend(number(0, 5));
    assert_eq!(t.len(), 28);
    t
}

fn entries(fields: &FieldMap) -> Vec<(String, String)> {
    (0..fields.len())
        .map(|i| {
            let (tag, value) = fields.entry(i).unwrap();
            (tag.to_string(), value.to_string())
        })
        .collect()
}

fn pairs(list: &[(&str, &str)]) -> Vec<(String, String)> {
    let mut all: Vec<(String, String)> =
        list.iter().map(|(t, v)| (t.to_string(), v.to_string())).collect();
    all.sort();
    all
}
const PLAIN_FIXED: [(&str, &str); 12] = [
    ("FHDR", "NITF"),
    ("FVER", "02.10"),
    ("CLEVEL", "03"),
    ("STYPE", "BF01"),
    ("OSTAID", "MyStation"),
    ("FDT", "2024/01/31 12:34:56"),
    ("FSCLAS", "U"),
    ("FSCOP", "00001"),
    ("FSCPYS", "00002"),
    ("ENCRYP", "0"),
    ("FBKGC", "0xFF8000"),
    ("FL", "000000000829"),
];

/// The fields of the plain fixed part together with those given.
fn with_plain_fixed(rest: &[(&str, &str)]) -> Vec<(String, String)> {
    let mut list = PLAIN_FIXED.to_vec();
    list.extend_from_slice(rest);
    pairs(&list)
}


fn failure(kind: ErrorKind, phase: Phase, offset: usize) -> DecodeError {
    DecodeError { kind, phase, offset }
}

#[test]
fn header_limits() {
    assert_eq!(COUNT_WIDTH, 3);
    assert_eq!(MAX_SEGMENTS, 999);
    assert_eq!(AREA_LENGTH_WIDTH, 5);
    assert_eq!(MAX_AREA_LENGTH, 99_999);
}

#[test]
fn plain_header_holds_the_required_fields_in_tag_order() {
    let mut file = plain_fixed_part();
    file.extend(empty_tail());
    let fields = NITF::parse_header(&file).unwrap();
    assert_eq!(
        entries(&fields),
        pairs(&[
            ("FHDR", "NITF"),
            ("FVER", "02.10"),
            ("CLEVEL", "03"),
            ("STYPE", "BF01"),
            ("OSTAID", "MyStation"),
            ("FDT", "2024/01/31 12:34:56"),
            ("FSCLAS", "U"),
            ("FSCOP", "00001"),
            ("FSCPYS", "00002"),
            ("ENCRYP", "0"),
            ("FBKGC", "0xFF8000"),
            ("FL", "000000000829"),
            ("HL", "000404"),
            ("NUMI", "000"),
            ("NUMS", "000"),
            ("NUMX", "000"),
            ("NUMT", "000"),
            ("NUMDES", "000"),
            ("NUMRES", "000"),
            ("UDHDL", "00000"),
            ("XHDL", "00000"),
        ])
    );
    assert_eq!(decode_file_header(&file).unwrap().1, 388);
}

#[test]
fn full_header_holds_every_field_trimmed_where_it_is_optional() {
    let mut file = full_fixed_part();
    file.extend(empty_tail());
    let fields = NITF::parse_header(&file).unwrap();
    assert_eq!(
        entries(&fields),
        pairs(&[
            ("FHDR", "NITF"),
            ("FVER", "02.10"),
            ("CLEVEL", "03"),
            ("STYPE", "BF01"),
            ("OSTAID", "Station"),
            ("FDT", "1999/12/31 23:59:59"),
            ("FTITLE", "A file title"),
            ("FSCLAS", "S"),
            ("FSCLSY", "US"),
            ("FSCODE", "CODE WORDS"),
            ("FSCTLH", "CH"),
            ("FSREL", "REL TO A, B"),
            ("FSDCTP", "DD"),
            ("FSDCDT", "2030/12/31"),
            ("FSDCXM", "X251"),
            ("FSDG", "C"),
            ("FSDGDT", "2025/12/31"),
            ("FSCLTX", "Classification text"),
            ("FSCATP", "O"),
            ("FSCAUT", "An authority"),
            ("FSCRSN", "A"),
            ("FSSRDT", "2020/01/01"),
            ("FSCLTN", "CTRL-0001"),
            ("FSCOP", "00001"),
            ("FSCPYS", "00002"),
            ("ENCRYP", "0"),
            ("FBKGC", "0x000ABC"),
            ("ONAME", "Jane Doe"),
            ("OPHONE", "+1 555 0100"),
            ("FL", "000000001234"),
            ("HL", "000404"),
            ("NUMI", "000"),
            ("NUMS", "000"),
            ("NUMX", "000"),
            ("NUMT", "000"),
            ("NUMDES", "000"),
            ("NUMRES", "000"),
            ("UDHDL", "00000"),
            ("XHDL", "00000"),
        ])
    );
}

#[test]
fn raw_fields_keep_their_blanks_and_trimmed_fields_stay_present() {
    let mut file = plain_fixed_part();
    file.splice(0..4, padded("N", 4));
    file.splice(15..25, padded("", 10));
    file.splice(25..39, padded("", 14));
    file.extend(empty_tail());
    let fields = NITF::parse_header(&file).unwrap();
    assert_eq!(fields.get("FHDR"), Some("N   "));
    assert_eq!(fields.get("OSTAID"), Some(""));
    assert_eq!(fields.get("FDT"), None);
    assert_eq!(fields.get("FTITLE"), None);
    assert_eq!(fields.get("FSCLAS"), Some("U"));
    assert!(fields.contains_key("OSTAID"));
    assert!(!fields.contains_key("FDT"));
}

#[test]
fn optional_fields_that_are_present_are_never_blank() {
    let optional = [
        "FDT", "FTITLE", "FSCLSY", "FSCODE", "FSCTLH", "FSREL", "FSDCTP", "FSDCDT", "FSDCXM",
        "FSDG", "FSDGDT", "FSCLTX", "FSCATP", "FSCAUT", "FSCRSN", "FSSRDT", "FSCLTN", "ONAME",
        "OPHONE",
    ];
    for fixed in [plain_fixed_part(), full_fixed_part()] {
        let mut file = fixed;
        file.extend(empty_tail());
        let fields = NITF::parse_header(&file).unwrap();
        for tag in optional {
            if let Some(value) = fields.get(tag) {
                assert!(!value.trim().is_empty());
                assert_eq!(value.trim(), value);
            }
        }
    }
    let mut plain = plain_fixed_part();
    plain.extend(empty_tail());
    let fields = NITF::parse_header(&plain).unwrap();
    for tag in &optional[1..] {
        assert_eq!(fields.get(tag), None);
    }
}

#[test]
fn length_tables_are_recorded_under_numbered_tags() {
    let mut file = plain_fixed_part();
    file.extend(number(2, 3));
    file.extend(number(439, 6));
    file.extend(number(100, 10));
    file.extend(number(290, 6));
    file.extend(number(9_999_999_999, 10));
    file.extend(number(1, 3));
    file.extend(number(258, 4));
    file.extend(number(123_456, 6));
    file.extend(padded("0 1", 3));
    file.extend(number(1, 3));
    file.extend(number(282, 4));
    file.extend(number(99_999, 5));
    file.extend(number(2, 3));
    file.extend(number(200, 4));
    file.extend(number(999_999_999, 9));
    file.extend(number(201, 4));
    file.extend(number(1, 9));
    file.extend(number(1, 3));
    file.extend(number(77, 4));
    file.extend(number(7_654_321, 7));
    file.extend(number(0, 5));
    file.extend(number(0, 5));
    let (fields, end) = decode_file_header(&file).unwrap();
    assert_eq!(end, file.len());
    assert_eq!(
        entries(&fields),
        with_plain_fixed(&[
            ("HL", "000404"),
            ("NUMI", "002"),
            ("LISH001", "000439"),
            ("LI001", "0000000100"),
            ("LISH002", "000290"),
            ("LI002", "9999999999"),
            ("NUMS", "001"),
            ("LSSH001", "0258"),
            ("LS001", "123456"),
            ("NUMX", "0 1"),
            ("NUMT", "001"),
            ("LTSH001", "0282"),
            ("LT001", "99999"),
            ("NUMDES", "002"),
            ("LDSH001", "0200"),
            ("LD001", "999999999"),
            ("LDSH002", "0201"),
            ("LD002", "000000001"),
            ("NUMRES", "001"),
            ("LRESH001", "0077"),
            ("LRE001", "7654321"),
            ("UDHDL", "00000"),
            ("XHDL", "00000"),
        ])
    );
}

#[test]
fn lengths_in_the_tables_are_recorded_as_they_stand() {
    let mut file = plain_fixed_part();
    file.extend(number(1, 3));
    file.extend(padded("abc", 6));
    file.extend(padded("", 10));
    file.extend(empty_tail()[3..].to_vec());
    let fields = NITF::parse_header(&file).unwrap();
    assert_eq!(fields.get("LISH001"), Some("abc   "));
    assert_eq!(fields.get("LI001"), Some("          "));
}

#[test]
fn a_table_numbers_its_entries_with_three_digits() {
    let mut buffer = number(12, 3);
    for n in 1..=12 {
        buffer.extend(number(n, 4));
        buffer.extend(number(100 + n, 5));
    }
    let (fields, end) =
        decode_group(&buffer, FieldMap::new(), 0, "NUMT", "LTSH", 4, "LT", 5).unwrap();
    assert_eq!(end, 3 + 12 * 9);
    assert_eq!(fields.len(), 25);
    assert_eq!(fields.get("NUMT"), Some("012"));
    assert_eq!(fields.get("LTSH001"), Some("0001"));
    assert_eq!(fields.get("LT001"), Some("00101"));
    assert_eq!(fields.get("LTSH010"), Some("0010"));
    assert_eq!(fields.get("LT010"), Some("00110"));
    assert_eq!(fields.get("LT012"), Some("00112"));
    // in the order of tags the data lengths come first, the count last
    assert_eq!(fields.entry(0), Some(("LT001", "00101")));
    assert_eq!(fields.entry(11), Some(("LT012", "00112")));
    assert_eq!(fields.entry(12), Some(("LTSH001", "0001")));
    assert_eq!(fields.entry(23), Some(("LTSH012", "0012")));
    assert_eq!(fields.entry(24), Some(("NUMT", "012")));
}

#[test]
fn a_table_with_the_largest_count_is_numbered_up_to_999() {
    let mut buffer = number(999, 3);
    for n in 1..=999 {
        buffer.extend(number(n, 4));
        buffer.extend(number(n % 7, 6));
    }
    let (fields, end) =
        decode_group(&buffer, FieldMap::new(), 0, "NUMS", "LSSH", 4, "LS", 6).unwrap();
    assert_eq!(end, 3 + 999 * 10);
    assert_eq!(fields.len(), 1 + 2 * 999);
    assert_eq!(fields.get("LSSH100"), Some("0100"));
    assert_eq!(fields.get("LSSH999"), Some("0999"));
    assert_eq!(fields.get("LS999"), Some("000005"));
    assert_eq!(fields.get("LSSH1000"), None);
    assert_eq!(fields.get("LSSH000"), None);
}

#[test]
fn a_count_that_is_not_decimal_is_malformed() {
    for bad in ["0x1", " 01", "1  ", "+01", "-01", "   "] {
        let mut file = plain_fixed_part();
        file.extend(padded(bad, 3));
        file.extend(empty_tail());
        assert_eq!(
            NITF::parse_header(&file),
            Err(failure(ErrorKind::MalformedCount, Phase::HeaderFields, 360))
        );
    }
    let mut file = plain_fixed_part();
    file.extend(number(0, 3));
    file.extend(padded("00a", 3));
    file.extend(empty_tail());
    assert_eq!(
        NITF::parse_header(&file),
        Err(failure(ErrorKind::MalformedCount, Phase::HeaderFields, 363))
    );
}

#[test]
fn a_header_that_ends_early_is_truncated_at_the_field_that_is_cut() {
    let mut file = full_fixed_part();
    file.extend(number(1, 3));
    file.extend(number(439, 6));
    file.extend(number(100, 10));
    file.extend(empty_tail()[3..].to_vec());
    assert_eq!(file.len(), 404);
    let starts = [
        (0, 0),
        (3, 0),
        (4, 4),
        (8, 4),
        (9, 9),
        (14, 11),
        (25, 25),
        (29, 29),
        (31, 31),
        (38, 37),
        (39, 39),
        (118, 39),
        (119, 119),
        (120, 120),
        (353, 342),
        (359, 354),
        (360, 360),
        (362, 360),
        (363, 363),
        (368, 363),
        (369, 369),
        (378, 369),
        (379, 379),
        (382, 382),
        (393, 391),
        (394, 394),
        (398, 394),
        (399, 399),
        (403, 399),
    ];
    for (length, offset) in starts {
        let e = NITF::parse_header(&file[..length]).unwrap_err();
        assert_eq!(e.kind, ErrorKind::TruncatedInput);
        assert_eq!(e.offset, offset);
        let phase = if offset >= 394 { Phase::HeaderExtensions } else { Phase::HeaderFields };
        assert_eq!(e.phase, phase);
    }
    assert!(NITF::parse_header(&file).is_ok());
}

#[test]
fn header_bytes_that_are_not_text_are_refused() {
    let mut file = plain_fixed_part();
    file.extend(empty_tail());
    file[40] = 0xFF;
    assert_eq!(
        NITF::parse_header(&file),
        Err(failure(ErrorKind::InvalidEncoding, Phase::HeaderFields, 39))
    );
    let mut file = plain_fixed_part();
    file.extend(empty_tail());
    file[361] = 0xC0;
    assert_eq!(
        NITF::parse_header(&file),
        Err(failure(ErrorKind::InvalidEncoding, Phase::HeaderFields, 360))
    );
}

#[test]
fn an_empty_user_defined_area_leaves_no_trace() {
    let mut file = plain_fixed_part();
    file.extend(empty_tail());
    let fields = NITF::parse_header(&file).unwrap();
    assert_eq!(fields.get("UDHDL"), Some("00000"));
    assert_eq!(fields.get("UDHOFL"), None);
    assert_eq!(fields.get("XHDL"), Some("00000"));
    assert_eq!(fields.get("XHOFL"), None);
    assert_eq!(fields.len(), 21);
}

#[test]
fn the_user_defined_length_counts_the_records_alone() {
    let mut file = plain_fixed_part();
    file.extend(empty_tail()[..18].to_vec());
    file.extend(number(29, 5));
    file.extend(padded(" 07", 3));
    file.extend(b"ABCDEF00004ab  GHIJKL00003 cd".to_vec());
    file.extend(number(0, 5));
    let (fields, end) = decode_file_header(&file).unwrap();
    assert_eq!(end, file.len());
    assert_eq!(
        entries(&fields),
        with_plain_fixed(&[
            ("HL", "000404"),
            ("NUMI", "000"),
            ("NUMS", "000"),
            ("NUMX", "000"),
            ("NUMT", "000"),
            ("NUMDES", "000"),
            ("NUMRES", "000"),
            ("UDHDL", "00029"),
            ("UDHOFL", " 07"),
            ("ABCDEF", "ab"),
            ("GHIJKL", " cd"),
            ("XHDL", "00000"),
        ])
    );
}

#[test]
fn the_extended_length_counts_the_overflow_field_too() {
    let mut file = plain_fixed_part();
    file.extend(empty_tail()[..23].to_vec());
    file.extend(number(32, 5));
    file.extend(padded(" 07", 3));
    file.extend(b"ABCDEF00004ab  GHIJKL00003 cd".to_vec());
    let (fields, end) = decode_file_header(&file).unwrap();
    assert_eq!(end, file.len());
    assert_eq!(
        entries(&fields),
        with_plain_fixed(&[
            ("HL", "000404"),
            ("NUMI", "000"),
            ("NUMS", "000"),
            ("NUMX", "000"),
            ("NUMT", "000"),
            ("NUMDES", "000"),
            ("NUMRES", "000"),
            ("UDHDL", "00000"),
            ("XHDL", "00032"),
            ("XHOFL", "07"),
            ("ABCDEF", "ab"),
            ("GHIJKL", " cd"),
        ])
    );
    // the same bytes under a length that leaves the overflow field out
    let mut short = file.clone();
    short.splice(383..388, number(29, 5));
    assert_eq!(
        NITF::parse_header(&short),
        Err(failure(ErrorKind::MalformedTLV, Phase::HeaderExtensions, 406))
    );
}

#[test]
fn an_extended_area_of_just_the_overflow_field_has_no_records() {
    let mut buffer = number(3, 5);
    buffer.extend(padded("001", 3));
    let overflow = FieldSpec { tag: "XHOFL", kind: FieldKind::Trimmed(3) };
    let (fields, end) =
        decode_extension(&buffer, FieldMap::new(), 0, "XHDL", overflow, true).unwrap();
    assert_eq!(end, 8);
    assert_eq!(entries(&fields), pairs(&[("XHDL", "00003"), ("XHOFL", "001")]));
}

#[test]
fn an_extended_area_too_short_for_its_overflow_field_is_malformed() {
    for declared in [1, 2] {
        let mut buffer = b"..".to_vec();
        buffer.extend(number(declared, 5));
        buffer.extend(padded("001", 3));
        let overflow = FieldSpec { tag: "XHOFL", kind: FieldKind::Trimmed(3) };
        assert_eq!(
            decode_extension(&buffer, FieldMap::new(), 2, "XHDL", overflow, true),
            Err(failure(ErrorKind::MalformedTLV, Phase::HeaderExtensions, 7))
        );
        // where the overflow field is not counted, the length is all records
        let overflow = FieldSpec { tag: "UDHOFL", kind: FieldKind::Raw(3) };
        assert_eq!(
            decode_extension(&buffer, FieldMap::new(), 2, "UDHDL", overflow, false),
            Err(failure(ErrorKind::MalformedTLV, Phase::HeaderExtensions, 10))
        );
    }
}

#[test]
fn an_area_length_that_is_not_decimal_is_malformed() {
    for bad in ["abcde", "    0", "0000 ", "+0001", "00 00"] {
        let mut file = plain_fixed_part();
        file.extend(empty_tail()[..18].to_vec());
        file.extend(padded(bad, 5));
        file.extend(number(0, 5));
        assert_eq!(
            NITF::parse_header(&file),
            Err(failure(ErrorKind::MalformedCount, Phase::HeaderExtensions, 378))
        );
    }
}

#[test]
fn an_area_whose_records_do_not_fill_it_is_malformed() {
    let mut file = plain_fixed_part();
    file.extend(empty_tail()[..18].to_vec());
    file.extend(number(16, 5));
    file.extend(padded("000", 3));
    file.extend(b"ABCDEF00004ab  x".to_vec());
    file.extend(number(0, 5));
    assert_eq!(
        NITF::parse_header(&file),
        Err(failure(ErrorKind::MalformedTLV, Phase::HeaderExtensions, 386 + 15))
    );
    let mut file = plain_fixed_part();
    file.extend(empty_tail()[..18].to_vec());
    file.extend(number(14, 5));
    file.extend(padded("000", 3));
    file.extend(b"ABCDEF00004ab  ".to_vec());
    file.extend(number(0, 5));
    assert_eq!(
        NITF::parse_header(&file),
        Err(failure(ErrorKind::MalformedTLV, Phase::HeaderExtensions, 386))
    );
}

#[test]
fn a_record_takes_the_place_of_a_field_with_the_same_tag() {
    let mut file = plain_fixed_part();
    file.extend(empty_tail()[..18].to_vec());
    file.extend(number(41, 5));
    file.extend(padded("000", 3));
    file.extend(b"OSTAID00005Other".to_vec());
    file.extend(b"FTITLE00002  ".to_vec());
    file.extend(b"NUMDES00001x".to_vec());
    file.extend(number(0, 5));
    let fields = NITF::parse_header(&file).unwrap();
    assert_eq!(fields.get("OSTAID"), Some("Other"));
    assert_eq!(fields.get("FTITLE"), Some(""));
    assert_eq!(fields.get("NUMDES"), Some("x"));
    assert_eq!(fields.get("UDHOFL"), Some("000"));
    // the plain header's 21 fields, the overflow field and the one new tag
    assert_eq!(fields.len(), 23);
}

#[test]
fn decode_raw_records_the_text_as_it_stands() {
    let buffer = b"  ab  cd";
    let (fields, next) =
        decode_raw(buffer, FieldMap::new(), 0, "TAG".to_string(), 6, Phase::HeaderFields).unwrap();
    assert_eq!(next, 6);
    assert_eq!(entries(&fields), pairs(&[("TAG", "  ab  ")]));
    assert_eq!(
        decode_raw(buffer, FieldMap::new(), 3, "TAG".to_string(), 6, Phase::HeaderFields),
        Err(failure(ErrorKind::TruncatedInput, Phase::HeaderFields, 3))
    );
}

#[test]
fn decode_field_goes_by_the_kind() {
    let buffer = b" ab 20240131        123456\x01\x02\x03";
    let read = |kind, cursor| {
        let field = FieldSpec { tag: "T", kind };
        decode_field(buffer, FieldMap::new(), cursor, &field, Phase::Subheaders)
            .map(|(fields, next)| (fields.get("T").map(|v| v.to_string()), next))
    };
    assert_eq!(read(FieldKind::Raw(4), 0), Ok((Some(" ab ".to_string()), 4)));
    assert_eq!(read(FieldKind::Trimmed(4), 0), Ok((Some("ab".to_string()), 4)));
    assert_eq!(read(FieldKind::Optional(4), 0), Ok((Some("ab".to_string()), 4)));
    assert_eq!(read(FieldKind::Raw(4), 12), Ok((Some("    ".to_string()), 16)));
    assert_eq!(read(FieldKind::Trimmed(4), 12), Ok((Some(String::new()), 16)));
    assert_eq!(read(FieldKind::Optional(4), 12), Ok((None, 16)));
    assert_eq!(read(FieldKind::Date, 4), Ok((Some("2024/01/31".to_string()), 12)));
    assert_eq!(read(FieldKind::Date, 12), Ok((None, 20)));
    assert_eq!(
        read(FieldKind::DateTime, 4),
        Ok((Some("2024/01/31   :  :".to_string()), 18))
    );
    assert_eq!(
        read(FieldKind::DateTime, 12),
        Ok((Some("/  /   12:34:56".to_string()), 26))
    );
    assert_eq!(read(FieldKind::Colour, 26), Ok((Some("0x010203".to_string()), 29)));
    assert_eq!(
        read(FieldKind::Colour, 27),
        Err(failure(ErrorKind::TruncatedInput, Phase::Subheaders, 27))
    );
}

#[test]
fn field_widths() {
    assert_eq!(width_of(FieldKind::Raw(7)), 7);
    assert_eq!(width_of(FieldKind::Trimmed(0)), 0);
    assert_eq!(width_of(FieldKind::Optional(80)), 80);
    assert_eq!(width_of(FieldKind::Date), 8);
    assert_eq!(width_of(FieldKind::DateTime), 14);
    assert_eq!(width_of(FieldKind::Colour), 3);
}

#[test]
fn a_layout_is_read_field_after_field() {
    let layout = vec![
        FieldSpec { tag: "A", kind: FieldKind::Raw(2) },
        FieldSpec { tag: "B", kind: FieldKind::Optional(3) },
        FieldSpec { tag: "C", kind: FieldKind::Date },
        FieldSpec { tag: "A", kind: FieldKind::Trimmed(2) },
    ];
    let buffer = b"..xy   20240131 z";
    let (fields, end) =
        decode_layout(buffer, FieldMap::new(), 2, &layout, Phase::Subheaders).unwrap();
    assert_eq!(end, 17);
    assert_eq!(entries(&fields), pairs(&[("A", "z"), ("C", "2024/01/31")]));
    assert_eq!(
        decode_layout(&buffer[..16], FieldMap::new(), 2, &layout, Phase::Subheaders),
        Err(failure(ErrorKind::TruncatedInput, Phase::Subheaders, 15))
    );
    let mut start = FieldMap::new();
    start.insert("Z".to_string(), "kept".to_string());
    let (fields, end) = decode_layout(buffer, start, 5, &vec![], Phase::Subheaders).unwrap();
    assert_eq!(end, 5);
    assert_eq!(entries(&fields), pairs(&[("Z", "kept")]));
}

/// A header with records in both extension areas.
fn header_with_both_areas() -> Vec<u8> {
    let mut file = full_fixed_part();
    file.extend(empty_tail()[..18].to_vec());
    file.extend(number(29, 5));
    file.extend(padded("001", 3));
    file.extend(b"ABCDEF00004ab  GHIJKL00003 cd".to_vec());
    file.extend(number(3 + 11 + 16, 5));
    file.extend(padded("002", 3));
    file.extend(b"MNOPQR00000".to_vec());
    file.extend(b"STUVWX00005hello".to_vec());
    file
}

#[test]
fn the_records_of_an_area_fill_its_declared_length() {
    let file = header_with_both_areas();
    let (fields, end) = decode_file_header(&file).unwrap();
    assert_eq!(end, file.len());
    let user_length: usize = fields.get("UDHDL").unwrap().parse().unwrap();
    let extended_length: usize = fields.get("XHDL").unwrap().parse().unwrap();
    assert_eq!(user_length, 29);
    assert_eq!(extended_length, 30);
    let user_start = 378 + 5 + 3;
    let extended_start = user_start + user_length + 5 + 3;
    let user =
        ossim_oxide::model::nitf::tlv::read_tlv_block(&file, user_start, user_length).unwrap();
    let extended = ossim_oxide::model::nitf::tlv::read_tlv_block(
        &file,
        extended_start,
        extended_length - 3,
    )
    .unwrap();
    assert_eq!(user.iter().map(|e| 6 + 5 + e.length).sum::<usize>(), user_length);
    assert_eq!(extended.iter().map(|e| 6 + 5 + e.length).sum::<usize>(), extended_length - 3);
    assert_eq!(user.len(), 2);
    assert_eq!(extended.len(), 2);
    for e in user.iter().chain(&extended) {
        assert_eq!(fields.get(&e.tag), Some(e.value.as_str()));
    }
    assert_eq!(fields.get("UDHOFL"), Some("001"));
    assert_eq!(fields.get("XHOFL"), Some("002"));
}

#[test]
fn an_overflow_field_is_present_exactly_when_its_area_is_not_empty() {
    for (user, extended) in [(0usize, 0usize), (11, 0), (0, 14), (11, 14), (0, 3), (22, 3)] {
        let mut file = plain_fixed_part();
        file.extend(empty_tail()[..18].to_vec());
        file.extend(number(user, 5));
        if user > 0 {
            file.extend(padded("000", 3));
            for k in 0..user / 11 {
                file.extend(format!("USER{:02}00000", k).into_bytes());
            }
        }
        file.extend(number(extended, 5));
        if extended > 0 {
            file.extend(padded("000", 3));
            for k in 0..(extended - 3) / 11 {
                file.extend(format!("EXTD{:02}00000", k).into_bytes());
            }
        }
        let fields = NITF::parse_header(&file).unwrap();
        let declared = |tag: &str| -> usize { fields.get(tag).unwrap().parse().unwrap() };
        assert_eq!(declared("UDHDL"), user);
        assert_eq!(declared("XHDL"), extended);
        assert_eq!(fields.contains_key("UDHOFL"), user > 0);
        assert_eq!(fields.contains_key("XHOFL"), extended > 0);
        assert_eq!(fields.contains_key("USER00"), user > 0);
        assert_eq!(fields.contains_key("USER01"), user > 11);
        assert_eq!(fields.contains_key("EXTD00"), extended > 3);
    }
}

#[test]
fn every_header_cut_short_is_truncated_input() {
    let file = header_with_both_areas();
    assert!(NITF::parse_header(&file).is_ok());
    for length in 0..file.len() {
        let e = NITF::parse_header(&file[..length]).unwrap_err();
        assert_eq!(e.kind, ErrorKind::TruncatedInput);
        assert!(e.offset <= length);
    }
    for length in 0..4 {
        assert_eq!(
            NITF::parse_header(&file[..length]),
            Err(failure(ErrorKind::TruncatedInput, Phase::HeaderFields, 0))
        );
        assert_eq!(
            NITF::parse_header(&vec![0xFFu8; length]),
            Err(failure(ErrorKind::TruncatedInput, Phase::HeaderFields, 0))
        );
    }
}

#[test]
fn header_fields_stand_in_ascending_order_of_tag() {
    let file = header_with_both_areas();
    let fields = NITF::parse_header(&file).unwrap();
    let tags: Vec<String> = entries(&fields).into_iter().map(|(tag, _)| tag).collect();
    let mut sorted = tags.clone();
    sorted.sort();
    sorted.dedup();
    assert_eq!(tags, sorted);
    assert_eq!(tags[0], "ABCDEF");
    assert_eq!(tags[1], "CLEVEL");
    assert_eq!(tags[tags.len() - 1], "XHOFL");
}
