//! The file header: fixed fields, segment length tables, extension areas.

use vstd::prelude::*;

use super::error::{DecodeError, ErrorKind, Phase};
use super::fields::{put, FieldMap};
use super::layout::{
    apply_field, decode_field, decode_layout, distinct_layout, read_layout, same_progress,
    FieldKind, FieldSpec, Progress,
};
use super::reader::{failure, field_text, read_field, slot_text};
use super::text::{
    decimal_of, indexed_tag, lemma_texts_differ, make_indexed_tag, parse_decimal,
};
use super::tlv::{put_records, read_tlv_block, record_entries, tlv_records};

verus! {

/// The width of a segment count, in bytes.
pub const COUNT_WIDTH: usize = 3;

/// The largest segment count that three digits can express.
pub const MAX_SEGMENTS: usize = 999;

/// The width of the declared length of an extension area, in bytes.
pub const AREA_LENGTH_WIDTH: usize = 5;

/// The largest length that five digits can express.
pub const MAX_AREA_LENGTH: usize = 99_999;

/// The number that a segment count field holds: a decimal of at most 999.
pub open spec fn segment_count_of(text: Seq<char>) -> Option<nat> {
    match decimal_of(text) {
        Some(n) => if n <= MAX_SEGMENTS {
            Some(n)
        } else {
            None
        },
        None => None,
    }
}

/// The number that the length field of an extension area holds: a decimal
/// of at most 99999.
pub open spec fn area_length_of(text: Seq<char>) -> Option<nat> {
    match decimal_of(text) {
        Some(n) => if n <= MAX_AREA_LENGTH {
            Some(n)
        } else {
            None
        },
        None => None,
    }
}

/// The progress after reading `width` bytes and recording their text, as it
/// stands, under `tag`.
pub open spec fn record_raw(
    bytes: Seq<u8>,
    at: Progress,
    tag: Seq<char>,
    width: int,
    phase: Phase,
) -> Result<Progress, DecodeError> {
    match field_text(bytes, at.cursor, width, phase) {
        Err(e) => Err(e),
        Ok(t) => Ok(Progress { fields: put(at.fields, tag, t), cursor: at.cursor + width }),
    }
}

/// The progress after reading the entries `index` to `count` of a segment
/// length table. Each entry is a subheader length and a segment length,
/// recorded under the two prefixes followed by the entry's number.
pub open spec fn read_group_entries(
    bytes: Seq<u8>,
    at: Progress,
    subheader_prefix: Seq<char>,
    subheader_width: int,
    segment_prefix: Seq<char>,
    segment_width: int,
    index: nat,
    count: nat,
) -> Result<Progress, DecodeError>
    decreases count + 1 - index,
{
    let phase = Phase::HeaderFields;
    if index > count {
        Ok(at)
    } else {
        match record_raw(bytes, at, indexed_tag(subheader_prefix, index), subheader_width, phase) {
            Err(e) => Err(e),
            Ok(middle) => match record_raw(
                bytes,
                middle,
                indexed_tag(segment_prefix, index),
                segment_width,
                phase,
            ) {
                Err(e) => Err(e),
                Ok(next) => read_group_entries(
                    bytes,
                    next,
                    subheader_prefix,
                    subheader_width,
                    segment_prefix,
                    segment_width,
                    index + 1,
                    count,
                ),
            },
        }
    }
}

/// The progress after reading a segment length table: a three-digit count,
/// recorded under `count_tag`, and that many entries.
pub open spec fn read_group(
    bytes: Seq<u8>,
    at: Progress,
    count_tag: Seq<char>,
    subheader_prefix: Seq<char>,
    subheader_width: int,
    segment_prefix: Seq<char>,
    segment_width: int,
) -> Result<Progress, DecodeError> {
    let phase = Phase::HeaderFields;
    match field_text(bytes, at.cursor, COUNT_WIDTH as int, phase) {
        Err(e) => Err(e),
        Ok(digits) => match segment_count_of(digits) {
            None => Err(failure(ErrorKind::MalformedCount, phase, at.cursor)),
            Some(count) => read_group_entries(
                bytes,
                Progress {
                    fields: put(at.fields, count_tag, digits),
                    cursor: at.cursor + COUNT_WIDTH,
                },
                subheader_prefix,
                subheader_width,
                segment_prefix,
                segment_width,
                1,
                count,
            ),
        },
    }
}

/// The progress after reading an extension area.
///
/// The area begins with its declared length in five digits, recorded under
/// `length_tag`. A length of zero ends the area. Otherwise an overflow
/// field follows and then tagged records, whose values are recorded under
/// their tags. The records fill the declared length, less the overflow
/// field where `overflow_counted` says that the declared length includes it.
pub open spec fn read_extension(
    bytes: Seq<u8>,
    at: Progress,
    length_tag: Seq<char>,
    overflow: FieldSpec,
    overflow_counted: bool,
) -> Result<Progress, DecodeError> {
    let phase = Phase::HeaderExtensions;
    match field_text(bytes, at.cursor, AREA_LENGTH_WIDTH as int, phase) {
        Err(e) => Err(e),
        Ok(digits) => match area_length_of(digits) {
            None => Err(failure(ErrorKind::MalformedCount, phase, at.cursor)),
            Some(declared) => {
                let inside = Progress {
                    fields: put(at.fields, length_tag, digits),
                    cursor: at.cursor + AREA_LENGTH_WIDTH,
                };
                let reserved = if overflow_counted {
                    overflow.kind.width()
                } else {
                    0
                };
                if declared == 0 {
                    Ok(inside)
                } else if declared < reserved {
                    Err(failure(ErrorKind::MalformedTLV, phase, inside.cursor))
                } else {
                    match apply_field(bytes, inside, overflow, phase) {
                        Err(e) => Err(e),
                        Ok(body) => match tlv_records(bytes, body.cursor, declared - reserved) {
                            Err(e) => Err(e),
                            Ok(records) => Ok(
                                Progress {
                                    fields: put_records(body.fields, records),
                                    cursor: body.cursor + declared - reserved,
                                },
                            ),
                        },
                    }
                }
            },
        },
    }
}

/// Continues a decode with a layout, unless it has failed already.
pub open spec fn then_layout(
    bytes: Seq<u8>,
    so_far: Result<Progress, DecodeError>,
    layout: Seq<FieldSpec>,
) -> Result<Progress, DecodeError> {
    match so_far {
        Err(e) => Err(e),
        Ok(at) => read_layout(bytes, at, layout, Phase::HeaderFields),
    }
}

/// Continues a decode with a segment length table, unless it has failed
/// already.
pub open spec fn then_group(
    bytes: Seq<u8>,
    so_far: Result<Progress, DecodeError>,
    count_tag: Seq<char>,
    subheader_prefix: Seq<char>,
    subheader_width: int,
    segment_prefix: Seq<char>,
    segment_width: int,
) -> Result<Progress, DecodeError> {
    match so_far {
        Err(e) => Err(e),
        Ok(at) => read_group(
            bytes,
            at,
            count_tag,
            subheader_prefix,
            subheader_width,
            segment_prefix,
            segment_width,
        ),
    }
}

/// Continues a decode with an extension area, unless it has failed already.
pub open spec fn then_extension(
    bytes: Seq<u8>,
    so_far: Result<Progress, DecodeError>,
    length_tag: Seq<char>,
    overflow: FieldSpec,
    overflow_counted: bool,
) -> Result<Progress, DecodeError> {
    match so_far {
        Err(e) => Err(e),
        Ok(at) => read_extension(bytes, at, length_tag, overflow, overflow_counted),
    }
}

/// The fixed fields at the start of the file header, up to the header length.
pub open spec fn header_layout() -> Seq<FieldSpec> {
    seq![
        FieldSpec { tag: "FHDR", kind: FieldKind::Raw(4) },
        FieldSpec { tag: "FVER", kind: FieldKind::Raw(5) },
        FieldSpec { tag: "CLEVEL", kind: FieldKind::Raw(2) },
        FieldSpec { tag: "STYPE", kind: FieldKind::Raw(4) },
        FieldSpec { tag: "OSTAID", kind: FieldKind::Trimmed(10) },
        FieldSpec { tag: "FDT", kind: FieldKind::DateTime },
        FieldSpec { tag: "FTITLE", kind: FieldKind::Optional(80) },
        FieldSpec { tag: "FSCLAS", kind: FieldKind::Raw(1) },
        FieldSpec { tag: "FSCLSY", kind: FieldKind::Optional(2) },
        FieldSpec { tag: "FSCODE", kind: FieldKind::Optional(11) },
        FieldSpec { tag: "FSCTLH", kind: FieldKind::Optional(2) },
        FieldSpec { tag: "FSREL", kind: FieldKind::Optional(20) },
        FieldSpec { tag: "FSDCTP", kind: FieldKind::Optional(2) },
        FieldSpec { tag: "FSDCDT", kind: FieldKind::Date },
        FieldSpec { tag: "FSDCXM", kind: FieldKind::Optional(4) },
        FieldSpec { tag: "FSDG", kind: FieldKind::Optional(1) },
        FieldSpec { tag: "FSDGDT", kind: FieldKind::Date },
        FieldSpec { tag: "FSCLTX", kind: FieldKind::Optional(43) },
        FieldSpec { tag: "FSCATP", kind: FieldKind::Optional(1) },
        FieldSpec { tag: "FSCAUT", kind: FieldKind::Optional(40) },
        FieldSpec { tag: "FSCRSN", kind: FieldKind::Optional(1) },
        FieldSpec { tag: "FSSRDT", kind: FieldKind::Date },
        FieldSpec { tag: "FSCLTN", kind: FieldKind::Optional(15) },
        FieldSpec { tag: "FSCOP", kind: FieldKind::Trimmed(5) },
        FieldSpec { tag: "FSCPYS", kind: FieldKind::Trimmed(5) },
        FieldSpec { tag: "ENCRYP", kind: FieldKind::Trimmed(1) },
        FieldSpec { tag: "FBKGC", kind: FieldKind::Colour },
        FieldSpec { tag: "ONAME", kind: FieldKind::Optional(24) },
        FieldSpec { tag: "OPHONE", kind: FieldKind::Optional(18) },
        FieldSpec { tag: "FL", kind: FieldKind::Raw(12) },
        FieldSpec { tag: "HL", kind: FieldKind::Raw(6) },
    ]
}

/// The reserved count that stands between the graphic and the text tables.
pub open spec fn reserved_count_layout() -> Seq<FieldSpec> {
    seq![FieldSpec { tag: "NUMX", kind: FieldKind::Raw(3) }]
}

/// The overflow field of the user-defined header area.
pub open spec fn user_defined_overflow() -> FieldSpec {
    FieldSpec { tag: "UDHOFL", kind: FieldKind::Raw(3) }
}

/// The overflow field of the extended header area.
pub open spec fn extended_overflow() -> FieldSpec {
    FieldSpec { tag: "XHOFL", kind: FieldKind::Trimmed(3) }
}

/// The decode of a file header up to its extension areas, from the first
/// byte of the buffer: the fixed fields; the length tables of the image
/// and graphic segments; the reserved count; and the length tables of the
/// text, data-extension and reserved-extension segments.
pub open spec fn tables_progress(bytes: Seq<u8>) -> Result<Progress, DecodeError> {
    let start = Progress { fields: Seq::empty(), cursor: 0 };
    let fixed = read_layout(bytes, start, header_layout(), Phase::HeaderFields);
    let images = then_group(bytes, fixed, "NUMI"@, "LISH"@, 6, "LI"@, 10);
    let graphics = then_group(bytes, images, "NUMS"@, "LSSH"@, 4, "LS"@, 6);
    let reserved = then_layout(bytes, graphics, reserved_count_layout());
    let texts = then_group(bytes, reserved, "NUMT"@, "LTSH"@, 4, "LT"@, 5);
    let data = then_group(bytes, texts, "NUMDES"@, "LDSH"@, 4, "LD"@, 9);
    then_group(bytes, data, "NUMRES"@, "LRESH"@, 4, "LRE"@, 7)
}

/// The decode of a file header up to its extended header area: the fixed
/// fields and length tables, and the user-defined header area, whose
/// declared length counts its records alone.
pub open spec fn user_area_progress(bytes: Seq<u8>) -> Result<Progress, DecodeError> {
    then_extension(bytes, tables_progress(bytes), "UDHDL"@, user_defined_overflow(), false)
}

/// The decode of a whole file header: the fixed fields and length tables,
/// the user-defined header area, and the extended header area, whose
/// declared length counts its overflow field too.
pub open spec fn file_header_progress(bytes: Seq<u8>) -> Result<Progress, DecodeError> {
    then_extension(bytes, user_area_progress(bytes), "XHDL"@, extended_overflow(), true)
}

/// The fields of a file header.
pub open spec fn file_header_fields(bytes: Seq<u8>) -> Result<
    Seq<(Seq<char>, Seq<char>)>,
    DecodeError,
> {
    match file_header_progress(bytes) {
        Err(e) => Err(e),
        Ok(end) => Ok(end.fields),
    }
}

/// Reads `width` bytes at `cursor` and records their text under `tag`.
pub fn decode_raw(
    buffer: &[u8],
    fields: FieldMap,
    cursor: usize,
    tag: String,
    width: usize,
    phase: Phase,
) -> (r: Result<(FieldMap, usize), DecodeError>)
    ensures
        same_progress(
            r,
            record_raw(
                buffer@,
                Progress { fields: fields@, cursor: cursor as int },
                tag@,
                width as int,
                phase,
            ),
        ),
{
    let mut done = fields;
    let (value, next) = read_field(buffer, cursor, width, phase)?;
    done.insert(tag, value);
    Ok((done, next))
}

/// Reads a segment length table at `cursor`: a three-digit count, recorded
/// under `count_tag`, and for each segment its subheader length and its
/// segment length, recorded under the prefixes followed by the segment's
/// number.
pub fn decode_group(
    buffer: &[u8],
    fields: FieldMap,
    cursor: usize,
    count_tag: &str,
    subheader_prefix: &str,
    subheader_width: usize,
    segment_prefix: &str,
    segment_width: usize,
) -> (r: Result<(FieldMap, usize), DecodeError>)
    ensures
        same_progress(
            r,
            read_group(
                buffer@,
                Progress { fields: fields@, cursor: cursor as int },
                count_tag@,
                subheader_prefix@,
                subheader_width as int,
                segment_prefix@,
                segment_width as int,
            ),
        ),
{
    let phase = Phase::HeaderFields;
    let digits = slot_text(buffer, cursor, COUNT_WIDTH, phase)?;
    let count = match parse_decimal(digits) {
        Some(n) if n <= MAX_SEGMENTS as u64 => n as usize,
        _ => {
            return Err(DecodeError { kind: ErrorKind::MalformedCount, phase, offset: cursor });
        },
    };
    let mut done = fields;
    done.insert(count_tag.to_owned(), digits.to_owned());
    let mut position = cursor + COUNT_WIDTH;
    let ghost first = Progress { fields: done@, cursor: position as int };
    let mut index: usize = 1;
    while index <= count
        invariant
            1 <= index <= count + 1,
            count <= MAX_SEGMENTS,
            phase == Phase::HeaderFields,
            read_group(
                buffer@,
                Progress { fields: fields@, cursor: cursor as int },
                count_tag@,
                subheader_prefix@,
                subheader_width as int,
                segment_prefix@,
                segment_width as int,
            ) == read_group_entries(
                buffer@,
                first,
                subheader_prefix@,
                subheader_width as int,
                segment_prefix@,
                segment_width as int,
                1,
                count as nat,
            ),
            read_group_entries(
                buffer@,
                first,
                subheader_prefix@,
                subheader_width as int,
                segment_prefix@,
                segment_width as int,
                1,
                count as nat,
            ) == read_group_entries(
                buffer@,
                Progress { fields: done@, cursor: position as int },
                subheader_prefix@,
                subheader_width as int,
                segment_prefix@,
                segment_width as int,
                index as nat,
                count as nat,
            ),
        decreases count + 1 - index,
    {
        let subheader_tag = make_indexed_tag(subheader_prefix, index);
        let (f, p) = decode_raw(buffer, done, position, subheader_tag, subheader_width, phase)?;
        let segment_tag = make_indexed_tag(segment_prefix, index);
        let (f, p) = decode_raw(buffer, f, p, segment_tag, segment_width, phase)?;
        done = f;
        position = p;
        index += 1;
    }
    Ok((done, position))
}

/// The number of bytes that a field of the given kind occupies.
pub fn width_of(kind: FieldKind) -> (w: usize)
    ensures
        w == kind.width(),
{
    match kind {
        FieldKind::Raw(w) => w,
        FieldKind::Trimmed(w) => w,
        FieldKind::Optional(w) => w,
        FieldKind::Date => 8,
        FieldKind::DateTime => 14,
        FieldKind::Colour => 3,
    }
}

/// Reads an extension area at `cursor`: its declared length, recorded
/// under `length_tag`, and, unless that length is zero, the overflow field
/// and the tagged records, whose values are recorded under their tags.
pub fn decode_extension(
    buffer: &[u8],
    fields: FieldMap,
    cursor: usize,
    length_tag: &str,
    overflow: FieldSpec,
    overflow_counted: bool,
) -> (r: Result<(FieldMap, usize), DecodeError>)
    ensures
        same_progress(
            r,
            read_extension(
                buffer@,
                Progress { fields: fields@, cursor: cursor as int },
                length_tag@,
                overflow,
                overflow_counted,
            ),
        ),
{
    let phase = Phase::HeaderExtensions;
    let digits = slot_text(buffer, cursor, AREA_LENGTH_WIDTH, phase)?;
    let declared = match parse_decimal(digits) {
        Some(n) if n <= MAX_AREA_LENGTH as u64 => n as usize,
        _ => {
            return Err(DecodeError { kind: ErrorKind::MalformedCount, phase, offset: cursor });
        },
    };
    let mut done = fields;
    done.insert(length_tag.to_owned(), digits.to_owned());
    let inside = cursor + AREA_LENGTH_WIDTH;
    if declared == 0 {
        return Ok((done, inside));
    }
    let reserved = if overflow_counted {
        width_of(overflow.kind)
    } else {
        0
    };
    if declared < reserved {
        return Err(DecodeError { kind: ErrorKind::MalformedTLV, phase, offset: inside });
    }
    let (with_overflow, body) = decode_field(buffer, done, inside, &overflow, phase)?;
    let entries = read_tlv_block(buffer, body, declared - reserved)?;
    let all = record_entries(with_overflow, &entries);
    Ok((all, body + (declared - reserved)))
}

/// The fixed fields at the start of the file header.
fn build_header_layout() -> (r: Vec<FieldSpec>)
    ensures
        r@ == header_layout(),
{
    let r = vec![
        FieldSpec { tag: "FHDR", kind: FieldKind::Raw(4) },
        FieldSpec { tag: "FVER", kind: FieldKind::Raw(5) },
        FieldSpec { tag: "CLEVEL", kind: FieldKind::Raw(2) },
        FieldSpec { tag: "STYPE", kind: FieldKind::Raw(4) },
        FieldSpec { tag: "OSTAID", kind: FieldKind::Trimmed(10) },
        FieldSpec { tag: "FDT", kind: FieldKind::DateTime },
        FieldSpec { tag: "FTITLE", kind: FieldKind::Optional(80) },
        FieldSpec { tag: "FSCLAS", kind: FieldKind::Raw(1) },
        FieldSpec { tag: "FSCLSY", kind: FieldKind::Optional(2) },
        FieldSpec { tag: "FSCODE", kind: FieldKind::Optional(11) },
        FieldSpec { tag: "FSCTLH", kind: FieldKind::Optional(2) },
        FieldSpec { tag: "FSREL", kind: FieldKind::Optional(20) },
        FieldSpec { tag: "FSDCTP", kind: FieldKind::Optional(2) },
        FieldSpec { tag: "FSDCDT", kind: FieldKind::Date },
        FieldSpec { tag: "FSDCXM", kind: FieldKind::Optional(4) },
        FieldSpec { tag: "FSDG", kind: FieldKind::Optional(1) },
        FieldSpec { tag: "FSDGDT", kind: FieldKind::Date },
        FieldSpec { tag: "FSCLTX", kind: FieldKind::Optional(43) },
        FieldSpec { tag: "FSCATP", kind: FieldKind::Optional(1) },
        FieldSpec { tag: "FSCAUT", kind: FieldKind::Optional(40) },
        FieldSpec { tag: "FSCRSN", kind: FieldKind::Optional(1) },
        FieldSpec { tag: "FSSRDT", kind: FieldKind::Date },
        FieldSpec { tag: "FSCLTN", kind: FieldKind::Optional(15) },
        FieldSpec { tag: "FSCOP", kind: FieldKind::Trimmed(5) },
        FieldSpec { tag: "FSCPYS", kind: FieldKind::Trimmed(5) },
        FieldSpec { tag: "ENCRYP", kind: FieldKind::Trimmed(1) },
        FieldSpec { tag: "FBKGC", kind: FieldKind::Colour },
        FieldSpec { tag: "ONAME", kind: FieldKind::Optional(24) },
        FieldSpec { tag: "OPHONE", kind: FieldKind::Optional(18) },
        FieldSpec { tag: "FL", kind: FieldKind::Raw(12) },
        FieldSpec { tag: "HL", kind: FieldKind::Raw(6) },
    ];
    assert(r@ =~= header_layout());
    r
}

/// Decodes the file header at the start of the buffer, and returns its
/// fields with the offset of the first byte after the extended header area.
pub fn decode_file_header(buffer: &[u8]) -> (r: Result<(FieldMap, usize), DecodeError>)
    ensures
        same_progress(r, file_header_progress(buffer@)),
{
    let phase = Phase::HeaderFields;
    let layout = build_header_layout();
    let (f, c) = decode_layout(buffer, FieldMap::new(), 0, &layout, phase)?;
    let (f, c) = decode_group(buffer, f, c, "NUMI", "LISH", 6, "LI", 10)?;
    let (f, c) = decode_group(buffer, f, c, "NUMS", "LSSH", 4, "LS", 6)?;
    let reserved = vec![FieldSpec { tag: "NUMX", kind: FieldKind::Raw(3) }];
    assert(reserved@ =~= reserved_count_layout());
    let (f, c) = decode_layout(buffer, f, c, &reserved, phase)?;
    let (f, c) = decode_group(buffer, f, c, "NUMT", "LTSH", 4, "LT", 5)?;
    let (f, c) = decode_group(buffer, f, c, "NUMDES", "LDSH", 4, "LD", 9)?;
    let (f, c) = decode_group(buffer, f, c, "NUMRES", "LRESH", 4, "LRE", 7)?;
    let user_overflow = FieldSpec { tag: "UDHOFL", kind: FieldKind::Raw(3) };
    let (f, c) = decode_extension(buffer, f, c, "UDHDL", user_overflow, false)?;
    let extended_overflow = FieldSpec { tag: "XHOFL", kind: FieldKind::Trimmed(3) };
    decode_extension(buffer, f, c, "XHDL", extended_overflow, true)
}

/// The fixed part of the file header has no tag twice.
pub proof fn lemma_header_layout_distinct()
    ensures
        distinct_layout(header_layout()),
{
    reveal_strlit("FHDR");
    reveal_strlit("FVER");
    reveal_strlit("CLEVEL");
    reveal_strlit("STYPE");
    reveal_strlit("OSTAID");
    reveal_strlit("FDT");
    reveal_strlit("FTITLE");
    reveal_strlit("FSCLAS");
    reveal_strlit("FSCLSY");
    reveal_strlit("FSCODE");
    reveal_strlit("FSCTLH");
    reveal_strlit("FSREL");
    reveal_strlit("FSDCTP");
    reveal_strlit("FSDCDT");
    reveal_strlit("FSDCXM");
    reveal_strlit("FSDG");
    reveal_strlit("FSDGDT");
    reveal_strlit("FSCLTX");
    reveal_strlit("FSCATP");
    reveal_strlit("FSCAUT");
    reveal_strlit("FSCRSN");
    reveal_strlit("FSSRDT");
    reveal_strlit("FSCLTN");
    reveal_strlit("FSCOP");
    reveal_strlit("FSCPYS");
    reveal_strlit("ENCRYP");
    reveal_strlit("FBKGC");
    reveal_strlit("ONAME");
    reveal_strlit("OPHONE");
    reveal_strlit("FL");
    reveal_strlit("HL");
    let layout = header_layout();
    assert forall|i: int, j: int| 0 <= i < j < layout.len() implies (#[trigger] layout[i]).tag@ != (
    #[trigger] layout[j]).tag@ by {
        lemma_texts_differ(layout[i].tag@, layout[j].tag@);
    }
}

} // verus!
