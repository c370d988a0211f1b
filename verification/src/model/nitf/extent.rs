//! Where a decode ends: no field that has been read lies outside the
//! buffer, and a buffer that ends before its first field is truncated.

use vstd::prelude::*;

use super::error::{DecodeError, ErrorKind, Phase};
use super::fields::put;
use super::header::{
    area_length_of, extended_overflow, file_header_fields, file_header_progress, header_layout,
    read_group_entries, record_raw, reserved_count_layout, segment_count_of, tables_progress,
    then_extension, then_group, then_layout, user_area_progress, user_defined_overflow,
    AREA_LENGTH_WIDTH, COUNT_WIDTH,
};
use super::layout::{
    apply_field, field_value, layout_width, read_layout, FieldKind, FieldSpec, Progress,
};
use super::reader::{failure, field_text};
use super::segments::SegmentKind;
use super::subheader::{subheader_fields, subheader_layout};
use super::text::{decimal_of, indexed_tag};
use super::tlv::{tlv_records, LENGTH_WIDTH, RECORD_OVERHEAD, TAG_WIDTH};
use super::{decode_file, DecodedNITF};

verus! {

/// Whether a cursor stands inside the buffer or at its end.
pub open spec fn within(bytes: Seq<u8>, cursor: int) -> bool {
    0 <= cursor <= bytes.len()
}

/// A field that has been read ends inside the buffer.
pub proof fn lemma_field_within(
    bytes: Seq<u8>,
    at: Progress,
    field: FieldSpec,
    phase: Phase,
)
    requires
        0 <= at.cursor,
        apply_field(bytes, at, field, phase) is Ok,
    ensures
        within(bytes, apply_field(bytes, at, field, phase)->Ok_0.cursor),
        at.cursor <= apply_field(bytes, at, field, phase)->Ok_0.cursor,
{
    reveal(field_value);
}

/// A field whose slot would end beyond the buffer is not read. Unless it
/// is a date, which is read part by part, the failure is `TruncatedInput`
/// at the start of the field.
pub proof fn lemma_field_beyond_buffer(bytes: Seq<u8>, cursor: int, kind: FieldKind, phase: Phase)
    requires
        0 <= cursor,
        bytes.len() < cursor + kind.width(),
    ensures
        field_value(bytes, cursor, kind, phase) is Err,
        !(kind is Date || kind is DateTime) ==> field_value(bytes, cursor, kind, phase)
            == Err::<Option<Seq<char>>, DecodeError>(
            failure(ErrorKind::TruncatedInput, phase, cursor),
        ),
{
    reveal(field_value);
}

/// A layout that has been read ends inside the buffer.
pub proof fn lemma_layout_within(
    bytes: Seq<u8>,
    at: Progress,
    layout: Seq<FieldSpec>,
    phase: Phase,
)
    requires
        within(bytes, at.cursor),
        read_layout(bytes, at, layout, phase) is Ok,
    ensures
        within(bytes, read_layout(bytes, at, layout, phase)->Ok_0.cursor),
        read_layout(bytes, at, layout, phase)->Ok_0.cursor == at.cursor + layout_width(layout),
        at.cursor <= read_layout(bytes, at, layout, phase)->Ok_0.cursor,
    decreases layout.len(),
{
    if layout.len() > 0 {
        lemma_field_within(bytes, at, layout.first(), phase);
        let next = apply_field(bytes, at, layout.first(), phase)->Ok_0;
        lemma_layout_within(bytes, next, layout.drop_first(), phase);
    }
}

/// A layout that would end beyond the buffer is not read.
pub proof fn lemma_layout_beyond_buffer(
    bytes: Seq<u8>,
    at: Progress,
    layout: Seq<FieldSpec>,
    phase: Phase,
)
    requires
        within(bytes, at.cursor),
        bytes.len() < at.cursor + layout_width(layout),
    ensures
        read_layout(bytes, at, layout, phase) is Err,
{
    if read_layout(bytes, at, layout, phase) is Ok {
        lemma_layout_within(bytes, at, layout, phase);
    }
}

/// The entries of a length table that have been read end inside the
/// buffer.
pub proof fn lemma_group_entries_within(
    bytes: Seq<u8>,
    at: Progress,
    subheader_prefix: Seq<char>,
    subheader_width: int,
    segment_prefix: Seq<char>,
    segment_width: int,
    index: nat,
    count: nat,
)
    requires
        within(bytes, at.cursor),
        0 <= subheader_width,
        0 <= segment_width,
        read_group_entries(
            bytes,
            at,
            subheader_prefix,
            subheader_width,
            segment_prefix,
            segment_width,
            index,
            count,
        ) is Ok,
    ensures
        ({
            let end = read_group_entries(
                bytes,
                at,
                subheader_prefix,
                subheader_width,
                segment_prefix,
                segment_width,
                index,
                count,
            )->Ok_0;
            within(bytes, end.cursor) && at.cursor <= end.cursor
        }),
    decreases count + 1 - index,
{
    if index <= count {
        let phase = Phase::HeaderFields;
        let middle = record_raw(
            bytes,
            at,
            indexed_tag(subheader_prefix, index),
            subheader_width,
            phase,
        )->Ok_0;
        let next = record_raw(
            bytes,
            middle,
            indexed_tag(segment_prefix, index),
            segment_width,
            phase,
        )->Ok_0;
        lemma_group_entries_within(
            bytes,
            next,
            subheader_prefix,
            subheader_width,
            segment_prefix,
            segment_width,
            index + 1,
            count,
        );
    }
}

/// A length table that has been read ends inside the buffer.
pub proof fn lemma_group_within(
    bytes: Seq<u8>,
    so_far: Result<Progress, DecodeError>,
    count_tag: Seq<char>,
    subheader_prefix: Seq<char>,
    subheader_width: int,
    segment_prefix: Seq<char>,
    segment_width: int,
)
    requires
        then_group(
            bytes,
            so_far,
            count_tag,
            subheader_prefix,
            subheader_width,
            segment_prefix,
            segment_width,
        ) is Ok,
        within(bytes, so_far->Ok_0.cursor),
        0 <= subheader_width,
        0 <= segment_width,
    ensures
        within(
            bytes,
            then_group(
                bytes,
                so_far,
                count_tag,
                subheader_prefix,
                subheader_width,
                segment_prefix,
                segment_width,
            )->Ok_0.cursor,
        ),
{
    let at = so_far->Ok_0;
    let phase = Phase::HeaderFields;
    let digits = field_text(bytes, at.cursor, COUNT_WIDTH as int, phase)->Ok_0;
    let count = segment_count_of(digits)->Some_0;
    let first = Progress {
        fields: put(at.fields, count_tag, digits),
        cursor: at.cursor + COUNT_WIDTH,
    };
    lemma_group_entries_within(
        bytes,
        first,
        subheader_prefix,
        subheader_width,
        segment_prefix,
        segment_width,
        1,
        count,
    );
}

/// The records of an area that have been read end inside the buffer.
pub proof fn lemma_records_within(bytes: Seq<u8>, cursor: int, total: int)
    requires
        within(bytes, cursor),
        0 <= total,
        tlv_records(bytes, cursor, total) is Ok,
    ensures
        within(bytes, cursor + total),
    decreases total,
{
    if total > 0 {
        let phase = Phase::HeaderExtensions;
        let digits = field_text(bytes, cursor + TAG_WIDTH, LENGTH_WIDTH as int, phase)->Ok_0;
        let length = decimal_of(digits)->Some_0;
        lemma_records_within(
            bytes,
            cursor + RECORD_OVERHEAD + length,
            total - RECORD_OVERHEAD - length,
        );
    }
}

/// An extension area that has been read ends inside the buffer.
pub proof fn lemma_extension_within(
    bytes: Seq<u8>,
    so_far: Result<Progress, DecodeError>,
    length_tag: Seq<char>,
    overflow: FieldSpec,
    overflow_counted: bool,
)
    requires
        then_extension(bytes, so_far, length_tag, overflow, overflow_counted) is Ok,
        within(bytes, so_far->Ok_0.cursor),
    ensures
        within(
            bytes,
            then_extension(bytes, so_far, length_tag, overflow, overflow_counted)->Ok_0.cursor,
        ),
{
    let at = so_far->Ok_0;
    let phase = Phase::HeaderExtensions;
    let digits = field_text(bytes, at.cursor, AREA_LENGTH_WIDTH as int, phase)->Ok_0;
    let declared = area_length_of(digits)->Some_0;
    let inside = Progress {
        fields: put(at.fields, length_tag, digits),
        cursor: at.cursor + AREA_LENGTH_WIDTH,
    };
    if declared != 0 {
        lemma_field_within(bytes, inside, overflow, phase);
        let body = apply_field(bytes, inside, overflow, phase)->Ok_0;
        let reserved = if overflow_counted {
            overflow.kind.width()
        } else {
            0
        };
        lemma_records_within(bytes, body.cursor, declared - reserved);
    }
}

/// A file header that has been decoded lies inside the buffer: so do its
/// fixed fields and length tables, its user-defined header area, and its
/// extended header area. A buffer that ends before its header does is not
/// decoded.
pub proof fn lemma_header_within(bytes: Seq<u8>)
    requires
        file_header_fields(bytes) is Ok,
    ensures
        tables_progress(bytes) is Ok,
        user_area_progress(bytes) is Ok,
        within(bytes, tables_progress(bytes)->Ok_0.cursor),
        within(bytes, user_area_progress(bytes)->Ok_0.cursor),
        within(bytes, file_header_progress(bytes)->Ok_0.cursor),
{
    let phase = Phase::HeaderFields;
    let start = Progress { fields: Seq::empty(), cursor: 0 };
    let fixed = read_layout(bytes, start, header_layout(), phase);
    let images = then_group(bytes, fixed, "NUMI"@, "LISH"@, 6, "LI"@, 10);
    let graphics = then_group(bytes, images, "NUMS"@, "LSSH"@, 4, "LS"@, 6);
    let reserved = then_layout(bytes, graphics, reserved_count_layout());
    let texts = then_group(bytes, reserved, "NUMT"@, "LTSH"@, 4, "LT"@, 5);
    let data = then_group(bytes, texts, "NUMDES"@, "LDSH"@, 4, "LD"@, 9);
    let tables = then_group(bytes, data, "NUMRES"@, "LRESH"@, 4, "LRE"@, 7);
    let user = then_extension(bytes, tables, "UDHDL"@, user_defined_overflow(), false);
    let all = then_extension(bytes, user, "XHDL"@, extended_overflow(), true);
    assert(all == file_header_progress(bytes));
    lemma_layout_within(bytes, start, header_layout(), phase);
    lemma_group_within(bytes, fixed, "NUMI"@, "LISH"@, 6, "LI"@, 10);
    lemma_group_within(bytes, images, "NUMS"@, "LSSH"@, 4, "LS"@, 6);
    lemma_layout_within(bytes, graphics->Ok_0, reserved_count_layout(), phase);
    lemma_group_within(bytes, reserved, "NUMT"@, "LTSH"@, 4, "LT"@, 5);
    lemma_group_within(bytes, texts, "NUMDES"@, "LDSH"@, 4, "LD"@, 9);
    lemma_group_within(bytes, data, "NUMRES"@, "LRESH"@, 4, "LRE"@, 7);
    lemma_extension_within(bytes, tables, "UDHDL"@, user_defined_overflow(), false);
    lemma_extension_within(bytes, user, "XHDL"@, extended_overflow(), true);
}

/// A layout whose first field is read as it stands and would end beyond
/// the buffer fails with `TruncatedInput` at the start of that field.
pub proof fn lemma_first_field_truncated(
    bytes: Seq<u8>,
    at: Progress,
    layout: Seq<FieldSpec>,
    phase: Phase,
)
    requires
        layout.len() > 0,
        layout[0].kind is Raw,
        bytes.len() < at.cursor + layout[0].kind.width(),
    ensures
        read_layout(bytes, at, layout, phase) == Err::<Progress, DecodeError>(
            failure(ErrorKind::TruncatedInput, phase, at.cursor),
        ),
{
    reveal(field_value);
    assert(layout.first() == layout[0]);
}

/// A buffer that ends before the first field of the file header does is
/// truncated: whatever its fewer than four bytes are, the decode of the
/// header fails with `TruncatedInput` at offset zero.
pub proof fn lemma_short_header_truncated(bytes: Seq<u8>)
    requires
        bytes.len() < 4,
    ensures
        file_header_fields(bytes) == Err::<Seq<(Seq<char>, Seq<char>)>, DecodeError>(
            failure(ErrorKind::TruncatedInput, Phase::HeaderFields, 0),
        ),
{
    let start = Progress { fields: Seq::empty(), cursor: 0 };
    let layout = header_layout();
    assert(layout[0].kind == FieldKind::Raw(4));
    lemma_first_field_truncated(bytes, start, layout, Phase::HeaderFields);
}

/// A buffer of fewer than four bytes is no file: its decode fails with
/// `TruncatedInput` at offset zero.
pub proof fn lemma_short_buffer_truncated(bytes: Seq<u8>)
    requires
        bytes.len() < 4,
    ensures
        decode_file(bytes) == Err::<DecodedNITF, DecodeError>(
            failure(ErrorKind::TruncatedInput, Phase::HeaderFields, 0),
        ),
{
    lemma_short_header_truncated(bytes);
}

/// A buffer that ends before the first field of a subheader does is
/// truncated: the decode of the subheader fails with `TruncatedInput` at
/// the offset of the subheader.
pub proof fn lemma_short_subheader_truncated(bytes: Seq<u8>, kind: SegmentKind, offset: int)
    requires
        bytes.len() < offset + 2,
    ensures
        subheader_fields(bytes, kind, offset) == Err::<Seq<(Seq<char>, Seq<char>)>, DecodeError>(
            failure(ErrorKind::TruncatedInput, Phase::Subheaders, offset),
        ),
{
    let start = Progress { fields: Seq::empty(), cursor: offset };
    let layout = subheader_layout(kind);
    assert(layout[0].kind == FieldKind::Raw(2));
    lemma_first_field_truncated(bytes, start, layout, Phase::Subheaders);
}

} // verus!
