//! What a decoded file header holds under the tags of its fixed fields.
//!
//! The fields of a header are recorded one after the other, each where
//! its tag belongs in the order of tags, and a later field takes the place
//! of an earlier one with the same tag. The tags of
//! the length tables and of the extension areas differ from those of the
//! fixed fields, so only a record of an extension area can take the place
//! of a fixed field.

use vstd::prelude::*;

use super::error::{DecodeError, Phase};
use super::fields::{ascending_tags, lemma_put, lookup, put};
use super::header::{
    area_length_of, extended_overflow, file_header_fields, file_header_progress, header_layout,
    lemma_header_layout_distinct, read_group_entries, record_raw,
    reserved_count_layout, segment_count_of, tables_progress, then_extension, then_group,
    then_layout, user_area_progress, user_defined_overflow, AREA_LENGTH_WIDTH, COUNT_WIDTH,
};
use super::layout::{
    apply_field, field_value, lemma_layout_end, lemma_layout_field, lemma_layout_keeps,
    lemma_omissible_value, in_layout, offset_in_layout, read_layout, FieldSpec, Progress,
};
use super::reader::field_text;
use super::text::{blank, indexed_tag, lemma_texts_differ, trimmed};
use super::tlv::{put_records, tlv_records, TlvRecord};

verus! {

/// The records of the extension area that is read at `at`: none if the
/// area is empty or cannot be read.
pub open spec fn extension_records(
    bytes: Seq<u8>,
    at: Progress,
    overflow: FieldSpec,
    overflow_counted: bool,
) -> Seq<TlvRecord> {
    let phase = Phase::HeaderExtensions;
    match field_text(bytes, at.cursor, AREA_LENGTH_WIDTH as int, phase) {
        Err(_) => Seq::empty(),
        Ok(digits) => match area_length_of(digits) {
            None => Seq::empty(),
            Some(declared) => {
                let reserved = if overflow_counted {
                    overflow.kind.width()
                } else {
                    0
                };
                if declared == 0 || declared < reserved {
                    Seq::empty()
                } else {
                    match tlv_records(
                        bytes,
                        at.cursor + AREA_LENGTH_WIDTH + overflow.kind.width(),
                        declared - reserved,
                    ) {
                        Ok(records) => records,
                        Err(_) => Seq::empty(),
                    }
                }
            },
        },
    }
}

/// The records of the user-defined header area of a file.
pub open spec fn user_defined_records(bytes: Seq<u8>) -> Seq<TlvRecord> {
    match tables_progress(bytes) {
        Ok(at) => extension_records(bytes, at, user_defined_overflow(), false),
        Err(_) => Seq::empty(),
    }
}

/// The records of the extended header area of a file.
pub open spec fn extended_records(bytes: Seq<u8>) -> Seq<TlvRecord> {
    match user_area_progress(bytes) {
        Ok(at) => extension_records(bytes, at, extended_overflow(), true),
        Err(_) => Seq::empty(),
    }
}

/// Whether none of the records carries `tag`.
pub open spec fn no_record_tagged(records: Seq<TlvRecord>, tag: Seq<char>) -> bool {
    forall|k: int| 0 <= k < records.len() ==> (#[trigger] records[k]).tag != tag
}

/// Reading the entries of a length table keeps tags ascending.
pub proof fn lemma_group_entries_ascending(
    bytes: Seq<u8>,
    at: Progress,
    subheader_prefix: Seq<char>,
    subheader_width: int,
    segment_prefix: Seq<char>,
    segment_width: int,
    index: nat,
    count: nat,
)
    requires
        ascending_tags(at.fields),
        read_group_entries(
            bytes,
            at,
            subheader_prefix,
            subheader_width,
            segment_prefix,
            segment_width,
            index,
            count,
        ) is Ok,
    ensures
        ascending_tags(
            read_group_entries(
                bytes,
                at,
                subheader_prefix,
                subheader_width,
                segment_prefix,
                segment_width,
                index,
                count,
            )->Ok_0.fields,
        ),
    decreases count + 1 - index,
{
    if index <= count {
        let phase = Phase::HeaderFields;
        let first_tag = indexed_tag(subheader_prefix, index);
        let second_tag = indexed_tag(segment_prefix, index);
        let first_text = field_text(bytes, at.cursor, subheader_width, phase)->Ok_0;
        lemma_put(at.fields, first_tag, first_text);
        let middle = record_raw(bytes, at, first_tag, subheader_width, phase)->Ok_0;
        let second_text = field_text(bytes, middle.cursor, segment_width, phase)->Ok_0;
        lemma_put(middle.fields, second_tag, second_text);
        let next = record_raw(bytes, middle, second_tag, segment_width, phase)->Ok_0;
        lemma_group_entries_ascending(
            bytes,
            next,
            subheader_prefix,
            subheader_width,
            segment_prefix,
            segment_width,
            index + 1,
            count,
        );
    }
}

/// Reading a length table keeps tags ascending.
pub proof fn lemma_group_ascending(
    bytes: Seq<u8>,
    so_far: Result<Progress, DecodeError>,
    count_tag: Seq<char>,
    subheader_prefix: Seq<char>,
    subheader_width: int,
    segment_prefix: Seq<char>,
    segment_width: int,
)
    requires
        then_group(
            bytes,
            so_far,
            count_tag,
            subheader_prefix,
            subheader_width,
            segment_prefix,
            segment_width,
        ) is Ok,
        ascending_tags(so_far->Ok_0.fields),
    ensures
        so_far is Ok,
        ascending_tags(
            then_group(
                bytes,
                so_far,
                count_tag,
                subheader_prefix,
                subheader_width,
                segment_prefix,
                segment_width,
            )->Ok_0.fields,
        ),
{
    let at = so_far->Ok_0;
    let phase = Phase::HeaderFields;
    let digits = field_text(bytes, at.cursor, COUNT_WIDTH as int, phase)->Ok_0;
    let count = segment_count_of(digits)->Some_0;
    lemma_put(at.fields, count_tag, digits);
    let first = Progress { fields: put(at.fields, count_tag, digits), cursor: at.cursor + COUNT_WIDTH };
    lemma_group_entries_ascending(
        bytes,
        first,
        subheader_prefix,
        subheader_width,
        segment_prefix,
        segment_width,
        1,
        count,
    );
}

/// Recording records keeps tags ascending.
pub proof fn lemma_records_ascending(fields: Seq<(Seq<char>, Seq<char>)>, records: Seq<TlvRecord>)
    requires
        ascending_tags(fields),
    ensures
        ascending_tags(put_records(fields, records)),
    decreases records.len(),
{
    if records.len() > 0 {
        lemma_records_ascending(fields, records.drop_last());
        lemma_put(put_records(fields, records.drop_last()), records.last().tag, records.last().value);
    }
}

/// Reading an extension area keeps tags ascending.
pub proof fn lemma_extension_ascending(
    bytes: Seq<u8>,
    so_far: Result<Progress, DecodeError>,
    length_tag: Seq<char>,
    overflow: FieldSpec,
    overflow_counted: bool,
)
    requires
        then_extension(bytes, so_far, length_tag, overflow, overflow_counted) is Ok,
        ascending_tags(so_far->Ok_0.fields),
    ensures
        so_far is Ok,
        ascending_tags(
            then_extension(bytes, so_far, length_tag, overflow, overflow_counted)->Ok_0.fields,
        ),
{
    let at = so_far->Ok_0;
    let phase = Phase::HeaderExtensions;
    let digits = field_text(bytes, at.cursor, AREA_LENGTH_WIDTH as int, phase)->Ok_0;
    let declared = area_length_of(digits)->Some_0;
    lemma_put(at.fields, length_tag, digits);
    let inside = Progress {
        fields: put(at.fields, length_tag, digits),
        cursor: at.cursor + AREA_LENGTH_WIDTH,
    };
    if declared != 0 {
        let value = field_value(bytes, inside.cursor, overflow.kind, phase)->Ok_0;
        if value is Some {
            lemma_put(inside.fields, overflow.tag@, value->Some_0);
        }
        let body = apply_field(bytes, inside, overflow, phase)->Ok_0;
        let records = extension_records(bytes, at, overflow, overflow_counted);
        lemma_records_ascending(body.fields, records);
    }
}

/// The fields of a decoded file header stand in ascending order of tag.
pub proof fn lemma_file_header_ascending(bytes: Seq<u8>)
    requires
        file_header_fields(bytes) is Ok,
    ensures
        ascending_tags(file_header_fields(bytes)->Ok_0),
{
    let layout = header_layout();
    let phase = Phase::HeaderFields;
    let start = Progress { fields: Seq::empty(), cursor: 0 };
    let fixed = read_layout(bytes, start, layout, phase);
    let images = then_group(bytes, fixed, "NUMI"@, "LISH"@, 6, "LI"@, 10);
    let graphics = then_group(bytes, images, "NUMS"@, "LSSH"@, 4, "LS"@, 6);
    let reserved = then_layout(bytes, graphics, reserved_count_layout());
    let texts = then_group(bytes, reserved, "NUMT"@, "LTSH"@, 4, "LT"@, 5);
    let data = then_group(bytes, texts, "NUMDES"@, "LDSH"@, 4, "LD"@, 9);
    let tables = then_group(bytes, data, "NUMRES"@, "LRESH"@, 4, "LRE"@, 7);
    let user = then_extension(bytes, tables, "UDHDL"@, user_defined_overflow(), false);
    let all = then_extension(bytes, user, "XHDL"@, extended_overflow(), true);
    assert(all == file_header_progress(bytes));
    lemma_layout_end(bytes, start, layout, phase);
    lemma_group_ascending(bytes, fixed, "NUMI"@, "LISH"@, 6, "LI"@, 10);
    lemma_group_ascending(bytes, images, "NUMS"@, "LSSH"@, 4, "LS"@, 6);
    lemma_layout_end(bytes, graphics->Ok_0, reserved_count_layout(), phase);
    lemma_group_ascending(bytes, reserved, "NUMT"@, "LTSH"@, 4, "LT"@, 5);
    lemma_group_ascending(bytes, texts, "NUMDES"@, "LDSH"@, 4, "LD"@, 9);
    lemma_group_ascending(bytes, data, "NUMRES"@, "LRESH"@, 4, "LRE"@, 7);
    lemma_extension_ascending(bytes, tables, "UDHDL"@, user_defined_overflow(), false);
    lemma_extension_ascending(bytes, user, "XHDL"@, extended_overflow(), true);
}

/// Reading one field leaves every other tag as it was.
pub proof fn lemma_apply_field_keeps(
    bytes: Seq<u8>,
    at: Progress,
    field: FieldSpec,
    phase: Phase,
    tag: Seq<char>,
)
    requires
        ascending_tags(at.fields),
        apply_field(bytes, at, field, phase) is Ok,
        tag != field.tag@,
    ensures
        ascending_tags(apply_field(bytes, at, field, phase)->Ok_0.fields),
        lookup(apply_field(bytes, at, field, phase)->Ok_0.fields, tag) == lookup(at.fields, tag),
        apply_field(bytes, at, field, phase)->Ok_0.cursor == at.cursor + field.kind.width(),
{
    let value = field_value(bytes, at.cursor, field.kind, phase)->Ok_0;
    if value is Some {
        lemma_put(at.fields, field.tag@, value->Some_0);
    }
}

/// Recording a field as it stands leaves every other tag as it was.
pub proof fn lemma_record_raw_keeps(
    bytes: Seq<u8>,
    at: Progress,
    written: Seq<char>,
    width: int,
    phase: Phase,
    tag: Seq<char>,
)
    requires
        ascending_tags(at.fields),
        record_raw(bytes, at, written, width, phase) is Ok,
        tag != written,
    ensures
        ascending_tags(record_raw(bytes, at, written, width, phase)->Ok_0.fields),
        lookup(record_raw(bytes, at, written, width, phase)->Ok_0.fields, tag) == lookup(
            at.fields,
            tag,
        ),
{
    let text = field_text(bytes, at.cursor, width, phase)->Ok_0;
    lemma_put(at.fields, written, text);
}

/// Reading the entries of a length table leaves every tag as it was that
/// is not one of the table's numbered tags.
pub proof fn lemma_group_entries_keep(
    bytes: Seq<u8>,
    at: Progress,
    subheader_prefix: Seq<char>,
    subheader_width: int,
    segment_prefix: Seq<char>,
    segment_width: int,
    index: nat,
    count: nat,
    tag: Seq<char>,
)
    requires
        ascending_tags(at.fields),
        read_group_entries(
            bytes,
            at,
            subheader_prefix,
            subheader_width,
            segment_prefix,
            segment_width,
            index,
            count,
        ) is Ok,
        forall|n: nat| tag != #[trigger] indexed_tag(subheader_prefix, n),
        forall|n: nat| tag != #[trigger] indexed_tag(segment_prefix, n),
    ensures
        ({
            let end = read_group_entries(
                bytes,
                at,
                subheader_prefix,
                subheader_width,
                segment_prefix,
                segment_width,
                index,
                count,
            )->Ok_0;
            ascending_tags(end.fields) && lookup(end.fields, tag) == lookup(at.fields, tag)
        }),
    decreases count + 1 - index,
{
    if index <= count {
        let phase = Phase::HeaderFields;
        let first_tag = indexed_tag(subheader_prefix, index);
        let second_tag = indexed_tag(segment_prefix, index);
        lemma_record_raw_keeps(bytes, at, first_tag, subheader_width, phase, tag);
        let middle = record_raw(bytes, at, first_tag, subheader_width, phase)->Ok_0;
        lemma_record_raw_keeps(bytes, middle, second_tag, segment_width, phase, tag);
        let next = record_raw(bytes, middle, second_tag, segment_width, phase)->Ok_0;
        lemma_group_entries_keep(
            bytes,
            next,
            subheader_prefix,
            subheader_width,
            segment_prefix,
            segment_width,
            index + 1,
            count,
            tag,
        );
    }
}

/// Reading a length table leaves every tag as it was that is neither the
/// table's count nor one of its numbered tags.
pub proof fn lemma_group_keeps(
    bytes: Seq<u8>,
    so_far: Result<Progress, DecodeError>,
    count_tag: Seq<char>,
    subheader_prefix: Seq<char>,
    subheader_width: int,
    segment_prefix: Seq<char>,
    segment_width: int,
    tag: Seq<char>,
)
    requires
        then_group(
            bytes,
            so_far,
            count_tag,
            subheader_prefix,
            subheader_width,
            segment_prefix,
            segment_width,
        ) is Ok,
        ascending_tags(so_far->Ok_0.fields),
        tag != count_tag,
        forall|n: nat| tag != #[trigger] indexed_tag(subheader_prefix, n),
        forall|n: nat| tag != #[trigger] indexed_tag(segment_prefix, n),
    ensures
        so_far is Ok,
        ({
            let end = then_group(
                bytes,
                so_far,
                count_tag,
                subheader_prefix,
                subheader_width,
                segment_prefix,
                segment_width,
            )->Ok_0;
            ascending_tags(end.fields) && lookup(end.fields, tag) == lookup(
                so_far->Ok_0.fields,
                tag,
            )
        }),
{
    let at = so_far->Ok_0;
    let phase = Phase::HeaderFields;
    let digits = field_text(bytes, at.cursor, COUNT_WIDTH as int, phase)->Ok_0;
    let count = segment_count_of(digits)->Some_0;
    lemma_put(at.fields, count_tag, digits);
    let first = Progress { fields: put(at.fields, count_tag, digits), cursor: at.cursor + COUNT_WIDTH };
    lemma_group_entries_keep(
        bytes,
        first,
        subheader_prefix,
        subheader_width,
        segment_prefix,
        segment_width,
        1,
        count,
        tag,
    );
}

/// Recording records leaves every tag as it was that none of them carries.
pub proof fn lemma_records_keep(
    fields: Seq<(Seq<char>, Seq<char>)>,
    records: Seq<TlvRecord>,
    tag: Seq<char>,
)
    requires
        ascending_tags(fields),
        no_record_tagged(records, tag),
    ensures
        ascending_tags(put_records(fields, records)),
        lookup(put_records(fields, records), tag) == lookup(fields, tag),
    decreases records.len(),
{
    if records.len() > 0 {
        let before = records.drop_last();
        assert(no_record_tagged(before, tag)) by {
            assert forall|k: int| 0 <= k < before.len() implies (#[trigger] before[k]).tag != tag by {
                assert(before[k] == records[k]);
            }
        }
        lemma_records_keep(fields, before, tag);
        assert(records.last() == records[records.len() - 1]);
        lemma_put(put_records(fields, before), records.last().tag, records.last().value);
    }
}

/// Reading an extension area leaves every tag as it was that is neither
/// the tag of the area's length or overflow field nor the tag of one of
/// its records.
pub proof fn lemma_extension_keeps(
    bytes: Seq<u8>,
    so_far: Result<Progress, DecodeError>,
    length_tag: Seq<char>,
    overflow: FieldSpec,
    overflow_counted: bool,
    tag: Seq<char>,
)
    requires
        then_extension(bytes, so_far, length_tag, overflow, overflow_counted) is Ok,
        ascending_tags(so_far->Ok_0.fields),
        tag != length_tag,
        tag != overflow.tag@,
        no_record_tagged(
            extension_records(bytes, so_far->Ok_0, overflow, overflow_counted),
            tag,
        ),
    ensures
        so_far is Ok,
        ({
            let end = then_extension(bytes, so_far, length_tag, overflow, overflow_counted)->Ok_0;
            ascending_tags(end.fields) && lookup(end.fields, tag) == lookup(
                so_far->Ok_0.fields,
                tag,
            )
        }),
{
    let at = so_far->Ok_0;
    let phase = Phase::HeaderExtensions;
    let digits = field_text(bytes, at.cursor, AREA_LENGTH_WIDTH as int, phase)->Ok_0;
    let declared = area_length_of(digits)->Some_0;
    lemma_put(at.fields, length_tag, digits);
    let inside = Progress {
        fields: put(at.fields, length_tag, digits),
        cursor: at.cursor + AREA_LENGTH_WIDTH,
    };
    if declared != 0 {
        lemma_apply_field_keeps(bytes, inside, overflow, phase, tag);
        let body = apply_field(bytes, inside, overflow, phase)->Ok_0;
        let records = extension_records(bytes, at, overflow, overflow_counted);
        lemma_records_keep(body.fields, records, tag);
    }
}

/// What a decoded file header holds under the tag of each of its fixed
/// fields, unless a record of an extension area carries that tag: the
/// value that the field's slot gave, read at the field's own offset, or
/// nothing where the field was left out. A field that may be left out is
/// therefore never blank: it is absent, or it holds trimmed text that is
/// not empty.
pub proof fn lemma_file_header_field(bytes: Seq<u8>, i: int)
    requires
        file_header_fields(bytes) is Ok,
        0 <= i < header_layout().len(),
        no_record_tagged(user_defined_records(bytes), header_layout()[i].tag@),
        no_record_tagged(extended_records(bytes), header_layout()[i].tag@),
    ensures
        ({
            let fields = file_header_fields(bytes)->Ok_0;
            let layout = header_layout();
            let value = field_value(
                bytes,
                offset_in_layout(layout, i),
                layout[i].kind,
                Phase::HeaderFields,
            );
            &&& value is Ok
            &&& lookup(fields, layout[i].tag@) == value->Ok_0
            &&& layout[i].kind.omissible() ==> match lookup(fields, layout[i].tag@) {
                Some(v) => v.len() > 0 && !blank(v) && trimmed(v) == v,
                None => true,
            }
        }),
{
    let layout = header_layout();
    let tag = layout[i].tag@;
    let phase = Phase::HeaderFields;
    let start = Progress { fields: Seq::empty(), cursor: 0 };
    let fixed = read_layout(bytes, start, layout, phase);
    let images = then_group(bytes, fixed, "NUMI"@, "LISH"@, 6, "LI"@, 10);
    let graphics = then_group(bytes, images, "NUMS"@, "LSSH"@, 4, "LS"@, 6);
    let reserved = then_layout(bytes, graphics, reserved_count_layout());
    let texts = then_group(bytes, reserved, "NUMT"@, "LTSH"@, 4, "LT"@, 5);
    let data = then_group(bytes, texts, "NUMDES"@, "LDSH"@, 4, "LD"@, 9);
    let tables = then_group(bytes, data, "NUMRES"@, "LRESH"@, 4, "LRE"@, 7);
    let user = then_extension(bytes, tables, "UDHDL"@, user_defined_overflow(), false);
    let all = then_extension(bytes, user, "XHDL"@, extended_overflow(), true);
    assert(all == file_header_progress(bytes));
    assert(tables == tables_progress(bytes));
    assert(user == user_area_progress(bytes));

    lemma_header_tag_is_its_own(i);
    lemma_header_layout_distinct();
    lemma_layout_field(bytes, start, layout, phase, i);
    lemma_layout_end(bytes, start, layout, phase);
    lemma_group_keeps(bytes, fixed, "NUMI"@, "LISH"@, 6, "LI"@, 10, tag);
    lemma_group_keeps(bytes, images, "NUMS"@, "LSSH"@, 4, "LS"@, 6, tag);
    assert(!in_layout(reserved_count_layout(), tag));
    lemma_layout_keeps(bytes, graphics->Ok_0, reserved_count_layout(), phase, tag);
    lemma_layout_end(bytes, graphics->Ok_0, reserved_count_layout(), phase);
    lemma_group_keeps(bytes, reserved, "NUMT"@, "LTSH"@, 4, "LT"@, 5, tag);
    lemma_group_keeps(bytes, texts, "NUMDES"@, "LDSH"@, 4, "LD"@, 9, tag);
    lemma_group_keeps(bytes, data, "NUMRES"@, "LRESH"@, 4, "LRE"@, 7, tag);
    lemma_extension_keeps(bytes, tables, "UDHDL"@, user_defined_overflow(), false, tag);
    lemma_extension_keeps(bytes, user, "XHDL"@, extended_overflow(), true, tag);
    if layout[i].kind.omissible() {
        lemma_omissible_value(bytes, offset_in_layout(layout, i), layout[i].kind, phase);
    }
}

/// The tag of a fixed field of the file header is the tag of no count, of
/// no numbered length, and of no length or overflow field of an extension
/// area.
pub proof fn lemma_header_tag_is_its_own(i: int)
    requires
        0 <= i < header_layout().len(),
    ensures
        ({
            let tag = header_layout()[i].tag@;
            &&& tag != "NUMI"@ && tag != "NUMS"@ && tag != "NUMX"@ && tag != "NUMT"@
            &&& tag != "NUMDES"@ && tag != "NUMRES"@
            &&& tag != "UDHDL"@ && tag != "UDHOFL"@ && tag != "XHDL"@ && tag != "XHOFL"@
            &&& forall|n: nat| tag != #[trigger] indexed_tag("LISH"@, n)
            &&& forall|n: nat| tag != #[trigger] indexed_tag("LI"@, n)
            &&& forall|n: nat| tag != #[trigger] indexed_tag("LSSH"@, n)
            &&& forall|n: nat| tag != #[trigger] indexed_tag("LS"@, n)
            &&& forall|n: nat| tag != #[trigger] indexed_tag("LTSH"@, n)
            &&& forall|n: nat| tag != #[trigger] indexed_tag("LT"@, n)
            &&& forall|n: nat| tag != #[trigger] indexed_tag("LDSH"@, n)
            &&& forall|n: nat| tag != #[trigger] indexed_tag("LD"@, n)
            &&& forall|n: nat| tag != #[trigger] indexed_tag("LRESH"@, n)
            &&& forall|n: nat| tag != #[trigger] indexed_tag("LRE"@, n)
        }),
{
    reveal_strlit("FHDR");
    reveal_strlit("FVER");
    reveal_strlit("CLEVEL");
    reveal_strlit("STYPE");
    reveal_strlit("OSTAID");
    reveal_strlit("FDT");
    reveal_strlit("FTITLE");
    reveal_strlit("FSCLAS");
    reveal_strlit("FSCLSY");
    reveal_strlit("FSCODE");
    reveal_strlit("FSCTLH");
    reveal_strlit("FSREL");
    reveal_strlit("FSDCTP");
    reveal_strlit("FSDCDT");
    reveal_strlit("FSDCXM");
    reveal_strlit("FSDG");
    reveal_strlit("FSDGDT");
    reveal_strlit("FSCLTX");
    reveal_strlit("FSCATP");
    reveal_strlit("FSCAUT");
    reveal_strlit("FSCRSN");
    reveal_strlit("FSSRDT");
    reveal_strlit("FSCLTN");
    reveal_strlit("FSCOP");
    reveal_strlit("FSCPYS");
    reveal_strlit("ENCRYP");
    reveal_strlit("FBKGC");
    reveal_strlit("ONAME");
    reveal_strlit("OPHONE");
    reveal_strlit("FL");
    reveal_strlit("HL");
    reveal_strlit("NUMI");
    reveal_strlit("NUMS");
    reveal_strlit("NUMX");
    reveal_strlit("NUMT");
    reveal_strlit("NUMDES");
    reveal_strlit("NUMRES");
    reveal_strlit("UDHDL");
    reveal_strlit("UDHOFL");
    reveal_strlit("XHDL");
    reveal_strlit("XHOFL");
    reveal_strlit("LISH");
    reveal_strlit("LI");
    reveal_strlit("LSSH");
    reveal_strlit("LS");
    reveal_strlit("LTSH");
    reveal_strlit("LT");
    reveal_strlit("LDSH");
    reveal_strlit("LD");
    reveal_strlit("LRESH");
    reveal_strlit("LRE");
    let tag = header_layout()[i].tag@;
    lemma_texts_differ(tag, "NUMI"@);
    lemma_texts_differ(tag, "NUMS"@);
    lemma_texts_differ(tag, "NUMX"@);
    lemma_texts_differ(tag, "NUMT"@);
    lemma_texts_differ(tag, "NUMDES"@);
    lemma_texts_differ(tag, "NUMRES"@);
    lemma_texts_differ(tag, "UDHDL"@);
    lemma_texts_differ(tag, "UDHOFL"@);
    lemma_texts_differ(tag, "XHDL"@);
    lemma_texts_differ(tag, "XHOFL"@);
    assert forall|n: nat| tag != #[trigger] indexed_tag("LISH"@, n) by {
        lemma_texts_differ(tag, indexed_tag("LISH"@, n));
    }
    assert forall|n: nat| tag != #[trigger] indexed_tag("LI"@, n) by {
        lemma_texts_differ(tag, indexed_tag("LI"@, n));
    }
    assert forall|n: nat| tag != #[trigger] indexed_tag("LSSH"@, n) by {
        lemma_texts_differ(tag, indexed_tag("LSSH"@, n));
    }
    assert forall|n: nat| tag != #[trigger] indexed_tag("LS"@, n) by {
        lemma_texts_differ(tag, indexed_tag("LS"@, n));
    }
    assert forall|n: nat| tag != #[trigger] indexed_tag("LTSH"@, n) by {
        lemma_texts_differ(tag, indexed_tag("LTSH"@, n));
    }
    assert forall|n: nat| tag != #[trigger] indexed_tag("LT"@, n) by {
        lemma_texts_differ(tag, indexed_tag("LT"@, n));
    }
    assert forall|n: nat| tag != #[trigger] indexed_tag("LDSH"@, n) by {
        lemma_texts_differ(tag, indexed_tag("LDSH"@, n));
    }
    assert forall|n: nat| tag != #[trigger] indexed_tag("LD"@, n) by {
        lemma_texts_differ(tag, indexed_tag("LD"@, n));
    }
    assert forall|n: nat| tag != #[trigger] indexed_tag("LRESH"@, n) by {
        lemma_texts_differ(tag, indexed_tag("LRESH"@, n));
    }
    assert forall|n: nat| tag != #[trigger] indexed_tag("LRE"@, n) by {
        lemma_texts_differ(tag, indexed_tag("LRE"@, n));
    }
}

} // verus!
