//! What a decoded file header holds of its two extension areas: the
//! declared lengths, the overflow fields, and the records.

use vstd::prelude::*;
use vstd::utf8::*;

use super::error::{DecodeError, Phase};
use super::extent::{lemma_header_within, within};
use super::fields::{ascending_tags, has_tag, lemma_put, lookup, put};
use super::header::{
    area_length_of, extended_overflow, file_header_fields, header_layout,
    reserved_count_layout, tables_progress, then_extension, then_group,
    then_layout, user_area_progress, user_defined_overflow, AREA_LENGTH_WIDTH,
};
use super::laws::{
    extended_records, extension_records, lemma_extension_ascending, lemma_extension_keeps,
    lemma_group_ascending,
    lemma_group_keeps, lemma_header_tag_is_its_own, lemma_records_ascending, lemma_records_keep,
    no_record_tagged, user_defined_records,
};
use super::layout::{
    apply_field, field_value, in_layout, lemma_layout_end, lemma_layout_keeps, read_layout,
    FieldSpec, Progress,
};
use super::reader::field_text;
use super::text::{decimal_of, indexed_tag, lemma_texts_differ};
use super::tlv::{
    encoded_length, lemma_records_fill_area, put_records, tlv_records, TlvRecord, LENGTH_WIDTH,
    RECORD_OVERHEAD, TAG_WIDTH,
};

verus! {

/// The length that the fields of a header declare for an extension area
/// under `tag`; zero if they declare none.
pub open spec fn declared_area_length(fields: Seq<(Seq<char>, Seq<char>)>, tag: Seq<char>) -> nat {
    match lookup(fields, tag) {
        Some(digits) => match area_length_of(digits) {
            Some(n) => n,
            None => 0,
        },
        None => 0,
    }
}

/// The tag of a record takes up six bytes.
pub proof fn lemma_record_tag_width(bytes: Seq<u8>, cursor: int, total: int, k: int)
    requires
        within(bytes, cursor),
        tlv_records(bytes, cursor, total) is Ok,
        0 <= k < tlv_records(bytes, cursor, total)->Ok_0.len(),
    ensures
        encode_utf8(tlv_records(bytes, cursor, total)->Ok_0[k].tag).len() == TAG_WIDTH,
    decreases total,
{
    let phase = Phase::HeaderExtensions;
    let digits = field_text(bytes, cursor + TAG_WIDTH, LENGTH_WIDTH as int, phase)->Ok_0;
    let length = decimal_of(digits)->Some_0;
    if k == 0 {
        let slot = bytes.subrange(cursor, cursor + TAG_WIDTH);
        decode_utf8_encode_utf8(slot);
    } else {
        let rest = tlv_records(
            bytes,
            cursor + RECORD_OVERHEAD + length,
            total - RECORD_OVERHEAD - length,
        )->Ok_0;
        let all = tlv_records(bytes, cursor, total)->Ok_0;
        assert(all[k] == rest[k - 1]);
        lemma_record_tag_width(
            bytes,
            cursor + RECORD_OVERHEAD + length,
            total - RECORD_OVERHEAD - length,
            k - 1,
        );
    }
}

/// No record of an extension area carries an ASCII tag that is shorter or
/// longer than six characters.
pub proof fn lemma_records_avoid_tag(
    bytes: Seq<u8>,
    at: Progress,
    overflow: FieldSpec,
    overflow_counted: bool,
    tag: Seq<char>,
)
    requires
        within(bytes, at.cursor),
        is_ascii_chars(tag),
        tag.len() != TAG_WIDTH,
    ensures
        no_record_tagged(extension_records(bytes, at, overflow, overflow_counted), tag),
{
    let records = extension_records(bytes, at, overflow, overflow_counted);
    is_ascii_chars_encode_utf8(tag);
    assert forall|k: int| 0 <= k < records.len() implies (#[trigger] records[k]).tag != tag by {
        let phase = Phase::HeaderExtensions;
        let digits = field_text(bytes, at.cursor, AREA_LENGTH_WIDTH as int, phase)->Ok_0;
        let declared = area_length_of(digits)->Some_0;
        let reserved = if overflow_counted {
            overflow.kind.width()
        } else {
            0
        };
        lemma_record_tag_width(
            bytes,
            at.cursor + AREA_LENGTH_WIDTH + overflow.kind.width(),
            declared - reserved,
            k,
        );
    }
}

/// Once recorded, every record's tag is present.
pub proof fn lemma_records_present(
    fields: Seq<(Seq<char>, Seq<char>)>,
    records: Seq<TlvRecord>,
    k: int,
)
    requires
        ascending_tags(fields),
        0 <= k < records.len(),
    ensures
        has_tag(put_records(fields, records), records[k].tag),
    decreases records.len(),
{
    let before = put_records(fields, records.drop_last());
    lemma_records_ascending(fields, records.drop_last());
    lemma_put(before, records.last().tag, records.last().value);
    if k < records.len() - 1 {
        lemma_records_present(fields, records.drop_last(), k);
        assert(records.drop_last()[k] == records[k]);
    }
}

/// Recording records removes no tag.
pub proof fn lemma_records_grow(
    fields: Seq<(Seq<char>, Seq<char>)>,
    records: Seq<TlvRecord>,
    tag: Seq<char>,
)
    requires
        ascending_tags(fields),
        has_tag(fields, tag),
    ensures
        has_tag(put_records(fields, records), tag),
    decreases records.len(),
{
    if records.len() > 0 {
        lemma_records_grow(fields, records.drop_last(), tag);
        lemma_records_ascending(fields, records.drop_last());
        lemma_put(put_records(fields, records.drop_last()), records.last().tag, records.last().value);
    }
}

/// What reading one extension area leaves behind.
///
/// The area's length field is present and holds a length. The records of
/// the area, written out again, take up that length, less the overflow
/// field where the length counts it, and each record's tag is present.
/// The overflow field is present exactly when the length is not zero,
/// provided that it was absent before and that no record carries its tag.
/// No tag that was present before is lost.
pub proof fn lemma_extension_area(
    bytes: Seq<u8>,
    so_far: Result<Progress, DecodeError>,
    length_tag: Seq<char>,
    overflow: FieldSpec,
    overflow_counted: bool,
)
    requires
        then_extension(bytes, so_far, length_tag, overflow, overflow_counted) is Ok,
        ascending_tags(so_far->Ok_0.fields),
        within(bytes, so_far->Ok_0.cursor),
        is_ascii_chars(length_tag),
        length_tag.len() != TAG_WIDTH,
        overflow.kind is Raw || overflow.kind is Trimmed,
        overflow.tag@ != length_tag,
    ensures
        so_far is Ok,
        ({
            let at = so_far->Ok_0;
            let end = then_extension(bytes, so_far, length_tag, overflow, overflow_counted)->Ok_0;
            let records = extension_records(bytes, at, overflow, overflow_counted);
            let declared = declared_area_length(end.fields, length_tag);
            let reserved: int = if overflow_counted {
                overflow.kind.width()
            } else {
                0
            };
            &&& lookup(end.fields, length_tag) is Some
            &&& area_length_of(lookup(end.fields, length_tag)->Some_0) is Some
            &&& encoded_length(records) == if declared == 0 {
                0
            } else {
                declared - reserved
            }
            &&& forall|k: int| 0 <= k < records.len() ==> has_tag(end.fields, (#[trigger] records[k]).tag)
            &&& (!has_tag(at.fields, overflow.tag@) && no_record_tagged(records, overflow.tag@))
                ==> (has_tag(end.fields, overflow.tag@) <==> declared > 0)
            &&& forall|tag: Seq<char>| has_tag(at.fields, tag) ==> #[trigger] has_tag(end.fields, tag)
        }),
{
    reveal(field_value);
    let at = so_far->Ok_0;
    let end = then_extension(bytes, so_far, length_tag, overflow, overflow_counted)->Ok_0;
    let phase = Phase::HeaderExtensions;
    let digits = field_text(bytes, at.cursor, AREA_LENGTH_WIDTH as int, phase)->Ok_0;
    let declared = area_length_of(digits)->Some_0;
    let records = extension_records(bytes, at, overflow, overflow_counted);
    lemma_put(at.fields, length_tag, digits);
    let inside = Progress {
        fields: put(at.fields, length_tag, digits),
        cursor: at.cursor + AREA_LENGTH_WIDTH,
    };
    lemma_records_avoid_tag(bytes, at, overflow, overflow_counted, length_tag);
    if declared != 0 {
        let reserved: int = if overflow_counted {
            overflow.kind.width()
        } else {
            0
        };
        let value = field_value(bytes, inside.cursor, overflow.kind, phase)->Ok_0;
        assert(value is Some);
        lemma_put(inside.fields, overflow.tag@, value->Some_0);
        let body = apply_field(bytes, inside, overflow, phase)->Ok_0;
        assert(body.fields == put(inside.fields, overflow.tag@, value->Some_0));
        assert(end.fields == put_records(body.fields, records));
        lemma_records_keep(body.fields, records, length_tag);
        lemma_records_fill_area(bytes, body.cursor, declared - reserved);
        assert forall|k: int| 0 <= k < records.len() implies has_tag(
            end.fields,
            (#[trigger] records[k]).tag,
        ) by {
            lemma_records_present(body.fields, records, k);
        }
        if no_record_tagged(records, overflow.tag@) {
            lemma_records_keep(body.fields, records, overflow.tag@);
        }
        assert forall|tag: Seq<char>| has_tag(at.fields, tag) implies #[trigger] has_tag(
            end.fields,
            tag,
        ) by {
            assert(has_tag(inside.fields, tag));
            assert(has_tag(body.fields, tag));
            lemma_records_grow(body.fields, records, tag);
        }
    } else {
        assert(end == inside);
        assert(records.len() == 0);
        assert forall|tag: Seq<char>| has_tag(at.fields, tag) implies #[trigger] has_tag(
            end.fields,
            tag,
        ) by {}
    }
}

/// The fields of a header before its extension areas stand in ascending
/// order of tag.
pub proof fn lemma_tables_ascending(bytes: Seq<u8>)
    requires
        tables_progress(bytes) is Ok,
    ensures
        ascending_tags(tables_progress(bytes)->Ok_0.fields),
{
    let phase = Phase::HeaderFields;
    let start = Progress { fields: Seq::empty(), cursor: 0 };
    let fixed = read_layout(bytes, start, header_layout(), phase);
    let images = then_group(bytes, fixed, "NUMI"@, "LISH"@, 6, "LI"@, 10);
    let graphics = then_group(bytes, images, "NUMS"@, "LSSH"@, 4, "LS"@, 6);
    let reserved = then_layout(bytes, graphics, reserved_count_layout());
    let texts = then_group(bytes, reserved, "NUMT"@, "LTSH"@, 4, "LT"@, 5);
    let data = then_group(bytes, texts, "NUMDES"@, "LDSH"@, 4, "LD"@, 9);
    lemma_layout_end(bytes, start, header_layout(), phase);
    lemma_group_ascending(bytes, fixed, "NUMI"@, "LISH"@, 6, "LI"@, 10);
    lemma_group_ascending(bytes, images, "NUMS"@, "LSSH"@, 4, "LS"@, 6);
    lemma_layout_end(bytes, graphics->Ok_0, reserved_count_layout(), phase);
    lemma_group_ascending(bytes, reserved, "NUMT"@, "LTSH"@, 4, "LT"@, 5);
    lemma_group_ascending(bytes, texts, "NUMDES"@, "LDSH"@, 4, "LD"@, 9);
    lemma_group_ascending(bytes, data, "NUMRES"@, "LRESH"@, 4, "LRE"@, 7);
}

/// Whether `tag` is the tag of a length or overflow field of an extension
/// area.
pub open spec fn area_tag(tag: Seq<char>) -> bool {
    tag == "UDHDL"@ || tag == "UDHOFL"@ || tag == "XHDL"@ || tag == "XHOFL"@
}

/// The tags of the length and overflow fields of the extension areas are
/// four different ASCII tags, and no other field of a header carries one
/// of them.
pub proof fn lemma_area_tags(tag: Seq<char>)
    requires
        area_tag(tag),
    ensures
        is_ascii_chars("UDHDL"@) && "UDHDL"@.len() == 5,
        is_ascii_chars("XHDL"@) && "XHDL"@.len() == 4,
        "UDHDL"@ != "UDHOFL"@ && "UDHDL"@ != "XHDL"@ && "UDHDL"@ != "XHOFL"@,
        "UDHOFL"@ != "XHDL"@ && "UDHOFL"@ != "XHOFL"@ && "XHDL"@ != "XHOFL"@,
        !in_layout(header_layout(), tag),
        !in_layout(reserved_count_layout(), tag),
        tag != "NUMI"@ && tag != "NUMS"@ && tag != "NUMT"@ && tag != "NUMDES"@ && tag
            != "NUMRES"@,
        forall|n: nat| tag != #[trigger] indexed_tag("LISH"@, n),
        forall|n: nat| tag != #[trigger] indexed_tag("LI"@, n),
        forall|n: nat| tag != #[trigger] indexed_tag("LSSH"@, n),
        forall|n: nat| tag != #[trigger] indexed_tag("LS"@, n),
        forall|n: nat| tag != #[trigger] indexed_tag("LTSH"@, n),
        forall|n: nat| tag != #[trigger] indexed_tag("LT"@, n),
        forall|n: nat| tag != #[trigger] indexed_tag("LDSH"@, n),
        forall|n: nat| tag != #[trigger] indexed_tag("LD"@, n),
        forall|n: nat| tag != #[trigger] indexed_tag("LRESH"@, n),
        forall|n: nat| tag != #[trigger] indexed_tag("LRE"@, n),
{
    reveal_strlit("UDHDL");
    reveal_strlit("UDHOFL");
    reveal_strlit("XHDL");
    reveal_strlit("XHOFL");
    reveal_strlit("NUMI");
    reveal_strlit("NUMS");
    reveal_strlit("NUMX");
    reveal_strlit("NUMT");
    reveal_strlit("NUMDES");
    reveal_strlit("NUMRES");
    reveal_strlit("LISH");
    reveal_strlit("LI");
    reveal_strlit("LSSH");
    reveal_strlit("LS");
    reveal_strlit("LTSH");
    reveal_strlit("LT");
    reveal_strlit("LDSH");
    reveal_strlit("LD");
    reveal_strlit("LRESH");
    reveal_strlit("LRE");
    lemma_texts_differ("UDHDL"@, "UDHOFL"@);
    lemma_texts_differ("UDHDL"@, "XHDL"@);
    lemma_texts_differ("UDHDL"@, "XHOFL"@);
    lemma_texts_differ("UDHOFL"@, "XHDL"@);
    lemma_texts_differ("UDHOFL"@, "XHOFL"@);
    lemma_texts_differ("XHDL"@, "XHOFL"@);
    lemma_texts_differ(tag, "NUMI"@);
    lemma_texts_differ(tag, "NUMS"@);
    lemma_texts_differ(tag, "NUMX"@);
    lemma_texts_differ(tag, "NUMT"@);
    lemma_texts_differ(tag, "NUMDES"@);
    lemma_texts_differ(tag, "NUMRES"@);
    let fixed = header_layout();
    assert forall|i: int| 0 <= i < fixed.len() implies (#[trigger] fixed[i]).tag@ != tag by {
        lemma_header_tag_is_its_own(i);
    }
    let reserved = reserved_count_layout();
    assert forall|i: int| 0 <= i < reserved.len() implies (#[trigger] reserved[i]).tag@ != tag by {}
    assert forall|n: nat| tag != #[trigger] indexed_tag("LISH"@, n) by {
        lemma_texts_differ(tag, indexed_tag("LISH"@, n));
    }
    assert forall|n: nat| tag != #[trigger] indexed_tag("LI"@, n) by {
        lemma_texts_differ(tag, indexed_tag("LI"@, n));
    }
    assert forall|n: nat| tag != #[trigger] indexed_tag("LSSH"@, n) by {
        lemma_texts_differ(tag, indexed_tag("LSSH"@, n));
    }
    assert forall|n: nat| tag != #[trigger] indexed_tag("LS"@, n) by {
        lemma_texts_differ(tag, indexed_tag("LS"@, n));
    }
    assert forall|n: nat| tag != #[trigger] indexed_tag("LTSH"@, n) by {
        lemma_texts_differ(tag, indexed_tag("LTSH"@, n));
    }
    assert forall|n: nat| tag != #[trigger] indexed_tag("LT"@, n) by {
        lemma_texts_differ(tag, indexed_tag("LT"@, n));
    }
    assert forall|n: nat| tag != #[trigger] indexed_tag("LDSH"@, n) by {
        lemma_texts_differ(tag, indexed_tag("LDSH"@, n));
    }
    assert forall|n: nat| tag != #[trigger] indexed_tag("LD"@, n) by {
        lemma_texts_differ(tag, indexed_tag("LD"@, n));
    }
    assert forall|n: nat| tag != #[trigger] indexed_tag("LRESH"@, n) by {
        lemma_texts_differ(tag, indexed_tag("LRESH"@, n));
    }
    assert forall|n: nat| tag != #[trigger] indexed_tag("LRE"@, n) by {
        lemma_texts_differ(tag, indexed_tag("LRE"@, n));
    }
}

/// Before the extension areas are read, a header holds nothing under the
/// tags of their length and overflow fields.
pub proof fn lemma_tables_lack(bytes: Seq<u8>, tag: Seq<char>)
    requires
        tables_progress(bytes) is Ok,
        area_tag(tag),
    ensures
        !has_tag(tables_progress(bytes)->Ok_0.fields, tag),
{
    let phase = Phase::HeaderFields;
    let start = Progress { fields: Seq::empty(), cursor: 0 };
    let fixed = read_layout(bytes, start, header_layout(), phase);
    let images = then_group(bytes, fixed, "NUMI"@, "LISH"@, 6, "LI"@, 10);
    let graphics = then_group(bytes, images, "NUMS"@, "LSSH"@, 4, "LS"@, 6);
    let reserved = then_layout(bytes, graphics, reserved_count_layout());
    let texts = then_group(bytes, reserved, "NUMT"@, "LTSH"@, 4, "LT"@, 5);
    let data = then_group(bytes, texts, "NUMDES"@, "LDSH"@, 4, "LD"@, 9);
    lemma_area_tags(tag);
    lemma_layout_end(bytes, start, header_layout(), phase);
    lemma_layout_keeps(bytes, start, header_layout(), phase, tag);
    lemma_group_keeps(bytes, fixed, "NUMI"@, "LISH"@, 6, "LI"@, 10, tag);
    lemma_group_keeps(bytes, images, "NUMS"@, "LSSH"@, 4, "LS"@, 6, tag);
    lemma_layout_keeps(bytes, graphics->Ok_0, reserved_count_layout(), phase, tag);
    lemma_layout_end(bytes, graphics->Ok_0, reserved_count_layout(), phase);
    lemma_group_keeps(bytes, reserved, "NUMT"@, "LTSH"@, 4, "LT"@, 5, tag);
    lemma_group_keeps(bytes, texts, "NUMDES"@, "LDSH"@, 4, "LD"@, 9, tag);
    lemma_group_keeps(bytes, data, "NUMRES"@, "LRESH"@, 4, "LRE"@, 7, tag);
}

/// What a header holds of its user-defined area once that area has been
/// read.
pub proof fn lemma_user_area(bytes: Seq<u8>)
    requires
        file_header_fields(bytes) is Ok,
    ensures
        user_area_progress(bytes) is Ok,
        ({
            let fields = user_area_progress(bytes)->Ok_0.fields;
            let user = user_defined_records(bytes);
            let user_length = declared_area_length(fields, "UDHDL"@);
            &&& ascending_tags(fields)
            &&& within(bytes, user_area_progress(bytes)->Ok_0.cursor)
            &&& lookup(fields, "UDHDL"@) is Some
            &&& area_length_of(lookup(fields, "UDHDL"@)->Some_0) is Some
            &&& encoded_length(user) == user_length
            &&& forall|k: int| 0 <= k < user.len() ==> has_tag(fields, (#[trigger] user[k]).tag)
            &&& no_record_tagged(user, "UDHOFL"@) ==> (has_tag(fields, "UDHOFL"@) <==> user_length
                > 0)
            &&& no_record_tagged(user, "XHOFL"@) ==> !has_tag(fields, "XHOFL"@)
        }),
{
    let tables = tables_progress(bytes);
    lemma_header_within(bytes);
    lemma_tables_ascending(bytes);
    lemma_area_tags("UDHDL"@);
    lemma_tables_lack(bytes, "UDHOFL"@);
    lemma_tables_lack(bytes, "XHOFL"@);
    lemma_extension_area(bytes, tables, "UDHDL"@, user_defined_overflow(), false);
    lemma_extension_ascending(bytes, tables, "UDHDL"@, user_defined_overflow(), false);
    if no_record_tagged(user_defined_records(bytes), "XHOFL"@) {
        lemma_extension_keeps(bytes, tables, "UDHDL"@, user_defined_overflow(), false, "XHOFL"@);
    }
}

/// What reading the extended area adds to what a header held before.
pub proof fn lemma_extended_area(bytes: Seq<u8>)
    requires
        file_header_fields(bytes) is Ok,
        user_area_progress(bytes) is Ok,
        ascending_tags(user_area_progress(bytes)->Ok_0.fields),
        within(bytes, user_area_progress(bytes)->Ok_0.cursor),
    ensures
        ({
            let before = user_area_progress(bytes)->Ok_0.fields;
            let fields = file_header_fields(bytes)->Ok_0;
            let extended = extended_records(bytes);
            let extended_length = declared_area_length(fields, "XHDL"@);
            &&& lookup(fields, "XHDL"@) is Some
            &&& area_length_of(lookup(fields, "XHDL"@)->Some_0) is Some
            &&& encoded_length(extended) == if extended_length == 0 {
                0
            } else {
                extended_length - 3
            }
            &&& forall|k: int|
                0 <= k < extended.len() ==> has_tag(fields, (#[trigger] extended[k]).tag)
            &&& (!has_tag(before, "XHOFL"@) && no_record_tagged(extended, "XHOFL"@)) ==> (has_tag(
                fields,
                "XHOFL"@,
            ) <==> extended_length > 0)
            &&& forall|tag: Seq<char>| has_tag(before, tag) ==> #[trigger] has_tag(fields, tag)
            &&& lookup(fields, "UDHDL"@) == lookup(before, "UDHDL"@)
            &&& no_record_tagged(extended, "UDHOFL"@) ==> lookup(fields, "UDHOFL"@) == lookup(
                before,
                "UDHOFL"@,
            )
        }),
{
    let middle = user_area_progress(bytes);
    lemma_area_tags("XHDL"@);
    lemma_extension_area(bytes, middle, "XHDL"@, extended_overflow(), true);
    lemma_records_avoid_tag(bytes, middle->Ok_0, extended_overflow(), true, "UDHDL"@);
    lemma_extension_keeps(bytes, middle, "XHDL"@, extended_overflow(), true, "UDHDL"@);
    if no_record_tagged(extended_records(bytes), "UDHOFL"@) {
        lemma_extension_keeps(bytes, middle, "XHDL"@, extended_overflow(), true, "UDHOFL"@);
    }
}

/// What a decoded file header holds of its extension areas.
///
/// The header declares a length for each area, under `UDHDL` and `XHDL`.
/// The records of the user-defined area, written out again with their
/// tags, length fields and as many value bytes as they declare, take up
/// the length under `UDHDL`; those of the extended area take up the
/// length under `XHDL` less the three bytes of its overflow field. The
/// tag of every record is a tag of the header. The overflow field of an
/// area is present exactly when the area's length is not zero, unless a
/// record carries its tag.
pub proof fn lemma_header_areas(bytes: Seq<u8>)
    requires
        file_header_fields(bytes) is Ok,
    ensures
        ({
            let fields = file_header_fields(bytes)->Ok_0;
            let user = user_defined_records(bytes);
            let extended = extended_records(bytes);
            let user_length = declared_area_length(fields, "UDHDL"@);
            let extended_length = declared_area_length(fields, "XHDL"@);
            &&& lookup(fields, "UDHDL"@) is Some
            &&& area_length_of(lookup(fields, "UDHDL"@)->Some_0) is Some
            &&& lookup(fields, "XHDL"@) is Some
            &&& area_length_of(lookup(fields, "XHDL"@)->Some_0) is Some
            &&& encoded_length(user) == user_length
            &&& encoded_length(extended) == if extended_length == 0 {
                0
            } else {
                extended_length - 3
            }
            &&& forall|k: int| 0 <= k < user.len() ==> has_tag(fields, (#[trigger] user[k]).tag)
            &&& forall|k: int|
                0 <= k < extended.len() ==> has_tag(fields, (#[trigger] extended[k]).tag)
            &&& (no_record_tagged(user, "UDHOFL"@) && no_record_tagged(extended, "UDHOFL"@)) ==> (
            has_tag(fields, "UDHOFL"@) <==> user_length > 0)
            &&& (no_record_tagged(user, "XHOFL"@) && no_record_tagged(extended, "XHOFL"@)) ==> (
            has_tag(fields, "XHOFL"@) <==> extended_length > 0)
        }),
{
    lemma_user_area(bytes);
    lemma_extended_area(bytes);
    let before = user_area_progress(bytes)->Ok_0.fields;
    let fields = file_header_fields(bytes)->Ok_0;
    let user = user_defined_records(bytes);
    assert forall|k: int| 0 <= k < user.len() implies has_tag(fields, (#[trigger] user[k]).tag) by {
        assert(has_tag(before, user[k].tag));
    }
}

} // verus!
