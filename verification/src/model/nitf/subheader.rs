//! Segment subheaders: the layout of each kind, and its decoder.
//!
//! A subheader is decoded from the buffer and an offset alone, so the
//! subheaders of a file can be decoded in any order, or side by side.

use vstd::prelude::*;

use super::error::{DecodeError, Phase};
use super::fields::{ascending_tags, lookup, FieldMap};
use super::layout::{
    decode_layout, distinct_layout, field_value, in_layout, lemma_layout_end, lemma_layout_field,
    lemma_layout_keeps, lemma_omissible_value, offset_in_layout, read_layout, FieldKind,
    FieldSpec, Progress,
};
use super::text::{blank, lemma_texts_differ, trimmed};
use super::segments::SegmentKind;

verus! {

/// The fields of an image subheader: identification, date and time, and
/// the security marking of the image.
pub open spec fn image_layout() -> Seq<FieldSpec> {
    seq![
        FieldSpec { tag: "IM", kind: FieldKind::Raw(2) },
        FieldSpec { tag: "IID1", kind: FieldKind::Raw(10) },
        FieldSpec { tag: "IDATIM", kind: FieldKind::DateTime },
        FieldSpec { tag: "TGTID", kind: FieldKind::Optional(17) },
        FieldSpec { tag: "IID2", kind: FieldKind::Optional(80) },
        FieldSpec { tag: "ISCLAS", kind: FieldKind::Raw(1) },
        FieldSpec { tag: "ISCLSY", kind: FieldKind::Optional(2) },
        FieldSpec { tag: "ISCODE", kind: FieldKind::Optional(11) },
        FieldSpec { tag: "ISCTLH", kind: FieldKind::Optional(2) },
        FieldSpec { tag: "ISREL", kind: FieldKind::Optional(20) },
        FieldSpec { tag: "ISDCTP", kind: FieldKind::Optional(2) },
        FieldSpec { tag: "ISDCDT", kind: FieldKind::Date },
        FieldSpec { tag: "ISDCXM", kind: FieldKind::Optional(4) },
        FieldSpec { tag: "ISDG", kind: FieldKind::Optional(1) },
        FieldSpec { tag: "ISDGDT", kind: FieldKind::Date },
        FieldSpec { tag: "ISCLTX", kind: FieldKind::Optional(43) },
        FieldSpec { tag: "ISCATP", kind: FieldKind::Optional(1) },
        FieldSpec { tag: "ISCAUT", kind: FieldKind::Optional(40) },
        FieldSpec { tag: "ISCRSN", kind: FieldKind::Optional(1) },
        FieldSpec { tag: "ISSRDT", kind: FieldKind::Date },
        FieldSpec { tag: "ISCTLN", kind: FieldKind::Optional(15) },
    ]
}

/// The fields of a graphic subheader that are decoded: part type and
/// identifier.
pub open spec fn graphic_layout() -> Seq<FieldSpec> {
    seq![
        FieldSpec { tag: "SY", kind: FieldKind::Raw(2) },
        FieldSpec { tag: "SID", kind: FieldKind::Raw(10) },
    ]
}

/// The fields of a text subheader that are decoded: part type and
/// identifier.
pub open spec fn text_layout() -> Seq<FieldSpec> {
    seq![
        FieldSpec { tag: "TE", kind: FieldKind::Raw(2) },
        FieldSpec { tag: "TEXTID", kind: FieldKind::Raw(7) },
    ]
}

/// The fields of a data-extension subheader that are decoded: part type
/// and identifier.
pub open spec fn data_extension_layout() -> Seq<FieldSpec> {
    seq![
        FieldSpec { tag: "DE", kind: FieldKind::Raw(2) },
        FieldSpec { tag: "DESID", kind: FieldKind::Raw(25) },
    ]
}

/// The layout of the subheader of a segment of the given kind.
pub open spec fn subheader_layout(kind: SegmentKind) -> Seq<FieldSpec> {
    match kind {
        SegmentKind::Image => image_layout(),
        SegmentKind::Graphic => graphic_layout(),
        SegmentKind::Text => text_layout(),
        SegmentKind::DataExtension => data_extension_layout(),
    }
}

/// The fields of the subheader of the given kind that starts at `offset`.
pub open spec fn subheader_fields(bytes: Seq<u8>, kind: SegmentKind, offset: int) -> Result<
    Seq<(Seq<char>, Seq<char>)>,
    DecodeError,
> {
    match read_layout(
        bytes,
        Progress { fields: Seq::empty(), cursor: offset },
        subheader_layout(kind),
        Phase::Subheaders,
    ) {
        Err(e) => Err(e),
        Ok(end) => Ok(end.fields),
    }
}

/// Whether what a subheader decoder returned is what the model
/// prescribes: the same fields, or the same failure.
pub open spec fn same_fields(
    r: Result<FieldMap, DecodeError>,
    model: Result<Seq<(Seq<char>, Seq<char>)>, DecodeError>,
) -> bool {
    match r {
        Ok(fields) => model == Ok::<Seq<(Seq<char>, Seq<char>)>, DecodeError>(fields@),
        Err(e) => model == Err::<Seq<(Seq<char>, Seq<char>)>, DecodeError>(e),
    }
}

/// The fields of an image subheader.
fn build_image_layout() -> (r: Vec<FieldSpec>)
    ensures
        r@ == image_layout(),
{
    let r = vec![
        FieldSpec { tag: "IM", kind: FieldKind::Raw(2) },
        FieldSpec { tag: "IID1", kind: FieldKind::Raw(10) },
        FieldSpec { tag: "IDATIM", kind: FieldKind::DateTime },
        FieldSpec { tag: "TGTID", kind: FieldKind::Optional(17) },
        FieldSpec { tag: "IID2", kind: FieldKind::Optional(80) },
        FieldSpec { tag: "ISCLAS", kind: FieldKind::Raw(1) },
        FieldSpec { tag: "ISCLSY", kind: FieldKind::Optional(2) },
        FieldSpec { tag: "ISCODE", kind: FieldKind::Optional(11) },
        FieldSpec { tag: "ISCTLH", kind: FieldKind::Optional(2) },
        FieldSpec { tag: "ISREL", kind: FieldKind::Optional(20) },
        FieldSpec { tag: "ISDCTP", kind: FieldKind::Optional(2) },
        FieldSpec { tag: "ISDCDT", kind: FieldKind::Date },
        FieldSpec { tag: "ISDCXM", kind: FieldKind::Optional(4) },
        FieldSpec { tag: "ISDG", kind: FieldKind::Optional(1) },
        FieldSpec { tag: "ISDGDT", kind: FieldKind::Date },
        FieldSpec { tag: "ISCLTX", kind: FieldKind::Optional(43) },
        FieldSpec { tag: "ISCATP", kind: FieldKind::Optional(1) },
        FieldSpec { tag: "ISCAUT", kind: FieldKind::Optional(40) },
        FieldSpec { tag: "ISCRSN", kind: FieldKind::Optional(1) },
        FieldSpec { tag: "ISSRDT", kind: FieldKind::Date },
        FieldSpec { tag: "ISCTLN", kind: FieldKind::Optional(15) },
    ];
    assert(r@ =~= image_layout());
    r
}

/// The layout of the subheader of a segment of the given kind.
pub fn layout_of(kind: SegmentKind) -> (r: Vec<FieldSpec>)
    ensures
        r@ == subheader_layout(kind),
{
    match kind {
        SegmentKind::Image => build_image_layout(),
        SegmentKind::Graphic => {
            let r = vec![
                FieldSpec { tag: "SY", kind: FieldKind::Raw(2) },
                FieldSpec { tag: "SID", kind: FieldKind::Raw(10) },
            ];
            assert(r@ =~= graphic_layout());
            r
        },
        SegmentKind::Text => {
            let r = vec![
                FieldSpec { tag: "TE", kind: FieldKind::Raw(2) },
                FieldSpec { tag: "TEXTID", kind: FieldKind::Raw(7) },
            ];
            assert(r@ =~= text_layout());
            r
        },
        SegmentKind::DataExtension => {
            let r = vec![
                FieldSpec { tag: "DE", kind: FieldKind::Raw(2) },
                FieldSpec { tag: "DESID", kind: FieldKind::Raw(25) },
            ];
            assert(r@ =~= data_extension_layout());
            r
        },
    }
}

/// Decodes the subheader of the given kind that starts at `offset`.
pub fn decode_subheader(buffer: &[u8], kind: SegmentKind, offset: usize) -> (r: Result<
    FieldMap,
    DecodeError,
>)
    ensures
        same_fields(r, subheader_fields(buffer@, kind, offset as int)),
{
    let layout = layout_of(kind);
    match decode_layout(buffer, FieldMap::new(), offset, &layout, Phase::Subheaders) {
        Ok((fields, _)) => Ok(fields),
        Err(e) => Err(e),
    }
}

/// No subheader layout has a tag twice.
pub proof fn lemma_subheader_layout_distinct(kind: SegmentKind)
    ensures
        distinct_layout(subheader_layout(kind)),
{
    reveal_strlit("IM");
    reveal_strlit("IID1");
    reveal_strlit("IDATIM");
    reveal_strlit("TGTID");
    reveal_strlit("IID2");
    reveal_strlit("ISCLAS");
    reveal_strlit("ISCLSY");
    reveal_strlit("ISCODE");
    reveal_strlit("ISCTLH");
    reveal_strlit("ISREL");
    reveal_strlit("ISDCTP");
    reveal_strlit("ISDCDT");
    reveal_strlit("ISDCXM");
    reveal_strlit("ISDG");
    reveal_strlit("ISDGDT");
    reveal_strlit("ISCLTX");
    reveal_strlit("ISCATP");
    reveal_strlit("ISCAUT");
    reveal_strlit("ISCRSN");
    reveal_strlit("ISSRDT");
    reveal_strlit("ISCTLN");
    reveal_strlit("SY");
    reveal_strlit("SID");
    reveal_strlit("TE");
    reveal_strlit("TEXTID");
    reveal_strlit("DE");
    reveal_strlit("DESID");
    let layout = subheader_layout(kind);
    assert forall|i: int, j: int| 0 <= i < j < layout.len() implies (#[trigger] layout[i]).tag@ != (
    #[trigger] layout[j]).tag@ by {
        lemma_texts_differ(layout[i].tag@, layout[j].tag@);
    }
}

/// What a decoded subheader holds under the tag of each field of its
/// layout: the value that the field's slot gave, read at the field's own
/// offset, or nothing where the field was left out. A field that may be
/// left out is therefore never blank: it is absent, or it holds trimmed
/// text that is not empty.
pub proof fn lemma_subheader_field(bytes: Seq<u8>, kind: SegmentKind, offset: int, i: int)
    requires
        subheader_fields(bytes, kind, offset) is Ok,
        0 <= i < subheader_layout(kind).len(),
    ensures
        ({
            let fields = subheader_fields(bytes, kind, offset)->Ok_0;
            let layout = subheader_layout(kind);
            let value = field_value(
                bytes,
                offset + offset_in_layout(layout, i),
                layout[i].kind,
                Phase::Subheaders,
            );
            &&& value is Ok
            &&& lookup(fields, layout[i].tag@) == value->Ok_0
            &&& layout[i].kind.omissible() ==> match lookup(fields, layout[i].tag@) {
                Some(v) => v.len() > 0 && !blank(v) && trimmed(v) == v,
                None => true,
            }
        }),
{
    let layout = subheader_layout(kind);
    let start = Progress { fields: Seq::empty(), cursor: offset };
    lemma_subheader_layout_distinct(kind);
    lemma_layout_field(bytes, start, layout, Phase::Subheaders, i);
    if layout[i].kind.omissible() {
        lemma_omissible_value(
            bytes,
            offset + offset_in_layout(layout, i),
            layout[i].kind,
            Phase::Subheaders,
        );
    }
}

/// A decoded subheader holds nothing under a tag that its layout does not
/// have.
pub proof fn lemma_subheader_tags(bytes: Seq<u8>, kind: SegmentKind, offset: int, tag: Seq<char>)
    requires
        subheader_fields(bytes, kind, offset) is Ok,
        !in_layout(subheader_layout(kind), tag),
    ensures
        lookup(subheader_fields(bytes, kind, offset)->Ok_0, tag) is None,
{
    let start = Progress { fields: Seq::empty(), cursor: offset };
    lemma_layout_keeps(bytes, start, subheader_layout(kind), Phase::Subheaders, tag);
}

/// The fields of a decoded subheader stand in ascending order of tag.
pub proof fn lemma_subheader_ascending(bytes: Seq<u8>, kind: SegmentKind, offset: int)
    requires
        subheader_fields(bytes, kind, offset) is Ok,
    ensures
        ascending_tags(subheader_fields(bytes, kind, offset)->Ok_0),
{
    let start = Progress { fields: Seq::empty(), cursor: offset };
    lemma_layout_end(bytes, start, subheader_layout(kind), Phase::Subheaders);
}

} // verus!
