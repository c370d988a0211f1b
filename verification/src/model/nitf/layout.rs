//! Layouts: runs of consecutive fixed-width fields, and how they are read.

use vstd::prelude::*;

use super::error::{DecodeError, Phase};
use super::fields::{ascending_tags, lemma_put, lookup, put, FieldMap};
use super::reader::{
    colour_field_text, date_text, date_time_text, field_text, joined, optional_text, read_colour,
    read_date, read_date_time, read_field, read_optional_field, read_trimmed_field, trimmed_text,
    triple_text,
};
use super::text::{blank, lemma_trimmed_blank, lemma_trimmed_fixed, trimmed, white_space};

verus! {

/// How the bytes of a field become its value.
#[derive(Clone, Copy, Debug, PartialEq, Eq)]
pub enum FieldKind {
    /// The text of the slot as it stands; the width is in bytes.
    Raw(usize),
    /// The text of the slot without the white space around it.
    Trimmed(usize),
    /// Like `Trimmed`, but a blank slot leaves the field out.
    Optional(usize),
    /// Year, month and day in eight bytes; left out if blank.
    Date,
    /// Date and time of day in fourteen bytes; left out if blank.
    DateTime,
    /// Three bytes of colour, rendered in hexadecimal.
    Colour,
}

impl FieldKind {
    /// The number of bytes that a field of this kind occupies.
    pub open spec fn width(self) -> int {
        match self {
            FieldKind::Raw(w) => w as int,
            FieldKind::Trimmed(w) => w as int,
            FieldKind::Optional(w) => w as int,
            FieldKind::Date => 8,
            FieldKind::DateTime => 14,
            FieldKind::Colour => 3,
        }
    }

    /// Whether a field of this kind is left out when its slot is blank.
    pub open spec fn omissible(self) -> bool {
        self is Optional || self is Date || self is DateTime
    }
}

/// One field of a layout: its tag and how it is read.
#[derive(Clone, Copy, Debug, PartialEq, Eq)]
pub struct FieldSpec {
    pub tag: &'static str,
    pub kind: FieldKind,
}

/// How far a decode has come: the fields recorded so far, and the position
/// of the next byte to read.
pub struct Progress {
    pub fields: Seq<(Seq<char>, Seq<char>)>,
    pub cursor: int,
}

/// The value that a field of the given kind has at `cursor`, or nothing if
/// the field is left out.
#[verifier::opaque]
pub open spec fn field_value(bytes: Seq<u8>, cursor: int, kind: FieldKind, phase: Phase) -> Result<
    Option<Seq<char>>,
    DecodeError,
> {
    match kind {
        FieldKind::Raw(w) => match field_text(bytes, cursor, w as int, phase) {
            Err(e) => Err(e),
            Ok(t) => Ok(Some(t)),
        },
        FieldKind::Trimmed(w) => match trimmed_text(bytes, cursor, w as int, phase) {
            Err(e) => Err(e),
            Ok(t) => Ok(Some(t)),
        },
        FieldKind::Optional(w) => optional_text(bytes, cursor, w as int, phase),
        FieldKind::Date => date_text(bytes, cursor, phase),
        FieldKind::DateTime => date_time_text(bytes, cursor, phase),
        FieldKind::Colour => match colour_field_text(bytes, cursor, phase) {
            Err(e) => Err(e),
            Ok(t) => Ok(Some(t)),
        },
    }
}

/// The progress after reading one field: its value, if it has one, is
/// recorded under its tag, and the cursor moves past its slot.
pub open spec fn apply_field(bytes: Seq<u8>, at: Progress, field: FieldSpec, phase: Phase) -> Result<
    Progress,
    DecodeError,
> {
    match field_value(bytes, at.cursor, field.kind, phase) {
        Err(e) => Err(e),
        Ok(v) => Ok(
            Progress {
                fields: match v {
                    Some(t) => put(at.fields, field.tag@, t),
                    None => at.fields,
                },
                cursor: at.cursor + field.kind.width(),
            },
        ),
    }
}

/// The progress after reading the fields of a layout one after the other.
/// The first field that cannot be read fails the whole layout.
pub open spec fn read_layout(
    bytes: Seq<u8>,
    at: Progress,
    layout: Seq<FieldSpec>,
    phase: Phase,
) -> Result<Progress, DecodeError>
    decreases layout.len(),
{
    if layout.len() == 0 {
        Ok(at)
    } else {
        match apply_field(bytes, at, layout.first(), phase) {
            Err(e) => Err(e),
            Ok(next) => read_layout(bytes, next, layout.drop_first(), phase),
        }
    }
}

/// Whether what a decoder returned is what the model prescribes: the same
/// fields and cursor, or the same failure.
pub open spec fn same_progress(
    r: Result<(FieldMap, usize), DecodeError>,
    model: Result<Progress, DecodeError>,
) -> bool {
    match r {
        Ok((fields, cursor)) => model == Ok::<Progress, DecodeError>(
            Progress { fields: fields@, cursor: cursor as int },
        ),
        Err(e) => model == Err::<Progress, DecodeError>(e),
    }
}

/// Reads one field at `cursor` and records it in `fields`.
pub fn decode_field(
    buffer: &[u8],
    fields: FieldMap,
    cursor: usize,
    field: &FieldSpec,
    phase: Phase,
) -> (r: Result<(FieldMap, usize), DecodeError>)
    ensures
        same_progress(
            r,
            apply_field(
                buffer@,
                Progress { fields: fields@, cursor: cursor as int },
                *field,
                phase,
            ),
        ),
{
    reveal(field_value);
    let mut fields = fields;
    match field.kind {
        FieldKind::Raw(w) => {
            let (value, next) = read_field(buffer, cursor, w, phase)?;
            fields.insert(field.tag.to_owned(), value);
            Ok((fields, next))
        },
        FieldKind::Trimmed(w) => {
            let (value, next) = read_trimmed_field(buffer, cursor, w, phase)?;
            fields.insert(field.tag.to_owned(), value);
            Ok((fields, next))
        },
        FieldKind::Optional(w) => {
            let (value, next) = read_optional_field(buffer, cursor, w, phase)?;
            if let Some(text) = value {
                fields.insert(field.tag.to_owned(), text);
            }
            Ok((fields, next))
        },
        FieldKind::Date => {
            let (value, next) = read_date(buffer, cursor, phase)?;
            if let Some(text) = value {
                fields.insert(field.tag.to_owned(), text);
            }
            Ok((fields, next))
        },
        FieldKind::DateTime => {
            let (value, next) = read_date_time(buffer, cursor, phase)?;
            if let Some(text) = value {
                fields.insert(field.tag.to_owned(), text);
            }
            Ok((fields, next))
        },
        FieldKind::Colour => {
            let (value, next) = read_colour(buffer, cursor, phase)?;
            fields.insert(field.tag.to_owned(), value);
            Ok((fields, next))
        },
    }
}

/// Reads the fields of a layout one after the other, starting at `cursor`,
/// and records them in `fields`.
pub fn decode_layout(
    buffer: &[u8],
    fields: FieldMap,
    cursor: usize,
    layout: &Vec<FieldSpec>,
    phase: Phase,
) -> (r: Result<(FieldMap, usize), DecodeError>)
    ensures
        same_progress(
            r,
            read_layout(
                buffer@,
                Progress { fields: fields@, cursor: cursor as int },
                layout@,
                phase,
            ),
        ),
{
    let ghost start = Progress { fields: fields@, cursor: cursor as int };
    let mut done = fields;
    let mut position = cursor;
    let mut i: usize = 0;
    assert(layout@.skip(0) == layout@);
    while i < layout.len()
        invariant
            i <= layout@.len(),
            start == (Progress { fields: fields@, cursor: cursor as int }),
            read_layout(buffer@, start, layout@, phase) == read_layout(
                buffer@,
                Progress { fields: done@, cursor: position as int },
                layout@.skip(i as int),
                phase,
            ),
        decreases layout@.len() - i,
    {
        proof {
            let rest = layout@.skip(i as int);
            assert(rest.first() == layout@[i as int]);
            assert(rest.drop_first() == layout@.skip(i + 1));
        }
        match decode_field(buffer, done, position, &layout[i], phase) {
            Ok((f, c)) => {
                done = f;
                position = c;
            },
            Err(e) => {
                return Err(e);
            },
        }
        i += 1;
    }
    Ok((done, position))
}

/// The number of bytes that the fields of a layout occupy together.
pub open spec fn layout_width(layout: Seq<FieldSpec>) -> int
    decreases layout.len(),
{
    if layout.len() == 0 {
        0
    } else {
        layout.first().kind.width() + layout_width(layout.drop_first())
    }
}

/// The distance from the start of a layout to its `i`-th field.
pub open spec fn offset_in_layout(layout: Seq<FieldSpec>, i: int) -> int {
    layout_width(layout.take(i))
}

/// Whether no tag occurs twice in a layout.
pub open spec fn distinct_layout(layout: Seq<FieldSpec>) -> bool {
    forall|i: int, j: int|
        0 <= i < j < layout.len() ==> (#[trigger] layout[i]).tag@ != (#[trigger] layout[j]).tag@
}

/// Whether a layout has a field with this tag.
pub open spec fn in_layout(layout: Seq<FieldSpec>, tag: Seq<char>) -> bool {
    exists|i: int| 0 <= i < layout.len() && (#[trigger] layout[i]).tag@ == tag
}

/// A field that may be left out never holds blank text: where its slot is
/// not blank, its value is trimmed and not empty.
pub proof fn lemma_omissible_value(bytes: Seq<u8>, cursor: int, kind: FieldKind, phase: Phase)
    requires
        kind.omissible(),
    ensures
        match field_value(bytes, cursor, kind, phase) {
            Ok(Some(v)) => v.len() > 0 && !blank(v) && trimmed(v) == v,
            _ => true,
        },
{
    reveal(field_value);
    match field_value(bytes, cursor, kind, phase) {
        Ok(Some(v)) => {
            match kind {
                FieldKind::Optional(w) => {
                    let t = field_text(bytes, cursor, w as int, phase)->Ok_0;
                    lemma_trimmed_blank(t);
                    lemma_trimmed_fixed(t);
                },
                FieldKind::Date => {
                    let (y, m, d) = triple_text(bytes, cursor, 4, 2, 2, phase)->Ok_0;
                    let whole = joined(y, m, d, '/');
                    lemma_joined_blank(y, m, d, '/');
                    lemma_trimmed_blank(whole);
                    lemma_trimmed_fixed(whole);
                },
                FieldKind::DateTime => {
                    let (y, m, d) = triple_text(bytes, cursor, 4, 2, 2, phase)->Ok_0;
                    let (h, mi, s) = triple_text(bytes, cursor + 8, 2, 2, 2, phase)->Ok_0;
                    let date = joined(y, m, d, '/');
                    let time = joined(h, mi, s, ':');
                    let whole = date + seq![' '] + time;
                    lemma_joined_blank(y, m, d, '/');
                    lemma_joined_blank(h, mi, s, ':');
                    if !blank(date) {
                        let i = choose|i: int| 0 <= i < date.len() && !white_space(date[i]);
                        assert(whole[i] == date[i]);
                    } else {
                        let i = choose|i: int| 0 <= i < time.len() && !white_space(time[i]);
                        assert(whole[date.len() + 1 + i] == time[i]);
                    }
                    lemma_trimmed_blank(whole);
                    lemma_trimmed_fixed(whole);
                },
                _ => {},
            }
            lemma_trimmed_blank(v);
        },
        _ => {},
    }
}

/// Parts joined by a separator are not blank if one of the parts is not.
pub proof fn lemma_joined_blank(a: Seq<char>, b: Seq<char>, c: Seq<char>, separator: char)
    ensures
        !(blank(a) && blank(b) && blank(c)) ==> !blank(joined(a, b, c, separator)),
{
    let whole = joined(a, b, c, separator);
    if !blank(a) {
        let i = choose|i: int| 0 <= i < a.len() && !white_space(a[i]);
        assert(whole[i] == a[i]);
    } else if !blank(b) {
        let i = choose|i: int| 0 <= i < b.len() && !white_space(b[i]);
        assert(whole[a.len() + 1 + i] == b[i]);
    } else if !blank(c) {
        let i = choose|i: int| 0 <= i < c.len() && !white_space(c[i]);
        assert(whole[a.len() + 1 + b.len() + 1 + i] == c[i]);
    }
}

/// Reading a layout keeps tags ascending and moves the cursor by the width
/// of the layout.
pub proof fn lemma_layout_end(bytes: Seq<u8>, at: Progress, layout: Seq<FieldSpec>, phase: Phase)
    requires
        ascending_tags(at.fields),
        read_layout(bytes, at, layout, phase) is Ok,
    ensures
        ascending_tags(read_layout(bytes, at, layout, phase)->Ok_0.fields),
        read_layout(bytes, at, layout, phase)->Ok_0.cursor == at.cursor + layout_width(layout),
    decreases layout.len(),
{
    if layout.len() > 0 {
        let head = layout.first();
        let next = apply_field(bytes, at, head, phase)->Ok_0;
        let value = field_value(bytes, at.cursor, head.kind, phase)->Ok_0;
        if value is Some {
            lemma_put(at.fields, head.tag@, value->Some_0);
        }
        lemma_layout_end(bytes, next, layout.drop_first(), phase);
    }
}

/// Reading a layout leaves every tag that the layout does not have as it
/// was before.
pub proof fn lemma_layout_keeps(
    bytes: Seq<u8>,
    at: Progress,
    layout: Seq<FieldSpec>,
    phase: Phase,
    tag: Seq<char>,
)
    requires
        ascending_tags(at.fields),
        read_layout(bytes, at, layout, phase) is Ok,
        !in_layout(layout, tag),
    ensures
        lookup(read_layout(bytes, at, layout, phase)->Ok_0.fields, tag) == lookup(at.fields, tag),
    decreases layout.len(),
{
    if layout.len() > 0 {
        let head = layout.first();
        let rest = layout.drop_first();
        let next = apply_field(bytes, at, head, phase)->Ok_0;
        let value = field_value(bytes, at.cursor, head.kind, phase)->Ok_0;
        assert(layout[0].tag@ != tag);
        if value is Some {
            lemma_put(at.fields, head.tag@, value->Some_0);
        }
        assert(!in_layout(rest, tag)) by {
            if in_layout(rest, tag) {
                let k = choose|k: int| 0 <= k < rest.len() && (#[trigger] rest[k]).tag@ == tag;
                assert(rest[k] == layout[k + 1]);
            }
        }
        lemma_layout_keeps(bytes, next, rest, phase, tag);
    }
}

/// What a layout leaves behind for one of its fields.
///
/// When a layout without repeated tags has been read, its `i`-th field
/// holds the value that its slot gave, read at the field's own offset; if
/// the field was left out, its tag is as it was before.
pub proof fn lemma_layout_field(
    bytes: Seq<u8>,
    at: Progress,
    layout: Seq<FieldSpec>,
    phase: Phase,
    i: int,
)
    requires
        ascending_tags(at.fields),
        distinct_layout(layout),
        read_layout(bytes, at, layout, phase) is Ok,
        0 <= i < layout.len(),
    ensures
        field_value(bytes, at.cursor + offset_in_layout(layout, i), layout[i].kind, phase) is Ok,
        lookup(read_layout(bytes, at, layout, phase)->Ok_0.fields, layout[i].tag@) == match field_value(
            bytes,
            at.cursor + offset_in_layout(layout, i),
            layout[i].kind,
            phase,
        ) {
            Ok(Some(v)) => Some(v),
            _ => lookup(at.fields, layout[i].tag@),
        },
    decreases layout.len(),
{
    let head = layout.first();
    let rest = layout.drop_first();
    let next = apply_field(bytes, at, head, phase)->Ok_0;
    let value = field_value(bytes, at.cursor, head.kind, phase)->Ok_0;
    if value is Some {
        lemma_put(at.fields, head.tag@, value->Some_0);
    }
    if i == 0 {
        assert(layout.take(0) =~= Seq::<FieldSpec>::empty());
        assert(!in_layout(rest, head.tag@)) by {
            if in_layout(rest, head.tag@) {
                let k = choose|k: int| 0 <= k < rest.len() && (#[trigger] rest[k]).tag@ == head.tag@;
                assert(rest[k] == layout[k + 1]);
                assert(layout[0].tag@ != layout[k + 1].tag@);
            }
        }
        lemma_layout_keeps(bytes, next, rest, phase, head.tag@);
    } else {
        assert(distinct_layout(rest)) by {
            assert forall|a: int, b: int| 0 <= a < b < rest.len() implies (#[trigger] rest[a]).tag@
                != (#[trigger] rest[b]).tag@ by {
                assert(rest[a] == layout[a + 1]);
                assert(rest[b] == layout[b + 1]);
            }
        }
        lemma_layout_field(bytes, next, rest, phase, i - 1);
        assert(rest[i - 1] == layout[i]);
        assert(layout.take(i).drop_first() =~= rest.take(i - 1));
        assert(layout.take(i).first() == head);
        assert(layout[0].tag@ != layout[i].tag@);
    }
}

} // verus!
