//! Where the segments start: offsets derived from the lengths that the
//! file header records.
//!
//! Nothing here touches the buffer. The first segment starts where the
//! header ends, and every other segment starts where the one before it
//! ends: at that segment's offset plus the length of its subheader plus the
//! length of its data. Image segments come first, then graphic, text and
//! data-extension segments.

use vstd::prelude::*;

use super::error::{DecodeError, ErrorKind, Phase};
use super::fields::{lookup, FieldMap};
use super::header::{segment_count_of, MAX_SEGMENTS};
use super::reader::failure;
use super::text::{
    decimal_of, indexed_tag, lemma_decimal_bound, lemma_pow10_18, lemma_pow10_increasing,
    make_indexed_tag, parse_decimal,
};

verus! {

/// The kinds of segment whose subheaders are decoded.
#[derive(Clone, Copy, Debug, PartialEq, Eq, Structural)]
pub enum SegmentKind {
    Image,
    Graphic,
    Text,
    DataExtension,
}

impl SegmentKind {
    /// The tag of the header field that counts the segments of this kind.
    pub open spec fn count_tag(self) -> Seq<char> {
        match self {
            SegmentKind::Image => "NUMI"@,
            SegmentKind::Graphic => "NUMS"@,
            SegmentKind::Text => "NUMT"@,
            SegmentKind::DataExtension => "NUMDES"@,
        }
    }

    /// The prefix of the header fields that hold the subheader lengths.
    pub open spec fn subheader_prefix(self) -> Seq<char> {
        match self {
            SegmentKind::Image => "LISH"@,
            SegmentKind::Graphic => "LSSH"@,
            SegmentKind::Text => "LTSH"@,
            SegmentKind::DataExtension => "LDSH"@,
        }
    }

    /// The prefix of the header fields that hold the data lengths.
    pub open spec fn segment_prefix(self) -> Seq<char> {
        match self {
            SegmentKind::Image => "LI"@,
            SegmentKind::Graphic => "LS"@,
            SegmentKind::Text => "LT"@,
            SegmentKind::DataExtension => "LD"@,
        }
    }

    /// The tag of the header field that counts the segments of this kind.
    pub fn count_field(self) -> (tag: &'static str)
        ensures
            tag@ == self.count_tag(),
    {
        match self {
            SegmentKind::Image => "NUMI",
            SegmentKind::Graphic => "NUMS",
            SegmentKind::Text => "NUMT",
            SegmentKind::DataExtension => "NUMDES",
        }
    }

    /// The tag of the header field that holds the subheader length of the
    /// `index`-th segment of this kind, counted from one.
    pub(crate) fn subheader_length_field(self, index: usize) -> (tag: String)
        requires
            index <= MAX_SEGMENTS,
        ensures
            tag@ == indexed_tag(self.subheader_prefix(), index as nat),
    {
        let prefix = match self {
            SegmentKind::Image => "LISH",
            SegmentKind::Graphic => "LSSH",
            SegmentKind::Text => "LTSH",
            SegmentKind::DataExtension => "LDSH",
        };
        make_indexed_tag(prefix, index)
    }

    /// The tag of the header field that holds the data length of the
    /// `index`-th segment of this kind, counted from one.
    pub(crate) fn segment_length_field(self, index: usize) -> (tag: String)
        requires
            index <= MAX_SEGMENTS,
        ensures
            tag@ == indexed_tag(self.segment_prefix(), index as nat),
    {
        let prefix = match self {
            SegmentKind::Image => "LI",
            SegmentKind::Graphic => "LS",
            SegmentKind::Text => "LT",
            SegmentKind::DataExtension => "LD",
        };
        make_indexed_tag(prefix, index)
    }
}

/// One segment: its kind, its number among the segments of that kind,
/// counted from one, and the offset of its subheader in the buffer.
#[derive(Clone, Copy, Debug, PartialEq, Eq, Structural)]
pub struct SegmentDescriptor {
    pub kind: SegmentKind,
    pub index: usize,
    pub byte_offset: usize,
}

/// The segments of one kind, in order, and the offset at which the last of
/// them ends.
pub struct Walk {
    pub segments: Seq<SegmentDescriptor>,
    pub end: nat,
}

/// The length of the file header, as the header records it under `HL`.
pub open spec fn header_length(fields: Seq<(Seq<char>, Seq<char>)>) -> Option<nat> {
    match lookup(fields, "HL"@) {
        Some(t) => decimal_of(t),
        None => None,
    }
}

/// The number of segments of a kind, as the header records it.
pub open spec fn declared_count(fields: Seq<(Seq<char>, Seq<char>)>, kind: SegmentKind) -> Option<
    nat,
> {
    match lookup(fields, kind.count_tag()) {
        Some(t) => segment_count_of(t),
        None => None,
    }
}

/// The bytes that the `index`-th segment of a kind takes up, subheader and
/// data together, as the header records them.
pub open spec fn declared_span(
    fields: Seq<(Seq<char>, Seq<char>)>,
    kind: SegmentKind,
    index: nat,
) -> Option<nat> {
    match lookup(fields, indexed_tag(kind.subheader_prefix(), index)) {
        None => None,
        Some(a) => match lookup(fields, indexed_tag(kind.segment_prefix(), index)) {
            None => None,
            Some(b) => match decimal_of(a) {
                None => None,
                Some(x) => match decimal_of(b) {
                    None => None,
                    Some(y) => Some(x + y),
                },
            },
        },
    }
}

/// The first `count` segments of a kind when the first of them starts at
/// `start`.
///
/// A length that is missing or not decimal is a malformed count. An offset
/// that cannot be represented lies beyond the end of any buffer and is
/// reported as truncated input. Either failure carries the offset of the
/// segment whose lengths could not be added.
pub open spec fn walk_group(
    fields: Seq<(Seq<char>, Seq<char>)>,
    kind: SegmentKind,
    count: nat,
    start: nat,
) -> Result<Walk, DecodeError>
    decreases count,
{
    let phase = Phase::SegmentOffsets;
    if count == 0 {
        Ok(Walk { segments: Seq::empty(), end: start })
    } else {
        match walk_group(fields, kind, (count - 1) as nat, start) {
            Err(e) => Err(e),
            Ok(before) => match declared_span(fields, kind, count) {
                None => Err(failure(ErrorKind::MalformedCount, phase, before.end as int)),
                Some(span) => if before.end + span > usize::MAX {
                    Err(failure(ErrorKind::TruncatedInput, phase, before.end as int))
                } else {
                    Ok(
                        Walk {
                            segments: before.segments.push(
                                SegmentDescriptor {
                                    kind,
                                    index: count as usize,
                                    byte_offset: before.end as usize,
                                },
                            ),
                            end: before.end + span,
                        },
                    )
                },
            },
        }
    }
}

/// The segments of a kind when the first of them starts at `start`.
pub open spec fn resolve_group_model(
    fields: Seq<(Seq<char>, Seq<char>)>,
    kind: SegmentKind,
    start: nat,
) -> Result<Walk, DecodeError> {
    match declared_count(fields, kind) {
        None => Err(failure(ErrorKind::MalformedCount, Phase::SegmentOffsets, start as int)),
        Some(count) => walk_group(fields, kind, count, start),
    }
}

/// Once a walk has failed, walking further fails in the same way.
pub proof fn lemma_walk_failure_stays(
    fields: Seq<(Seq<char>, Seq<char>)>,
    kind: SegmentKind,
    failed: nat,
    count: nat,
    start: nat,
)
    requires
        failed <= count,
        walk_group(fields, kind, failed, start) is Err,
    ensures
        walk_group(fields, kind, count, start) == walk_group(fields, kind, failed, start),
    decreases count,
{
    if failed < count {
        lemma_walk_failure_stays(fields, kind, failed, (count - 1) as nat, start);
    }
}

/// Looks up the bytes that the `index`-th segment of a kind takes up.
fn span_of(header: &FieldMap, kind: SegmentKind, index: usize) -> (r: Option<u64>)
    requires
        index <= MAX_SEGMENTS,
    ensures
        match r {
            Some(span) => declared_span(header@, kind, index as nat) == Some(span as nat),
            None => declared_span(header@, kind, index as nat) is None,
        },
{
    let subheader_tag = kind.subheader_length_field(index);
    let segment_tag = kind.segment_length_field(index);
    let subheader_length = match header.get(subheader_tag.as_str()) {
        Some(text) => parse_decimal(text),
        None => None,
    };
    let segment_length = match header.get(segment_tag.as_str()) {
        Some(text) => parse_decimal(text),
        None => None,
    };
    match (subheader_length, segment_length) {
        (Some(x), Some(y)) => {
            proof {
                let a = lookup(header@, indexed_tag(kind.subheader_prefix(), index as nat))->Some_0;
                let b = lookup(header@, indexed_tag(kind.segment_prefix(), index as nat))->Some_0;
                lemma_decimal_bound(a);
                lemma_decimal_bound(b);
                lemma_pow10_increasing(a.len(), 18);
                lemma_pow10_increasing(b.len(), 18);
                lemma_pow10_18();
            }
            Some(x + y)
        },
        _ => None,
    }
}

/// Adds a span to an offset, if the sum can be represented.
fn advance(offset: usize, span: u64) -> (r: Option<usize>)
    ensures
        r == if offset + span > usize::MAX {
            None
        } else {
            Some((offset + span) as usize)
        },
{
    match (offset as u64).checked_add(span) {
        Some(sum) => if sum <= usize::MAX as u64 {
            Some(sum as usize)
        } else {
            None
        },
        None => None,
    }
}

/// Looks up the number of segments of a kind.
fn count_of(header: &FieldMap, kind: SegmentKind) -> (r: Option<usize>)
    ensures
        match r {
            Some(n) => declared_count(header@, kind) == Some(n as nat) && n <= MAX_SEGMENTS,
            None => declared_count(header@, kind) is None,
        },
{
    match header.get(kind.count_field()) {
        Some(text) => match parse_decimal(text) {
            Some(n) => if n <= MAX_SEGMENTS as u64 {
                Some(n as usize)
            } else {
                None
            },
            None => None,
        },
        None => None,
    }
}

/// Derives the offsets of the segments of one kind from the lengths in the
/// file header. `start` is the offset of the first segment of the kind;
/// the second value returned is the offset at which the last one ends.
pub fn resolve_group(header: &FieldMap, kind: SegmentKind, start: usize) -> (r: Result<
    (Vec<SegmentDescriptor>, usize),
    DecodeError,
>)
    ensures
        match r {
            Ok((segments, end)) => resolve_group_model(header@, kind, start as nat) == Ok::<
                Walk,
                DecodeError,
            >(Walk { segments: segments@, end: end as nat }) && declared_count(header@, kind)
                == Some(segments@.len()),
            Err(e) => resolve_group_model(header@, kind, start as nat) == Err::<Walk, DecodeError>(
                e,
            ),
        },
{
    let phase = Phase::SegmentOffsets;
    let count = match count_of(header, kind) {
        Some(n) => n,
        None => {
            return Err(DecodeError { kind: ErrorKind::MalformedCount, phase, offset: start });
        },
    };
    let mut segments: Vec<SegmentDescriptor> = Vec::new();
    let mut offset = start;
    let mut index: usize = 1;
    while index <= count
        invariant
            1 <= index <= count + 1,
            count <= MAX_SEGMENTS,
            phase == Phase::SegmentOffsets,
            declared_count(header@, kind) == Some(count as nat),
            segments@.len() == index - 1,
            walk_group(header@, kind, (index - 1) as nat, start as nat) == Ok::<Walk, DecodeError>(
                Walk { segments: segments@, end: offset as nat },
            ),
        decreases count + 1 - index,
    {
        match span_of(header, kind, index) {
            None => {
                proof {
                    lemma_walk_failure_stays(header@, kind, index as nat, count as nat, start as nat);
                }
                return Err(DecodeError { kind: ErrorKind::MalformedCount, phase, offset });
            },
            Some(span) => match advance(offset, span) {
                None => {
                    proof {
                        lemma_walk_failure_stays(
                            header@,
                            kind,
                            index as nat,
                            count as nat,
                            start as nat,
                        );
                    }
                    return Err(DecodeError { kind: ErrorKind::TruncatedInput, phase, offset });
                },
                Some(end) => {
                    segments.push(SegmentDescriptor { kind, index, byte_offset: offset });
                    offset = end;
                },
            },
        }
        index += 1;
    }
    Ok((segments, offset))
}

/// The segments of a file, kind by kind, and the offset at which the last
/// segment ends.
#[derive(Clone, Debug, PartialEq, Eq)]
pub struct SegmentTable {
    pub images: Vec<SegmentDescriptor>,
    pub graphics: Vec<SegmentDescriptor>,
    pub texts: Vec<SegmentDescriptor>,
    pub data_extensions: Vec<SegmentDescriptor>,
    pub end: usize,
}

/// The model of a [`SegmentTable`].
pub struct SegmentPlan {
    pub images: Seq<SegmentDescriptor>,
    pub graphics: Seq<SegmentDescriptor>,
    pub texts: Seq<SegmentDescriptor>,
    pub data_extensions: Seq<SegmentDescriptor>,
    pub end: nat,
}

impl SegmentPlan {
    /// Every segment, in the order in which the segments lie in the file.
    pub open spec fn all(self) -> Seq<SegmentDescriptor> {
        self.images + self.graphics + self.texts + self.data_extensions
    }
}

impl View for SegmentTable {
    type V = SegmentPlan;

    open spec fn view(&self) -> SegmentPlan {
        SegmentPlan {
            images: self.images@,
            graphics: self.graphics@,
            texts: self.texts@,
            data_extensions: self.data_extensions@,
            end: self.end as nat,
        }
    }
}

/// The segments of a file whose header holds `fields`.
///
/// The first segment starts at the header length. The kinds follow one
/// another in the order image, graphic, text, data extension, each
/// starting where the one before it ends.
pub open spec fn resolve_segments_model(fields: Seq<(Seq<char>, Seq<char>)>) -> Result<
    SegmentPlan,
    DecodeError,
> {
    let phase = Phase::SegmentOffsets;
    match header_length(fields) {
        None => Err(failure(ErrorKind::MalformedCount, phase, 0)),
        Some(start) => if start > usize::MAX {
            Err(failure(ErrorKind::TruncatedInput, phase, 0))
        } else {
            match resolve_group_model(fields, SegmentKind::Image, start) {
                Err(e) => Err(e),
                Ok(images) => match resolve_group_model(fields, SegmentKind::Graphic, images.end) {
                    Err(e) => Err(e),
                    Ok(graphics) => match resolve_group_model(
                        fields,
                        SegmentKind::Text,
                        graphics.end,
                    ) {
                        Err(e) => Err(e),
                        Ok(texts) => match resolve_group_model(
                            fields,
                            SegmentKind::DataExtension,
                            texts.end,
                        ) {
                            Err(e) => Err(e),
                            Ok(data) => Ok(
                                SegmentPlan {
                                    images: images.segments,
                                    graphics: graphics.segments,
                                    texts: texts.segments,
                                    data_extensions: data.segments,
                                    end: data.end,
                                },
                            ),
                        },
                    },
                },
            }
        }
    }
}

/// Derives the offset of every segment from the lengths in the file header.
pub fn resolve_segments(header: &FieldMap) -> (r: Result<SegmentTable, DecodeError>)
    ensures
        match r {
            Ok(table) => resolve_segments_model(header@) == Ok::<SegmentPlan, DecodeError>(table@)
                && table.images@.len() <= MAX_SEGMENTS && table.graphics@.len() <= MAX_SEGMENTS
                && table.texts@.len() <= MAX_SEGMENTS && table.data_extensions@.len()
                <= MAX_SEGMENTS,
            Err(e) => resolve_segments_model(header@) == Err::<SegmentPlan, DecodeError>(e),
        },
{
    let phase = Phase::SegmentOffsets;
    let length = match header.get("HL") {
        Some(text) => parse_decimal(text),
        None => None,
    };
    let start = match length {
        None => {
            return Err(DecodeError { kind: ErrorKind::MalformedCount, phase, offset: 0 });
        },
        Some(n) => if n <= usize::MAX as u64 {
            n as usize
        } else {
            return Err(DecodeError { kind: ErrorKind::TruncatedInput, phase, offset: 0 });
        },
    };
    let (images, after_images) = resolve_group(header, SegmentKind::Image, start)?;
    let (graphics, after_graphics) = resolve_group(header, SegmentKind::Graphic, after_images)?;
    let (texts, after_texts) = resolve_group(header, SegmentKind::Text, after_graphics)?;
    let (data_extensions, end) = resolve_group(header, SegmentKind::DataExtension, after_texts)?;
    Ok(SegmentTable { images, graphics, texts, data_extensions, end })
}

/// The bytes that a segment takes up, subheader and data together.
pub open spec fn span_of_segment(fields: Seq<(Seq<char>, Seq<char>)>, segment: SegmentDescriptor) -> nat {
    declared_span(fields, segment.kind, segment.index as nat)->Some_0
}

/// Whether the `k`-th segment of a run ends where the next one starts, or,
/// if it is the last, at `end`.
pub open spec fn linked(
    fields: Seq<(Seq<char>, Seq<char>)>,
    segments: Seq<SegmentDescriptor>,
    end: nat,
    k: int,
) -> bool {
    segments[k].byte_offset + span_of_segment(fields, segments[k]) == if k + 1 < segments.len() {
        segments[k + 1].byte_offset as nat
    } else {
        end
    }
}

/// Whether `segments` lie one after the other from `start` to `end`: the
/// first starts at `start`, each of the others starts where the one before
/// it ends, and the last ends at `end`.
pub open spec fn chained(
    fields: Seq<(Seq<char>, Seq<char>)>,
    segments: Seq<SegmentDescriptor>,
    start: nat,
    end: nat,
) -> bool {
    &&& segments.len() == 0 ==> start == end
    &&& segments.len() > 0 ==> segments[0].byte_offset == start
    &&& forall|k: int| 0 <= k < segments.len() ==> #[trigger] linked(fields, segments, end, k)
}

/// The segments of one kind are numbered from one and lie one after the
/// other from the start of the group to its end.
pub proof fn lemma_walk_chained(
    fields: Seq<(Seq<char>, Seq<char>)>,
    kind: SegmentKind,
    count: nat,
    start: nat,
)
    requires
        start <= usize::MAX,
        count <= usize::MAX,
        walk_group(fields, kind, count, start) is Ok,
    ensures
        ({
            let walk = walk_group(fields, kind, count, start)->Ok_0;
            &&& walk.segments.len() == count
            &&& walk.end <= usize::MAX
            &&& chained(fields, walk.segments, start, walk.end)
            &&& forall|k: int|
                0 <= k < count ==> (#[trigger] walk.segments[k]).kind == kind
                    && walk.segments[k].index == k + 1
        }),
    decreases count,
{
    if count > 0 {
        lemma_walk_chained(fields, kind, (count - 1) as nat, start);
        let before = walk_group(fields, kind, (count - 1) as nat, start)->Ok_0;
        let walk = walk_group(fields, kind, count, start)->Ok_0;
        assert forall|k: int| 0 <= k < walk.segments.len() implies #[trigger] linked(
            fields,
            walk.segments,
            walk.end,
            k,
        ) by {
            if k < count - 1 {
                assert(linked(fields, before.segments, before.end, k));
                assert(walk.segments[k] == before.segments[k]);
                if k + 1 < count - 1 {
                    assert(walk.segments[k + 1] == before.segments[k + 1]);
                }
            } else {
                assert(walk.segments[k].index as nat == count);
                assert(walk.segments[k].byte_offset as nat == before.end);
            }
        }
    }
}

/// Two runs of segments that lie one after the other make one such run.
pub proof fn lemma_chained_concat(
    fields: Seq<(Seq<char>, Seq<char>)>,
    first: Seq<SegmentDescriptor>,
    second: Seq<SegmentDescriptor>,
    start: nat,
    middle: nat,
    end: nat,
)
    requires
        chained(fields, first, start, middle),
        chained(fields, second, middle, end),
    ensures
        chained(fields, first + second, start, end),
{
    let both = first + second;
    assert forall|k: int| 0 <= k < both.len() implies #[trigger] linked(fields, both, end, k) by {
        if k < first.len() {
            assert(linked(fields, first, middle, k));
            assert(both[k] == first[k]);
            if k + 1 < first.len() {
                assert(both[k + 1] == first[k + 1]);
            } else if second.len() > 0 {
                assert(both[k + 1] == second[0]);
            }
        } else {
            assert(linked(fields, second, end, k - first.len()));
            assert(both[k] == second[k - first.len()]);
            if k + 1 < both.len() {
                assert(both[k + 1] == second[k + 1 - first.len()]);
            }
        }
    }
    if first.len() > 0 {
        assert(both[0] == first[0]);
    } else if second.len() > 0 {
        assert(both[0] == second[0]);
    }
}

/// The segments of a file lie one after the other in the order image,
/// graphic, text, data extension: the first segment starts at the header
/// length, and every other segment starts at the offset of the segment
/// before it plus that segment's subheader length and data length.
pub proof fn lemma_segments_chained(fields: Seq<(Seq<char>, Seq<char>)>)
    requires
        resolve_segments_model(fields) is Ok,
    ensures
        ({
            let plan = resolve_segments_model(fields)->Ok_0;
            &&& header_length(fields) is Some
            &&& chained(fields, plan.all(), header_length(fields)->Some_0, plan.end)
            &&& declared_count(fields, SegmentKind::Image) == Some(plan.images.len())
            &&& declared_count(fields, SegmentKind::Graphic) == Some(plan.graphics.len())
            &&& declared_count(fields, SegmentKind::Text) == Some(plan.texts.len())
            &&& declared_count(fields, SegmentKind::DataExtension) == Some(
                plan.data_extensions.len(),
            )
        }),
{
    let start = header_length(fields)->Some_0;
    let images = resolve_group_model(fields, SegmentKind::Image, start)->Ok_0;
    let graphics = resolve_group_model(fields, SegmentKind::Graphic, images.end)->Ok_0;
    let texts = resolve_group_model(fields, SegmentKind::Text, graphics.end)->Ok_0;
    let data = resolve_group_model(fields, SegmentKind::DataExtension, texts.end)->Ok_0;
    lemma_walk_chained(
        fields,
        SegmentKind::Image,
        declared_count(fields, SegmentKind::Image)->Some_0,
        start,
    );
    lemma_walk_chained(
        fields,
        SegmentKind::Graphic,
        declared_count(fields, SegmentKind::Graphic)->Some_0,
        images.end,
    );
    lemma_walk_chained(
        fields,
        SegmentKind::Text,
        declared_count(fields, SegmentKind::Text)->Some_0,
        graphics.end,
    );
    lemma_walk_chained(
        fields,
        SegmentKind::DataExtension,
        declared_count(fields, SegmentKind::DataExtension)->Some_0,
        texts.end,
    );
    lemma_chained_concat(fields, images.segments, graphics.segments, start, images.end, graphics.end);
    lemma_chained_concat(
        fields,
        images.segments + graphics.segments,
        texts.segments,
        start,
        graphics.end,
        texts.end,
    );
    lemma_chained_concat(
        fields,
        images.segments + graphics.segments + texts.segments,
        data.segments,
        start,
        texts.end,
        data.end,
    );
}

/// In a run of segments that lie one after the other, a later segment
/// never starts before an earlier one.
pub proof fn lemma_chained_ascends(
    fields: Seq<(Seq<char>, Seq<char>)>,
    segments: Seq<SegmentDescriptor>,
    start: nat,
    end: nat,
    i: int,
    j: int,
)
    requires
        chained(fields, segments, start, end),
        0 <= i <= j < segments.len(),
    ensures
        start <= segments[i].byte_offset <= segments[j].byte_offset <= end,
    decreases j - i,
{
    if i < j {
        lemma_chained_ascends(fields, segments, start, end, i + 1, j);
        assert(linked(fields, segments, end, i));
    } else {
        lemma_chained_reaches_end(fields, segments, start, end, j);
    }
    lemma_chained_from_start(fields, segments, start, end, i);
}

/// No segment of a run starts before the run does.
pub proof fn lemma_chained_from_start(
    fields: Seq<(Seq<char>, Seq<char>)>,
    segments: Seq<SegmentDescriptor>,
    start: nat,
    end: nat,
    i: int,
)
    requires
        chained(fields, segments, start, end),
        0 <= i < segments.len(),
    ensures
        start <= segments[i].byte_offset,
    decreases i,
{
    if i > 0 {
        lemma_chained_from_start(fields, segments, start, end, i - 1);
        assert(linked(fields, segments, end, i - 1));
    }
}

/// No segment of a run starts after the run has ended.
pub proof fn lemma_chained_reaches_end(
    fields: Seq<(Seq<char>, Seq<char>)>,
    segments: Seq<SegmentDescriptor>,
    start: nat,
    end: nat,
    i: int,
)
    requires
        chained(fields, segments, start, end),
        0 <= i < segments.len(),
    ensures
        segments[i].byte_offset <= end,
    decreases segments.len() - i,
{
    if i + 1 < segments.len() {
        lemma_chained_reaches_end(fields, segments, start, end, i + 1);
    }
    assert(linked(fields, segments, end, i));
}

/// Where no segment in between is empty, a later segment starts strictly
/// after an earlier one.
pub proof fn lemma_chained_strictly_ascends(
    fields: Seq<(Seq<char>, Seq<char>)>,
    segments: Seq<SegmentDescriptor>,
    start: nat,
    end: nat,
    i: int,
    j: int,
)
    requires
        chained(fields, segments, start, end),
        0 <= i < j < segments.len(),
        forall|k: int| i <= k < j ==> span_of_segment(fields, #[trigger] segments[k]) > 0,
    ensures
        segments[i].byte_offset < segments[j].byte_offset,
    decreases j - i,
{
    assert(linked(fields, segments, end, i));
    if i + 1 < j {
        lemma_chained_strictly_ascends(fields, segments, start, end, i + 1, j);
    }
}

} // verus!
