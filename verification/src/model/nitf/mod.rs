//! NITF (National Imagery Transmission Format) model.
//!
//! A NITF file is a file header followed by segments. The header records
//! how many image, graphic, text and data-extension segments follow and
//! how long each is; every segment begins with a subheader of its own.
//! [`NITF`] holds the decoded fields of the header and of every subheader.

pub mod areas;
pub mod error;
pub mod extent;
pub mod fields;
pub mod header;
pub mod laws;
pub mod layout;
pub mod order;
pub mod parallel;
pub mod reader;
pub mod render;
pub mod segments;
pub mod subheader;
pub mod text;
pub mod tlv;

use vstd::prelude::*;
use vstd::string::*;

use crate::base::Model;
use error::DecodeError;
use fields::{ascending_tags, FieldMap};
use header::{decode_file_header, file_header_fields, MAX_SEGMENTS};
use laws::lemma_file_header_ascending;
use parallel::{
    decode_segments, fields_of, group_fields, lemma_group_ascending_tags, lemma_group_length,
};
use render::{render_fields, render_group, rendered_fields, rendered_group};
use segments::{
    declared_count, lemma_segments_chained, resolve_segments, resolve_segments_model, SegmentKind,
};
use subheader::{decode_subheader, same_fields, subheader_fields};

verus! {

/// The model of a decoded file: the fields of the file header and of the
/// subheaders of each kind, those in ascending order of segment number.
pub struct DecodedNITF {
    pub file_header: Seq<(Seq<char>, Seq<char>)>,
    pub image_subheaders: Seq<Seq<(Seq<char>, Seq<char>)>>,
    pub graphic_subheaders: Seq<Seq<(Seq<char>, Seq<char>)>>,
    pub text_subheaders: Seq<Seq<(Seq<char>, Seq<char>)>>,
    pub data_ext_subheaders: Seq<Seq<(Seq<char>, Seq<char>)>>,
}

/// What decoding a whole file gives.
///
/// The phases follow one another and the first failure ends the decode:
/// the file header is read; the offsets of all segments are derived from
/// it; then the subheaders are decoded, kind by kind, each at its offset.
pub open spec fn decode_file(bytes: Seq<u8>) -> Result<DecodedNITF, DecodeError> {
    match file_header_fields(bytes) {
        Err(e) => Err(e),
        Ok(file_header) => match resolve_segments_model(file_header) {
            Err(e) => Err(e),
            Ok(plan) => match group_fields(bytes, plan.images) {
                Err(e) => Err(e),
                Ok(image_subheaders) => match group_fields(bytes, plan.graphics) {
                    Err(e) => Err(e),
                    Ok(graphic_subheaders) => match group_fields(bytes, plan.texts) {
                        Err(e) => Err(e),
                        Ok(text_subheaders) => match group_fields(bytes, plan.data_extensions) {
                            Err(e) => Err(e),
                            Ok(data_ext_subheaders) => Ok(
                                DecodedNITF {
                                    file_header,
                                    image_subheaders,
                                    graphic_subheaders,
                                    text_subheaders,
                                    data_ext_subheaders,
                                },
                            ),
                        },
                    },
                },
            },
        },
    }
}

/// Whether the fields of the file header and of every subheader stand in
/// ascending order of tag, tags being compared as `String` compares them.
pub open spec fn in_tag_order(decoded: DecodedNITF) -> bool {
    &&& ascending_tags(decoded.file_header)
    &&& forall|i: int|
        0 <= i < decoded.image_subheaders.len() ==> ascending_tags(
            #[trigger] decoded.image_subheaders[i],
        )
    &&& forall|i: int|
        0 <= i < decoded.graphic_subheaders.len() ==> ascending_tags(
            #[trigger] decoded.graphic_subheaders[i],
        )
    &&& forall|i: int|
        0 <= i < decoded.text_subheaders.len() ==> ascending_tags(
            #[trigger] decoded.text_subheaders[i],
        )
    &&& forall|i: int|
        0 <= i < decoded.data_ext_subheaders.len() ==> ascending_tags(
            #[trigger] decoded.data_ext_subheaders[i],
        )
}

/// In a decoded file the fields of the header and of every subheader stand
/// in ascending order of tag.
pub proof fn lemma_decoded_in_tag_order(bytes: Seq<u8>)
    requires
        decode_file(bytes) is Ok,
    ensures
        in_tag_order(decode_file(bytes)->Ok_0),
{
    let decoded = decode_file(bytes)->Ok_0;
    let plan = resolve_segments_model(decoded.file_header)->Ok_0;
    lemma_file_header_ascending(bytes);
    assert forall|i: int| 0 <= i < decoded.image_subheaders.len() implies ascending_tags(
        #[trigger] decoded.image_subheaders[i],
    ) by {
        lemma_group_ascending_tags(bytes, plan.images, i);
    }
    assert forall|i: int| 0 <= i < decoded.graphic_subheaders.len() implies ascending_tags(
        #[trigger] decoded.graphic_subheaders[i],
    ) by {
        lemma_group_ascending_tags(bytes, plan.graphics, i);
    }
    assert forall|i: int| 0 <= i < decoded.text_subheaders.len() implies ascending_tags(
        #[trigger] decoded.text_subheaders[i],
    ) by {
        lemma_group_ascending_tags(bytes, plan.texts, i);
    }
    assert forall|i: int| 0 <= i < decoded.data_ext_subheaders.len() implies ascending_tags(
        #[trigger] decoded.data_ext_subheaders[i],
    ) by {
        lemma_group_ascending_tags(bytes, plan.data_extensions, i);
    }
}

/// The report of a decoded file: the fields of the file header, then
/// those of the image, graphic, text and data-extension subheaders, one
/// line each. The fields of each header come as the record holds them; in
/// a decoded file that is ascending order of tag ([`in_tag_order`]).
pub open spec fn rendered(decoded: DecodedNITF) -> Seq<char> {
    rendered_fields("NITF::"@, decoded.file_header) + rendered_group(
        "IMAGE"@,
        decoded.image_subheaders,
    ) + rendered_group("GRAPHIC"@, decoded.graphic_subheaders) + rendered_group(
        "TEXT"@,
        decoded.text_subheaders,
    ) + rendered_group("DES"@, decoded.data_ext_subheaders)
}

/// The header of a decoded file counts its subheaders: the number of
/// image subheaders is the number recorded under `NUMI`, and likewise for
/// the graphic, text and data-extension subheaders.
pub proof fn lemma_subheader_counts(bytes: Seq<u8>)
    requires
        decode_file(bytes) is Ok,
    ensures
        ({
            let decoded = decode_file(bytes)->Ok_0;
            &&& declared_count(decoded.file_header, SegmentKind::Image) == Some(
                decoded.image_subheaders.len(),
            )
            &&& declared_count(decoded.file_header, SegmentKind::Graphic) == Some(
                decoded.graphic_subheaders.len(),
            )
            &&& declared_count(decoded.file_header, SegmentKind::Text) == Some(
                decoded.text_subheaders.len(),
            )
            &&& declared_count(decoded.file_header, SegmentKind::DataExtension) == Some(
                decoded.data_ext_subheaders.len(),
            )
        }),
{
    let file_header = file_header_fields(bytes)->Ok_0;
    let plan = resolve_segments_model(file_header)->Ok_0;
    lemma_segments_chained(file_header);
    lemma_group_length(bytes, plan.images);
    lemma_group_length(bytes, plan.graphics);
    lemma_group_length(bytes, plan.texts);
    lemma_group_length(bytes, plan.data_extensions);
}

/// Decoding is a function of the bytes: two decodes of the same buffer
/// give the same record, or fail in the same way.
pub proof fn lemma_decode_deterministic(
    bytes: Seq<u8>,
    first: Result<NITF, DecodeError>,
    second: Result<NITF, DecodeError>,
)
    requires
        decoded_as(first, bytes),
        decoded_as(second, bytes),
    ensures
        match (first, second) {
            (Ok(a), Ok(b)) => a@ == b@,
            (Err(e), Err(f)) => e == f,
            _ => false,
        },
{
}

/// NITF (National Imagery Transmission Format) model
#[derive(Debug, PartialEq, Eq)]
pub struct NITF {
    file_header: FieldMap,
    image_subheaders: Vec<FieldMap>,
    graphic_subheaders: Vec<FieldMap>,
    text_subheaders: Vec<FieldMap>,
    data_ext_subheaders: Vec<FieldMap>,
}

impl View for NITF {
    type V = DecodedNITF;

    closed spec fn view(&self) -> DecodedNITF {
        DecodedNITF {
            file_header: self.file_header@,
            image_subheaders: fields_of(self.image_subheaders@),
            graphic_subheaders: fields_of(self.graphic_subheaders@),
            text_subheaders: fields_of(self.text_subheaders@),
            data_ext_subheaders: fields_of(self.data_ext_subheaders@),
        }
    }
}

/// Whether what a decode returned is what the model prescribes for the
/// bytes: the same record, or the same failure.
pub open spec fn decoded_as(r: Result<NITF, DecodeError>, bytes: Seq<u8>) -> bool {
    match r {
        Ok(nitf) => decode_file(bytes) == Ok::<DecodedNITF, DecodeError>(nitf@),
        Err(e) => decode_file(bytes) == Err::<DecodedNITF, DecodeError>(e),
    }
}

impl Model for NITF {
    type MyType = NITF;

    type Error = DecodeError;

    /// Returns a Model for the given NITF file
    ///
    /// # Arguments
    ///
    /// * `data` - The bytes of the whole file.
    fn new(data: &[u8]) -> (r: Result<NITF, DecodeError>)
        ensures
            decoded_as(r, data@),
    {
        let file_header = NITF::parse_header(data)?;
        let table = resolve_segments(&file_header)?;
        let image_subheaders = decode_segments(data, &table.images)?;
        let graphic_subheaders = decode_segments(data, &table.graphics)?;
        let text_subheaders = decode_segments(data, &table.texts)?;
        let data_ext_subheaders = decode_segments(data, &table.data_extensions)?;
        proof {
            lemma_decoded_in_tag_order(data@);
        }
        Ok(
            NITF {
                file_header,
                image_subheaders,
                graphic_subheaders,
                text_subheaders,
                data_ext_subheaders,
            },
        )
    }
}

impl NITF {
    #[verifier::type_invariant]
    spec fn counts_fit(&self) -> bool {
        &&& self.image_subheaders@.len() <= MAX_SEGMENTS
        &&& self.graphic_subheaders@.len() <= MAX_SEGMENTS
        &&& self.text_subheaders@.len() <= MAX_SEGMENTS
        &&& self.data_ext_subheaders@.len() <= MAX_SEGMENTS
        &&& in_tag_order(self@)
    }

    /// Decodes the file header at the start of the buffer.
    pub fn parse_header(nitf: &[u8]) -> (r: Result<FieldMap, DecodeError>)
        ensures
            same_fields(r, file_header_fields(nitf@)),
    {
        match decode_file_header(nitf) {
            Ok((fields, _)) => Ok(fields),
            Err(e) => Err(e),
        }
    }

    /// Decodes the image subheader that starts at `offset`.
    pub fn parse_image_subheader(nitf: &[u8], offset: usize) -> (r: Result<FieldMap, DecodeError>)
        ensures
            same_fields(r, subheader_fields(nitf@, SegmentKind::Image, offset as int)),
    {
        decode_subheader(nitf, SegmentKind::Image, offset)
    }

    /// Decodes the graphic subheader that starts at `offset`.
    pub fn parse_graphic_subheader(nitf: &[u8], offset: usize) -> (r: Result<FieldMap, DecodeError>)
        ensures
            same_fields(r, subheader_fields(nitf@, SegmentKind::Graphic, offset as int)),
    {
        decode_subheader(nitf, SegmentKind::Graphic, offset)
    }

    /// Decodes the text subheader that starts at `offset`.
    pub fn parse_text_subheader(nitf: &[u8], offset: usize) -> (r: Result<FieldMap, DecodeError>)
        ensures
            same_fields(r, subheader_fields(nitf@, SegmentKind::Text, offset as int)),
    {
        decode_subheader(nitf, SegmentKind::Text, offset)
    }

    /// Decodes the data-extension subheader that starts at `offset`.
    pub fn parse_data_ext_seg_subheader(nitf: &[u8], offset: usize) -> (r: Result<
        FieldMap,
        DecodeError,
    >)
        ensures
            same_fields(r, subheader_fields(nitf@, SegmentKind::DataExtension, offset as int)),
    {
        decode_subheader(nitf, SegmentKind::DataExtension, offset)
    }

    /// The fields of the file header.
    pub fn file_header(&self) -> (r: &FieldMap)
        ensures
            r@ == self@.file_header,
    {
        &self.file_header
    }

    /// The fields of the image subheaders, in ascending order of segment.
    pub fn image_subheaders(&self) -> (r: &Vec<FieldMap>)
        ensures
            fields_of(r@) == self@.image_subheaders,
    {
        &self.image_subheaders
    }

    /// The fields of the graphic subheaders, in ascending order of segment.
    pub fn graphic_subheaders(&self) -> (r: &Vec<FieldMap>)
        ensures
            fields_of(r@) == self@.graphic_subheaders,
    {
        &self.graphic_subheaders
    }

    /// The fields of the text subheaders, in ascending order of segment.
    pub fn text_subheaders(&self) -> (r: &Vec<FieldMap>)
        ensures
            fields_of(r@) == self@.text_subheaders,
    {
        &self.text_subheaders
    }

    /// The fields of the data-extension subheaders, in ascending order of
    /// segment.
    pub fn data_ext_subheaders(&self) -> (r: &Vec<FieldMap>)
        ensures
            fields_of(r@) == self@.data_ext_subheaders,
    {
        &self.data_ext_subheaders
    }

    /// Renders the record as text, one line per field.
    ///
    /// Each line starts with a line break and reads `NITF::TAG: value`
    /// for a field of the file header and, for a field of a subheader,
    /// `NITF::IMAGE000::TAG: value`, with the kind of the segment and the
    /// position of the subheader among those of its kind, counted from
    /// zero. The fields of each header come in ascending order of tag,
    /// tags being compared as `String` compares them, by their UTF-8
    /// bytes.
    pub fn to_text(&self) -> (r: String)
        ensures
            r@ == rendered(self@),
            in_tag_order(self@),
    {
        proof {
            use_type_invariant(self);
        }
        let mut out = String::new();
        render_fields(&mut out, "NITF::", &self.file_header);
        render_group(&mut out, "IMAGE", &self.image_subheaders);
        render_group(&mut out, "GRAPHIC", &self.graphic_subheaders);
        render_group(&mut out, "TEXT", &self.text_subheaders);
        render_group(&mut out, "DES", &self.data_ext_subheaders);
        assert(out@ =~= rendered(self@));
        out
    }
}

} // verus!
