//! Decoding the subheaders of many segments side by side.

use rayon::iter::{IntoParallelRefIterator, ParallelIterator};
use vstd::prelude::*;

use super::error::DecodeError;
use super::fields::{ascending_tags, FieldMap};
use super::segments::SegmentDescriptor;
use super::subheader::{
    decode_subheader, lemma_subheader_ascending, same_fields, subheader_fields,
};

verus! {

/// The fields of the subheaders of `segments`, in the order of the
/// segments. If a subheader cannot be decoded there is no result but the
/// failure of the first such subheader.
pub open spec fn group_fields(bytes: Seq<u8>, segments: Seq<SegmentDescriptor>) -> Result<
    Seq<Seq<(Seq<char>, Seq<char>)>>,
    DecodeError,
>
    decreases segments.len(),
{
    if segments.len() == 0 {
        Ok(Seq::empty())
    } else {
        match group_fields(bytes, segments.drop_last()) {
            Err(e) => Err(e),
            Ok(before) => match subheader_fields(
                bytes,
                segments.last().kind,
                segments.last().byte_offset as int,
            ) {
                Err(e) => Err(e),
                Ok(fields) => Ok(before.push(fields)),
            },
        }
    }
}

/// The models of a run of field maps.
pub open spec fn fields_of(maps: Seq<FieldMap>) -> Seq<Seq<(Seq<char>, Seq<char>)>> {
    maps.map_values(|m: FieldMap| m@)
}

/// What a run of decodes came to: the fields of each, or its failure.
pub open spec fn outcomes(results: Seq<Result<FieldMap, DecodeError>>) -> Seq<
    Result<Seq<(Seq<char>, Seq<char>)>, DecodeError>,
> {
    results.map_values(
        |r: Result<FieldMap, DecodeError>|
            match r {
                Ok(m) => Ok(m@),
                Err(e) => Err(e),
            },
    )
}

/// All the fields of a run of outcomes, in order, or the first failure in
/// it.
pub open spec fn gathered(results: Seq<Result<Seq<(Seq<char>, Seq<char>)>, DecodeError>>) -> Result<
    Seq<Seq<(Seq<char>, Seq<char>)>>,
    DecodeError,
>
    decreases results.len(),
{
    if results.len() == 0 {
        Ok(Seq::empty())
    } else {
        match gathered(results.drop_last()) {
            Err(e) => Err(e),
            Ok(before) => match results.last() {
                Err(e) => Err(e),
                Ok(fields) => Ok(before.push(fields)),
            },
        }
    }
}

/// A group that was decoded has one subheader for each of its segments.
pub proof fn lemma_group_length(bytes: Seq<u8>, segments: Seq<SegmentDescriptor>)
    requires
        group_fields(bytes, segments) is Ok,
    ensures
        group_fields(bytes, segments)->Ok_0.len() == segments.len(),
    decreases segments.len(),
{
    if segments.len() > 0 {
        lemma_group_length(bytes, segments.drop_last());
    }
}

/// In a group that was decoded, the fields of every subheader stand in
/// ascending order of tag.
pub proof fn lemma_group_ascending_tags(bytes: Seq<u8>, segments: Seq<SegmentDescriptor>, i: int)
    requires
        group_fields(bytes, segments) is Ok,
        0 <= i < group_fields(bytes, segments)->Ok_0.len(),
    ensures
        ascending_tags(group_fields(bytes, segments)->Ok_0[i]),
    decreases segments.len(),
{
    lemma_group_length(bytes, segments);
    if i < segments.len() - 1 {
        lemma_group_length(bytes, segments.drop_last());
        lemma_group_ascending_tags(bytes, segments.drop_last(), i);
    } else {
        lemma_subheader_ascending(bytes, segments.last().kind, segments.last().byte_offset as int);
    }
}

/// A failure among the first outcomes is the failure of the whole run.
pub proof fn lemma_gathered_failure_stays(
    results: Seq<Result<Seq<(Seq<char>, Seq<char>)>, DecodeError>>,
    failed: int,
)
    requires
        0 <= failed <= results.len(),
        gathered(results.take(failed)) is Err,
    ensures
        gathered(results) == gathered(results.take(failed)),
    decreases results.len(),
{
    if failed < results.len() {
        let shorter = results.drop_last();
        assert(shorter.take(failed) == results.take(failed));
        lemma_gathered_failure_stays(shorter, failed);
    } else {
        assert(results.take(failed) == results);
    }
}

/// Gathering the outcomes of decoding each segment's subheader gives the
/// fields of the group.
pub proof fn lemma_gathered_group(
    bytes: Seq<u8>,
    segments: Seq<SegmentDescriptor>,
    results: Seq<Result<Seq<(Seq<char>, Seq<char>)>, DecodeError>>,
)
    requires
        results.len() == segments.len(),
        forall|i: int|
            0 <= i < results.len() ==> #[trigger] results[i] == subheader_fields(
                bytes,
                segments[i].kind,
                segments[i].byte_offset as int,
            ),
    ensures
        gathered(results) == group_fields(bytes, segments),
    decreases results.len(),
{
    if results.len() > 0 {
        lemma_gathered_group(bytes, segments.drop_last(), results.drop_last());
        assert(results.last() == results[results.len() - 1]);
    }
}

/// Collects the fields of a run of decodes, in order. The first failure in
/// the run, if there is one, is the result.
pub fn gather(results: Vec<Result<FieldMap, DecodeError>>) -> (r: Result<Vec<FieldMap>, DecodeError>)
    ensures
        match r {
            Ok(maps) => gathered(outcomes(results@)) == Ok::<
                Seq<Seq<(Seq<char>, Seq<char>)>>,
                DecodeError,
            >(fields_of(maps@)),
            Err(e) => gathered(outcomes(results@)) == Err::<
                Seq<Seq<(Seq<char>, Seq<char>)>>,
                DecodeError,
            >(e),
        },
{
    let ghost all = outcomes(results@);
    let mut maps: Vec<FieldMap> = Vec::new();
    assert(all.take(0) =~= Seq::empty());
    assert(fields_of(maps@) =~= Seq::empty());
    for item in it: results
        invariant
            all == outcomes(results@),
            gathered(all.take(it.index() as int)) == Ok::<
                Seq<Seq<(Seq<char>, Seq<char>)>>,
                DecodeError,
            >(fields_of(maps@)),
    {
        proof {
            let k = it.index() as int;
            assert(all.take(k + 1).drop_last() =~= all.take(k));
            assert(all.take(k + 1).last() == all[k]);
        }
        match item {
            Ok(m) => {
                assert(fields_of(maps@.push(m)) =~= fields_of(maps@).push(m@));
                maps.push(m);
            },
            Err(e) => {
                proof {
                    lemma_gathered_failure_stays(all, it.index() + 1);
                }
                return Err(e);
            },
        }
    }
    assert(all.take(all.len() as int) =~= all);
    Ok(maps)
}

/// Decodes the subheader of every segment on rayon's thread pool, by
/// `par_iter`, `map` and `collect`.
///
/// Assumed of rayon, not proved: `map` applies [`decode_subheader`] once
/// to each segment, and `collect` into a vector keeps the results in the
/// order of the segments. So there are as many results as segments, and
/// the `i`-th result is what decoding the subheader of the `i`-th segment
/// gives.
#[verifier::external_body]
fn decode_side_by_side(buffer: &[u8], segments: &Vec<SegmentDescriptor>) -> (r: Vec<
    Result<FieldMap, DecodeError>,
>)
    ensures
        r@.len() == segments@.len(),
        forall|i: int|
            0 <= i < r@.len() ==> same_fields(
                #[trigger] r@[i],
                subheader_fields(buffer@, segments@[i].kind, segments@[i].byte_offset as int),
            ),
{
    segments.par_iter().map(|s| decode_subheader(buffer, s.kind, s.byte_offset)).collect()
}

/// Decodes the subheaders of a group of segments, side by side, and
/// returns their fields in the order of the segments. A subheader that
/// cannot be decoded fails the whole group.
pub fn decode_segments(buffer: &[u8], segments: &Vec<SegmentDescriptor>) -> (r: Result<
    Vec<FieldMap>,
    DecodeError,
>)
    ensures
        match r {
            Ok(maps) => group_fields(buffer@, segments@) == Ok::<
                Seq<Seq<(Seq<char>, Seq<char>)>>,
                DecodeError,
            >(fields_of(maps@)) && maps@.len() == segments@.len(),
            Err(e) => group_fields(buffer@, segments@) == Err::<
                Seq<Seq<(Seq<char>, Seq<char>)>>,
                DecodeError,
            >(e),
        },
{
    let results = decode_side_by_side(buffer, segments);
    proof {
        lemma_gathered_group(buffer@, segments@, outcomes(results@));
        if group_fields(buffer@, segments@) is Ok {
            lemma_group_length(buffer@, segments@);
        }
    }
    gather(results)
}

} // verus!
