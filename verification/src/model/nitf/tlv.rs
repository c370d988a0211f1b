//! Tagged records: the contents of the extension areas of a file header.
//!
//! An area is a run of records, each a six-byte tag, a five-digit decimal
//! length, and that many bytes of value. The records must fill the area
//! exactly.

use vstd::prelude::*;

use super::error::{DecodeError, ErrorKind, Phase};
use super::fields::{put, FieldMap};
use super::reader::{failure, field_text, slot_text};
use super::text::{decimal_of, parse_decimal, trim_end_of};

verus! {

/// The width of a record's tag, in bytes.
pub const TAG_WIDTH: usize = 6;

/// The width of a record's length field, in bytes.
pub const LENGTH_WIDTH: usize = 5;

/// The bytes that a record takes up besides its value.
pub const RECORD_OVERHEAD: usize = 11;

/// One tagged record as it was read.
#[derive(Clone, Debug, PartialEq, Eq)]
pub struct TlvEntry {
    /// The six bytes of the tag, as text.
    pub tag: String,
    /// The number of value bytes that the record declares and holds.
    pub length: usize,
    /// The value, without trailing white space.
    pub value: String,
}

/// The model of a [`TlvEntry`].
pub struct TlvRecord {
    pub tag: Seq<char>,
    pub length: nat,
    pub value: Seq<char>,
}

impl View for TlvEntry {
    type V = TlvRecord;

    open spec fn view(&self) -> TlvRecord {
        TlvRecord { tag: self.tag@, length: self.length as nat, value: self.value@ }
    }
}

/// The models of a run of entries.
pub open spec fn records_of(entries: Seq<TlvEntry>) -> Seq<TlvRecord> {
    entries.map_values(|e: TlvEntry| e@)
}

/// The records of an area of `total` bytes that starts at `cursor`.
///
/// The area is malformed if fewer than eleven bytes are left for a record,
/// or if a record declares more value bytes than the area has left. A
/// length that is not decimal is a malformed count. Reads past the end of
/// the buffer and bytes that are not text fail as for any field.
pub open spec fn tlv_records(bytes: Seq<u8>, cursor: int, total: int) -> Result<
    Seq<TlvRecord>,
    DecodeError,
>
    decreases total,
{
    let phase = Phase::HeaderExtensions;
    if total <= 0 {
        Ok(Seq::empty())
    } else if total < RECORD_OVERHEAD {
        Err(failure(ErrorKind::MalformedTLV, phase, cursor))
    } else {
        match field_text(bytes, cursor, TAG_WIDTH as int, phase) {
            Err(e) => Err(e),
            Ok(tag) => match field_text(bytes, cursor + TAG_WIDTH, LENGTH_WIDTH as int, phase) {
                Err(e) => Err(e),
                Ok(digits) => match decimal_of(digits) {
                    None => Err(failure(ErrorKind::MalformedCount, phase, cursor + TAG_WIDTH)),
                    Some(length) => if RECORD_OVERHEAD + length > total {
                        Err(failure(ErrorKind::MalformedTLV, phase, cursor))
                    } else {
                        match field_text(bytes, cursor + RECORD_OVERHEAD, length as int, phase) {
                            Err(e) => Err(e),
                            Ok(value) => match tlv_records(
                                bytes,
                                cursor + RECORD_OVERHEAD + length,
                                total - RECORD_OVERHEAD - length,
                            ) {
                                Err(e) => Err(e),
                                Ok(rest) => Ok(
                                    seq![TlvRecord { tag, length, value: trim_end_of(value) }]
                                        + rest,
                                ),
                            },
                        }
                    },
                },
            },
        }
    }
}

/// The number of bytes that the records take up when written out again,
/// each with its tag, its length field and as many value bytes as it
/// declares.
pub open spec fn encoded_length(records: Seq<TlvRecord>) -> nat
    decreases records.len(),
{
    if records.len() == 0 {
        0
    } else {
        RECORD_OVERHEAD as nat + records.first().length + encoded_length(records.drop_first())
    }
}

/// The records decoded from an area take up, written out again, exactly
/// the length that was declared for the area.
pub proof fn lemma_records_fill_area(bytes: Seq<u8>, cursor: int, total: int)
    requires
        0 <= total,
        tlv_records(bytes, cursor, total) is Ok,
    ensures
        encoded_length(tlv_records(bytes, cursor, total)->Ok_0) == total,
    decreases total,
{
    if total > 0 {
        let phase = Phase::HeaderExtensions;
        let digits = field_text(bytes, cursor + TAG_WIDTH, LENGTH_WIDTH as int, phase)->Ok_0;
        let length = decimal_of(digits)->Some_0;
        let rest_start = cursor + RECORD_OVERHEAD + length;
        let rest_total = total - RECORD_OVERHEAD - length;
        lemma_records_fill_area(bytes, rest_start, rest_total);
        let all = tlv_records(bytes, cursor, total)->Ok_0;
        let rest = tlv_records(bytes, rest_start, rest_total)->Ok_0;
        assert(all.drop_first() == rest);
    }
}

/// `fields` after recording every record's value under its tag, in order.
pub open spec fn put_records(fields: Seq<(Seq<char>, Seq<char>)>, records: Seq<TlvRecord>) -> Seq<
    (Seq<char>, Seq<char>),
>
    decreases records.len(),
{
    if records.len() == 0 {
        fields
    } else {
        put(put_records(fields, records.drop_last()), records.last().tag, records.last().value)
    }
}

/// Reads the records of an area of `total_length` bytes that starts at
/// `cursor`. The records must fill the area exactly.
pub fn read_tlv_block(buffer: &[u8], cursor: usize, total_length: usize) -> (r: Result<
    Vec<TlvEntry>,
    DecodeError,
>)
    ensures
        match r {
            Ok(entries) => tlv_records(buffer@, cursor as int, total_length as int) == Ok::<
                Seq<TlvRecord>,
                DecodeError,
            >(records_of(entries@)) && encoded_length(records_of(entries@)) == total_length
                && cursor + total_length <= usize::MAX,
            Err(e) => tlv_records(buffer@, cursor as int, total_length as int) == Err::<
                Seq<TlvRecord>,
                DecodeError,
            >(e),
        },
{
    let phase = Phase::HeaderExtensions;
    let mut entries: Vec<TlvEntry> = Vec::new();
    let mut used: usize = 0;
    assert(Seq::<TlvRecord>::empty() + tlv_records(buffer@, cursor as int, total_length as int)->Ok_0
        =~= tlv_records(buffer@, cursor as int, total_length as int)->Ok_0);
    assert(records_of(entries@) =~= Seq::<TlvRecord>::empty());
    while used < total_length
        invariant
            used <= total_length,
            cursor + used <= usize::MAX,
            phase == Phase::HeaderExtensions,
            tlv_records(buffer@, cursor as int, total_length as int) == match tlv_records(
                buffer@,
                cursor + used,
                total_length - used,
            ) {
                Err(e) => Err::<Seq<TlvRecord>, DecodeError>(e),
                Ok(rest) => Ok(records_of(entries@) + rest),
            },
        decreases total_length - used,
    {
        let at = cursor + used;
        let remaining = total_length - used;
        if remaining < RECORD_OVERHEAD {
            return Err(DecodeError { kind: ErrorKind::MalformedTLV, phase, offset: at });
        }
        let tag = slot_text(buffer, at, TAG_WIDTH, phase)?;
        let digits = slot_text(buffer, at + TAG_WIDTH, LENGTH_WIDTH, phase)?;
        let declared = match parse_decimal(digits) {
            Some(v) => v,
            None => {
                return Err(
                    DecodeError {
                        kind: ErrorKind::MalformedCount,
                        phase,
                        offset: at + TAG_WIDTH,
                    },
                );
            },
        };
        if declared > (remaining - RECORD_OVERHEAD) as u64 {
            return Err(DecodeError { kind: ErrorKind::MalformedTLV, phase, offset: at });
        }
        let length = declared as usize;
        let value = slot_text(buffer, at + RECORD_OVERHEAD, length, phase)?;
        let entry = TlvEntry { tag: tag.to_owned(), length, value: value.trim_end().to_owned() };
        proof {
            let rest = tlv_records(
                buffer@,
                at + RECORD_OVERHEAD + length,
                remaining - RECORD_OVERHEAD - length,
            );
            if rest is Ok {
                assert(records_of(entries@) + (seq![entry@] + rest->Ok_0) =~= records_of(
                    entries@.push(entry),
                ) + rest->Ok_0);
            }
        }
        entries.push(entry);
        used += RECORD_OVERHEAD + length;
    }
    proof {
        assert(records_of(entries@) + Seq::<TlvRecord>::empty() =~= records_of(entries@));
        lemma_records_fill_area(buffer@, cursor as int, total_length as int);
    }
    Ok(entries)
}

/// Records the value of every entry under its tag, in order.
pub fn record_entries(fields: FieldMap, entries: &Vec<TlvEntry>) -> (r: FieldMap)
    ensures
        r@ == put_records(fields@, records_of(entries@)),
{
    let mut done = fields;
    let mut i: usize = 0;
    assert(records_of(entries@).take(0) =~= Seq::<TlvRecord>::empty());
    while i < entries.len()
        invariant
            i <= entries@.len(),
            done@ == put_records(fields@, records_of(entries@).take(i as int)),
        decreases entries@.len() - i,
    {
        proof {
            let all = records_of(entries@);
            assert(all.take(i + 1).drop_last() =~= all.take(i as int));
            assert(all.take(i + 1).last() == entries@[i as int]@);
        }
        let e = &entries[i];
        done.insert(e.tag.clone(), e.value.clone());
        i += 1;
    }
    assert(records_of(entries@).take(entries@.len() as int) =~= records_of(entries@));
    done
}

} // verus!
