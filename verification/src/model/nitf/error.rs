//! The failure that a decode reports.

use vstd::prelude::*;

verus! {

/// Why a decode failed.
#[derive(Clone, Copy, Debug, PartialEq, Eq, Structural)]
pub enum ErrorKind {
    /// The buffer ends before the last byte of a field.
    TruncatedInput,
    /// A decimal count or length field is not made of ASCII digits alone.
    MalformedCount,
    /// The records of an extension area do not fill its declared length exactly.
    MalformedTLV,
    /// The bytes of a field are not valid UTF-8 text.
    InvalidEncoding,
}

/// The stage of a decode in which a failure arose.
#[derive(Clone, Copy, Debug, PartialEq, Eq, Structural)]
pub enum Phase {
    /// Reading the fixed-width fields and segment tables of the file header.
    HeaderFields,
    /// Reading the user-defined or the extended header area.
    HeaderExtensions,
    /// Deriving segment offsets from the decoded header.
    SegmentOffsets,
    /// Reading the subheader of a segment.
    Subheaders,
}

/// A decode failure: what went wrong, in which phase, and at which byte.
///
/// `offset` is the position in the buffer of the field that could not be
/// read; for a failure while deriving segment offsets it is the offset that
/// had been reached when a length could not be added.
#[derive(Clone, Copy, Debug, PartialEq, Eq, Structural)]
pub struct DecodeError {
    pub kind: ErrorKind,
    pub phase: Phase,
    pub offset: usize,
}

} // verus!
