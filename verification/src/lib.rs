//! Decoder for the metadata headers of NITF (National Imagery Transmission
//! Format) containers.
//!
//! The crate reads the fixed-width fields of a file header, the tagged
//! records of its extension areas, derives where every image, graphic,
//! text and data-extension segment starts, and decodes each segment's
//! subheader. It takes the bytes of a whole file and does no input or
//! output of its own.
//!
//! Every function states what it returns over a model of the bytes it
//! reads, and is verified against that statement. No function panics or
//! reads past the end of the buffer; what cannot be decoded is reported as
//! a [`model::nitf::error::DecodeError`].
//!
//! # What is assumed
//!
//! The proofs rest on the behaviour of a few functions that are not
//! verified here, each stated where it is declared:
//!
//! - in [`model::nitf::text`], of the standard library: `core::str::from_utf8`,
//!   `str::trim`, `str::trim_end`, `char::is_whitespace` and `String::push`;
//! - in [`model::nitf::parallel`], of rayon: that a parallel `map` collected
//!   into a vector yields the results in the order of the items.

pub mod base;
pub mod model;
