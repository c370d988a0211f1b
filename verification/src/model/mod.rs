//! The imagery models that the crate can decode.

pub mod nitf;
