//! Common traits shared by the imagery models.

use vstd::prelude::*;

verus! {

/// A remote-sensing imagery model that is built from the complete content of
/// one file.
pub trait Model {
    /// The model that a successful decode produces.
    type MyType;

    /// What a failed decode reports.
    type Error;

    /// Decodes a model from the bytes of a whole file.
    fn new(data: &[u8]) -> Result<Self::MyType, Self::Error>;
}

} // verus!
