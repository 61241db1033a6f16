//! Error kinds of the encoder.

use vstd::prelude::*;

verus! {

/// What can go wrong while encoding.
#[derive(Clone, Copy, PartialEq, Eq, Structural, Debug)]
pub enum EncodeError {
    /// The image dimensions are incompatible with the pipeline's block and
    /// subsampling assumptions (zero width or height); rejected before any
    /// transform work begins.
    InvalidDimensions,
    /// A codeword was requested for a symbol absent from the code table: an
    /// internal invariant violation, distinct from any input error. The
    /// verified pipeline proves this never happens on its own tables.
    SymbolNotInTable,
}

impl EncodeError {
    /// A short diagnostic text for this error.
    pub fn message(&self) -> (m: &'static str)
        ensures
            (*self is InvalidDimensions) ==> m@ =~= "image width and height must be nonzero"@,
            (*self is SymbolNotInTable) ==> m@ =~= "symbol has no codeword in the table"@,
    {
        match self {
            EncodeError::InvalidDimensions => "image width and height must be nonzero",
            EncodeError::SymbolNotInTable => "symbol has no codeword in the table",
        }
    }
}

} // verus!
