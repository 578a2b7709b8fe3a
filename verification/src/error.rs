//! Error taxonomy of the codec.  Every error is terminal for a conversion
//! run: the caller reports it and writes no output.

use vstd::prelude::*;

verus! {

/// Why a decode or encode failed.
#[derive(Debug, Clone, Copy, PartialEq, Eq, Structural)]
pub enum CodecError {
    /// A required line or byte range is absent from the input.
    Structure,
    /// A field is not valid integer text, or is out of its declared bit width.
    Parse,
    /// The encoded binary would exceed the fixed 1422-byte storage medium.
    SizeCeiling,
}

} // verus!
