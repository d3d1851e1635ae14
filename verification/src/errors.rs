use vstd::prelude::*;

verus! {

/// Why an input on the decode path was rejected.
///
/// `UnmappableGroup` is the defensive internal-consistency fault of the error
/// taxonomy: a 6-bit group or a symbol that fails to map even though the
/// validation gate passed. The pipeline proves the alphabet mapping total over
/// validated input, so no function of this crate constructs it; it remains
/// part of the error surface so that callers can handle it explicitly.
#[derive(Clone, Copy, Debug, PartialEq, Eq, Structural)]
pub enum DecodeError {
    /// The text's length, newlines stripped, is not a multiple of 4.
    LengthError { length: usize },
    /// A byte outside the alphabet (and neither newline nor `=`) was found.
    InvalidCharacter { found: u8 },
    /// A 6-bit group or symbol failed to map; unreachable after validation.
    UnmappableGroup,
}

} // verus!
