use vstd::prelude::*;

verus! {

/// Error value for a line whose comma- or slash-separated fields do not
/// come out to the expected number of tokens.
#[derive(Debug, Clone, Copy, PartialEq, Eq, Structural)]
pub struct IncorrectNumberOfTokensError;

/// The ways parsing a date string or a record line can fail.
#[derive(Debug, Clone, Copy, PartialEq, Eq, Structural)]
pub enum ParseError {
    /// A numeric field was not a non-negative integer that fits in `u32`.
    ParseIntError,
    /// The text did not split into the expected number of fields.
    IncorrectNumberOfTokensError,
}

} // verus!
