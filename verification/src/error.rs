use vstd::prelude::*;

verus! {

/// Why a buffer was refused, or why an integer could not be read.
#[derive(Debug, Clone, Copy, PartialEq, Eq, Structural)]
pub enum BdecodeError {
    /// A digit was required and another byte was found.
    ExpectedDigit,
    /// The length of a string was not followed by a colon.
    ExpectedColon,
    /// The buffer ended inside a value.
    UnexpectedEof,
    /// A dictionary was closed directly after a key.
    ExpectedValue,
    /// Containers were nested more deeply than the decoder allows.
    DepthExceeded,
    /// The buffer, or a field of a token, is larger than a token can record.
    LimitExceeded,
    /// An integer does not fit in 64 signed bits.
    Overflow,
    /// An integer starts with a zero that is not its only digit.
    LeadingZero,
    /// The integer is written as `-0`.
    NegativeZero,
}

} // verus!
