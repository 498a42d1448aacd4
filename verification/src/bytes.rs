use vstd::prelude::*;

verus! {

/// The byte `d`, which opens a dictionary.
pub const DICT_OPEN: u8 = 100;

/// The byte `l`, which opens a list.
pub const LIST_OPEN: u8 = 108;

/// The byte `i`, which opens an integer.
pub const INT_OPEN: u8 = 105;

/// The byte `e`, which closes a container or an integer.
pub const CLOSE: u8 = 101;

/// The byte `:`, which stands between the length of a string and its
/// bytes.
pub const COLON: u8 = 58;

/// The byte `-`, the sign of a negative number.
pub const MINUS: u8 = 45;

/// The byte `0`, the least digit.
pub const DIGIT_ZERO: u8 = 48;

/// The byte `9`, the greatest digit.
pub const DIGIT_NINE: u8 = 57;

} // verus!
