//! The bytes that the grammar gives a meaning to.

use vstd::prelude::*;

verus! {

/// `i`, which opens an integer.
pub const INT_OPEN: u8 = 105;

/// `l`, which opens a list.
pub const LIST_OPEN: u8 = 108;

/// `d`, which opens a dictionary.
pub const DICT_OPEN: u8 = 100;

/// `e`, which closes an integer, a list or a dictionary.
pub const CLOSE: u8 = 101;

/// `:`, which stands between the length of a byte string and its bytes.
pub const COLON: u8 = 58;

/// `-`, the sign of a negative integer.
pub const MINUS: u8 = 45;

/// The digit `0`.
pub const ZERO: u8 = 48;

/// The digit `9`.
pub const NINE: u8 = 57;

} // verus!
