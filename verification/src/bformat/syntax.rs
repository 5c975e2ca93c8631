//! The bytes that give a bencoded text its structure.

use vstd::prelude::*;

verus! {

/// `i`, which begins an integer.
pub const INTEGER_START: u8 = 105;

/// `l`, which begins a list.
pub const LIST_START: u8 = 108;

/// `d`, which begins a dictionary.
pub const DICT_START: u8 = 100;

/// `e`, which ends an integer, a list and a dictionary.
pub const END: u8 = 101;

/// `:`, which stands between the length of a byte string and its bytes.
pub const SEPARATOR: u8 = 58;

/// `-`, which stands in front of a negative number.
pub const MINUS: u8 = 45;

} // verus!
