use vstd::prelude::*;

verus! {

/// Where the length of the key stands in a row.
pub const KEY_SIZE_OFFSET: usize = 0;

/// The number of bytes that hold the length of the key.
pub const KEY_SIZE_SIZE: usize = 2;

/// Where the length of the value stands in a row.
pub const VALUE_SIZE_OFFSET: usize = KEY_SIZE_OFFSET + KEY_SIZE_SIZE;

/// The number of bytes that hold the length of the value.
pub const VALUE_SIZE_SIZE: usize = 2;

/// The number of bytes of a row that stand before its key.
pub const ROW_HEADER_SIZE: usize = KEY_SIZE_SIZE + VALUE_SIZE_SIZE;

} // verus!
