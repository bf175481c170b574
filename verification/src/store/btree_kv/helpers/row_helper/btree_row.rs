//! Reading and writing the parts of a row, given the bytes of the row.
//!
//! The lengths of a row are written first, on the first four bytes. The
//! key and the value are then written into a buffer of the size that the
//! lengths give.

use crate::store::btree_kv::constants::page_constants::{
    KEY_SIZE_OFFSET, ROW_HEADER_SIZE, VALUE_SIZE_OFFSET,
};
use crate::store::btree_kv::helpers::byte_ops::{
    copy_into, le16_bytes, lemma_overwritten, overwritten, read_u16, write_u16,
};
use crate::store::btree_kv::page_layout::{
    row_key, row_key_size, row_size, row_value, row_value_size,
};
use vstd::prelude::*;

verus! {

/// Whether `data` is as long as a row of the lengths that its first bytes
/// give.
pub open spec fn is_row(data: Seq<u8>) -> bool {
    &&& data.len() >= ROW_HEADER_SIZE
    &&& data.len() == row_size(data, 0)
}

/// The length of the key of the row.
pub fn get_key_size(data: &[u8]) -> (size: usize)
    requires
        data@.len() >= ROW_HEADER_SIZE,
    ensures
        size == row_key_size(data@, 0),
{
    read_u16(data, KEY_SIZE_OFFSET) as usize
}

/// Records `key_size` as the length of the key of the row.
pub fn set_key_size(data: &mut [u8], key_size: u16)
    requires
        old(data)@.len() >= ROW_HEADER_SIZE,
    ensures
        final(data)@ == overwritten(old(data)@, 0, le16_bytes(key_size)),
        row_key_size(final(data)@, 0) == key_size,
        row_value_size(final(data)@, 0) == row_value_size(old(data)@, 0),
{
    write_u16(data, KEY_SIZE_OFFSET, key_size);
    proof {
        lemma_overwritten(old(data)@, 0, le16_bytes(key_size));
        assert(data@[0] == le16_bytes(key_size)[0]);
        assert(data@[1] == le16_bytes(key_size)[1]);
    }
}

/// The length of the value of the row.
pub fn get_value_size(data: &[u8]) -> (size: usize)
    requires
        data@.len() >= ROW_HEADER_SIZE,
    ensures
        size == row_value_size(data@, 0),
{
    read_u16(data, VALUE_SIZE_OFFSET) as usize
}

/// Records `value_size` as the length of the value of the row.
pub fn set_value_size(data: &mut [u8], value_size: u16)
    requires
        old(data)@.len() >= ROW_HEADER_SIZE,
    ensures
        final(data)@ == overwritten(old(data)@, 2, le16_bytes(value_size)),
        row_value_size(final(data)@, 0) == value_size,
        row_key_size(final(data)@, 0) == row_key_size(old(data)@, 0),
{
    write_u16(data, VALUE_SIZE_OFFSET, value_size);
    proof {
        lemma_overwritten(old(data)@, 2, le16_bytes(value_size));
        assert(data@[2] == le16_bytes(value_size)[0]);
        assert(data@[3] == le16_bytes(value_size)[1]);
    }
}

/// The key of the row.
pub fn get_key(data: &[u8]) -> (key: &[u8])
    requires
        is_row(data@),
    ensures
        key@ == row_key(data@, 0),
{
    let key_size = get_key_size(data);
    &data[ROW_HEADER_SIZE..ROW_HEADER_SIZE + key_size]
}

/// Writes `key` as the key of the row. The key is as long as the row says
/// that its key is.
pub fn set_key(data: &mut [u8], key: &[u8])
    requires
        is_row(old(data)@),
        key@.len() == row_key_size(old(data)@, 0),
    ensures
        final(data)@ == overwritten(old(data)@, ROW_HEADER_SIZE as int, key@),
        is_row(final(data)@),
        row_key(final(data)@, 0) == key@,
        row_value(final(data)@, 0) == row_value(old(data)@, 0),
{
    copy_into(data, ROW_HEADER_SIZE, key);
    proof {
        lemma_overwritten(old(data)@, ROW_HEADER_SIZE as int, key@);
        assert(row_key(data@, 0) =~= key@);
        assert(row_value(data@, 0) =~= row_value(old(data)@, 0));
    }
}

/// The value of the row.
pub fn get_value(data: &[u8]) -> (value: &[u8])
    requires
        is_row(data@),
    ensures
        value@ == row_value(data@, 0),
{
    let key_size = get_key_size(data);
    let value_size = get_value_size(data);
    &data[ROW_HEADER_SIZE + key_size..ROW_HEADER_SIZE + key_size + value_size]
}

/// Writes `value` as the value of the row. The value is as long as the row
/// says that its value is.
pub fn set_value(data: &mut [u8], value: &[u8])
    requires
        is_row(old(data)@),
        value@.len() == row_value_size(old(data)@, 0),
    ensures
        final(data)@ == overwritten(
            old(data)@,
            ROW_HEADER_SIZE + row_key_size(old(data)@, 0),
            value@,
        ),
        is_row(final(data)@),
        row_value(final(data)@, 0) == value@,
        row_key(final(data)@, 0) == row_key(old(data)@, 0),
{
    let key_size = get_key_size(data);
    copy_into(data, ROW_HEADER_SIZE + key_size, value);
    proof {
        lemma_overwritten(old(data)@, ROW_HEADER_SIZE + key_size, value@);
        assert(row_value(data@, 0) =~= value@);
        assert(row_key(data@, 0) =~= row_key(old(data)@, 0));
    }
}

/// The number of bytes of the row.
pub fn get_slot_size(data: &[u8]) -> (size: usize)
    requires
        data@.len() >= ROW_HEADER_SIZE,
    ensures
        size == row_size(data@, 0),
{
    get_key_size(data) + get_value_size(data) + ROW_HEADER_SIZE
}

} // verus!
