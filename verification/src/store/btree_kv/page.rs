//! Views of a page and of its parts.
//!
//! A page is a sorted collection of rows in one buffer of `PAGE_SIZE`
//! bytes. The views in this file read and change the buffer in place.

use crate::store::btree_kv::commons::PAGE_SIZE;
use crate::store::btree_kv::constants::page_constants::{KEY_SIZE_SIZE, ROW_HEADER_SIZE};
use crate::store::btree_kv::error::RustyKVError;
use crate::store::btree_kv::helpers::byte_ops::{
    copy_into, fill_zero, le16, le16_bytes, lemma_le16_written, lemma_len_fits, lemma_overwritten,
    overwritten, read_u16, write_u16, zeros,
};
use crate::store::btree_kv::helpers::byte_ordering::{cmp_le_bytes, le_value};
use crate::store::btree_kv::page_layout::{
    body_can_be_opened, body_with_row, body_with_value, body_without_row, entries_of, keys_rise,
    layout_ok, lemma_packed_body_can_be_opened, lemma_row_inserted, lemma_row_removed,
    lemma_row_updated, lemma_row_written, row_area_end, row_key, row_key_size, row_size,
    row_value, row_value_size, row_within, rows_packed, slot_count_of, slot_map_with,
    slot_map_without, slot_offset, Entry, PAGE_BODY_SIZE, PAGE_HEADER_SIZE, SLOT_COUNT_OFFSET,
    SLOT_MAP_ELEMENT_SIZE,
};
use crate::store::btree_kv::page_model::{
    holds_key, index_of_key, lemma_insert_keeps_rising, lemma_key_found, lemma_key_missing,
    lemma_remove_keeps_rising, lemma_saved_image_stays_packed, lemma_update_keeps_rising,
    row_cost, PageImage, PageModel,
};
use std::cmp::Ordering;
use vstd::prelude::*;

verus! {

/// View of the header of a page.
pub struct BTreePageHeader<'a> {
    /// The bytes of the header.
    pub data: &'a mut [u8],
}

impl<'a> BTreePageHeader<'a> {
    /// The bytes of the header.
    pub open spec fn bytes(&self) -> Seq<u8> {
        self.data@
    }

    /// The number of rows that the header records.
    pub open spec fn slot_count(&self) -> int {
        le16(self.data@, 0)
    }

    /// Whether the view lies over as many bytes as a header has.
    pub open spec fn well_formed(&self) -> bool {
        self.data@.len() == PAGE_HEADER_SIZE
    }

    /// A view of the header bytes `data`. What the view leaves in them is
    /// what `data` holds once the view is gone.
    pub fn from(data: &'a mut [u8]) -> (header: Self)
        requires
            old(data)@.len() == PAGE_HEADER_SIZE,
        ensures
            header.well_formed(),
            header.bytes() == old(data)@,
            final(data)@ == final(header.data)@,
    {
        Self { data }
    }

    /// The number of rows in the page.
    pub fn get_slot_count(&self) -> (count: u16)
        requires
            self.well_formed(),
        ensures
            count == self.slot_count(),
    {
        read_u16(self.data, SLOT_COUNT_OFFSET)
    }

    /// Sets the number of rows in the page.
    pub fn set_slot_count(&mut self, count: u16)
        requires
            old(self).well_formed(),
        ensures
            final(self).well_formed(),
            final(self).bytes() == le16_bytes(count),
            final(self).slot_count() == count,
            final(final(self).data)@ == final(old(self).data)@,
    {
        write_u16(self.data, SLOT_COUNT_OFFSET, count);
        proof {
            lemma_overwritten(old(self).bytes(), 0, le16_bytes(count));
            lemma_le16_written(old(self).bytes(), 0, count);
            assert(self.bytes() =~= le16_bytes(count));
        }
    }

    /// Raises the number of rows by `increase_count`.
    pub fn increase_slot_count(&mut self, increase_count: u16)
        requires
            old(self).well_formed(),
            old(self).slot_count() + increase_count <= u16::MAX,
        ensures
            final(self).well_formed(),
            final(self).slot_count() == old(self).slot_count() + increase_count,
            final(self).bytes() == le16_bytes((old(self).slot_count() + increase_count) as u16),
            final(final(self).data)@ == final(old(self).data)@,
    {
        let current_count = self.get_slot_count();
        self.set_slot_count(current_count + increase_count);
    }

    /// Lowers the number of rows by `decrease_count`.
    pub fn decrease_slot_count(&mut self, decrease_count: u16)
        requires
            old(self).well_formed(),
            decrease_count <= old(self).slot_count(),
        ensures
            final(self).well_formed(),
            final(self).slot_count() == old(self).slot_count() - decrease_count,
            final(self).bytes() == le16_bytes((old(self).slot_count() - decrease_count) as u16),
            final(final(self).data)@ == final(old(self).data)@,
    {
        let current_count = self.get_slot_count();
        self.set_slot_count(current_count - decrease_count);
    }
}

/// View of one row: the place in the body where the row starts.
pub struct BTreeRow {
    pub offset: usize,
}

impl BTreeRow {
    /// Where the length of the key stands in a row.
    pub const KEY_SIZE_OFFSET: usize = 0;

    /// Where the length of the value stands in a row.
    pub const VALUE_SIZE_OFFSET: usize = 2;

    /// A view of the row that starts at `offset`.
    pub fn from(offset: usize) -> (row: Self)
        ensures
            row.offset == offset,
    {
        Self { offset }
    }

    /// The length of the key of the row.
    pub fn get_key_size(&self, data: &[u8]) -> (size: usize)
        requires
            self.offset + KEY_SIZE_SIZE <= data@.len(),
        ensures
            size == row_key_size(data@, self.offset as int),
    {
        read_u16(data, self.offset) as usize
    }

    /// Records `key_size` as the length of the key of the row.
    pub fn set_key_size(&mut self, key_size: u16, data: &mut [u8])
        requires
            old(self).offset + KEY_SIZE_SIZE <= old(data)@.len(),
        ensures
            *final(self) == *old(self),
            final(data)@ == overwritten(old(data)@, old(self).offset as int, le16_bytes(key_size)),
    {
        write_u16(data, self.offset, key_size);
    }

    /// The length of the value of the row.
    pub fn get_value_size(&self, data: &[u8]) -> (size: usize)
        requires
            self.offset + ROW_HEADER_SIZE <= data@.len(),
        ensures
            size == row_value_size(data@, self.offset as int),
    {
        proof {
            lemma_len_fits(data);
        }
        read_u16(data, self.offset + Self::VALUE_SIZE_OFFSET) as usize
    }

    /// Records `value_size` as the length of the value of the row.
    pub fn set_value_size(&mut self, value_size: u16, data: &mut [u8])
        requires
            old(self).offset + ROW_HEADER_SIZE <= old(data)@.len(),
        ensures
            *final(self) == *old(self),
            final(data)@ == overwritten(
                old(data)@,
                old(self).offset + 2,
                le16_bytes(value_size),
            ),
    {
        proof {
            lemma_len_fits(data);
        }
        write_u16(data, self.offset + Self::VALUE_SIZE_OFFSET, value_size);
    }

    /// The key of the row.
    pub fn get_key<'b>(&self, data: &'b [u8]) -> (key: &'b [u8])
        requires
            self.offset + ROW_HEADER_SIZE <= data@.len(),
            self.offset + ROW_HEADER_SIZE + row_key_size(data@, self.offset as int) <= data@.len(),
        ensures
            key@ == row_key(data@, self.offset as int),
    {
        proof {
            lemma_len_fits(data);
        }
        let key_size = self.get_key_size(data);
        &data[self.offset + ROW_HEADER_SIZE..self.offset + ROW_HEADER_SIZE + key_size]
    }

    /// Writes `key` as the key of the row, and its length with it.
    pub fn set_key(&mut self, key: &[u8], data: &mut [u8])
        requires
            key@.len() <= u16::MAX,
            old(self).offset + ROW_HEADER_SIZE + key@.len() <= old(data)@.len(),
        ensures
            *final(self) == *old(self),
            final(data)@ == overwritten(
                overwritten(old(data)@, old(self).offset as int, le16_bytes(key@.len() as u16)),
                old(self).offset + 4,
                key@,
            ),
    {
        proof {
            lemma_len_fits(data);
        }
        let key_size = key.len();
        self.set_key_size(key_size as u16, data);
        proof {
            lemma_overwritten(old(data)@, self.offset as int, le16_bytes(key_size as u16));
        }
        copy_into(data, self.offset + ROW_HEADER_SIZE, key);
    }

    /// The value of the row.
    pub fn get_value<'b>(&self, data: &'b [u8]) -> (value: &'b [u8])
        requires
            self.offset + ROW_HEADER_SIZE <= data@.len(),
            self.offset + row_size(data@, self.offset as int) <= data@.len(),
        ensures
            value@ == row_value(data@, self.offset as int),
    {
        proof {
            lemma_len_fits(data);
        }
        let key_size = self.get_key_size(data);
        let value_size = self.get_value_size(data);
        &data[self.offset + ROW_HEADER_SIZE + key_size..self.offset + ROW_HEADER_SIZE + key_size
            + value_size]
    }

    /// Writes `value` as the value of the row, behind the key that the row
    /// has, and its length with it.
    pub fn set_value(&mut self, value: &[u8], data: &mut [u8])
        requires
            value@.len() <= u16::MAX,
            old(self).offset + ROW_HEADER_SIZE <= old(data)@.len(),
            old(self).offset + ROW_HEADER_SIZE + row_key_size(old(data)@, old(self).offset as int)
                + value@.len() <= old(data)@.len(),
        ensures
            *final(self) == *old(self),
            final(data)@ == overwritten(
                overwritten(old(data)@, old(self).offset + 2, le16_bytes(value@.len() as u16)),
                old(self).offset + 4 + row_key_size(old(data)@, old(self).offset as int),
                value@,
            ),
    {
        proof {
            lemma_len_fits(data);
        }
        let key_size = self.get_key_size(data);
        let value_size = value.len();
        self.set_value_size(value_size as u16, data);
        proof {
            lemma_overwritten(old(data)@, self.offset + 2, le16_bytes(value_size as u16));
        }
        copy_into(data, self.offset + ROW_HEADER_SIZE + key_size, value);
    }

    /// The number of bytes of the row.
    pub fn get_size(&self, data: &[u8]) -> (size: usize)
        requires
            self.offset + ROW_HEADER_SIZE <= data@.len(),
        ensures
            size == row_size(data@, self.offset as int),
    {
        proof {
            lemma_len_fits(data);
        }
        self.get_key_size(data) + self.get_value_size(data) + ROW_HEADER_SIZE
    }

    /// Sets every byte of the row to zero.
    pub fn clear_row(&mut self, data: &mut [u8])
        requires
            old(self).offset + ROW_HEADER_SIZE <= old(data)@.len(),
            old(self).offset + row_size(old(data)@, old(self).offset as int) <= old(data)@.len(),
        ensures
            *final(self) == *old(self),
            final(data)@ == overwritten(
                old(data)@,
                old(self).offset as int,
                zeros(row_size(old(data)@, old(self).offset as int)),
            ),
    {
        proof {
            lemma_len_fits(data);
        }
        let slot_size = self.get_size(data);
        fill_zero(data, self.offset, self.offset + slot_size);
    }
}

/// View of the free space of the body: the bytes from `start` up to, but
/// without, `end`.
pub struct BTreePageFreeSpace {
    pub start: usize,
    pub end: usize,
}

impl BTreePageFreeSpace {
    /// A view of the free space from `start` to `end`.
    pub fn from(start: usize, end: usize) -> (free_space: Self)
        ensures
            free_space.start == start,
            free_space.end == end,
    {
        BTreePageFreeSpace { start, end }
    }

    /// Takes `size` bytes for a row from the low end of the free space and
    /// returns where they start and end.
    pub fn allocate_row_space(&mut self, size: usize) -> (space: (usize, usize))
        requires
            old(self).start + size <= old(self).end,
        ensures
            space == (old(self).start, (old(self).start + size) as usize),
            final(self).start == old(self).start + size,
            final(self).end == old(self).end,
    {
        let allocated_space = (self.start, self.start + size);
        self.start += size;
        allocated_space
    }

    /// Takes the bytes of one element of the slot map from the high end of
    /// the free space and returns where they start and end.
    pub fn allocate_slot_map_space(&mut self) -> (space: (usize, usize))
        requires
            old(self).start + SLOT_MAP_ELEMENT_SIZE <= old(self).end,
        ensures
            space == ((old(self).end - SLOT_MAP_ELEMENT_SIZE) as usize, old(self).end),
            final(self).start == old(self).start,
            final(self).end == old(self).end - SLOT_MAP_ELEMENT_SIZE,
    {
        let allocated_space = (self.end - SLOT_MAP_ELEMENT_SIZE, self.end);
        self.end -= SLOT_MAP_ELEMENT_SIZE;
        allocated_space
    }

    /// Gives the bytes of one element of the slot map back to the high end
    /// of the free space.
    pub fn deallocate_slot_map_space(&mut self)
        requires
            old(self).end + SLOT_MAP_ELEMENT_SIZE <= usize::MAX,
        ensures
            final(self).start == old(self).start,
            final(self).end == old(self).end + SLOT_MAP_ELEMENT_SIZE,
    {
        self.end += SLOT_MAP_ELEMENT_SIZE;
    }

    /// The number of free bytes.
    pub fn get_size(&self) -> (size: usize)
        requires
            self.start <= self.end,
        ensures
            size == self.end - self.start,
    {
        self.end - self.start
    }
}

/// View of the slot map of the body: the bytes from `start` to the end of
/// the body.
pub struct BTreePageSlotMap {
    pub start: usize,
}

impl BTreePageSlotMap {
    /// A view of the slot map that starts at `start`.
    pub fn from(start: usize) -> (slot_map: Self)
        ensures
            slot_map.start == start,
    {
        BTreePageSlotMap { start }
    }

    /// Puts `element` into the slot map as its element `index`. The map
    /// grows by one element at its low end, which it takes from the free
    /// space: the elements before `index` move down by one element, and
    /// those from `index` on stay where they are, so that each is one
    /// further from the start of the map than it was.
    pub fn insert_slot_element(
        &mut self,
        free_space: &mut BTreePageFreeSpace,
        data: &mut [u8],
        element: u16,
        index: usize,
    )
        requires
            old(free_space).start + SLOT_MAP_ELEMENT_SIZE <= old(free_space).end,
            old(free_space).end + SLOT_MAP_ELEMENT_SIZE * index <= old(data)@.len(),
        ensures
            final(free_space).start == old(free_space).start,
            final(free_space).end == old(free_space).end - SLOT_MAP_ELEMENT_SIZE,
            final(self).start == old(free_space).end - SLOT_MAP_ELEMENT_SIZE,
            final(data)@ == slot_map_with(
                old(data)@,
                final(self).start as int,
                index as int,
                element,
            ),
    {
        proof {
            lemma_len_fits(data);
        }
        let (slot_map_start, _) = free_space.allocate_slot_map_space();
        self.start = slot_map_start;
        let shift_end = self.start + index * SLOT_MAP_ELEMENT_SIZE;
        let mut i = self.start;
        while i < shift_end
            invariant
                self.start <= i <= shift_end,
                shift_end == self.start + 2 * index,
                shift_end + 2 <= data@.len(),
                data@.len() == old(data)@.len(),
                forall|at: int|
                    0 <= at < data@.len() ==> #[trigger] data@[at] == if self.start <= at < i {
                        old(data)@[at + 2]
                    } else {
                        old(data)@[at]
                    },
            decreases shift_end - i,
        {
            data[i] = data[i + SLOT_MAP_ELEMENT_SIZE];
            i += 1;
        }
        let ghost shifted = data@;
        write_u16(data, shift_end, element);
        proof {
            lemma_overwritten(shifted, shift_end as int, le16_bytes(element));
            assert(data@ =~= slot_map_with(old(data)@, self.start as int, index as int, element));
        }
    }

    /// The bytes of the element `index` of the slot map.
    pub fn get_slot_map_element<'b>(&self, index: usize, data: &'b [u8]) -> (element: &'b [u8])
        requires
            self.start + SLOT_MAP_ELEMENT_SIZE * index + SLOT_MAP_ELEMENT_SIZE <= data@.len(),
        ensures
            element@ == data@.subrange(self.start + 2 * index, self.start + 2 * index + 2),
    {
        proof {
            lemma_len_fits(data);
        }
        let slot_map_offset = self.start + (SLOT_MAP_ELEMENT_SIZE * index);
        &data[slot_map_offset..slot_map_offset + SLOT_MAP_ELEMENT_SIZE]
    }

    /// Takes the element `index` out of the slot map. The map shrinks by
    /// one element at its low end, which goes back to the free space: the
    /// elements before `index` move up by one element, over the one that
    /// leaves, and those behind `index` stay where they are.
    pub fn delete_slot_map_element(
        &mut self,
        index: usize,
        data: &mut [u8],
        free_space: &mut BTreePageFreeSpace,
    )
        requires
            old(self).start + SLOT_MAP_ELEMENT_SIZE * index + SLOT_MAP_ELEMENT_SIZE <= old(
                data,
            )@.len(),
            old(free_space).end + SLOT_MAP_ELEMENT_SIZE <= usize::MAX,
        ensures
            final(self).start == old(self).start + SLOT_MAP_ELEMENT_SIZE,
            final(free_space).start == old(free_space).start,
            final(free_space).end == old(free_space).end + SLOT_MAP_ELEMENT_SIZE,
            final(data)@ == slot_map_without(old(data)@, old(self).start as int, index as int),
    {
        proof {
            lemma_len_fits(data);
        }
        let new_start = self.start + SLOT_MAP_ELEMENT_SIZE;
        let mut i = self.start + index * SLOT_MAP_ELEMENT_SIZE;
        while i > self.start
            invariant
                self.start <= i <= self.start + 2 * index,
                self.start + 2 * index + 2 <= data@.len(),
                *self == *old(self),
                data@.len() == old(data)@.len(),
                forall|at: int|
                    0 <= at < data@.len() ==> #[trigger] data@[at] == if i + 2 <= at < self.start
                        + 2 + 2 * index {
                        old(data)@[at - 2]
                    } else {
                        old(data)@[at]
                    },
            decreases i,
        {
            i -= 1;
            data[i + SLOT_MAP_ELEMENT_SIZE] = data[i];
        }
        proof {
            assert(data@ =~= slot_map_without(old(data)@, self.start as int, index as int));
        }
        self.start = new_start;
        free_space.deallocate_slot_map_space();
    }
}

/// View of the body of a page.
pub struct BTreeBodyData<'a> {
    /// The bytes of the body.
    pub data: &'a mut [u8],
    /// The free space between the rows and the slot map.
    pub free_space: BTreePageFreeSpace,
    /// The slot map.
    pub slot_map: BTreePageSlotMap,
}

impl<'a> BTreeBodyData<'a> {
    /// The bytes of the body.
    pub open spec fn bytes(&self) -> Seq<u8> {
        self.data@
    }

    /// The number of rows, which is the number of elements of the slot map.
    pub open spec fn slot_count(&self) -> int {
        slot_count_of(self.slot_map.start as int)
    }

    /// The rows in the order of the slot map.
    pub open spec fn entries(&self) -> Seq<Entry> {
        entries_of(self.data@, self.slot_map.start as int)
    }

    /// The number of free bytes.
    pub open spec fn free_size(&self) -> int {
        self.free_space.end - self.free_space.start
    }

    /// Whether the body is well laid out and the views of its free space and
    /// of its slot map fit to one another.
    pub open spec fn well_formed(&self) -> bool {
        &&& layout_ok(self.data@, self.free_space.start as int, self.slot_map.start as int)
        &&& self.free_space.end == self.slot_map.start
    }

    /// Where the row of the element `index` of the slot map starts.
    pub open spec fn row_offset_at(&self, index: usize) -> int {
        slot_offset(self.data@, self.slot_map.start as int, index as int)
    }

    /// The key of the row of the element `index` of the slot map.
    pub open spec fn key_at(&self, index: usize) -> Seq<u8> {
        self.entries()[index as int].key
    }

    /// The bytes of the row of the element `index` of the slot map.
    pub open spec fn row_bytes(&self, index: int) -> Seq<u8> {
        let offset = slot_offset(self.data@, self.slot_map.start as int, index);
        self.data@.subrange(offset, offset + row_size(self.data@, offset))
    }

    /// A view of the body bytes `data` of a page whose header is `header`.
    /// The slot map takes the end of the body, one element for each row that
    /// the header counts. The free space starts where that many rows end
    /// that stand one after the other from the start of the body.
    pub fn from(data: &'a mut [u8], header: &BTreePageHeader) -> (body: Self)
        requires
            header.well_formed(),
            body_can_be_opened(old(data)@, header.slot_count() as nat),
        ensures
            body.bytes() == old(data)@,
            body.free_space.start == row_area_end(old(data)@, header.slot_count() as nat),
            body.free_space.end == PAGE_BODY_SIZE - 2 * header.slot_count(),
            body.slot_map.start == body.free_space.end,
            final(data)@ == final(body.data)@,
    {
        let slot_count = header.get_slot_count() as usize;
        let slot_map_start = PAGE_BODY_SIZE - (slot_count * SLOT_MAP_ELEMENT_SIZE);
        let mut count: usize = 0;
        let mut index: usize = 0;
        while count < slot_count
            invariant
                count <= slot_count,
                slot_count == header.slot_count(),
                body_can_be_opened(data@, slot_count as nat),
                index == row_area_end(data@, count as nat),
            decreases slot_count - count,
        {
            assert(0 <= row_area_end(data@, count as nat) <= PAGE_BODY_SIZE - 4);
            let btree_row = BTreeRow::from(index);
            index += btree_row.get_size(data);
            count += 1;
        }
        let free_space = BTreePageFreeSpace::from(index, slot_map_start);
        let slot_map = BTreePageSlotMap::from(slot_map_start);
        BTreeBodyData { data, free_space, slot_map }
    }

    /// Where the row of the element `slot_map_index` of the slot map starts.
    fn row_offset(&self, slot_map_index: usize) -> (offset: usize)
        requires
            self.well_formed(),
            slot_map_index < self.slot_count(),
        ensures
            offset == self.row_offset_at(slot_map_index),
            row_within(self.bytes(), offset as int, self.free_space.start as int),
            offset + ROW_HEADER_SIZE <= self.bytes().len(),
    {
        let element = self.slot_map.get_slot_map_element(slot_map_index, self.data);
        proof {
            assert(row_within(
                self.data@,
                slot_offset(self.data@, self.slot_map.start as int, slot_map_index as int),
                self.free_space.start as int,
            ));
            assert(element@[0] == self.data@[self.slot_map.start + 2 * slot_map_index]);
            assert(element@[1] == self.data@[self.slot_map.start + 2 * slot_map_index + 1]);
        }
        read_u16(element, 0) as usize
    }

    /// The bytes of the row whose key is equal to `key` in the order of keys.
    pub fn get(&self, key: &[u8], header: &BTreePageHeader) -> (row: Result<&[u8], RustyKVError>)
        requires
            self.well_formed(),
            keys_rise(self.entries()),
            header.well_formed(),
            header.slot_count() == self.slot_count(),
        ensures
            match row {
                Ok(row) => {
                    &&& holds_key(self.entries(), key@)
                    &&& row@ == self.row_bytes(index_of_key(self.entries(), key@))
                    &&& row@.len() >= ROW_HEADER_SIZE
                    &&& row@.len() == row_size(row@, 0)
                    &&& row_key(row@, 0) == self.entries()[index_of_key(self.entries(), key@)].key
                    &&& row_value(row@, 0) == self.entries()[index_of_key(
                        self.entries(),
                        key@,
                    )].value
                },
                Err(error) => error == RustyKVError::ItemNotFound && !holds_key(
                    self.entries(),
                    key@,
                ),
            },
    {
        match self.search(key, 0, header.get_slot_count() as usize) {
            Ok(index) => {
                let row_offset = self.row_offset(index);
                let btree_row = BTreeRow::from(row_offset);
                let slot_size = btree_row.get_size(self.data);
                let row = &self.data[row_offset..row_offset + slot_size];
                proof {
                    lemma_key_found(self.entries(), key@, index as int);
                    let body = self.data@;
                    assert(row@[0] == body[row_offset as int]);
                    assert(row@[1] == body[row_offset + 1]);
                    assert(row@[2] == body[row_offset + 2]);
                    assert(row@[3] == body[row_offset + 3]);
                    assert(row_key(row@, 0) =~= row_key(body, row_offset as int));
                    assert(row_value(row@, 0) =~= row_value(body, row_offset as int));
                }
                Ok(row)
            },
            Err(index) => {
                proof {
                    lemma_key_missing(self.entries(), key@, index as int);
                }
                Err(RustyKVError::ItemNotFound)
            },
        }
    }

    /// Writes `value` over the value of the row of the element
    /// `slot_map_index` of the slot map. The value takes the place of the
    /// old one, so it must be as long as the old one; a value of another
    /// length is refused and the body stays as it is.
    pub fn update(&mut self, value: &[u8], slot_map_index: usize) -> (result: Result<
        (),
        RustyKVError,
    >)
        requires
            old(self).well_formed(),
            slot_map_index < old(self).slot_count(),
        ensures
            final(final(self).data)@ == final(old(self).data)@,
            final(self).free_space == old(self).free_space,
            final(self).slot_map == old(self).slot_map,
            final(self).well_formed(),
            value@.len() == old(self).entries()[slot_map_index as int].value.len() ==> {
                &&& result is Ok
                &&& final(self).bytes() == body_with_value(
                    old(self).bytes(),
                    old(self).slot_map.start as int,
                    slot_map_index as int,
                    value@,
                )
                &&& final(self).entries() == old(self).entries().update(
                    slot_map_index as int,
                    Entry { key: old(self).entries()[slot_map_index as int].key, value: value@ },
                )
            },
            value@.len() != old(self).entries()[slot_map_index as int].value.len() ==> {
                &&& result == Err::<(), RustyKVError>(RustyKVError::InsufficientSpace)
                &&& final(self).bytes() == old(self).bytes()
            },
    {
        let row_offset = self.row_offset(slot_map_index);
        let mut btree_row = BTreeRow::from(row_offset);
        let value_size = btree_row.get_value_size(self.data);
        if value_size != value.len() {
            return Err(RustyKVError::InsufficientSpace);
        }
        proof {
            lemma_row_updated(
                self.data@,
                self.free_space.start as int,
                self.slot_map.start as int,
                slot_map_index as int,
                value@,
            );
        }
        btree_row.set_value(value, self.data);
        Ok(())
    }

    /// Writes a row of `key` and `value` at the start of the free space and
    /// puts it into the slot map as element `slot_map_index`. A row that the
    /// free space cannot hold together with its element of the slot map is
    /// refused, and the body stays as it is.
    #[verifier::rlimit(30)]
    pub fn insert(&mut self, key: &[u8], value: &[u8], slot_map_index: usize) -> (result: Result<
        (),
        RustyKVError,
    >)
        requires
            old(self).well_formed(),
            slot_map_index <= old(self).slot_count(),
        ensures
            final(final(self).data)@ == final(old(self).data)@,
            final(self).well_formed(),
            row_cost(key@, value@) <= old(self).free_size() ==> {
                &&& result is Ok
                &&& final(self).bytes() == body_with_row(
                    old(self).bytes(),
                    old(self).free_space.start as int,
                    old(self).slot_map.start as int,
                    slot_map_index as int,
                    key@,
                    value@,
                )
                &&& final(self).free_space.start == old(self).free_space.start + 4 + key@.len()
                    + value@.len()
                &&& final(self).slot_map.start == old(self).slot_map.start - 2
                &&& final(self).entries() == old(self).entries().insert(
                    slot_map_index as int,
                    Entry { key: key@, value: value@ },
                )
                &&& final(self).slot_count() == old(self).slot_count() + 1
                &&& final(self).free_size() == old(self).free_size() - row_cost(key@, value@)
            },
            row_cost(key@, value@) > old(self).free_size() ==> {
                &&& result == Err::<(), RustyKVError>(RustyKVError::InsufficientSpace)
                &&& final(self).bytes() == old(self).bytes()
                &&& final(self).free_space == old(self).free_space
                &&& final(self).slot_map == old(self).slot_map
            },
    {
        let key_size = key.len();
        let value_size = value.len();
        let free_size = self.free_space.get_size();
        // Each row needs room for its bytes and for its element of the slot map.
        if key_size > free_size || value_size > free_size - key_size || ROW_HEADER_SIZE
            + SLOT_MAP_ELEMENT_SIZE > free_size - key_size - value_size {
            return Err(RustyKVError::InsufficientSpace);
        }
        let slot_size = ROW_HEADER_SIZE + key_size + value_size;
        let ghost before = self.data@;
        let (new_row_start, _) = self.free_space.allocate_row_space(slot_size);
        let mut btree_row = BTreeRow::from(new_row_start);
        proof {
            lemma_row_written(before, new_row_start as int, key@, value@);
        }
        btree_row.set_key(key, self.data);
        btree_row.set_value(value, self.data);
        self.slot_map.insert_slot_element(
            &mut self.free_space,
            self.data,
            new_row_start as u16,
            slot_map_index,
        );
        proof {
            lemma_row_inserted(
                before,
                new_row_start as int,
                old(self).slot_map.start as int,
                slot_map_index as int,
                key@,
                value@,
            );
        }
        Ok(())
    }

    /// Takes the row of the element `slot_map_index` of the slot map out of
    /// the page: sets its bytes to zero, takes its element out of the slot
    /// map and lowers the number of rows in the header by one.
    pub fn remove(&mut self, header: &mut BTreePageHeader, slot_map_index: usize) -> (result:
        Result<(), RustyKVError>)
        requires
            old(self).well_formed(),
            old(header).well_formed(),
            old(header).slot_count() == old(self).slot_count(),
            slot_map_index < old(self).slot_count(),
        ensures
            result is Ok,
            final(final(self).data)@ == final(old(self).data)@,
            final(final(header).data)@ == final(old(header).data)@,
            final(self).well_formed(),
            final(header).well_formed(),
            final(header).slot_count() == final(self).slot_count(),
            final(self).slot_count() == old(self).slot_count() - 1,
            final(self).bytes() == body_without_row(
                old(self).bytes(),
                old(self).slot_map.start as int,
                slot_map_index as int,
            ),
            final(self).slot_map.start == old(self).slot_map.start + 2,
            final(header).bytes() == le16_bytes((old(header).slot_count() - 1) as u16),
            final(self).entries() == old(self).entries().remove(slot_map_index as int),
            final(self).free_space.start == old(self).free_space.start,
            final(self).free_size() == old(self).free_size() + 2,
    {
        let ghost before = self.data@;
        let row_offset = self.row_offset(slot_map_index);
        let mut btree_row = BTreeRow::from(row_offset);
        btree_row.clear_row(self.data);
        self.slot_map.delete_slot_map_element(slot_map_index, self.data, &mut self.free_space);
        header.decrease_slot_count(1);
        proof {
            lemma_row_removed(
                before,
                self.free_space.start as int,
                old(self).slot_map.start as int,
                slot_map_index as int,
            );
        }
        Ok(())
    }

    /// Looks for `key` among the rows of the elements from `start` up to,
    /// but without, `end` of the slot map. Returns the index of the element
    /// whose row has a key equal to `key`, or else the index at which a row
    /// with this key keeps the keys rising.
    pub fn search(&self, key: &[u8], start: usize, end: usize) -> (found: Result<usize, usize>)
        requires
            self.well_formed(),
            keys_rise(self.entries()),
            start <= end <= self.slot_count(),
        ensures
            match found {
                Ok(index) => start <= index < end && le_value(self.key_at(index)) == le_value(
                    key@,
                ),
                Err(index) => {
                    &&& start <= index <= end
                    &&& forall|below: int|
                        start <= below < index ==> le_value(#[trigger] self.entries()[below].key)
                            < le_value(key@)
                    &&& forall|above: int|
                        index <= above < end ==> le_value(key@) < le_value(
                            #[trigger] self.entries()[above].key,
                        )
                },
            },
    {
        let mut low = start;
        let mut high = end;
        while low < high
            invariant
                self.well_formed(),
                keys_rise(self.entries()),
                start <= low <= high <= end <= self.slot_count(),
                forall|below: int|
                    start <= below < low ==> le_value(#[trigger] self.entries()[below].key)
                        < le_value(key@),
                forall|above: int|
                    high <= above < end ==> le_value(key@) < le_value(
                        #[trigger] self.entries()[above].key,
                    ),
            decreases high - low,
        {
            let pivot_index: usize = low + (high - low) / 2;
            let row_offset = self.row_offset(pivot_index);
            let btree_row = BTreeRow::from(row_offset);
            let key_pivot = btree_row.get_key(self.data);
            assert(key_pivot@ == self.key_at(pivot_index));
            match cmp_le_bytes(key, key_pivot) {
                Ordering::Equal => {
                    return Ok(pivot_index);
                },
                Ordering::Less => {
                    high = pivot_index;
                },
                Ordering::Greater => {
                    low = pivot_index + 1;
                },
            }
        }
        Err(low)
    }
}

/// View of the bytes of one row.
pub struct RowResult<'r> {
    /// The bytes of the row.
    pub data: &'r [u8],
}

impl<'r> RowResult<'r> {
    /// The key of the row.
    pub open spec fn key(&self) -> Seq<u8> {
        row_key(self.data@, 0)
    }

    /// The value of the row.
    pub open spec fn value(&self) -> Seq<u8> {
        row_value(self.data@, 0)
    }

    /// Whether the bytes are those of one row and nothing else.
    pub open spec fn well_formed(&self) -> bool {
        &&& self.data@.len() >= ROW_HEADER_SIZE
        &&& self.data@.len() == row_size(self.data@, 0)
    }

    /// A view of the row bytes `data`.
    pub fn from(data: &'r [u8]) -> (row: Self)
        requires
            data@.len() >= ROW_HEADER_SIZE,
            data@.len() == row_size(data@, 0),
        ensures
            row.well_formed(),
            row.data@ == data@,
    {
        RowResult { data }
    }

    /// The key of the row.
    pub fn get_key(&self) -> (key: &[u8])
        requires
            self.well_formed(),
        ensures
            key@ == self.key(),
    {
        let btree_row = BTreeRow::from(0);
        btree_row.get_key(self.data)
    }

    /// The value of the row.
    pub fn get_value(&self) -> (value: &[u8])
        requires
            self.well_formed(),
        ensures
            value@ == self.value(),
    {
        let btree_row = BTreeRow::from(0);
        btree_row.get_value(self.data)
    }
}

/// Whether a buffer can be opened as a page: the lengths of as many rows as
/// its header counts can be read one after the other from the start of the
/// body, and a slot map of as many elements fits into the body.
pub open spec fn page_can_be_opened(page: Seq<u8>) -> bool {
    &&& page.len() == PAGE_SIZE
    &&& body_can_be_opened(
        page.subrange(PAGE_HEADER_SIZE as int, PAGE_SIZE as int),
        le16(page, 0) as nat,
    )
}

/// Whether a buffer holds a page: it can be opened as one, its body is well
/// laid out with the free space starting where its rows end, and the keys
/// of its rows rise in the order of the slot map.
pub open spec fn page_is_sound(page: Seq<u8>) -> bool {
    let body = page.subrange(PAGE_HEADER_SIZE as int, PAGE_SIZE as int);
    let count = le16(page, 0);
    &&& page_can_be_opened(page)
    &&& layout_ok(body, row_area_end(body, count as nat), PAGE_BODY_SIZE - 2 * count)
    &&& rows_packed(body, row_area_end(body, count as nat), PAGE_BODY_SIZE - 2 * count)
    &&& keys_rise(entries_of(body, PAGE_BODY_SIZE - 2 * count))
}

/// The bytes of a well-formed page whose rows stand without a gap hold a
/// page, and this page opens with the free space that the page has.
pub proof fn lemma_packed_page_is_sound(image: PageImage)
    requires
        image.well_formed(),
        image.packed(),
    ensures
        page_is_sound(image.header + image.body),
        le16(image.header + image.body, 0) == slot_count_of(image.map_start),
        (image.header + image.body).subrange(PAGE_HEADER_SIZE as int, PAGE_SIZE as int)
            == image.body,
        row_area_end(image.body, slot_count_of(image.map_start) as nat) == image.free_start,
        PAGE_BODY_SIZE - 2 * slot_count_of(image.map_start) == image.map_start,
{
    let page = image.header + image.body;
    lemma_packed_body_can_be_opened(image.body, image.free_start, image.map_start);
    assert(page.subrange(PAGE_HEADER_SIZE as int, PAGE_SIZE as int) =~= image.body);
    assert(page[0] == image.header[0]);
    assert(page[1] == image.header[1]);
}

/// A buffer of zero bytes holds a page without rows, whose body is free.
pub proof fn lemma_zero_page_is_empty(page: Seq<u8>)
    requires
        page == zeros(PAGE_SIZE as int),
    ensures
        page_is_sound(page),
        le16(page, 0) == 0,
        entries_of(page.subrange(PAGE_HEADER_SIZE as int, PAGE_SIZE as int), PAGE_BODY_SIZE as int)
            == Seq::<Entry>::empty(),
{
    let body = page.subrange(PAGE_HEADER_SIZE as int, PAGE_SIZE as int);
    assert(row_area_end(body, 0) == 0);
    assert(entries_of(body, PAGE_BODY_SIZE as int) =~= Seq::<Entry>::empty());
}

/// View of a page.
pub struct BTreePage<'a> {
    pub body: BTreeBodyData<'a>,
    pub header: BTreePageHeader<'a>,
}

impl<'a> BTreePage<'a> {
    /// The page as its rows and its free bytes.
    pub open spec fn view(&self) -> PageModel {
        PageModel { entries: self.body.entries(), free: self.body.free_size() as nat }
    }

    /// The bytes of the page.
    pub open spec fn bytes(&self) -> Seq<u8> {
        self.header.bytes() + self.body.bytes()
    }

    /// The page as its bytes and the bounds of its free space.
    pub open spec fn image(&self) -> PageImage {
        PageImage {
            header: self.header.bytes(),
            body: self.body.bytes(),
            free_start: self.body.free_space.start as int,
            map_start: self.body.slot_map.start as int,
        }
    }

    /// Whether the header counts the rows of the body, the body is well laid
    /// out, and the keys of the rows rise in the order of the slot map.
    pub open spec fn well_formed(&self) -> bool {
        &&& self.header.well_formed()
        &&& self.body.well_formed()
        &&& self.header.slot_count() == self.body.slot_count()
        &&& keys_rise(self.body.entries())
    }

    /// A view of the page bytes `data`. What the view leaves in them is what
    /// `data` holds once the view is gone. The view of a buffer that holds a
    /// page is well-formed.
    pub fn from(data: &'a mut [u8; PAGE_SIZE]) -> (page: Self)
        requires
            page_can_be_opened(old(data)@),
        ensures
            page.bytes() == old(data)@,
            page.header.bytes() == old(data)@.subrange(0, PAGE_HEADER_SIZE as int),
            page.body.bytes() == old(data)@.subrange(PAGE_HEADER_SIZE as int, PAGE_SIZE as int),
            page.header.well_formed(),
            page.body.free_space.start == row_area_end(
                page.body.bytes(),
                page.header.slot_count() as nat,
            ),
            page.body.free_space.end == PAGE_BODY_SIZE - 2 * page.header.slot_count(),
            page.body.slot_map.start == page.body.free_space.end,
            page_is_sound(old(data)@) ==> page.well_formed() && page.image().packed(),
            final(data)@ == final(page.header.data)@ + final(page.body.data)@,
    {
        let (header_bytes, body_bytes) = data.split_at_mut(PAGE_HEADER_SIZE);
        proof {
            assert(le16(header_bytes@, 0) == le16(old(data)@, 0));
        }
        let header = BTreePageHeader::from(header_bytes);
        let body = BTreeBodyData::from(body_bytes, &header);
        proof {
            assert(header.bytes() + body.bytes() =~= old(data)@);
        }
        Self { body, header }
    }

    /// The row whose key is equal to `key` in the order of keys, if the page
    /// has one.
    pub fn get(&self, key: &[u8]) -> (row: Option<RowResult<'_>>)
        requires
            self.well_formed(),
        ensures
            match self@.get(key@) {
                Some(entry) => {
                    &&& row matches Some(row)
                    &&& row.well_formed()
                    &&& row.key() == entry.key
                    &&& row.value() == entry.value
                },
                None => row is None,
            },
    {
        match self.body.get(key, &self.header) {
            Err(..) => None,
            Ok(row) => Some(RowResult::from(row)),
        }
    }

    /// Saves `value` under `key`. A row with an equal key takes the value in
    /// place of its own if the two are of one length. Without such a row, a
    /// new row takes its place in the order of the keys if the free space
    /// can hold it. A value that cannot be saved leaves the page as it is.
    pub fn save(&mut self, key: &[u8], value: &[u8]) -> (result: Result<(), RustyKVError>)
        requires
            old(self).well_formed(),
        ensures
            final(self).well_formed(),
            final(final(self).header.data)@ == final(old(self).header.data)@,
            final(final(self).body.data)@ == final(old(self).body.data)@,
            final(self).image() == old(self).image().saved(key@, value@),
            old(self).image().packed() ==> final(self).image().packed(),
            match old(self)@.save(key@, value@) {
                Ok(model) => result is Ok && final(self)@ == model,
                Err(error) => {
                    &&& result == Err::<(), RustyKVError>(error)
                    &&& final(self)@ == old(self)@
                    &&& final(self).bytes() == old(self).bytes()
                },
            },
    {
        proof {
            if self.image().packed() {
                lemma_saved_image_stays_packed(self.image(), key@, value@);
            }
        }
        match self.body.search(key, 0, self.header.get_slot_count() as usize) {
            Ok(index) => {
                proof {
                    lemma_key_found(self.body.entries(), key@, index as int);
                    lemma_update_keeps_rising(self.body.entries(), index as int, value@);
                }
                self.body.update(value, index)
            },
            Err(index) => {
                proof {
                    lemma_key_missing(self.body.entries(), key@, index as int);
                    lemma_insert_keeps_rising(
                        self.body.entries(),
                        Entry { key: key@, value: value@ },
                        index as int,
                    );
                }
                let result = self.body.insert(key, value, index);
                if result.is_ok() {
                    self.header.increase_slot_count(1);
                }
                result
            },
        }
    }

    /// Deletes the row whose key is equal to `key` in the order of keys. A
    /// page without such a row stays as it is.
    pub fn delete(&mut self, key: &[u8]) -> (result: Result<(), RustyKVError>)
        requires
            old(self).well_formed(),
        ensures
            result is Ok,
            final(self).well_formed(),
            final(final(self).header.data)@ == final(old(self).header.data)@,
            final(final(self).body.data)@ == final(old(self).body.data)@,
            final(self).image() == old(self).image().deleted(key@),
            final(self)@ == old(self)@.delete(key@),
            !holds_key(old(self)@.entries, key@) ==> final(self).bytes() == old(self).bytes(),
    {
        let result = self.body.search(key, 0, self.header.get_slot_count() as usize);
        match result {
            Ok(index) => {
                proof {
                    lemma_key_found(self.body.entries(), key@, index as int);
                    lemma_remove_keeps_rising(self.body.entries(), index as int);
                }
                self.body.remove(&mut self.header, index)
            },
            Err(index) => {
                proof {
                    lemma_key_missing(self.body.entries(), key@, index as int);
                }
                Ok(())
            },
        }
    }
}

} // verus!
