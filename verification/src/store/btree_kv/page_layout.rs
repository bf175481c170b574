//! The layout of a page, as functions on its bytes.
//!
//! A page of `PAGE_SIZE` bytes starts with a header of two bytes, the number
//! of its rows. The rest is the body. Rows stand at the low end of the body:
//! two bytes for the length of the key, two for the length of the value,
//! then the key, then the value. The slot map stands at the high end of the
//! body: one offset of two bytes for each row, in the order of the keys.
//! Between the two lies the free space. All the numbers are little-endian.

use crate::store::btree_kv::commons::PAGE_SIZE;
use crate::store::btree_kv::helpers::byte_ops::{
    le16, le16_bytes, lemma_overwritten, overwritten, same_outside, zeros,
};
use crate::store::btree_kv::helpers::byte_ordering::le_value;
use vstd::prelude::*;

verus! {

/// The number of bytes that hold the number of rows.
pub const SLOT_COUNT_SIZE: usize = 2;

/// Where the number of rows stands in the header.
pub const SLOT_COUNT_OFFSET: usize = 0;

/// The number of bytes of a page before its body.
pub const PAGE_HEADER_SIZE: usize = SLOT_COUNT_SIZE;

/// The number of bytes of the body of a page.
pub const PAGE_BODY_SIZE: usize = PAGE_SIZE - PAGE_HEADER_SIZE;

/// The number of bytes of one element of the slot map.
pub const SLOT_MAP_ELEMENT_SIZE: usize = 2;

/// The length of the key of the row at `offset`.
pub open spec fn row_key_size(body: Seq<u8>, offset: int) -> int {
    le16(body, offset)
}

/// The length of the value of the row at `offset`.
pub open spec fn row_value_size(body: Seq<u8>, offset: int) -> int {
    le16(body, offset + 2)
}

/// The number of bytes of the row at `offset`.
pub open spec fn row_size(body: Seq<u8>, offset: int) -> int {
    4 + row_key_size(body, offset) + row_value_size(body, offset)
}

/// The key of the row at `offset`.
pub open spec fn row_key(body: Seq<u8>, offset: int) -> Seq<u8> {
    body.subrange(offset + 4, offset + 4 + row_key_size(body, offset))
}

/// The value of the row at `offset`.
pub open spec fn row_value(body: Seq<u8>, offset: int) -> Seq<u8> {
    body.subrange(
        offset + 4 + row_key_size(body, offset),
        offset + 4 + row_key_size(body, offset) + row_value_size(body, offset),
    )
}

/// Whether the row at `offset` lies below `limit`.
pub open spec fn row_within(body: Seq<u8>, offset: int, limit: int) -> bool {
    0 <= offset && offset + row_size(body, offset) <= limit
}

/// The offset of the row that the element `index` of the slot map points
/// to, in a slot map that starts at `map_start`.
pub open spec fn slot_offset(body: Seq<u8>, map_start: int, index: int) -> int {
    le16(body, map_start + 2 * index)
}

/// The number of elements of a slot map that starts at `map_start`.
pub open spec fn slot_count_of(map_start: int) -> int {
    (PAGE_BODY_SIZE - map_start) / 2
}

/// One row as a pair of key and value.
pub struct Entry {
    pub key: Seq<u8>,
    pub value: Seq<u8>,
}

/// The row that the element `index` of the slot map points to.
pub open spec fn entry_at(body: Seq<u8>, map_start: int, index: int) -> Entry {
    Entry {
        key: row_key(body, slot_offset(body, map_start, index)),
        value: row_value(body, slot_offset(body, map_start, index)),
    }
}

/// The rows of a body in the order of its slot map.
pub open spec fn entries_of(body: Seq<u8>, map_start: int) -> Seq<Entry> {
    Seq::new(slot_count_of(map_start) as nat, |index: int| entry_at(body, map_start, index))
}

/// Whether the rows `first` and `second` of the slot map share no byte.
pub open spec fn rows_apart(body: Seq<u8>, map_start: int, first: int, second: int) -> bool {
    let a = slot_offset(body, map_start, first);
    let b = slot_offset(body, map_start, second);
    a + row_size(body, a) <= b || b + row_size(body, b) <= a
}

/// Whether a body is laid out as a page body is: rows below the free space,
/// no two of them sharing a byte, and the slot map from the end of the free
/// space to the end of the body.
pub open spec fn layout_ok(body: Seq<u8>, free_start: int, map_start: int) -> bool {
    &&& body.len() == PAGE_BODY_SIZE
    &&& 0 <= free_start <= map_start <= PAGE_BODY_SIZE
    &&& (PAGE_BODY_SIZE - map_start) % 2 == 0
    &&& forall|index: int|
        0 <= index < slot_count_of(map_start) ==> row_within(
            body,
            #[trigger] slot_offset(body, map_start, index),
            free_start,
        )
    &&& forall|first: int, second: int|
        0 <= first < second < slot_count_of(map_start) ==> #[trigger] rows_apart(
            body,
            map_start,
            first,
            second,
        )
}

/// Whether the keys of the entries rise strictly under the order of keys.
pub open spec fn keys_rise(entries: Seq<Entry>) -> bool {
    forall|first: int, second: int|
        0 <= first < second < entries.len() ==> le_value(#[trigger] entries[first].key) < le_value(
            #[trigger] entries[second].key,
        )
}

/// Where the rows end if `count` of them stand one after the other from the
/// start of the body.
pub open spec fn row_area_end(body: Seq<u8>, count: nat) -> int
    decreases count,
{
    if count == 0 {
        0
    } else {
        let before = row_area_end(body, (count - 1) as nat);
        before + row_size(body, before)
    }
}

/// Whether the lengths of `count` rows that stand one after the other from
/// the start of the body can be read, and a slot map of `count` elements
/// fits into the body.
pub open spec fn body_can_be_opened(body: Seq<u8>, count: nat) -> bool {
    &&& body.len() == PAGE_BODY_SIZE
    &&& 2 * count <= PAGE_BODY_SIZE
    &&& forall|rows: nat|
        rows < count ==> 0 <= #[trigger] row_area_end(body, rows) <= PAGE_BODY_SIZE - 4
}

/// A row reads the same in two bodies that agree on its bytes.
pub proof fn lemma_row_unchanged(before: Seq<u8>, after: Seq<u8>, offset: int)
    requires
        before.len() == after.len(),
        0 <= offset,
        offset + 4 <= before.len(),
        offset + row_size(before, offset) <= before.len(),
        forall|at: int|
            offset <= at < offset + row_size(before, offset) ==> before[at] == after[at],
    ensures
        row_key_size(after, offset) == row_key_size(before, offset),
        row_value_size(after, offset) == row_value_size(before, offset),
        row_size(after, offset) == row_size(before, offset),
        row_key(after, offset) == row_key(before, offset),
        row_value(after, offset) == row_value(before, offset),
{
    assert(row_key(after, offset) =~= row_key(before, offset));
    assert(row_value(after, offset) =~= row_value(before, offset));
}

/// A row that was written holds the key and the value that were written,
/// and what lies outside the row is as it was.
pub proof fn lemma_row_written(body: Seq<u8>, offset: int, key: Seq<u8>, value: Seq<u8>)
    requires
        0 <= offset,
        key.len() <= u16::MAX,
        value.len() <= u16::MAX,
        offset + 4 + key.len() + value.len() <= body.len(),
    ensures
        ({
            let keyed = overwritten(
                overwritten(body, offset, le16_bytes(key.len() as u16)),
                offset + 4,
                key,
            );
            let written = overwritten(
                overwritten(keyed, offset + 2, le16_bytes(value.len() as u16)),
                offset + 4 + key.len(),
                value,
            );
            &&& row_key_size(keyed, offset) == key.len()
            &&& row_key_size(written, offset) == key.len()
            &&& row_value_size(written, offset) == value.len()
            &&& row_size(written, offset) == 4 + key.len() + value.len()
            &&& row_key(written, offset) == key
            &&& row_value(written, offset) == value
            &&& same_outside(body, written, offset, offset + 4 + key.len() + value.len())
        }),
{
    let sized = overwritten(body, offset, le16_bytes(key.len() as u16));
    let keyed = overwritten(sized, offset + 4, key);
    let valued = overwritten(keyed, offset + 2, le16_bytes(value.len() as u16));
    let written = overwritten(valued, offset + 4 + key.len(), value);
    lemma_overwritten(body, offset, le16_bytes(key.len() as u16));
    lemma_overwritten(sized, offset + 4, key);
    lemma_overwritten(keyed, offset + 2, le16_bytes(value.len() as u16));
    lemma_overwritten(valued, offset + 4 + key.len(), value);
    assert(sized[offset] == le16_bytes(key.len() as u16)[0]);
    assert(sized[offset + 1] == le16_bytes(key.len() as u16)[1]);
    assert(valued[offset + 2] == le16_bytes(value.len() as u16)[0]);
    assert(valued[offset + 3] == le16_bytes(value.len() as u16)[1]);
    assert(row_key_size(keyed, offset) == key.len());
    assert(row_key_size(written, offset) == key.len());
    assert(row_value_size(written, offset) == value.len());
    assert(row_key(written, offset) =~= key);
    assert(row_value(written, offset) =~= value);
}

/// The row of `key` and `value`, written at `offset`.
pub open spec fn row_written(body: Seq<u8>, offset: int, key: Seq<u8>, value: Seq<u8>) -> Seq<u8> {
    let keyed = overwritten(
        overwritten(body, offset, le16_bytes(key.len() as u16)),
        offset + 4,
        key,
    );
    overwritten(
        overwritten(keyed, offset + 2, le16_bytes(value.len() as u16)),
        offset + 4 + key.len(),
        value,
    )
}

/// `before` with `element` put into the slot map as its element `index`,
/// where the grown map starts at `new_start`: the elements before `index`
/// stand one element lower than they did.
pub open spec fn slot_map_with(before: Seq<u8>, new_start: int, index: int, element: u16) -> Seq<
    u8,
> {
    Seq::new(
        before.len(),
        |at: int|
            if new_start <= at < new_start + 2 * index {
                before[at + 2]
            } else if new_start + 2 * index <= at < new_start + 2 * index + 2 {
                le16_bytes(element)[at - (new_start + 2 * index)]
            } else {
                before[at]
            },
    )
}

/// `before` with the element `index` taken out of the slot map that started
/// at `old_start`: the elements before `index` stand one element higher
/// than they did.
pub open spec fn slot_map_without(before: Seq<u8>, old_start: int, index: int) -> Seq<u8> {
    Seq::new(
        before.len(),
        |at: int|
            if old_start + 2 <= at < old_start + 2 + 2 * index {
                before[at - 2]
            } else {
                before[at]
            },
    )
}

/// The body after a row of `key` and `value` was written at the start of
/// the free space and put into the slot map as element `index`.
pub open spec fn body_with_row(
    body: Seq<u8>,
    free_start: int,
    map_start: int,
    index: int,
    key: Seq<u8>,
    value: Seq<u8>,
) -> Seq<u8> {
    slot_map_with(
        row_written(body, free_start, key, value),
        map_start - 2,
        index,
        free_start as u16,
    )
}

/// The body after `value` was written over the value of the row of the
/// element `index` of the slot map.
pub open spec fn body_with_value(body: Seq<u8>, map_start: int, index: int, value: Seq<u8>) -> Seq<
    u8,
> {
    let offset = slot_offset(body, map_start, index);
    overwritten(
        overwritten(body, offset + 2, le16_bytes(value.len() as u16)),
        offset + 4 + row_key_size(body, offset),
        value,
    )
}

/// The body after the row of the element `index` of the slot map was set
/// to zero and its element was taken out of the slot map.
pub open spec fn body_without_row(body: Seq<u8>, map_start: int, index: int) -> Seq<u8> {
    let offset = slot_offset(body, map_start, index);
    slot_map_without(overwritten(body, offset, zeros(row_size(body, offset))), map_start, index)
}

/// After a row was written at the start of the free space and put into the
/// slot map as element `index`, the row reads as it was written, the bytes
/// below it are as they were, the new element of the slot map points to the
/// row, and the other elements point where they did.
#[verifier::rlimit(50)]
pub proof fn lemma_slots_after_insert(
    before: Seq<u8>,
    free_start: int,
    map_start: int,
    index: int,
    key: Seq<u8>,
    value: Seq<u8>,
)
    requires
        layout_ok(before, free_start, map_start),
        0 <= index <= slot_count_of(map_start),
        4 + key.len() + value.len() + 2 <= map_start - free_start,
    ensures
        ({
            let after = body_with_row(before, free_start, map_start, index, key, value);
            &&& after.len() == before.len()
            &&& forall|at: int| 0 <= at < free_start ==> after[at] == before[at]
            &&& row_size(after, free_start) == 4 + key.len() + value.len()
            &&& row_key(after, free_start) == key
            &&& row_value(after, free_start) == value
            &&& forall|slot: int|
                0 <= slot <= slot_count_of(map_start) ==> #[trigger] slot_offset(
                    after,
                    map_start - 2,
                    slot,
                ) == if slot < index {
                    slot_offset(before, map_start, slot)
                } else if slot == index {
                    free_start
                } else {
                    slot_offset(before, map_start, slot - 1)
                }
        }),
{
    let after = body_with_row(before, free_start, map_start, index, key, value);
    let count = slot_count_of(map_start);
    let written = row_written(before, free_start, key, value);
    let new_start = map_start - 2;
    let new_free = free_start + 4 + key.len() + value.len();
    lemma_row_written(before, free_start, key, value);
    assert(forall|at: int| free_start <= at < new_free ==> after[at] == written[at]);
    lemma_row_unchanged(written, after, free_start);
    assert forall|at: int| 0 <= at < free_start implies after[at] == before[at] by {
        assert(after[at] == written[at]);
    }
    assert forall|slot: int| 0 <= slot <= count implies #[trigger] slot_offset(
        after,
        new_start,
        slot,
    ) == if slot < index {
        slot_offset(before, map_start, slot)
    } else if slot == index {
        free_start
    } else {
        slot_offset(before, map_start, slot - 1)
    } by {
        let at = new_start + 2 * slot;
        if slot < index {
            assert(after[at] == written[at + 2]);
            assert(after[at + 1] == written[at + 3]);
        } else if slot == index {
            assert(after[at] == le16_bytes(free_start as u16)[0]);
            assert(after[at + 1] == le16_bytes(free_start as u16)[1]);
        } else {
            assert(after[at] == written[at]);
            assert(after[at + 1] == written[at + 1]);
        }
    }
}

/// Writing a row at the start of the free space and putting its offset into
/// the slot map as element `index` puts the row among the rows as entry
/// `index` and keeps the body well laid out.
#[verifier::rlimit(50)]
pub proof fn lemma_row_inserted(
    before: Seq<u8>,
    free_start: int,
    map_start: int,
    index: int,
    key: Seq<u8>,
    value: Seq<u8>,
)
    requires
        layout_ok(before, free_start, map_start),
        0 <= index <= slot_count_of(map_start),
        4 + key.len() + value.len() + 2 <= map_start - free_start,
    ensures
        ({
            let after = body_with_row(before, free_start, map_start, index, key, value);
            &&& layout_ok(after, free_start + 4 + key.len() + value.len(), map_start - 2)
            &&& slot_count_of(map_start - 2) == slot_count_of(map_start) + 1
            &&& entries_of(after, map_start - 2) == entries_of(before, map_start).insert(
                index,
                Entry { key, value },
            )
        }),
{
    let after = body_with_row(before, free_start, map_start, index, key, value);
    let count = slot_count_of(map_start);
    let new_start = map_start - 2;
    let new_free = free_start + 4 + key.len() + value.len();
    lemma_slots_after_insert(before, free_start, map_start, index, key, value);
    // The old rows read in `after` as they did.
    assert forall|slot: int| 0 <= slot < count implies ({
        let offset = #[trigger] slot_offset(before, map_start, slot);
        &&& row_within(before, offset, free_start)
        &&& row_size(after, offset) == row_size(before, offset)
        &&& row_key(after, offset) == row_key(before, offset)
        &&& row_value(after, offset) == row_value(before, offset)
    }) by {
        let offset = slot_offset(before, map_start, slot);
        assert(row_within(before, offset, free_start));
        lemma_row_unchanged(before, after, offset);
    }
    let old_entries = entries_of(before, map_start);
    let new_entries = entries_of(after, new_start);
    let expected = old_entries.insert(index, Entry { key, value });
    assert(new_entries.len() == expected.len());
    assert forall|slot: int| 0 <= slot < new_entries.len() implies new_entries[slot]
        == expected[slot] by {
        if slot < index {
            assert(expected[slot] == old_entries[slot]);
        } else if slot == index {
            assert(expected[slot] == Entry { key, value });
        } else {
            assert(expected[slot] == old_entries[slot - 1]);
        }
    }
    assert(new_entries =~= expected);
    assert forall|slot: int| 0 <= slot < count + 1 implies row_within(
        after,
        #[trigger] slot_offset(after, new_start, slot),
        new_free,
    ) by {
        if slot < index {
            assert(row_within(before, slot_offset(before, map_start, slot), free_start));
        } else if slot > index {
            assert(row_within(before, slot_offset(before, map_start, slot - 1), free_start));
        }
    }
    assert forall|first: int, second: int|
        0 <= first < second < count + 1 implies #[trigger] rows_apart(
        after,
        new_start,
        first,
        second,
    ) by {
        let old_first = if first < index {
            first
        } else {
            first - 1
        };
        let old_second = if second < index {
            second
        } else {
            second - 1
        };
        if first != index && second != index {
            assert(rows_apart(before, map_start, old_first, old_second));
            assert(row_within(before, slot_offset(before, map_start, old_first), free_start));
            assert(row_within(before, slot_offset(before, map_start, old_second), free_start));
        } else if first == index {
            assert(row_within(before, slot_offset(before, map_start, old_second), free_start));
        } else {
            assert(row_within(before, slot_offset(before, map_start, old_first), free_start));
        }
    }
}

/// Writing a value of the same length over the value of a row changes the
/// bytes of the value and no others.
pub proof fn lemma_value_written(body: Seq<u8>, offset: int, value: Seq<u8>)
    requires
        0 <= offset,
        offset + row_size(body, offset) <= body.len(),
        value.len() == row_value_size(body, offset),
    ensures
        ({
            let after = overwritten(
                overwritten(body, offset + 2, le16_bytes(value.len() as u16)),
                offset + 4 + row_key_size(body, offset),
                value,
            );
            &&& same_outside(
                body,
                after,
                offset + 4 + row_key_size(body, offset),
                offset + row_size(body, offset),
            )
            &&& row_key_size(after, offset) == row_key_size(body, offset)
            &&& row_value_size(after, offset) == row_value_size(body, offset)
            &&& row_key(after, offset) == row_key(body, offset)
            &&& row_value(after, offset) == value
        }),
{
    let key_size = row_key_size(body, offset);
    let sized = overwritten(body, offset + 2, le16_bytes(value.len() as u16));
    lemma_overwritten(body, offset + 2, le16_bytes(value.len() as u16));
    lemma_overwritten(sized, offset + 4 + key_size, value);
    assert(sized[offset + 2] == body[offset + 2]);
    assert(sized[offset + 3] == body[offset + 3]);
    assert(sized =~= body);
    let after = overwritten(sized, offset + 4 + key_size, value);
    assert(row_key(after, offset) =~= row_key(body, offset));
    assert(row_value(after, offset) =~= value);
}

/// Writing a value of the same length over the value of row `index` changes
/// the value of this entry and nothing else.
#[verifier::rlimit(50)]
pub proof fn lemma_row_updated(
    before: Seq<u8>,
    free_start: int,
    map_start: int,
    index: int,
    value: Seq<u8>,
)
    requires
        layout_ok(before, free_start, map_start),
        0 <= index < slot_count_of(map_start),
        value.len() == row_value_size(before, slot_offset(before, map_start, index)),
    ensures
        ({
            let after = body_with_value(before, map_start, index, value);
            &&& layout_ok(after, free_start, map_start)
            &&& entries_of(after, map_start) == entries_of(before, map_start).update(
                index,
                Entry { key: entries_of(before, map_start)[index].key, value },
            )
        }),
{
    let count = slot_count_of(map_start);
    let offset = slot_offset(before, map_start, index);
    let after = body_with_value(before, map_start, index, value);
    assert(row_within(before, offset, free_start));
    lemma_value_written(before, offset, value);
    assert forall|slot: int| 0 <= slot < count implies #[trigger] slot_offset(
        after,
        map_start,
        slot,
    )
        == slot_offset(before, map_start, slot) by {
        let at = map_start + 2 * slot;
        assert(after[at] == before[at]);
        assert(after[at + 1] == before[at + 1]);
    }
    assert forall|slot: int| 0 <= slot < count && slot != index implies ({
        let other = #[trigger] slot_offset(before, map_start, slot);
        &&& row_size(after, other) == row_size(before, other)
        &&& row_key(after, other) == row_key(before, other)
        &&& row_value(after, other) == row_value(before, other)
    }) by {
        let other = slot_offset(before, map_start, slot);
        assert(row_within(before, other, free_start));
        if slot < index {
            assert(rows_apart(before, map_start, slot, index));
        } else {
            assert(rows_apart(before, map_start, index, slot));
        }
        lemma_row_unchanged(before, after, other);
    }
    let old_entries = entries_of(before, map_start);
    let new_entries = entries_of(after, map_start);
    let expected = old_entries.update(index, Entry { key: old_entries[index].key, value });
    assert forall|slot: int| 0 <= slot < new_entries.len() implies new_entries[slot]
        == expected[slot] by {
        if slot != index {
            assert(new_entries[slot] == old_entries[slot]);
        }
    }
    assert(new_entries =~= expected);
    assert forall|slot: int| 0 <= slot < count implies row_within(
        after,
        #[trigger] slot_offset(after, map_start, slot),
        free_start,
    ) by {
        assert(row_within(before, slot_offset(before, map_start, slot), free_start));
    }
    assert forall|first: int, second: int|
        0 <= first < second < count implies #[trigger] rows_apart(
        after,
        map_start,
        first,
        second,
    ) by {
        assert(rows_apart(before, map_start, first, second));
    }
}

/// After row `index` was set to zero and its element was taken out of the
/// slot map, the bytes below the free space and outside the row are as they
/// were, and the elements of the slot map point where the elements other
/// than `index` pointed.
#[verifier::rlimit(50)]
pub proof fn lemma_slots_after_remove(before: Seq<u8>, free_start: int, map_start: int, index: int)
    requires
        layout_ok(before, free_start, map_start),
        0 <= index < slot_count_of(map_start),
    ensures
        ({
            let after = body_without_row(before, map_start, index);
            let offset = slot_offset(before, map_start, index);
            &&& after.len() == before.len()
            &&& forall|at: int|
                0 <= at < free_start && !(offset <= at < offset + row_size(before, offset))
                    ==> after[at] == before[at]
            &&& forall|slot: int|
                0 <= slot < slot_count_of(map_start) - 1 ==> #[trigger] slot_offset(
                    after,
                    map_start + 2,
                    slot,
                ) == if slot < index {
                    slot_offset(before, map_start, slot)
                } else {
                    slot_offset(before, map_start, slot + 1)
                }
        }),
{
    let after = body_without_row(before, map_start, index);
    let count = slot_count_of(map_start);
    let offset = slot_offset(before, map_start, index);
    let size = row_size(before, offset);
    let cleared = overwritten(before, offset, zeros(size));
    assert(row_within(before, offset, free_start));
    lemma_overwritten(before, offset, zeros(size));
    assert forall|at: int|
        0 <= at < free_start && !(offset <= at < offset + size) implies after[at]
        == before[at] by {
        assert(after[at] == cleared[at]);
    }
    assert forall|slot: int| 0 <= slot < count - 1 implies #[trigger] slot_offset(
        after,
        map_start + 2,
        slot,
    ) == if slot < index {
        slot_offset(before, map_start, slot)
    } else {
        slot_offset(before, map_start, slot + 1)
    } by {
        let at = map_start + 2 + 2 * slot;
        if slot < index {
            assert(after[at] == cleared[at - 2]);
            assert(after[at + 1] == cleared[at - 1]);
            assert(cleared[at - 2] == before[at - 2]);
            assert(cleared[at - 1] == before[at - 1]);
        } else {
            assert(after[at] == cleared[at]);
            assert(after[at + 1] == cleared[at + 1]);
            assert(cleared[at] == before[at]);
            assert(cleared[at + 1] == before[at + 1]);
        }
    }
}

/// Clearing row `index` and taking its element out of the slot map takes
/// the entry `index` away from the rows and keeps the body well laid out.
#[verifier::rlimit(50)]
pub proof fn lemma_row_removed(before: Seq<u8>, free_start: int, map_start: int, index: int)
    requires
        layout_ok(before, free_start, map_start),
        0 <= index < slot_count_of(map_start),
    ensures
        ({
            let after = body_without_row(before, map_start, index);
            &&& layout_ok(after, free_start, map_start + 2)
            &&& slot_count_of(map_start + 2) == slot_count_of(map_start) - 1
            &&& entries_of(after, map_start + 2) == entries_of(before, map_start).remove(index)
        }),
{
    let after = body_without_row(before, map_start, index);
    let count = slot_count_of(map_start);
    let new_start = map_start + 2;
    lemma_slots_after_remove(before, free_start, map_start, index);
    assert forall|slot: int| 0 <= slot < count && slot != index implies ({
        let other = #[trigger] slot_offset(before, map_start, slot);
        &&& row_within(before, other, free_start)
        &&& row_size(after, other) == row_size(before, other)
        &&& row_key(after, other) == row_key(before, other)
        &&& row_value(after, other) == row_value(before, other)
    }) by {
        let other = slot_offset(before, map_start, slot);
        assert(row_within(before, other, free_start));
        assert(row_within(before, slot_offset(before, map_start, index), free_start));
        if slot < index {
            assert(rows_apart(before, map_start, slot, index));
        } else {
            assert(rows_apart(before, map_start, index, slot));
        }
        lemma_row_unchanged(before, after, other);
    }
    let old_entries = entries_of(before, map_start);
    let new_entries = entries_of(after, new_start);
    let expected = old_entries.remove(index);
    assert(new_entries.len() == expected.len());
    assert forall|slot: int| 0 <= slot < new_entries.len() implies new_entries[slot]
        == expected[slot] by {
        if slot < index {
            assert(expected[slot] == old_entries[slot]);
            assert(slot_offset(after, new_start, slot) == slot_offset(before, map_start, slot));
        } else {
            assert(expected[slot] == old_entries[slot + 1]);
            assert(slot_offset(after, new_start, slot) == slot_offset(
                before,
                map_start,
                slot + 1,
            ));
        }
    }
    assert(new_entries =~= expected);
    assert forall|slot: int| 0 <= slot < count - 1 implies row_within(
        after,
        #[trigger] slot_offset(after, new_start, slot),
        free_start,
    ) by {
        if slot < index {
            assert(row_within(before, slot_offset(before, map_start, slot), free_start));
        } else {
            assert(row_within(before, slot_offset(before, map_start, slot + 1), free_start));
        }
    }
    assert forall|first: int, second: int|
        0 <= first < second < count - 1 implies #[trigger] rows_apart(
        after,
        new_start,
        first,
        second,
    ) by {
        let old_first = if first < index {
            first
        } else {
            first + 1
        };
        let old_second = if second < index {
            second
        } else {
            second + 1
        };
        assert(slot_offset(after, new_start, first) == slot_offset(before, map_start, old_first));
        assert(slot_offset(after, new_start, second) == slot_offset(
            before,
            map_start,
            old_second,
        ));
        assert(rows_apart(before, map_start, old_first, old_second));
        assert(row_within(before, slot_offset(before, map_start, old_first), free_start));
        assert(row_within(before, slot_offset(before, map_start, old_second), free_start));
    }
}

/// Whether one of the first `count` rows that stand one after the other
/// from the start of the body starts at `offset`.
pub open spec fn starts_a_row(body: Seq<u8>, count: int, offset: int) -> bool {
    exists|rows: nat| rows < count && #[trigger] row_area_end(body, rows) == offset
}

/// Whether the rows of the body stand one after the other from its start up
/// to the free space, without a gap, and each element of the slot map
/// points to one of them. Rows that were only written and never deleted
/// stand so.
pub open spec fn rows_packed(body: Seq<u8>, free_start: int, map_start: int) -> bool {
    &&& row_area_end(body, slot_count_of(map_start) as nat) == free_start
    &&& forall|index: int|
        0 <= index < slot_count_of(map_start) ==> starts_a_row(
            body,
            slot_count_of(map_start),
            #[trigger] slot_offset(body, map_start, index),
        )
}

/// Each row takes at least the four bytes of its lengths, so the rows end
/// later the more of them there are.
pub proof fn lemma_row_area_grows(body: Seq<u8>, fewer: nat, more: nat)
    requires
        fewer <= more,
    ensures
        row_area_end(body, fewer) + 4 * (more - fewer) <= row_area_end(body, more),
        0 <= row_area_end(body, fewer),
    decreases more,
{
    if fewer < more {
        lemma_row_area_grows(body, fewer, (more - 1) as nat);
    } else if fewer > 0 {
        lemma_row_area_grows(body, (fewer - 1) as nat, (fewer - 1) as nat);
    }
}

/// Whether the bytes that hold the lengths of the row that stands behind
/// `rows` rows lie in the body and are the same in `before` and `after`.
pub open spec fn lengths_agree(before: Seq<u8>, after: Seq<u8>, rows: nat) -> bool {
    let start = row_area_end(before, rows);
    &&& 0 <= start
    &&& start + 4 <= before.len()
    &&& before[start] == after[start]
    &&& before[start + 1] == after[start + 1]
    &&& before[start + 2] == after[start + 2]
    &&& before[start + 3] == after[start + 3]
}

/// Rows end at the same places in two bodies that agree on the lengths of
/// the rows.
pub proof fn lemma_row_area_unchanged(before: Seq<u8>, after: Seq<u8>, count: nat)
    requires
        before.len() == after.len(),
        forall|rows: nat| rows < count ==> #[trigger] lengths_agree(before, after, rows),
    ensures
        forall|rows: nat| rows <= count ==> #[trigger] row_area_end(after, rows) == row_area_end(
            before,
            rows,
        ),
    decreases count,
{
    if count > 0 {
        lemma_row_area_unchanged(before, after, (count - 1) as nat);
        let start = row_area_end(before, (count - 1) as nat);
        assert(row_area_end(after, (count - 1) as nat) == start);
        assert(lengths_agree(before, after, (count - 1) as nat));
        assert(row_size(after, start) == row_size(before, start));
        assert forall|rows: nat| rows <= count implies #[trigger] row_area_end(after, rows)
            == row_area_end(before, rows) by {
            if rows == count {
                assert(row_area_end(after, count) == row_area_end(after, (count - 1) as nat)
                    + row_size(after, row_area_end(after, (count - 1) as nat)));
            }
        }
    }
}

/// Rows that stand without a gap still do after a row was written behind
/// them.
#[verifier::rlimit(50)]
pub proof fn lemma_insert_keeps_packed(
    before: Seq<u8>,
    free_start: int,
    map_start: int,
    index: int,
    key: Seq<u8>,
    value: Seq<u8>,
)
    requires
        layout_ok(before, free_start, map_start),
        rows_packed(before, free_start, map_start),
        0 <= index <= slot_count_of(map_start),
        4 + key.len() + value.len() + 2 <= map_start - free_start,
    ensures
        rows_packed(
            body_with_row(before, free_start, map_start, index, key, value),
            free_start + 4 + key.len() + value.len(),
            map_start - 2,
        ),
{
    let after = body_with_row(before, free_start, map_start, index, key, value);
    let count = slot_count_of(map_start);
    lemma_slots_after_insert(before, free_start, map_start, index, key, value);
    assert forall|rows: nat| rows < count implies #[trigger] lengths_agree(
        before,
        after,
        rows,
    ) by {
        lemma_row_area_grows(before, rows, count as nat);
    }
    lemma_row_area_unchanged(before, after, count as nat);
    assert(row_area_end(after, count as nat) == free_start);
    assert(row_area_end(after, (count + 1) as nat) == free_start + row_size(after, free_start));
    assert forall|slot: int| 0 <= slot < count + 1 implies starts_a_row(
        after,
        count + 1,
        #[trigger] slot_offset(after, map_start - 2, slot),
    ) by {
        if slot == index {
            assert(row_area_end(after, count as nat) == free_start);
        } else {
            let old_slot = if slot < index {
                slot
            } else {
                slot - 1
            };
            let offset = slot_offset(before, map_start, old_slot);
            assert(starts_a_row(before, count, offset));
            let rows = choose|rows: nat| rows < count && #[trigger] row_area_end(before, rows)
                == offset;
            assert(row_area_end(after, rows) == offset);
        }
    }
}

/// Rows that stand without a gap still do after a value was written over a
/// value of the same length.
#[verifier::rlimit(50)]
pub proof fn lemma_update_keeps_packed(
    before: Seq<u8>,
    free_start: int,
    map_start: int,
    index: int,
    value: Seq<u8>,
)
    requires
        layout_ok(before, free_start, map_start),
        rows_packed(before, free_start, map_start),
        0 <= index < slot_count_of(map_start),
        value.len() == row_value_size(before, slot_offset(before, map_start, index)),
    ensures
        rows_packed(body_with_value(before, map_start, index, value), free_start, map_start),
{
    let after = body_with_value(before, map_start, index, value);
    let count = slot_count_of(map_start);
    let offset = slot_offset(before, map_start, index);
    let low = offset + 4 + row_key_size(before, offset);
    let high = offset + row_size(before, offset);
    assert(row_within(before, offset, free_start));
    lemma_value_written(before, offset, value);
    assert(same_outside(before, after, low, high));
    assert(starts_a_row(before, count, offset));
    let own = choose|rows: nat| rows < count && #[trigger] row_area_end(before, rows) == offset;
    assert(row_area_end(before, (own + 1) as nat) == high);
    assert forall|rows: nat| rows < count implies #[trigger] lengths_agree(
        before,
        after,
        rows,
    ) by {
        let start = row_area_end(before, rows);
        lemma_row_area_grows(before, rows, count as nat);
        if rows <= own {
            lemma_row_area_grows(before, rows, own);
            assert(start + 4 <= low);
        } else {
            lemma_row_area_grows(before, (own + 1) as nat, rows);
            assert(high <= start);
        }
    }
    lemma_row_area_unchanged(before, after, count as nat);
    assert forall|slot: int| 0 <= slot < count implies starts_a_row(
        after,
        count,
        #[trigger] slot_offset(after, map_start, slot),
    ) by {
        let at = map_start + 2 * slot;
        assert(after[at] == before[at]);
        assert(after[at + 1] == before[at + 1]);
        let target = slot_offset(before, map_start, slot);
        assert(slot_offset(after, map_start, slot) == target);
        assert(starts_a_row(before, count, target));
        let rows = choose|rows: nat| rows < count && #[trigger] row_area_end(before, rows)
            == target;
        assert(row_area_end(after, rows) == target);
    }
}

/// A well laid out body whose rows stand without a gap can be opened, and
/// the free space of the opened body starts where it started.
pub proof fn lemma_packed_body_can_be_opened(body: Seq<u8>, free_start: int, map_start: int)
    requires
        layout_ok(body, free_start, map_start),
        rows_packed(body, free_start, map_start),
    ensures
        body_can_be_opened(body, slot_count_of(map_start) as nat),
        row_area_end(body, slot_count_of(map_start) as nat) == free_start,
        map_start == PAGE_BODY_SIZE - 2 * slot_count_of(map_start),
{
    let count = slot_count_of(map_start);
    assert forall|rows: nat| rows < count implies 0 <= #[trigger] row_area_end(body, rows)
        <= PAGE_BODY_SIZE - 4 by {
        lemma_row_area_grows(body, rows, count as nat);
    }
}

} // verus!
