//! What a page is, apart from its bytes: rows in the order of their keys
//! and a number of free bytes, with the operations of a page as functions
//! on these.

use crate::store::btree_kv::error::RustyKVError;
use crate::store::btree_kv::helpers::byte_ordering::le_value;
use crate::store::btree_kv::helpers::byte_ops::{le16, le16_bytes};
use crate::store::btree_kv::page_layout::{
    body_with_row, body_with_value, body_without_row, entries_of, keys_rise, layout_ok,
    lemma_insert_keeps_packed, lemma_row_inserted, lemma_row_removed, lemma_row_updated,
    lemma_update_keeps_packed, rows_packed, slot_count_of, Entry, PAGE_HEADER_SIZE,
};
use vstd::prelude::*;

verus! {

/// Whether one of the entries has a key that is equal to `key` in the order
/// of keys.
pub open spec fn holds_key(entries: Seq<Entry>, key: Seq<u8>) -> bool {
    exists|index: int|
        0 <= index < entries.len() && le_value(#[trigger] entries[index].key) == le_value(key)
}

/// The index of the entry whose key is equal to `key`.
pub open spec fn index_of_key(entries: Seq<Entry>, key: Seq<u8>) -> int {
    choose|index: int|
        0 <= index < entries.len() && le_value(#[trigger] entries[index].key) == le_value(key)
}

/// Whether `index` parts the entries into those with a key below `key`,
/// before it, and those with a key above `key`, from it on.
pub open spec fn parts_entries(entries: Seq<Entry>, key: Seq<u8>, index: int) -> bool {
    &&& 0 <= index <= entries.len()
    &&& forall|below: int|
        0 <= below < index ==> le_value(#[trigger] entries[below].key) < le_value(key)
    &&& forall|above: int|
        index <= above < entries.len() ==> le_value(key) < le_value(#[trigger] entries[above].key)
}

/// The index at which an entry with the key `key` keeps the keys rising.
pub open spec fn insertion_point(entries: Seq<Entry>, key: Seq<u8>) -> int {
    choose|index: int| parts_entries(entries, key, index)
}

/// The number of bytes that a new row of `key` and `value` takes from the
/// free space: its lengths, its key, its value and its element of the slot
/// map.
pub open spec fn row_cost(key: Seq<u8>, value: Seq<u8>) -> nat {
    4 + key.len() + value.len() + 2
}

/// A page as its rows and its free bytes.
#[verifier::ext_equal]
pub struct PageModel {
    /// The rows in the order of the slot map.
    pub entries: Seq<Entry>,
    /// The number of bytes between the rows and the slot map.
    pub free: nat,
}

impl PageModel {
    /// Whether the keys of the rows rise strictly, so that no two rows have
    /// equal keys.
    pub open spec fn well_formed(self) -> bool {
        keys_rise(self.entries)
    }

    /// The row with the key `key`, if the page has one.
    pub open spec fn get(self, key: Seq<u8>) -> Option<Entry> {
        if holds_key(self.entries, key) {
            Some(self.entries[index_of_key(self.entries, key)])
        } else {
            None
        }
    }

    /// The page after `value` was saved under `key`, or the reason why it
    /// cannot be saved. A row with an equal key keeps its key and takes the
    /// value if the value is as long as the one it has. Without such a row,
    /// a new row takes its place in the order of the keys if the free space
    /// can hold it.
    pub open spec fn save(self, key: Seq<u8>, value: Seq<u8>) -> Result<PageModel, RustyKVError> {
        if holds_key(self.entries, key) {
            let index = index_of_key(self.entries, key);
            if value.len() == self.entries[index].value.len() {
                Ok(
                    PageModel {
                        entries: self.entries.update(
                            index,
                            Entry { key: self.entries[index].key, value },
                        ),
                        free: self.free,
                    },
                )
            } else {
                Err(RustyKVError::InsufficientSpace)
            }
        } else {
            if row_cost(key, value) <= self.free {
                Ok(
                    PageModel {
                        entries: self.entries.insert(
                            insertion_point(self.entries, key),
                            Entry { key, value },
                        ),
                        free: (self.free - row_cost(key, value)) as nat,
                    },
                )
            } else {
                Err(RustyKVError::InsufficientSpace)
            }
        }
    }

    /// The page after the row with the key `key` was deleted. The bytes of
    /// the row stay where they are, set to zero; only its element of the
    /// slot map goes back to the free space.
    pub open spec fn delete(self, key: Seq<u8>) -> PageModel {
        if holds_key(self.entries, key) {
            PageModel {
                entries: self.entries.remove(index_of_key(self.entries, key)),
                free: self.free + 2,
            }
        } else {
            self
        }
    }
}

/// Among rising keys, the entry with a given key is the only one with it.
pub proof fn lemma_key_found(entries: Seq<Entry>, key: Seq<u8>, index: int)
    requires
        keys_rise(entries),
        0 <= index < entries.len(),
        le_value(entries[index].key) == le_value(key),
    ensures
        holds_key(entries, key),
        index_of_key(entries, key) == index,
{
    let chosen = index_of_key(entries, key);
    if chosen < index {
        assert(le_value(entries[chosen].key) < le_value(entries[index].key));
    } else if index < chosen {
        assert(le_value(entries[index].key) < le_value(entries[chosen].key));
    }
}

/// Among rising keys, the place that parts the entries at a key is the only
/// one that does, and no entry has the key.
pub proof fn lemma_key_missing(entries: Seq<Entry>, key: Seq<u8>, index: int)
    requires
        parts_entries(entries, key, index),
    ensures
        !holds_key(entries, key),
        insertion_point(entries, key) == index,
{
    if holds_key(entries, key) {
        let found = index_of_key(entries, key);
        if found < index {
            assert(le_value(entries[found].key) < le_value(key));
        } else {
            assert(le_value(key) < le_value(entries[found].key));
        }
    }
    let chosen = insertion_point(entries, key);
    if chosen < index {
        assert(le_value(entries[chosen].key) < le_value(key));
        assert(le_value(key) < le_value(entries[chosen].key));
    } else if index < chosen {
        assert(le_value(entries[index].key) < le_value(key));
        assert(le_value(key) < le_value(entries[index].key));
    }
}

/// Rising keys that do not hold a key have a place that parts them at it.
pub proof fn lemma_insertion_point_exists(entries: Seq<Entry>, key: Seq<u8>)
    requires
        keys_rise(entries),
        !holds_key(entries, key),
    ensures
        parts_entries(entries, key, insertion_point(entries, key)),
    decreases entries.len(),
{
    if entries.len() == 0 {
        assert(parts_entries(entries, key, 0));
    } else {
        let shorter = entries.drop_last();
        let last = entries.len() - 1;
        assert forall|first: int, second: int| 0 <= first < second < shorter.len() implies le_value(
            #[trigger] shorter[first].key,
        ) < le_value(#[trigger] shorter[second].key) by {
            assert(shorter[first] == entries[first]);
            assert(shorter[second] == entries[second]);
        }
        if holds_key(shorter, key) {
            let found = index_of_key(shorter, key);
            assert(entries[found] == shorter[found]);
            assert(false);
        }
        lemma_insertion_point_exists(shorter, key);
        let point = insertion_point(shorter, key);
        assert(le_value(entries[last].key) != le_value(key));
        if le_value(entries[last].key) < le_value(key) {
            assert forall|below: int| 0 <= below < entries.len() implies le_value(
                #[trigger] entries[below].key,
            ) < le_value(key) by {
                if below < last {
                    assert(le_value(entries[below].key) < le_value(entries[last].key));
                }
            }
            assert(parts_entries(entries, key, entries.len() as int));
        } else {
            assert forall|below: int| 0 <= below < point implies le_value(
                #[trigger] entries[below].key,
            ) < le_value(key) by {
                assert(entries[below] == shorter[below]);
            }
            assert forall|above: int| point <= above < entries.len() implies le_value(key)
                < le_value(#[trigger] entries[above].key) by {
                if above < last {
                    assert(entries[above] == shorter[above]);
                }
            }
            assert(parts_entries(entries, key, point));
        }
    }
}

/// An entry that is put where its key parts rising keys keeps them rising.
pub proof fn lemma_insert_keeps_rising(entries: Seq<Entry>, entry: Entry, index: int)
    requires
        keys_rise(entries),
        parts_entries(entries, entry.key, index),
    ensures
        keys_rise(entries.insert(index, entry)),
{
    let grown = entries.insert(index, entry);
    assert forall|first: int, second: int| 0 <= first < second < grown.len() implies le_value(
        #[trigger] grown[first].key,
    ) < le_value(#[trigger] grown[second].key) by {
        let old_first = if first < index {
            first
        } else {
            first - 1
        };
        let old_second = if second < index {
            second
        } else {
            second - 1
        };
        if first != index {
            assert(grown[first] == entries[old_first]);
        }
        if second != index {
            assert(grown[second] == entries[old_second]);
        }
    }
}

/// An entry that takes a new value and keeps its key keeps the keys rising.
pub proof fn lemma_update_keeps_rising(entries: Seq<Entry>, index: int, value: Seq<u8>)
    requires
        keys_rise(entries),
        0 <= index < entries.len(),
    ensures
        keys_rise(entries.update(index, Entry { key: entries[index].key, value })),
{
    let changed = entries.update(index, Entry { key: entries[index].key, value });
    assert forall|first: int, second: int| 0 <= first < second < changed.len() implies le_value(
        #[trigger] changed[first].key,
    ) < le_value(#[trigger] changed[second].key) by {
        assert(changed[first].key == entries[first].key);
        assert(changed[second].key == entries[second].key);
    }
}

/// Taking an entry away keeps the keys rising.
pub proof fn lemma_remove_keeps_rising(entries: Seq<Entry>, index: int)
    requires
        keys_rise(entries),
        0 <= index < entries.len(),
    ensures
        keys_rise(entries.remove(index)),
{
    let shrunk = entries.remove(index);
    assert forall|first: int, second: int| 0 <= first < second < shrunk.len() implies le_value(
        #[trigger] shrunk[first].key,
    ) < le_value(#[trigger] shrunk[second].key) by {
        let old_first = if first < index {
            first
        } else {
            first + 1
        };
        let old_second = if second < index {
            second
        } else {
            second + 1
        };
        assert(shrunk[first] == entries[old_first]);
        assert(shrunk[second] == entries[old_second]);
    }
}

/// Saving keeps the keys rising: the row that was saved stands where its
/// key belongs.
pub proof fn lemma_save_keeps_order(page: PageModel, key: Seq<u8>, value: Seq<u8>)
    requires
        page.well_formed(),
    ensures
        page.save(key, value) matches Ok(saved) ==> saved.well_formed(),
{
    if holds_key(page.entries, key) {
        lemma_update_keeps_rising(page.entries, index_of_key(page.entries, key), value);
    } else {
        lemma_insertion_point_exists(page.entries, key);
        lemma_insert_keeps_rising(
            page.entries,
            Entry { key, value },
            insertion_point(page.entries, key),
        );
    }
}

/// Deleting keeps the keys rising.
pub proof fn lemma_delete_keeps_order(page: PageModel, key: Seq<u8>)
    requires
        page.well_formed(),
    ensures
        page.delete(key).well_formed(),
{
    if holds_key(page.entries, key) {
        lemma_remove_keeps_rising(page.entries, index_of_key(page.entries, key));
    }
}

/// A value that was saved under a key is the value that is found under it.
pub proof fn lemma_save_then_get(page: PageModel, key: Seq<u8>, value: Seq<u8>)
    requires
        page.well_formed(),
        page.save(key, value) is Ok,
    ensures
        page.save(key, value)->Ok_0.get(key) matches Some(entry) && entry.value == value,
{
    let saved = page.save(key, value)->Ok_0;
    lemma_save_keeps_order(page, key, value);
    if holds_key(page.entries, key) {
        let index = index_of_key(page.entries, key);
        assert(saved.entries[index].key == page.entries[index].key);
        lemma_key_found(saved.entries, key, index);
    } else {
        lemma_insertion_point_exists(page.entries, key);
        let index = insertion_point(page.entries, key);
        assert(saved.entries[index] == Entry { key, value });
        lemma_key_found(saved.entries, key, index);
    }
}

/// Of two values that were saved under one key, the second is found, and
/// the second save leaves the number of rows as it is.
pub proof fn lemma_save_twice(page: PageModel, key: Seq<u8>, first: Seq<u8>, second: Seq<u8>)
    requires
        page.well_formed(),
        page.save(key, first) is Ok,
        page.save(key, first)->Ok_0.save(key, second) is Ok,
    ensures
        ({
            let once = page.save(key, first)->Ok_0;
            let twice = once.save(key, second)->Ok_0;
            &&& twice.get(key) matches Some(entry) && entry.value == second
            &&& twice.entries.len() == once.entries.len()
        }),
{
    let once = page.save(key, first)->Ok_0;
    lemma_save_keeps_order(page, key, first);
    lemma_save_then_get(page, key, first);
    lemma_save_then_get(once, key, second);
}

/// A key that was saved and then deleted is not found.
pub proof fn lemma_save_then_delete(page: PageModel, key: Seq<u8>, value: Seq<u8>)
    requires
        page.well_formed(),
        page.save(key, value) is Ok,
    ensures
        page.save(key, value)->Ok_0.delete(key).get(key) is None,
{
    let saved = page.save(key, value)->Ok_0;
    lemma_save_keeps_order(page, key, value);
    lemma_save_then_get(page, key, value);
    lemma_delete_then_get(saved, key);
}

/// A key that was deleted is not found.
pub proof fn lemma_delete_then_get(page: PageModel, key: Seq<u8>)
    requires
        page.well_formed(),
    ensures
        page.delete(key).get(key) is None,
{
    if holds_key(page.entries, key) {
        let index = index_of_key(page.entries, key);
        let left = page.delete(key).entries;
        if holds_key(left, key) {
            let found = index_of_key(left, key);
            let before = if found < index {
                found
            } else {
                found + 1
            };
            assert(left[found] == page.entries[before]);
            lemma_key_found(page.entries, key, before);
        }
    }
}

/// Deleting a key that the page does not hold changes nothing.
pub proof fn lemma_delete_absent(page: PageModel, key: Seq<u8>)
    requires
        page.get(key) is None,
    ensures
        page.delete(key) == page,
{
}

/// A page whose free space cannot hold a new row refuses it.
pub proof fn lemma_full_page_refuses(page: PageModel, key: Seq<u8>, value: Seq<u8>)
    requires
        !holds_key(page.entries, key),
        row_cost(key, value) > page.free,
    ensures
        page.save(key, value) == Err::<PageModel, RustyKVError>(RustyKVError::InsufficientSpace),
{
}

/// Saving under one key leaves the rows of all other keys as they are.
pub proof fn lemma_save_keeps_other_rows(
    page: PageModel,
    key: Seq<u8>,
    value: Seq<u8>,
    other: Seq<u8>,
)
    requires
        page.well_formed(),
        le_value(other) != le_value(key),
        page.save(key, value) is Ok,
    ensures
        page.save(key, value)->Ok_0.get(other) == page.get(other),
{
    let saved = page.save(key, value)->Ok_0;
    lemma_save_keeps_order(page, key, value);
    if holds_key(page.entries, key) {
        let index = index_of_key(page.entries, key);
        if holds_key(page.entries, other) {
            let at = index_of_key(page.entries, other);
            assert(saved.entries[at] == page.entries[at]);
            lemma_key_found(saved.entries, other, at);
        } else if holds_key(saved.entries, other) {
            let at = index_of_key(saved.entries, other);
            assert(saved.entries[at].key == page.entries[at].key);
            assert(false);
        }
    } else {
        lemma_insertion_point_exists(page.entries, key);
        let index = insertion_point(page.entries, key);
        if holds_key(page.entries, other) {
            let at = index_of_key(page.entries, other);
            let after = if at < index {
                at
            } else {
                at + 1
            };
            assert(saved.entries[after] == page.entries[at]);
            lemma_key_found(saved.entries, other, after);
        } else if holds_key(saved.entries, other) {
            let at = index_of_key(saved.entries, other);
            let before = if at < index {
                at
            } else {
                at - 1
            };
            assert(at != index);
            assert(saved.entries[at] == page.entries[before]);
            assert(false);
        }
    }
}

/// Deleting one key leaves the rows of all other keys as they are.
pub proof fn lemma_delete_keeps_other_rows(page: PageModel, key: Seq<u8>, other: Seq<u8>)
    requires
        page.well_formed(),
        le_value(other) != le_value(key),
    ensures
        page.delete(key).get(other) == page.get(other),
{
    let left = page.delete(key);
    lemma_delete_keeps_order(page, key);
    if holds_key(page.entries, key) {
        let index = index_of_key(page.entries, key);
        if holds_key(page.entries, other) {
            let at = index_of_key(page.entries, other);
            let after = if at < index {
                at
            } else {
                at - 1
            };
            assert(at != index);
            assert(left.entries[after] == page.entries[at]);
            lemma_key_found(left.entries, other, after);
        } else if holds_key(left.entries, other) {
            let at = index_of_key(left.entries, other);
            let before = if at < index {
                at
            } else {
                at + 1
            };
            assert(left.entries[at] == page.entries[before]);
            assert(false);
        }
    }
}

/// A page as its bytes and the bounds of its free space.
#[verifier::ext_equal]
pub struct PageImage {
    /// The bytes of the header.
    pub header: Seq<u8>,
    /// The bytes of the body.
    pub body: Seq<u8>,
    /// Where the free space starts in the body.
    pub free_start: int,
    /// Where the free space ends and the slot map starts in the body.
    pub map_start: int,
}

impl PageImage {
    /// The rows in the order of the slot map.
    pub open spec fn entries(self) -> Seq<Entry> {
        entries_of(self.body, self.map_start)
    }

    /// The page as its rows and its free bytes.
    pub open spec fn model(self) -> PageModel {
        PageModel { entries: self.entries(), free: (self.map_start - self.free_start) as nat }
    }

    /// Whether the header counts the rows of the body, the body is well laid
    /// out, and the keys of the rows rise in the order of the slot map.
    pub open spec fn well_formed(self) -> bool {
        &&& self.header.len() == PAGE_HEADER_SIZE
        &&& layout_ok(self.body, self.free_start, self.map_start)
        &&& le16(self.header, 0) == slot_count_of(self.map_start)
        &&& keys_rise(self.entries())
    }

    /// Whether the rows stand one after the other from the start of the body
    /// up to the free space, as rows do that were written and never deleted.
    pub open spec fn packed(self) -> bool {
        rows_packed(self.body, self.free_start, self.map_start)
    }

    /// The page after `value` was saved under `key`, byte for byte. A page
    /// that cannot take the value stays as it is.
    pub open spec fn saved(self, key: Seq<u8>, value: Seq<u8>) -> PageImage {
        if holds_key(self.entries(), key) {
            let index = index_of_key(self.entries(), key);
            if value.len() == self.entries()[index].value.len() {
                PageImage {
                    body: body_with_value(self.body, self.map_start, index, value),
                    ..self
                }
            } else {
                self
            }
        } else if row_cost(key, value) <= self.map_start - self.free_start {
            PageImage {
                header: le16_bytes((slot_count_of(self.map_start) + 1) as u16),
                body: body_with_row(
                    self.body,
                    self.free_start,
                    self.map_start,
                    insertion_point(self.entries(), key),
                    key,
                    value,
                ),
                free_start: self.free_start + 4 + key.len() + value.len(),
                map_start: self.map_start - 2,
            }
        } else {
            self
        }
    }

    /// The page after the row with the key `key` was deleted, byte for byte.
    pub open spec fn deleted(self, key: Seq<u8>) -> PageImage {
        if holds_key(self.entries(), key) {
            PageImage {
                header: le16_bytes((slot_count_of(self.map_start) - 1) as u16),
                body: body_without_row(
                    self.body,
                    self.map_start,
                    index_of_key(self.entries(), key),
                ),
                map_start: self.map_start + 2,
                ..self
            }
        } else {
            self
        }
    }
}

/// The bytes of a page after a save hold the rows of the page after the
/// save: a well-formed page stays well-formed, and its rows and its free
/// bytes are those that the save gives, or those that it had if the value
/// was refused.
pub proof fn lemma_saved_image(image: PageImage, key: Seq<u8>, value: Seq<u8>)
    requires
        image.well_formed(),
    ensures
        image.saved(key, value).well_formed(),
        image.saved(key, value).model() == match image.model().save(key, value) {
            Ok(saved) => saved,
            Err(_) => image.model(),
        },
{
    lemma_save_keeps_order(image.model(), key, value);
    if holds_key(image.entries(), key) {
        let index = index_of_key(image.entries(), key);
        if value.len() == image.entries()[index].value.len() {
            lemma_row_updated(image.body, image.free_start, image.map_start, index, value);
        }
    } else if row_cost(key, value) <= image.map_start - image.free_start {
        lemma_insertion_point_exists(image.entries(), key);
        lemma_row_inserted(
            image.body,
            image.free_start,
            image.map_start,
            insertion_point(image.entries(), key),
            key,
            value,
        );
        let count = slot_count_of(image.map_start);
        let header = le16_bytes((count + 1) as u16);
        assert(le16(header, 0) == count + 1);
    }
}

/// The bytes of a page after a delete hold the rows of the page after the
/// delete, and a well-formed page stays well-formed.
pub proof fn lemma_deleted_image(image: PageImage, key: Seq<u8>)
    requires
        image.well_formed(),
    ensures
        image.deleted(key).well_formed(),
        image.deleted(key).model() == image.model().delete(key),
{
    lemma_delete_keeps_order(image.model(), key);
    if holds_key(image.entries(), key) {
        let index = index_of_key(image.entries(), key);
        lemma_row_removed(image.body, image.free_start, image.map_start, index);
        let count = slot_count_of(image.map_start);
        let header = le16_bytes((count - 1) as u16);
        assert(le16(header, 0) == count - 1);
    }
}

/// Saving leaves no gap between rows that had none.
pub proof fn lemma_saved_image_stays_packed(image: PageImage, key: Seq<u8>, value: Seq<u8>)
    requires
        image.well_formed(),
        image.packed(),
    ensures
        image.saved(key, value).packed(),
{
    if holds_key(image.entries(), key) {
        let index = index_of_key(image.entries(), key);
        if value.len() == image.entries()[index].value.len() {
            lemma_update_keeps_packed(image.body, image.free_start, image.map_start, index, value);
        }
    } else if row_cost(key, value) <= image.map_start - image.free_start {
        lemma_insertion_point_exists(image.entries(), key);
        lemma_insert_keeps_packed(
            image.body,
            image.free_start,
            image.map_start,
            insertion_point(image.entries(), key),
            key,
            value,
        );
    }
}

} // verus!
