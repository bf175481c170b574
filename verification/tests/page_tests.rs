use rusty_kv::store::btree_kv::commons::PAGE_SIZE;
use rusty_kv::store::btree_kv::constants::page_constants::{
    KEY_SIZE_OFFSET, KEY_SIZE_SIZE, ROW_HEADER_SIZE, VALUE_SIZE_OFFSET, VALUE_SIZE_SIZE,
};
use rusty_kv::store::btree_kv::error::RustyKVError;
use rusty_kv::store::btree_kv::helpers::row_helper::btree_row;
use rusty_kv::store::btree_kv::page::{
    BTreeBodyData, BTreePage, BTreePageFreeSpace, BTreePageHeader, BTreePageSlotMap, BTreeRow,
    RowResult,
};
use rusty_kv::store::btree_kv::page_layout::{PAGE_BODY_SIZE, PAGE_HEADER_SIZE};

#[test]
fn test_page_header_from() {
    let mut frame = [0u8; PAGE_SIZE];
    frame[0..2].copy_from_slice([10u8, 0u8].as_ref());

    let header = BTreePageHeader::from((&mut frame[0..PAGE_HEADER_SIZE]).try_into().unwrap());

    // Header values from BTreePageHeader view
    assert_eq!(header.get_slot_count(), 10);
}

#[test]
fn test_page_header_get_slot_count() {
    let mut frame = [0u8; PAGE_SIZE];
    frame[0..2].copy_from_slice([10u8, 0u8].as_ref());
    let header = BTreePageHeader::from((&mut frame[0..PAGE_HEADER_SIZE]).try_into().unwrap());
    assert_eq!(header.get_slot_count(), 10);
}

#[test]
fn test_page_header_set_slot_count() {
    let mut frame = [0u8; PAGE_SIZE];
    frame[0..2].copy_from_slice([10u8, 0u8].as_ref());
    let mut header = BTreePageHeader::from((&mut frame[0..PAGE_HEADER_SIZE]).try_into().unwrap());
    assert_eq!(header.get_slot_count(), 10);
    header.set_slot_count(20);
    assert_eq!(header.get_slot_count(), 20);
}

#[test]
fn test_page_header_increase_slot_count() {
    let mut frame = [0u8; PAGE_SIZE];
    frame[0..2].copy_from_slice([10u8, 0u8].as_ref());
    let mut header = BTreePageHeader::from((&mut frame[0..PAGE_HEADER_SIZE]).try_into().unwrap());
    assert_eq!(header.get_slot_count(), 10);
    header.increase_slot_count(20);
    assert_eq!(header.get_slot_count(), 30);
}

#[test]
fn page_header_decrease_slot_count() {
    let mut frame = [0u8; PAGE_SIZE];
    let mut header = BTreePageHeader::from(&mut frame[0..PAGE_HEADER_SIZE]);
    header.set_slot_count(300);
    header.decrease_slot_count(45);
    assert_eq!(header.get_slot_count(), 255);
    header.decrease_slot_count(255);
    assert_eq!(header.get_slot_count(), 0);
}

#[test]
fn page_header_is_little_endian() {
    let mut frame = [0u8; PAGE_SIZE];
    {
        let mut header = BTreePageHeader::from(&mut frame[0..PAGE_HEADER_SIZE]);
        header.set_slot_count(0x1234);
    }
    assert_eq!(&frame[0..2], &[0x34, 0x12]);
    assert!(frame[2..].iter().all(|byte| *byte == 0));
}

#[test]
fn page_test_row_updates_in_place() {
    const KEY: [u8; 2] = 15u16.to_le_bytes();
    const VALUE: [u8; 2] = 20u16.to_le_bytes();

    let mut row = [0u8; KEY.len() + VALUE.len() + ROW_HEADER_SIZE];
    let mut btree_row = BTreeRow::from(0);

    btree_row.set_key(&KEY, &mut row);
    btree_row.set_value(&VALUE, &mut row);

    // Value from the view
    assert_eq!(btree_row.get_key_size(&row), KEY.len());
    assert_eq!(btree_row.get_value_size(&row), VALUE.len());
    assert_eq!(btree_row.get_key(&row), KEY);
    assert_eq!(btree_row.get_value(&row), VALUE);

    // Value from the byte array
    assert_eq!(
        u16::from_le_bytes(
            (&row[BTreeRow::KEY_SIZE_OFFSET..BTreeRow::KEY_SIZE_OFFSET + KEY_SIZE_SIZE])
                .try_into()
                .unwrap()
        ),
        KEY.len() as u16
    );
    assert_eq!(
        u16::from_le_bytes(
            (&row[BTreeRow::VALUE_SIZE_OFFSET..BTreeRow::VALUE_SIZE_OFFSET + VALUE_SIZE_SIZE])
                .try_into()
                .unwrap()
        ),
        VALUE.len() as u16
    );
    assert_eq!(&row[ROW_HEADER_SIZE..ROW_HEADER_SIZE + KEY.len()], KEY);
    assert_eq!(
        &row[ROW_HEADER_SIZE + KEY.len()..ROW_HEADER_SIZE + KEY.len() + VALUE.len()],
        VALUE
    );
}

#[test]
fn row_helper_test_row_updates_in_place() {
    const KEY: [u8; 2] = 15u16.to_le_bytes();
    const VALUE: [u8; 2] = 20u16.to_le_bytes();

    let mut row = [0u8; KEY.len() + VALUE.len() + ROW_HEADER_SIZE];
    let mut header_bytes = &mut row[0..ROW_HEADER_SIZE];
    assert_eq!(btree_row::get_key_size(&header_bytes), 0);
    assert_eq!(btree_row::get_value_size(&header_bytes), 0);

    btree_row::set_key_size(&mut header_bytes, KEY.len() as u16);
    btree_row::set_value_size(&mut header_bytes, VALUE.len() as u16);

    // Value from the view
    assert_eq!(btree_row::get_key_size(&header_bytes), KEY.len());
    assert_eq!(btree_row::get_value_size(&header_bytes), VALUE.len());

    // Value from the byte array
    assert_eq!(
        u16::from_le_bytes(
            (&header_bytes[KEY_SIZE_OFFSET..KEY_SIZE_OFFSET + KEY_SIZE_SIZE])
                .try_into()
                .unwrap()
        ),
        KEY.len() as u16
    );
    assert_eq!(
        u16::from_le_bytes(
            (&header_bytes[VALUE_SIZE_OFFSET..VALUE_SIZE_OFFSET + VALUE_SIZE_SIZE])
                .try_into()
                .unwrap()
        ),
        VALUE.len() as u16
    );

    btree_row::set_key(&mut row, &KEY);
    btree_row::set_value(&mut row, &VALUE);

    // Value from the view
    assert_eq!(btree_row::get_key(&row), KEY);
    assert_eq!(btree_row::get_value(&row), VALUE);

    // Value from the byte array
    assert_eq!(&row[ROW_HEADER_SIZE..ROW_HEADER_SIZE + KEY.len()], KEY);
    assert_eq!(
        &row[ROW_HEADER_SIZE + KEY.len()..ROW_HEADER_SIZE + KEY.len() + VALUE.len()],
        VALUE
    );
}

#[test]
fn row_helper_reports_the_size_of_a_row() {
    let mut row = [0u8; 9];
    btree_row::set_key_size(&mut row, 2);
    btree_row::set_value_size(&mut row, 3);
    assert_eq!(btree_row::get_slot_size(&row), 9);
    btree_row::set_key(&mut row, &[1, 2]);
    btree_row::set_value(&mut row, &[3, 4, 5]);
    assert_eq!(row, [2, 0, 3, 0, 1, 2, 3, 4, 5]);
}

#[test]
fn row_at_an_offset_leaves_its_surroundings_alone() {
    let mut body = [0xAAu8; 32];
    let mut row = BTreeRow::from(5);
    row.set_key(b"key", &mut body);
    row.set_value(b"value", &mut body);
    assert_eq!(row.get_size(&body), 4 + 3 + 5);
    assert_eq!(&body[..5], &[0xAA; 5]);
    assert_eq!(&body[5..9], &[3, 0, 5, 0]);
    assert_eq!(&body[9..12], b"key");
    assert_eq!(&body[12..17], b"value");
    assert_eq!(&body[17..], &[0xAA; 15]);
    row.clear_row(&mut body);
    assert_eq!(&body[..5], &[0xAA; 5]);
    assert_eq!(&body[5..17], &[0; 12]);
    assert_eq!(&body[17..], &[0xAA; 15]);
}

#[test]
fn row_lengths_are_little_endian() {
    let mut body = [0u8; 8];
    let mut row = BTreeRow::from(2);
    row.set_key_size(0x0102, &mut body);
    row.set_value_size(0x0304, &mut body);
    assert_eq!(body, [0, 0, 2, 1, 4, 3, 0, 0]);
    assert_eq!(row.get_key_size(&body), 0x0102);
    assert_eq!(row.get_value_size(&body), 0x0304);
}

#[test]
fn free_space_hands_out_rows_from_below_and_slots_from_above() {
    let mut free_space = BTreePageFreeSpace::from(10, 100);
    assert_eq!(free_space.get_size(), 90);
    assert_eq!(free_space.allocate_row_space(20), (10, 30));
    assert_eq!(free_space.get_size(), 70);
    assert_eq!(free_space.allocate_slot_map_space(), (98, 100));
    assert_eq!(free_space.get_size(), 68);
    assert_eq!((free_space.start, free_space.end), (30, 98));
    free_space.deallocate_slot_map_space();
    assert_eq!((free_space.start, free_space.end), (30, 100));
}

#[test]
fn slot_map_inserts_and_deletes_by_shifting() {
    let mut body = [0u8; 20];
    let mut free_space = BTreePageFreeSpace::from(0, 20);
    let mut slot_map = BTreePageSlotMap::from(20);
    slot_map.insert_slot_element(&mut free_space, &mut body, 0x0101, 0);
    slot_map.insert_slot_element(&mut free_space, &mut body, 0x0303, 1);
    slot_map.insert_slot_element(&mut free_space, &mut body, 0x0202, 1);
    slot_map.insert_slot_element(&mut free_space, &mut body, 0x0404, 3);
    assert_eq!((slot_map.start, free_space.end), (12, 12));
    assert_eq!(&body[12..], &[1, 1, 2, 2, 3, 3, 4, 4]);
    assert_eq!(slot_map.get_slot_map_element(2, &body), &[3, 3]);

    // Taking out the element 2 moves the elements 0 and 1 up.
    slot_map.delete_slot_map_element(2, &mut body, &mut free_space);
    assert_eq!((slot_map.start, free_space.end), (14, 14));
    assert_eq!(&body[14..], &[1, 1, 2, 2, 4, 4]);

    // Taking out the last element moves all the others.
    slot_map.delete_slot_map_element(2, &mut body, &mut free_space);
    assert_eq!(&body[16..], &[1, 1, 2, 2]);

    // Taking out the first element moves nothing.
    slot_map.delete_slot_map_element(0, &mut body, &mut free_space);
    assert_eq!(&body[18..], &[2, 2]);
    assert_eq!((slot_map.start, free_space.end), (18, 18));
}

#[test]
fn test_btree_page_inplace() {
    let mut data: [u8; PAGE_SIZE] = [0; PAGE_SIZE];
    let mut page = BTreePage::from(&mut data);

    page.save(b"def", b"bar").unwrap();
    page.save(b"abc", b"baz").unwrap();
    page.save(b"abc", b"qux").unwrap();

    let page = BTreePage::from(&mut data);
    assert_eq!(page.get(b"abc").unwrap().get_value(), b"qux");
    assert_eq!(page.get(b"def").unwrap().get_value(), b"bar");
}

#[test]
fn test_btree_page_delete() {
    let mut data: [u8; PAGE_SIZE] = [0; PAGE_SIZE];
    let mut page = BTreePage::from(&mut data);
    page.save(b"def", b"bar").unwrap();
    page.save(b"abc", b"baz").unwrap();
    page.delete(b"abc").unwrap();
    assert!(page.get(b"abc").is_none());
    assert_eq!(page.get(b"def").unwrap().get_value(), b"bar");
}

#[test]
fn page_bytes_after_two_saves() {
    let mut data: [u8; PAGE_SIZE] = [0; PAGE_SIZE];
    {
        let mut page = BTreePage::from(&mut data);
        page.save(b"def", b"bar").unwrap();
        page.save(b"abc", b"baz").unwrap();
    }
    // The header counts two rows.
    assert_eq!(&data[0..2], &[2, 0]);
    // The rows stand in the order in which they were saved.
    assert_eq!(&data[2..12], &[3, 0, 3, 0, b'd', b'e', b'f', b'b', b'a', b'r']);
    assert_eq!(&data[12..22], &[3, 0, 3, 0, b'a', b'b', b'c', b'b', b'a', b'z']);
    // The free space is untouched.
    assert!(data[22..PAGE_SIZE - 4].iter().all(|byte| *byte == 0));
    // The slot map stands in the order of the keys: "abc" at 10, "def" at 0.
    assert_eq!(&data[PAGE_SIZE - 4..], &[10, 0, 0, 0]);
}

#[test]
fn round_trip_of_one_row() {
    let mut data = [0u8; PAGE_SIZE];
    let mut page = BTreePage::from(&mut data);
    let key = [1u8, 2, 3, 4, 5];
    let value = [9u8; 100];
    assert_eq!(page.save(&key, &value), Ok(()));
    let row = page.get(&key).unwrap();
    assert_eq!(row.get_key(), &key);
    assert_eq!(row.get_value(), &value);
}

#[test]
fn round_trip_of_empty_key_and_empty_value() {
    let mut data = [0u8; PAGE_SIZE];
    let mut page = BTreePage::from(&mut data);
    assert!(page.get(b"").is_none());
    assert_eq!(page.save(b"", b""), Ok(()));
    let row = page.get(b"").unwrap();
    assert_eq!(row.get_key(), b"");
    assert_eq!(row.get_value(), b"");
    assert_eq!(page.header.get_slot_count(), 1);
}

#[test]
fn second_save_replaces_the_value_and_keeps_the_slot_count() {
    let mut data = [0u8; PAGE_SIZE];
    let mut page = BTreePage::from(&mut data);
    page.save(b"k", b"first").unwrap();
    assert_eq!(page.header.get_slot_count(), 1);
    page.save(b"k", b"later").unwrap();
    assert_eq!(page.header.get_slot_count(), 1);
    assert_eq!(page.get(b"k").unwrap().get_value(), b"later");
}

#[test]
fn value_of_another_length_is_refused() {
    let mut data = [0u8; PAGE_SIZE];
    let mut page = BTreePage::from(&mut data);
    page.save(b"k", b"four").unwrap();
    assert_eq!(page.save(b"k", b"three"), Err(RustyKVError::InsufficientSpace));
    assert_eq!(page.save(b"k", b"two"), Err(RustyKVError::InsufficientSpace));
    assert_eq!(page.get(b"k").unwrap().get_value(), b"four");
    assert_eq!(page.header.get_slot_count(), 1);
}

#[test]
fn keys_that_differ_in_trailing_zeros_are_one_key() {
    let mut data = [0u8; PAGE_SIZE];
    let mut page = BTreePage::from(&mut data);
    page.save(&[7, 8], b"aa").unwrap();
    // The same key with a zero byte behind it finds the row and updates it.
    assert_eq!(page.get(&[7, 8, 0]).unwrap().get_value(), b"aa");
    page.save(&[7, 8, 0], b"bb").unwrap();
    assert_eq!(page.header.get_slot_count(), 1);
    let row = page.get(&[7, 8]).unwrap();
    // The row keeps the key that it was saved with first.
    assert_eq!(row.get_key(), &[7, 8]);
    assert_eq!(row.get_value(), b"bb");
}

#[test]
fn deleted_key_is_gone_and_the_others_stay() {
    let mut data = [0u8; PAGE_SIZE];
    let mut page = BTreePage::from(&mut data);
    page.save(&[1], b"one").unwrap();
    page.save(&[2], b"two").unwrap();
    page.save(&[3], b"three").unwrap();
    page.save(&[4], b"four").unwrap();
    // The row of the key 3 is the element 2 of the slot map.
    assert_eq!(page.delete(&[3]), Ok(()));
    assert!(page.get(&[3]).is_none());
    assert_eq!(page.get(&[1]).unwrap().get_value(), b"one");
    assert_eq!(page.get(&[2]).unwrap().get_value(), b"two");
    assert_eq!(page.get(&[4]).unwrap().get_value(), b"four");
    assert_eq!(page.header.get_slot_count(), 3);
    // The last element of the slot map.
    assert_eq!(page.delete(&[4]), Ok(()));
    assert!(page.get(&[4]).is_none());
    assert_eq!(page.get(&[1]).unwrap().get_value(), b"one");
    assert_eq!(page.get(&[2]).unwrap().get_value(), b"two");
    assert_eq!(page.header.get_slot_count(), 2);
}

#[test]
fn delete_of_an_absent_key_changes_nothing() {
    let mut data = [0u8; PAGE_SIZE];
    {
        let mut page = BTreePage::from(&mut data);
        page.save(b"abc", b"baz").unwrap();
    }
    let before = data;
    {
        let mut page = BTreePage::from(&mut data);
        assert_eq!(page.delete(b"xyz"), Ok(()));
    }
    assert_eq!(data, before);
}

#[test]
fn deleted_row_is_zeroed_and_only_its_slot_is_given_back() {
    let mut data = [0u8; PAGE_SIZE];
    {
        let mut page = BTreePage::from(&mut data);
        page.save(b"abc", b"baz").unwrap();
        let free = page.body.free_space.get_size();
        assert_eq!(free, PAGE_BODY_SIZE - 10 - 2);
        page.delete(b"abc").unwrap();
        assert_eq!(page.body.free_space.get_size(), free + 2);
        assert_eq!(page.body.free_space.start, 10);
    }
    assert_eq!(&data[0..2], &[0, 0]);
    assert!(data[2..12].iter().all(|byte| *byte == 0));
}

#[test]
fn full_page_refuses_and_keeps_its_rows() {
    let mut data = [0u8; PAGE_SIZE];
    let mut page = BTreePage::from(&mut data);
    let value = [0x5Au8; 100];
    let mut saved: Vec<u16> = Vec::new();
    let mut key: u16 = 1;
    // Each row costs 4 + 2 + 100 bytes and 2 bytes of the slot map.
    loop {
        let free = page.body.free_space.get_size();
        let result = page.save(&key.to_le_bytes(), &value);
        if free >= 108 {
            assert_eq!(result, Ok(()));
            saved.push(key);
            key += 1;
        } else {
            assert_eq!(result, Err(RustyKVError::InsufficientSpace));
            break;
        }
    }
    assert_eq!(saved.len(), PAGE_BODY_SIZE / 108);
    assert_eq!(page.header.get_slot_count() as usize, saved.len());
    for key in saved {
        assert_eq!(page.get(&key.to_le_bytes()).unwrap().get_value(), &value);
    }
    assert!(page.get(&key.to_le_bytes()).is_none());
}

#[test]
fn row_that_fills_the_page_exactly_is_taken() {
    let value = vec![1u8; PAGE_BODY_SIZE - 4 - 3 - 2];
    let mut data = [0u8; PAGE_SIZE];
    let mut page = BTreePage::from(&mut data);
    assert_eq!(page.save(b"key", &value), Ok(()));
    assert_eq!(page.body.free_space.get_size(), 0);
    assert_eq!(page.get(b"key").unwrap().get_value(), &value[..]);
    assert_eq!(page.save(b"", b""), Err(RustyKVError::InsufficientSpace));
    assert_eq!(page.header.get_slot_count(), 1);
}

#[test]
fn row_that_is_one_byte_too_long_is_refused() {
    let value = vec![1u8; PAGE_BODY_SIZE - 4 - 3 - 2 + 1];
    let mut data = [0u8; PAGE_SIZE];
    {
        let mut page = BTreePage::from(&mut data);
        assert_eq!(page.save(b"key", &value), Err(RustyKVError::InsufficientSpace));
        assert_eq!(page.header.get_slot_count(), 0);
        assert!(page.get(b"key").is_none());
    }
    assert_eq!(data, [0u8; PAGE_SIZE]);
}

#[test]
fn key_longer_than_a_page_is_refused() {
    let key = vec![1u8; 70000];
    let mut data = [0u8; PAGE_SIZE];
    let mut page = BTreePage::from(&mut data);
    assert_eq!(page.save(&key, b"v"), Err(RustyKVError::InsufficientSpace));
    assert_eq!(page.save(b"k", &key), Err(RustyKVError::InsufficientSpace));
    assert_eq!(page.header.get_slot_count(), 0);
}

#[test]
fn slot_map_stays_sorted_whatever_the_order_of_the_saves() {
    let keys: [u16; 9] = [500, 3, 77, 256, 1, 65535, 255, 2, 1000];
    let mut data = [0u8; PAGE_SIZE];
    {
        let mut page = BTreePage::from(&mut data);
        for key in keys {
            page.save(&key.to_le_bytes(), &key.to_be_bytes()).unwrap();
        }
        page.delete(&77u16.to_le_bytes()).unwrap();
        page.save(&300u16.to_le_bytes(), &300u16.to_be_bytes()).unwrap();
        for key in [500u16, 3, 256, 1, 65535, 255, 2, 1000, 300] {
            assert_eq!(page.get(&key.to_le_bytes()).unwrap().get_value(), &key.to_be_bytes());
        }
        assert!(page.get(&77u16.to_le_bytes()).is_none());
    }
    // The keys of the rows, read in the order of the slot map, rise.
    let count = u16::from_le_bytes([data[0], data[1]]) as usize;
    assert_eq!(count, 9);
    let body = &data[PAGE_HEADER_SIZE..];
    let map_start = PAGE_BODY_SIZE - 2 * count;
    let mut in_order: Vec<u16> = Vec::new();
    for index in 0..count {
        let at = map_start + 2 * index;
        let offset = u16::from_le_bytes([body[at], body[at + 1]]) as usize;
        assert_eq!(&body[offset..offset + 4], &[2, 0, 2, 0]);
        in_order.push(u16::from_le_bytes([body[offset + 4], body[offset + 5]]));
    }
    assert_eq!(in_order, vec![1, 2, 3, 255, 256, 300, 500, 1000, 65535]);
}

#[test]
fn search_finds_keys_and_insertion_points() {
    let mut data = [0u8; PAGE_SIZE];
    let mut page = BTreePage::from(&mut data);
    for key in [10u8, 20, 30, 40] {
        page.save(&[key], &[key]).unwrap();
    }
    assert_eq!(page.body.search(&[10], 0, 4), Ok(0));
    assert_eq!(page.body.search(&[40], 0, 4), Ok(3));
    assert_eq!(page.body.search(&[5], 0, 4), Err(0));
    assert_eq!(page.body.search(&[25], 0, 4), Err(2));
    assert_eq!(page.body.search(&[45], 0, 4), Err(4));
    // Only the elements of the range are looked at.
    assert_eq!(page.body.search(&[10], 1, 3), Err(1));
    assert_eq!(page.body.search(&[30], 1, 3), Ok(2));
    assert_eq!(page.body.search(&[40], 1, 3), Err(3));
    assert_eq!(page.body.search(&[30], 2, 2), Err(2));
}

#[test]
fn body_get_reports_a_missing_key() {
    let mut data = [0u8; PAGE_SIZE];
    let mut page = BTreePage::from(&mut data);
    page.save(b"abc", b"baz").unwrap();
    assert_eq!(page.body.get(b"abd", &page.header), Err(RustyKVError::ItemNotFound));
    let row = page.body.get(b"abc", &page.header).unwrap();
    assert_eq!(row, &[3, 0, 3, 0, b'a', b'b', b'c', b'b', b'a', b'z']);
    let row = RowResult::from(row);
    assert_eq!(row.get_key(), b"abc");
    assert_eq!(row.get_value(), b"baz");
}

#[test]
fn body_is_reopened_where_its_rows_end() {
    let mut data = [0u8; PAGE_SIZE];
    {
        let mut page = BTreePage::from(&mut data);
        page.save(b"def", b"bar").unwrap();
        page.save(b"abc", b"bazz").unwrap();
    }
    let (header_bytes, body_bytes) = data.split_at_mut(PAGE_HEADER_SIZE);
    let header = BTreePageHeader::from(header_bytes);
    let body = BTreeBodyData::from(body_bytes, &header);
    assert_eq!(body.free_space.start, 10 + 11);
    assert_eq!(body.free_space.end, PAGE_BODY_SIZE - 4);
    assert_eq!(body.slot_map.start, PAGE_BODY_SIZE - 4);
}
