use rusty_kv::store::btree_kv::pager::{PageId, Pager, PagerTrait, PAGE_SIZE};

#[test]
fn pager_test_create_and_get() {
    let mut pager = Pager::new();

    let data = [10, 20, 30];
    let mut page = [0u8; PAGE_SIZE];
    page[..data.len()].copy_from_slice(&data);

    let id = PageId { id: 10 };

    pager.write_page(id, &page);
    assert_eq!(&page, pager.read_page(id).unwrap().as_ref());
}

#[test]
fn pager_test_create_existing_key() {
    let mut pager = Pager::new();

    let data = [10, 20, 30];
    let mut page = [0u8; PAGE_SIZE];
    page[..data.len()].copy_from_slice(&data);

    let id = PageId { id: 10 };

    pager.write_page(id, &page);

    let new_data = [2, 10, 36];
    let mut new_page = [0u8; PAGE_SIZE];
    new_page[..new_data.len()].copy_from_slice(&new_data);

    pager.write_page(id, &new_page);
    assert_eq!(&new_page, pager.read_page(id).unwrap().as_ref());
}

#[test]
fn pager_fills_short_pages_with_zeros() {
    let mut pager = Pager::new();
    let id = PageId::new(3);
    pager.write_page(id, &[7, 8, 9]);
    let page = pager.read_page(id).unwrap();
    assert_eq!(&page[..3], &[7, 8, 9]);
    assert!(page[3..].iter().all(|byte| *byte == 0));
}

#[test]
fn pager_has_no_page_that_was_not_written() {
    let mut pager = Pager::new();
    assert!(pager.read_page(PageId::new(1)).is_none());
    pager.write_page(PageId::new(2), &[1]);
    assert!(pager.read_page(PageId::new(1)).is_none());
    assert!(pager.read_page(PageId::new(2)).is_some());
}
