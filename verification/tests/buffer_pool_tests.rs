use rusty_kv::store::btree_kv::buffer_pool::{BufferPoolManager, SLOT_COUNT};
use rusty_kv::store::btree_kv::pager::{PageId, Pager, PagerTrait, PAGE_SIZE};
use std::cell::Cell;
use std::rc::Rc;
use std::sync::Arc;

/// A pager that holds the same page under every identifier and counts what
/// is asked of it.
struct CountingPager {
    page: Arc<[u8; PAGE_SIZE]>,
    reads: Rc<Cell<usize>>,
    writes: Rc<Cell<usize>>,
}

impl CountingPager {
    fn new(page: [u8; PAGE_SIZE]) -> (Self, Rc<Cell<usize>>, Rc<Cell<usize>>) {
        let reads = Rc::new(Cell::new(0));
        let writes = Rc::new(Cell::new(0));
        let pager =
            CountingPager { page: Arc::new(page), reads: reads.clone(), writes: writes.clone() };
        (pager, reads, writes)
    }
}

impl PagerTrait for CountingPager {
    fn read_page(&self, _id: PageId) -> Option<Arc<[u8; PAGE_SIZE]>> {
        self.reads.set(self.reads.get() + 1);
        Some(Arc::clone(&self.page))
    }

    fn write_page(&mut self, _id: PageId, _data: &[u8]) {
        self.writes.set(self.writes.get() + 1);
    }
}

#[test]
fn test_get_page_from_disk() {
    // Setup test data
    let test_id = PageId::new(1);
    let test_data = [0u8; PAGE_SIZE];

    // Setup the pager
    let (pager, reads, _) = CountingPager::new(test_data);

    let mut buffer_pool = BufferPoolManager::new(pager);

    // Fetch page from buffer pool.
    let actual_data = buffer_pool.get_page(&test_id);

    // Assert that the right data is returned.
    assert_eq!(*actual_data, test_data);
    assert_eq!(reads.get(), 1);
}

#[test]
fn test_get_page_from_memory() {
    // Setup test data
    let test_id = PageId::new(1);
    let test_data = [0u8; PAGE_SIZE];

    // Setup the pager
    let (pager, reads, _) = CountingPager::new(test_data);

    let mut buffer_pool = BufferPoolManager::new(pager);

    // Fetch page from buffer pool.
    let actual_data = buffer_pool.get_page(&test_id);

    // Assert that the right data is returned.
    assert_eq!(*actual_data, test_data);

    // Fetch page from buffer pool, again.
    let actual_data = buffer_pool.get_page(&test_id);

    // Assert that the right data is returned.
    assert_eq!(*actual_data, test_data);

    // read_page should only be called once, first get_page call.
    assert_eq!(reads.get(), 1);
}

#[test]
fn test_get_page_evicts_lru() {
    // Setup test data
    let test_id = PageId::new(SLOT_COUNT as u8);

    // Setup the pager
    let (pager, _, writes) = CountingPager::new([0u8; PAGE_SIZE]);

    let mut buffer_pool = BufferPoolManager::new(pager);

    // Add test_id to buffer pool
    buffer_pool.get_page(&test_id);

    // Fill-up Buffer Pool
    for id in 1..SLOT_COUNT {
        buffer_pool.get_page(&PageId::new(id as u8));
    }

    // Verify test page exists in lookup.
    buffer_pool.is_page_in_lookup(&test_id);

    // Add another entry to buffer pool.
    let test_overflow_id = PageId::new((SLOT_COUNT + 1) as u8);
    buffer_pool.get_page(&test_overflow_id);

    // The first page should be removed from lookup.
    assert_eq!(buffer_pool.is_page_in_lookup(&test_id), false);
    // A page that was not written to does not go back to the pager.
    assert_eq!(writes.get(), 0);
}

#[test]
fn pool_over_a_pager_reads_the_pages_of_the_pager() {
    let mut pager = Pager::new();
    for id in 0..12u8 {
        pager.write_page(PageId::new(id), &[id, id, id]);
    }
    let mut buffer_pool = BufferPoolManager::new(pager);
    for id in 0..10u8 {
        let page = buffer_pool.get_page(&PageId::new(id));
        assert_eq!(&page[..4], &[id, id, id, 0]);
    }
    // Page 0 is used again, so that page 1 is the least recently used one.
    buffer_pool.get_page(&PageId::new(0));
    let page = buffer_pool.get_page(&PageId::new(10));
    assert_eq!(&page[..4], &[10, 10, 10, 0]);
    assert!(!buffer_pool.is_page_in_lookup(&PageId::new(1)));
    assert!(buffer_pool.is_page_in_lookup(&PageId::new(0)));
    for id in 2..11u8 {
        assert!(buffer_pool.is_page_in_lookup(&PageId::new(id)));
    }
    // Page 1 comes back from the pager and takes the frame of page 2.
    let page = buffer_pool.get_page(&PageId::new(1));
    assert_eq!(&page[..4], &[1, 1, 1, 0]);
    assert!(!buffer_pool.is_page_in_lookup(&PageId::new(2)));
}
