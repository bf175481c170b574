use rusty_kv::store::btree_kv::buffer_pool_manager::{BufferPoolManager, PoolAction, PoolEvent};
use rusty_kv::store::btree_kv::commons::{PageId, PAGE_SIZE};

fn page_of(byte: u8) -> [u8; PAGE_SIZE] {
    [byte; PAGE_SIZE]
}

/// Asks for a page as a driver without dirty pages does: the page is read if
/// the pool asks for it. Returns the slot that serves the page.
fn fetch(pool: &mut BufferPoolManager, page_id: PageId, on_disk: u8) -> usize {
    match pool.step(PoolEvent::Requested(page_id)) {
        PoolAction::Serve(slot) => slot,
        PoolAction::Read(asked) => {
            assert!(asked == page_id);
            match pool.step(PoolEvent::Loaded(page_id, page_of(on_disk))) {
                PoolAction::Serve(slot) => slot,
                _ => panic!("a clean pool serves a page that was read"),
            }
        }
        _ => panic!("a request is served or read"),
    }
}

#[test]
fn test_buffer_pool_creation() {
    let bpm = BufferPoolManager::new(16000);
    assert_eq!(bpm.capacity(), 16000);
    assert_eq!(bpm.slot_count(), 2); // 16000 / 8000 = 2 slots
    assert_eq!(bpm.vacant_count(), 2);
    assert_eq!(BufferPoolManager::new(7999).slot_count(), 0);
    assert_eq!(BufferPoolManager::new(8000).slot_count(), 1);
    assert_eq!(BufferPoolManager::new(23999).slot_count(), 2);
}

#[test]
fn test_get_page_cache_miss() {
    let mut bpm = BufferPoolManager::new(8000);
    let page_id = PageId::new(0);

    assert!(matches!(bpm.step(PoolEvent::Requested(page_id)), PoolAction::Read(id) if id == page_id));
    assert!(!bpm.is_page_in_lookup(&page_id));
    assert_eq!(bpm.vacant_count(), 1);

    let action = bpm.step(PoolEvent::Loaded(page_id, page_of(5)));
    assert!(matches!(action, PoolAction::Serve(0)));
    assert!(bpm.is_page_in_lookup(&page_id));
    assert_eq!(bpm.vacant_count(), 0);

    let handler = bpm.frame_handler(0);
    assert_eq!(*handler.get_data(), page_of(5));
    assert_eq!(handler.is_dirty(), false);
}

#[test]
fn test_get_page_cache_hit() {
    let mut bpm = BufferPoolManager::new(8000);
    let page_id = PageId::new(0);
    let slot = fetch(&mut bpm, page_id, 5);

    // Second access
    assert!(matches!(bpm.step(PoolEvent::Requested(page_id)), PoolAction::Serve(s) if s == slot));
    assert!(bpm.is_page_in_lookup(&page_id));
    assert_eq!(bpm.vacant_count(), 0);
    assert!(bpm.get(page_id).is_some());
    assert!(bpm.get(PageId::new(1)).is_none());
}

#[test]
fn test_eviction() {
    let mut bpm = BufferPoolManager::new(8000); // Only 1 slot

    let page1 = PageId::new(0);
    let page2 = PageId::new(1);

    // Fill the buffer pool
    fetch(&mut bpm, page1, 1);
    assert!(bpm.is_page_in_lookup(&page1));

    // This should trigger eviction
    fetch(&mut bpm, page2, 2);
    assert!(bpm.is_page_in_lookup(&page2));
    assert!(!bpm.is_page_in_lookup(&page1));
    assert_eq!(*bpm.get(page2).unwrap().get_data(), page_of(2));
}

#[test]
fn vacant_slots_are_used_from_the_last_to_the_first() {
    let mut bpm = BufferPoolManager::new(3 * PAGE_SIZE);
    assert_eq!(fetch(&mut bpm, PageId::new(10), 0), 2);
    assert_eq!(fetch(&mut bpm, PageId::new(11), 0), 1);
    assert_eq!(fetch(&mut bpm, PageId::new(12), 0), 0);
    assert_eq!(bpm.vacant_count(), 0);
}

#[test]
fn least_recently_used_page_is_evicted_and_no_other() {
    let mut bpm = BufferPoolManager::new(3 * PAGE_SIZE);
    for id in 0..3 {
        fetch(&mut bpm, PageId::new(id), id as u8);
    }
    // Page 3 takes the slot of page 0.
    fetch(&mut bpm, PageId::new(3), 3);
    assert!(!bpm.is_page_in_lookup(&PageId::new(0)));
    for id in 1..4 {
        assert!(bpm.is_page_in_lookup(&PageId::new(id)));
    }
    // Page 1 is used again, so that page 2 is the least recently used one.
    fetch(&mut bpm, PageId::new(1), 1);
    fetch(&mut bpm, PageId::new(4), 4);
    assert!(!bpm.is_page_in_lookup(&PageId::new(2)));
    for id in [1, 3, 4] {
        assert!(bpm.is_page_in_lookup(&PageId::new(id)));
        assert_eq!(*bpm.get(PageId::new(id)).unwrap().get_data(), page_of(id as u8));
    }
}

#[test]
fn dirty_page_is_written_before_its_slot_is_used_again() {
    let mut bpm = BufferPoolManager::new(8000);
    let page1 = PageId::new(0);
    let page2 = PageId::new(1);
    let slot = fetch(&mut bpm, page1, 1);
    bpm.frame_handler(slot).set_data(page_of(9));

    assert!(matches!(bpm.step(PoolEvent::Requested(page2)), PoolAction::Read(id) if id == page2));
    match bpm.step(PoolEvent::Loaded(page2, page_of(2))) {
        PoolAction::Write(page_id, frame) => {
            // The bytes that go to the file are those that were in memory.
            assert!(page_id == page1);
            assert_eq!(*frame.data, page_of(9));
        }
        _ => panic!("a dirty page is written back"),
    }
    assert!(bpm.has_pending_write());
    assert!(!bpm.is_page_in_lookup(&page1));
    assert!(!bpm.is_page_in_lookup(&page2));
    assert!(bpm.get(page2).is_none());

    assert!(matches!(bpm.step(PoolEvent::Written), PoolAction::Serve(s) if s == slot));
    assert!(!bpm.has_pending_write());
    assert!(bpm.is_page_in_lookup(&page2));
    let handler = bpm.frame_handler(slot);
    assert_eq!(*handler.get_data(), page_of(2));
    assert_eq!(handler.is_dirty(), false);
}

#[test]
fn clean_page_is_evicted_without_a_write() {
    let mut bpm = BufferPoolManager::new(8000);
    fetch(&mut bpm, PageId::new(0), 1);
    assert!(matches!(
        bpm.step(PoolEvent::Loaded(PageId::new(1), page_of(2))),
        PoolAction::Serve(0)
    ));
    assert!(!bpm.has_pending_write());
}

#[test]
fn pool_insists_on_the_outstanding_write() {
    let mut bpm = BufferPoolManager::new(8000);
    let slot = fetch(&mut bpm, PageId::new(0), 1);
    bpm.frame_handler(slot).set_data(page_of(9));
    assert!(matches!(
        bpm.step(PoolEvent::Loaded(PageId::new(1), page_of(2))),
        PoolAction::Write(..)
    ));
    // Until the write is reported, every request is answered with it.
    match bpm.step(PoolEvent::Requested(PageId::new(5))) {
        PoolAction::Write(page_id, frame) => {
            assert_eq!(page_id.value(), 0);
            assert_eq!(*frame.data, page_of(9));
        }
        _ => panic!("the write is outstanding"),
    }
    assert!(matches!(
        bpm.step(PoolEvent::Loaded(PageId::new(5), page_of(5))),
        PoolAction::Write(..)
    ));
    assert!(matches!(bpm.step(PoolEvent::Written), PoolAction::Serve(0)));
    assert!(bpm.is_page_in_lookup(&PageId::new(1)));
    assert!(!bpm.is_page_in_lookup(&PageId::new(5)));
}

#[test]
fn report_of_a_write_that_was_not_asked_for_is_ignored() {
    let mut bpm = BufferPoolManager::new(16000);
    assert!(matches!(bpm.step(PoolEvent::Written), PoolAction::Idle));
    fetch(&mut bpm, PageId::new(0), 1);
    assert!(matches!(bpm.step(PoolEvent::Written), PoolAction::Idle));
    assert!(bpm.is_page_in_lookup(&PageId::new(0)));
    assert_eq!(bpm.vacant_count(), 1);
}

#[test]
fn page_that_is_loaded_twice_is_served_from_memory() {
    let mut bpm = BufferPoolManager::new(16000);
    let slot = fetch(&mut bpm, PageId::new(0), 1);
    assert!(matches!(
        bpm.step(PoolEvent::Loaded(PageId::new(0), page_of(7))),
        PoolAction::Serve(s) if s == slot
    ));
    assert_eq!(*bpm.frame_handler(slot).get_data(), page_of(1));
    assert_eq!(bpm.vacant_count(), 1);
}
