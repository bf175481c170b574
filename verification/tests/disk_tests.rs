use rusty_kv::store::btree_kv::commons::{PageId, PAGE_SIZE};
use rusty_kv::store::btree_kv::disk_manager::DiskManager;

#[test]
fn pages_are_counted_from_the_length_of_the_file() {
    assert_eq!(DiskManager::new(0).num_pages(), 0);
    assert_eq!(DiskManager::new(7999).num_pages(), 0);
    assert_eq!(DiskManager::new(8000).num_pages(), 1);
    assert_eq!(DiskManager::new(16000).num_pages(), 2);
    assert_eq!(DiskManager::new(23999).num_pages(), 2);
}

#[test]
fn new_pages_follow_the_pages_of_the_file() {
    let mut disk_manager = DiskManager::new(16001);
    assert_eq!(disk_manager.allocate_page().value(), 2);
    assert_eq!(disk_manager.allocate_page().value(), 3);
    assert_eq!(disk_manager.allocate_page().value(), 4);
    assert_eq!(disk_manager.num_pages(), 5);
}

#[test]
fn page_stands_at_its_identifier_times_the_page_size() {
    assert_eq!(DiskManager::page_offset(&PageId::new(0)), Some(0));
    assert_eq!(DiskManager::page_offset(&PageId::new(1)), Some(8000));
    assert_eq!(DiskManager::page_offset(&PageId::new(3)), Some(24000));
    assert_eq!(
        DiskManager::page_offset(&PageId::new(u64::MAX / 8000)),
        Some(u64::MAX / 8000 * 8000)
    );
    assert_eq!(DiskManager::page_offset(&PageId::new(u64::MAX / 8000 + 1)), None);
    assert_eq!(DiskManager::page_offset(&PageId::invalid()), None);
}

#[test]
fn read_beyond_the_end_of_the_file_gives_a_zero_page() {
    let mut buffer = [0xEEu8; PAGE_SIZE];
    assert_eq!(DiskManager::after_read(&mut buffer, 0, 0), None);
    assert_eq!(buffer, [0u8; PAGE_SIZE]);
}

#[test]
fn short_read_is_filled_up_with_zeros() {
    let mut buffer = [0xEEu8; PAGE_SIZE];
    // A first read brought 100 bytes, a second one 50, a third one none.
    assert_eq!(DiskManager::after_read(&mut buffer, 0, 100), Some(100));
    assert_eq!(DiskManager::after_read(&mut buffer, 100, 50), Some(150));
    assert_eq!(buffer, [0xEEu8; PAGE_SIZE]);
    assert_eq!(DiskManager::after_read(&mut buffer, 150, 0), None);
    assert_eq!(&buffer[..150], &[0xEEu8; 150]);
    assert!(buffer[150..].iter().all(|byte| *byte == 0));
}

#[test]
fn full_read_is_complete_and_keeps_the_bytes() {
    let mut buffer = [0xEEu8; PAGE_SIZE];
    assert_eq!(DiskManager::after_read(&mut buffer, 0, PAGE_SIZE), None);
    assert_eq!(buffer, [0xEEu8; PAGE_SIZE]);
    assert_eq!(DiskManager::after_read(&mut buffer, 7000, 999), Some(7999));
    assert_eq!(DiskManager::after_read(&mut buffer, 7999, 1), None);
    assert_eq!(buffer, [0xEEu8; PAGE_SIZE]);
}
