use rusty_kv::store::btree_kv::commons::{PageId, PAGE_SIZE};
use rusty_kv::store::btree_kv::frame::{Frame, FrameHandler, FrameMetadata};
use std::ops::Deref;
use std::sync::Arc;

#[test]
fn frame_works() {
    let mut frame = Frame::default();

    assert_eq!(frame.data.deref().len(), PAGE_SIZE);

    let test_data: [u8; PAGE_SIZE] = [100u8; PAGE_SIZE];
    frame.data = Arc::from(test_data);

    assert_eq!(*frame.data.deref(), test_data);
}

#[test]
fn frame_metadata_works() {
    let mut frame_metadata = FrameMetadata::default();
    assert_eq!(frame_metadata.page_id.is_none(), true);
    assert_eq!(frame_metadata.is_dirty, false);

    frame_metadata.page_id = Some(PageId::new(1));
    frame_metadata.is_dirty = true;
}

#[test]
fn frame_handler_works() {
    let mut frame = Frame::default();
    let mut frame_metadata = FrameMetadata::default();

    let mut frame_handler = FrameHandler::new(&mut frame, &mut frame_metadata);

    let new_data = [100u8; PAGE_SIZE];
    frame_handler.set_data(new_data);

    assert_eq!(*frame_handler.get_data(), new_data);
    assert_eq!(frame_handler.is_dirty(), true);
}

#[test]
fn default_frame_is_zero_and_clean() {
    let mut frame = Frame::default();
    let mut frame_metadata = FrameMetadata::default();
    let frame_handler = FrameHandler::new(&mut frame, &mut frame_metadata);
    assert_eq!(*frame_handler.get_data(), [0u8; PAGE_SIZE]);
    assert_eq!(frame_handler.is_dirty(), false);
}

#[test]
fn set_data_reaches_frame_after_handler_is_gone() {
    let mut frame = Frame::default();
    let mut frame_metadata = FrameMetadata::default();
    frame_metadata.page_id = Some(PageId::new(7));
    {
        let mut frame_handler = FrameHandler::new(&mut frame, &mut frame_metadata);
        frame_handler.set_data([3u8; PAGE_SIZE]);
    }
    assert_eq!(*frame.data, [3u8; PAGE_SIZE]);
    assert!(frame_metadata.is_dirty);
    assert_eq!(frame_metadata.page_id.map(|id| id.value()), Some(7));
}

#[test]
fn page_id_keeps_its_value() {
    assert_eq!(PageId::new(42).value(), 42);
    assert_eq!(PageId::invalid().value(), u64::MAX);
    assert!(PageId::new(3) == PageId::new(3));
    assert!(PageId::new(3) != PageId::new(4));
}

#[test]
fn cloned_frame_reads_the_same_bytes() {
    let mut frame = Frame::default();
    frame.data = Arc::new([7u8; PAGE_SIZE]);
    let copy = frame.clone();
    assert_eq!(*copy.data, [7u8; PAGE_SIZE]);
    // The copy shares the buffer and keeps it when the frame gets a new one.
    assert!(Arc::ptr_eq(&copy.data, &frame.data));
    frame.data = Arc::new([8u8; PAGE_SIZE]);
    assert_eq!(*copy.data, [7u8; PAGE_SIZE]);
    assert_eq!(*frame.data, [8u8; PAGE_SIZE]);
}
