//! Frames: the in-memory holders of page bytes.

use crate::store::btree_kv::commons::{PageId, PAGE_SIZE};
use std::sync::Arc;
use vstd::prelude::*;

verus! {

/// The bytes of one page while it is in memory. A frame holds nothing but
/// the data, so that the whole capacity of a buffer pool goes to pages. The
/// buffer is shared: a write never changes it in place but puts a new
/// buffer in its stead, so that a reader of the old one sees no torn page.
pub struct Frame {
    pub data: Arc<[u8; PAGE_SIZE]>,
}

/// `Arc::clone`: another handle on the buffer that `data` points to. No byte
/// is copied, and the new handle reads what `data` reads.
#[verifier::external_body]
fn share_buffer(data: &Arc<[u8; PAGE_SIZE]>) -> (shared: Arc<[u8; PAGE_SIZE]>)
    ensures
        shared == *data,
{
    Arc::clone(data)
}

impl Clone for Frame {
    /// A frame that shares the buffer of this one.
    fn clone(&self) -> (copy: Self)
        ensures
            copy == *self,
    {
        Frame { data: share_buffer(&self.data) }
    }
}

impl Frame {
    /// The bytes that the frame holds.
    pub open spec fn bytes(&self) -> Seq<u8> {
        (*self.data)@
    }
}

/// A page of zero bytes.
pub open spec fn zero_page() -> Seq<u8> {
    Seq::new(PAGE_SIZE as nat, |i: int| 0u8)
}

impl Default for Frame {
    fn default() -> (frame: Self)
        ensures
            frame.bytes() == zero_page(),
    {
        Frame { data: Arc::new([0u8; PAGE_SIZE]) }
    }
}

/// What a buffer pool knows of one frame.
#[derive(Clone, Copy)]
pub struct FrameMetadata {
    /// The page that the frame holds, if it holds one.
    pub page_id: Option<PageId>,
    /// Whether the frame was written to since its page was loaded.
    pub is_dirty: bool,
}

impl Default for FrameMetadata {
    fn default() -> (metadata: Self)
        ensures
            metadata.page_id is None,
            !metadata.is_dirty,
    {
        FrameMetadata { page_id: None, is_dirty: false }
    }
}

/// Exclusive access to one frame and its metadata for the time of one
/// access to the buffer pool.
pub struct FrameHandler<'a> {
    pub frame: &'a mut Frame,
    pub frame_metadata: &'a mut FrameMetadata,
}

impl<'a> FrameHandler<'a> {
    /// The bytes of the frame.
    pub open spec fn bytes(&self) -> Seq<u8> {
        self.frame.bytes()
    }

    /// The metadata of the frame.
    pub open spec fn metadata(&self) -> FrameMetadata {
        *self.frame_metadata
    }

    /// Binds a frame and its metadata together. What the handler leaves in
    /// them is what the two hold once the handler is gone.
    pub fn new(frame: &'a mut Frame, frame_metadata: &'a mut FrameMetadata) -> (handler: Self)
        ensures
            handler.bytes() == old(frame).bytes(),
            handler.metadata() == *old(frame_metadata),
            *final(frame) == *final(handler.frame),
            *final(frame_metadata) == *final(handler.frame_metadata),
    {
        FrameHandler { frame, frame_metadata }
    }

    /// Whether the frame was written to since its page was loaded.
    pub fn is_dirty(&self) -> (dirty: bool)
        ensures
            dirty == self.metadata().is_dirty,
    {
        self.frame_metadata.is_dirty
    }

    /// The bytes of the frame.
    pub fn get_data(&self) -> (data: &[u8; PAGE_SIZE])
        ensures
            data@ == self.bytes(),
    {
        &*self.frame.data
    }

    /// Replaces the bytes of the frame by `data` and marks the frame dirty.
    pub fn set_data(&mut self, data: [u8; PAGE_SIZE])
        ensures
            final(self).bytes() == data@,
            final(self).metadata().is_dirty,
            final(self).metadata().page_id == old(self).metadata().page_id,
            *final(final(self).frame) == *final(old(self).frame),
            *final(final(self).frame_metadata) == *final(old(self).frame_metadata),
    {
        self.frame.data = Arc::new(data);
        self.frame_metadata.is_dirty = true;
    }
}

} // verus!
