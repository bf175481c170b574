//! The page accounting of the backing file.
//!
//! The backing file is one flat file without a header: page `n` occupies
//! the bytes `[n * PAGE_SIZE, (n + 1) * PAGE_SIZE)`. This file holds what
//! is decided about it: where a page stands, which identifier the next new
//! page gets, and how a read that meets the end of the file is completed.
//! The reads and writes themselves are done by the owner of the file.

use crate::store::btree_kv::commons::{PageId, PAGE_SIZE};
use crate::store::btree_kv::frame::zero_page;
use crate::store::btree_kv::helpers::byte_ops::{fill_zero, lemma_overwritten, overwritten, zeros};
use vstd::prelude::*;

verus! {

/// Hands out page identifiers and places pages in the backing file.
pub struct DiskManager {
    num_pages: usize,
}

impl DiskManager {
    /// The number of pages that the file is taken to hold: those that it
    /// held when it was opened and those that were allocated since.
    pub closed spec fn page_count(&self) -> usize {
        self.num_pages
    }

    /// The number of whole pages in a file of `file_length` bytes.
    pub open spec fn pages_in(file_length: u64) -> usize {
        (file_length / (PAGE_SIZE as u64)) as usize
    }

    /// A manager for a file that is `file_length` bytes long when it is
    /// opened. New pages are allocated behind the whole pages of the file,
    /// so that no page of the file is overwritten by a new one.
    pub fn new(file_length: u64) -> (manager: Self)
        ensures
            manager.page_count() == Self::pages_in(file_length),
    {
        let num_pages = #[verifier::truncate]
        ((file_length / PAGE_SIZE as u64) as usize);
        Self { num_pages }
    }

    /// The number of pages that the file is taken to hold.
    pub fn num_pages(&self) -> (count: usize)
        ensures
            count == self.page_count(),
    {
        self.num_pages
    }

    /// The place in the file at which the page starts, if that place is a
    /// 64-bit number.
    pub fn page_offset(id: &PageId) -> (offset: Option<u64>)
        ensures
            id.0 * PAGE_SIZE <= u64::MAX ==> offset == Some((id.0 * PAGE_SIZE) as u64),
            id.0 * PAGE_SIZE > u64::MAX ==> offset is None,
    {
        id.value().checked_mul(PAGE_SIZE as u64)
    }

    /// Takes in what one read of the file brought while a page is read.
    /// `bytes_read` bytes of the page were in `buffer` before, and the read
    /// has put `count` more bytes behind them. A read that brought nothing
    /// has met the end of the file: the rest of the page is filled with
    /// zero bytes and the page is complete. Otherwise the page is complete
    /// once it is full. Returns the number of bytes from which the next
    /// read goes on, or `None` when the page is complete.
    pub fn after_read(buffer: &mut [u8; PAGE_SIZE], bytes_read: usize, count: usize) -> (next:
        Option<usize>)
        requires
            bytes_read < PAGE_SIZE,
            count <= PAGE_SIZE - bytes_read,
        ensures
            count == 0 ==> {
                &&& next is None
                &&& final(buffer)@ == overwritten(
                    old(buffer)@,
                    bytes_read as int,
                    zeros(PAGE_SIZE - bytes_read),
                )
            },
            count == 0 && bytes_read == 0 ==> final(buffer)@ == zero_page(),
            count > 0 ==> {
                &&& final(buffer)@ == old(buffer)@
                &&& next == if bytes_read + count < PAGE_SIZE {
                    Some((bytes_read + count) as usize)
                } else {
                    None
                }
            },
    {
        if count == 0 {
            fill_zero(buffer, bytes_read, PAGE_SIZE);
            proof {
                lemma_overwritten(old(buffer)@, bytes_read as int, zeros(PAGE_SIZE - bytes_read));
                if bytes_read == 0 {
                    assert(buffer@ =~= zero_page());
                }
            }
            None
        } else if bytes_read + count < PAGE_SIZE {
            Some(bytes_read + count)
        } else {
            None
        }
    }

    /// A new page: its identifier is the number of pages that the file was
    /// taken to hold, and no page before it was given this identifier.
    pub fn allocate_page(&mut self) -> (page_id: PageId)
        requires
            old(self).page_count() < usize::MAX,
        ensures
            page_id == PageId(old(self).page_count() as u64),
            final(self).page_count() == old(self).page_count() + 1,
    {
        let page_id = PageId::new(self.num_pages as u64);
        self.num_pages += 1;
        page_id
    }
}

} // verus!
