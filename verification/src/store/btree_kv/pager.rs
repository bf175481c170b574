//! Pagers: where pages are kept while they are not in a buffer pool.

use crate::store::btree_kv::helpers::byte_ops::{copy_into, lemma_overwritten, zeros};
use std::collections::HashMap;
use std::sync::Arc;
use vstd::prelude::*;

verus! {

broadcast use vstd::std_specs::hash::group_hash_axioms;

/// Size of one page in bytes.
pub const PAGE_SIZE: usize = 8000;

/// Identifies one page of a pager.
#[derive(Eq, Hash, PartialEq, Copy, Clone, Debug, Structural)]
pub struct PageId {
    pub id: u8,
}

impl PageId {
    /// The identifier with the number `id`.
    pub fn new(id: u8) -> (page_id: Self)
        ensures
            page_id.id == id,
    {
        PageId { id }
    }
}

/// `data`, filled up with zero bytes to the size of a page.
pub open spec fn padded_page(data: Seq<u8>) -> Seq<u8> {
    data + zeros(PAGE_SIZE - data.len())
}

/// Reads pages from a store and writes pages to it.
pub trait PagerTrait {
    /// The pages of the store by the numbers of their identifiers. A pager
    /// says here what it holds; one that does not say it holds pages that
    /// are not known.
    open spec fn pages(&self) -> Map<u8, Seq<u8>> {
        arbitrary()
    }

    /// The page with the identifier `id`, if the store holds it.
    fn read_page(&self, id: PageId) -> (page: Option<Arc<[u8; PAGE_SIZE]>>)
        ensures
            match page {
                Some(page) => self.pages().contains_key(id.id) && (*page)@ == self.pages()[id.id],
                None => !self.pages().contains_key(id.id),
            },
    ;

    /// Stores `data`, filled up with zero bytes to the size of a page, as
    /// the page with the identifier `id`.
    fn write_page(&mut self, id: PageId, data: &[u8])
        requires
            data@.len() <= PAGE_SIZE,
        ensures
            final(self).pages() == old(self).pages().insert(id.id, padded_page(data@)),
    ;
}

/// A pager that keeps its pages in memory.
pub struct Pager {
    data: HashMap<u8, [u8; PAGE_SIZE]>,
}

impl Pager {
    /// A pager without pages.
    pub fn new() -> (pager: Self)
        ensures
            pager.pages() == Map::<u8, Seq<u8>>::empty(),
    {
        let pager = Pager { data: HashMap::new() };
        proof {
            assert(pager.pages() =~= Map::<u8, Seq<u8>>::empty());
        }
        pager
    }
}

impl PagerTrait for Pager {
    closed spec fn pages(&self) -> Map<u8, Seq<u8>> {
        Map::new(|id: u8| self.data@.contains_key(id), |id: u8| self.data@[id]@)
    }

    fn read_page(&self, id: PageId) -> (page: Option<Arc<[u8; PAGE_SIZE]>>) {
        match self.data.get(&id.id) {
            Some(page) => Some(Arc::new(*page)),
            None => None,
        }
    }

    fn write_page(&mut self, id: PageId, data: &[u8]) {
        let mut page_data = [0u8; PAGE_SIZE];
        copy_into(&mut page_data, 0, data);
        proof {
            lemma_overwritten(zeros(PAGE_SIZE as int), 0, data@);
            assert(page_data@ =~= padded_page(data@));
        }
        self.data.insert(id.id, page_data);
        proof {
            assert(self.pages() =~= old(self).pages().insert(id.id, padded_page(data@)));
        }
    }
}

} // verus!
