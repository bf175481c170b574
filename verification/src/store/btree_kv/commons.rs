use vstd::prelude::*;

verus! {

/// Size of one page in bytes: the unit of disk I/O and of caching.
pub const PAGE_SIZE: usize = 8000;

/// Identifies one page of the backing file. The page with identifier `n`
/// occupies the bytes `[n * PAGE_SIZE, (n + 1) * PAGE_SIZE)` of the file.
#[derive(Copy, Clone, Eq, PartialEq, Hash, Structural)]
pub struct PageId(pub u64);

impl PageId {
    /// An identifier that never names a stored page.
    pub fn invalid() -> (page_id: Self)
        ensures
            page_id == PageId(u64::MAX),
    {
        Self(u64::MAX)
    }

    /// The identifier with the number `id`.
    pub fn new(id: u64) -> (page_id: Self)
        ensures
            page_id == PageId(id),
    {
        Self(id)
    }

    /// The number of the identifier.
    pub fn value(&self) -> (id: u64)
        ensures
            id == self.0,
    {
        self.0
    }
}

} // verus!
