//! A buffer pool of a fixed number of frames over a pager.
//!
//! The pool keeps pages of the pager in memory. A page that is asked for
//! and is not in memory is read from the pager into a vacant frame or, if
//! none is vacant, into the frame of the least recently used page, which
//! goes back to the pager first if it is dirty.

use crate::store::btree_kv::pager::{padded_page, PageId, PagerTrait, PAGE_SIZE};
use std::collections::{HashMap, VecDeque};
use vstd::prelude::*;

verus! {

broadcast use vstd::std_specs::hash::group_hash_axioms;

/// The number of frames of a pool.
pub const SLOT_COUNT: usize = 10;

/// The number of bytes of the frames of a pool.
pub const BUFFER_POOL_SIZE: usize = SLOT_COUNT * PAGE_SIZE;

/// Metadata for a frame in buffer pool.
#[derive(Clone, Copy)]
pub struct FrameMetadata {
    /// The page that the frame holds, if it holds one.
    pub page_id: Option<PageId>,
    /// Whether the frame was written to since its page was read.
    pub is_dirty: bool,
}

impl Default for FrameMetadata {
    fn default() -> (metadata: Self)
        ensures
            metadata.page_id is None,
            !metadata.is_dirty,
    {
        FrameMetadata { page_id: None, is_dirty: false }
    }
}

/// `recency` without `slot`.
pub open spec fn without_slot(recency: Seq<usize>, slot: usize) -> Seq<usize> {
    if recency.contains(slot) {
        recency.remove(recency.index_of(slot))
    } else {
        recency
    }
}

/// `recency` after `slot` was used: the slot stands first.
pub open spec fn used_first(recency: Seq<usize>, slot: usize) -> Seq<usize> {
    seq![slot] + without_slot(recency, slot)
}

/// The state of a pool and of its pager as plain values.
#[verifier::ext_equal]
pub struct PoolState {
    /// The bytes of each frame.
    pub frames: Seq<Seq<u8>>,
    /// The metadata of each frame.
    pub metadata: Seq<FrameMetadata>,
    /// The frame of each page that is in memory.
    pub lookup: Map<u8, usize>,
    /// The frames that hold no page. The last one is used first.
    pub vacant: Seq<usize>,
    /// The frames that hold a page, most recently used first.
    pub recency: Seq<usize>,
    /// The pages of the pager.
    pub stored: Map<u8, Seq<u8>>,
}

impl PoolState {
    /// Whether `slot` holds a page that the lookup table maps to it.
    pub open spec fn resident(self, slot: usize) -> bool {
        &&& slot < SLOT_COUNT
        &&& self.metadata[slot as int].page_id matches Some(page_id)
        &&& self.lookup.contains_key(page_id.id)
        &&& self.lookup[page_id.id] == slot
    }

    /// What holds of a pool in which `spare` frames are on their way from
    /// one use to the next: every other frame is vacant or holds a page and
    /// stands in the recency order.
    pub open spec fn consistent(self, spare: nat) -> bool {
        &&& self.frames.len() == SLOT_COUNT
        &&& self.metadata.len() == SLOT_COUNT
        &&& forall|slot: int|
            0 <= slot < SLOT_COUNT ==> (#[trigger] self.frames[slot]).len() == PAGE_SIZE
        &&& self.recency.len() + self.vacant.len() + spare == SLOT_COUNT
        &&& self.vacant.no_duplicates()
        &&& self.recency.no_duplicates()
        &&& forall|slot: usize| #[trigger]
            self.vacant.contains(slot) ==> slot < SLOT_COUNT && !self.recency.contains(slot)
        &&& forall|slot: usize| #[trigger] self.recency.contains(slot) ==> self.resident(slot)
        &&& forall|page: u8| #[trigger]
            self.lookup.contains_key(page) ==> self.recency.contains(self.lookup[page])
                && self.metadata[self.lookup[page] as int].page_id == Some(PageId { id: page })
    }

    /// What holds of every pool between two calls.
    pub open spec fn well_formed(self) -> bool {
        self.consistent(0)
    }

    /// The pool after its least recently used page left its frame: a dirty
    /// page has gone to the pager, and the frame holds no page.
    pub open spec fn evicted(self) -> PoolState {
        let slot = self.recency.last();
        let victim = self.metadata[slot as int].page_id->0;
        PoolState {
            metadata: self.metadata.update(
                slot as int,
                FrameMetadata { page_id: None, is_dirty: false },
            ),
            lookup: self.lookup.remove(victim.id),
            recency: self.recency.drop_last(),
            stored: if self.metadata[slot as int].is_dirty {
                self.stored.insert(victim.id, self.frames[slot as int])
            } else {
                self.stored
            },
            ..self
        }
    }

    /// The frame that the next page goes to: the vacant frame that was freed
    /// last or, if none is vacant, the frame of the least recently used
    /// page.
    pub open spec fn next_slot(self) -> usize {
        if self.vacant.len() > 0 {
            self.vacant.last()
        } else {
            self.recency.last()
        }
    }

    /// The pool after the page `id` with the bytes `bytes` took the next
    /// frame.
    pub open spec fn allocated(self, id: PageId, bytes: Seq<u8>) -> PoolState {
        let slot = self.next_slot();
        let freed = if self.vacant.len() > 0 {
            PoolState { vacant: self.vacant.drop_last(), ..self }
        } else {
            self.evicted()
        };
        PoolState {
            frames: freed.frames.update(slot as int, bytes),
            metadata: freed.metadata.update(
                slot as int,
                FrameMetadata { page_id: Some(id), is_dirty: false },
            ),
            lookup: freed.lookup.insert(id.id, slot),
            recency: used_first(freed.recency, slot),
            ..freed
        }
    }

    /// The pool after the page `id` was asked for.
    pub open spec fn after_get(self, id: PageId) -> PoolState {
        if self.lookup.contains_key(id.id) {
            PoolState { recency: used_first(self.recency, self.lookup[id.id]), ..self }
        } else {
            self.allocated(id, self.stored[id.id])
        }
    }

    /// The frame that serves the page `id` when it is asked for.
    pub open spec fn slot_of(self, id: PageId) -> usize {
        if self.lookup.contains_key(id.id) {
            self.lookup[id.id]
        } else {
            self.next_slot()
        }
    }

    /// The bytes of the page `id`: those in memory if the page is in memory,
    /// else those of the pager.
    pub open spec fn page_bytes(self, id: PageId) -> Seq<u8> {
        if self.lookup.contains_key(id.id) {
            self.frames[self.lookup[id.id] as int]
        } else {
            self.stored[id.id]
        }
    }
}

/// Using a slot puts it first, keeps every other slot that was in the
/// order, and keeps the order free of repetitions.
pub proof fn lemma_used_first(recency: Seq<usize>, slot: usize)
    requires
        recency.no_duplicates(),
    ensures
        used_first(recency, slot).no_duplicates(),
        used_first(recency, slot)[0] == slot,
        used_first(recency, slot).len() == if recency.contains(slot) {
            recency.len()
        } else {
            recency.len() + 1
        },
        forall|other: usize|
            used_first(recency, slot).contains(other) <==> (other == slot || recency.contains(
                other,
            )),
{
    let rest = without_slot(recency, slot);
    let used = used_first(recency, slot);
    assert forall|other: usize| rest.contains(other) <==> (other != slot && recency.contains(
        other,
    )) by {
        if recency.contains(slot) {
            let at = recency.index_of(slot);
            if rest.contains(other) {
                let i = choose|i: int| 0 <= i < rest.len() && rest[i] == other;
                let before = if i < at {
                    i
                } else {
                    i + 1
                };
                assert(recency[before] == other);
            }
            if other != slot && recency.contains(other) {
                let i = choose|i: int| 0 <= i < recency.len() && recency[i] == other;
                let after = if i < at {
                    i
                } else {
                    i - 1
                };
                assert(rest[after] == other);
            }
        }
    }
    assert forall|i: int, j: int| 0 <= i < j < rest.len() implies rest[i] != rest[j] by {
        if recency.contains(slot) {
            let at = recency.index_of(slot);
            let before_i = if i < at {
                i
            } else {
                i + 1
            };
            let before_j = if j < at {
                j
            } else {
                j + 1
            };
            assert(rest[i] == recency[before_i] && rest[j] == recency[before_j]);
        }
    }
    assert forall|i: int, j: int| 0 <= i < j < used.len() implies used[i] != used[j] by {
        assert(used[j] == rest[j - 1]);
        assert(rest.contains(used[j]));
        if i > 0 {
            assert(used[i] == rest[i - 1]);
        }
    }
    assert forall|other: usize| used.contains(other) <==> (other == slot || recency.contains(
        other,
    )) by {
        if used.contains(other) {
            let i = choose|i: int| 0 <= i < used.len() && used[i] == other;
            if i > 0 {
                assert(rest[i - 1] == other);
                assert(rest.contains(other));
            }
        }
        if other == slot {
            assert(used[0] == slot);
        } else if recency.contains(other) {
            assert(rest.contains(other));
            let i = choose|i: int| 0 <= i < rest.len() && rest[i] == other;
            assert(used[i + 1] == other);
        }
    }
}

/// Buffer pool over a pager. Keeps frames in memory for quick access.
pub struct BufferPoolManager<P: PagerTrait> {
    /// The frames: one page of bytes for each slot.
    frames: [[u8; PAGE_SIZE]; SLOT_COUNT],
    /// Metadata for frames.
    frame_metadata: [FrameMetadata; SLOT_COUNT],
    /// The slot of each page that is in memory, by the number of the page.
    lookup: HashMap<u8, usize>,
    /// The slots that hold no page.
    vacant_frames: Vec<usize>,
    /// The slots that hold a page, most recently used first.
    lru_frames: VecDeque<usize>,
    /// The pager that the pages come from and go back to.
    pager: P,
}

impl<P: PagerTrait> BufferPoolManager<P> {
    /// The state of the pool and of its pager as plain values.
    pub closed spec fn view(&self) -> PoolState {
        PoolState {
            frames: Seq::new(SLOT_COUNT as nat, |slot: int| self.frames@[slot]@),
            metadata: self.frame_metadata@,
            lookup: self.lookup@,
            vacant: self.vacant_frames@,
            recency: self.lru_frames@,
            stored: self.pager.pages(),
        }
    }

    /// What holds of every pool between two calls.
    pub closed spec fn well_formed(&self) -> bool {
        self@.well_formed()
    }

    /// A well-formed pool has a well-formed state.
    pub proof fn lemma_view_well_formed(&self)
        requires
            self.well_formed(),
        ensures
            self@.well_formed(),
    {
    }

    /// A pool over `pager` whose frames are all vacant and filled with zero
    /// bytes.
    pub fn new(pager: P) -> (pool: Self)
        ensures
            pool.well_formed(),
            pool@.lookup == Map::<u8, usize>::empty(),
            pool@.recency == Seq::<usize>::empty(),
            pool@.vacant == Seq::new(SLOT_COUNT as nat, |slot: int| slot as usize),
            pool@.stored == pager.pages(),
            forall|slot: int|
                0 <= slot < SLOT_COUNT ==> #[trigger] pool@.frames[slot] == Seq::new(
                    PAGE_SIZE as nat,
                    |i: int| 0u8,
                ),
    {
        let mut vacant_frames: Vec<usize> = Vec::new();
        let mut slot: usize = 0;
        while slot < SLOT_COUNT
            invariant
                slot <= SLOT_COUNT,
                vacant_frames@.len() == slot,
                forall|i: int| 0 <= i < slot ==> #[trigger] vacant_frames@[i] == i,
            decreases SLOT_COUNT - slot,
        {
            vacant_frames.push(slot);
            slot += 1;
        }
        let pool = BufferPoolManager {
            frames: [[0u8; PAGE_SIZE]; SLOT_COUNT],
            frame_metadata: [FrameMetadata { page_id: None, is_dirty: false }; SLOT_COUNT],
            lookup: HashMap::new(),
            vacant_frames,
            lru_frames: VecDeque::new(),
            pager,
        };
        proof {
            assert(pool@.vacant =~= Seq::new(SLOT_COUNT as nat, |slot: int| slot as usize));
            assert forall|slot: usize| #[trigger] pool@.vacant.contains(slot) implies slot
                < SLOT_COUNT && !pool@.recency.contains(slot) by {
                let i = choose|i: int| 0 <= i < pool@.vacant.len() && pool@.vacant[i] == slot;
                assert(pool@.vacant[i] == i);
            }
            assert forall|slot: int| 0 <= slot < SLOT_COUNT implies #[trigger] pool@.frames[slot]
                == Seq::new(PAGE_SIZE as nat, |i: int| 0u8) by {
                assert(pool@.frames[slot] =~= Seq::new(PAGE_SIZE as nat, |i: int| 0u8));
            }
        }
        pool
    }

    /// The bytes of the page `id`. A page that is not in memory is read from
    /// the pager, which must hold it. Asking for a page counts as a use of
    /// it.
    pub fn get_page(&mut self, id: &PageId) -> (page: &[u8; PAGE_SIZE])
        requires
            old(self).well_formed(),
            old(self)@.lookup.contains_key(id.id) || old(self)@.stored.contains_key(id.id),
        ensures
            final(self).well_formed(),
            page@ == old(self)@.page_bytes(*id),
            final(self)@ == old(self)@.after_get(*id),
            final(self)@.frames[old(self)@.slot_of(*id) as int] == page@,
    {
        let frame_index = match self.lookup.get(&id.id) {
            Some(lookup_index) => {
                let lookup_index = *lookup_index;
                proof {
                    assert(self@.recency.contains(lookup_index));
                }
                self.touch_frame(lookup_index);
                lookup_index
            },
            None => {
                // Fetch data from the pager.
                let page_data = self.pager.read_page(*id).unwrap();
                // Allocate a frame for the page.
                self.allocate_frame(*id, &*page_data)
            },
        };
        &self.frames[frame_index]
    }

    /// Marks the frame `frame_index` as the one that was used last.
    fn touch_frame(&mut self, frame_index: usize)
        requires
            old(self)@.recency.no_duplicates(),
        ensures
            final(self)@ == (PoolState {
                recency: used_first(old(self)@.recency, frame_index),
                ..old(self)@
            }),
            old(self)@.consistent(0) && old(self)@.recency.contains(frame_index)
                ==> final(self)@.consistent(0),
    {
        let ghost before = self@;
        let count = self.lru_frames.len();
        let mut position: usize = 0;
        let mut found = false;
        while position < count
            invariant_except_break
                !found,
            invariant
                position <= count,
                count == self.lru_frames@.len(),
                self@ == before,
                forall|i: int| 0 <= i < position ==> self.lru_frames@[i] != frame_index,
            ensures
                self@ == before,
                position <= count,
                count == self.lru_frames@.len(),
                found ==> position < count && self.lru_frames@[position as int] == frame_index,
                !found ==> !self.lru_frames@.contains(frame_index),
            decreases count - position,
        {
            if self.lru_frames[position] == frame_index {
                found = true;
                break ;
            }
            position += 1;
        }
        if found {
            proof {
                let chosen = before.recency.index_of(frame_index);
                assert(before.recency[position as int] == frame_index);
                assert(before.recency.contains(frame_index));
                assert(chosen == position);
            }
            // Remove item from the queue.
            self.lru_frames.remove(position);
        }
        // Push frame index to the front.
        self.lru_frames.push_front(frame_index);
        proof {
            let after = self@;
            assert(after.frames =~= before.frames);
            assert(after.recency =~= used_first(before.recency, frame_index));
            assert(after == (PoolState {
                recency: used_first(before.recency, frame_index),
                ..before
            }));
            lemma_used_first(before.recency, frame_index);
            if before.consistent(0) && before.recency.contains(frame_index) {
                assert forall|slot: usize| #[trigger]
                    after.recency.contains(slot) implies after.resident(slot) by {
                    assert(before.recency.contains(slot));
                    assert(before.resident(slot));
                }
                assert forall|page: u8| #[trigger]
                    after.lookup.contains_key(page) implies after.recency.contains(
                    after.lookup[page],
                ) && after.metadata[after.lookup[page] as int].page_id == Some(
                    PageId { id: page },
                ) by {
                    assert(before.recency.contains(before.lookup[page]));
                }
            }
        }
    }

    /// Puts the page `id` with the bytes `data` into the next frame and
    /// returns the slot of the frame.
    fn allocate_frame(&mut self, id: PageId, data: &[u8; PAGE_SIZE]) -> (slot: usize)
        requires
            old(self).well_formed(),
            !old(self)@.lookup.contains_key(id.id),
        ensures
            final(self).well_formed(),
            slot == old(self)@.next_slot(),
            slot < SLOT_COUNT,
            final(self)@ == old(self)@.allocated(id, data@),
            final(self)@.frames[slot as int] == data@,
    {
        let ghost before = self@;
        let vacant_index = match self.vacant_frames.pop() {
            Some(vacant_index) => {
                proof {
                    let taken = PoolState { vacant: before.vacant.drop_last(), ..before };
                    assert(self@.frames =~= before.frames);
                    assert(self@ == taken);
                    assert(before.vacant.contains(vacant_index)) by {
                        assert(before.vacant[before.vacant.len() - 1] == vacant_index);
                    }
                    assert forall|slot: usize| #[trigger] taken.vacant.contains(slot) implies slot
                        < SLOT_COUNT && !taken.recency.contains(slot) && slot != vacant_index by {
                        let i = choose|i: int|
                            0 <= i < taken.vacant.len() && taken.vacant[i] == slot;
                        assert(before.vacant[i] == slot);
                        assert(before.vacant.contains(slot));
                        assert(before.vacant[i] != before.vacant[before.vacant.len() - 1]);
                    }
                    assert(taken.vacant.no_duplicates());
                }
                vacant_index
            },
            None => {
                proof {
                    assert(self@.frames =~= before.frames);
                    assert(self@ == before);
                }
                // No space in the pool. Evict a frame.
                self.evict_lru_frame()
            },
        };
        let ghost freed = self@;
        // Update frame data.
        self.frames[vacant_index] = *data;
        // Update frame metadata.
        self.frame_metadata[vacant_index].is_dirty = false;
        self.frame_metadata[vacant_index].page_id = Some(id);
        // Add frame to lookup.
        self.lookup.insert(id.id, vacant_index);
        proof {
            let filled = self@;
            assert(filled.frames =~= freed.frames.update(vacant_index as int, data@));
            assert(filled.metadata =~= freed.metadata.update(
                vacant_index as int,
                FrameMetadata { page_id: Some(id), is_dirty: false },
            ));
            assert(filled == (PoolState {
                frames: freed.frames.update(vacant_index as int, data@),
                metadata: freed.metadata.update(
                    vacant_index as int,
                    FrameMetadata { page_id: Some(id), is_dirty: false },
                ),
                lookup: freed.lookup.insert(id.id, vacant_index),
                ..freed
            }));
        }
        let ghost filled = self@;
        // Update the recency order.
        self.touch_frame(vacant_index);
        proof {
            let after = self@;
            lemma_used_first(freed.recency, vacant_index);
            assert(after == before.allocated(id, data@));
            assert forall|slot: usize| #[trigger]
                after.recency.contains(slot) implies after.resident(slot) by {
                if slot != vacant_index {
                    assert(freed.recency.contains(slot));
                    assert(freed.resident(slot));
                }
            }
            assert forall|page: u8| #[trigger]
                after.lookup.contains_key(page) implies after.recency.contains(after.lookup[page])
                && after.metadata[after.lookup[page] as int].page_id == Some(
                PageId { id: page },
            ) by {
                if page != id.id {
                    assert(freed.lookup.contains_key(page));
                    assert(freed.recency.contains(freed.lookup[page]));
                }
            }
        }
        vacant_index
    }

    /// Takes the least recently used page out of its frame, writes it to
    /// the pager if it is dirty, and returns the slot of the frame.
    fn evict_lru_frame(&mut self) -> (slot: usize)
        requires
            old(self).well_formed(),
            old(self)@.recency.len() > 0,
        ensures
            final(self)@.consistent(1),
            slot == old(self)@.recency.last(),
            slot < SLOT_COUNT,
            !final(self)@.recency.contains(slot),
            !final(self)@.vacant.contains(slot),
            final(self)@ == old(self)@.evicted(),
            forall|page: u8|
                final(self)@.lookup.contains_key(page) ==> old(self)@.lookup.contains_key(page),
    {
        let ghost before = self@;
        let evicted_index = self.lru_frames.pop_back().unwrap();
        proof {
            assert(before.recency[before.recency.len() - 1] == evicted_index);
            assert(before.recency.contains(evicted_index));
            assert(before.resident(evicted_index));
        }
        let evicted_frame_metadata = self.frame_metadata[evicted_index];
        let evicted_page_id = evicted_frame_metadata.page_id.unwrap();
        if evicted_frame_metadata.is_dirty {
            // Evicted index is dirty.
            self.pager.write_page(evicted_page_id, &self.frames[evicted_index]);
            proof {
                assert(padded_page(before.frames[evicted_index as int])
                    =~= before.frames[evicted_index as int]);
            }
        }
        // Remove the page from lookup.
        self.lookup.remove(&evicted_page_id.id);
        // Reset the evicted metadata.
        self.frame_metadata[evicted_index].page_id = None;
        self.frame_metadata[evicted_index].is_dirty = false;
        proof {
            let after = self@;
            assert(after.frames =~= before.frames);
            assert(after.metadata =~= before.metadata.update(
                evicted_index as int,
                FrameMetadata { page_id: None, is_dirty: false },
            ));
            assert(after == before.evicted());
            assert forall|slot: usize| after.recency.contains(slot) implies before.recency.contains(
                slot,
            ) && slot != evicted_index by {
                let i = choose|i: int| 0 <= i < after.recency.len() && after.recency[i] == slot;
                assert(before.recency[i] == slot);
                assert(before.recency[i] != before.recency[before.recency.len() - 1]);
            }
            assert forall|i: int, j: int| 0 <= i < j < after.recency.len() implies after.recency[i]
                != after.recency[j] by {
                assert(after.recency[i] == before.recency[i]);
                assert(after.recency[j] == before.recency[j]);
            }
            assert forall|slot: usize| #[trigger]
                after.recency.contains(slot) implies after.resident(slot) by {
                assert(before.resident(slot));
            }
            assert forall|page: u8| #[trigger]
                after.lookup.contains_key(page) implies after.recency.contains(after.lookup[page])
                && after.metadata[after.lookup[page] as int].page_id == Some(
                PageId { id: page },
            ) by {
                assert(before.lookup.contains_key(page));
                let slot = before.lookup[page];
                let i = choose|i: int| 0 <= i < before.recency.len() && before.recency[i] == slot;
                assert(i < before.recency.len() - 1);
                assert(after.recency[i] == slot);
            }
        }
        evicted_index
    }

    /// Whether the page is in memory.
    pub fn is_page_in_lookup(&self, page_id: &PageId) -> (found: bool)
        ensures
            found == self@.lookup.contains_key(page_id.id),
    {
        self.lookup.contains_key(&page_id.id)
    }
}

} // verus!
