//! The buffer pool: a bounded number of pages held in memory.
//!
//! The pool does no I/O. Whoever owns the backing file drives the pool with
//! events and performs the actions that it answers with: a request for a
//! page is answered with the slot that holds it or with the order to read
//! it, a page that was read is taken into a vacant slot or into the slot of
//! the least recently used page, and a dirty page goes back to the file
//! before its slot is used again.

use crate::store::btree_kv::cache_policy_engine::{
    CachePolicyEngineFactory, EvictionPolicy, ICachePolicyEngine, LRUCachePolicyEngine,
};
use crate::store::btree_kv::commons::{PageId, PAGE_SIZE};
use crate::store::btree_kv::frame::{zero_page, Frame, FrameHandler, FrameMetadata};
use crate::store::btree_kv::linked_set::moved_to_back;
use std::collections::HashMap;
use std::sync::Arc;
use vstd::prelude::*;

verus! {

broadcast use vstd::std_specs::hash::group_hash_axioms;

/// A page that was read from the file and waits for the slot of a dirty
/// page that is on its way back to the file.
pub struct PendingLoad {
    pub page_id: PageId,
    pub frame: Frame,
    pub slot: usize,
}

/// What happened outside the pool.
pub enum PoolEvent {
    /// A client asks for a page.
    Requested(PageId),
    /// The page was read from the file; these are its bytes.
    Loaded(PageId, [u8; PAGE_SIZE]),
    /// The bytes handed out with the last `Write` are in the file.
    Written,
}

/// What the pool asks its driver to do next.
pub enum PoolAction {
    /// The page is in memory: hand out the handler of this slot.
    Serve(usize),
    /// Read this page from the file and report it as `Loaded`.
    Read(PageId),
    /// Write the bytes of this frame to the file as this page and report
    /// `Written`.
    Write(PageId, Frame),
    /// Nothing is to be done: no write was outstanding.
    Idle,
}

/// A `PoolAction` as plain values.
pub enum ActionView {
    Serve(usize),
    Read(PageId),
    Write(PageId, Seq<u8>),
    Idle,
}

impl PoolAction {
    /// The action as plain values.
    pub open spec fn view(&self) -> ActionView {
        match *self {
            PoolAction::Serve(slot) => ActionView::Serve(slot),
            PoolAction::Read(page_id) => ActionView::Read(page_id),
            PoolAction::Write(page_id, frame) => ActionView::Write(page_id, frame.bytes()),
            PoolAction::Idle => ActionView::Idle,
        }
    }
}

/// A load that waits for a write, as plain values.
pub struct PendingView {
    pub page_id: PageId,
    pub bytes: Seq<u8>,
    pub slot: usize,
}

/// The state of a buffer pool as plain values.
#[verifier::ext_equal]
pub struct PoolView {
    /// The bytes of each slot.
    pub frames: Seq<Seq<u8>>,
    /// The metadata of each slot.
    pub metadata: Seq<FrameMetadata>,
    /// The slot of each page that is in memory.
    pub lookup: Map<u64, usize>,
    /// The slots that hold a page, least recently used first.
    pub recency: Seq<usize>,
    /// The slots that hold no page. The last one is used first.
    pub vacant: Seq<usize>,
    /// The load that waits for a write, if one does.
    pub pending: Option<PendingView>,
}

impl PoolView {
    /// The number of slots.
    pub open spec fn slot_count(self) -> nat {
        self.frames.len()
    }

    /// Whether `slot` holds a page that the lookup table maps to it.
    pub open spec fn resident(self, slot: usize) -> bool {
        &&& slot < self.slot_count()
        &&& self.metadata[slot as int].page_id matches Some(page_id)
        &&& self.lookup.contains_key(page_id.0)
        &&& self.lookup[page_id.0] == slot
    }

    /// What holds of a pool in which `spare`, if it is a slot, is on its way
    /// from one use to the next. Every slot is vacant, or holds a page and
    /// stands in the recency order, or is the spare one, or waits for its
    /// dirty page to reach the file.
    pub open spec fn consistent(self, spare: Option<usize>) -> bool {
        &&& self.metadata.len() == self.frames.len()
        &&& forall|slot: int|
            0 <= slot < self.frames.len() ==> (#[trigger] self.frames[slot]).len() == PAGE_SIZE
        &&& self.recency.len() + self.vacant.len() + (if self.pending is Some {
            1nat
        } else {
            0nat
        }) + (if spare is Some {
            1nat
        } else {
            0nat
        }) == self.slot_count()
        &&& self.vacant.no_duplicates()
        &&& forall|slot: usize| #[trigger]
            self.vacant.contains(slot) ==> slot < self.slot_count() && !self.recency.contains(slot)
        &&& forall|slot: usize| #[trigger] self.recency.contains(slot) ==> self.resident(slot)
        &&& forall|page: u64| #[trigger]
            self.lookup.contains_key(page) ==> self.recency.contains(self.lookup[page])
                && self.metadata[self.lookup[page] as int].page_id == Some(PageId(page))
        &&& self.pending matches Some(pending) ==> {
            &&& pending.slot < self.slot_count()
            &&& pending.bytes.len() == PAGE_SIZE
            &&& self.metadata[pending.slot as int].page_id is Some
            &&& !self.recency.contains(pending.slot)
            &&& !self.vacant.contains(pending.slot)
            &&& !self.lookup.contains_key(pending.page_id.0)
            &&& spare != Some(pending.slot)
        }
        &&& spare matches Some(slot) ==> {
            &&& slot < self.slot_count()
            &&& !self.recency.contains(slot)
            &&& !self.vacant.contains(slot)
        }
    }

    /// What holds of every pool between two calls.
    pub open spec fn well_formed(self) -> bool {
        self.consistent(None)
    }

    /// The pool after the page in `slot` was used.
    pub open spec fn touched(self, slot: usize) -> PoolView {
        PoolView { recency: moved_to_back(self.recency, slot), ..self }
    }

    /// The pool after `slot` took the page `page_id` with the bytes `bytes`,
    /// as they came from the file.
    pub open spec fn installed(self, slot: usize, page_id: PageId, bytes: Seq<u8>) -> PoolView {
        PoolView {
            frames: self.frames.update(slot as int, bytes),
            metadata: self.metadata.update(
                slot as int,
                FrameMetadata { page_id: Some(page_id), is_dirty: false },
            ),
            lookup: self.lookup.insert(page_id.0, slot),
            recency: moved_to_back(self.recency, slot),
            ..self
        }
    }

    /// The pool after its least recently used page lost its slot.
    pub open spec fn evicted(self) -> PoolView {
        let slot = self.recency[0];
        let victim = self.metadata[slot as int].page_id->0;
        PoolView {
            recency: self.recency.drop_first(),
            lookup: self.lookup.remove(victim.0),
            ..self
        }
    }

    /// The write that is outstanding while a load is pending: the dirty page
    /// of the slot that the load waits for.
    pub open spec fn outstanding_write(self) -> ActionView {
        let slot = self.pending->0.slot;
        ActionView::Write(self.metadata[slot as int].page_id->0, self.frames[slot as int])
    }

    /// The pool after a page that is not in memory came from the file.
    pub open spec fn taken_in(self, page_id: PageId, bytes: Seq<u8>) -> (PoolView, ActionView) {
        if self.vacant.len() > 0 {
            let slot = self.vacant.last();
            let taken = PoolView { vacant: self.vacant.drop_last(), ..self };
            (taken.installed(slot, page_id, bytes), ActionView::Serve(slot))
        } else {
            let slot = self.recency[0];
            if self.metadata[slot as int].is_dirty {
                let waiting = PoolView {
                    pending: Some(PendingView { page_id, bytes, slot }),
                    ..self.evicted()
                };
                (waiting, waiting.outstanding_write())
            } else {
                (self.evicted().installed(slot, page_id, bytes), ActionView::Serve(slot))
            }
        }
    }

    /// The state that follows on an event, and the action that the pool
    /// answers with.
    ///
    /// While a load waits for a write, the pool answers every request and
    /// every load with that write and changes nothing, and the report of
    /// the write lets the waiting page take its slot. Without a load that
    /// waits, the report of a write changes nothing. A page in memory is
    /// served from its slot, which is marked as used last, whether the page
    /// is asked for or comes in once more. A request for another page asks
    /// for it to be read, and a page that was read goes to the vacant slot
    /// that was freed last or, if none is vacant, takes the slot of the
    /// least recently used page: at once if that page is clean, after its
    /// bytes were written if it is dirty.
    pub open spec fn step(self, event: PoolEvent) -> (PoolView, ActionView) {
        match event {
            PoolEvent::Written => match self.pending {
                Some(pending) => (
                    PoolView { pending: None, ..self }.installed(
                        pending.slot,
                        pending.page_id,
                        pending.bytes,
                    ),
                    ActionView::Serve(pending.slot),
                ),
                None => (self, ActionView::Idle),
            },
            PoolEvent::Requested(page_id) => if self.pending is Some {
                (self, self.outstanding_write())
            } else if self.lookup.contains_key(page_id.0) {
                (self.touched(self.lookup[page_id.0]), ActionView::Serve(self.lookup[page_id.0]))
            } else {
                (self, ActionView::Read(page_id))
            },
            PoolEvent::Loaded(page_id, data) => if self.pending is Some {
                (self, self.outstanding_write())
            } else if self.lookup.contains_key(page_id.0) {
                (self.touched(self.lookup[page_id.0]), ActionView::Serve(self.lookup[page_id.0]))
            } else {
                self.taken_in(page_id, data@)
            },
        }
    }
}

/// Keeps a bounded number of pages in memory and decides which page gives
/// up its slot when another one comes in.
pub struct BufferPoolManager {
    /// Capacity of the pool in bytes.
    capacity: usize,
    /// The frames, one per slot.
    buffer_pool: Vec<Frame>,
    /// The metadata of the frames.
    buffer_pool_metadata: Vec<FrameMetadata>,
    /// The slot of each page that is in memory, by the page's identifier.
    buffer_pool_lookup: HashMap<u64, usize>,
    /// Decides which slot is given up next.
    cache_engine: Box<LRUCachePolicyEngine>,
    /// The slots that hold no page.
    vacant_slots: Vec<usize>,
    /// The load that waits for a write, if one does.
    pending: Option<PendingLoad>,
}

impl BufferPoolManager {
    /// The state of the pool as plain values.
    pub closed spec fn view(&self) -> PoolView {
        PoolView {
            frames: Seq::new(self.buffer_pool@.len(), |slot: int| self.buffer_pool@[slot].bytes()),
            metadata: self.buffer_pool_metadata@,
            lookup: self.buffer_pool_lookup@,
            recency: self.cache_engine.order(),
            vacant: self.vacant_slots@,
            pending: match self.pending {
                Some(pending) => Some(
                    PendingView {
                        page_id: pending.page_id,
                        bytes: pending.frame.bytes(),
                        slot: pending.slot,
                    },
                ),
                None => None,
            },
        }
    }

    /// The capacity in bytes that the pool was made with.
    pub closed spec fn byte_capacity(&self) -> usize {
        self.capacity
    }

    closed spec fn sound(&self, spare: Option<usize>) -> bool {
        &&& self@.consistent(spare)
        &&& self.cache_engine.well_formed()
        &&& self.cache_engine.capacity() == self.buffer_pool@.len()
    }

    /// What holds of every pool between two calls.
    pub closed spec fn well_formed(&self) -> bool {
        self.sound(None)
    }

    /// A well-formed pool has a well-formed state.
    pub proof fn lemma_view_well_formed(&self)
        requires
            self.well_formed(),
        ensures
            self@.well_formed(),
    {
    }

    /// A pool of `size / PAGE_SIZE` slots, all of them vacant and filled
    /// with zero bytes.
    pub fn new(size: usize) -> (pool: Self)
        ensures
            pool.well_formed(),
            pool.byte_capacity() == size,
            pool@.slot_count() == size / PAGE_SIZE,
            pool@.frames == Seq::new((size / PAGE_SIZE) as nat, |slot: int| zero_page()),
            pool@.metadata == Seq::new(
                (size / PAGE_SIZE) as nat,
                |slot: int| FrameMetadata { page_id: None, is_dirty: false },
            ),
            pool@.lookup == Map::<u64, usize>::empty(),
            pool@.recency == Seq::<usize>::empty(),
            pool@.vacant == Seq::new((size / PAGE_SIZE) as nat, |slot: int| slot as usize),
            pool@.pending is None,
    {
        let buffer_pool_slots = size / PAGE_SIZE;
        let mut buffer_pool: Vec<Frame> = Vec::new();
        let mut buffer_pool_metadata: Vec<FrameMetadata> = Vec::new();
        let mut vacant_slots: Vec<usize> = Vec::new();
        let mut slot: usize = 0;
        while slot < buffer_pool_slots
            invariant
                slot <= buffer_pool_slots,
                buffer_pool@.len() == slot,
                buffer_pool_metadata@.len() == slot,
                vacant_slots@.len() == slot,
                forall|i: int|
                    0 <= i < slot ==> (#[trigger] buffer_pool@[i]).bytes() == zero_page(),
                forall|i: int|
                    0 <= i < slot ==> #[trigger] buffer_pool_metadata@[i] == (FrameMetadata {
                        page_id: None,
                        is_dirty: false,
                    }),
                forall|i: int| 0 <= i < slot ==> #[trigger] vacant_slots@[i] == i,
            decreases buffer_pool_slots - slot,
        {
            buffer_pool.push(Frame::default());
            buffer_pool_metadata.push(FrameMetadata::default());
            vacant_slots.push(slot);
            slot += 1;
        }
        let pool = BufferPoolManager {
            capacity: size,
            buffer_pool,
            buffer_pool_metadata,
            buffer_pool_lookup: HashMap::new(),
            cache_engine: CachePolicyEngineFactory::get_engine(
                EvictionPolicy::LRU,
                buffer_pool_slots,
            ),
            vacant_slots,
            pending: None,
        };
        proof {
            assert(pool@.frames =~= Seq::new(buffer_pool_slots as nat, |slot: int| zero_page()));
            assert(pool@.metadata =~= Seq::new(
                buffer_pool_slots as nat,
                |slot: int| FrameMetadata { page_id: None, is_dirty: false },
            ));
            assert(pool@.vacant =~= Seq::new(buffer_pool_slots as nat, |slot: int| slot as usize));
            assert forall|slot: usize| #[trigger] pool@.vacant.contains(slot) implies slot
                < pool@.slot_count() && !pool@.recency.contains(slot) by {
                let i = choose|i: int| 0 <= i < pool@.vacant.len() && pool@.vacant[i] == slot;
                assert(pool@.vacant[i] == i);
            }
        }
        pool
    }

    /// The capacity in bytes that the pool was made with.
    pub fn capacity(&self) -> (capacity: usize)
        ensures
            capacity == self.byte_capacity(),
    {
        self.capacity
    }

    /// The number of slots.
    pub fn slot_count(&self) -> (count: usize)
        requires
            self.well_formed(),
        ensures
            count == self@.slot_count(),
    {
        self.buffer_pool.len()
    }

    /// The number of slots that hold no page.
    pub fn vacant_count(&self) -> (count: usize)
        ensures
            count == self@.vacant.len(),
    {
        self.vacant_slots.len()
    }

    /// Whether the page is in memory.
    pub fn is_page_in_lookup(&self, page_id: &PageId) -> (found: bool)
        ensures
            found == self@.lookup.contains_key(page_id.0),
    {
        self.buffer_pool_lookup.contains_key(&page_id.0)
    }

    /// Whether a load waits for the write of a dirty page.
    pub fn has_pending_write(&self) -> (waiting: bool)
        ensures
            waiting == (self@.pending is Some),
    {
        self.pending.is_some()
    }

    /// Exclusive access to the frame of `slot` and its metadata. What the
    /// handler leaves in them is what the pool holds once the handler is
    /// gone. The pool stays well-formed if the handler leaves the frame
    /// with the page it had.
    pub fn frame_handler(&mut self, slot: usize) -> (handler: FrameHandler<'_>)
        requires
            old(self).well_formed(),
            slot < old(self)@.slot_count(),
        ensures
            handler.bytes() == old(self)@.frames[slot as int],
            handler.metadata() == old(self)@.metadata[slot as int],
            final(self)@ == (PoolView {
                frames: old(self)@.frames.update(slot as int, final(handler.frame).bytes()),
                metadata: old(self)@.metadata.update(slot as int, *final(handler.frame_metadata)),
                ..old(self)@
            }),
            final(self).byte_capacity() == old(self).byte_capacity(),
            final(handler.frame_metadata).page_id == old(self)@.metadata[slot as int].page_id
                ==> final(self).well_formed(),
    {
        FrameHandler::new(&mut self.buffer_pool[slot], &mut self.buffer_pool_metadata[slot])
    }

    /// The handler of the page if it is in memory, which counts as a use of
    /// the page; `None`, with the pool unchanged, if the page is not in
    /// memory or a load waits for a write.
    pub fn get(&mut self, page_id: PageId) -> (handler: Option<FrameHandler<'_>>)
        requires
            old(self).well_formed(),
        ensures
            handler is Some <==> old(self)@.lookup.contains_key(page_id.0) && old(self)@.pending
                is None,
            handler matches Some(handler) ==> {
                let slot = old(self)@.lookup[page_id.0];
                let used = old(self)@.touched(slot);
                &&& handler.bytes() == used.frames[slot as int]
                &&& handler.metadata() == used.metadata[slot as int]
                &&& final(self)@ == (PoolView {
                    frames: used.frames.update(slot as int, final(handler.frame).bytes()),
                    metadata: used.metadata.update(slot as int, *final(handler.frame_metadata)),
                    ..used
                })
                &&& final(handler.frame_metadata).page_id == used.metadata[slot as int].page_id
                    ==> final(self).well_formed()
            },
            handler is None ==> final(self)@ == old(self)@ && final(self).well_formed(),
            final(self).byte_capacity() == old(self).byte_capacity(),
    {
        if self.pending.is_some() {
            return None;
        }
        match self.step(PoolEvent::Requested(page_id)) {
            PoolAction::Serve(slot) => Some(self.frame_handler(slot)),
            _ => None,
        }
    }

    /// Takes the least recently used page out of the recency order and out
    /// of the lookup table, and returns its slot. The frame and its
    /// metadata stay as they are.
    fn evict_slot(&mut self) -> (slot: usize)
        requires
            old(self).well_formed(),
            old(self)@.pending is None,
            old(self)@.recency.len() > 0,
        ensures
            final(self).sound(Some(slot)),
            slot == old(self)@.recency[0],
            final(self)@ == old(self)@.evicted(),
            final(self).capacity == old(self).capacity,
    {
        let ghost before = self@;
        let evicted_index = self.cache_engine.evict();
        proof {
            assert(before.recency.contains(evicted_index));
            assert(before.resident(evicted_index));
        }
        let evicted_page_id = self.buffer_pool_metadata[evicted_index].page_id.unwrap();
        self.buffer_pool_lookup.remove(&evicted_page_id.0);
        proof {
            let after = self@;
            assert(after.frames =~= before.frames);
            assert(after == before.evicted());
            assert forall|slot: usize| after.recency.contains(slot) implies before.recency.contains(
                slot,
            ) && slot != evicted_index by {
                let i = choose|i: int| 0 <= i < after.recency.len() && after.recency[i] == slot;
                assert(before.recency[i + 1] == slot);
            }
            assert forall|slot: usize| #[trigger]
                after.recency.contains(slot) implies after.resident(slot) by {
                assert(before.resident(slot));
            }
            assert forall|page: u64| #[trigger]
                after.lookup.contains_key(page) implies after.recency.contains(after.lookup[page])
                && after.metadata[after.lookup[page] as int].page_id == Some(PageId(page)) by {
                assert(before.lookup.contains_key(page));
                let slot = before.lookup[page];
                let i = choose|i: int| 0 <= i < before.recency.len() && before.recency[i] == slot;
                assert(i > 0);
                assert(after.recency[i - 1] == slot);
            }
        }
        evicted_index
    }

    /// Puts the page into `slot`, which is on its way to its next use, and
    /// marks the slot as used last.
    fn install(&mut self, slot: usize, page_id: PageId, frame: Frame)
        requires
            old(self).sound(Some(slot)),
            old(self)@.pending is None,
            !old(self)@.lookup.contains_key(page_id.0),
        ensures
            final(self).well_formed(),
            final(self)@ == old(self)@.installed(slot, page_id, frame.bytes()),
            final(self).capacity == old(self).capacity,
    {
        let ghost before = self@;
        self.buffer_pool[slot] = frame;
        self.buffer_pool_metadata[slot].page_id = Some(page_id);
        self.buffer_pool_metadata[slot].is_dirty = false;
        self.buffer_pool_lookup.insert(page_id.0, slot);
        self.cache_engine.touch(&slot);
        proof {
            let after = self@;
            assert(after.frames =~= before.frames.update(slot as int, frame.bytes()));
            assert(after.metadata =~= before.metadata.update(
                slot as int,
                FrameMetadata { page_id: Some(page_id), is_dirty: false },
            ));
            assert(after == before.installed(slot, page_id, frame.bytes()));
            assert forall|other: usize| #[trigger]
                after.recency.contains(other) implies after.resident(other) by {
                if other != slot {
                    assert(before.recency.contains(other));
                    assert(before.resident(other));
                }
            }
            assert forall|page: u64| #[trigger]
                after.lookup.contains_key(page) implies after.recency.contains(after.lookup[page])
                && after.metadata[after.lookup[page] as int].page_id == Some(PageId(page)) by {
                if page != page_id.0 {
                    assert(before.lookup.contains_key(page));
                    assert(before.recency.contains(before.lookup[page]));
                }
            }
        }
    }

    /// Marks the page in `slot` as used last.
    fn touch_slot(&mut self, slot: usize)
        requires
            old(self).well_formed(),
            old(self)@.recency.contains(slot),
        ensures
            final(self).well_formed(),
            final(self)@ == old(self)@.touched(slot),
            final(self).capacity == old(self).capacity,
    {
        let ghost before = self@;
        self.cache_engine.touch(&slot);
        proof {
            let after = self@;
            assert(after.frames =~= before.frames);
            assert(after == before.touched(slot));
            assert forall|other: usize| #[trigger]
                after.recency.contains(other) implies after.resident(other) by {
                assert(before.recency.contains(other));
                assert(before.resident(other));
            }
            assert forall|page: u64| #[trigger]
                after.lookup.contains_key(page) implies after.recency.contains(after.lookup[page])
                && after.metadata[after.lookup[page] as int].page_id == Some(PageId(page)) by {
                assert(before.recency.contains(before.lookup[page]));
            }
        }
    }

    /// The write that is outstanding while a load is pending.
    fn outstanding_write(&self) -> (action: PoolAction)
        requires
            self.well_formed(),
            self@.pending is Some,
        ensures
            action@ == self@.outstanding_write(),
    {
        match &self.pending {
            Some(pending) => {
                let victim = self.buffer_pool_metadata[pending.slot].page_id.unwrap();
                PoolAction::Write(victim, self.buffer_pool[pending.slot].clone())
            },
            None => PoolAction::Idle,
        }
    }

    /// Takes the event into the state of the pool and returns the action
    /// that the pool answers with. A page can only be taken in by a pool
    /// that has a slot.
    pub fn step(&mut self, event: PoolEvent) -> (action: PoolAction)
        requires
            old(self).well_formed(),
            event is Loaded ==> old(self)@.slot_count() > 0,
        ensures
            final(self).well_formed(),
            final(self)@ == old(self)@.step(event).0,
            action@ == old(self)@.step(event).1,
            final(self).byte_capacity() == old(self).byte_capacity(),
    {
        match event {
            PoolEvent::Written => {
                match self.pending.take() {
                    Some(pending) => {
                        proof {
                            assert(self@ == (PoolView { pending: None, ..old(self)@ }));
                        }
                        self.install(pending.slot, pending.page_id, pending.frame);
                        PoolAction::Serve(pending.slot)
                    },
                    None => {
                        proof {
                            assert(self@ == old(self)@);
                        }
                        PoolAction::Idle
                    },
                }
            },
            PoolEvent::Requested(page_id) => {
                if self.pending.is_some() {
                    return self.outstanding_write();
                }
                match self.buffer_pool_lookup.get(&page_id.0) {
                    Some(frame_index) => {
                        let frame_index = *frame_index;
                        self.touch_slot(frame_index);
                        PoolAction::Serve(frame_index)
                    },
                    None => PoolAction::Read(page_id),
                }
            },
            PoolEvent::Loaded(page_id, data) => {
                if self.pending.is_some() {
                    return self.outstanding_write();
                }
                match self.buffer_pool_lookup.get(&page_id.0) {
                    Some(frame_index) => {
                        let frame_index = *frame_index;
                        self.touch_slot(frame_index);
                        PoolAction::Serve(frame_index)
                    },
                    None => self.take_in(page_id, data),
                }
            },
        }
    }

    /// Takes in a page that came from the file and is not in memory.
    fn take_in(&mut self, page_id: PageId, data: [u8; PAGE_SIZE]) -> (action: PoolAction)
        requires
            old(self).well_formed(),
            old(self)@.pending is None,
            old(self)@.slot_count() > 0,
            !old(self)@.lookup.contains_key(page_id.0),
        ensures
            final(self).well_formed(),
            final(self)@ == old(self)@.taken_in(page_id, data@).0,
            action@ == old(self)@.taken_in(page_id, data@).1,
            final(self).capacity == old(self).capacity,
    {
        let ghost before = self@;
        let frame = Frame { data: Arc::new(data) };
        match self.vacant_slots.pop() {
            Some(frame_index) => {
                proof {
                    let taken = PoolView { vacant: before.vacant.drop_last(), ..before };
                    assert(self@.frames =~= before.frames);
                    assert(self@ == taken);
                    assert(before.vacant.contains(frame_index)) by {
                        assert(before.vacant[before.vacant.len() - 1] == frame_index);
                    }
                    assert forall|slot: usize| #[trigger] taken.vacant.contains(slot) implies slot
                        < taken.slot_count() && !taken.recency.contains(slot) && slot
                        != frame_index by {
                        let i = choose|i: int|
                            0 <= i < taken.vacant.len() && taken.vacant[i] == slot;
                        assert(before.vacant[i] == slot);
                        assert(before.vacant.contains(slot));
                        assert(before.vacant[i] != before.vacant[before.vacant.len() - 1]);
                    }
                    assert(taken.vacant.no_duplicates());
                }
                self.install(frame_index, page_id, frame);
                PoolAction::Serve(frame_index)
            },
            None => {
                proof {
                    assert(self@.frames =~= before.frames);
                    assert(self@ == before);
                }
                let frame_index = self.evict_slot();
                proof {
                    assert(before.recency.contains(frame_index));
                    assert(before.resident(frame_index));
                }
                if self.buffer_pool_metadata[frame_index].is_dirty {
                    self.pending = Some(PendingLoad { page_id, frame, slot: frame_index });
                    proof {
                        assert(frame.bytes().len() == PAGE_SIZE);
                        let waiting = PoolView {
                            pending: Some(
                                PendingView { page_id, bytes: data@, slot: frame_index },
                            ),
                            ..before.evicted()
                        };
                        assert(self@.frames =~= waiting.frames);
                        assert(self@ == waiting);
                    }
                    self.outstanding_write()
                } else {
                    self.install(frame_index, page_id, frame);
                    PoolAction::Serve(frame_index)
                }
            },
        }
    }
}

/// A page that comes into a pool without a vacant slot takes the slot of
/// the least recently used page: at once if that page is clean, once its
/// bytes are written if it is dirty. That page leaves the pool, and every
/// other page stays in it.
pub proof fn lemma_load_evicts_least_recently_used(
    pool: PoolView,
    page_id: PageId,
    data: [u8; PAGE_SIZE],
)
    requires
        pool.well_formed(),
        pool.pending is None,
        pool.vacant.len() == 0,
        pool.slot_count() > 0,
        !pool.lookup.contains_key(page_id.0),
    ensures
        ({
            let slot = pool.recency[0];
            let victim = pool.metadata[slot as int].page_id->0;
            let loaded = pool.step(PoolEvent::Loaded(page_id, data)).0;
            let settled = if loaded.pending is Some {
                loaded.step(PoolEvent::Written).0
            } else {
                loaded
            };
            &&& pool.lookup.contains_key(victim.0)
            &&& pool.lookup[victim.0] == slot
            &&& settled.lookup == pool.lookup.remove(victim.0).insert(page_id.0, slot)
            &&& settled.frames[slot as int] == data@
            &&& settled.pending is None
        }),
{
    let slot = pool.recency[0];
    assert(pool.recency.contains(slot));
    assert(pool.resident(slot));
}

/// A dirty page that loses its slot goes to the file with the bytes that it
/// has in memory, and a clean page that loses its slot is not written.
pub proof fn lemma_dirty_page_is_written_back(
    pool: PoolView,
    page_id: PageId,
    data: [u8; PAGE_SIZE],
)
    requires
        pool.well_formed(),
        pool.pending is None,
        pool.vacant.len() == 0,
        pool.slot_count() > 0,
        !pool.lookup.contains_key(page_id.0),
    ensures
        ({
            let slot = pool.recency[0];
            let victim = pool.metadata[slot as int].page_id->0;
            let action = pool.step(PoolEvent::Loaded(page_id, data)).1;
            &&& pool.metadata[slot as int].is_dirty ==> action == ActionView::Write(
                victim,
                pool.frames[slot as int],
            )
            &&& !pool.metadata[slot as int].is_dirty ==> action == ActionView::Serve(slot)
        }),
{
}

/// A pool with a vacant slot takes a page in without giving up another one.
pub proof fn lemma_load_into_vacant_slot(pool: PoolView, page_id: PageId, data: [u8; PAGE_SIZE])
    requires
        pool.well_formed(),
        pool.pending is None,
        pool.vacant.len() > 0,
        !pool.lookup.contains_key(page_id.0),
    ensures
        ({
            let (loaded, action) = pool.step(PoolEvent::Loaded(page_id, data));
            &&& action == ActionView::Serve(pool.vacant.last())
            &&& loaded.lookup == pool.lookup.insert(page_id.0, pool.vacant.last())
            &&& loaded.frames[pool.vacant.last() as int] == data@
        }),
{
    assert(pool.vacant.contains(pool.vacant.last())) by {
        assert(pool.vacant[pool.vacant.len() - 1] == pool.vacant.last());
    }
}

} // verus!
