//! Eviction policies: which of a bounded set of keys leaves next.

use crate::store::btree_kv::linked_set::{
    insertion_order, lemma_drop_first_no_duplicates, lemma_moved_to_back, linked_set_insert,
    linked_set_len, linked_set_pop_front, linked_set_with_capacity, moved_to_back,
    MAX_RESERVED_CAPACITY,
};
use linked_hash_set::LinkedHashSet;
use std::collections::hash_map::RandomState;
use std::hash::Hash;
use vstd::prelude::*;

verus! {

/// Tracks a bounded set of keys and decides which one is evicted next.
pub trait ICachePolicyEngine<T: Eq + Hash + Clone> {
    /// The tracked keys in the order in which they would be evicted: the
    /// key that leaves next stands first. An engine says here what it
    /// tracks.
    open spec fn order(&self) -> Seq<T> {
        arbitrary()
    }

    /// The number of keys that the engine may track at once.
    open spec fn capacity(&self) -> nat {
        arbitrary()
    }

    /// What holds of every engine between two calls.
    open spec fn well_formed(&self) -> bool {
        arbitrary()
    }

    /// Removes the key that stands first in the eviction order and returns it.
    fn evict(&mut self) -> (key: T)
        requires
            old(self).well_formed(),
            old(self).order().len() > 0,
        ensures
            final(self).well_formed(),
            final(self).capacity() == old(self).capacity(),
            key == old(self).order()[0],
            final(self).order() == old(self).order().drop_first(),
            !final(self).order().contains(key),
    ;

    /// The number of keys that are tracked.
    fn get_size(&self) -> (size: usize)
        requires
            self.well_formed(),
        ensures
            size == self.order().len(),
    ;

    /// Records a use of `item`, and starts to track it if it was not tracked.
    /// The caller keeps the engine within its capacity: a new key is only
    /// touched while there is room for it.
    fn touch(&mut self, item: &T)
        requires
            old(self).well_formed(),
            old(self).order().contains(*item) || old(self).order().len() < old(self).capacity(),
        ensures
            final(self).well_formed(),
            final(self).capacity() == old(self).capacity(),
            final(self).order().len() == if old(self).order().contains(*item) {
                old(self).order().len()
            } else {
                old(self).order().len() + 1
            },
            forall|key: T|
                final(self).order().contains(key) <==> (key == *item || old(self).order().contains(
                    key,
                )),
    ;
}

/// Evicts the key whose last use lies furthest back.
pub struct LRUCachePolicyEngine {
    cache: LinkedHashSet<usize, RandomState>,
    max_capacity: usize,
}

impl LRUCachePolicyEngine {
    /// An engine that tracks at most `capacity` keys and tracks none yet.
    pub fn new(capacity: usize) -> (engine: Self)
        requires
            capacity <= MAX_RESERVED_CAPACITY,
        ensures
            engine.well_formed(),
            engine.order() == Seq::<usize>::empty(),
            engine.capacity() == capacity,
    {
        LRUCachePolicyEngine { cache: linked_set_with_capacity(capacity), max_capacity: capacity }
    }
}

impl ICachePolicyEngine<usize> for LRUCachePolicyEngine {
    closed spec fn order(&self) -> Seq<usize> {
        insertion_order(self.cache)
    }

    closed spec fn capacity(&self) -> nat {
        self.max_capacity as nat
    }

    closed spec fn well_formed(&self) -> bool {
        &&& insertion_order(self.cache).no_duplicates()
        &&& insertion_order(self.cache).len() <= self.max_capacity
    }

    fn evict(&mut self) -> (key: usize) {
        proof {
            lemma_drop_first_no_duplicates(old(self).order());
        }
        linked_set_pop_front(&mut self.cache).unwrap()
    }

    fn get_size(&self) -> (size: usize) {
        linked_set_len(&self.cache)
    }

    /// The touched key becomes the most recently used one: it moves to the
    /// back of the eviction order, and the other keys keep their order.
    fn touch(&mut self, item: &usize)
        ensures
            final(self).order() == moved_to_back(old(self).order(), *item),
    {
        proof {
            lemma_moved_to_back(old(self).order(), *item);
        }
        linked_set_insert(&mut self.cache, *item);
    }
}

/// The policies by which an engine can be asked to evict.
pub enum EvictionPolicy {
    /// Least recently used.
    LRU,
    /// Least frequently used. No engine implements it.
    LFU,
}

/// Makes engines for eviction policies.
pub struct CachePolicyEngineFactory {}

impl CachePolicyEngineFactory {
    /// An engine for the given policy that tracks at most `capacity` keys
    /// and tracks none yet. Only the least-recently-used policy has an
    /// engine.
    pub fn get_engine(eviction_policy: EvictionPolicy, capacity: usize) -> (engine: Box<
        LRUCachePolicyEngine,
    >)
        requires
            eviction_policy is LRU,
            capacity <= MAX_RESERVED_CAPACITY,
        ensures
            engine.well_formed(),
            engine.order() == Seq::<usize>::empty(),
            engine.capacity() == capacity,
    {
        Box::new(LRUCachePolicyEngine::new(capacity))
    }
}

} // verus!
