//! A self-evicting cache of keys: adding to a full cache makes room first.

use crate::store::btree_kv::linked_set::{
    insertion_order, lemma_drop_first_no_duplicates, lemma_moved_to_back, linked_set_insert,
    linked_set_len, linked_set_pop_front, linked_set_with_capacity, moved_to_back,
    MAX_RESERVED_CAPACITY,
};
use linked_hash_set::LinkedHashSet;
use std::collections::hash_map::RandomState;
use std::hash::Hash;
use vstd::prelude::*;

verus! {

/// Holds a bounded set of keys and gives up one of them whenever another
/// key is added to a full cache.
pub trait ICacheManager<T: Eq + Hash + Clone> {
    /// The cached keys in the order in which they would be evicted: the
    /// key that leaves next stands first. A cache says here what it holds.
    open spec fn order(&self) -> Seq<T> {
        arbitrary()
    }

    /// The number of keys from which on the cache counts as full.
    open spec fn capacity(&self) -> nat {
        arbitrary()
    }

    /// What holds of every cache between two calls.
    open spec fn well_formed(&self) -> bool {
        arbitrary()
    }

    /// Removes the key that stands first in the eviction order and returns it.
    fn evict_cache(&mut self) -> (key: T)
        requires
            old(self).well_formed(),
            old(self).order().len() > 0,
        ensures
            final(self).well_formed(),
            final(self).capacity() == old(self).capacity(),
            key == old(self).order()[0],
            final(self).order() == old(self).order().drop_first(),
            !final(self).order().contains(key),
    ;

    /// Whether the cache holds as many keys as its capacity allows.
    fn is_full(&self) -> (full: bool)
        requires
            self.well_formed(),
        ensures
            full == (self.order().len() >= self.capacity()),
    ;

    /// Adds `item`. A full cache first evicts the key that stands first in
    /// its eviction order, whether or not `item` is already cached.
    fn add(&mut self, item: &T)
        requires
            old(self).well_formed(),
            old(self).capacity() > 0,
        ensures
            final(self).well_formed(),
            final(self).capacity() == old(self).capacity(),
            final(self).order().contains(*item),
            forall|key: T|
                final(self).order().contains(key) ==> key == *item || old(self).order().contains(
                    key,
                ),
    ;
}

/// Evicts the key whose last use lies furthest back.
pub struct LRUCacheManager {
    cache: LinkedHashSet<usize, RandomState>,
    max_capacity: usize,
}

/// The order of a least-recently-used cache of the given capacity after
/// `item` was added to it.
pub open spec fn order_after_add(order: Seq<usize>, capacity: nat, item: usize) -> Seq<usize> {
    if order.len() >= capacity {
        moved_to_back(order.drop_first(), item)
    } else {
        moved_to_back(order, item)
    }
}

impl LRUCacheManager {
    /// A cache that is full at `capacity` keys and holds none yet.
    pub fn new(capacity: usize) -> (manager: Self)
        requires
            capacity <= MAX_RESERVED_CAPACITY,
        ensures
            manager.well_formed(),
            manager.order() == Seq::<usize>::empty(),
            manager.capacity() == capacity,
    {
        LRUCacheManager { cache: linked_set_with_capacity(capacity), max_capacity: capacity }
    }
}

impl ICacheManager<usize> for LRUCacheManager {
    closed spec fn order(&self) -> Seq<usize> {
        insertion_order(self.cache)
    }

    closed spec fn capacity(&self) -> nat {
        self.max_capacity as nat
    }

    closed spec fn well_formed(&self) -> bool {
        &&& insertion_order(self.cache).no_duplicates()
        &&& insertion_order(self.cache).len() <= self.max_capacity
    }

    fn evict_cache(&mut self) -> (key: usize) {
        proof {
            lemma_drop_first_no_duplicates(old(self).order());
        }
        linked_set_pop_front(&mut self.cache).unwrap()
    }

    fn is_full(&self) -> (full: bool) {
        linked_set_len(&self.cache) >= self.max_capacity
    }

    /// The added key becomes the most recently used one. A full cache has
    /// lost its least recently used key before.
    fn add(&mut self, item: &usize)
        ensures
            final(self).order() == order_after_add(old(self).order(), old(self).capacity(), *item),
    {
        if self.is_full() {
            self.evict_cache();
        }
        proof {
            lemma_moved_to_back(self.order(), *item);
            if old(self).order().len() >= old(self).capacity() {
                lemma_drop_first_no_duplicates(old(self).order());
            }
        }
        linked_set_insert(&mut self.cache, *item);
    }
}

/// The policies by which a cache can be asked to evict.
pub enum EvictionPolicy {
    /// Least recently used.
    LRU,
    /// Least frequently used. No cache implements it.
    LFU,
}

/// Makes caches for eviction policies.
pub struct CacheManagerFactory {}

impl CacheManagerFactory {
    /// A cache for the given policy that is full at `capacity` keys and
    /// holds none yet. Only the least-recently-used policy has a cache.
    pub fn get_cache_manager(eviction_policy: EvictionPolicy, capacity: usize) -> (manager: Box<
        LRUCacheManager,
    >)
        requires
            eviction_policy is LRU,
            capacity <= MAX_RESERVED_CAPACITY,
        ensures
            manager.well_formed(),
            manager.order() == Seq::<usize>::empty(),
            manager.capacity() == capacity,
    {
        Box::new(LRUCacheManager::new(capacity))
    }
}

} // verus!
