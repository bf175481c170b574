use rusty_kv::store::btree_kv::cache_manager;
use rusty_kv::store::btree_kv::cache_manager::{CacheManagerFactory, ICacheManager};
use rusty_kv::store::btree_kv::cache_policy_engine::{
    CachePolicyEngineFactory, EvictionPolicy, ICachePolicyEngine, LRUCachePolicyEngine,
};

#[test]
fn cache_manager_lru_cache_manager_works() {
    let mut cache_manager: Box<dyn ICacheManager<usize>> =
        CacheManagerFactory::get_cache_manager(cache_manager::EvictionPolicy::LRU, 2);

    let first_item = 10;
    let second_item = 20;
    let third_item = 30;
    cache_manager.add(&first_item);
    cache_manager.add(&second_item);

    assert_eq!(cache_manager.is_full(), true);
    assert_eq!(cache_manager.evict_cache(), first_item);

    cache_manager.add(&third_item); // Add a new item
    // Add an existing item. This should move it to the front of the queue.
    cache_manager.add(&second_item);
    assert_eq!(cache_manager.evict_cache(), third_item);
}

#[test]
fn cache_policy_engine_lru_cache_manager_works() {
    let max_capacity = 2;
    let mut cache_manager: Box<dyn ICachePolicyEngine<usize>> =
        CachePolicyEngineFactory::get_engine(EvictionPolicy::LRU, max_capacity);

    let first_item = 10;
    let second_item = 20;
    let third_item = 30;
    cache_manager.touch(&first_item);
    cache_manager.touch(&second_item);

    assert_eq!(cache_manager.get_size(), max_capacity);
    assert_eq!(cache_manager.evict(), first_item);

    cache_manager.touch(&third_item); // Add a new item
    // Add an existing item. This should move it to the front of the queue.
    cache_manager.touch(&second_item);
    assert_eq!(cache_manager.evict(), third_item);
}

#[test]
fn new_engine_tracks_nothing() {
    let engine = LRUCachePolicyEngine::new(4);
    assert_eq!(engine.get_size(), 0);
}

#[test]
fn touching_a_tracked_key_keeps_the_size() {
    let mut engine = LRUCachePolicyEngine::new(3);
    engine.touch(&1);
    engine.touch(&2);
    assert_eq!(engine.get_size(), 2);
    engine.touch(&1);
    assert_eq!(engine.get_size(), 2);
}

#[test]
fn engine_evicts_in_order_of_last_use() {
    let mut engine = LRUCachePolicyEngine::new(3);
    engine.touch(&1);
    engine.touch(&2);
    engine.touch(&3);
    engine.touch(&1);
    assert_eq!(engine.evict(), 2);
    assert_eq!(engine.evict(), 3);
    assert_eq!(engine.evict(), 1);
    assert_eq!(engine.get_size(), 0);
}

#[test]
fn full_cache_gives_up_its_oldest_key_on_add() {
    let mut cache = CacheManagerFactory::get_cache_manager(cache_manager::EvictionPolicy::LRU, 2);
    cache.add(&1);
    assert_eq!(cache.is_full(), false);
    cache.add(&2);
    assert_eq!(cache.is_full(), true);
    // The cache is full: 1 leaves before 3 comes.
    cache.add(&3);
    assert_eq!(cache.is_full(), true);
    assert_eq!(cache.evict_cache(), 2);
    assert_eq!(cache.evict_cache(), 3);
    assert_eq!(cache.is_full(), false);
}

#[test]
fn full_cache_evicts_even_when_the_key_is_cached() {
    let mut cache = CacheManagerFactory::get_cache_manager(cache_manager::EvictionPolicy::LRU, 2);
    cache.add(&1);
    cache.add(&2);
    // 2 is cached, but the cache is full: 1 leaves all the same.
    cache.add(&2);
    assert_eq!(cache.is_full(), false);
    assert_eq!(cache.evict_cache(), 2);
}
