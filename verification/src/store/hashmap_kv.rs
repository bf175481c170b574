//! A key-value store in memory, on a hash map.

use crate::store::RustyKV;
use vstd::hash_map::StringHashMap;
use vstd::prelude::*;

verus! {

/// A key-value store that keeps its values in a hash map. Nothing is
/// persisted and nothing is evicted.
#[verifier::reject_recursive_types(T)]
pub struct MapRustyKV<T> {
    data_store: StringHashMap<T>,
}

impl<T> MapRustyKV<T> {
    /// Stores `value` under `key`, which must be new to the store.
    pub fn create(&mut self, key: &str, value: T)
        requires
            !old(self).entries().contains_key(key@),
        ensures
            final(self).entries() == old(self).entries().insert(key@, value),
    {
        self.data_store.insert(key.to_owned(), value);
    }

    /// Stores `value` under `key` in place of the value that is stored
    /// under it.
    pub fn update(&mut self, key: &str, value: T)
        requires
            old(self).entries().contains_key(key@),
        ensures
            final(self).entries() == old(self).entries().insert(key@, value),
    {
        self.data_store.insert(key.to_owned(), value);
    }

    /// The value that is stored under `key`, which must be in the store.
    pub fn get(&self, key: &str) -> (value: &T)
        requires
            self.entries().contains_key(key@),
        ensures
            *value == self.entries()[key@],
    {
        self.data_store.get(key).unwrap()
    }

    /// Removes `key` and its value from the store. Returns whether the key
    /// was in the store.
    pub fn delete(&mut self, key: &str) -> (deleted: bool)
        ensures
            deleted == old(self).entries().contains_key(key@),
            final(self).entries() == old(self).entries().remove(key@),
    {
        let deleted = self.data_store.contains_key(key);
        self.data_store.remove(key);
        deleted
    }
}

impl<T> RustyKV<T> for MapRustyKV<T> {
    closed spec fn entries(&self) -> Map<Seq<char>, T> {
        self.data_store@
    }

    fn new() -> (store: Self) {
        MapRustyKV { data_store: StringHashMap::new() }
    }

    fn get(&self, key: &str) -> (value: Option<&T>) {
        self.data_store.get(key)
    }

    fn save(&mut self, key: &str, value: T) {
        self.data_store.insert(key.to_owned(), value);
    }

    fn delete(&mut self, key: &str) -> (deleted: bool) {
        let deleted = self.data_store.contains_key(key);
        self.data_store.remove(key);
        deleted
    }
}

} // verus!
