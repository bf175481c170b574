//! Key-value stores.

use vstd::prelude::*;

pub mod btree_kv;
pub mod hashmap_kv;

verus! {

/// The basic operations of a key-value store.
pub trait RustyKV<T>: Sized {
    /// The values of the store by their keys. A store says here what it
    /// holds.
    open spec fn entries(&self) -> Map<Seq<char>, T> {
        arbitrary()
    }

    /// A store that holds nothing.
    fn new() -> (store: Self)
        ensures
            store.entries() == Map::<Seq<char>, T>::empty(),
    ;

    /// The value that is stored under `key`, if there is one.
    fn get(&self, key: &str) -> (value: Option<&T>)
        ensures
            match value {
                Some(value) => self.entries().contains_key(key@) && *value == self.entries()[key@],
                None => !self.entries().contains_key(key@),
            },
    ;

    /// Stores `value` under `key`, in place of the value that was stored
    /// under it, if there was one.
    fn save(&mut self, key: &str, value: T)
        ensures
            final(self).entries() == old(self).entries().insert(key@, value),
    ;

    /// Removes `key` and its value from the store. Returns whether the key
    /// was in the store.
    fn delete(&mut self, key: &str) -> (deleted: bool)
        ensures
            deleted == old(self).entries().contains_key(key@),
            final(self).entries() == old(self).entries().remove(key@),
    ;
}

} // verus!
