//! Interfaces of collections of byte-string keys, grouped into named collections.

use vstd::prelude::*;

verus! {

/// Byte-string keys grouped into collections.
pub trait MultiTrie {
    /// The name of a collection.
    type Collection: ?Sized;

    /// Takes `key` out of `collection`.
    fn remove(&mut self, collection: &Self::Collection, key: &[u8]);

    /// Whether `collection` holds `key`.
    fn contains(&self, collection: &Self::Collection, key: &[u8]) -> bool;

    /// Takes every key out of `collection`.
    fn clear(&mut self, collection: &Self::Collection);

    /// Whether `collection` holds no key.
    fn is_empty(&self, collection: &Self::Collection) -> bool;

    /// How many keys `collection` holds.
    fn len(&self, collection: &Self::Collection) -> usize;
}

/// A [`MultiTrie`] that takes ownership of the collection name on insertion.
pub trait MultiTrieAddOwned: MultiTrie {
    /// Puts `key` into `collection`.
    fn add_owned(&mut self, collection: Self::Collection, key: &[u8])
        where Self::Collection: Sized
    ;
}

/// A [`MultiTrie`] that copies the collection name on insertion.
pub trait MultiTrieAddRef: MultiTrie {
    /// Puts `key` into `collection`.
    fn add_ref(&mut self, collection: &Self::Collection, key: &[u8]);
}

} // verus!
