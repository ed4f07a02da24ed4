//! Utilities for working with many streams: the collections and the decision logic behind the
//! stream adapters, with their contracts proved.

pub mod callback;
pub mod collections;
pub mod compress;
pub mod concurrent;
pub mod connection_item;
pub mod deal;
pub mod echo;
pub mod events;
pub mod group_sequential;
pub mod multicast;
pub mod pinned_extend;
pub mod poll;
pub mod read_callback;
pub mod trie;
pub mod merge;
pub mod multi_item;
